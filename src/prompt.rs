//! Commands that ask the learner to pick one of a few lettered options.

use crate::text::{chars_of, push_char, push_str, trim_str, trimmed};
use vstd::prelude::*;

verus! {

/// The letter that asks for the list of options.
pub const HELP_LETTER: char = '?';

/// One line of help: `<letter> - <doc>`.
pub open spec fn option_help_text(letter: char, doc: Seq<char>) -> Seq<char> {
    seq![letter] + " - "@ + doc + seq!['\n']
}

pub fn option_help(letter: char, doc: &str) -> (r: String)
    ensures
        r@ == option_help_text(letter, doc@),
{
    let mut r = String::new();
    push_char(&mut r, letter);
    push_str(&mut r, " - ");
    push_str(&mut r, doc);
    push_char(&mut r, '\n');
    r
}

/// An option that a learner picks by typing its letter.
pub trait CmdOption {
    spec fn spec_letter(&self) -> char;

    spec fn spec_doc(&self) -> Seq<char>;

    fn letter(&self) -> (r: char)
        ensures
            r == self.spec_letter(),
    ;

    fn doc(&self) -> (r: &str)
        ensures
            r@ == self.spec_doc(),
    ;
}

/// The help line of an option.
pub fn help_of<T: CmdOption>(option: &T) -> (r: String)
    ensures
        r@ == option_help_text(option.spec_letter(), option.spec_doc()),
{
    option_help(option.letter(), option.doc())
}

/// What a line of input picked.
pub enum ParsingResult<T> {
    Help,
    Chosen(T),
    Unknown,
}

/// The letters of `options`, each followed by `, `.
pub open spec fn letters_text<T: CmdOption>(options: Seq<T>) -> Seq<char>
    decreases options.len(),
{
    if options.len() == 0 {
        Seq::empty()
    } else {
        letters_text(options.drop_last()) + seq![options.last().spec_letter(), ',', ' ']
    }
}

/// The help lines of `options`, in order.
pub open spec fn helps_text<T: CmdOption>(options: Seq<T>) -> Seq<char>
    decreases options.len(),
{
    if options.len() == 0 {
        Seq::empty()
    } else {
        helps_text(options.drop_last()) + option_help_text(options.last().spec_letter(), options.last().spec_doc())
    }
}

/// The first option whose letter is `c`.
pub open spec fn first_with_letter<T: CmdOption>(options: Seq<T>, c: char) -> Option<int> {
    if exists|i: int| 0 <= i < options.len() && options[i].spec_letter() == c {
        Some(
            choose|i: int|
                0 <= i < options.len() && options[i].spec_letter() == c && forall|j: int|
                    0 <= j < i ==> options[j].spec_letter() != c,
        )
    } else {
        None
    }
}

/// A question with the options that answer it.
pub struct Command<'a, T: CmdOption> {
    question: &'a str,
    options: &'a [T],
}

impl<'a, T: CmdOption> Command<'a, T> {
    pub closed spec fn spec_question(&self) -> Seq<char> {
        self.question@
    }

    pub closed spec fn spec_options(&self) -> Seq<T> {
        self.options@
    }

    /// A command over at least one option.
    pub fn new(question: &'a str, options: &'a [T]) -> (r: Self)
        requires
            options@.len() > 0,
        ensures
            r.spec_question() == question@,
            r.spec_options() == options@,
    {
        Command { question, options }
    }

    /// `<question> [<letter>, ..., ?]? `
    pub fn prompt(&self) -> (r: String)
        ensures
            r@ == self.spec_question() + " ["@ + letters_text(self.spec_options()) + seq![HELP_LETTER] + "]? "@,
    {
        let mut prompt = String::new();
        push_str(&mut prompt, self.question);
        push_str(&mut prompt, " [");
        let ghost start = prompt@;
        for i in 0..self.options.len()
            invariant
                prompt@ == start + letters_text(self.options@.take(i as int)),
        {
            push_char(&mut prompt, self.options[i].letter());
            push_str(&mut prompt, ", ");
            proof {
                let t = self.options@.take(i as int + 1);
                assert(t.drop_last() == self.options@.take(i as int));
                assert(", "@ == seq![',', ' ']) by {
                    reveal_strlit(", ");
                }
            }
        }
        assert(self.options@.take(self.options@.len() as int) == self.options@);
        push_char(&mut prompt, HELP_LETTER);
        push_str(&mut prompt, "]? ");
        prompt
    }

    /// One help line per option, then one for the help letter.
    pub fn help(&self) -> (r: String)
        ensures
            r@ == helps_text(self.spec_options()) + option_help_text(HELP_LETTER, "help"@),
    {
        let mut help = String::new();
        for i in 0..self.options.len()
            invariant
                help@ == helps_text(self.options@.take(i as int)),
        {
            let line = help_of(&self.options[i]);
            push_str(&mut help, line.as_str());
            assert(self.options@.take(i as int + 1).drop_last() == self.options@.take(i as int));
        }
        assert(self.options@.take(self.options@.len() as int) == self.options@);
        let last = option_help(HELP_LETTER, "help");
        push_str(&mut help, last.as_str());
        help
    }

    /// Reads one line of input: the help letter, the letter of an option (the
    /// first one with it), or anything else. White space around it is ignored;
    /// what is left must be a single ASCII character.
    pub fn parse(&self, input: &str) -> (r: ParsingResult<&'a T>)
        ensures
            ({
                let t = trimmed(input@);
                if t.len() != 1 || t[0] >= '\u{80}' {
                    r is Unknown
                } else if t[0] == HELP_LETTER {
                    r is Help
                } else {
                    match first_with_letter(self.spec_options(), t[0]) {
                        Some(i) => r is Chosen && *r->Chosen_0 == self.spec_options()[i],
                        None => r is Unknown,
                    }
                }
            }),
    {
        let t = chars_of(trim_str(input));
        if t.len() != 1 {
            return ParsingResult::Unknown;
        }
        let c = t[0];
        if c >= '\u{80}' {
            return ParsingResult::Unknown;
        }
        if c == HELP_LETTER {
            return ParsingResult::Help;
        }
        for i in 0..self.options.len()
            invariant
                t@.len() == 1,
                c == t@[0],
                t@ == trimmed(input@),
                c != HELP_LETTER,
                c < '\u{80}',
                forall|j: int| 0 <= j < i ==> self.options@[j].spec_letter() != c,
        {
            if self.options[i].letter() == c {
                proof {
                    assert(first_with_letter(self.options@, c) == Some(i as int)) by {
                        let k = choose|k: int|
                            0 <= k < self.options@.len() && self.options@[k].spec_letter() == c && forall|j: int|
                                0 <= j < k ==> self.options@[j].spec_letter() != c;
                        assert(0 <= i < self.options@.len() && self.options@[i as int].spec_letter() == c);
                        if k < i {
                            assert(self.options@[k].spec_letter() != c);
                        } else if k > i {
                            assert(self.options@[i as int].spec_letter() != c);
                        }
                    }
                }
                return ParsingResult::Chosen(&self.options[i]);
            }
        }
        ParsingResult::Unknown
    }
}

} // verus!

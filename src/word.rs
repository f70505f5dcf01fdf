//! A pair of word variants stored as one tab-separated line.

use crate::text::{chars_of, push_char, push_str, split_chars, split_on, string_of};
use vstd::prelude::*;

verus! {

pub struct Word {
    variant_a: String,
    variant_b: String,
}

/// What a stored line holds, or why it holds no word.
pub open spec fn word_of_line(line: Seq<char>) -> Result<(Seq<char>, Seq<char>), Seq<char>> {
    let parts = split_on(line, '\t');
    if parts.len() != 2 {
        Err("Invalid number of TAB separated tokens."@)
    } else {
        Ok((parts[0], parts[1]))
    }
}

impl Word {
    pub closed spec fn spec_variants(&self) -> (Seq<char>, Seq<char>) {
        (self.variant_a@, self.variant_b@)
    }

    pub fn new(variant_a: String, variant_b: String) -> (r: Word)
        ensures
            r.spec_variants() == (variant_a@, variant_b@),
    {
        Word { variant_a, variant_b }
    }

    pub fn variants(&self) -> (r: (&str, &str))
        ensures
            (r.0@, r.1@) == self.spec_variants(),
    {
        (self.variant_a.as_str(), self.variant_b.as_str())
    }

    /// Both variants separated by a tab, ending with a line feed.
    pub fn serialize(&self) -> (r: String)
        ensures
            r@ == self.spec_variants().0 + seq!['\t'] + self.spec_variants().1 + seq!['\n'],
    {
        let mut line = String::new();
        push_str(&mut line, self.variant_a.as_str());
        push_char(&mut line, '\t');
        push_str(&mut line, self.variant_b.as_str());
        push_char(&mut line, '\n');
        line
    }

    /// Reads the two tab-separated variants of `line`.
    pub fn deserialize(line: &str) -> (r: Result<Word, String>)
        ensures
            match word_of_line(line@) {
                Ok(v) => r is Ok && r->Ok_0.spec_variants() == v,
                Err(msg) => r is Err && r->Err_0@ == msg,
            },
    {
        let chars = chars_of(line);
        let parts = split_chars(chars.as_slice(), '\t');
        if parts.len() != 2 {
            let mut msg = String::new();
            push_str(&mut msg, "Invalid number of TAB separated tokens.");
            return Err(msg);
        }
        Ok(Word::new(string_of(&parts[0]), string_of(&parts[1])))
    }
}

} // verus!

//! Flash cards: a question, its answer and the identifier that ties them to
//! their schedule.

use crate::text::{
    dec_text, file_lines, lemma_split_on_nonempty, write_dec, chars_of, hex_scan, hex_text, push_char, push_str, scan_hex, split_chars, split_on, string_of,
    trim_str, trimmed, write_hex, DigitsError,
};
use vstd::prelude::*;

verus! {

/// Hexadecimal digits in a written identifier.
pub const ID_DIGITS: usize = 16;

/// A unit of learning: a question and its answer.
pub struct Card {
    id: u64,
    question: String,
    answer: String,
}

/// The identifier that `s` spells: hexadecimal digits of either case after an
/// optional `+`.
pub open spec fn id_value(s: Seq<char>) -> Result<nat, DigitsError> {
    if s.len() == 0 {
        Err(DigitsError::Empty)
    } else if s[0] == '+' {
        if s.len() == 1 {
            Err(DigitsError::InvalidDigit)
        } else {
            hex_scan(s.drop_first())
        }
    } else {
        hex_scan(s)
    }
}

pub open spec fn id_error_text(e: DigitsError) -> Seq<char> {
    "Failed to parse card ID: "@ + e.text()
}

/// The written form of an identifier: sixteen lower-case hexadecimal digits.
pub open spec fn id_text(id: u64) -> Seq<char> {
    hex_text(id as nat, ID_DIGITS as nat)
}

/// The line that stores a card, with its line feed.
pub open spec fn card_line(id: u64, question: Seq<char>, answer: Seq<char>) -> Seq<char> {
    id_text(id) + seq!['\t'] + question + seq!['\t'] + answer + seq!['\n']
}

/// What a stored line holds: identifier, question and answer, or the reason
/// why it holds none.
pub open spec fn card_of_line(line: Seq<char>) -> Result<(u64, Seq<char>, Seq<char>), Seq<char>> {
    let parts = split_on(trimmed(line), '\t');
    if parts.len() != 3 {
        Err("Expected three TAB separated tokens, got: "@ + line)
    } else {
        match id_value(parts[0]) {
            Ok(id) => Ok((id as u64, parts[1], parts[2])),
            Err(e) => Err(id_error_text(e)),
        }
    }
}

/// The cards that `lines` hold, in order, or the first line (counted from 1)
/// that holds none, with the reason.
pub open spec fn cards_of_lines(lines: Seq<Seq<char>>) -> Result<Seq<(u64, Seq<char>, Seq<char>)>, (nat, Seq<char>)>
    decreases lines.len(),
{
    if lines.len() == 0 {
        Ok(Seq::empty())
    } else {
        match cards_of_lines(lines.drop_last()) {
            Err(e) => Err(e),
            Ok(cards) => match card_of_line(lines.last()) {
                Err(msg) => Err((lines.len(), msg)),
                Ok(c) => Ok(cards.push(c)),
            },
        }
    }
}

proof fn lemma_cards_error_stays(lines: Seq<Seq<char>>, k: int)
    requires
        0 <= k <= lines.len(),
        cards_of_lines(lines.take(k)) is Err,
    ensures
        cards_of_lines(lines) == cards_of_lines(lines.take(k)),
    decreases lines.len(),
{
    if lines.len() > k {
        assert(lines.drop_last().take(k) == lines.take(k));
        lemma_cards_error_stays(lines.drop_last(), k);
    } else {
        assert(lines.take(k) == lines);
    }
}

/// The cards of a card file, one per line. The first line that holds no card
/// fails the whole file, with `Error on line <n>: <reason>`.
pub fn read_cards_text(text: &str) -> (r: Result<Vec<Card>, String>)
    ensures
        match cards_of_lines(file_lines(text@)) {
            Ok(cards) => r is Ok && r->Ok_0@.len() == cards.len() && forall|i: int|
                0 <= i < cards.len() ==> (#[trigger] r->Ok_0@[i]).spec_id() == cards[i].0
                    && r->Ok_0@[i].spec_question() == cards[i].1 && r->Ok_0@[i].spec_answer() == cards[i].2,
            Err((n, msg)) => r is Err && r->Err_0@ == "Error on line "@ + dec_text(n) + ": "@ + msg,
        },
{
    let chars = chars_of(text);
    let pieces = split_chars(chars.as_slice(), '\n');
    proof {
        lemma_split_on_nonempty(text@, '\n');
    }
    let ghost lines = file_lines(text@);
    let n = if pieces[pieces.len() - 1].len() == 0 {
        pieces.len() - 1
    } else {
        pieces.len()
    };
    let mut cards: Vec<Card> = Vec::new();
    let ghost mut got: Seq<(u64, Seq<char>, Seq<char>)> = Seq::empty();
    assert(lines.take(0) == Seq::<Seq<char>>::empty());
    for i in 0..n
        invariant
            n == lines.len(),
            n <= pieces@.len(),
            lines == file_lines(text@),
            forall|j: int| 0 <= j < n ==> #[trigger] lines[j] == pieces@[j]@,
            cards_of_lines(lines.take(i as int)) == Ok::<Seq<(u64, Seq<char>, Seq<char>)>, (nat, Seq<char>)>(got),
            cards@.len() == got.len(),
            forall|j: int| 0 <= j < got.len() ==> (#[trigger] cards@[j]).spec_id() == got[j].0
                && cards@[j].spec_question() == got[j].1 && cards@[j].spec_answer() == got[j].2,
    {
        let line = string_of(&pieces[i]);
        let ghost upto = lines.take(i as int + 1);
        assert(upto.drop_last() == lines.take(i as int));
        assert(upto.last() == pieces@[i as int]@);
        match Card::from_line(line.as_str()) {
            Ok(card) => {
                proof {
                    let prev = got;
                    got = got.push((card.spec_id(), card.spec_question(), card.spec_answer()));
                    assert(got.drop_last() == prev);
                }
                cards.push(card);
            },
            Err(msg) => {
                proof {
                    lemma_cards_error_stays(lines, i as int + 1);
                }
                let mut r = String::new();
                push_str(&mut r, "Error on line ");
                write_dec(&mut r, i as u64 + 1);
                push_str(&mut r, ": ");
                push_str(&mut r, msg.as_str());
                return Err(r);
            },
        }
    }
    assert(lines.take(n as int) == lines);
    Ok(cards)
}

/// Cards for the question and answer pairs `qa`, numbered on from
/// `last_id`; `None` where an identifier would pass `u64::MAX`.
pub fn number_cards(last_id: u64, qa: Vec<(String, String)>) -> (r: Option<Vec<Card>>)
    ensures
        last_id + qa@.len() > u64::MAX ==> r is None,
        last_id + qa@.len() <= u64::MAX ==> r is Some && r->0@.len() == qa@.len() && forall|i: int|
            0 <= i < qa@.len() ==> (#[trigger] r->0@[i]).spec_id() == last_id + 1 + i && r->0@[i].spec_question()
                == qa@[i].0@ && r->0@[i].spec_answer() == qa@[i].1@,
{
    if qa.len() as u64 > u64::MAX - last_id {
        return None;
    }
    let ghost pairs = qa@;
    let mut cards: Vec<Card> = Vec::new();
    let mut id = last_id;
    for pair in it: qa.into_iter()
        invariant
            it.seq() == pairs,
            last_id + pairs.len() <= u64::MAX,
            id == last_id + it.index(),
            cards@.len() == it.index(),
            forall|i: int|
                0 <= i < cards@.len() ==> (#[trigger] cards@[i]).spec_id() == last_id + 1 + i
                    && cards@[i].spec_question() == pairs[i].0@ && cards@[i].spec_answer() == pairs[i].1@,
    {
        id = id + 1;
        let (question, answer) = pair;
        cards.push(Card::new(id, question, answer));
    }
    Some(cards)
}

/// Reads an identifier from `s[start..end]`; see `id_value`.
pub(crate) fn scan_id(s: &[char], start: usize, end: usize) -> (r: Result<u64, DigitsError>)
    requires
        start <= end <= s@.len(),
    ensures
        match id_value(s@.subrange(start as int, end as int)) {
            Ok(v) => r == Ok::<u64, DigitsError>(v as u64),
            Err(e) => r == Err::<u64, DigitsError>(e),
        },
{
    let ghost t = s@.subrange(start as int, end as int);
    if start == end {
        return Err(DigitsError::Empty);
    }
    if s[start] == '+' {
        if end - start == 1 {
            return Err(DigitsError::InvalidDigit);
        }
        assert(t.drop_first() == s@.subrange(start as int + 1, end as int));
        scan_hex(s, start + 1, end)
    } else {
        scan_hex(s, start, end)
    }
}

impl Card {
    pub closed spec fn spec_id(&self) -> u64 {
        self.id
    }

    pub closed spec fn spec_question(&self) -> Seq<char> {
        self.question@
    }

    pub closed spec fn spec_answer(&self) -> Seq<char> {
        self.answer@
    }

    /// Parses a card identifier from hexadecimal digits.
    pub fn parse_id(id: &str) -> (r: Result<u64, String>)
        ensures
            match id_value(id@) {
                Ok(v) => r is Ok && r->Ok_0 == v as u64,
                Err(e) => r is Err && r->Err_0@ == id_error_text(e),
            },
    {
        let chars = chars_of(id);
        assert(chars@.subrange(0, chars@.len() as int) == id@);
        match scan_id(chars.as_slice(), 0, chars.len()) {
            Ok(v) => Ok(v),
            Err(e) => {
                let mut msg = String::new();
                push_str(&mut msg, "Failed to parse card ID: ");
                push_str(&mut msg, e.message());
                Err(msg)
            },
        }
    }

    /// Writes a card identifier as sixteen lower-case hexadecimal digits.
    pub fn serialize_id(id: u64) -> (r: String)
        ensures
            r@ == id_text(id),
    {
        let mut r = String::new();
        write_hex(&mut r, id, ID_DIGITS);
        r
    }

    pub fn new(id: u64, question: String, answer: String) -> (r: Card)
        ensures
            r.spec_id() == id,
            r.spec_question() == question@,
            r.spec_answer() == answer@,
    {
        Card { id, question, answer }
    }

    pub fn id(&self) -> (r: u64)
        ensures
            r == self.spec_id(),
    {
        self.id
    }

    pub fn question(&self) -> (r: &str)
        ensures
            r@ == self.spec_question(),
    {
        self.question.as_str()
    }

    pub fn answer(&self) -> (r: &str)
        ensures
            r@ == self.spec_answer(),
    {
        self.answer.as_str()
    }

    /// The card as one line: identifier, question and answer separated by tabs,
    /// ending with a line feed.
    pub fn to_line(&self) -> (r: String)
        ensures
            r@ == card_line(self.spec_id(), self.spec_question(), self.spec_answer()),
    {
        let mut r = Card::serialize_id(self.id);
        push_char(&mut r, '\t');
        push_str(&mut r, self.question.as_str());
        push_char(&mut r, '\t');
        push_str(&mut r, self.answer.as_str());
        push_char(&mut r, '\n');
        r
    }

    /// Reads a card from a line written by `to_line`; white space around the
    /// line is ignored.
    pub fn from_line(line: &str) -> (r: Result<Card, String>)
        ensures
            match card_of_line(line@) {
                Ok((id, q, a)) => r is Ok && r->Ok_0.spec_id() == id && r->Ok_0.spec_question() == q
                    && r->Ok_0.spec_answer() == a,
                Err(msg) => r is Err && r->Err_0@ == msg,
            },
    {
        let chars = chars_of(trim_str(line));
        let parts = split_chars(chars.as_slice(), '\t');
        if parts.len() != 3 {
            let mut msg = String::new();
            push_str(&mut msg, "Expected three TAB separated tokens, got: ");
            push_str(&mut msg, line);
            return Err(msg);
        }
        let first = &parts[0];
        match scan_id(first.as_slice(), 0, first.len()) {
            Ok(id) => {
                assert(first@.subrange(0, first@.len() as int) == first@);
                Ok(Card::new(id, string_of(&parts[1]), string_of(&parts[2])))
            },
            Err(e) => {
                assert(first@.subrange(0, first@.len() as int) == first@);
                let mut msg = String::new();
                push_str(&mut msg, "Failed to parse card ID: ");
                push_str(&mut msg, e.message());
                Err(msg)
            },
        }
    }
}

} // verus!

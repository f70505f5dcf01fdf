//! One line of the schedule file: an identifier and its review state,
//! tab-separated, as `<id>\t<next due>\t<last reviewed>\t<iteration>\t<ease>`.

use crate::card::{id_text, id_value, scan_id};
use crate::text::{lemma_unsigned_round_trip, scan_unsigned, unsigned_value, hex_scan, is_hex_char, lemma_hex_round_trip, lemma_hex_text_chars, pow16};
use crate::date::{date_of_ymd, Date};
use crate::review::{ReviewState, EASE_FLOOR};
use crate::text::{
    dec_digit_value, dec_scan, lemma_split_on_nonempty, dec_text, dec_text_width, digit_char, is_dec_digit, lemma_dec_round_trip, lemma_dec_width_round_trip, lemma_digit_char, lemma_split_on_join, lemma_split_on_single, pow10, push_char, push_str,
    scan_dec, split_chars, split_on, write_dec, write_dec_width, write_hex, DigitsError,
};
use vstd::prelude::*;

verus! {

/// Why a line of the schedule file holds no record.
#[derive(Clone, Copy, Debug, PartialEq, Eq, Structural)]
pub enum RecordError {
    /// The line does not have five tab-separated fields.
    FieldCount,
    /// The identifier is not hexadecimal.
    Id(DigitsError),
    /// A date is not `YYYY-MM-DD`, or names no day.
    Date,
    /// The iteration is not a decimal `u32`.
    Iteration(DigitsError),
    /// The ease is not a decimal number.
    Ease,
    /// The ease is below 1.3.
    EaseBelowFloor,
    /// An earlier line holds the same identifier.
    DuplicateId,
}

impl RecordError {
    pub open spec fn text(self) -> Seq<char> {
        match self {
            RecordError::FieldCount => "Expected five TAB separated tokens, got: "@,
            RecordError::Id(e) => "Failed to parse card ID: "@ + e.text(),
            RecordError::Date => "Failed to parse date"@,
            RecordError::Iteration(e) => "Failed to parse iteration: "@ + e.text(),
            RecordError::Ease => "Failed to parse EF: invalid float literal"@,
            RecordError::EaseBelowFloor => "EF is below 1.3"@,
            RecordError::DuplicateId => "Card ID is scheduled twice"@,
        }
    }

    /// Appends what went wrong, in words.
    pub fn describe(&self, out: &mut String)
        ensures
            final(out)@ == old(out)@ + self.text(),
    {
        match self {
            RecordError::FieldCount => push_str(out, "Expected five TAB separated tokens, got: "),
            RecordError::Id(e) => {
                push_str(out, "Failed to parse card ID: ");
                push_str(out, e.message());
                assert(final(out)@ == old(out)@ + self.text());
            },
            RecordError::Date => push_str(out, "Failed to parse date"),
            RecordError::Iteration(e) => {
                push_str(out, "Failed to parse iteration: ");
                push_str(out, e.message());
                assert(final(out)@ == old(out)@ + self.text());
            },
            RecordError::Ease => push_str(out, "Failed to parse EF: invalid float literal"),
            RecordError::EaseBelowFloor => push_str(out, "EF is below 1.3"),
            RecordError::DuplicateId => push_str(out, "Card ID is scheduled twice"),
        }
    }
}

/// A date as `YYYY-MM-DD`.
pub open spec fn date_text(d: Date) -> Seq<char> {
    dec_text_width(d.year as nat, 4) + seq!['-'] + dec_text_width(d.month as nat, 2) + seq!['-']
        + dec_text_width(d.day as nat, 2)
}

/// The date that `t` spells as `YYYY-MM-DD`, where it names one.
pub open spec fn date_value(t: Seq<char>) -> Option<Date> {
    if t.len() != 10 || t[4] != '-' || t[7] != '-' {
        None
    } else {
        match (dec_scan(t.subrange(0, 4), 9999), dec_scan(t.subrange(5, 7), 99), dec_scan(t.subrange(8, 10), 99)) {
            (Some(y), Some(m), Some(d)) => date_of_ymd(Some((y as int, m as int, d as int))),
            _ => None,
        }
    }
}

/// An ease in hundredths as a decimal number with at most two decimals and
/// no trailing zero: `2.5`, `1.36`, `3`.
pub open spec fn ease_text(e: u64) -> Seq<char> {
    let f = (e % 100) as nat;
    dec_text((e / 100) as nat) + if f == 0 {
        Seq::<char>::empty()
    } else if f % 10 == 0 {
        seq!['.', digit_char(f / 10)]
    } else {
        seq!['.', digit_char(f / 10), digit_char(f % 10)]
    }
}

pub open spec fn all_digits(t: Seq<char>) -> bool {
    forall|i: int| 0 <= i < t.len() ==> is_dec_digit(#[trigger] t[i])
}

/// Hundredths written by the decimals `f`, rounded half up at the third.
pub open spec fn hundredths(f: Seq<char>) -> nat {
    10 * dec_digit_value(f[0]) + (if f.len() >= 2 {
        dec_digit_value(f[1])
    } else {
        0
    }) + (if f.len() >= 3 && dec_digit_value(f[2]) >= 5 {
        1nat
    } else {
        0
    })
}

/// The ease, in hundredths, that `t` spells as a decimal number.
pub open spec fn ease_value(t: Seq<char>) -> Option<u64> {
    let parts = split_on(t, '.');
    if parts.len() == 1 {
        match dec_scan(parts[0], u64::MAX as nat) {
            Some(w) => if w * 100 <= u64::MAX {
                Some((w * 100) as u64)
            } else {
                None
            },
            None => None,
        }
    } else if parts.len() == 2 && parts[1].len() >= 1 && all_digits(parts[1]) {
        match dec_scan(parts[0], u64::MAX as nat) {
            Some(w) => if w * 100 + hundredths(parts[1]) <= u64::MAX {
                Some((w * 100 + hundredths(parts[1])) as u64)
            } else {
                None
            },
            None => None,
        }
    } else {
        None
    }
}

/// The record line for `id`, without its line feed.
pub open spec fn record_body(id: u64, s: ReviewState) -> Seq<char> {
    id_text(id) + seq!['\t'] + date_text(s.next_due) + seq!['\t'] + date_text(s.last_reviewed)
        + seq!['\t'] + dec_text(s.iteration as nat) + seq!['\t'] + ease_text(s.ease)
}

/// What one line of the schedule file holds.
pub open spec fn record_value(line: Seq<char>) -> Result<(u64, ReviewState), RecordError> {
    let f = split_on(line, '\t');
    if f.len() != 5 {
        Err(RecordError::FieldCount)
    } else {
        match id_value(f[0]) {
            Err(e) => Err(RecordError::Id(e)),
            Ok(id) => match (date_value(f[1]), date_value(f[2])) {
                (Some(next_due), Some(last_reviewed)) => match unsigned_value(f[3], u32::MAX as nat) {
                    Err(e) => Err(RecordError::Iteration(e)),
                    Ok(iteration) => match ease_value(f[4]) {
                        None => Err(RecordError::Ease),
                        Some(ease) => if ease < EASE_FLOOR {
                            Err(RecordError::EaseBelowFloor)
                        } else {
                            Ok(
                                (
                                    id as u64,
                                    ReviewState {
                                        iteration: iteration as u32,
                                        ease,
                                        last_reviewed,
                                        next_due,
                                    },
                                ),
                            )
                        },
                    },
                },
                _ => Err(RecordError::Date),
            },
        }
    }
}

/// A run of digits holds none of the separators of the file.
proof fn lemma_digits_lack(t: Seq<char>, c: char)
    requires
        all_digits(t),
        !is_dec_digit(c),
    ensures
        !t.contains(c),
{
    if t.contains(c) {
        let i = choose|i: int| 0 <= i < t.len() && t[i] == c;
        assert(is_dec_digit(t[i]));
    }
}

/// Reading back a written date gives the date.
pub proof fn lemma_date_round_trip(d: Date)
    requires
        d.wf(),
    ensures
        date_value(date_text(d)) == Some(d),
        date_text(d).len() == 10,
        !date_text(d).contains('\t'),
        !date_text(d).contains('\n'),
{
    let y = dec_text_width(d.year as nat, 4);
    let m = dec_text_width(d.month as nat, 2);
    let dd = dec_text_width(d.day as nat, 2);
    assert(pow10(4) == 10000) by {
        reveal_with_fuel(pow10, 5);
    }
    assert(pow10(2) == 100) by {
        reveal_with_fuel(pow10, 3);
    }
    lemma_dec_width_round_trip(d.year as nat, 4, 9999);
    lemma_dec_width_round_trip(d.month as nat, 2, 99);
    lemma_dec_width_round_trip(d.day as nat, 2, 99);
    let t = date_text(d);
    assert(t.subrange(0, 4) == y);
    assert(t.subrange(5, 7) == m);
    assert(t.subrange(8, 10) == dd);
    assert(t[4] == '-');
    assert(t[7] == '-');
    assert forall|i: int| 0 <= i < t.len() implies #[trigger] t[i] != '\t' && t[i] != '\n' by {
        if i < 4 {
            assert(t[i] == y[i]);
        } else if 5 <= i < 7 {
            assert(t[i] == m[i - 5]);
        } else if 8 <= i {
            assert(t[i] == dd[i - 8]);
        }
    }
}

/// Reading back a written ease gives the ease.
pub proof fn lemma_ease_round_trip(e: u64)
    ensures
        ease_value(ease_text(e)) == Some(e),
        ease_text(e).len() >= 1,
        !ease_text(e).contains('\t'),
        !ease_text(e).contains('\n'),
        is_dec_digit(ease_text(e).last()),
{
    let w = (e / 100) as nat;
    let f = (e % 100) as nat;
    let wt = dec_text(w);
    lemma_dec_round_trip(w, u64::MAX as nat);
    lemma_digits_lack(wt, '.');
    lemma_digits_lack(wt, '\t');
    lemma_digits_lack(wt, '\n');
    let t = ease_text(e);
    lemma_digit_char(f / 10);
    lemma_digit_char(f % 10);
    if f == 0 {
        assert(t == wt);
        lemma_split_on_single(wt, '.');
        assert(w * 100 == e);
        assert(wt.last() == wt[wt.len() - 1]);
    } else {
        let frac = if f % 10 == 0 {
            seq![digit_char(f / 10)]
        } else {
            seq![digit_char(f / 10), digit_char(f % 10)]
        };
        assert(t == wt + seq!['.'] + frac);
        assert(!frac.contains('.')) by {
            if frac.contains('.') {
                let i = choose|i: int| 0 <= i < frac.len() && frac[i] == '.';
            }
        }
        lemma_split_on_single(wt, '.');
        lemma_split_on_single(frac, '.');
        lemma_split_on_join(wt, frac, '.');
        assert(split_on(t, '.') == seq![wt, frac]);
        assert(all_digits(frac));
        assert(hundredths(frac) == f);
        assert(w * 100 + f == e);
        assert forall|i: int| 0 <= i < t.len() implies #[trigger] t[i] != '\t' && t[i] != '\n' by {
            if i < wt.len() {
                assert(t[i] == wt[i]);
                assert(is_dec_digit(wt[i]));
            } else if i > wt.len() {
                assert(t[i] == frac[i - wt.len() - 1]);
            }
        }
        assert(t.last() == frac.last());
    }
}

/// Reading back a written record gives the identifier and the state; the
/// line holds no line feed and ends with a digit.
pub proof fn lemma_record_round_trip(id: u64, s: ReviewState)
    requires
        s.wf(),
    ensures
        record_value(record_body(id, s)) == Ok::<(u64, ReviewState), RecordError>((id, s)),
        !record_body(id, s).contains('\n'),
        record_body(id, s).len() > 0,
        is_dec_digit(record_body(id, s).last()),
{
    let a = id_text(id);
    let b = date_text(s.next_due);
    let c = date_text(s.last_reviewed);
    let d = dec_text(s.iteration as nat);
    let e = ease_text(s.ease);
    assert(pow16(16) > u64::MAX) by {
        reveal_with_fuel(pow16, 17);
    }
    lemma_hex_round_trip(id as nat, 16);
    lemma_hex_text_chars(id as nat, 16);
    assert(!a.contains('\t') && !a.contains('\n')) by {
        if a.contains('\t') {
            let i = choose|i: int| 0 <= i < a.len() && a[i] == '\t';
            assert(is_hex_char(a[i]));
        }
        if a.contains('\n') {
            let i = choose|i: int| 0 <= i < a.len() && a[i] == '\n';
            assert(is_hex_char(a[i]));
        }
    }
    assert(a[0] != '+') by {
        assert(is_hex_char(a[0]));
    }
    lemma_date_round_trip(s.next_due);
    lemma_date_round_trip(s.last_reviewed);
    lemma_dec_round_trip(s.iteration as nat, u32::MAX as nat);
    lemma_unsigned_round_trip(s.iteration as nat, u32::MAX as nat);
    lemma_digits_lack(d, '\t');
    lemma_digits_lack(d, '\n');
    lemma_ease_round_trip(s.ease);
    lemma_split_on_single(a, '\t');
    lemma_split_on_single(b, '\t');
    lemma_split_on_single(c, '\t');
    lemma_split_on_single(d, '\t');
    lemma_split_on_single(e, '\t');
    let ab = a + seq!['\t'] + b;
    let abc = ab + seq!['\t'] + c;
    let abcd = abc + seq!['\t'] + d;
    let all = abcd + seq!['\t'] + e;
    assert(record_body(id, s) == all);
    lemma_split_on_join(a, b, '\t');
    lemma_split_on_join(ab, c, '\t');
    lemma_split_on_join(abc, d, '\t');
    lemma_split_on_join(abcd, e, '\t');
    assert(split_on(all, '\t') == seq![a, b, c, d, e]);
    assert(id_value(a) == hex_scan(a));
    assert(!all.contains('\n')) by {
        if all.contains('\n') {
            let i = choose|i: int| 0 <= i < all.len() && all[i] == '\n';
            let la = a.len() as int;
            let lb = b.len() as int;
            let lc = c.len() as int;
            let ld = d.len() as int;
            if i < la {
                assert(all[i] == a[i]);
            } else if i == la {
            } else if i < la + 1 + lb {
                assert(all[i] == b[i - la - 1]);
            } else if i == la + 1 + lb {
            } else if i < la + 2 + lb + lc {
                assert(all[i] == c[i - la - 2 - lb]);
            } else if i == la + 2 + lb + lc {
            } else if i < la + 3 + lb + lc + ld {
                assert(all[i] == d[i - la - 3 - lb - lc]);
            } else if i == la + 3 + lb + lc + ld {
            } else {
                assert(all[i] == e[i - la - 4 - lb - lc - ld]);
            }
        }
    }
    assert(all.last() == e.last());
}

/// Reads a `YYYY-MM-DD` date from `s`.
pub(crate) fn parse_date(s: &[char]) -> (r: Option<Date>)
    ensures
        r == date_value(s@),
{
    if s.len() != 10 || s[4] != '-' || s[7] != '-' {
        return None;
    }
    let y = scan_dec(s, 0, 4, 9999);
    let m = scan_dec(s, 5, 7, 99);
    let d = scan_dec(s, 8, 10, 99);
    match (y, m, d) {
        (Some(y), Some(m), Some(d)) => Date::from_ymd(y as u32, m as u32, d as u32),
        _ => None,
    }
}

/// Reads an ease, in hundredths, from a decimal number.
pub(crate) fn parse_ease(s: &[char]) -> (r: Option<u64>)
    ensures
        r == ease_value(s@),
{
    let parts = split_chars(s, '.');
    proof {
        lemma_split_on_nonempty(s@, '.');
    }
    let whole_part = &parts[0];
    assert(whole_part@.subrange(0, whole_part@.len() as int) == whole_part@);
    let whole = match scan_dec(whole_part.as_slice(), 0, whole_part.len(), u64::MAX) {
        Some(w) => w,
        None => return None,
    };
    if whole > u64::MAX / 100 {
        return None;
    }
    if parts.len() == 1 {
        return Some(whole * 100);
    }
    if parts.len() != 2 {
        return None;
    }
    let frac = &parts[1];
    assert(frac@ == split_on(s@, '.')[1]);
    if frac.len() == 0 {
        return None;
    }
    let mut i: usize = 0;
    while i < frac.len()
        invariant
            i <= frac@.len(),
            frac@ == split_on(s@, '.')[1],
            split_on(s@, '.').len() == 2,
            forall|j: int| 0 <= j < i ==> is_dec_digit(#[trigger] frac@[j]),
        decreases frac@.len() - i,
    {
        if !('0' <= frac[i] && frac[i] <= '9') {
            assert(!is_dec_digit(frac@[i as int]));
            return None;
        }
        i = i + 1;
    }
    let mut h: u64 = 10 * (frac[0] as u32 - '0' as u32) as u64;
    if frac.len() >= 2 {
        h = h + (frac[1] as u32 - '0' as u32) as u64;
    }
    if frac.len() >= 3 && (frac[2] as u32 - '0' as u32) >= 5 {
        h = h + 1;
    }
    assert(h == hundredths(frac@));
    if whole * 100 > u64::MAX - h {
        return None;
    }
    Some(whole * 100 + h)
}

/// Reads one line of the schedule file, without its line feed.
pub(crate) fn parse_record(line: &[char]) -> (r: Result<(u64, ReviewState), RecordError>)
    ensures
        r == record_value(line@),
{
    let f = split_chars(line, '\t');
    if f.len() != 5 {
        return Err(RecordError::FieldCount);
    }
    assert(f@[0]@.subrange(0, f@[0]@.len() as int) == f@[0]@);
    let id = match scan_id(f[0].as_slice(), 0, f[0].len()) {
        Ok(id) => id,
        Err(e) => return Err(RecordError::Id(e)),
    };
    let next_due = parse_date(f[1].as_slice());
    let last_reviewed = parse_date(f[2].as_slice());
    let (next_due, last_reviewed) = match (next_due, last_reviewed) {
        (Some(n), Some(l)) => (n, l),
        _ => return Err(RecordError::Date),
    };
    let iteration = match scan_unsigned(f[3].as_slice(), u32::MAX as u64) {
        Ok(i) => i as u32,
        Err(e) => return Err(RecordError::Iteration(e)),
    };
    let ease = match parse_ease(f[4].as_slice()) {
        Some(e) => e,
        None => return Err(RecordError::Ease),
    };
    if ease < EASE_FLOOR {
        return Err(RecordError::EaseBelowFloor);
    }
    Ok((id, ReviewState { iteration, ease, last_reviewed, next_due }))
}

/// Appends a date as `YYYY-MM-DD`.
pub(crate) fn write_date(out: &mut String, d: Date)
    ensures
        final(out)@ == old(out)@ + date_text(d),
{
    write_dec_width(out, d.year as u64, 4);
    push_char(out, '-');
    write_dec_width(out, d.month as u64, 2);
    push_char(out, '-');
    write_dec_width(out, d.day as u64, 2);
    assert(final(out)@ == old(out)@ + date_text(d));
}

/// Appends an ease given in hundredths; see `ease_text`.
pub(crate) fn write_ease(out: &mut String, e: u64)
    ensures
        final(out)@ == old(out)@ + ease_text(e),
{
    write_dec(out, e / 100);
    let f = e % 100;
    if f != 0 {
        push_char(out, '.');
        push_char(out, digit_of(f / 10));
        if f % 10 != 0 {
            push_char(out, digit_of(f % 10));
        }
    }
    assert(final(out)@ == old(out)@ + ease_text(e));
}

fn digit_of(d: u64) -> (c: char)
    requires
        d < 10,
    ensures
        c == digit_char(d as nat),
{
    let b = (d + 48) as u8;
    b as char
}

/// Appends the record line for `id`, with its line feed.
pub(crate) fn write_record(out: &mut String, id: u64, s: &ReviewState)
    ensures
        final(out)@ == old(out)@ + record_body(id, *s) + seq!['\n'],
{
    write_hex(out, id, 16);
    push_char(out, '\t');
    write_date(out, s.next_due);
    push_char(out, '\t');
    write_date(out, s.last_reviewed);
    push_char(out, '\t');
    write_dec(out, s.iteration as u64);
    push_char(out, '\t');
    write_ease(out, s.ease);
    push_char(out, '\n');
    assert(final(out)@ == old(out)@ + record_body(id, *s) + seq!['\n']);
}

} // verus!

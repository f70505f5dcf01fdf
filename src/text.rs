//! Characters, digits and separators: the pieces that the text formats of
//! this library are made of.

use vstd::prelude::*;

verus! {

/// Relies on `String::push`: appends one character.
#[verifier::external_body]
pub(crate) fn push_char(s: &mut String, c: char)
    ensures
        final(s)@ == old(s)@.push(c),
{
    s.push(c);
}

/// Appends a string slice.
pub(crate) fn push_str(s: &mut String, t: &str)
    ensures
        final(s)@ == old(s)@ + t@,
{
    s.append(t);
}

/// The characters of `s`, in order.
pub(crate) fn chars_of(s: &str) -> (r: Vec<char>)
    ensures
        r@ == s@,
{
    broadcast use vstd::string::group_string_axioms;

    let mut r: Vec<char> = Vec::new();
    for c in it: s.chars()
        invariant
            it.seq() == s@,
            r@ == it.seq().take(it.index() as int),
    {
        r.push(c);
        assert(r@ == it.seq().take(it.index() as int + 1));
    }
    assert(r@ == s@);
    r
}

/// A string holding the characters of `v`.
pub(crate) fn string_of(v: &Vec<char>) -> (r: String)
    ensures
        r@ == v@,
{
    let mut r = String::new();
    for i in 0..v.len()
        invariant
            r@ == v@.take(i as int),
    {
        push_char(&mut r, v[i]);
        assert(v@.take(i as int + 1) == v@.take(i as int).push(v@[i as int]));
    }
    assert(v@.take(v.len() as int) == v@);
    r
}

pub open spec fn is_dec_digit(c: char) -> bool {
    '0' <= c <= '9'
}

pub open spec fn dec_digit_value(c: char) -> nat {
    (c as nat - '0' as nat) as nat
}

/// The character of a digit below 16, lower case beyond 9.
pub open spec fn digit_char(d: nat) -> char {
    if d < 10 {
        (d + '0' as nat) as char
    } else {
        (d - 10 + 'a' as nat) as char
    }
}

/// The value of a hexadecimal digit of either case.
pub open spec fn hex_digit_value(c: char) -> Option<nat> {
    if '0' <= c <= '9' {
        Some((c as nat - '0' as nat) as nat)
    } else if 'a' <= c <= 'f' {
        Some((c as nat - 'a' as nat + 10) as nat)
    } else if 'A' <= c <= 'F' {
        Some((c as nat - 'A' as nat + 10) as nat)
    } else {
        None
    }
}

/// `c` is White_Space in Unicode's sense.
pub open spec fn is_white(c: char) -> bool {
    ('\u{9}' <= c <= '\u{d}') || c == ' ' || c == '\u{85}' || c == '\u{a0}' || c == '\u{1680}' || (
    '\u{2000}' <= c <= '\u{200a}') || c == '\u{2028}' || c == '\u{2029}' || c == '\u{202f}' || c
        == '\u{205f}' || c == '\u{3000}'
}

pub open spec fn trim_front(s: Seq<char>) -> Seq<char>
    decreases s.len(),
{
    if s.len() > 0 && is_white(s[0]) {
        trim_front(s.drop_first())
    } else {
        s
    }
}

pub open spec fn trim_back(s: Seq<char>) -> Seq<char>
    decreases s.len(),
{
    if s.len() > 0 && is_white(s.last()) {
        trim_back(s.drop_last())
    } else {
        s
    }
}

/// `s` without its leading and trailing white space.
pub open spec fn trimmed(s: Seq<char>) -> Seq<char> {
    trim_back(trim_front(s))
}

/// Relies on `str::trim`: removes leading and trailing White_Space.
#[verifier::external_body]
pub(crate) fn trim_str(s: &str) -> (r: &str)
    ensures
        r@ == trimmed(s@),
{
    s.trim()
}

/// Why a run of digits is not a number.
#[derive(Clone, Copy, Debug, PartialEq, Eq, Structural)]
pub enum DigitsError {
    Empty,
    InvalidDigit,
    Overflow,
}

impl DigitsError {
    pub open spec fn text(self) -> Seq<char> {
        match self {
            DigitsError::Empty => "cannot parse integer from empty string"@,
            DigitsError::InvalidDigit => "invalid digit found in string"@,
            DigitsError::Overflow => "number too large to fit in target type"@,
        }
    }

    /// What went wrong, in words.
    pub fn message(&self) -> (r: &'static str)
        ensures
            r@ == self.text(),
    {
        match self {
            DigitsError::Empty => "cannot parse integer from empty string",
            DigitsError::InvalidDigit => "invalid digit found in string",
            DigitsError::Overflow => "number too large to fit in target type",
        }
    }
}

/// `s` read as hexadecimal digits from the left, failing at the first
/// character that is no digit or that takes the value past `u64::MAX`.
pub open spec fn hex_scan(s: Seq<char>) -> Result<nat, DigitsError>
    decreases s.len(),
{
    if s.len() == 0 {
        Ok(0)
    } else {
        match hex_scan(s.drop_last()) {
            Err(e) => Err(e),
            Ok(v) => match hex_digit_value(s.last()) {
                None => Err(DigitsError::InvalidDigit),
                Some(d) => if v * 16 + d > u64::MAX {
                    Err(DigitsError::Overflow)
                } else {
                    Ok(v * 16 + d)
                },
            },
        }
    }
}

/// `s` read as decimal digits from the left, failing at the first character
/// that is no digit or that takes the value past `max`.
pub open spec fn dec_checked(s: Seq<char>, max: nat) -> Result<nat, DigitsError>
    decreases s.len(),
{
    if s.len() == 0 {
        Ok(0)
    } else {
        match dec_checked(s.drop_last(), max) {
            Err(e) => Err(e),
            Ok(v) => if !is_dec_digit(s.last()) {
                Err(DigitsError::InvalidDigit)
            } else if v * 10 + dec_digit_value(s.last()) > max {
                Err(DigitsError::Overflow)
            } else {
                Ok(v * 10 + dec_digit_value(s.last()))
            },
        }
    }
}

/// An unsigned decimal number at most `max`, after an optional `+`.
pub open spec fn unsigned_value(s: Seq<char>, max: nat) -> Result<nat, DigitsError> {
    if s.len() == 0 {
        Err(DigitsError::Empty)
    } else if s[0] == '+' {
        if s.len() == 1 {
            Err(DigitsError::InvalidDigit)
        } else {
            dec_checked(s.drop_first(), max)
        }
    } else {
        dec_checked(s, max)
    }
}

/// `s` read as decimal digits, where it is one or more of them and the value
/// is at most `max`.
pub open spec fn dec_scan(s: Seq<char>, max: nat) -> Option<nat>
    decreases s.len(),
{
    if s.len() == 0 {
        None
    } else if !is_dec_digit(s.last()) {
        None
    } else {
        let high = if s.len() == 1 {
            Some(0nat)
        } else {
            dec_scan(s.drop_last(), max)
        };
        match high {
            None => None,
            Some(v) => if v * 10 + dec_digit_value(s.last()) > max {
                None
            } else {
                Some(v * 10 + dec_digit_value(s.last()))
            },
        }
    }
}

/// The `n` lowest hexadecimal digits of `v`, most significant first.
pub open spec fn hex_text(v: nat, n: nat) -> Seq<char>
    decreases n,
{
    if n == 0 {
        Seq::empty()
    } else {
        hex_text(v / 16, (n - 1) as nat).push(digit_char(v % 16))
    }
}

/// The decimal digits of `v`, with no leading zero.
pub open spec fn dec_text(v: nat) -> Seq<char>
    decreases v,
{
    if v < 10 {
        seq![digit_char(v)]
    } else {
        dec_text(v / 10).push(digit_char(v % 10))
    }
}

/// The decimal digits of `v`, zero-padded or cut to the lowest `n`.
pub open spec fn dec_text_width(v: nat, n: nat) -> Seq<char>
    decreases n,
{
    if n == 0 {
        Seq::empty()
    } else {
        dec_text_width(v / 10, (n - 1) as nat).push(digit_char(v % 10))
    }
}

pub open spec fn pow16(n: nat) -> nat
    decreases n,
{
    if n == 0 {
        1
    } else {
        16 * pow16((n - 1) as nat)
    }
}

pub open spec fn pow10(n: nat) -> nat
    decreases n,
{
    if n == 0 {
        1
    } else {
        10 * pow10((n - 1) as nat)
    }
}

/// The pieces of `s` between the occurrences of `sep`: one more piece than
/// there are separators.
pub open spec fn split_on(s: Seq<char>, sep: char) -> Seq<Seq<char>>
    decreases s.len(),
{
    if s.len() == 0 {
        seq![Seq::empty()]
    } else {
        let pieces = split_on(s.drop_last(), sep);
        if s.last() == sep {
            pieces.push(Seq::empty())
        } else {
            pieces.update(pieces.len() - 1, pieces.last().push(s.last()))
        }
    }
}

/// The lines of a file: the pieces between line feeds, the empty piece
/// after a final line feed left out.
pub open spec fn file_lines(text: Seq<char>) -> Seq<Seq<char>> {
    let pieces = split_on(text, '\n');
    if pieces.last().len() == 0 {
        pieces.drop_last()
    } else {
        pieces
    }
}

/// A line without the carriage return that may end it.
pub open spec fn line_body(line: Seq<char>) -> Seq<char> {
    if line.len() > 0 && line.last() == '\r' {
        line.drop_last()
    } else {
        line
    }
}

pub proof fn lemma_split_on_nonempty(s: Seq<char>, sep: char)
    ensures
        split_on(s, sep).len() >= 1,
    decreases s.len(),
{
    if s.len() > 0 {
        lemma_split_on_nonempty(s.drop_last(), sep);
    }
}

/// A run without the separator is one piece.
pub proof fn lemma_split_on_single(s: Seq<char>, sep: char)
    requires
        !s.contains(sep),
    ensures
        split_on(s, sep) == seq![s],
    decreases s.len(),
{
    if s.len() > 0 {
        assert(!s.drop_last().contains(sep)) by {
            if s.drop_last().contains(sep) {
                let i = choose|i: int| 0 <= i < s.drop_last().len() && s.drop_last()[i] == sep;
                assert(s[i] == sep);
            }
        }
        lemma_split_on_single(s.drop_last(), sep);
        assert(s.last() != sep) by {
            assert(s[s.len() - 1] == s.last());
        }
        assert(s.drop_last().push(s.last()) == s);
        assert(split_on(s, sep) =~= seq![s]);
    } else {
        assert(s =~= Seq::<char>::empty());
    }
}

/// Splitting at a separator splits the pieces there.
pub proof fn lemma_split_on_join(x: Seq<char>, y: Seq<char>, sep: char)
    ensures
        split_on(x + seq![sep] + y, sep) == split_on(x, sep) + split_on(y, sep),
    decreases y.len(),
{
    let xs = x + seq![sep];
    if y.len() == 0 {
        assert(xs + y == xs);
        assert(xs.drop_last() == x);
    } else {
        lemma_split_on_join(x, y.drop_last(), sep);
        lemma_split_on_nonempty(y.drop_last(), sep);
        lemma_split_on_nonempty(x, sep);
        assert((xs + y).drop_last() == xs + y.drop_last());
        assert((xs + y).last() == y.last());
    }
}

/// Reading back `n` hexadecimal digits gives the value that was written.
pub proof fn lemma_hex_round_trip(v: nat, n: nat)
    requires
        v < pow16(n),
        v <= u64::MAX,
    ensures
        hex_scan(hex_text(v, n)) == Ok::<nat, DigitsError>(v),
        hex_text(v, n).len() == n,
    decreases n,
{
    if n == 0 {
        assert(hex_text(v, n).len() == 0);
    } else {
        let t = hex_text(v, n);
        assert(v / 16 < pow16((n - 1) as nat));
        lemma_hex_round_trip(v / 16, (n - 1) as nat);
        assert(t.drop_last() == hex_text(v / 16, (n - 1) as nat));
        assert(t.last() == digit_char(v % 16));
        assert(hex_digit_value(digit_char(v % 16)) == Some(v % 16));
        assert((v / 16) * 16 + v % 16 == v);
    }
}

/// Reading back the decimal digits of `v`, with errors reported, gives `v`.
pub proof fn lemma_unsigned_round_trip(v: nat, max: nat)
    requires
        v <= max,
    ensures
        unsigned_value(dec_text(v), max) == Ok::<nat, DigitsError>(v),
{
    lemma_dec_checked_round_trip(v, max);
    lemma_dec_round_trip(v, max);
    assert(is_dec_digit(dec_text(v)[0]));
}

proof fn lemma_dec_checked_round_trip(v: nat, max: nat)
    requires
        v <= max,
    ensures
        dec_checked(dec_text(v), max) == Ok::<nat, DigitsError>(v),
    decreases v,
{
    let t = dec_text(v);
    if v < 10 {
        lemma_digit_char(v);
        assert(t.drop_last() == Seq::<char>::empty());
        assert(dec_checked(Seq::<char>::empty(), max) == Ok::<nat, DigitsError>(0));
        assert(t.last() == digit_char(v));
        assert(0 * 10 + v == v);
    } else {
        lemma_digit_char(v % 10);
        lemma_dec_checked_round_trip(v / 10, max);
        assert(t.drop_last() == dec_text(v / 10));
        assert(t.last() == digit_char(v % 10));
        assert((v / 10) * 10 + v % 10 == v);
    }
}

/// Reading back the decimal digits of `v` gives `v`.
pub proof fn lemma_dec_round_trip(v: nat, max: nat)
    requires
        v <= max,
    ensures
        dec_scan(dec_text(v), max) == Some(v),
        dec_text(v).len() >= 1,
        forall|i: int| 0 <= i < dec_text(v).len() ==> is_dec_digit(#[trigger] dec_text(v)[i]),
    decreases v,
{
    let t = dec_text(v);
    if v < 10 {
        assert(t.last() == digit_char(v));
        assert(t.len() == 1);
    } else {
        lemma_dec_round_trip(v / 10, max);
        assert(t.drop_last() == dec_text(v / 10));
        assert(t.last() == digit_char(v % 10));
        assert((v / 10) * 10 + v % 10 == v);
        assert forall|i: int| 0 <= i < t.len() implies is_dec_digit(#[trigger] t[i]) by {
            if i < t.len() - 1 {
                assert(t[i] == dec_text(v / 10)[i]);
            }
        }
    }
}

/// Reading back `n` zero-padded decimal digits gives the value written.
pub proof fn lemma_dec_width_round_trip(v: nat, n: nat, max: nat)
    requires
        v < pow10(n),
        v <= max,
        n >= 1,
    ensures
        dec_scan(dec_text_width(v, n), max) == Some(v),
        dec_text_width(v, n).len() == n,
        forall|i: int| 0 <= i < n ==> is_dec_digit(#[trigger] dec_text_width(v, n)[i]),
    decreases n,
{
    let t = dec_text_width(v, n);
    assert(v / 10 < pow10((n - 1) as nat));
    if n == 1 {
        assert(dec_text_width(v / 10, 0).len() == 0);
        assert(t.len() == 1);
        assert(v < 10);
    } else {
        lemma_dec_width_round_trip(v / 10, (n - 1) as nat, max);
        assert(t.drop_last() == dec_text_width(v / 10, (n - 1) as nat));
        assert((v / 10) * 10 + v % 10 == v);
        assert forall|i: int| 0 <= i < n implies is_dec_digit(#[trigger] t[i]) by {
            if i < n - 1 {
                assert(t[i] == dec_text_width(v / 10, (n - 1) as nat)[i]);
            }
        }
    }
    assert(t.last() == digit_char(v % 10));
}

/// The characters that `hex_text` writes: `0`-`9` and `a`-`f`.
pub open spec fn is_hex_char(c: char) -> bool {
    ('0' <= c <= '9') || ('a' <= c <= 'f')
}

pub proof fn lemma_digit_char(d: nat)
    requires
        d < 16,
    ensures
        is_hex_char(digit_char(d)),
        d < 10 ==> is_dec_digit(digit_char(d)) && dec_digit_value(digit_char(d)) == d,
{
}

/// `hex_text` writes hexadecimal characters only.
pub proof fn lemma_hex_text_chars(v: nat, n: nat)
    ensures
        forall|i: int| 0 <= i < hex_text(v, n).len() ==> is_hex_char(#[trigger] hex_text(v, n)[i]),
    decreases n,
{
    if n > 0 {
        lemma_hex_text_chars(v / 16, (n - 1) as nat);
        lemma_digit_char(v % 16);
        let t = hex_text(v, n);
        assert forall|i: int| 0 <= i < t.len() implies is_hex_char(#[trigger] t[i]) by {
            if i < t.len() - 1 {
                assert(t[i] == hex_text(v / 16, (n - 1) as nat)[i]);
            }
        }
    }
}

/// Appends the `n` lowest hexadecimal digits of `v`.
pub(crate) fn write_hex(out: &mut String, v: u64, n: usize)
    ensures
        final(out)@ == old(out)@ + hex_text(v as nat, n as nat),
    decreases n,
{
    if n > 0 {
        write_hex(out, v / 16, n - 1);
        let d = (v % 16) as u32;
        let c = if d < 10 {
            char_from(d + 48)
        } else {
            char_from(d - 10 + 97)
        };
        push_char(out, c);
    }
}

/// Appends the decimal digits of `v`.
pub(crate) fn write_dec(out: &mut String, v: u64)
    ensures
        final(out)@ == old(out)@ + dec_text(v as nat),
    decreases v,
{
    if v >= 10 {
        write_dec(out, v / 10);
    }
    push_char(out, char_from((v % 10) as u32 + 48));
}

/// Appends the `n` lowest decimal digits of `v`, zero-padded.
pub(crate) fn write_dec_width(out: &mut String, v: u64, n: usize)
    ensures
        final(out)@ == old(out)@ + dec_text_width(v as nat, n as nat),
    decreases n,
{
    if n > 0 {
        write_dec_width(out, v / 10, n - 1);
        push_char(out, char_from((v % 10) as u32 + 48));
    }
}

/// The character of an ASCII code.
fn char_from(code: u32) -> (c: char)
    requires
        code < 128,
    ensures
        c as nat == code as nat,
{
    let b = code as u8;
    b as char
}

/// Reads `s[start..end]` as hexadecimal digits; see `hex_scan`.
pub(crate) fn scan_hex(s: &[char], start: usize, end: usize) -> (r: Result<u64, DigitsError>)
    requires
        start <= end <= s@.len(),
    ensures
        match hex_scan(s@.subrange(start as int, end as int)) {
            Ok(v) => r == Ok::<u64, DigitsError>(v as u64),
            Err(e) => r == Err::<u64, DigitsError>(e),
        },
{
    let mut v: u64 = 0;
    let mut i = start;
    while i < end
        invariant
            start <= i <= end <= s@.len(),
            hex_scan(s@.subrange(start as int, i as int)) == Ok::<nat, DigitsError>(v as nat),
        decreases end - i,
    {
        let c = s[i];
        assert(s@.subrange(start as int, end as int).take((i - start) as int + 1) == s@.subrange(start as int, i as int + 1));
        assert(s@.subrange(start as int, i as int + 1).drop_last() == s@.subrange(start as int, i as int));
        assert(s@.subrange(start as int, i as int + 1).last() == c);
        let d: u64 = if '0' <= c && c <= '9' {
            (c as u32 - '0' as u32) as u64
        } else if 'a' <= c && c <= 'f' {
            (c as u32 - 'a' as u32 + 10) as u64
        } else if 'A' <= c && c <= 'F' {
            (c as u32 - 'A' as u32 + 10) as u64
        } else {
            proof {
                lemma_hex_scan_stops(s@.subrange(start as int, end as int), (i - start) as int);
            }
            return Err(DigitsError::InvalidDigit);
        };
        let next: u128 = (v as u128) * 16 + d as u128;
        if next > u64::MAX as u128 {
            proof {
                lemma_hex_scan_stops(s@.subrange(start as int, end as int), (i - start) as int);
            }
            return Err(DigitsError::Overflow);
        }
        v = next as u64;
        i = i + 1;
    }
    Ok(v)
}

/// Once a prefix fails, the whole run fails the same way.
proof fn lemma_hex_scan_stops(s: Seq<char>, k: int)
    requires
        0 <= k < s.len(),
        hex_scan(s.take(k + 1)) is Err,
    ensures
        hex_scan(s) == hex_scan(s.take(k + 1)),
    decreases s.len(),
{
    if s.len() > k + 1 {
        assert(s.drop_last().take(k + 1) == s.take(k + 1));
        lemma_hex_scan_stops(s.drop_last(), k);
    } else {
        assert(s.take(k + 1) == s);
    }
}

/// Reads an unsigned decimal number at most `max` from `s`; see `unsigned_value`.
pub(crate) fn scan_unsigned(s: &[char], max: u64) -> (r: Result<u64, DigitsError>)
    ensures
        match unsigned_value(s@, max as nat) {
            Ok(v) => r == Ok::<u64, DigitsError>(v as u64),
            Err(e) => r == Err::<u64, DigitsError>(e),
        },
{
    if s.len() == 0 {
        return Err(DigitsError::Empty);
    }
    let start: usize = if s[0] == '+' {
        if s.len() == 1 {
            return Err(DigitsError::InvalidDigit);
        }
        1
    } else {
        0
    };
    let ghost t = s@.subrange(start as int, s@.len() as int);
    assert(start == 1 ==> t == s@.drop_first());
    assert(start == 0 ==> t == s@);
    assert(unsigned_value(s@, max as nat) == dec_checked(t, max as nat));
    let mut v: u64 = 0;
    let mut i = start;
    while i < s.len()
        invariant
            start <= i <= s@.len(),
            t == s@.subrange(start as int, s@.len() as int),
            unsigned_value(s@, max as nat) == dec_checked(t, max as nat),
            v <= max,
            dec_checked(s@.subrange(start as int, i as int), max as nat) == Ok::<nat, DigitsError>(v as nat),
        decreases s@.len() - i,
    {
        let c = s[i];
        assert(t.take((i - start) as int + 1) == s@.subrange(start as int, i as int + 1));
        assert(s@.subrange(start as int, i as int + 1).drop_last() == s@.subrange(start as int, i as int));
        assert(s@.subrange(start as int, i as int + 1).last() == c);
        if !('0' <= c && c <= '9') {
            proof {
                lemma_dec_checked_stops(t, (i - start) as int, max as nat);
            }
            return Err(DigitsError::InvalidDigit);
        }
        let d = (c as u32 - '0' as u32) as u64;
        let next: u128 = (v as u128) * 10 + d as u128;
        if next > max as u128 {
            proof {
                lemma_dec_checked_stops(t, (i - start) as int, max as nat);
            }
            return Err(DigitsError::Overflow);
        }
        v = next as u64;
        i = i + 1;
    }
    assert(s@.subrange(start as int, s@.len() as int) == t);
    Ok(v)
}

proof fn lemma_dec_checked_stops(s: Seq<char>, k: int, max: nat)
    requires
        0 <= k < s.len(),
        dec_checked(s.take(k + 1), max) is Err,
    ensures
        dec_checked(s, max) == dec_checked(s.take(k + 1), max),
    decreases s.len(),
{
    if s.len() > k + 1 {
        assert(s.drop_last().take(k + 1) == s.take(k + 1));
        lemma_dec_checked_stops(s.drop_last(), k, max);
    } else {
        assert(s.take(k + 1) == s);
    }
}

/// Reads `s[start..end]` as decimal digits; see `dec_scan`.
pub(crate) fn scan_dec(s: &[char], start: usize, end: usize, max: u64) -> (r: Option<u64>)
    requires
        start <= end <= s@.len(),
    ensures
        match dec_scan(s@.subrange(start as int, end as int), max as nat) {
            Some(v) => r == Some(v as u64),
            None => r is None,
        },
{
    if start == end {
        return None;
    }
    let mut v: u64 = 0;
    let mut i = start;
    while i < end
        invariant
            start <= i <= end <= s@.len(),
            start < end,
            v <= max,
            i == start ==> v == 0,
            i > start ==> dec_scan(s@.subrange(start as int, i as int), max as nat) == Some(v as nat),
        decreases end - i,
    {
        let c = s[i];
        let ghost sub = s@.subrange(start as int, i as int + 1);
        assert(s@.subrange(start as int, end as int).take((i - start) as int + 1) == sub);
        assert(sub.drop_last() == s@.subrange(start as int, i as int));
        assert(sub.last() == c);
        if !('0' <= c && c <= '9') {
            proof {
                lemma_dec_scan_stops(s@.subrange(start as int, end as int), (i - start) as int, max as nat);
            }
            return None;
        }
        let d = (c as u32 - '0' as u32) as u64;
        let next: u128 = (v as u128) * 10 + d as u128;
        if next > max as u128 {
            proof {
                lemma_dec_scan_stops(s@.subrange(start as int, end as int), (i - start) as int, max as nat);
            }
            return None;
        }
        v = next as u64;
        i = i + 1;
    }
    Some(v)
}

proof fn lemma_dec_scan_stops(s: Seq<char>, k: int, max: nat)
    requires
        0 <= k < s.len(),
        dec_scan(s.take(k + 1), max) is None,
    ensures
        dec_scan(s, max) is None,
    decreases s.len(),
{
    if s.len() > k + 1 {
        assert(s.drop_last().take(k + 1) == s.take(k + 1));
        lemma_dec_scan_stops(s.drop_last(), k, max);
    } else {
        assert(s.take(k + 1) == s);
    }
}

/// The pieces of `s` between the occurrences of `sep`; see `split_on`.
pub(crate) fn split_chars(s: &[char], sep: char) -> (r: Vec<Vec<char>>)
    ensures
        r@.len() == split_on(s@, sep).len(),
        forall|i: int| 0 <= i < r@.len() ==> #[trigger] r@[i]@ == split_on(s@, sep)[i],
{
    let mut done: Vec<Vec<char>> = Vec::new();
    let mut cur: Vec<char> = Vec::new();
    let mut i: usize = 0;
    while i < s.len()
        invariant
            i <= s@.len(),
            done@.len() + 1 == split_on(s@.take(i as int), sep).len(),
            forall|j: int| 0 <= j < done@.len() ==> #[trigger] done@[j]@ == split_on(s@.take(i as int), sep)[j],
            cur@ == split_on(s@.take(i as int), sep).last(),
        decreases s@.len() - i,
    {
        proof {
            lemma_split_on_nonempty(s@.take(i as int), sep);
        }
        let c = s[i];
        assert(s@.take(i as int + 1).drop_last() == s@.take(i as int));
        assert(s@.take(i as int + 1).last() == c);
        if c == sep {
            let finished = cur;
            done.push(finished);
            cur = Vec::new();
        } else {
            cur.push(c);
        }
        i = i + 1;
    }
    assert(s@.take(s@.len() as int) == s@);
    done.push(cur);
    done
}

} // verus!

//! Roman-numeral indices of interpretation records: the value of a token
//! over the digits I, V and X, as the outside converter computes it.

use vstd::prelude::*;

verus! {

/// The value of one roman digit; tokens here hold only I, V and X.
pub open spec fn roman_char_val(c: char) -> int {
    if c == 'I' {
        1
    } else if c == 'V' {
        5
    } else if c == 'X' {
        10
    } else {
        0
    }
}

/// Whether `c` is one of the three roman digits a record index may hold.
pub open spec fn is_roman_char(c: char) -> bool {
    c == 'I' || c == 'V' || c == 'X'
}

/// Executable form of [`is_roman_char`].
pub fn is_roman(c: char) -> (r: bool)
    ensures
        r == is_roman_char(c),
{
    c == 'I' || c == 'V' || c == 'X'
}

/// The value of a roman token, read right to left: each digit is added,
/// and a digit standing directly before a larger one is subtracted and
/// consumed together with it. This is exactly how the outside converter
/// reads a token, malformed numerals included.
pub open spec fn roman_ivx(s: Seq<char>) -> int
    decreases s.len(),
{
    if s.len() == 0 {
        0
    } else if s.len() >= 2 && roman_char_val(s[s.len() - 2]) < roman_char_val(s[s.len() - 1]) {
        roman_ivx(s.take(s.len() - 2)) + roman_char_val(s[s.len() - 1]) - roman_char_val(
            s[s.len() - 2],
        )
    } else {
        roman_ivx(s.take(s.len() - 1)) + roman_char_val(s[s.len() - 1])
    }
}

/// A token of roman digits has a positive value.
pub proof fn lemma_roman_ivx_pos(s: Seq<char>)
    requires
        forall|k: int| 0 <= k < s.len() ==> is_roman_char(s[k]),
    ensures
        s.len() == 0 ==> roman_ivx(s) == 0,
        s.len() >= 1 ==> roman_ivx(s) >= 1,
        roman_ivx(s) >= 0,
    decreases s.len(),
{
    if s.len() >= 2 && roman_char_val(s[s.len() - 2]) < roman_char_val(s[s.len() - 1]) {
        lemma_roman_ivx_pos(s.take(s.len() - 2));
        assert(roman_char_val(s[s.len() - 1]) - roman_char_val(s[s.len() - 2]) >= 1);
    } else if s.len() >= 1 {
        lemma_roman_ivx_pos(s.take(s.len() - 1));
        assert(roman_char_val(s[s.len() - 1]) >= 1);
    }
}

/// Relies on `roman_numerals::FromRoman` for `u8`: on a token of I, V and
/// X digits it reads the token right to left, adding each digit and
/// subtracting one that stands directly before a larger one, then refuses
/// values a byte cannot hold. The length bound keeps its 16-bit
/// accumulator, which grows by at most ten per digit, within range.
#[verifier::external_body]
pub fn roman_to_u8(s: &str) -> (r: Option<u8>)
    requires
        s@.len() <= 4000,
        forall|k: int| 0 <= k < s@.len() ==> is_roman_char(s@[k]),
    ensures
        r == (if 0 <= roman_ivx(s@) <= 255 {
            Some(roman_ivx(s@) as u8)
        } else {
            Option::<u8>::None
        }),
{
    <u8 as roman_numerals::FromRoman>::from_roman(s)
}

} // verus!

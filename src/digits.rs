//! The digit alphabet shared by decoding and encoding: `0-9` then `a-z`,
//! read case-insensitively.
use vstd::prelude::*;

verus! {

/// Number of symbols in the digit alphabet.
pub const ALPHABET_SIZE: u32 = 36;

/// The value of `c` as a digit, if it belongs to the alphabet.
pub open spec fn char_digit(c: char) -> Option<nat> {
    if '0' <= c && c <= '9' {
        Some((c as nat - '0' as nat) as nat)
    } else if 'a' <= c && c <= 'z' {
        Some((c as nat - 'a' as nat + 10) as nat)
    } else if 'A' <= c && c <= 'Z' {
        Some((c as nat - 'A' as nat + 10) as nat)
    } else {
        None
    }
}

/// `c` is a digit whose value is below `base`.
pub open spec fn is_digit_in(c: char, base: nat) -> bool {
    match char_digit(c) {
        Some(d) => d < base,
        None => false,
    }
}

/// The (lower-case) symbol that renders digit value `d`.
pub open spec fn digit_char(d: nat) -> char {
    if d < 10 {
        (d + 48) as char
    } else {
        (d + 87) as char
    }
}

/// Rendering a digit and reading it back gives the same value; no digit
/// symbol is the separator.
pub proof fn lemma_digit_char_round_trip(d: nat)
    requires
        d < 36,
    ensures
        char_digit(digit_char(d)) == Some(d),
        digit_char(d) != '.',
{
}

/// Reads one character as a digit.
pub fn digit_value(c: char) -> (r: Option<u32>)
    ensures
        r matches Some(d) ==> char_digit(c) == Some(d as nat),
        r is None ==> char_digit(c) is None,
{
    if '0' <= c && c <= '9' {
        Some(c as u32 - '0' as u32)
    } else if 'a' <= c && c <= 'z' {
        Some(c as u32 - 'a' as u32 + 10)
    } else if 'A' <= c && c <= 'Z' {
        Some(c as u32 - 'A' as u32 + 10)
    } else {
        None
    }
}

/// Appends the symbol of digit value `d` to `out`.
pub fn push_digit(out: &mut String, d: u32)
    requires
        d < ALPHABET_SIZE,
    ensures
        final(out)@ == old(out)@.push(digit_char(d as nat)),
{
    let c: char = if d < 10 {
        (d as u8 + 48) as char
    } else {
        (d as u8 + 87) as char
    };
    push_char(out, c);
}

/// Relies on `String::push`: the character is appended at the end.
#[verifier::external_body]
pub(crate) fn push_char(out: &mut String, c: char)
    ensures
        final(out)@ == old(out)@.push(c),
{
    out.push(c)
}

} // verus!

//! Rendering a canonical value as a digit string under a target base.
use vstd::prelude::*;
use crate::digits::{digit_char, push_digit, ALPHABET_SIZE};
use crate::value::CanonicalValue;
use vstd::arithmetic::div_mod::{lemma_div_is_strictly_smaller, lemma_multiply_divide_lt};

verus! {

/// Why a value could not be rendered.
#[derive(Debug, Clone, Copy, PartialEq, Eq, Structural)]
pub enum EncodeError {
    /// The target base is below two (base one admits no positional rendering).
    InvalidBase,
    /// The target base needs digit values beyond the alphabet's 36 symbols.
    UnsupportedAlphabetSize,
}

/// Most fractional digits that are rendered.
pub const MAX_FRACTION_DIGITS: u32 = 10;

/// Expansion stops once the remainder is below `1 / CONVERGENCE_SCALE`.
pub const CONVERGENCE_SCALE: u64 = 10_000_000_000;

/// Digits of `n` in base `b`, most significant first; `"0"` for zero.
pub open spec fn integer_digits(n: nat, b: nat) -> Seq<char>
    decreases n via integer_digits_decreases
{
    if b < 2 || n < b {
        seq![digit_char(n)]
    } else {
        integer_digits(n / b, b).push(digit_char(n % b))
    }
}

#[via_fn]
proof fn integer_digits_decreases(n: nat, b: nat) {
    if !(b < 2 || n < b) {
        lemma_div_is_strictly_smaller(n as int, b as int);
    }
}

/// Up to `steps` digits of the fraction `num / den` in base `b`, stopping early
/// once the remainder falls below the convergence threshold.
pub open spec fn fraction_digits(num: nat, den: nat, b: nat, steps: nat) -> Seq<char>
    decreases steps,
{
    if steps == 0 || den == 0 {
        Seq::empty()
    } else {
        let t = num * b;
        let r = t % den;
        let head = seq![digit_char(t / den)];
        if r * CONVERGENCE_SCALE < den {
            head
        } else {
            head + fraction_digits(r, den, b, (steps - 1) as nat)
        }
    }
}

/// The rendering of `v` in base `b`: integer digits, then `.` and fraction
/// digits only when the fractional part is non-zero.
pub open spec fn rendering(v: CanonicalValue, b: nat) -> Seq<char> {
    let ip = integer_digits(v.whole as nat, b);
    if v.num > 0 {
        ip + seq!['.'] + fraction_digits(v.num as nat, v.den as nat, b, MAX_FRACTION_DIGITS as nat)
    } else {
        ip
    }
}

/// The error a target base gives, if any.
pub open spec fn target_base_error(b: nat) -> Option<EncodeError> {
    if b < 2 {
        Some(EncodeError::InvalidBase)
    } else if b > ALPHABET_SIZE {
        Some(EncodeError::UnsupportedAlphabetSize)
    } else {
        None
    }
}

/// The outcome of encoding `v` under `b`.
pub open spec fn encode_spec(v: CanonicalValue, b: nat) -> Result<Seq<char>, EncodeError> {
    match target_base_error(b) {
        Some(e) => Err(e),
        None => Ok(rendering(v, b)),
    }
}

/// Checks a target base.
pub fn check_target_base(base_to: u32) -> (r: Option<EncodeError>)
    ensures
        r == target_base_error(base_to as nat),
{
    if base_to < 2 {
        Some(EncodeError::InvalidBase)
    } else if base_to > ALPHABET_SIZE {
        Some(EncodeError::UnsupportedAlphabetSize)
    } else {
        None
    }
}

fn push_integer(out: &mut String, n: u64, b: u32)
    requires
        2 <= b <= ALPHABET_SIZE,
    ensures
        final(out)@ == old(out)@ + integer_digits(n as nat, b as nat),
    decreases n,
{
    let b64 = b as u64;
    if n < b64 {
        push_digit(out, n as u32);
        assert(final(out)@ =~= old(out)@ + integer_digits(n as nat, b as nat));
    } else {
        let ghost before = out@;
        proof {
            lemma_div_is_strictly_smaller(n as int, b as int);
        }
        push_integer(out, n / b64, b);
        push_digit(out, (n % b64) as u32);
        assert(out@ =~= before + integer_digits(n as nat, b as nat));
    }
}

fn push_fraction(out: &mut String, num: u64, den: u64, b: u32, steps: u32)
    requires
        2 <= b <= ALPHABET_SIZE,
        num < den,
    ensures
        final(out)@ == old(out)@ + fraction_digits(num as nat, den as nat, b as nat, steps as nat),
    decreases steps,
{
    if steps == 0 {
        assert(final(out)@ =~= old(out)@ + fraction_digits(num as nat, den as nat, b as nat, steps as nat));
        return;
    }
    let ghost before = out@;
    assert(num as int * b as int <= u64::MAX as int * 36) by (nonlinear_arith)
        requires
            num <= u64::MAX,
            b <= 36,
    ;
    let t: u128 = num as u128 * b as u128;
    let digit: u128 = t / den as u128;
    let rem: u128 = t % den as u128;
    assert(t < den as int * b as int) by (nonlinear_arith)
        requires
            t as int == num as int * b as int,
            num < den,
            b > 0,
    ;
    proof {
        lemma_multiply_divide_lt(t as int, den as int, b as int);
    }
    push_digit(out, digit as u32);
    let r: u64 = rem as u64;
    if (r as u128) * (CONVERGENCE_SCALE as u128) < den as u128 {
        assert(out@ =~= before + fraction_digits(num as nat, den as nat, b as nat, steps as nat));
    } else {
        push_fraction(out, r, den, b, steps - 1);
        assert(out@ =~= before + fraction_digits(num as nat, den as nat, b as nat, steps as nat));
    }
}

/// Renders `value` in base `base_to`.
pub fn encode(value: &CanonicalValue, base_to: u32) -> (r: Result<String, EncodeError>)
    requires
        value.wf(),
    ensures
        r matches Ok(s) ==> encode_spec(*value, base_to as nat) == Ok::<Seq<char>, EncodeError>(s@),
        r matches Err(e) ==> encode_spec(*value, base_to as nat) == Err::<Seq<char>, EncodeError>(e),
{
    if let Some(e) = check_target_base(base_to) {
        return Err(e);
    }
    let mut out = String::new();
    push_integer(&mut out, value.whole, base_to);
    if value.num > 0 {
        push_digit_separator(&mut out);
        push_fraction(&mut out, value.num, value.den, base_to, MAX_FRACTION_DIGITS);
    }
    assert(out@ =~= rendering(*value, base_to as nat));
    Ok(out)
}

fn push_digit_separator(out: &mut String)
    ensures
        final(out)@ == old(out)@.push('.'),
{
    crate::digits::push_char(out, '.');
}

} // verus!

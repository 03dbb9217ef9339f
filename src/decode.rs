//! Decoding a digit string under a source base into a canonical value.
use vstd::prelude::*;
use vstd::string::StrSliceExecFns;
use crate::digits::{digit_value, is_digit_in};
use crate::positional::{
    all_digits, lemma_power_monotone, lemma_prefix_value_le, lemma_value_below_power,
    positional_value, power,
};
use crate::value::CanonicalValue;

verus! {

/// The part of a digit string in which a faulty character stands.
#[derive(Debug, Clone, Copy, PartialEq, Eq, Structural)]
pub enum Segment {
    Integer,
    Fraction,
}

/// Why a digit string could not be decoded.
#[derive(Debug, Clone, Copy, PartialEq, Eq, Structural)]
pub enum DecodeError {
    /// The source base is below two.
    InvalidBase,
    /// More than one `.`, or no digit at all.
    MalformedNumber,
    /// A character that is no digit below the base.
    InvalidDigit(Segment),
    /// The integer part exceeds `u64`.
    OutOfRange,
}

/// Index of the first `.` in `s`, or `s.len()` when there is none.
pub open spec fn dot_index(s: Seq<char>) -> nat
    decreases s.len(),
{
    if s.len() == 0 {
        0
    } else if s[0] == '.' {
        0
    } else {
        1 + dot_index(s.drop_first())
    }
}

/// The characters before the first `.`.
pub open spec fn integer_segment(s: Seq<char>) -> Seq<char> {
    s.take(dot_index(s) as int)
}

/// The characters after the first `.` (empty when there is none).
pub open spec fn fraction_segment(s: Seq<char>) -> Seq<char> {
    if dot_index(s) < s.len() {
        s.skip(dot_index(s) as int + 1)
    } else {
        Seq::empty()
    }
}

/// How many leading fraction digits of a fraction of `len` digits are kept: the
/// most, up to `len`, for which `base` raised to that count fits in `u64`.
pub open spec fn kept_fraction_len(base: nat, len: nat) -> nat
    decreases len,
{
    if len == 0 || power(base, len) <= u64::MAX {
        len
    } else {
        kept_fraction_len(base, (len - 1) as nat)
    }
}

/// The outcome of decoding `s` under `base`. Fraction digits beyond the
/// precision of a `u64` denominator are dropped.
pub open spec fn decode_spec(s: Seq<char>, base: nat) -> Result<CanonicalValue, DecodeError> {
    let ip = integer_segment(s);
    let fp = fraction_segment(s);
    if base < 2 {
        Err(DecodeError::InvalidBase)
    } else if fp.contains('.') || (ip.len() == 0 && fp.len() == 0) {
        Err(DecodeError::MalformedNumber)
    } else if !all_digits(ip, base) {
        Err(DecodeError::InvalidDigit(Segment::Integer))
    } else if !all_digits(fp, base) {
        Err(DecodeError::InvalidDigit(Segment::Fraction))
    } else if positional_value(ip, base) > u64::MAX {
        Err(DecodeError::OutOfRange)
    } else {
        let k = kept_fraction_len(base, fp.len());
        Ok(
            CanonicalValue {
                whole: positional_value(ip, base) as u64,
                num: positional_value(fp.take(k as int), base) as u64,
                den: power(base, k) as u64,
            },
        )
    }
}

proof fn lemma_kept_fraction_len_bound(base: nat, len: nat)
    ensures
        kept_fraction_len(base, len) <= len,
    decreases len,
{
    if len > 0 {
        lemma_kept_fraction_len_bound(base, (len - 1) as nat);
    }
}

proof fn lemma_kept_fraction_len(base: nat, len: nat, k: nat)
    requires
        base >= 1,
        k <= len,
        power(base, k) <= u64::MAX,
        k == len || power(base, k + 1) > u64::MAX,
    ensures
        kept_fraction_len(base, len) == k,
    decreases len,
{
    if len > k {
        lemma_power_monotone(base, k + 1, len);
        lemma_kept_fraction_len(base, (len - 1) as nat, k);
    }
}

proof fn lemma_dot_index(s: Seq<char>, d: int)
    requires
        0 <= d <= s.len(),
        forall|k: int| 0 <= k < d ==> s[k] != '.',
        d == s.len() || s[d] == '.',
    ensures
        dot_index(s) == d,
    decreases d,
{
    if d > 0 {
        let t = s.drop_first();
        assert forall|k: int| 0 <= k < d - 1 implies t[k] != '.' by {
            assert(t[k] == s[k + 1]);
        }
        if d < s.len() {
            assert(t[d - 1] == s[d]);
        }
        lemma_dot_index(t, d - 1);
    }
}

/// Checks that the characters of `number` in `[from, to)` are digits below `base`.
fn digits_valid(number: &str, from: usize, to: usize, base: u32) -> (r: bool)
    requires
        from <= to <= number@.len(),
    ensures
        r == all_digits(number@.subrange(from as int, to as int), base as nat),
{
    let ghost seg = number@.subrange(from as int, to as int);
    let mut i: usize = from;
    while i < to
        invariant
            from <= i <= to <= number@.len(),
            seg == number@.subrange(from as int, to as int),
            forall|k: int| 0 <= k < i - from ==> is_digit_in(#[trigger] seg[k], base as nat),
        decreases to - i,
    {
        let c = number.get_char(i);
        let ok = match digit_value(c) {
            Some(v) => v < base,
            None => false,
        };
        assert(seg[i - from] == c);
        if !ok {
            return false;
        }
        i += 1;
    }
    true
}

/// The value of the digits of `number` in `[from, to)`, when it fits in `u64`.
fn integer_value(number: &str, from: usize, to: usize, base: u32) -> (r: Option<u64>)
    requires
        from <= to <= number@.len(),
        base >= 2,
        all_digits(number@.subrange(from as int, to as int), base as nat),
    ensures
        r matches Some(v) ==> v == positional_value(
            number@.subrange(from as int, to as int),
            base as nat,
        ),
        r is None ==> positional_value(number@.subrange(from as int, to as int), base as nat)
            > u64::MAX,
{
    let ghost seg = number@.subrange(from as int, to as int);
    let mut acc: u64 = 0;
    let mut i: usize = from;
    while i < to
        invariant
            from <= i <= to <= number@.len(),
            base >= 2,
            seg == number@.subrange(from as int, to as int),
            all_digits(seg, base as nat),
            acc == positional_value(seg.take(i - from), base as nat),
        decreases to - i,
    {
        let c = number.get_char(i);
        assert(seg[i - from] == c);
        assert(is_digit_in(seg[i - from], base as nat));
        let d = digit_value(c).unwrap();
        proof {
            let p = seg.take(i + 1 - from);
            assert(p.drop_last() =~= seg.take(i - from));
            assert(p.last() == c);
        }
        assert(acc as int * base as int <= u64::MAX as int * u32::MAX as int) by (nonlinear_arith)
            requires
                acc <= u64::MAX,
                base <= u32::MAX,
        ;
        let next: u128 = acc as u128 * base as u128 + d as u128;
        if next > u64::MAX as u128 {
            proof {
                lemma_prefix_value_le(seg, i + 1 - from, base as nat);
            }
            return None;
        }
        acc = next as u64;
        i += 1;
    }
    assert(seg.take(to - from) =~= seg);
    Some(acc)
}

/// The value of the leading fraction digits of `number` in `[from, to)` that
/// a `u64` denominator can hold, with that denominator.
fn fraction_value(number: &str, from: usize, to: usize, base: u32) -> (r: (u64, u64))
    requires
        from <= to <= number@.len(),
        base >= 2,
        all_digits(number@.subrange(from as int, to as int), base as nat),
    ensures
        ({
            let k = kept_fraction_len(base as nat, (to - from) as nat);
            &&& r.0 == positional_value(
                number@.subrange(from as int, to as int).take(k as int),
                base as nat,
            )
            &&& r.1 == power(base as nat, k)
        }),
{
    let ghost seg = number@.subrange(from as int, to as int);
    let mut num: u64 = 0;
    let mut den: u64 = 1;
    let mut i: usize = from;
    while i < to
        invariant
            from <= i <= to <= number@.len(),
            base >= 2,
            seg == number@.subrange(from as int, to as int),
            all_digits(seg, base as nat),
            num == positional_value(seg.take(i - from), base as nat),
            den == power(base as nat, (i - from) as nat),
        decreases to - i,
    {
        let c = number.get_char(i);
        assert(seg[i - from] == c);
        assert(is_digit_in(seg[i - from], base as nat));
        let d = digit_value(c).unwrap();
        let ghost p = seg.take(i + 1 - from);
        proof {
            assert(p.drop_last() =~= seg.take(i - from));
            assert(p.last() == c);
            assert(all_digits(p, base as nat)) by {
                assert forall|k: int| 0 <= k < p.len() implies is_digit_in(#[trigger] p[k], base as nat) by {
                    assert(p[k] == seg[k]);
                }
            }
            lemma_value_below_power(p, base as nat);
        }
        assert(den as int * base as int <= u64::MAX as int * u32::MAX as int) by (nonlinear_arith)
            requires
                den <= u64::MAX,
                base <= u32::MAX,
        ;
        assert(num as int * base as int <= u64::MAX as int * u32::MAX as int) by (nonlinear_arith)
            requires
                num <= u64::MAX,
                base <= u32::MAX,
        ;
        let next_den: u128 = den as u128 * base as u128;
        if next_den > u64::MAX as u128 {
            proof {
                lemma_kept_fraction_len(base as nat, (to - from) as nat, (i - from) as nat);
            }
            return (num, den);
        }
        assert(p.len() == i + 1 - from);
        assert(power(base as nat, (i + 1 - from) as nat) == den * base);
        num = (num as u128 * base as u128 + d as u128) as u64;
        den = next_den as u64;
        i += 1;
    }
    proof {
        lemma_kept_fraction_len(base as nat, (to - from) as nat, (to - from) as nat);
    }
    (num, den)
}

/// Decodes `number` (integer digits, optionally `.` and fraction digits) under `base_from`.
pub fn decode(number: &str, base_from: u32) -> (r: Result<CanonicalValue, DecodeError>)
    ensures
        r == decode_spec(number@, base_from as nat),
        r matches Ok(v) ==> v.wf(),
{
    if base_from < 2 {
        return Err(DecodeError::InvalidBase);
    }
    let ghost s = number@;
    let n = number.unicode_len();
    let mut d: usize = 0;
    while d < n && number.get_char(d) != '.'
        invariant
            d <= n,
            n == s.len(),
            s == number@,
            base_from >= 2,
            forall|k: int| 0 <= k < d ==> s[k] != '.',
        decreases n - d,
    {
        d += 1;
    }
    proof {
        lemma_dot_index(s, d as int);
    }
    let ghost ip = integer_segment(s);
    let ghost fp = fraction_segment(s);
    assert(ip =~= s.subrange(0, d as int));
    let frac_start: usize = if d < n { d + 1 } else { n };
    assert(fp =~= s.subrange(frac_start as int, n as int));
    let mut k: usize = frac_start;
    while k < n
        invariant
            frac_start <= k <= n,
            n == s.len(),
            s == number@,
            base_from >= 2,
            fp == s.subrange(frac_start as int, n as int),
            fp == fraction_segment(s),
            forall|j: int| frac_start <= j < k ==> s[j] != '.',
        decreases n - k,
    {
        if number.get_char(k) == '.' {
            assert(fp[k - frac_start] == '.');
            assert(fp.contains('.'));
            return Err(DecodeError::MalformedNumber);
        }
        k += 1;
    }
    assert(!fp.contains('.')) by {
        assert forall|j: int| 0 <= j < fp.len() implies fp[j] != '.' by {
            assert(fp[j] == s[j + frac_start]);
        }
    }
    if d == 0 && frac_start == n {
        return Err(DecodeError::MalformedNumber);
    }
    if !digits_valid(number, 0, d, base_from) {
        return Err(DecodeError::InvalidDigit(Segment::Integer));
    }
    if !digits_valid(number, frac_start, n, base_from) {
        return Err(DecodeError::InvalidDigit(Segment::Fraction));
    }
    let whole = match integer_value(number, 0, d, base_from) {
        Some(v) => v,
        None => return Err(DecodeError::OutOfRange),
    };
    let (num, den) = fraction_value(number, frac_start, n, base_from);
    proof {
        let k = kept_fraction_len(base_from as nat, fp.len());
        lemma_kept_fraction_len_bound(base_from as nat, fp.len());
        assert(all_digits(fp.take(k as int), base_from as nat)) by {
            assert forall|j: int| 0 <= j < fp.take(k as int).len() implies is_digit_in(
                #[trigger] fp.take(k as int)[j],
                base_from as nat,
            ) by {
                assert(fp.take(k as int)[j] == fp[j]);
            }
        }
        lemma_value_below_power(fp.take(k as int), base_from as nat);
    }
    Ok(CanonicalValue { whole, num, den })
}

} // verus!

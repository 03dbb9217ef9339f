//! Properties that relate decoding and encoding.
use vstd::prelude::*;
use crate::decode::{decode_spec, dot_index, fraction_segment, integer_segment, DecodeError, Segment};
use crate::digits::{digit_char, is_digit_in, lemma_digit_char_round_trip};
use crate::encode::{encode_spec, integer_digits};
use crate::positional::{all_digits, positional_value, power};
use crate::value::CanonicalValue;
use crate::convert::{radixshift_spec, ConvertError};

verus! {

/// Facts on the digits of `n` in base `b`: non-empty, no separator, every
/// character a digit below `b`, and worth `n`.
proof fn lemma_integer_digits(n: nat, b: nat)
    requires
        2 <= b <= 36,
    ensures
        integer_digits(n, b).len() > 0,
        forall|i: int| 0 <= i < integer_digits(n, b).len() ==> #[trigger] integer_digits(n, b)[i] != '.',
        all_digits(integer_digits(n, b), b),
        positional_value(integer_digits(n, b), b) == n,
    decreases n,
{
    let s = integer_digits(n, b);
    if n < b {
        lemma_digit_char_round_trip(n);
        assert(s.drop_last() =~= Seq::<char>::empty());
        assert(s.last() == digit_char(n));
        assert(positional_value(s.drop_last(), b) == 0);
        assert(0 * b == 0);
    } else {
        vstd::arithmetic::div_mod::lemma_div_is_strictly_smaller(n as int, b as int);
        lemma_integer_digits(n / b, b);
        let t = integer_digits(n / b, b);
        assert(s == t.push(digit_char(n % b)));
        lemma_digit_char_round_trip(n % b);
        assert(s.drop_last() =~= t);
        assert forall|i: int| 0 <= i < s.len() implies #[trigger] s[i] != '.' && is_digit_in(s[i], b) by {
            if i < t.len() {
                assert(s[i] == t[i]);
            }
        }
        vstd::arithmetic::div_mod::lemma_fundamental_div_mod(n as int, b as int);
        assert(s.last() == digit_char(n % b));
        assert(positional_value(s, b) == positional_value(t, b) * b + (n % b));
        assert((n / b) * b + n % b == n) by (nonlinear_arith)
            requires
                n as int == b * (n as int / b as int) + (n as int % b as int),
        ;
    }
}

proof fn lemma_no_dot(s: Seq<char>)
    requires
        forall|i: int| 0 <= i < s.len() ==> #[trigger] s[i] != '.',
    ensures
        dot_index(s) == s.len(),
    decreases s.len(),
{
    if s.len() > 0 {
        let t = s.drop_first();
        assert forall|i: int| 0 <= i < t.len() implies #[trigger] t[i] != '.' by {
            assert(t[i] == s[i + 1]);
        }
        lemma_no_dot(t);
    }
}

proof fn lemma_dot_index_at_most(s: Seq<char>, i: int)
    requires
        0 <= i < s.len(),
        s[i] == '.',
    ensures
        dot_index(s) <= i,
        s[dot_index(s) as int] == '.',
    decreases s.len(),
{
    if s[0] != '.' {
        let t = s.drop_first();
        assert(t[i - 1] == s[i]);
        lemma_dot_index_at_most(t, i - 1);
        assert(t[dot_index(t) as int] == s[dot_index(s) as int]);
    }
}

/// Decoding the digits of a whole number gives that number back.
pub proof fn lemma_decode_rendered_integer(n: u64, b: nat)
    requires
        2 <= b <= 36,
    ensures
        decode_spec(integer_digits(n as nat, b), b) == Ok::<CanonicalValue, DecodeError>(
            CanonicalValue { whole: n, num: 0, den: 1 },
        ),
{
    let s = integer_digits(n as nat, b);
    lemma_integer_digits(n as nat, b);
    lemma_no_dot(s);
    assert(integer_segment(s) =~= s);
    assert(fraction_segment(s) =~= Seq::<char>::empty());
    assert(all_digits(Seq::<char>::empty(), b));
    assert(!Seq::<char>::empty().contains('.'));
    assert(power(b, 0) == 1);
}

/// Whole numbers survive a conversion: the digits of `n` in base `b1`, decoded
/// and encoded in base `b2`, are the digits of `n` in base `b2`, which decode to `n`.
pub proof fn lemma_integer_round_trip(n: u64, b1: nat, b2: nat)
    requires
        2 <= b1 <= 36,
        2 <= b2 <= 36,
    ensures
        decode_spec(integer_digits(n as nat, b1), b1) == Ok::<CanonicalValue, DecodeError>(
            CanonicalValue::from_integer_spec(n),
        ),
        encode_spec(CanonicalValue::from_integer_spec(n), b2) == Ok::<Seq<char>, crate::encode::EncodeError>(
            integer_digits(n as nat, b2),
        ),
        decode_spec(integer_digits(n as nat, b2), b2) == Ok::<CanonicalValue, DecodeError>(
            CanonicalValue::from_integer_spec(n),
        ),
{
    lemma_decode_rendered_integer(n, b1);
    lemma_decode_rendered_integer(n, b2);
}

/// Between bases two and thirty-six a conversion succeeds exactly when the
/// digit string has at most one separator and at least one digit, every
/// character but the separator is a digit below the source base, and the
/// integer part fits in `u64`.
pub proof fn lemma_conversion_succeeds(s: Seq<char>, from: nat, to: nat)
    requires
        2 <= from <= 36,
        2 <= to <= 36,
    ensures
        radixshift_spec(s, from, to) is Ok <==> {
            let ip = integer_segment(s);
            let fp = fraction_segment(s);
            &&& !fp.contains('.')
            &&& ip.len() + fp.len() > 0
            &&& all_digits(ip, from)
            &&& all_digits(fp, from)
            &&& positional_value(ip, from) <= u64::MAX
        },
{
}

/// A digit string with two separators is malformed, whatever its digits.
pub proof fn lemma_two_separators_malformed(s: Seq<char>, base: nat, i: int, j: int)
    requires
        base >= 2,
        0 <= i < j < s.len(),
        s[i] == '.',
        s[j] == '.',
    ensures
        decode_spec(s, base) == Err::<CanonicalValue, DecodeError>(DecodeError::MalformedNumber),
        forall|to: nat|
            #![trigger radixshift_spec(s, base, to)]
            to >= 1 ==> radixshift_spec(s, base, to) == Err::<Seq<char>, ConvertError>(
                ConvertError::Decode(DecodeError::MalformedNumber),
            ),
{
    lemma_dot_index_at_most(s, i);
    let d = dot_index(s) as int;
    let fp = fraction_segment(s);
    assert(fp[j - d - 1] == s[j]);
    assert(fp.contains('.'));
}

/// A digit string that starts with the separator has a whole part of zero.
pub proof fn lemma_leading_separator_whole_zero(s: Seq<char>, base: nat)
    requires
        s.len() > 0,
        s[0] == '.',
    ensures
        decode_spec(s, base) matches Ok(v) ==> v.whole == 0,
{
    assert(integer_segment(s) =~= Seq::<char>::empty());
}

/// A digit string without separator that holds a character which is no digit
/// below the base is refused as an invalid integer digit.
pub proof fn lemma_out_of_base_digit(s: Seq<char>, base: nat, i: int)
    requires
        base >= 2,
        0 <= i < s.len(),
        forall|k: int| 0 <= k < s.len() ==> #[trigger] s[k] != '.',
        !is_digit_in(s[i], base),
    ensures
        decode_spec(s, base) == Err::<CanonicalValue, DecodeError>(
            DecodeError::InvalidDigit(Segment::Integer),
        ),
{
    lemma_no_dot(s);
    assert(integer_segment(s) =~= s);
    assert(fraction_segment(s) =~= Seq::<char>::empty());
    assert(!Seq::<char>::empty().contains('.'));
}

} // verus!

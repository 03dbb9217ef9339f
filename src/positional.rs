//! Positional notation: the value of a digit sequence under a base.
use vstd::prelude::*;
use crate::digits::{char_digit, is_digit_in};

verus! {

/// The value of a single character taken as a digit (zero if it is none).
pub open spec fn digit_of(c: char) -> nat {
    match char_digit(c) {
        Some(d) => d,
        None => 0,
    }
}

/// Every character of `s` is a digit below `base`.
pub open spec fn all_digits(s: Seq<char>, base: nat) -> bool {
    forall|i: int| 0 <= i < s.len() ==> is_digit_in(#[trigger] s[i], base)
}

/// The sum of `digit * base^position`, positions counted from the right, from 0.
pub open spec fn positional_value(s: Seq<char>, base: nat) -> nat
    decreases s.len(),
{
    if s.len() == 0 {
        0
    } else {
        positional_value(s.drop_last(), base) * base + digit_of(s.last())
    }
}

/// `base` raised to `e`.
pub open spec fn power(base: nat, e: nat) -> nat
    decreases e,
{
    if e == 0 {
        1
    } else {
        power(base, (e - 1) as nat) * base
    }
}

/// A prefix of a digit sequence is worth no more than the whole sequence.
pub proof fn lemma_prefix_value_le(s: Seq<char>, i: int, base: nat)
    requires
        0 <= i <= s.len(),
        base >= 1,
    ensures
        positional_value(s.take(i), base) <= positional_value(s, base),
    decreases s.len(),
{
    if i < s.len() {
        lemma_prefix_value_le(s.drop_last(), i, base);
        assert(s.drop_last().take(i) =~= s.take(i));
        let v = positional_value(s.drop_last(), base);
        assert(v <= v * base) by (nonlinear_arith)
            requires
                base >= 1,
        ;
    } else {
        assert(s.take(i) =~= s);
    }
}

/// Powers of a base of at least one do not decrease.
pub proof fn lemma_power_monotone(base: nat, i: nat, j: nat)
    requires
        base >= 1,
        i <= j,
    ensures
        power(base, i) <= power(base, j),
    decreases j,
{
    if i < j {
        lemma_power_monotone(base, i, (j - 1) as nat);
        let p = power(base, (j - 1) as nat);
        assert(p <= p * base) by (nonlinear_arith)
            requires
                base >= 1,
        ;
    }
}

/// A sequence of `k` digits below `base` is worth less than `base^k`.
pub proof fn lemma_value_below_power(s: Seq<char>, base: nat)
    requires
        all_digits(s, base),
    ensures
        positional_value(s, base) < power(base, s.len()),
    decreases s.len(),
{
    if s.len() > 0 {
        let t = s.drop_last();
        assert(all_digits(t, base)) by {
            assert forall|i: int| 0 <= i < t.len() implies is_digit_in(#[trigger] t[i], base) by {
                assert(t[i] == s[i]);
            }
        }
        lemma_value_below_power(t, base);
        assert(is_digit_in(s[s.len() - 1], base));
        let v = positional_value(t, base);
        let p = power(base, t.len());
        let d = digit_of(s.last());
        assert(v * base + d < p * base) by (nonlinear_arith)
            requires
                v < p,
                d < base,
        ;
    }
}

} // verus!

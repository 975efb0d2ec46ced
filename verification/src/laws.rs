//! What holds of every odometer, proved over the model.
//!
//! The digits of a state spell a number below the capacity. One step adds one
//! to that number, or takes the last state back to zero. From this follow the
//! length of a cycle and the fact that a cycle meets every state exactly once.

use crate::model::{advanced, capacity, domain_size, is_full, successor, value, within_domain, zeros};
use vstd::arithmetic::div_mod::{
    lemma_div_denominator, lemma_fundamental_div_mod_converse, lemma_mod_self_0, lemma_small_mod,
};
use vstd::arithmetic::power::{lemma_pow_positive, pow};
use vstd::prelude::*;

verus! {

/// The capacity is positive, is 1 for no digits at all, and grows by a factor
/// of the domain's size with each further digit.
pub proof fn lemma_capacity_unfolds(max: u32, len: nat)
    ensures
        capacity(max, 0) == 1,
        capacity(max, len) >= 1,
        capacity(max, len + 1) == domain_size(max) * capacity(max, len),
{
    reveal(pow);
    lemma_pow_positive(domain_size(max) as int, len);
    lemma_pow_positive(domain_size(max) as int, len + 1);
}

/// All zeros spell the number zero.
pub proof fn lemma_value_of_zeros(len: nat, max: u32)
    ensures
        value(zeros(len), max) == 0,
    decreases len,
{
    if len > 0 {
        assert(zeros(len).drop_first() == zeros((len - 1) as nat));
        lemma_value_of_zeros((len - 1) as nat, max);
        assert(domain_size(max) * 0 == 0);
    }
}

/// The digits of a state spell a number below the capacity.
pub proof fn lemma_value_below_capacity(digits: Seq<u32>, max: u32)
    requires
        within_domain(digits, max),
    ensures
        value(digits, max) < capacity(max, digits.len()),
    decreases digits.len(),
{
    if digits.len() == 0 {
        lemma_capacity_unfolds(max, 0);
    } else {
        let rest = digits.drop_first();
        let base = domain_size(max);
        let above = value(rest, max);
        let room = capacity(max, rest.len());
        lemma_value_below_capacity(rest, max);
        lemma_capacity_unfolds(max, rest.len());
        assert(base * above + base <= base * room) by (nonlinear_arith)
            requires
                above + 1 <= room,
        ;
    }
}

/// Two states of one length that spell the same number are the same state.
pub proof fn lemma_value_determines_digits(a: Seq<u32>, b: Seq<u32>, max: u32)
    requires
        within_domain(a, max),
        within_domain(b, max),
        a.len() == b.len(),
        value(a, max) == value(b, max),
    ensures
        a == b,
    decreases a.len(),
{
    if a.len() > 0 {
        let base = domain_size(max) as int;
        let rest_a = a.drop_first();
        let rest_b = b.drop_first();
        let above_a = value(rest_a, max) as int;
        let above_b = value(rest_b, max) as int;
        let spelled = value(a, max) as int;
        assert(base * above_a == above_a * base && base * above_b == above_b * base)
            by (nonlinear_arith);
        lemma_fundamental_div_mod_converse(spelled, base, above_a, a[0] as int);
        lemma_fundamental_div_mod_converse(spelled, base, above_b, b[0] as int);
        lemma_value_determines_digits(rest_a, rest_b, max);
        assert forall|i: int| 0 <= i < a.len() implies a[i] == b[i] by {
            if i > 0 {
                assert(a[i] == rest_a[i - 1]);
                assert(b[i] == rest_b[i - 1]);
            }
        }
    }
    assert(a =~= b);
}

/// Each digit of a state is the digit that the number it spells has at that
/// position, written in the base of the odometer with the lowest place first.
pub proof fn lemma_digit_of_value(digits: Seq<u32>, max: u32, i: int)
    requires
        within_domain(digits, max),
        0 <= i < digits.len(),
    ensures
        digits[i] == (value(digits, max) / capacity(max, i as nat)) % domain_size(max),
    decreases i,
{
    let base = domain_size(max) as int;
    let rest = digits.drop_first();
    let above = value(rest, max) as int;
    let spelled = value(digits, max) as int;
    assert(base * above == above * base) by (nonlinear_arith);
    lemma_fundamental_div_mod_converse(spelled, base, above, digits[0] as int);
    if i == 0 {
        lemma_capacity_unfolds(max, 0);
        assert(spelled / 1 == spelled);
    } else {
        let below = capacity(max, (i - 1) as nat) as int;
        lemma_digit_of_value(rest, max, i - 1);
        lemma_capacity_unfolds(max, (i - 1) as nat);
        assert(capacity(max, i as nat) == base * below);
        lemma_div_denominator(spelled, base, below);
        assert(digits[i] == rest[i - 1]);
    }
}

/// One step keeps the length and keeps every digit in the domain. From the
/// last state, where every digit is at the top and the digits spell the
/// greatest number below the capacity, it leads to all zeros. From any other
/// state it leads to the state that spells the next number.
pub proof fn lemma_successor_is_next(digits: Seq<u32>, max: u32)
    requires
        within_domain(digits, max),
    ensures
        successor(digits, max).len() == digits.len(),
        within_domain(successor(digits, max), max),
        is_full(digits, max) ==> successor(digits, max) == zeros(digits.len()),
        is_full(digits, max) ==> value(digits, max) + 1 == capacity(max, digits.len()),
        !is_full(digits, max) ==> value(successor(digits, max), max) == value(digits, max) + 1,
    decreases digits.len(),
{
    let base = domain_size(max);
    if digits.len() == 0 {
        lemma_capacity_unfolds(max, 0);
        assert(digits =~= zeros(0));
    } else if digits[0] == max {
        let rest = digits.drop_first();
        let next = successor(digits, max);
        lemma_successor_is_next(rest, max);
        lemma_capacity_unfolds(max, rest.len());
        assert(next.drop_first() == successor(rest, max));
        if is_full(rest, max) {
            assert forall|i: int| 0 <= i < digits.len() implies digits[i] == max by {
                if i > 0 {
                    assert(digits[i] == rest[i - 1]);
                }
            }
            assert(next == zeros(digits.len()));
            assert(base * value(rest, max) + base == base * capacity(max, rest.len()))
                by (nonlinear_arith)
                requires
                    value(rest, max) + 1 == capacity(max, rest.len()),
            ;
        } else {
            let i = choose|i: int| 0 <= i < rest.len() && rest[i] != max;
            assert(digits[i + 1] == rest[i]);
            assert(base * (value(rest, max) + 1) == base * value(rest, max) + base)
                by (nonlinear_arith);
        }
    } else {
        assert(successor(digits, max).drop_first() == digits.drop_first());
    }
}

/// A state is the last one, the one from which a step wraps around, exactly
/// if the number it spells is the greatest below the capacity.
pub proof fn lemma_full_is_last(digits: Seq<u32>, max: u32)
    requires
        within_domain(digits, max),
    ensures
        is_full(digits, max) <==> value(digits, max) + 1 == capacity(max, digits.len()),
{
    lemma_successor_is_next(digits, max);
    if !is_full(digits, max) {
        lemma_value_below_capacity(successor(digits, max), max);
    }
}

/// One step adds one to the number that the digits spell, modulo the capacity.
pub proof fn lemma_successor_counts_up(digits: Seq<u32>, max: u32)
    requires
        within_domain(digits, max),
    ensures
        value(successor(digits, max), max) == (value(digits, max) + 1) % capacity(
            max,
            digits.len(),
        ),
{
    let room = capacity(max, digits.len());
    lemma_successor_is_next(digits, max);
    lemma_capacity_unfolds(max, digits.len());
    if is_full(digits, max) {
        lemma_value_of_zeros(digits.len(), max);
        lemma_mod_self_0(room as int);
    } else {
        lemma_value_below_capacity(successor(digits, max), max);
        lemma_small_mod(value(digits, max) + 1, room);
    }
}

/// Counting from all zeros, the state after `k` steps spells the number `k`,
/// as long as `k` is below the capacity.
pub proof fn lemma_counts_from_zero(max: u32, len: nat, k: nat)
    requires
        k < capacity(max, len),
    ensures
        advanced(zeros(len), max, k).len() == len,
        within_domain(advanced(zeros(len), max, k), max),
        value(advanced(zeros(len), max, k), max) == k,
    decreases k,
{
    if k == 0 {
        lemma_value_of_zeros(len, max);
    } else {
        let before = advanced(zeros(len), max, (k - 1) as nat);
        lemma_counts_from_zero(max, len, (k - 1) as nat);
        lemma_successor_is_next(before, max);
    }
}

/// The length of a cycle. A step wraps around exactly where the state before
/// it is full. Counting from all zeros, the state before each of the first
/// `capacity - 1` steps is not full, the state before the step after them is,
/// and that step leads back to all zeros. So a cycle takes `capacity` steps:
/// the last one wraps and no earlier one does.
pub proof fn lemma_cycle_length(max: u32, len: nat)
    ensures
        forall|k: nat|
            k + 1 < capacity(max, len) ==> !is_full(#[trigger] advanced(zeros(len), max, k), max),
        is_full(advanced(zeros(len), max, (capacity(max, len) - 1) as nat), max),
        advanced(zeros(len), max, capacity(max, len)) == zeros(len),
{
    let room = capacity(max, len);
    lemma_capacity_unfolds(max, len);
    assert forall|k: nat| k + 1 < room implies !is_full(
        #[trigger] advanced(zeros(len), max, k),
        max,
    ) by {
        lemma_counts_from_zero(max, len, k);
        lemma_full_is_last(advanced(zeros(len), max, k), max);
    }
    let last = advanced(zeros(len), max, (room - 1) as nat);
    lemma_counts_from_zero(max, len, (room - 1) as nat);
    lemma_full_is_last(last, max);
    lemma_successor_is_next(last, max);
}

/// A cycle meets every state: counting from all zeros, a state is reached by
/// as many steps as the number it spells, which is fewer than the capacity.
pub proof fn lemma_every_state_is_reached(digits: Seq<u32>, max: u32)
    requires
        within_domain(digits, max),
    ensures
        value(digits, max) < capacity(max, digits.len()),
        advanced(zeros(digits.len()), max, value(digits, max)) == digits,
{
    let steps = value(digits, max);
    lemma_value_below_capacity(digits, max);
    lemma_counts_from_zero(max, digits.len(), steps);
    lemma_value_determines_digits(advanced(zeros(digits.len()), max, steps), digits, max);
}

/// A cycle meets no state twice: counting from all zeros, different numbers
/// of steps below the capacity lead to different states.
pub proof fn lemma_no_state_is_repeated(max: u32, len: nat, j: nat, k: nat)
    requires
        j < k < capacity(max, len),
    ensures
        advanced(zeros(len), max, j) != advanced(zeros(len), max, k),
{
    lemma_counts_from_zero(max, len, j);
    lemma_counts_from_zero(max, len, k);
}

/// Counting goes on after a wrap. Where there is a digit at all and the
/// domain holds more than one value, the step out of the last state leads to
/// all zeros, which is not itself the last state, so the step after that does
/// not wrap: it raises the lowest digit to one and leaves the others at zero.
pub proof fn lemma_counting_resumes_after_wrap(digits: Seq<u32>, max: u32)
    requires
        within_domain(digits, max),
        is_full(digits, max),
        digits.len() >= 1,
        max >= 1,
    ensures
        successor(digits, max) == zeros(digits.len()),
        !is_full(successor(digits, max), max),
        successor(successor(digits, max), max) == zeros(digits.len()).update(0, 1),
{
    lemma_successor_is_next(digits, max);
    assert(zeros(digits.len())[0] != max);
}

} // verus!

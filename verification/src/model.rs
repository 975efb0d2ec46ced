//! The mathematical model of an odometer: a sequence of digits, least
//! significant first, all counting over the same domain `0..=max`.

use vstd::arithmetic::power::pow;
use vstd::prelude::*;

verus! {

/// Every digit lies in the domain `0..=max`.
pub open spec fn within_domain(digits: Seq<u32>, max: u32) -> bool {
    forall|i: int| 0 <= i < digits.len() ==> digits[i] <= max
}

/// Every digit sits at the top of the domain, so the next step carries out of
/// the most significant position.
pub open spec fn is_full(digits: Seq<u32>, max: u32) -> bool {
    forall|i: int| 0 <= i < digits.len() ==> digits[i] == max
}

/// The state in which every one of `len` digits is at the bottom of the domain.
pub open spec fn zeros(len: nat) -> Seq<u32> {
    Seq::new(len, |i: int| 0u32)
}

/// The state that follows `digits`: the lowest digit goes up by one, and a
/// digit that is already at `max` falls back to zero and hands the step on to
/// the position above it.
pub open spec fn successor(digits: Seq<u32>, max: u32) -> Seq<u32>
    decreases digits.len(),
{
    if digits.len() == 0 {
        digits
    } else if digits[0] == max {
        seq![0u32] + successor(digits.drop_first(), max)
    } else {
        digits.update(0, (digits[0] + 1) as u32)
    }
}

/// The state reached from `digits` by `n` steps.
pub open spec fn advanced(digits: Seq<u32>, max: u32, n: nat) -> Seq<u32>
    decreases n,
{
    if n == 0 {
        digits
    } else {
        successor(advanced(digits, max, (n - 1) as nat), max)
    }
}

/// The number of distinct values one digit takes: the base of the odometer.
pub open spec fn domain_size(max: u32) -> nat {
    (max + 1) as nat
}

/// The number that `digits` spell in base `domain_size(max)`, position 0
/// weighing least.
pub open spec fn value(digits: Seq<u32>, max: u32) -> nat
    decreases digits.len(),
{
    if digits.len() == 0 {
        0
    } else {
        digits[0] as nat + domain_size(max) * value(digits.drop_first(), max)
    }
}

/// The number of distinct states of `len` digits over `0..=max`.
pub open spec fn capacity(max: u32, len: nat) -> nat {
    pow(domain_size(max) as int, len) as nat
}

} // verus!

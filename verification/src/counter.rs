//! The executable counter.

use crate::laws::lemma_successor_counts_up;
use crate::model::{capacity, is_full, successor, value, within_domain, zeros};
use vstd::prelude::*;

verus! {

/// Why a counter could not be made.
#[derive(Clone, Copy, Debug, PartialEq, Eq)]
pub enum CounterError {
    /// The requested domain holds no value at all.
    InvalidDomain,
}

impl CounterError {
    /// A description of the failure for a human reader. The only domain that
    /// is ever refused is the one of size 0.
    pub fn message(&self) -> (text: String)
        ensures
            text@ == "domain must be positive, but was 0"@,
    {
        "domain must be positive, but was 0".to_owned()
    }
}

/// A fixed-length odometer. Position 0 is the least significant digit: it is
/// the first to move and the first to carry.
pub struct Counter {
    data: Vec<u32>,
    domain_m_one: u32,
}

impl View for Counter {
    type V = Seq<u32>;

    /// The current digits, least significant first.
    closed spec fn view(&self) -> Seq<u32> {
        self.data@
    }
}

/// Steps `digits` once and reports whether the carry left the top position.
/// The work is done here, on the bare vector, so that the counter that owns
/// the vector is handed a finished state and never an intermediate one.
fn advance(digits: &mut Vec<u32>, max: u32) -> (wrapped: bool)
    requires
        within_domain(old(digits)@, max),
    ensures
        final(digits)@ == successor(old(digits)@, max),
        wrapped == is_full(old(digits)@, max),
        wrapped ==> final(digits)@ == zeros(old(digits)@.len()),
        within_domain(final(digits)@, max),
        final(digits)@.len() == old(digits)@.len(),
    no_unwind
{
    let n: usize = digits.len();
    let mut i: usize = 0;
    proof {
        assert(old(digits)@.skip(0) == old(digits)@);
        assert(zeros(0) + old(digits)@ == old(digits)@);
        assert(zeros(0) + successor(old(digits)@, max) == successor(old(digits)@, max));
    }
    while i < n
        invariant
            i <= n,
            n == digits@.len(),
            n == old(digits)@.len(),
            within_domain(old(digits)@, max),
            forall|j: int| 0 <= j < i ==> old(digits)@[j] == max,
            digits@ == zeros(i as nat) + old(digits)@.skip(i as int),
            successor(old(digits)@, max) == zeros(i as nat) + successor(
                old(digits)@.skip(i as int),
                max,
            ),
        decreases n - i,
    {
        let ghost carried = zeros(i as nat);
        let ghost rest = old(digits)@.skip(i as int);
        assert(rest[0] == old(digits)@[i as int]);
        if digits[i] == max {
            digits[i] = 0;
            proof {
                let above = successor(rest.drop_first(), max);
                assert(rest.drop_first() == old(digits)@.skip(i + 1));
                assert(carried + seq![0u32] == zeros((i + 1) as nat));
                assert(carried + (seq![0u32] + above) == (carried + seq![0u32]) + above);
            }
        } else {
            digits[i] += 1;
            assert(digits@ == carried + successor(rest, max));
            return false;
        }
        i += 1;
    }
    assert(old(digits)@.skip(n as int) == Seq::<u32>::empty());
    true
}

impl Counter {
    #[verifier::type_invariant]
    spec fn digits_within_domain(self) -> bool {
        within_domain(self.data@, self.domain_m_one)
    }

    /// The largest value a digit may hold.
    pub closed spec fn spec_domain_max(&self) -> u32 {
        self.domain_m_one
    }

    /// Makes a counter of `len` digits, each ranging over `domain` values,
    /// with every digit at zero. A domain without values is refused.
    pub fn new(domain: u32, len: usize) -> (made: Result<Counter, CounterError>)
        ensures
            made is Err <==> domain == 0,
            made matches Err(e) ==> e == CounterError::InvalidDomain,
            made matches Ok(counter) ==> counter@ == zeros(len as nat) && counter.domain_max()
                == domain - 1,
    {
        if domain == 0 {
            return Err(CounterError::InvalidDomain);
        }
        let domain_m_one: u32 = domain - 1;
        let data: Vec<u32> = vec![0u32; len];
        assert(data@ == zeros(len as nat));
        Ok(Counter { data, domain_m_one })
    }

    /// The largest value a digit may hold: one less than the domain's size.
    #[verifier::when_used_as_spec(spec_domain_max)]
    pub fn domain_max(&self) -> (max: u32)
        ensures
            max == self.spec_domain_max(),
    {
        self.domain_m_one
    }

    /// Advances to the next state in odometer order and reports whether the
    /// counter wrapped around to all zeros. The lowest digit goes up by one; a
    /// digit that is at the top of the domain falls back to zero and carries
    /// into the position above it. Seen as a number, the state goes up by one
    /// modulo the number of states.
    pub fn inc(&mut self) -> (wrapped: bool)
        ensures
            final(self).domain_max() == old(self).domain_max(),
            final(self)@.len() == old(self)@.len(),
            within_domain(final(self)@, final(self).domain_max()),
            final(self)@ == successor(old(self)@, old(self).domain_max()),
            value(final(self)@, old(self).domain_max()) == (value(old(self)@, old(self).domain_max())
                + 1) % capacity(old(self).domain_max(), old(self)@.len()),
            wrapped == is_full(old(self)@, old(self).domain_max()),
            wrapped ==> final(self)@ == zeros(old(self)@.len()),
    {
        proof {
            use_type_invariant(&*self);
            lemma_successor_counts_up(self.data@, self.domain_m_one);
        }
        advance(&mut self.data, self.domain_m_one)
    }

    /// The current digits, least significant first. The slice is borrowed
    /// from the counter, not copied: it shows the state as it is at the call,
    /// and the counter cannot be stepped while the slice is held.
    pub fn read(&self) -> (digits: &[u32])
        ensures
            digits@ == self@,
            within_domain(digits@, self.domain_max()),
    {
        proof {
            use_type_invariant(self);
        }
        self.data.as_slice()
    }

    /// Steps once and hands out the new digits, or `None` where the step
    /// wrapped around and one full cycle is complete. After a `None` the
    /// counter stands at all zeros and goes on counting.
    pub fn next(&mut self) -> (item: Option<&[u32]>)
        ensures
            final(self).domain_max() == old(self).domain_max(),
            final(self)@.len() == old(self)@.len(),
            within_domain(final(self)@, final(self).domain_max()),
            final(self)@ == successor(old(self)@, old(self).domain_max()),
            value(final(self)@, old(self).domain_max()) == (value(old(self)@, old(self).domain_max())
                + 1) % capacity(old(self).domain_max(), old(self)@.len()),
            item is None <==> is_full(old(self)@, old(self).domain_max()),
            item is None ==> final(self)@ == zeros(old(self)@.len()),
            item matches Some(digits) ==> digits@ == final(self)@,
    {
        if self.inc() {
            None
        } else {
            Some(self.read())
        }
    }
}

} // verus!

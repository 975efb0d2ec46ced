//! A mixed-radix odometer: a fixed number of digits over one shared domain,
//! stepped one state at a time through every combination of digit values.

pub mod counter;
pub mod laws;
pub mod model;

pub use counter::{Counter, CounterError};

use model::zeros;
use vstd::prelude::*;

verus! {

/// Makes a counter of `len` digits over `domain` values; the same as
/// [`Counter::new`].
pub fn over(domain: u32, len: usize) -> (made: Result<Counter, CounterError>)
    ensures
        made is Err <==> domain == 0,
        made matches Err(e) ==> e == CounterError::InvalidDomain,
        made matches Ok(counter) ==> counter@ == zeros(len as nat) && counter.domain_max()
            == domain - 1,
{
    Counter::new(domain, len)
}

} // verus!

//! The wall clock, through `std::time::Instant`.

use vstd::prelude::*;
use std::time::{Duration, Instant};

verus! {

#[verifier::external_type_specification]
#[verifier::external_body]
pub struct ExInstant(Instant);

/// `Instant::now`. Nothing is claimed of the moment it returns.
#[verifier::external_body]
pub fn instant_now() -> (t: Instant) {
    Instant::now()
}

/// `Instant::elapsed`: the time since `t`. Nothing is claimed of the time
/// that has passed.
#[verifier::external_body]
pub fn elapsed_since(t: &Instant) -> (d: Duration) {
    t.elapsed()
}

/// `Duration::as_nanos`: the duration's length in whole nanoseconds.
/// Nothing is claimed of the result.
#[verifier::external_body]
pub fn duration_nanos(d: Duration) -> (n: u128) {
    d.as_nanos()
}

} // verus!

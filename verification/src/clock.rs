//! Reading the clock, for the searches that give up after a time limit.
//! What the clock reads is not stated: a search that asks it only learns
//! whether to stop.
use core::time::Duration;
use std::time::Instant;
use vstd::prelude::*;

verus! {

/// `std::time::Instant`, carried through unread.
#[verifier::external_type_specification]
#[verifier::external_body]
pub struct ExInstant(Instant);

/// `Instant::now`: the current time.
#[verifier::external_body]
pub fn now() -> (t: Instant) {
    Instant::now()
}

/// `Instant::elapsed` compared with `Duration`'s `>`: whether more than
/// `limit` has passed since `start`. The answer depends on the clock and is
/// left open.
#[verifier::external_body]
pub fn elapsed_beyond(start: &Instant, limit: Duration) -> (b: bool) {
    start.elapsed() > limit
}

} // verus!

//! The monotonic clock of the standard library, as the library sees it.
//!
//! `Instant` is opaque: no contract here says what a reading holds, since
//! every reading depends on when it is taken.
use std::sync::atomic::Ordering;
use std::time::{Duration, Instant};
use vstd::prelude::*;

verus! {

#[verifier::external_type_specification]
#[verifier::external_body]
pub struct ExInstant(std::time::Instant);

/// `Clone::clone` of `std::time::Instant`: `Instant` is `Copy`, and its
/// clone is the same reading.
pub assume_specification[ <std::time::Instant as Clone>::clone ](i: &Instant) -> (r: Instant)
    ensures
        r == *i,
;

/// Reads the clock through `std::time::Instant::now`. Nothing is stated of
/// the reading: it depends on the time of the call.
#[verifier::external_body]
pub(crate) fn instant_now() -> Instant {
    Instant::now()
}

/// Whether reading `later` was taken after reading `earlier`: the result of
/// `>` on `std::time::Instant`, which depends on the two readings alone.
pub uninterp spec fn instant_later(later: Instant, earlier: Instant) -> bool;

/// Compares two readings with `>` (`PartialOrd::gt` of `std::time::Instant`).
/// The answer is named `instant_later` of the two readings; of it, only that
/// a reading is not after itself is stated (the order of `Instant` is a
/// total order, hence irreflexive).
#[verifier::external_body]
pub(crate) fn instant_is_after(later: &Instant, earlier: &Instant) -> (r: bool)
    ensures
        r == instant_later(*later, *earlier),
        *later == *earlier ==> !r,
{
    *later > *earlier
}

/// The time elapsed since `start`, through `std::time::Instant::elapsed`.
/// It depends on the time of the call, so nothing is stated of it.
#[verifier::external_body]
pub(crate) fn instant_elapsed(start: &Instant) -> Duration {
    start.elapsed()
}

/// The whole nanoseconds of a duration, through
/// `std::time::Duration::as_nanos`. A `Duration` is opaque here, so no
/// clause states the number.
#[verifier::external_body]
pub(crate) fn duration_as_nanos(d: &Duration) -> u128 {
    d.as_nanos()
}

/// A sequentially consistent memory fence, through
/// `std::sync::atomic::fence`, so that the timed work is not reordered
/// across the clock readings. It returns nothing and changes no value the
/// library holds.
#[verifier::external_body]
pub(crate) fn memory_fence() {
    std::sync::atomic::fence(Ordering::SeqCst)
}

} // verus!

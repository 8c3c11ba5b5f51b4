//! Time, as nanoseconds since a process-local origin.
use std::time::Instant;
use std::time::SystemTime;
use vstd::prelude::*;

verus! {

/// Nanoseconds in a millisecond.
pub const MILLISECOND: u64 = 1_000_000;

/// Nanoseconds in a second.
pub const SECOND: u64 = 1_000_000_000;

/// `std::time::Instant`, carried and never looked into.
#[verifier::external_type_specification]
#[verifier::external_body]
pub struct ExInstant(Instant);

/// A monotonic clock.
pub struct Clock {
    origin: Instant,
}

/// `Instant::now`: the present moment. Nothing is claimed of it.
#[verifier::external_body]
fn present() -> Instant {
    Instant::now()
}

/// `Instant::elapsed`, in nanoseconds. It depends on when it is called, so
/// nothing is claimed of it.
#[verifier::external_body]
fn nanos_since(origin: &Instant) -> u64 {
    origin.elapsed().as_nanos() as u64
}

/// `std::time::SystemTime`, carried and never looked into.
#[verifier::external_type_specification]
#[verifier::external_body]
pub struct ExSystemTime(SystemTime);

/// `SystemTime::now`: the time of day. Nothing is claimed of it.
#[verifier::external_body]
fn wall() -> SystemTime {
    SystemTime::now()
}

/// `SystemTime::duration_since` the Unix epoch, in nanoseconds; zero for a time
/// before it. A `SystemTime` is opaque here, so nothing is claimed of it.
#[verifier::external_body]
fn since_epoch(at: SystemTime) -> u64 {
    at.duration_since(SystemTime::UNIX_EPOCH).map(|d| d.as_nanos() as u64).unwrap_or(0)
}

/// The time of day, in nanoseconds since the Unix epoch.
pub fn wall_nanos() -> u64 {
    since_epoch(wall())
}

/// The time from `earlier` to `later`, and none when they are the other way
/// round.
pub open spec fn elapsed(earlier: u64, later: u64) -> u64 {
    if later >= earlier {
        (later - earlier) as u64
    } else {
        0
    }
}

pub fn elapsed_between(earlier: u64, later: u64) -> (out: u64)
    ensures
        out == elapsed(earlier, later),
{
    if later >= earlier {
        later - earlier
    } else {
        0
    }
}

impl Clock {
    /// A clock that starts at zero.
    pub fn start() -> Self {
        Clock { origin: present() }
    }

    /// Nanoseconds since this clock started.
    pub fn now(&self) -> u64 {
        nanos_since(&self.origin)
    }
}

/// The time between two moments is what has to be added to the first to get the
/// second, and nothing where the second comes first.
pub proof fn law_time_passes_forwards(earlier: u64, later: u64)
    ensures
        earlier <= later ==> earlier + elapsed(earlier, later) == later,
        earlier > later ==> elapsed(earlier, later) == 0,
{
}

} // verus!

//! Resource ceilings of the sandbox.
use vstd::prelude::*;

verus! {

/// Default ceiling on a guest's memory, enforced per request: 128 MiB.
pub const MAX_MEMORY_BYTES: usize = 0x800_0000;

/// Largest ceiling any function may ever be granted: 256 MiB. The allocator
/// reserves this much per slot, so it stays above the ceiling that binds.
pub const POOL_MAX_MEMORY_BYTES: usize = 0x1000_0000;

pub const MAX_WASM_STACK_BYTES: usize = 0x8_0000;

pub const MAX_TABLE_ELEMENTS: usize = 10_000;

pub const MAX_CONCURRENT_INSTANCES: u32 = 64;

/// The period of the epoch, in nanoseconds, and so the granularity of a
/// deadline.
pub const EPOCH_TICK: u64 = 1_000_000;

/// Whether something may grow to `desired` under a ceiling and under what the module
/// declared.
pub open spec fn may_grow(desired: int, maximum: Option<usize>, ceiling: int) -> bool {
    desired <= ceiling && (maximum matches Some(most) ==> desired <= most)
}

/// Decides what a guest may grow to, and remembers that it was refused memory:
/// a guest that is refused and touches the memory anyway fails with a trap that
/// names the symptom and not the cause.
pub struct Limits {
    refused: bool,
}

impl View for Limits {
    type V = bool;

    /// Whether memory was refused.
    closed spec fn view(&self) -> bool {
        self.refused
    }
}

impl Limits {
    pub fn new() -> (out: Self)
        ensures
            !out@,
    {
        Limits { refused: false }
    }

    /// Whether a guest's memory may grow to `desired` bytes. `maximum` is what
    /// the module itself declared; growing past that is no breach of the
    /// ceiling.
    pub fn memory_growing(&mut self, desired: usize, maximum: Option<usize>) -> (out: bool)
        ensures
            out == may_grow(desired as int, maximum, MAX_MEMORY_BYTES as int),
            out == (desired <= MAX_MEMORY_BYTES && (maximum matches Some(most) ==> desired <= most)),
            final(self)@ == (old(self)@ || desired > MAX_MEMORY_BYTES),
    {
        if desired > MAX_MEMORY_BYTES {
            self.refused = true;
            return false;
        }
        match maximum {
            Some(most) => desired <= most,
            None => true,
        }
    }

    /// Whether a guest's table may grow to `desired` elements.
    pub fn table_growing(&self, desired: usize, maximum: Option<usize>) -> (out: bool)
        ensures
            out == may_grow(desired as int, maximum, MAX_TABLE_ELEMENTS as int),
            out == (desired <= MAX_TABLE_ELEMENTS && (maximum matches Some(most) ==> desired
                <= most)),
    {
        if desired > MAX_TABLE_ELEMENTS {
            return false;
        }
        match maximum {
            Some(most) => desired <= most,
            None => true,
        }
    }

    /// Whether memory was refused at any time.
    pub fn memory_refused(&self) -> (out: bool)
        ensures
            out == self@,
    {
        self.refused
    }
}

/// The ceiling per request is the one that binds, and the allocator's slot is
/// only the backstop: were they equal, losing the first would go unnoticed.
pub proof fn law_the_ceiling_binds_before_the_slot()
    ensures
        MAX_MEMORY_BYTES < POOL_MAX_MEMORY_BYTES,
{
}

/// A guest is held to 128 MiB of memory, 512 KiB of stack and ten thousand table
/// elements, on sixty-four instances at a time, and its deadline is counted in
/// milliseconds.
pub proof fn law_the_ceilings_are_these()
    ensures
        MAX_MEMORY_BYTES == 128 * 1024 * 1024,
        POOL_MAX_MEMORY_BYTES == 256 * 1024 * 1024,
        MAX_WASM_STACK_BYTES == 512 * 1024,
        MAX_TABLE_ELEMENTS == 10_000,
        MAX_CONCURRENT_INSTANCES == 64,
        EPOCH_TICK == 1_000_000,
{
}

/// Growth is allowed up to the smaller of the ceiling and what the module declared,
/// and no further.
pub proof fn law_growth_stops_at_the_smaller_bound(
    desired: int,
    maximum: Option<usize>,
    ceiling: int,
)
    ensures
        desired > ceiling ==> !may_grow(desired, maximum, ceiling),
        maximum is Some && desired > maximum->0 ==> !may_grow(desired, maximum, ceiling),
        desired <= ceiling && (maximum is None || desired <= maximum->0) ==> may_grow(
            desired,
            maximum,
            ceiling,
        ),
{
}

} // verus!

//! Worker-side registration and liveness.
use crate::clock::wall_nanos;
use crate::clock::MILLISECOND;
use crate::proto::HeartbeatRequest;
use crate::proto::HeartbeatResponse;
use crate::proto::RegisterRequest;
use crate::proto::RegisterResponse;
use vstd::prelude::*;

verus! {

/// Who a worker is.
pub struct Identity {
    pub node_id: String,
    pub address: String,
    /// Differs between process starts, so that the control plane can tell a
    /// restarted worker from a continuing one.
    pub generation: u64,
}

/// The clock and the process number together.
pub open spec fn generation_of(nanos: u64, process: u32) -> u64 {
    nanos ^ ((process as u64) << 32)
}

/// The generation of a process that starts at `nanos`.
pub fn new_generation(nanos: u64, process: u32) -> (out: u64)
    ensures
        out == generation_of(nanos, process),
{
    nanos ^ ((process as u64) << 32)
}

impl Identity {
    pub fn new(node_id: &str, address: &str, process: u32) -> (out: Self)
        ensures
            out.node_id@ == node_id@,
            out.address@ == address@,
            exists|nanos: u64| out.generation == #[trigger] generation_of(nanos, process),
    {
        let nanos: u64 = wall_nanos();
        Identity {
            node_id: node_id.to_owned(),
            address: address.to_owned(),
            generation: new_generation(nanos, process),
        }
    }

    /// What registers this worker.
    pub fn registration(&self) -> (out: RegisterRequest)
        ensures
            out.node_id@ == self.node_id@,
            out.address@ == self.address@,
            out.generation == self.generation,
    {
        RegisterRequest {
            node_id: self.node_id.clone(),
            address: self.address.clone(),
            generation: self.generation,
        }
    }

    /// One beat, with the load as it stands.
    pub fn beat(&self, in_flight: usize, queue_depth: usize, cache_bytes: usize) -> (out:
        HeartbeatRequest)
        ensures
            out.node_id@ == self.node_id@,
            out.generation == self.generation,
            out.in_flight == in_flight as u32,
            out.queue_depth == queue_depth as u32,
            out.cache_bytes == cache_bytes as u64,
    {
        HeartbeatRequest {
            node_id: self.node_id.clone(),
            generation: self.generation,
            in_flight: in_flight as u32,
            queue_depth: queue_depth as u32,
            cache_bytes: cache_bytes as u64,
        }
    }
}

/// The time between beats that the control plane asks for, in nanoseconds:
/// never none at all.
pub fn interval_of(response: RegisterResponse) -> (out: u64)
    ensures
        out == (if response.heartbeat_interval_ms == 0 {
            1
        } else {
            response.heartbeat_interval_ms
        }) * MILLISECOND,
{
    let ms: u64 = if response.heartbeat_interval_ms == 0 {
        1
    } else {
        response.heartbeat_interval_ms as u64
    };
    ms * MILLISECOND
}

/// The time between beats when the first registration fails, so that there is
/// a cadence to start at: half a second.
pub fn nebula_control_heartbeat_fallback() -> (out: u64)
    ensures
        out == 500 * MILLISECOND,
{
    500_000_000
}

/// What a worker does after a beat.
#[derive(Clone, Copy, PartialEq, Eq, Structural, Debug)]
pub enum AfterBeat {
    /// Nothing until the next one. A control plane that could not be reached
    /// is no reason to stop beating either.
    Wait,
    /// Register again: the control plane does not know this worker, which is
    /// what its restart looks like from here.
    Register,
}

/// `reply` is what the control plane said, if it could be reached.
pub fn after_beat(reply: Option<HeartbeatResponse>) -> (out: AfterBeat)
    ensures
        out is Register <==> (reply matches Some(said) && said.re_register),
{
    match reply {
        Some(said) => if said.re_register {
            AfterBeat::Register
        } else {
            AfterBeat::Wait
        },
        None => AfterBeat::Wait,
    }
}

/// Two processes that start at the same moment, or one machine's processes with
/// different numbers, do not share a generation.
pub proof fn law_generations_tell_restarts_apart(nanos: u64, later: u64, process: u32, other: u32)
    ensures
        nanos != later ==> generation_of(nanos, process) != generation_of(later, process),
        process != other ==> generation_of(nanos, process) != generation_of(nanos, other),
{
    assert(nanos != later ==> nanos ^ ((process as u64) << 32) != later ^ ((process as u64) << 32))
        by (bit_vector);
    assert(process != other ==> nanos ^ ((process as u64) << 32) != nanos ^ ((other as u64) << 32))
        by (bit_vector);
}

/// A generation is the time of the start with the process number mixed into its
/// upper half, so that the lower half stays the time's.
pub proof fn law_a_generation_keeps_the_lower_half_of_the_time(nanos: u64, process: u32)
    ensures
        generation_of(nanos, 0) == nanos,
        generation_of(nanos, process) % 0x1_0000_0000 == nanos % 0x1_0000_0000,
        generation_of(0, process) == process * 0x1_0000_0000,
{
    assert(nanos ^ ((0u32 as u64) << 32) == nanos) by (bit_vector);
    assert((nanos ^ ((process as u64) << 32)) % 0x1_0000_0000 == nanos % 0x1_0000_0000)
        by (bit_vector);
    assert(0u64 ^ ((process as u64) << 32) == process * 0x1_0000_0000) by (bit_vector);
}

} // verus!

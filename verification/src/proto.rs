//! The messages of the mesh, as plain values.
use vstd::prelude::*;

verus! {

/// How an execution ended.
///
/// Guest faults are values inside a successful call, never transport errors: a
/// tenant's infinite loop must not look like a worker crash.
#[derive(Clone, Copy, PartialEq, Eq, Structural, Debug)]
pub enum Outcome {
    Success,
    Trap,
    Timeout,
    FuelExhausted,
    MemoryLimit,
    ModuleNotFound,
    Internal,
}

impl Outcome {
    /// The number on the wire. Renumbering one would re-label every response
    /// already in flight.
    pub open spec fn spec_wire(self) -> i32 {
        match self {
            Outcome::Success => 0,
            Outcome::Trap => 1,
            Outcome::Timeout => 2,
            Outcome::FuelExhausted => 3,
            Outcome::MemoryLimit => 4,
            Outcome::ModuleNotFound => 5,
            Outcome::Internal => 6,
        }
    }

    pub fn wire(self) -> (out: i32)
        ensures
            out == self.spec_wire(),
    {
        match self {
            Outcome::Success => 0,
            Outcome::Trap => 1,
            Outcome::Timeout => 2,
            Outcome::FuelExhausted => 3,
            Outcome::MemoryLimit => 4,
            Outcome::ModuleNotFound => 5,
            Outcome::Internal => 6,
        }
    }

    /// What a number on the wire stands for: the outcome with that number, and
    /// an internal failure for a number that no outcome has.
    pub open spec fn spec_of_wire(wire: i32) -> Outcome {
        if wire == 0 {
            Outcome::Success
        } else if wire == 1 {
            Outcome::Trap
        } else if wire == 2 {
            Outcome::Timeout
        } else if wire == 3 {
            Outcome::FuelExhausted
        } else if wire == 4 {
            Outcome::MemoryLimit
        } else if wire == 5 {
            Outcome::ModuleNotFound
        } else {
            Outcome::Internal
        }
    }

    pub fn of_wire(wire: i32) -> (out: Outcome)
        ensures
            out == Outcome::spec_of_wire(wire),
    {
        if wire == 0 {
            Outcome::Success
        } else if wire == 1 {
            Outcome::Trap
        } else if wire == 2 {
            Outcome::Timeout
        } else if wire == 3 {
            Outcome::FuelExhausted
        } else if wire == 4 {
            Outcome::MemoryLimit
        } else if wire == 5 {
            Outcome::ModuleNotFound
        } else {
            Outcome::Internal
        }
    }
}

/// What a worker sends is what a gateway reads.
pub proof fn law_an_outcome_survives_the_wire(outcome: Outcome)
    ensures
        Outcome::spec_of_wire(outcome.spec_wire()) == outcome,
{
}

/// The transport failures that something here depends on.
#[derive(Clone, Copy, PartialEq, Eq, Structural, Debug)]
pub enum Code {
    Cancelled,
    InvalidArgument,
    DeadlineExceeded,
    NotFound,
    ResourceExhausted,
    Internal,
    Unavailable,
    Other,
}

/// A call that failed.
pub struct Status {
    pub code: Code,
    pub message: String,
}

impl Status {
    /// Whether this is `code`, said in the words `message`.
    pub open spec fn is(&self, code: Code, message: Seq<char>) -> bool {
        self.code == code && self.message@ == message
    }

    pub fn new(code: Code, message: &str) -> (out: Self)
        ensures
            out.is(code, message@),
    {
        Status { code, message: message.to_owned() }
    }
}

/// One execution, as asked for.
pub struct ExecuteRequest {
    pub function_id: String,
    pub content_hash: String,
    pub body: Vec<u8>,
    pub request_id: String,
    pub deadline_ms: u32,
    pub partition_key: Option<String>,
    pub tenant: String,
}

pub struct ExecuteRequestView {
    pub function_id: Seq<char>,
    pub content_hash: Seq<char>,
    pub body: Seq<u8>,
    pub request_id: Seq<char>,
    pub deadline_ms: u32,
    pub partition_key: Option<Seq<char>>,
    pub tenant: Seq<char>,
}

/// An optional text.
pub open spec fn text_of(text: Option<String>) -> Option<Seq<char>> {
    match text {
        Some(text) => Some(text@),
        None => None,
    }
}

impl View for ExecuteRequest {
    type V = ExecuteRequestView;

    open spec fn view(&self) -> ExecuteRequestView {
        ExecuteRequestView {
            function_id: self.function_id@,
            content_hash: self.content_hash@,
            body: self.body@,
            request_id: self.request_id@,
            deadline_ms: self.deadline_ms,
            partition_key: text_of(self.partition_key),
            tenant: self.tenant@,
        }
    }
}

impl Default for ExecuteRequest {
    fn default() -> (out: Self)
        ensures
            out@ == (ExecuteRequestView {
                function_id: Seq::empty(),
                content_hash: Seq::empty(),
                body: Seq::empty(),
                request_id: Seq::empty(),
                deadline_ms: 0,
                partition_key: None,
                tenant: Seq::empty(),
            }),
    {
        let out = ExecuteRequest {
            function_id: String::new(),
            content_hash: String::new(),
            body: Vec::new(),
            request_id: String::new(),
            deadline_ms: 0,
            partition_key: None,
            tenant: String::new(),
        };
        assert(out.function_id@ =~= Seq::<char>::empty());
        assert(out.content_hash@ =~= Seq::<char>::empty());
        assert(out.request_id@ =~= Seq::<char>::empty());
        assert(out.tenant@ =~= Seq::<char>::empty());
        assert(out.body@ =~= Seq::<u8>::empty());
        out
    }
}

/// One execution, as answered.
pub struct ExecuteResponse {
    pub outcome: i32,
    pub body: Vec<u8>,
    /// Why a guest failed; empty on success and for a host's own failures.
    pub fault_detail: String,
    pub exec_micros: u64,
    /// Whether this request had to fetch the artifact.
    pub cold: bool,
}

pub struct ExecuteResponseView {
    pub outcome: i32,
    pub body: Seq<u8>,
    pub fault_detail: Seq<char>,
    pub exec_micros: u64,
    pub cold: bool,
}

impl View for ExecuteResponse {
    type V = ExecuteResponseView;

    open spec fn view(&self) -> ExecuteResponseView {
        ExecuteResponseView {
            outcome: self.outcome,
            body: self.body@,
            fault_detail: self.fault_detail@,
            exec_micros: self.exec_micros,
            cold: self.cold,
        }
    }
}

pub struct RegisterRequest {
    pub node_id: String,
    pub address: String,
    pub generation: u64,
}

#[derive(Clone, Copy, PartialEq, Eq, Structural, Debug)]
pub struct RegisterResponse {
    pub heartbeat_interval_ms: u32,
}

pub struct HeartbeatRequest {
    pub node_id: String,
    pub generation: u64,
    pub in_flight: u32,
    pub queue_depth: u32,
    pub cache_bytes: u64,
}

#[derive(Clone, Copy, PartialEq, Eq, Structural, Debug)]
pub struct HeartbeatResponse {
    /// The control plane does not know this worker; it should register again.
    pub re_register: bool,
}

/// One piece of an artifact.
pub struct ModuleChunk {
    pub data: Vec<u8>,
    pub offset: u64,
    pub last: bool,
}

pub struct ChunkView {
    pub data: Seq<u8>,
    pub offset: u64,
    pub last: bool,
}

impl View for ModuleChunk {
    type V = ChunkView;

    open spec fn view(&self) -> ChunkView {
        ChunkView { data: self.data@, offset: self.offset, last: self.last }
    }
}

/// The numbers on the wire, which every worker and gateway agrees on.
pub proof fn law_the_numbers_on_the_wire(wire: i32)
    ensures
        Outcome::Success.spec_wire() == 0,
        Outcome::Trap.spec_wire() == 1,
        Outcome::Timeout.spec_wire() == 2,
        Outcome::FuelExhausted.spec_wire() == 3,
        Outcome::MemoryLimit.spec_wire() == 4,
        Outcome::ModuleNotFound.spec_wire() == 5,
        Outcome::Internal.spec_wire() == 6,
        wire < 0 || wire > 5 ==> Outcome::spec_of_wire(wire) == Outcome::Internal,
        0 <= wire <= 6 ==> Outcome::spec_of_wire(wire).spec_wire() == wire,
{
}

/// A message is seen whole: nothing that it carries is left out of its view.
pub proof fn law_messages_are_seen_whole(
    request: ExecuteRequest,
    response: ExecuteResponse,
    chunk: ModuleChunk,
)
    ensures
        request@.function_id == request.function_id@ && request@.content_hash
            == request.content_hash@ && request@.body == request.body@ && request@.request_id
            == request.request_id@ && request@.deadline_ms == request.deadline_ms && request@.tenant
            == request.tenant@,
        request.partition_key is Some <==> request@.partition_key is Some,
        request.partition_key is Some ==> request@.partition_key->0 == request.partition_key->0@,
        response@.outcome == response.outcome && response@.body == response.body@
            && response@.fault_detail == response.fault_detail@ && response@.exec_micros
            == response.exec_micros && response@.cold == response.cold,
        chunk@.data == chunk.data@ && chunk@.offset == chunk.offset && chunk@.last == chunk.last,
{
}

} // verus!

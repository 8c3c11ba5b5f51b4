//! The worker service: admission, artifacts, and what becomes of a run.
use crate::control::chunks_from;
use crate::exec_pool::Admitted;
use crate::exec_pool::ExecPool;
use crate::exec_pool::PoolError;
use crate::exec_pool::PoolView;
use crate::exec_pool::Submitted;
use crate::header::as_text;
use crate::header::header_chars;
use crate::header::is_printable;
use crate::proto::ChunkView;
use crate::proto::Code;
use crate::proto::ExecuteRequest;
use crate::proto::ExecuteRequestView;
use crate::proto::ExecuteResponse;
use crate::proto::ExecuteResponseView;
use crate::proto::ModuleChunk;
use crate::proto::Outcome;
use crate::proto::Status;
use crate::registry::content_hash_hex;
use crate::registry::hash_text;
use crate::registry::CHUNK_BYTES;
use crate::table::Table;
use crate::text::same;
use crate::text::split;
use crate::text::split_chars;
use crate::text::string_of;
use crate::text::views;
use crate::trace::is_id;
use crate::trace::is_id_chars;
use vstd::prelude::*;
use vstd::string::StringExecFns;
use vstd::utf8::encode_utf8;

verus! {

/// Cap on an artifact, enforced while its pieces accumulate: 32 MiB.
pub const MAX_ARTIFACT_BYTES: usize = 0x200_0000;

/// Ceiling on a caller-supplied deadline. The field is a request, not an
/// instruction.
pub const MAX_DEADLINE_MS: u32 = 5_000;

/// The deadline of a caller that asks for none, in ticks of a millisecond.
pub const DEFAULT_DEADLINE_TICKS: u64 = 50;

/// The metadata key that carries the trace.
pub const TRACEPARENT_METADATA: &'static str = "traceparent";

/// The trace id in a `traceparent`, by position.
pub open spec fn trace_id_in(raw: Seq<u8>) -> Option<Seq<char>> {
    let fields = split(as_text(raw), '-');
    if is_printable(raw) && fields.len() > 1 && is_id(fields[1], 32) {
        Some(fields[1])
    } else {
        None
    }
}

/// The trace id of a request, if its `traceparent` looks like one. The gateway
/// has validated it; a malformed value produces no id rather than a confusing
/// one.
pub fn trace_id_of(raw: Option<&[u8]>) -> (out: Option<String>)
    ensures
        match (raw, out) {
            (Some(bytes), Some(id)) => trace_id_in(bytes@) == Some(id@),
            (Some(bytes), None) => trace_id_in(bytes@) is None,
            (None, _) => out is None,
        },
{
    let raw = match raw {
        Some(raw) => raw,
        None => {
            return None;
        },
    };
    let chars = match header_chars(raw) {
        Some(chars) => chars,
        None => {
            return None;
        },
    };
    let fields = split_chars(&chars, '-');
    assert(views(fields@).len() == fields@.len());
    if fields.len() < 2 {
        return None;
    }
    assert(views(fields@)[1] == fields@[1]@);
    if is_id_chars(&fields[1], 32) {
        Some(string_of(&fields[1]))
    } else {
        None
    }
}

/// Why an artifact could not be had.
#[derive(Clone, Copy, PartialEq, Eq, Structural, Debug)]
pub enum FetchError {
    NotFound,
    Transport,
    Corrupt,
    TooLarge,
}

/// What a refused fetch means.
pub fn fetch_error_of(code: Code) -> (out: FetchError)
    ensures
        out == if code == Code::NotFound {
            FetchError::NotFound
        } else {
            FetchError::Transport
        },
{
    match code {
        Code::NotFound => FetchError::NotFound,
        _ => FetchError::Transport,
    }
}

/// What a piece adds, and whether it was the last.
pub open spec fn received(bytes: Seq<u8>, chunk: ChunkView) -> Result<(Seq<u8>, bool), FetchError> {
    if bytes.len() + chunk.data.len() > MAX_ARTIFACT_BYTES {
        Err(FetchError::TooLarge)
    } else {
        Ok((bytes + chunk.data, chunk.last))
    }
}

/// What a stream of pieces comes to: everything up to the last one, or up to
/// the end of the stream.
pub open spec fn reassembled(bytes: Seq<u8>, list: Seq<ChunkView>) -> Result<Seq<u8>, FetchError>
    decreases list.len(),
{
    if list.len() == 0 {
        Ok(bytes)
    } else {
        match received(bytes, list[0]) {
            Err(why) => Err(why),
            Ok((more, last)) => if last {
                Ok(more)
            } else {
                reassembled(more, list.drop_first())
            },
        }
    }
}

/// An artifact that is arriving.
pub struct Assembly {
    bytes: Vec<u8>,
}

impl View for Assembly {
    type V = Seq<u8>;

    closed spec fn view(&self) -> Seq<u8> {
        self.bytes@
    }
}

impl Assembly {
    pub open spec fn wf(&self) -> bool {
        self@.len() <= MAX_ARTIFACT_BYTES
    }

    pub fn new() -> (out: Self)
        ensures
            out.wf(),
            out@ == Seq::<u8>::empty(),
    {
        Assembly { bytes: Vec::new() }
    }

    /// Takes one piece; `Ok(true)` after the last.
    pub fn push(&mut self, chunk: &ModuleChunk) -> (out: Result<bool, FetchError>)
        requires
            old(self).wf(),
        ensures
            final(self).wf(),
            match (received(old(self)@, chunk@), out) {
                (Ok(got), Ok(last)) => final(self)@ == got.0 && last == got.1,
                (Err(why), Err(said)) => said == why && final(self)@ == old(self)@,
                _ => false,
            },
    {
        if chunk.data.len() > MAX_ARTIFACT_BYTES - self.bytes.len() {
            return Err(FetchError::TooLarge);
        }
        let mut data = vstd::slice::slice_to_vec(&chunk.data);
        self.bytes.append(&mut data);
        Ok(chunk.last)
    }

    /// The artifact, if it is the one that was asked for. Anything else means
    /// that the transfer or the registry is wrong, and compiling it would be
    /// running code nobody requested.
    pub fn finish(self, hash: &str) -> (out: Result<Vec<u8>, FetchError>)
        requires
            self.wf(),
        ensures
            match out {
                Ok(bytes) => bytes@ == self@ && hash_text(self@) == hash@,
                Err(why) => why == FetchError::Corrupt && hash_text(self@) != hash@,
            },
    {
        let found = content_hash_hex(&self.bytes);
        if same(found.as_str(), hash) {
            Ok(self.bytes)
        } else {
            Err(FetchError::Corrupt)
        }
    }
}

/// How a trap is told apart from the others.
#[derive(Clone, Copy, PartialEq, Eq, Structural, Debug)]
pub enum TrapKind {
    Interrupt,
    OutOfFuel,
    Other,
}

/// How a run ended.
pub enum Ended {
    /// The guest returned, with this output.
    Finished(Vec<u8>),
    Failed {
        /// Whether the guest had been refused memory.
        memory_refused: bool,
        /// The trap, if there was one: none means that the host failed.
        trap: Option<TrapKind>,
        detail: String,
    },
}

/// The outcome of a failure. A memory refusal comes before the trap that
/// follows from it: the trap names the symptom and not the cause.
pub open spec fn outcome_of(memory_refused: bool, trap: Option<TrapKind>) -> Outcome {
    if memory_refused {
        Outcome::MemoryLimit
    } else {
        match trap {
            Some(TrapKind::Interrupt) => Outcome::Timeout,
            Some(TrapKind::OutOfFuel) => Outcome::FuelExhausted,
            Some(TrapKind::Other) => Outcome::Trap,
            None => Outcome::Internal,
        }
    }
}

/// The response to a run.
pub open spec fn classified(ended: Ended) -> ExecuteResponseView {
    match ended {
        Ended::Finished(output) => ExecuteResponseView {
            outcome: Outcome::Success.spec_wire(),
            body: output@,
            fault_detail: Seq::empty(),
            exec_micros: 0,
            cold: false,
        },
        Ended::Failed { memory_refused, trap, detail } => {
            let outcome = outcome_of(memory_refused, trap);
            // A guest's own fault is told to its owner; a host's is not.
            faulted(
                outcome,
                if outcome == Outcome::Internal {
                    Seq::empty()
                } else {
                    detail@
                },
            )
        },
    }
}

/// A response that carries nothing but a fault.
pub open spec fn faulted(outcome: Outcome, detail: Seq<char>) -> ExecuteResponseView {
    ExecuteResponseView {
        outcome: outcome.spec_wire(),
        body: Seq::empty(),
        fault_detail: detail,
        exec_micros: 0,
        cold: false,
    }
}

pub fn fault(outcome: Outcome, detail: &str) -> (out: ExecuteResponse)
    ensures
        out@ == faulted(outcome, detail@),
{
    let body: Vec<u8> = Vec::new();
    assert(body@ =~= Seq::<u8>::empty());
    ExecuteResponse {
        outcome: outcome.wire(),
        body,
        fault_detail: detail.to_owned(),
        exec_micros: 0,
        cold: false,
    }
}

/// Maps how a run ended onto the wire.
pub fn classify(ended: Ended) -> (out: ExecuteResponse)
    ensures
        out@ == classified(ended),
{
    match ended {
        Ended::Finished(output) => {
            let fault_detail = String::new();
            assert(fault_detail@ =~= Seq::<char>::empty());
            ExecuteResponse {
                outcome: Outcome::Success.wire(),
                body: output,
                fault_detail,
                exec_micros: 0,
                cold: false,
            }
        },
        Ended::Failed { memory_refused, trap, detail } => {
            let outcome = if memory_refused {
                Outcome::MemoryLimit
            } else {
                match trap {
                    Some(TrapKind::Interrupt) => Outcome::Timeout,
                    Some(TrapKind::OutOfFuel) => Outcome::FuelExhausted,
                    Some(TrapKind::Other) => Outcome::Trap,
                    None => Outcome::Internal,
                }
            };
            if outcome == Outcome::Internal {
                proof {
                    reveal_strlit("");
                    assert(""@ =~= Seq::<char>::empty());
                }
                fault(outcome, "")
            } else {
                fault(outcome, detail.as_str())
            }
        },
    }
}

/// The ticks that a deadline grants: the default for none, and never more than
/// the ceiling.
pub open spec fn spec_deadline_ticks(deadline_ms: u32) -> u64 {
    if deadline_ms == 0 {
        DEFAULT_DEADLINE_TICKS
    } else if deadline_ms < MAX_DEADLINE_MS {
        deadline_ms as u64
    } else {
        MAX_DEADLINE_MS as u64
    }
}

pub fn deadline_ticks(deadline_ms: u32) -> (out: u64)
    ensures
        out == spec_deadline_ticks(deadline_ms),
{
    if deadline_ms == 0 {
        DEFAULT_DEADLINE_TICKS
    } else if deadline_ms < MAX_DEADLINE_MS {
        deadline_ms as u64
    } else {
        MAX_DEADLINE_MS as u64
    }
}

/// The session a request belongs to: its partition key, or none.
pub fn session_of(request: &ExecuteRequest) -> (out: String)
    ensures
        out@ == match request@.partition_key {
            Some(key) => key,
            None => Seq::empty(),
        },
{
    match &request.partition_key {
        Some(key) => key.clone(),
        None => {
            let out = String::new();
            assert(out@ =~= Seq::<char>::empty());
            out
        },
    }
}

pub struct WorkerView {
    /// By the bytes of the content hash.
    pub artifacts: Map<Seq<u8>, Seq<u8>>,
    pub draining: bool,
    pub pool: PoolView,
}

impl WorkerView {
    /// What is kept under a hash has that hash.
    pub open spec fn wf(self) -> bool {
        &&& self.pool.wf()
        &&& forall|k: Seq<u8>| #[trigger]
            self.artifacts.contains_key(k) ==> k == encode_utf8(hash_text(self.artifacts[k]))
                && self.artifacts[k].len() <= MAX_ARTIFACT_BYTES
    }

    pub open spec fn has(self, hash: Seq<char>) -> bool {
        self.artifacts.contains_key(encode_utf8(hash))
    }

    pub open spec fn keeping(self, hash: Seq<char>, artifact: Seq<u8>) -> WorkerView {
        WorkerView { artifacts: self.artifacts.insert(encode_utf8(hash), artifact), ..self }
    }

    /// Why a request is refused before any work is done on it.
    pub open spec fn refuses(self, request: ExecuteRequestView) -> Option<(Code, Seq<char>)> {
        if self.draining {
            Some((Code::ResourceExhausted, "worker is draining"@))
        } else if self.pool.permits == 0 {
            Some((Code::ResourceExhausted, "worker at capacity"@))
        } else if request.tenant.len() == 0 {
            Some((Code::InvalidArgument, "tenant is required"@))
        } else {
            None
        }
    }
}

/// How a request begins.
pub enum Begin {
    Refused(Status),
    /// Admitted, and its artifact has to be fetched first: a cold start.
    Fetch(Admitted),
    /// Admitted, and its artifact is here.
    Run(Admitted),
}

/// The worker's own state.
pub struct WorkerService {
    artifacts: Table<Vec<u8>>,
    draining: bool,
    pool: ExecPool,
}

impl View for WorkerService {
    type V = WorkerView;

    closed spec fn view(&self) -> WorkerView {
        WorkerView {
            artifacts: self.artifacts@.map_values(|bytes: Vec<u8>| bytes@),
            draining: self.draining,
            pool: self.pool@,
        }
    }
}

impl WorkerService {
    pub closed spec fn wf(&self) -> bool {
        self.artifacts.wf() && self@.wf()
    }

    /// What a well-formed worker shows is well-formed too.
    pub proof fn lemma_wf(&self)
        requires
            self.wf(),
        ensures
            self@.wf(),
    {
    }

    pub fn new(pool: ExecPool) -> (out: Self)
        requires
            pool@.wf(),
        ensures
            out.wf(),
            out@ == (WorkerView { artifacts: Map::empty(), draining: false, pool: pool@ }),
    {
        let out = WorkerService { artifacts: Table::new(), draining: false, pool };
        assert(out@.artifacts =~= Map::<Seq<u8>, Seq<u8>>::empty());
        out
    }

    pub fn pool(&self) -> (out: &ExecPool)
        ensures
            out@ == self@.pool,
    {
        &self.pool
    }

    /// The artifact under `hash`, if it was fetched before.
    pub fn artifact(&self, hash: &str) -> (out: Option<&Vec<u8>>)
        requires
            self.wf(),
        ensures
            match out {
                Some(bytes) => self@.has(hash@) && bytes@ == self@.artifacts[encode_utf8(hash@)],
                None => !self@.has(hash@),
            },
    {
        self.artifacts.get(hash.as_bytes())
    }

    /// Admission comes first, before any work at all: a shed request costs a
    /// comparison. A request without a tenant is refused, because a default
    /// would pool every caller into one namespace.
    pub fn begin(&mut self, request: &ExecuteRequest) -> (out: Begin)
        requires
            old(self).wf(),
        ensures
            final(self).wf(),
            match old(self)@.refuses(request@) {
                Some(why) => (out matches Begin::Refused(status) && status.is(why.0, why.1))
                    && final(self)@ == old(self)@,
                None => {
                    &&& final(self)@ == (WorkerView {
                        pool: old(self)@.pool.admitted(),
                        ..old(self)@
                    })
                    &&& if old(self)@.has(request@.content_hash) {
                        out matches Begin::Run(admitted) && !admitted.is_cold()
                    } else {
                        out matches Begin::Fetch(admitted) && admitted.is_cold()
                    }
                },
            },
    {
        if self.draining {
            return Begin::Refused(Status::new(Code::ResourceExhausted, "worker is draining"));
        }
        let admitted = match self.pool.try_admit() {
            Some(admitted) => admitted,
            None => {
                return Begin::Refused(Status::new(Code::ResourceExhausted, "worker at capacity"));
            },
        };
        if request.tenant.as_str().is_empty() {
            self.pool.release(admitted);
            assert(self@.pool == old(self)@.pool);
            return Begin::Refused(Status::new(Code::InvalidArgument, "tenant is required"));
        }
        if self.artifacts.contains_key(request.content_hash.as_str().as_bytes()) {
            Begin::Run(admitted)
        } else {
            Begin::Fetch(admitted.fetching())
        }
    }

    /// Takes what a fetch brought. What does not have the hash that was asked
    /// for is not kept and not run.
    pub fn fetched(
        &mut self,
        admitted: Admitted,
        hash: &str,
        fetched: Result<Assembly, FetchError>,
    ) -> (out: Result<Admitted, ExecuteResponse>)
        requires
            old(self).wf(),
            old(self)@.pool.held() > 0,
            fetched matches Ok(assembly) ==> assembly.wf(),
        ensures
            final(self).wf(),
            match (fetched, out) {
                (Ok(assembly), Ok(kept)) => hash_text(assembly@) == hash@ && final(self)@ == old(
                    self,
                )@.keeping(hash@, assembly@) && kept.is_cold() == admitted.is_cold(),
                (Ok(assembly), Err(response)) => hash_text(assembly@) != hash@ && response@
                    == faulted(Outcome::Internal, Seq::empty()) && final(self)@ == (WorkerView {
                    pool: old(self)@.pool.released(),
                    ..old(self)@
                }),
                (Err(why), Err(response)) => response@ == (if why == FetchError::NotFound {
                    faulted(Outcome::ModuleNotFound, "unknown content_hash"@)
                } else {
                    faulted(Outcome::Internal, Seq::empty())
                }) && final(self)@ == (WorkerView {
                    pool: old(self)@.pool.released(),
                    ..old(self)@
                }),
                (Err(_), Ok(_)) => false,
            },
    {
        proof {
            reveal_strlit("");
            assert(""@ =~= Seq::<char>::empty());
        }
        let result = match fetched {
            Ok(assembly) => assembly.finish(hash),
            Err(why) => Err(why),
        };
        match result {
            Ok(bytes) => {
                let key = vstd::slice::slice_to_vec(hash.as_bytes());
                let ghost before = self@;
                self.artifacts.put(key, bytes);
                proof {
                    assert(self@.artifacts =~= before.keeping(hash@, bytes@).artifacts);
                    assert forall|k: Seq<u8>| #[trigger] self@.artifacts.contains_key(k) implies k
                        == encode_utf8(hash_text(self@.artifacts[k])) && self@.artifacts[k].len()
                        <= MAX_ARTIFACT_BYTES by {
                        if k != encode_utf8(hash@) {
                            assert(before.artifacts.contains_key(k));
                        }
                    }
                }
                Ok(admitted)
            },
            Err(FetchError::NotFound) => {
                self.pool.release(admitted);
                Err(fault(Outcome::ModuleNotFound, "unknown content_hash"))
            },
            Err(_) => {
                self.pool.release(admitted);
                Err(fault(Outcome::Internal, ""))
            },
        }
    }

    /// Gives a slot back without using it: whoever asked has gone.
    pub fn release(&mut self, admitted: Admitted)
        requires
            old(self).wf(),
            old(self)@.pool.held() > 0,
        ensures
            final(self).wf(),
            final(self)@ == (WorkerView { pool: old(self)@.pool.released(), ..old(self)@ }),
    {
        self.pool.release(admitted);
    }

    /// Puts an admitted request in the queue.
    pub fn submit(&mut self, admitted: Admitted) -> (out: Result<Submitted, Status>)
        requires
            old(self).wf(),
            old(self)@.pool.held() > 0,
        ensures
            final(self).wf(),
            out matches Ok(submitted) && submitted.is_cold() == admitted.is_cold(),
            final(self)@ == (WorkerView { pool: old(self)@.pool.submitted(), ..old(self)@ }),
    {
        match self.pool.submit(admitted) {
            Ok(submitted) => Ok(submitted),
            Err(_) => Err(Status::new(Code::ResourceExhausted, "execution queue full")),
        }
    }

    /// An idle thread takes the next request.
    pub fn start(&mut self)
        requires
            old(self).wf(),
            old(self)@.pool.queued > 0,
            old(self)@.pool.in_flight < old(self)@.pool.threads,
        ensures
            final(self).wf(),
            final(self)@ == (WorkerView { pool: old(self)@.pool.started(), ..old(self)@ }),
    {
        self.pool.start();
    }

    /// A thread is done with a request, however it went.
    pub fn finish(&mut self)
        requires
            old(self).wf(),
            old(self)@.pool.in_flight > 0,
        ensures
            final(self).wf(),
            final(self)@ == (WorkerView { pool: old(self)@.pool.finished(), ..old(self)@ }),
    {
        self.pool.finish();
    }

    /// Stops admitting, and says how much is still running.
    pub fn drain(&mut self) -> (in_flight: u32)
        requires
            old(self).wf(),
        ensures
            final(self).wf(),
            final(self)@ == (WorkerView { draining: true, ..old(self)@ }),
            in_flight == old(self)@.pool.in_flight as u32,
    {
        self.draining = true;
        self.pool.in_flight() as u32
    }
}

/// The response to a run that took `micros`.
pub open spec fn responded(ended: Ended, cold: bool, micros: u64) -> ExecuteResponseView {
    ExecuteResponseView { exec_micros: micros, cold, ..classified(ended) }
}

/// What a caller is told of a run that took `micros`, and whether its request
/// had to fetch the artifact.
pub fn respond(result: Result<Ended, PoolError>, submitted: Submitted, micros: u64) -> (out: Result<
    ExecuteResponse,
    Status,
>)
    ensures
        (result, out) matches (Ok(ended), Ok(response)) ==> response@ == responded(
            ended,
            submitted.is_cold(),
            micros,
        ),
        match (result, out) {
            (Ok(ended), Ok(response)) => response@ == (ExecuteResponseView {
                exec_micros: micros,
                cold: submitted.is_cold(),
                ..classified(ended)
            }),
            (Err(PoolError::Full), Err(status)) => status.is(
                Code::ResourceExhausted,
                "execution queue full"@,
            ),
            (Err(PoolError::Stopped), Err(status)) => status.is(
                Code::Internal,
                "execution pool stopped"@,
            ),
            _ => false,
        },
{
    match result {
        Ok(ended) => {
            let response = classify(ended);
            Ok(
                ExecuteResponse {
                    outcome: response.outcome,
                    body: response.body,
                    fault_detail: response.fault_detail,
                    exec_micros: micros,
                    cold: submitted.cold(),
                },
            )
        },
        Err(PoolError::Full) => Err(Status::new(Code::ResourceExhausted, "execution queue full")),
        Err(PoolError::Stopped) => Err(Status::new(Code::Internal, "execution pool stopped")),
    }
}

/// An artifact that was cut into pieces comes together again, exactly.
pub proof fn law_a_chunked_artifact_reassembles(artifact: Seq<u8>)
    requires
        artifact.len() <= MAX_ARTIFACT_BYTES,
    ensures
        reassembled(Seq::empty(), chunks_from(artifact, 0)) == Ok::<Seq<u8>, FetchError>(artifact),
{
    lemma_reassembled(artifact, 0);
    assert(artifact.take(0) =~= Seq::<u8>::empty());
}

proof fn lemma_reassembled(artifact: Seq<u8>, at: nat)
    requires
        at <= artifact.len() <= MAX_ARTIFACT_BYTES,
    ensures
        reassembled(artifact.take(at as int), chunks_from(artifact, at)) == Ok::<
            Seq<u8>,
            FetchError,
        >(artifact),
    decreases artifact.len() - at,
{
    let list = chunks_from(artifact, at);
    let before = artifact.take(at as int);
    if artifact.len() <= at + CHUNK_BYTES {
        assert(before + artifact.skip(at as int) =~= artifact);
    } else {
        let next = at + CHUNK_BYTES as nat;
        lemma_reassembled(artifact, next);
        assert(before + list[0].data =~= artifact.take(next as int));
        assert(list.drop_first() =~= chunks_from(artifact, next));
    }
}

/// More than the cap is never assembled.
pub proof fn law_an_oversized_artifact_is_refused(bytes: Seq<u8>, list: Seq<ChunkView>)
    ensures
        bytes.len() <= MAX_ARTIFACT_BYTES ==> (reassembled(bytes, list) matches Ok(artifact)
            ==> artifact.len() <= MAX_ARTIFACT_BYTES),
    decreases list.len(),
{
    if list.len() > 0 {
        if let Ok((more, last)) = received(bytes, list[0]) {
            if !last {
                law_an_oversized_artifact_is_refused(more, list.drop_first());
            }
        }
    }
}

/// Once a worker drains, every request is shed, and shedding changes nothing.
pub proof fn law_a_draining_worker_admits_nothing(worker: WorkerView, request: ExecuteRequestView)
    requires
        worker.draining,
    ensures
        worker.refuses(request) == Some((Code::ResourceExhausted, "worker is draining"@)),
{
}

/// Only a guest's own faults carry their detail to the caller.
pub proof fn law_host_failures_are_opaque(ended: Ended)
    ensures
        classified(ended).outcome == Outcome::Internal.spec_wire() ==> classified(
            ended,
        ).fault_detail.len() == 0,
{
}

/// The trace id of a request is the second field of its `traceparent`, whole, if
/// that has the shape of one.
pub proof fn law_the_trace_id_is_the_second_field(raw: Seq<u8>)
    ensures
        ({
            let fields = split(as_text(raw), '-');
            trace_id_in(raw) == (if is_printable(raw) && fields.len() >= 2 && is_id(fields[1], 32) {
                Some(fields[1])
            } else {
                None
            })
        }),
{
}

/// A piece is added whole behind what is there, up to thirty-two mebibytes in all.
pub proof fn law_a_piece_is_added_whole(bytes: Seq<u8>, chunk: ChunkView)
    ensures
        bytes.len() + chunk.data.len() <= 33_554_432 ==> received(bytes, chunk) == Ok::<
            (Seq<u8>, bool),
            FetchError,
        >((bytes + chunk.data, chunk.last)),
        bytes.len() + chunk.data.len() > 33_554_432 ==> received(bytes, chunk) == Err::<
            (Seq<u8>, bool),
            FetchError,
        >(FetchError::TooLarge),
{
}

/// Pieces are added in the order in which they come, until one says that it is the
/// last.
pub proof fn law_pieces_are_added_in_order(bytes: Seq<u8>, chunk: ChunkView, rest: Seq<ChunkView>)
    requires
        bytes.len() + chunk.data.len() <= 33_554_432,
    ensures
        reassembled(bytes, Seq::empty()) == Ok::<Seq<u8>, FetchError>(bytes),
        chunk.last ==> reassembled(bytes, seq![chunk] + rest) == Ok::<Seq<u8>, FetchError>(
            bytes + chunk.data,
        ),
        !chunk.last ==> reassembled(bytes, seq![chunk] + rest) == reassembled(
            bytes + chunk.data,
            rest,
        ),
{
    let list = seq![chunk] + rest;
    assert(list[0] == chunk);
    assert(list.drop_first() =~= rest);
}

/// A guest that finished is answered with all of its output; one that failed with
/// what it ran into, memory before anything that followed from it, and with all
/// that was said of it; and a failure of the host with nothing.
pub proof fn law_a_run_is_answered_as_it_ended(ended: Ended)
    ensures
        ({
            let response = classified(ended);
            match ended {
                Ended::Finished(output) => response.outcome == 0 && response.body == output@
                    && response.fault_detail.len() == 0,
                Ended::Failed { memory_refused, trap, detail } => {
                    &&& response.body.len() == 0
                    &&& memory_refused ==> response.outcome == 4
                    &&& !memory_refused && trap == Some(TrapKind::Interrupt) ==> response.outcome
                        == 2
                    &&& !memory_refused && trap == Some(TrapKind::OutOfFuel) ==> response.outcome
                        == 3
                    &&& !memory_refused && trap == Some(TrapKind::Other) ==> response.outcome == 1
                    &&& !memory_refused && trap is None ==> response.outcome == 6
                        && response.fault_detail.len() == 0
                    &&& memory_refused || trap is Some ==> response.fault_detail == detail@
                },
            }
        }),
{
}

/// A fault carries its outcome and its detail, whole, and no output.
pub proof fn law_a_fault_carries_its_detail(outcome: Outcome, detail: Seq<char>)
    ensures
        faulted(outcome, detail).outcome == outcome.spec_wire(),
        faulted(outcome, detail).fault_detail == detail,
        faulted(outcome, detail).body.len() == 0,
{
}

/// A run is given the milliseconds that were asked for, five thousand at most, and
/// fifty when none were.
pub proof fn law_a_run_gets_the_time_it_asks_for(deadline_ms: u32)
    ensures
        spec_deadline_ticks(0) == 50,
        1 <= deadline_ms <= 5000 ==> spec_deadline_ticks(deadline_ms) == deadline_ms,
        deadline_ms > 5000 ==> spec_deadline_ticks(deadline_ms) == 5000,
{
}

/// A request is refused by a worker that drains, by one without a free slot, and
/// without a tenant; the first of these is told, and nothing else is refused.
pub proof fn law_a_worker_refuses_only_for_these(worker: WorkerView, request: ExecuteRequestView)
    ensures
        worker.refuses(request) is None <==> !worker.draining && worker.pool.permits > 0
            && request.tenant.len() > 0,
        worker.draining ==> worker.refuses(request) == Some(
            (Code::ResourceExhausted, "worker is draining"@),
        ),
        !worker.draining && worker.pool.permits == 0 ==> worker.refuses(request) == Some(
            (Code::ResourceExhausted, "worker at capacity"@),
        ),
        !worker.draining && worker.pool.permits > 0 && request.tenant.len() == 0 ==> worker.refuses(
            request,
        ) == Some((Code::InvalidArgument, "tenant is required"@)),
{
}

/// What is kept under a hash is found under it as it was, and what is kept under
/// another stays.
pub proof fn law_a_kept_artifact_is_found(
    worker: WorkerView,
    hash: Seq<char>,
    artifact: Seq<u8>,
    other: Seq<char>,
)
    ensures
        ({
            let after = worker.keeping(hash, artifact);
            &&& after.has(hash)
            &&& after.artifacts[encode_utf8(hash)] == artifact
            &&& other != hash ==> after.has(other) == worker.has(other)
            &&& other != hash ==> after.artifacts[encode_utf8(other)]
                == worker.artifacts[encode_utf8(other)]
            &&& after.draining == worker.draining && after.pool == worker.pool
        }),
{
    if encode_utf8(other) == encode_utf8(hash) {
        crate::text::lemma_utf8_injective(other, hash);
    }
}

/// A response carries all that the guest put out, how long it took and whether it was
/// a cold start, as they were.
pub proof fn law_a_response_carries_the_whole_run(ended: Ended, cold: bool, micros: u64)
    ensures
        responded(ended, cold, micros).exec_micros == micros,
        responded(ended, cold, micros).cold == cold,
        responded(ended, cold, micros).outcome == classified(ended).outcome,
        responded(ended, cold, micros).fault_detail == classified(ended).fault_detail,
        ended matches Ended::Finished(output) ==> responded(ended, cold, micros).outcome == 0
            && responded(ended, cold, micros).body == output@,
{
}

} // verus!

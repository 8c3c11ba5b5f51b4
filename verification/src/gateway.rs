//! The gateway's decisions: who is calling, whether the request may run, where
//! it goes, and what comes back.
//!
//! This is the only place a tenant identity is established: everything behind
//! it trusts the `tenant` field.
use crate::answer::answered;
use crate::answer::failed;
use crate::answer::fault;
use crate::answer::faulted;
use crate::answer::from_status;
use crate::answer::limited;
use crate::answer::rate_limited;
use crate::answer::spec_unauthorized;
use crate::answer::to_http;
use crate::answer::unauthorized;
use crate::answer::Answer;
use crate::answer::AnswerView;
use crate::auth::Auth;
use crate::header::as_text;
use crate::header::header_chars;
use crate::header::is_printable;
use crate::header::key_of;
use crate::header::read_key;
use crate::idempotency::settled;
use crate::idempotency::Claim;
use crate::idempotency::Claimed;
use crate::idempotency::Slot;
use crate::idempotency::SlotView;
use crate::idempotency::Store;
use crate::idempotency::StoreView;
use crate::idempotency::Told;
use crate::idempotency::MAX_KEY_BYTES;
use crate::membership::Membership;
use crate::membership::MembershipView;
use crate::proto::text_of;
use crate::proto::Code;
use crate::proto::ExecuteRequest;
use crate::proto::ExecuteRequestView;
use crate::proto::ExecuteResponse;
use crate::proto::Status;
use crate::ratelimit::Decision;
use crate::ratelimit::Limit;
use crate::ratelimit::Limiter;
use crate::ratelimit::LimiterView;
use crate::registry::Deployed;
use crate::registry::Deployments;
use crate::registry::Tool;
use crate::text::copy_range;
use crate::text::parse_number;
use crate::text::parse_unsigned;
use crate::text::starts_with;
use crate::text::string_of;
use crate::text::texts;
use crate::text::trim;
use crate::text::trim_chars;
use crate::trace::TraceContext;
use crate::trace::TraceView;
use vstd::prelude::*;

verus! {

/// Cap on a request body: 1 MiB.
pub const MAX_REQUEST_BYTES: usize = 0x10_0000;

/// Routes a request to a stable worker and names its scratchpad.
pub const PARTITION_HEADER: &'static str = "x-nebula-partition-key";

/// Bound on a caller-supplied partition key.
pub const MAX_PARTITION_KEY_BYTES: usize = 128;

/// Opt-in replay of an already-answered request.
pub const IDEMPOTENCY_HEADER: &'static str = "idempotency-key";

/// The deadline of a caller that asks for none, in milliseconds.
pub const DEFAULT_DEADLINE_MS: u32 = 50;

/// Bounds on a caller-supplied deadline.
pub const MIN_DEADLINE_MS: u32 = 10;

pub const MAX_DEADLINE_MS: u32 = 5_000;

/// How many workers a request is tried on: at most one retry.
pub const MAX_ATTEMPTS: usize = 2;

/// How many workers compile a deploy ahead: each that its requests can reach,
/// so that failing over is as warm as the first attempt.
pub const PRECOMPILE_FANOUT: usize = MAX_ATTEMPTS;

/// The headers of a request that matter here, as the bytes they arrived in.
pub struct Headers {
    pub authorization: Option<Vec<u8>>,
    pub partition_key: Option<Vec<u8>>,
    pub deadline: Option<Vec<u8>>,
    pub idempotency_key: Option<Vec<u8>>,
}

pub struct HeadersView {
    pub authorization: Option<Seq<u8>>,
    pub partition_key: Option<Seq<u8>>,
    pub deadline: Option<Seq<u8>>,
    pub idempotency_key: Option<Seq<u8>>,
}

pub open spec fn bytes_of(raw: Option<Vec<u8>>) -> Option<Seq<u8>> {
    match raw {
        Some(raw) => Some(raw@),
        None => None,
    }
}

impl View for Headers {
    type V = HeadersView;

    open spec fn view(&self) -> HeadersView {
        HeadersView {
            authorization: bytes_of(self.authorization),
            partition_key: bytes_of(self.partition_key),
            deadline: bytes_of(self.deadline),
            idempotency_key: bytes_of(self.idempotency_key),
        }
    }
}

/// The tenant that an `Authorization` header proves.
pub open spec fn tenant_in(auth: Auth, raw: Option<Seq<u8>>) -> Option<Seq<char>> {
    match raw {
        Some(raw) => if is_printable(raw) && "Bearer "@.is_prefix_of(as_text(raw)) {
            auth.proves(as_text(raw).skip(7))
        } else {
            None
        },
        None => None,
    }
}

pub fn tenant_of(auth: &Auth, raw: &Option<Vec<u8>>) -> (out: Option<String>)
    requires
        auth.wf(),
    ensures
        text_of(out) == tenant_in(*auth, bytes_of(*raw)),
{
    let raw = match raw {
        Some(raw) => raw,
        None => {
            return None;
        },
    };
    let chars = match header_chars(raw) {
        Some(chars) => chars,
        None => {
            return None;
        },
    };
    proof {
        reveal_strlit("Bearer ");
    }
    if !starts_with(&chars, "Bearer ") {
        return None;
    }
    let size: usize = chars.len();
    let token = copy_range(&chars, 7, size);
    assert(token@ =~= as_text(raw@).skip(7));
    auth.tenant_of(string_of(&token).as_str())
}

/// What a partition header says: nothing if it is absent. One that is unusable
/// is an error, because a caller that sent one expects its state back.
pub open spec fn partition_in(raw: Option<Seq<u8>>) -> Result<Option<Seq<char>>, ()> {
    match raw {
        None => Ok(None),
        Some(raw) => match key_of(raw, MAX_PARTITION_KEY_BYTES as nat) {
            Some(key) => Ok(Some(key)),
            None => Err(()),
        },
    }
}

pub fn partition_key_of(raw: &Option<Vec<u8>>) -> (out: Result<Option<String>, ()>)
    ensures
        match out {
            Ok(key) => partition_in(bytes_of(*raw)) == Ok::<Option<Seq<char>>, ()>(text_of(key)),
            Err(()) => partition_in(bytes_of(*raw)) is Err,
        },
{
    match raw {
        None => Ok(None),
        Some(raw) => match read_key(raw, MAX_PARTITION_KEY_BYTES) {
            Some(key) => Ok(Some(key)),
            None => Err(()),
        },
    }
}

/// What an idempotency header says: nothing if it is absent. Silently dropping
/// the protection that an unusable one asked for is the worst of the options.
pub open spec fn idempotency_in(raw: Option<Seq<u8>>) -> Option<Result<Seq<char>, ()>> {
    match raw {
        None => None,
        Some(raw) => Some(
            match key_of(raw, MAX_KEY_BYTES as nat) {
                Some(key) => Ok(key),
                None => Err(()),
            },
        ),
    }
}

pub fn idempotency_key_of(raw: &Option<Vec<u8>>) -> (out: Option<Result<String, ()>>)
    ensures
        match out {
            None => idempotency_in(bytes_of(*raw)) is None,
            Some(Ok(key)) => idempotency_in(bytes_of(*raw)) == Some(Ok::<Seq<char>, ()>(key@)),
            Some(Err(())) => idempotency_in(bytes_of(*raw)) == Some(Err::<Seq<char>, ()>(())),
        },
{
    match raw {
        None => None,
        Some(raw) => Some(
            match read_key(raw, MAX_KEY_BYTES) {
                Some(key) => Ok(key),
                None => Err(()),
            },
        ),
    }
}

pub open spec fn clamped(ms: nat) -> u32 {
    if ms < MIN_DEADLINE_MS {
        MIN_DEADLINE_MS
    } else if ms > MAX_DEADLINE_MS {
        MAX_DEADLINE_MS
    } else {
        ms as u32
    }
}

/// The deadline a header asks for, within its bounds, and the default for no
/// header. Nothing for one that is no whole number: defaulting there would
/// hand a client that asked for seconds a timeout it cannot explain.
pub open spec fn deadline_in(raw: Option<Seq<u8>>) -> Option<u32> {
    match raw {
        None => Some(DEFAULT_DEADLINE_MS),
        Some(raw) => if is_printable(raw) {
            match parse_unsigned(trim(as_text(raw)), u32::MAX as nat) {
                Some(ms) => Some(clamped(ms)),
                None => None,
            }
        } else {
            None
        },
    }
}

pub fn deadline_of(raw: &Option<Vec<u8>>) -> (out: Option<u32>)
    ensures
        out == deadline_in(bytes_of(*raw)),
{
    let raw = match raw {
        Some(raw) => raw,
        None => {
            return Some(DEFAULT_DEADLINE_MS);
        },
    };
    let chars = match header_chars(raw) {
        Some(chars) => chars,
        None => {
            return None;
        },
    };
    let digits = trim_chars(&chars);
    match parse_number(&digits, u32::MAX as u64) {
        Some(ms) => if ms < MIN_DEADLINE_MS as u64 {
            Some(MIN_DEADLINE_MS)
        } else if ms > MAX_DEADLINE_MS as u64 {
            Some(MAX_DEADLINE_MS)
        } else {
            Some(ms as u32)
        },
        None => None,
    }
}

pub struct GatewayView {
    pub auth: Auth,
    pub table: Map<Seq<char>, Deployed>,
    pub store: StoreView<Answer>,
    pub execute: LimiterView,
    pub deploy: LimiterView,
}

/// What becomes of a request before it is routed.
pub enum Admits {
    Answered(AnswerView),
    Run {
        tenant: Seq<char>,
        partition: Option<Seq<char>>,
        deadline_ms: u32,
        /// The slot it claimed, if it is keyed and the store held it.
        slot: Option<SlotView>,
    },
}

pub open spec fn bad_partition() -> AnswerView {
    faulted(
        400,
        "invalid_partition_key"@,
        "x-nebula-partition-key must be 1..=128 printable ASCII bytes"@,
    )
}

pub open spec fn bad_deadline() -> AnswerView {
    faulted(
        400,
        "invalid_deadline"@,
        "x-nebula-deadline-ms must be a whole number of milliseconds"@,
    )
}

pub open spec fn bad_key() -> AnswerView {
    faulted(
        400,
        "invalid_idempotency_key"@,
        "idempotency-key must be 1..=255 printable ASCII bytes"@,
    )
}

pub open spec fn in_flight() -> AnswerView {
    faulted(
        409,
        "idempotency_in_flight"@,
        "a request with this Idempotency-Key is already running"@,
    )
}

impl GatewayView {
    /// What becomes of a keyed request once it may run.
    pub open spec fn claims(
        self,
        now: u64,
        tenant: Seq<char>,
        partition: Option<Seq<char>>,
        deadline_ms: u32,
        slot: SlotView,
    ) -> (GatewayView, Admits) {
        let after = GatewayView { store: self.store.claimed(now, slot), ..self };
        (
            after,
            match self.store.told(now, slot) {
                Told::Replay { answer } => Admits::Answered(
                    AnswerView { replayed: true, ..answer@ },
                ),
                Told::InFlight => Admits::Answered(in_flight()),
                Told::Proceed { keyed } => Admits::Run {
                    tenant,
                    partition,
                    deadline_ms,
                    slot: if keyed {
                        Some(slot)
                    } else {
                        None
                    },
                },
            },
        )
    }

    /// What becomes of a request whose tenant and partition are known, once it
    /// has been paid for.
    pub open spec fn paid(
        self,
        now: u64,
        tenant: Seq<char>,
        partition: Option<Seq<char>>,
        function_id: Seq<char>,
        h: HeadersView,
    ) -> (GatewayView, Admits) {
        match deadline_in(h.deadline) {
            None => (self, Admits::Answered(bad_deadline())),
            Some(deadline_ms) => match idempotency_in(h.idempotency_key) {
                None => (self, Admits::Run { tenant, partition, deadline_ms, slot: None }),
                Some(Err(_)) => (self, Admits::Answered(bad_key())),
                Some(Ok(key)) => self.claims(
                    now,
                    tenant,
                    partition,
                    deadline_ms,
                    SlotView { tenant, function_id, key },
                ),
            },
        }
    }

    /// What becomes of a request: the tenant first, then the partition key, the
    /// rate limit, the deadline and the idempotency key. A refused request is
    /// refused before it costs a lookup.
    pub open spec fn admits(
        self,
        rate_now: u64,
        claim_now: u64,
        function_id: Seq<char>,
        h: HeadersView,
    ) -> (GatewayView, Admits) {
        match tenant_in(self.auth, h.authorization) {
            None => (self, Admits::Answered(spec_unauthorized())),
            Some(tenant) => match partition_in(h.partition_key) {
                Err(_) => (self, Admits::Answered(bad_partition())),
                Ok(partition) => {
                    let after = GatewayView {
                        execute: self.execute.checked(rate_now, tenant),
                        ..self
                    };
                    match self.execute.decides(rate_now, tenant) {
                        Decision::Limited { retry_after } => (
                            after,
                            Admits::Answered(limited(retry_after)),
                        ),
                        Decision::Allowed => after.paid(
                            claim_now,
                            tenant,
                            partition,
                            function_id,
                            h,
                        ),
                    }
                },
            },
        }
    }

    /// The tenant that may deploy, or why none may.
    pub open spec fn admits_deploy(self, now: u64, h: HeadersView) -> (
        GatewayView,
        Result<Seq<char>, AnswerView>,
    ) {
        match tenant_in(self.auth, h.authorization) {
            None => (self, Err(spec_unauthorized())),
            Some(tenant) => {
                let after = GatewayView { deploy: self.deploy.checked(now, tenant), ..self };
                match self.deploy.decides(now, tenant) {
                    Decision::Limited { retry_after } => (after, Err(limited(retry_after))),
                    Decision::Allowed => (after, Ok(tenant)),
                }
            },
        }
    }

    /// Where an admitted request goes, or why it goes nowhere. A partition key
    /// routes by session rather than by function.
    pub open spec fn plans(
        self,
        cluster: MembershipView,
        function_id: Seq<char>,
        tenant: Seq<char>,
        partition: Option<Seq<char>>,
        deadline_ms: u32,
        body: Seq<u8>,
        trace: TraceView,
        span: Seq<char>,
    ) -> Result<DispatchView, AnswerView> {
        let route = cluster.route_plan(
            match partition {
                Some(key) => key,
                None => function_id,
            },
        );
        if !self.table.contains_key(function_id) {
            Err(faulted(404, "unknown_function"@, "no function deployed under that id"@))
        } else if route.len() == 0 {
            Err(faulted(503, "no_healthy_worker"@, "no worker is in the ring"@))
        } else {
            Ok(
                DispatchView {
                    request: ExecuteRequestView {
                        function_id,
                        content_hash: self.table[function_id].hash,
                        body,
                        request_id: trace.trace_id,
                        deadline_ms,
                        partition_key: partition,
                        tenant,
                    },
                    traceparent: trace.outgoing(span),
                    addresses: addresses_of(route),
                    index: 0,
                    shed: false,
                },
            )
        }
    }
}

/// The addresses that are tried.
pub open spec fn addresses_of(route: Seq<(Seq<char>, Seq<char>)>) -> Seq<Seq<char>> {
    let all = route.map_values(|p: (Seq<char>, Seq<char>)| p.1);
    if all.len() <= MAX_ATTEMPTS {
        all
    } else {
        all.take(MAX_ATTEMPTS as int)
    }
}

/// What happened to one dispatch attempt.
pub enum Attempt {
    Answered(ExecuteResponse),
    /// Never sent: the connection could not be established. Safe to retry.
    NotSent,
    /// Sent, and then something went wrong. The guest may have run.
    Failed(Status),
}

pub struct DispatchView {
    pub request: ExecuteRequestView,
    pub traceparent: Seq<char>,
    pub addresses: Seq<Seq<char>>,
    pub index: nat,
    pub shed: bool,
}

impl DispatchView {
    pub open spec fn wf(self) -> bool {
        self.index < self.addresses.len() <= MAX_ATTEMPTS
    }

    /// On to the next worker, or to the answer when there is none.
    pub open spec fn moved_on(self) -> (DispatchView, Option<AnswerView>) {
        if self.index + 1 < self.addresses.len() {
            (DispatchView { index: self.index + 1, ..self }, None)
        } else if self.shed {
            (
                self,
                Some(
                    faulted(
                        503,
                        "cluster_at_capacity"@,
                        "every candidate worker shed the request"@,
                    ),
                ),
            )
        } else {
            (
                self,
                Some(
                    faulted(
                        503,
                        "no_reachable_worker"@,
                        "no candidate worker accepted a connection"@,
                    ),
                ),
            )
        }
    }

    /// What follows an attempt: an answer, or the next worker.
    pub open spec fn after(self, attempt: Attempt) -> (DispatchView, Option<AnswerView>) {
        match attempt {
            Attempt::Answered(response) => (
                self,
                Some(answered(response@, self.request.deadline_ms)),
            ),
            Attempt::NotSent => self.moved_on(),
            Attempt::Failed(status) => {
                // Shedding is no failure of the worker, and one more may be
                // asked before giving up.
                if status.code == Code::ResourceExhausted && self.index == 0 {
                    DispatchView { shed: true, ..self }.moved_on()
                } else {
                    (self, Some(failed(status)))
                }
            },
        }
    }
}

/// A request on its way.
pub struct Dispatch {
    request: ExecuteRequest,
    traceparent: String,
    addresses: Vec<String>,
    index: usize,
    shed: bool,
}

impl View for Dispatch {
    type V = DispatchView;

    closed spec fn view(&self) -> DispatchView {
        DispatchView {
            request: self.request@,
            traceparent: self.traceparent@,
            addresses: texts(self.addresses@),
            index: self.index as nat,
            shed: self.shed,
        }
    }
}

impl Dispatch {
    /// The worker to dial now.
    pub fn address(&self) -> (out: &str)
        requires
            self@.wf(),
        ensures
            out@ == self@.addresses[self@.index as int],
    {
        assert(texts(self.addresses@)[self.index as int] == self.addresses@[self.index as int]@);
        self.addresses[self.index].as_str()
    }

    pub fn request(&self) -> (out: &ExecuteRequest)
        ensures
            out@ == self@.request,
    {
        &self.request
    }

    /// Trace context rides beside the request: it describes the call, not the
    /// work.
    pub fn traceparent(&self) -> (out: &str)
        ensures
            out@ == self@.traceparent,
    {
        self.traceparent.as_str()
    }

    fn move_on(&mut self) -> (out: Option<Answer>)
        requires
            old(self)@.wf(),
        ensures
            final(self)@.wf(),
            final(self)@ == old(self)@.moved_on().0,
            match out {
                Some(answer) => old(self)@.moved_on().1 == Some(answer@),
                None => old(self)@.moved_on().1 is None,
            },
    {
        if self.index + 1 < self.addresses.len() {
            self.index = self.index + 1;
            None
        } else if self.shed {
            Some(
                fault(503, "cluster_at_capacity", "every candidate worker shed the request"),
            )
        } else {
            Some(
                fault(503, "no_reachable_worker", "no candidate worker accepted a connection"),
            )
        }
    }

    /// Takes what happened to the attempt at [`Dispatch::address`]. An answer
    /// ends it; without one the next worker is to be dialled.
    pub fn step(&mut self, attempt: Attempt) -> (out: Option<Answer>)
        requires
            old(self)@.wf(),
        ensures
            final(self)@.wf(),
            final(self)@ == old(self)@.after(attempt).0,
            match out {
                Some(answer) => old(self)@.after(attempt).1 == Some(answer@),
                None => old(self)@.after(attempt).1 is None,
            },
    {
        match attempt {
            Attempt::Answered(response) => Some(to_http(response, self.request.deadline_ms)),
            Attempt::NotSent => self.move_on(),
            Attempt::Failed(status) => {
                if status.code == Code::ResourceExhausted && self.index == 0 {
                    self.shed = true;
                    self.move_on()
                } else {
                    Some(from_status(&status))
                }
            },
        }
    }
}

/// A request that may run.
pub struct Ticket {
    pub tenant: String,
    pub partition: Option<String>,
    pub deadline_ms: u32,
    /// What it holds in the replay store, if it is keyed.
    pub claim: Option<Claimed>,
}

impl Ticket {
    /// The slot that it holds in the replay store.
    pub open spec fn slot(&self) -> Option<SlotView> {
        match self.claim {
            Some(claim) => if claim.keyed() {
                Some(claim.slot())
            } else {
                None
            },
            None => None,
        }
    }
}

pub enum Admission {
    Answered(Answer),
    Run(Ticket),
}

/// Whether `out` says what `admits` says.
pub open spec fn says(out: Admission, admits: Admits) -> bool {
    match (out, admits) {
        (Admission::Answered(answer), Admits::Answered(view)) => answer@ == view,
        (
            Admission::Run(ticket),
            Admits::Run { tenant, partition, deadline_ms, slot },
        ) => ticket.tenant@ == tenant && text_of(ticket.partition) == partition
            && ticket.deadline_ms == deadline_ms && ticket.slot() == slot,
        _ => false,
    }
}

/// Whether a request was admitted as it should be at these moments.
pub open spec fn admitted_at(
    before: GatewayView,
    after: GatewayView,
    out: Admission,
    rate_now: u64,
    claim_now: u64,
    function_id: Seq<char>,
    h: HeadersView,
) -> bool {
    let (want, admits) = before.admits(rate_now, claim_now, function_id, h);
    after == want && says(out, admits)
}

/// The gateway's own state.
pub struct Gateway {
    auth: Auth,
    table: Deployments,
    store: Store<Answer>,
    execute_limit: Limiter,
    deploy_limit: Limiter,
}

impl View for Gateway {
    type V = GatewayView;

    closed spec fn view(&self) -> GatewayView {
        GatewayView {
            auth: self.auth,
            table: self.table@,
            store: self.store@,
            execute: self.execute_limit@,
            deploy: self.deploy_limit@,
        }
    }
}

pub open spec fn fresh_limiter(limit: Limit) -> LimiterView {
    LimiterView { limit, buckets: Map::empty() }
}

impl Gateway {
    pub closed spec fn wf(&self) -> bool {
        &&& self.auth.wf()
        &&& self.table.wf()
        &&& self.store.wf()
        &&& self.execute_limit.wf()
        &&& self.deploy_limit.wf()
    }

    /// What a well-formed gateway shows is well-formed too.
    pub proof fn lemma_wf(&self)
        requires
            self.wf(),
        ensures
            self@.auth.wf(),
            self@.store.wf(),
            self@.execute.wf(),
            self@.deploy.wf(),
    {
        self.store.lemma_wf();
        self.execute_limit.lemma_wf();
        self.deploy_limit.lemma_wf();
    }

    /// A gateway over the deployments that were restored. Development mode: the
    /// bearer token is the tenant, until [`Gateway::with_auth`] says otherwise.
    pub fn open(table: Deployments) -> (out: Self)
        requires
            table.wf(),
        ensures
            out.wf(),
            out@.auth is Insecure,
            out@.table == table@,
            out@.store.entries == Map::<SlotView, crate::idempotency::Held<Answer>>::empty(),
            out@.execute == fresh_limiter(Limit::spec_execute()),
            out@.deploy == fresh_limiter(Limit::spec_deploy()),
    {
        Gateway {
            auth: Auth::Insecure,
            table,
            store: Store::new(),
            execute_limit: Limiter::new(Limit::execute()),
            deploy_limit: Limiter::new(Limit::deploy()),
        }
    }

    /// Replaces the default rate limits.
    pub fn with_limits(self, execute: Limit, deploy: Limit) -> (out: Self)
        requires
            self.wf(),
        ensures
            out.wf(),
            out@ == (GatewayView {
                execute: fresh_limiter(execute),
                deploy: fresh_limiter(deploy),
                ..self@
            }),
    {
        let mut out = self;
        out.execute_limit = Limiter::new(execute);
        out.deploy_limit = Limiter::new(deploy);
        out
    }

    /// Decides how callers prove who they are.
    pub fn with_auth(self, auth: Auth) -> (out: Self)
        requires
            self.wf(),
            auth.wf(),
        ensures
            out.wf(),
            out@ == (GatewayView { auth, ..self@ }),
    {
        let mut out = self;
        out.auth = auth;
        out
    }

    pub fn content_hash_of(&self, function_id: &str) -> (out: Option<String>)
        requires
            self.wf(),
        ensures
            match out {
                Some(hash) => self@.table.contains_key(function_id@) && hash@
                    == self@.table[function_id@].hash,
                None => !self@.table.contains_key(function_id@),
            },
    {
        self.table.content_hash_of(function_id)
    }

    /// Every deployed function that carries a description.
    pub fn tools(&self) -> (out: Vec<(String, Tool)>)
        requires
            self.wf(),
        ensures
            crate::registry::lists(out@, crate::registry::described(self@.table)),
    {
        self.table.tools()
    }

    pub fn deployed(&self) -> (out: usize)
        requires
            self.wf(),
        ensures
            self@.table.dom().finite(),
            out == self@.table.len(),
    {
        self.table.deployed()
    }

    /// What is deployed, to be written to disk.
    pub fn table(&self) -> (out: &Deployments)
        requires
            self.wf(),
        ensures
            out.wf(),
            out@ == self@.table,
    {
        &self.table
    }

    /// Points `function_id` at an artifact.
    pub fn deploy(&mut self, function_id: &str, hash: &str, tool: Option<Tool>)
        requires
            old(self).wf(),
        ensures
            final(self).wf(),
            final(self)@ == (GatewayView {
                table: old(self)@.table.insert(
                    function_id@,
                    Deployed {
                        hash: hash@,
                        tool: match tool {
                            Some(tool) => Some(tool@),
                            None => None,
                        },
                    },
                ),
                ..old(self)@
            }),
    {
        self.table.deploy(function_id, hash, tool);
    }

    /// Forgets `function_id`.
    pub fn withdraw(&mut self, function_id: &str)
        requires
            old(self).wf(),
        ensures
            final(self).wf(),
            final(self)@ == (GatewayView {
                table: old(self)@.table.remove(function_id@),
                ..old(self)@
            }),
    {
        self.table.withdraw(function_id);
    }

    /// Decides what becomes of a request, up to the point where it is routed.
    pub fn receive(&mut self, function_id: &str, headers: &Headers) -> (out: Admission)
        requires
            old(self).wf(),
        ensures
            final(self).wf(),
            exists|rate_now: u64, claim_now: u64| #[trigger]
                admitted_at(
                    old(self)@,
                    final(self)@,
                    out,
                    rate_now,
                    claim_now,
                    function_id@,
                    headers@,
                ),
    {
        let rate_now: u64 = self.execute_limit.now();
        let claim_now: u64 = self.store.now();
        self.receive_at(rate_now, claim_now, function_id, headers)
    }

    /// As [`Gateway::receive`], at the moments given: when the rate is checked,
    /// and when a slot is claimed.
    pub fn receive_at(
        &mut self,
        rate_now: u64,
        claim_now: u64,
        function_id: &str,
        headers: &Headers,
    ) -> (out: Admission)
        requires
            old(self).wf(),
        ensures
            final(self).wf(),
            admitted_at(
                old(self)@,
                final(self)@,
                out,
                rate_now,
                claim_now,
                function_id@,
                headers@,
            ),
    {
        let tenant = match tenant_of(&self.auth, &headers.authorization) {
            Some(tenant) => tenant,
            None => {
                return Admission::Answered(unauthorized());
            },
        };
        let partition = match partition_key_of(&headers.partition_key) {
            Ok(partition) => partition,
            Err(()) => {
                return Admission::Answered(
                    fault(
                        400,
                        "invalid_partition_key",
                        "x-nebula-partition-key must be 1..=128 printable ASCII bytes",
                    ),
                );
            },
        };
        if let Decision::Limited { retry_after } = self.execute_limit.check_at(
            rate_now,
            tenant.as_str(),
        ) {
            return Admission::Answered(rate_limited(retry_after));
        }
        let deadline_ms: u32 = match deadline_of(&headers.deadline) {
            Some(ms) => ms,
            None => {
                return Admission::Answered(
                    fault(
                        400,
                        "invalid_deadline",
                        "x-nebula-deadline-ms must be a whole number of milliseconds",
                    ),
                );
            },
        };
        let key = match idempotency_key_of(&headers.idempotency_key) {
            None => {
                return Admission::Run(Ticket { tenant, partition, deadline_ms, claim: None });
            },
            Some(Err(())) => {
                return Admission::Answered(
                    fault(
                        400,
                        "invalid_idempotency_key",
                        "idempotency-key must be 1..=255 printable ASCII bytes",
                    ),
                );
            },
            Some(Ok(key)) => key,
        };
        let slot = Slot { tenant: tenant.clone(), function_id: function_id.to_owned(), key };
        match self.store.claim_at(claim_now, &slot) {
            Claim::Replay(answer) => {
                let mut answer = answer;
                answer.replayed = true;
                Admission::Answered(answer)
            },
            Claim::InFlight => Admission::Answered(
                fault(
                    409,
                    "idempotency_in_flight",
                    "a request with this Idempotency-Key is already running",
                ),
            ),
            Claim::Proceed(claim) => Admission::Run(
                Ticket { tenant, partition, deadline_ms, claim: Some(claim) },
            ),
        }
    }

    /// Decides who may deploy, at this moment.
    pub fn receive_deploy(&mut self, headers: &Headers) -> (out: Result<String, Answer>)
        requires
            old(self).wf(),
        ensures
            final(self).wf(),
            exists|now: u64| #[trigger]
                deploy_admitted_at(old(self)@, final(self)@, out, now, headers@),
    {
        let now: u64 = self.deploy_limit.now();
        self.receive_deploy_at(now, headers)
    }

    /// As [`Gateway::receive_deploy`], at `now`. It is checked before anything
    /// else is done for the deploy, which may run the caller's code.
    pub fn receive_deploy_at(&mut self, now: u64, headers: &Headers) -> (out: Result<String, Answer>)
        requires
            old(self).wf(),
        ensures
            final(self).wf(),
            deploy_admitted_at(old(self)@, final(self)@, out, now, headers@),
    {
        let tenant = match tenant_of(&self.auth, &headers.authorization) {
            Some(tenant) => tenant,
            None => {
                return Err(unauthorized());
            },
        };
        if let Decision::Limited { retry_after } = self.deploy_limit.check_at(now, tenant.as_str()) {
            return Err(rate_limited(retry_after));
        }
        Ok(tenant)
    }

    /// Routes an admitted request.
    pub fn plan(
        &self,
        cluster: &Membership,
        function_id: &str,
        ticket: &Ticket,
        body: Vec<u8>,
        trace: &TraceContext,
        span_id: &str,
    ) -> (out: Result<Dispatch, Answer>)
        requires
            self.wf(),
            cluster.wf(),
        ensures
            match (
                self@.plans(
                    cluster@,
                    function_id@,
                    ticket.tenant@,
                    text_of(ticket.partition),
                    ticket.deadline_ms,
                    body@,
                    trace@,
                    span_id@,
                ),
                out,
            ) {
                (Ok(view), Ok(dispatch)) => dispatch@ == view && dispatch@.wf(),
                (Err(view), Err(answer)) => answer@ == view,
                _ => false,
            },
    {
        let content_hash = match self.table.content_hash_of(function_id) {
            Some(hash) => hash,
            None => {
                return Err(
                    fault(404, "unknown_function", "no function deployed under that id"),
                );
            },
        };
        let route = match &ticket.partition {
            Some(key) => cluster.route_plan(key.as_str()),
            None => cluster.route_plan(function_id),
        };
        let ghost plan = route@.map_values(|p: (String, String)| (p.0@, p.1@));
        if route.len() == 0 {
            return Err(fault(503, "no_healthy_worker", "no worker is in the ring"));
        }
        let mut addresses: Vec<String> = Vec::new();
        let mut i: usize = 0;
        while i < route.len() && i < MAX_ATTEMPTS
            invariant
                i <= route@.len(),
                i <= MAX_ATTEMPTS,
                plan == route@.map_values(|p: (String, String)| (p.0@, p.1@)),
                addresses@.len() == i,
                forall|k: int| 0 <= k < i ==> (#[trigger] addresses@[k])@ == plan[k].1,
            decreases route@.len() - i,
        {
            addresses.push(route[i].1.clone());
            i += 1;
        }
        assert(texts(addresses@) =~= addresses_of(plan));
        let partition_key = match &ticket.partition {
            Some(key) => Some(key.clone()),
            None => None,
        };
        Ok(
            Dispatch {
                request: ExecuteRequest {
                    function_id: function_id.to_owned(),
                    content_hash,
                    body,
                    request_id: trace.trace_id.clone(),
                    deadline_ms: ticket.deadline_ms,
                    partition_key,
                    tenant: ticket.tenant.clone(),
                },
                traceparent: trace.outgoing(span_id),
                addresses,
                index: 0,
                shed: false,
            },
        )
    }

    /// Records the answer to an admitted request, if it is worth replaying.
    pub fn finish(&mut self, ticket: Ticket, answer: &Answer)
        requires
            old(self).wf(),
        ensures
            final(self).wf(),
            exists|now: u64| #[trigger]
                finished_at(old(self)@, final(self)@, ticket.slot(), *answer, now),
    {
        let now: u64 = self.store.now();
        self.finish_at(now, ticket, answer);
    }

    /// As [`Gateway::finish`], at `now`.
    pub fn finish_at(&mut self, now: u64, ticket: Ticket, answer: &Answer)
        requires
            old(self).wf(),
        ensures
            final(self).wf(),
            finished_at(old(self)@, final(self)@, ticket.slot(), *answer, now),
    {
        if let Some(claim) = ticket.claim {
            claim.finish_at(now, &mut self.store, answer, answer.replayable(), answer.weight());
        }
    }

    /// Gives up on an admitted request: its client has gone, and a slot left
    /// claimed would refuse the very retry that the key exists to serve.
    pub fn abandon(&mut self, ticket: Ticket)
        requires
            old(self).wf(),
        ensures
            final(self).wf(),
            final(self)@ == (GatewayView {
                store: match ticket.slot() {
                    Some(slot) => old(self)@.store.removed(slot),
                    None => old(self)@.store,
                },
                ..old(self)@
            }),
    {
        if let Some(claim) = ticket.claim {
            claim.release(&mut self.store);
        }
    }
}

/// Whether a deploy was admitted as it should be at `now`.
pub open spec fn deploy_admitted_at(
    before: GatewayView,
    after: GatewayView,
    out: Result<String, Answer>,
    now: u64,
    h: HeadersView,
) -> bool {
    let (want, admits) = before.admits_deploy(now, h);
    after == want && match (out, admits) {
        (Ok(tenant), Ok(view)) => tenant@ == view,
        (Err(answer), Err(view)) => answer@ == view,
        _ => false,
    }
}

/// Whether a request that held `slot` was finished as it should be at `now`.
pub open spec fn finished_at(
    before: GatewayView,
    after: GatewayView,
    slot: Option<SlotView>,
    answer: Answer,
    now: u64,
) -> bool {
    match slot {
        None => after == before,
        Some(slot) => after == (GatewayView { store: after.store, ..before }) && settled(
            before.store,
            after.store,
            now,
            slot,
            answer,
            answer@.replayable(),
            answer@.weight() as nat,
        ),
    }
}

/// A request is tried on at most two workers.
pub proof fn law_at_most_one_retry(dispatch: DispatchView, attempt: Attempt)
    requires
        dispatch.wf(),
    ensures
        dispatch.after(attempt).0.wf(),
        dispatch.after(attempt).1 is None ==> dispatch.index == 0 && dispatch.after(attempt).0.index
            == 1,
{
}

/// A request that was sent is never sent again, unless the worker said that it
/// had shed it.
pub proof fn law_a_sent_request_is_not_retried(dispatch: DispatchView, status: Status)
    requires
        dispatch.wf(),
        status.code != Code::ResourceExhausted,
    ensures
        dispatch.after(Attempt::Failed(status)).1 == Some(failed(status)),
{
}

/// A request that no worker accepted a connection for ran nowhere, and is never
/// reported as if it might have.
pub proof fn law_an_unreachable_cluster_never_reads_as_possibly_run(dispatch: DispatchView)
    requires
        dispatch.wf(),
    ensures
        dispatch.after(Attempt::NotSent).1 matches Some(answer) ==> answer.status == 503,
{
}

/// A refused request costs nothing beyond the check: it claims no slot and
/// changes no table.
pub proof fn law_a_refused_request_claims_nothing(
    gateway: GatewayView,
    rate_now: u64,
    claim_now: u64,
    function_id: Seq<char>,
    h: HeadersView,
)
    requires
        tenant_in(gateway.auth, h.authorization) matches Some(tenant) ==> gateway.execute.decides(
            rate_now,
            tenant,
        ) is Limited,
    ensures
        ({
            let (after, admits) = gateway.admits(rate_now, claim_now, function_id, h);
            &&& admits matches Admits::Answered(answer)
            &&& answer.fault is Some
            &&& after.store == gateway.store && after.table == gateway.table
        }),
{
}

/// Whatever runs, runs for a valid tenant.
pub proof fn law_only_proven_tenants_run(
    gateway: GatewayView,
    rate_now: u64,
    claim_now: u64,
    function_id: Seq<char>,
    h: HeadersView,
)
    ensures
        gateway.admits(rate_now, claim_now, function_id, h).1 matches Admits::Run {
            tenant,
            partition,
            deadline_ms,
            slot,
        } ==> {
            &&& tenant_in(gateway.auth, h.authorization) == Some(tenant)
            &&& crate::auth::valid_tenant(tenant)
            &&& MIN_DEADLINE_MS <= deadline_ms <= MAX_DEADLINE_MS
            &&& slot matches Some(slot) ==> slot.tenant == tenant && slot.function_id == function_id
        },
{
}

/// A repeated key replays instead of running again: once an answer worth
/// replaying is kept, the same request is given its body, status and numbers,
/// marked as a replay, until it expires.
pub proof fn law_a_repeated_key_replays(
    gateway: GatewayView,
    rate_now: u64,
    claim_now: u64,
    function_id: Seq<char>,
    h: HeadersView,
    slot: SlotView,
    answer: Answer,
    at: u64,
)
    requires
        gateway.store.keeps(at, slot, answer@.weight() as nat),
        claim_now < crate::idempotency::expiry(at),
        tenant_in(gateway.auth, h.authorization) == Some(slot.tenant),
        function_id == slot.function_id,
        idempotency_in(h.idempotency_key) == Some(Ok::<Seq<char>, ()>(slot.key)),
        partition_in(h.partition_key) is Ok,
        deadline_in(h.deadline) is Some,
        gateway.execute.decides(rate_now, slot.tenant) is Allowed,
    ensures
        ({
            let kept = GatewayView {
                store: gateway.store.finished(at, slot, answer, true, answer@.weight() as nat),
                ..gateway
            };
            kept.admits(rate_now, claim_now, function_id, h).1 == Admits::Answered(
                AnswerView { replayed: true, ..answer@ },
            )
        }),
{
    crate::idempotency::law_a_finished_answer_replays(
        gateway.store,
        slot,
        answer,
        answer@.weight() as nat,
        at,
        claim_now,
    );
}

/// A tenant is proved by what follows the word `Bearer` and one blank, all of it,
/// and by nothing else.
pub proof fn law_the_token_is_all_that_follows_bearer(auth: Auth, raw: Seq<u8>, token: Seq<u8>)
    ensures
        tenant_in(auth, None) is None,
        ({
            let header = seq![66u8, 101, 97, 114, 101, 114, 32] + token;
            is_printable(token) ==> tenant_in(auth, Some(header)) == auth.proves(as_text(token))
        }),
        tenant_in(auth, Some(raw)) is Some ==> raw.len() >= 7 && raw == seq![
            66u8,
            101,
            97,
            114,
            101,
            114,
            32,
        ] + raw.skip(7),
{
    reveal_strlit("Bearer ");
    let word = seq![66u8, 101, 97, 114, 101, 114, 32];
    let header = word + token;
    if is_printable(token) {
        assert forall|i: int| 0 <= i < header.len() implies crate::header::is_visible(
            #[trigger] header[i],
        ) by {
            if i >= 7 {
                assert(crate::header::is_visible(token[i - 7]));
            }
        }
        assert(as_text(header).take(7) =~= "Bearer "@);
        assert("Bearer "@.is_prefix_of(as_text(header)));
        assert(as_text(header).skip(7) =~= as_text(token));
    }
    if tenant_in(auth, Some(raw)) is Some {
        let text = as_text(raw);
        assert("Bearer "@.is_prefix_of(text));
        assert forall|i: int| 0 <= i < 7 implies #[trigger] raw[i] == word[i] by {
            assert(text[i] == "Bearer "@[i]);
            assert(text[i] as int == raw[i]);
        }
        assert(raw =~= word + raw.skip(7));
    }
}

/// A deadline is the number of milliseconds that the header spells, ten at least
/// and five thousand at most, and fifty without a header. A header that spells none
/// gives none.
pub proof fn law_a_deadline_is_what_the_header_spells(raw: Seq<u8>)
    ensures
        deadline_in(None) == Some(50u32),
        ({
            let number = parse_unsigned(trim(as_text(raw)), 0xffff_ffff);
            match deadline_in(Some(raw)) {
                None => !is_printable(raw) || number is None,
                Some(ms) => {
                    &&& is_printable(raw)
                    &&& number is Some
                    &&& 10 <= ms <= 5000
                    &&& 10 <= number->0 <= 5000 ==> ms == number->0
                    &&& number->0 < 10 ==> ms == 10
                    &&& number->0 > 5000 ==> ms == 5000
                },
            }
        }),
{
}

/// A partition key has at most 128 bytes and an idempotency key at most 255; either
/// is the whole header without the blanks around it, an unusable one is an error,
/// and an absent one is none.
pub proof fn law_keys_are_whole_or_refused(raw: Seq<u8>)
    ensures
        partition_in(None) == Ok::<Option<Seq<char>>, ()>(None),
        idempotency_in(None) is None,
        ({
            let key = trim(as_text(raw));
            let usable = is_printable(raw) && key.len() > 0;
            &&& usable && raw.len() <= 128 ==> partition_in(Some(raw)) == Ok::<
                Option<Seq<char>>,
                (),
            >(Some(key))
            &&& !(usable && raw.len() <= 128) ==> partition_in(Some(raw)) is Err
            &&& usable && raw.len() <= 255 ==> idempotency_in(Some(raw)) == Some(
                Ok::<Seq<char>, ()>(key),
            )
            &&& !(usable && raw.len() <= 255) ==> idempotency_in(Some(raw)) == Some(
                Err::<Seq<char>, ()>(()),
            )
        }),
{
}

/// A request runs exactly when its tenant is proved, its partition key is usable,
/// its tenant is within its rate, its deadline can be read, and its idempotency
/// key, if it has one, is usable and names no request that is running or was
/// answered. It runs for that tenant, under that partition and deadline, and holds
/// the slot of its own key.
#[verifier::rlimit(40)]
pub proof fn law_a_request_runs_exactly_when_nothing_is_against_it(
    gateway: GatewayView,
    rate_now: u64,
    claim_now: u64,
    function_id: Seq<char>,
    h: HeadersView,
)
    ensures
        ({
            let tenant = tenant_in(gateway.auth, h.authorization);
            let partition = partition_in(h.partition_key);
            let deadline = deadline_in(h.deadline);
            let key = idempotency_in(h.idempotency_key);
            let slot = SlotView {
                tenant: tenant->0,
                function_id,
                key: key->0->Ok_0,
            };
            let told = gateway.store.told(claim_now, slot);
            let (after, admits) = gateway.admits(rate_now, claim_now, function_id, h);
            let runs = {
                &&& tenant is Some
                &&& partition is Ok
                &&& gateway.execute.decides(rate_now, tenant->0) is Allowed
                &&& deadline is Some
                &&& key is None || (key->0 is Ok && told is Proceed)
            };
            &&& admits is Run <==> runs
            &&& admits is Run ==> admits == (Admits::Run {
                tenant: tenant->0,
                partition: partition->Ok_0,
                deadline_ms: deadline->0,
                slot: if key is Some && told->keyed {
                    Some(slot)
                } else {
                    None
                },
            })
            &&& after.auth == gateway.auth
            &&& after.table == gateway.table
            &&& after.deploy == gateway.deploy
            &&& after.execute == (if tenant is Some && partition is Ok {
                gateway.execute.checked(rate_now, tenant->0)
            } else {
                gateway.execute
            })
            &&& after.store == (if tenant is Some && partition is Ok && gateway.execute.decides(
                rate_now,
                tenant->0,
            ) is Allowed && deadline is Some && key is Some && key->0 is Ok {
                gateway.store.claimed(claim_now, slot)
            } else {
                gateway.store
            })
        }),
{
}

/// A request that does not run is told why, by the first thing that is against it.
#[verifier::rlimit(40)]
pub proof fn law_a_refused_request_is_told_the_first_reason(
    gateway: GatewayView,
    rate_now: u64,
    claim_now: u64,
    function_id: Seq<char>,
    h: HeadersView,
)
    ensures
        ({
            let tenant = tenant_in(gateway.auth, h.authorization);
            let partition = partition_in(h.partition_key);
            let decision = gateway.execute.decides(rate_now, tenant->0);
            let key = idempotency_in(h.idempotency_key);
            let slot = SlotView { tenant: tenant->0, function_id, key: key->0->Ok_0 };
            let told = gateway.store.told(claim_now, slot);
            let admits = gateway.admits(rate_now, claim_now, function_id, h).1;
            let answer = admits->Answered_0;
            let said = (answer.status, answer.fault);
            if tenant is None {
                admits is Answered && said == (401u16, Some("unauthorized"@))
            } else if partition is Err {
                admits is Answered && said == (400u16, Some("invalid_partition_key"@))
            } else if decision is Limited {
                admits is Answered && said == (429u16, Some("rate_limited"@)) && answer.retry_after
                    is Some && answer.retry_after->0 >= decision->retry_after
            } else if deadline_in(h.deadline) is None {
                admits is Answered && said == (400u16, Some("invalid_deadline"@))
            } else if key is Some && key->0 is Err {
                admits is Answered && said == (400u16, Some("invalid_idempotency_key"@))
            } else if key is Some && told is InFlight {
                admits is Answered && said == (409u16, Some("idempotency_in_flight"@))
            } else if key is Some && told is Replay {
                admits is Answered && answer == (AnswerView {
                    replayed: true,
                    ..told->answer@
                })
            } else {
                admits is Run
            }
        }),
{
}

/// A deploy is taken from a tenant that is proved and within its rate for deploys,
/// and costs nothing but that.
pub proof fn law_a_deploy_is_taken_from_a_proved_tenant(
    gateway: GatewayView,
    now: u64,
    h: HeadersView,
)
    ensures
        ({
            let tenant = tenant_in(gateway.auth, h.authorization);
            let (after, taken) = gateway.admits_deploy(now, h);
            &&& taken is Ok <==> tenant is Some && gateway.deploy.decides(now, tenant->0) is Allowed
            &&& taken is Ok ==> taken->Ok_0 == tenant->0
            &&& tenant is None ==> taken is Err && taken->Err_0.status == 401
            &&& tenant is Some && taken is Err ==> taken->Err_0.status == 429
            &&& after.auth == gateway.auth && after.table == gateway.table
            &&& after.store == gateway.store && after.execute == gateway.execute
            &&& after.deploy == (if tenant is Some {
                gateway.deploy.checked(now, tenant->0)
            } else {
                gateway.deploy
            })
        }),
{
}

/// A request goes out as it came in: its whole body, for its tenant, to the artifact
/// its function points at, under its trace; to the first two workers of the plan for
/// its partition key, or for its function when it has none.
pub proof fn law_a_request_goes_out_as_it_came_in(
    gateway: GatewayView,
    cluster: MembershipView,
    function_id: Seq<char>,
    tenant: Seq<char>,
    partition: Option<Seq<char>>,
    deadline_ms: u32,
    body: Seq<u8>,
    trace: TraceView,
    span: Seq<char>,
)
    ensures
        ({
            let out = gateway.plans(
                cluster,
                function_id,
                tenant,
                partition,
                deadline_ms,
                body,
                trace,
                span,
            );
            let route = cluster.route_plan(
                if partition is Some {
                    partition->0
                } else {
                    function_id
                },
            );
            let known = gateway.table.contains_key(function_id);
            &&& !known ==> out is Err && out->Err_0.status == 404 && out->Err_0.fault == Some(
                "unknown_function"@,
            )
            &&& known && route.len() == 0 ==> out is Err && out->Err_0.status == 503
                && out->Err_0.fault == Some("no_healthy_worker"@)
            &&& known && route.len() > 0 ==> {
                &&& out is Ok
                &&& out->Ok_0.request.body == body
                &&& out->Ok_0.request.function_id == function_id
                &&& out->Ok_0.request.content_hash == gateway.table[function_id].hash
                &&& out->Ok_0.request.request_id == trace.trace_id
                &&& out->Ok_0.request.deadline_ms == deadline_ms
                &&& out->Ok_0.request.partition_key == partition
                &&& out->Ok_0.request.tenant == tenant
                &&& out->Ok_0.traceparent == trace.outgoing(span)
                &&& out->Ok_0.index == 0 && !out->Ok_0.shed
                &&& out->Ok_0.addresses.len() == (if route.len() < 2 {
                    1int
                } else {
                    2
                })
                &&& out->Ok_0.addresses[0] == route[0].1
                &&& route.len() >= 2 ==> out->Ok_0.addresses[1] == route[1].1
            }
        }),
{
}

/// An answer of a worker is the answer of the request. A worker that was not reached
/// or, the first time, said it was full hands over to the next; when there is none
/// left the caller is told which of the two it was. Anything else ends it.
pub proof fn law_a_dispatch_ends_or_moves_on(dispatch: DispatchView, attempt: Attempt)
    requires
        dispatch.wf(),
    ensures
        ({
            let (after, answer) = dispatch.after(attempt);
            let full = attempt matches Attempt::Failed(status) && status.code
                == Code::ResourceExhausted && dispatch.index == 0;
            let last = dispatch.index + 1 == dispatch.addresses.len();
            &&& after.request == dispatch.request
            &&& after.traceparent == dispatch.traceparent
            &&& after.addresses == dispatch.addresses
            &&& after.shed == (dispatch.shed || full)
            &&& attempt matches Attempt::Answered(response) ==> answer == Some(
                answered(response@, dispatch.request.deadline_ms),
            )
            &&& (attempt is NotSent || full) && !last ==> answer is None && after.index
                == dispatch.index + 1
            &&& (attempt is NotSent || full) && last ==> answer is Some && answer->0.status == 503
                && answer->0.fault == Some(
                if after.shed {
                    "cluster_at_capacity"@
                } else {
                    "no_reachable_worker"@
                },
            )
            &&& (attempt matches Attempt::Failed(status) ==> (!full ==> answer == Some(
                failed(status),
            )))
        }),
{
}

/// Only a request that holds a slot leaves anything behind, and only in the store:
/// what is worth replaying is kept there as it was answered.
pub proof fn law_finishing_touches_only_its_slot(
    before: GatewayView,
    after: GatewayView,
    slot: Option<SlotView>,
    answer: Answer,
    now: u64,
)
    requires
        finished_at(before, after, slot, answer, now),
    ensures
        after.auth == before.auth && after.table == before.table,
        after.execute == before.execute && after.deploy == before.deploy,
        slot is None ==> after.store == before.store,
        slot is Some ==> settled(
            before.store,
            after.store,
            now,
            slot->0,
            answer,
            answer@.replayable(),
            answer@.weight() as nat,
        ),
{
}

/// Headers are seen whole, and a request may bring a mebibyte.
pub proof fn law_headers_are_seen_whole(headers: Headers)
    ensures
        headers.authorization is Some <==> headers@.authorization is Some,
        headers.authorization is Some ==> headers@.authorization->0 == headers.authorization->0@,
        headers.partition_key is Some <==> headers@.partition_key is Some,
        headers.partition_key is Some ==> headers@.partition_key->0 == headers.partition_key->0@,
        headers.deadline is Some <==> headers@.deadline is Some,
        headers.deadline is Some ==> headers@.deadline->0 == headers.deadline->0@,
        headers.idempotency_key is Some <==> headers@.idempotency_key is Some,
        headers.idempotency_key is Some ==> headers@.idempotency_key->0
            == headers.idempotency_key->0@,
        MAX_REQUEST_BYTES == 1_048_576,
{
}

/// A fresh limiter knows nobody.
pub proof fn law_a_fresh_limiter_knows_nobody(limit: Limit, tenant: Seq<char>)
    ensures
        fresh_limiter(limit).limit == limit,
        !fresh_limiter(limit).knows(tenant),
{
}

/// An admission says exactly what was decided: the whole answer, or the tenant, the
/// partition, the deadline and the slot that a request runs under; and the gateway is
/// as the decision leaves it.
pub proof fn law_an_admission_says_what_was_decided(
    before: GatewayView,
    after: GatewayView,
    out: Admission,
    rate_now: u64,
    claim_now: u64,
    function_id: Seq<char>,
    h: HeadersView,
)
    requires
        admitted_at(before, after, out, rate_now, claim_now, function_id, h),
    ensures
        after == before.admits(rate_now, claim_now, function_id, h).0,
        match (out, before.admits(rate_now, claim_now, function_id, h).1) {
            (Admission::Answered(answer), Admits::Answered(view)) => answer@ == view,
            (
                Admission::Run(ticket),
                Admits::Run { tenant, partition, deadline_ms, slot },
            ) => ticket.tenant@ == tenant && ticket.deadline_ms == deadline_ms && ticket.slot()
                == slot && (ticket.partition is Some <==> partition is Some) && (partition is Some
                ==> ticket.partition->0@ == partition->0),
            _ => false,
        },
{
}

/// A deploy is admitted exactly as was decided.
pub proof fn law_a_deploy_is_admitted_as_decided(
    before: GatewayView,
    after: GatewayView,
    out: Result<String, Answer>,
    now: u64,
    h: HeadersView,
)
    requires
        deploy_admitted_at(before, after, out, now, h),
    ensures
        after == before.admits_deploy(now, h).0,
        out is Ok <==> before.admits_deploy(now, h).1 is Ok,
        out is Ok ==> out->Ok_0@ == before.admits_deploy(now, h).1->Ok_0,
        out is Err ==> out->Err_0@ == before.admits_deploy(now, h).1->Err_0,
{
}

/// A ticket holds a slot exactly when it carries a claim that the store keeps, and
/// then the claim's own.
pub proof fn law_a_ticket_holds_its_own_slot(ticket: Ticket)
    ensures
        ticket.slot() is Some <==> ticket.claim is Some && ticket.claim->0.keyed(),
        ticket.slot() is Some ==> ticket.slot()->0 == ticket.claim->0.slot(),
{
}

} // verus!

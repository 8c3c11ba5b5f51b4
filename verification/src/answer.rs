//! Finished answers, in a form that can be stored and replayed.
//!
//! Everything the caller sees is in an [`Answer`], so a replay is identical to
//! the original rather than a reconstruction of it.
use crate::header::all_sendable;
use crate::header::may_be_sent;
use crate::proto::text_of;
use crate::proto::Code;
use crate::proto::ExecuteResponse;
use crate::proto::ExecuteResponseView;
use crate::proto::Outcome;
use crate::proto::Status;
use crate::text::decimal;
use crate::text::decimal_text;
use crate::text::same;
use crate::trace::TraceContext;
use crate::trace::TRACE_ID_HEADER;
use vstd::prelude::*;
use vstd::slice::slice_to_vec;
use vstd::utf8::encode_utf8;

verus! {

/// Names the reason of a response that is no success. A status is shared by
/// several unrelated failures; a client branching on it cannot tell them apart.
pub const FAULT_HEADER: &'static str = "x-nebula-fault";

/// Optional per-request budget in milliseconds, and the effective value on the
/// way back.
pub const DEADLINE_HEADER: &'static str = "x-nebula-deadline-ms";

/// Set when a response came from the replay store rather than a fresh
/// execution.
pub const REPLAY_HEADER: &'static str = "x-nebula-idempotent-replay";

pub const COLD_HEADER: &'static str = "x-nebula-cold";

pub const MICROS_HEADER: &'static str = "x-nebula-exec-micros";

pub const RETRY_HEADER: &'static str = "retry-after";

pub const CHALLENGE_HEADER: &'static str = "www-authenticate";

/// What a stored answer costs beside its body, so that a flood of tiny answers
/// is still charged for something.
pub const ANSWER_OVERHEAD: usize = 128;

/// A finished answer.
pub struct Answer {
    pub status: u16,
    /// `None` on success; every failure names its cause.
    pub fault: Option<&'static str>,
    pub body: Vec<u8>,
    /// Informational headers, carried so that a replay reports the numbers the
    /// original did.
    pub cold: Option<bool>,
    pub exec_micros: Option<u64>,
    pub deadline_ms: Option<u32>,
    /// Set on a replay, so that a caller can tell one from a fresh execution.
    pub replayed: bool,
    /// The trace this request belonged to.
    pub trace_id: Option<String>,
    /// Whole seconds, when there is something more useful to say than one.
    pub retry_after: Option<u64>,
}

#[verifier::ext_equal]
pub struct AnswerView {
    pub status: u16,
    pub fault: Option<Seq<char>>,
    pub body: Seq<u8>,
    pub cold: Option<bool>,
    pub exec_micros: Option<u64>,
    pub deadline_ms: Option<u32>,
    pub replayed: bool,
    pub trace_id: Option<Seq<char>>,
    pub retry_after: Option<u64>,
}

pub open spec fn kind_of(fault: Option<&'static str>) -> Option<Seq<char>> {
    match fault {
        Some(kind) => Some(kind@),
        None => None,
    }
}

impl View for Answer {
    type V = AnswerView;

    open spec fn view(&self) -> AnswerView {
        AnswerView {
            status: self.status,
            fault: kind_of(self.fault),
            body: self.body@,
            cold: self.cold,
            exec_micros: self.exec_micros,
            deadline_ms: self.deadline_ms,
            replayed: self.replayed,
            trace_id: text_of(self.trace_id),
            retry_after: self.retry_after,
        }
    }
}

impl Clone for Answer {
    fn clone(&self) -> (out: Self)
        ensures
            out@ == self@,
    {
        let trace_id = match &self.trace_id {
            Some(id) => Some(id.clone()),
            None => None,
        };
        Answer {
            status: self.status,
            fault: self.fault,
            body: slice_to_vec(&self.body),
            cold: self.cold,
            exec_micros: self.exec_micros,
            deadline_ms: self.deadline_ms,
            replayed: self.replayed,
            trace_id,
            retry_after: self.retry_after,
        }
    }
}

/// A failure that names its own cause.
pub open spec fn faulted(status: u16, kind: Seq<char>, detail: Seq<char>) -> AnswerView {
    AnswerView {
        status,
        fault: Some(kind),
        body: encode_utf8(detail),
        cold: None,
        exec_micros: None,
        deadline_ms: None,
        replayed: false,
        trace_id: None,
        retry_after: None,
    }
}

pub fn fault(status: u16, kind: &'static str, detail: &str) -> (out: Answer)
    ensures
        out@ == faulted(status, kind@, detail@),
{
    Answer {
        status,
        fault: Some(kind),
        body: slice_to_vec(detail.as_bytes()),
        cold: None,
        exec_micros: None,
        deadline_ms: None,
        replayed: false,
        trace_id: None,
        retry_after: None,
    }
}

pub open spec fn limited(seconds: u64) -> AnswerView {
    AnswerView {
        retry_after: Some(
            if seconds < 1 {
                1
            } else {
                seconds
            },
        ),
        ..faulted(429, "rate_limited"@, "tenant rate limit exceeded"@)
    }
}

/// The caller is ahead of its own budget; the cluster is fine.
pub fn rate_limited(seconds: u64) -> (out: Answer)
    ensures
        out@ == limited(seconds),
{
    let mut out = fault(429, "rate_limited", "tenant rate limit exceeded");
    out.retry_after = Some(
        if seconds < 1 {
            1
        } else {
            seconds
        },
    );
    out
}

pub open spec fn spec_unauthorized() -> AnswerView {
    faulted(401, "unauthorized"@, "missing or malformed bearer token"@)
}

pub fn unauthorized() -> (out: Answer)
    ensures
        out@ == spec_unauthorized(),
{
    fault(401, "unauthorized", "missing or malformed bearer token")
}

/// The status and the kind of an execution's outcome.
pub open spec fn rendered(outcome: Outcome) -> (u16, Option<Seq<char>>) {
    match outcome {
        Outcome::Success => (200, None),
        Outcome::Trap => (500, Some("trap"@)),
        Outcome::Timeout => (504, Some("timeout"@)),
        Outcome::FuelExhausted => (504, Some("fuel_exhausted"@)),
        Outcome::MemoryLimit => (500, Some("memory_limit"@)),
        Outcome::ModuleNotFound => (404, Some("module_not_found"@)),
        Outcome::Internal => (500, Some("internal"@)),
    }
}

/// The body of an execution's outcome. Guest fault detail goes back to the
/// caller: it is their code. A failure of the host is opaque.
pub open spec fn told(outcome: Outcome, response: ExecuteResponseView) -> Seq<u8> {
    match outcome {
        Outcome::Success => response.body,
        Outcome::Internal => Seq::empty(),
        _ => encode_utf8(response.fault_detail),
    }
}

/// The answer to a request that a worker answered. The deadline is the effective
/// one.
pub open spec fn answered(response: ExecuteResponseView, deadline_ms: u32) -> AnswerView {
    let outcome = Outcome::spec_of_wire(response.outcome);
    let (status, fault) = rendered(outcome);
    AnswerView {
        status,
        fault,
        body: told(outcome, response),
        cold: Some(response.cold),
        exec_micros: Some(response.exec_micros),
        deadline_ms: Some(deadline_ms),
        replayed: false,
        trace_id: None,
        retry_after: None,
    }
}

pub fn to_http(response: ExecuteResponse, deadline_ms: u32) -> (out: Answer)
    ensures
        out@ == answered(response@, deadline_ms),
{
    let detail = slice_to_vec(response.fault_detail.as_str().as_bytes());
    let (status, fault, body): (u16, Option<&'static str>, Vec<u8>) = match Outcome::of_wire(
        response.outcome,
    ) {
        Outcome::Success => (200, None, response.body),
        Outcome::Trap => (500, Some("trap"), detail),
        Outcome::Timeout => (504, Some("timeout"), detail),
        Outcome::FuelExhausted => (504, Some("fuel_exhausted"), detail),
        Outcome::MemoryLimit => (500, Some("memory_limit"), detail),
        Outcome::ModuleNotFound => (404, Some("module_not_found"), detail),
        Outcome::Internal => (500, Some("internal"), Vec::new()),
    };
    Answer {
        status,
        fault,
        body,
        cold: Some(response.cold),
        exec_micros: Some(response.exec_micros),
        deadline_ms: Some(deadline_ms),
        replayed: false,
        trace_id: None,
        retry_after: None,
    }
}

/// The answer to a request whose call failed once it was sent.
pub open spec fn failed(status: Status) -> AnswerView {
    match status.code {
        Code::ResourceExhausted => faulted(503, "worker_shed"@, "worker at capacity"@),
        Code::InvalidArgument => faulted(400, "invalid_request"@, status.message@),
        // It may have executed, so this is reported and not retried.
        Code::Unavailable | Code::Cancelled | Code::DeadlineExceeded => faulted(
            502,
            "worker_unreachable"@,
            "worker became unreachable mid-request; the call may or may not have run"@,
        ),
        _ => faulted(500, "dispatch_failed"@, "dispatch failed"@),
    }
}

pub fn from_status(status: &Status) -> (out: Answer)
    ensures
        out@ == failed(*status),
{
    match status.code {
        Code::ResourceExhausted => fault(503, "worker_shed", "worker at capacity"),
        Code::InvalidArgument => fault(400, "invalid_request", status.message.as_str()),
        Code::Unavailable | Code::Cancelled | Code::DeadlineExceeded => fault(
            502,
            "worker_unreachable",
            "worker became unreachable mid-request; the call may or may not have run",
        ),
        _ => fault(500, "dispatch_failed", "dispatch failed"),
    }
}

/// A header, if it is set.
pub open spec fn header_if(set: bool, name: Seq<char>, value: Seq<char>) -> Seq<
    (Seq<char>, Seq<char>),
> {
    if set {
        seq![(name, value)]
    } else {
        Seq::empty()
    }
}

impl AnswerView {
    /// Whether a retry with the same key should receive this verbatim. A
    /// completed execution is, whether it succeeded or the guest faulted; for
    /// anything else no answer exists, and storing it would pin a transient
    /// failure.
    pub open spec fn replayable(self) -> bool {
        match self.fault {
            None => true,
            Some(kind) => kind == "trap"@ || kind == "timeout"@ || kind == "fuel_exhausted"@ || kind
                == "memory_limit"@,
        }
    }

    /// What this costs the replay store.
    pub open spec fn weight(self) -> int {
        if self.body.len() + ANSWER_OVERHEAD <= usize::MAX {
            self.body.len() + ANSWER_OVERHEAD
        } else {
            usize::MAX as int
        }
    }

    pub open spec fn with_trace(self, trace_id: Seq<char>) -> AnswerView {
        AnswerView { trace_id: Some(trace_id), ..self }
    }

    /// When the caller should come back, if it is told: what the answer says,
    /// and a second for a service that is unavailable.
    pub open spec fn retry_text(self) -> Option<Seq<char>> {
        match self.retry_after {
            Some(seconds) => Some(decimal(seconds as nat)),
            None => if self.status == 503 {
                Some("1"@)
            } else {
                None
            },
        }
    }

    /// The headers of the response, each once.
    pub open spec fn headers(self) -> Seq<(Seq<char>, Seq<char>)> {
        header_if(self.fault is Some, FAULT_HEADER@, self.fault->0) + header_if(
            self.retry_text() is Some,
            RETRY_HEADER@,
            self.retry_text()->0,
        ) + header_if(self.status == 401, CHALLENGE_HEADER@, "Bearer"@) + header_if(
            self.cold is Some,
            COLD_HEADER@,
            if self.cold == Some(true) {
                "true"@
            } else {
                "false"@
            },
        ) + header_if(
            self.exec_micros is Some,
            MICROS_HEADER@,
            decimal(self.exec_micros->0 as nat),
        ) + header_if(
            self.deadline_ms is Some,
            DEADLINE_HEADER@,
            decimal(self.deadline_ms->0 as nat),
        ) + header_if(self.replayed, REPLAY_HEADER@, "true"@) + header_if(
            self.trace_id is Some && all_sendable(encode_utf8(self.trace_id->0)),
            TRACE_ID_HEADER@,
            self.trace_id->0,
        )
    }
}

/// Headers as the texts they are.
pub open spec fn header_views(list: Seq<(&'static str, String)>) -> Seq<(Seq<char>, Seq<char>)> {
    list.map_values(|h: (&'static str, String)| (h.0@, h.1@))
}

/// A response, ready to be sent.
pub struct HttpResponse {
    pub status: u16,
    pub headers: Vec<(&'static str, String)>,
    pub body: Vec<u8>,
}

fn set_header(list: &mut Vec<(&'static str, String)>, name: &'static str, value: String)
    ensures
        header_views(final(list)@) == header_views(old(list)@) + header_if(true, name@, value@),
{
    list.push((name, value));
    assert(header_views(list@) =~= header_views(old(list)@) + seq![(name@, value@)]);
}

impl Answer {
    /// Whether a retry with the same key should receive this verbatim.
    pub fn replayable(&self) -> (out: bool)
        ensures
            out == self@.replayable(),
    {
        match self.fault {
            None => true,
            Some(kind) => same(kind, "trap") || same(kind, "timeout") || same(
                kind,
                "fuel_exhausted",
            ) || same(kind, "memory_limit"),
        }
    }

    /// Stamps the current trace over whatever a replayed answer carried: the
    /// id belongs to this request, not to the one that produced the body.
    pub fn with_trace(self, trace: &TraceContext) -> (out: Self)
        ensures
            out@ == self@.with_trace(trace@.trace_id),
    {
        let mut out = self;
        out.trace_id = Some(trace.trace_id.clone());
        out
    }

    /// What this costs the replay store. The body dominates.
    pub fn weight(&self) -> (out: usize)
        ensures
            out == self@.weight(),
    {
        self.body.len().saturating_add(ANSWER_OVERHEAD)
    }

    /// The response to send.
    pub fn into_response(self) -> (out: HttpResponse)
        ensures
            out.status == self.status,
            out.body@ == self.body@,
            header_views(out.headers@) == self@.headers(),
    {
        let mut list: Vec<(&'static str, String)> = Vec::new();
        let ghost v = self@;
        let ghost empty = Seq::<(Seq<char>, Seq<char>)>::empty();
        assert(header_views(list@) =~= empty);
        if let Some(kind) = self.fault {
            set_header(&mut list, FAULT_HEADER, kind.to_owned());
        }
        let ghost h1 = header_if(v.fault is Some, FAULT_HEADER@, v.fault->0);
        assert(header_views(list@) =~= h1);
        match self.retry_after {
            Some(seconds) => {
                set_header(&mut list, RETRY_HEADER, decimal_text(seconds));
            },
            None => {
                if self.status == 503 {
                    set_header(&mut list, RETRY_HEADER, "1".to_owned());
                }
            },
        }
        let ghost h2 = h1 + header_if(v.retry_text() is Some, RETRY_HEADER@, v.retry_text()->0);
        assert(header_views(list@) =~= h2);
        if self.status == 401 {
            set_header(&mut list, CHALLENGE_HEADER, "Bearer".to_owned());
        }
        let ghost h3 = h2 + header_if(v.status == 401, CHALLENGE_HEADER@, "Bearer"@);
        assert(header_views(list@) =~= h3);
        if let Some(cold) = self.cold {
            set_header(
                &mut list,
                COLD_HEADER,
                (if cold {
                    "true"
                } else {
                    "false"
                }).to_owned(),
            );
        }
        let ghost h4 = h3 + header_if(
            v.cold is Some,
            COLD_HEADER@,
            if v.cold == Some(true) {
                "true"@
            } else {
                "false"@
            },
        );
        assert(header_views(list@) =~= h4);
        if let Some(micros) = self.exec_micros {
            set_header(&mut list, MICROS_HEADER, decimal_text(micros));
        }
        let ghost h5 = h4 + header_if(
            v.exec_micros is Some,
            MICROS_HEADER@,
            decimal(v.exec_micros->0 as nat),
        );
        assert(header_views(list@) =~= h5);
        if let Some(ms) = self.deadline_ms {
            set_header(&mut list, DEADLINE_HEADER, decimal_text(ms as u64));
        }
        let ghost h6 = h5 + header_if(
            v.deadline_ms is Some,
            DEADLINE_HEADER@,
            decimal(v.deadline_ms->0 as nat),
        );
        assert(header_views(list@) =~= h6);
        if self.replayed {
            set_header(&mut list, REPLAY_HEADER, "true".to_owned());
        }
        let ghost h7 = h6 + header_if(v.replayed, REPLAY_HEADER@, "true"@);
        assert(header_views(list@) =~= h7);
        if let Some(id) = &self.trace_id {
            if may_be_sent(id.as_str().as_bytes()) {
                set_header(&mut list, TRACE_ID_HEADER, id.clone());
            }
        }
        assert(header_views(list@) =~= v.headers());
        HttpResponse { status: self.status, headers: list, body: self.body }
    }
}

/// Every answer that is no success names its cause, and only those do.
pub proof fn law_every_failure_names_its_own_cause(
    response: ExecuteResponseView,
    deadline_ms: u32,
    status: Status,
    seconds: u64,
)
    ensures
        answered(response, deadline_ms).fault is None <==> answered(response, deadline_ms).status
            == 200,
        failed(status).fault is Some && failed(status).status != 200,
        limited(seconds).fault is Some,
        spec_unauthorized().fault is Some,
{
}

/// Whatever a worker says of a failure of its own, or under an outcome that is
/// not known, the client is told that it was internal and nothing more.
pub proof fn law_internal_failures_are_opaque(response: ExecuteResponseView, deadline_ms: u32)
    requires
        Outcome::spec_of_wire(response.outcome) == Outcome::Internal,
    ensures
        answered(response, deadline_ms).status == 500,
        answered(response, deadline_ms).fault == Some("internal"@),
        answered(response, deadline_ms).body == Seq::<u8>::empty(),
{
}

/// A completed execution can be replayed, and nothing else can: an answer that
/// only says that none exists is never stored.
pub proof fn law_only_completed_executions_replay(
    response: ExecuteResponseView,
    deadline_ms: u32,
    status: Status,
)
    ensures
        answered(response, deadline_ms).replayable() <==> {
            let outcome = Outcome::spec_of_wire(response.outcome);
            outcome != Outcome::ModuleNotFound && outcome != Outcome::Internal
        },
        !failed(status).replayable(),
        !limited(0).replayable(),
        !spec_unauthorized().replayable(),
{
    reveal_strlit("trap");
    reveal_strlit("timeout");
    reveal_strlit("fuel_exhausted");
    reveal_strlit("memory_limit");
    reveal_strlit("module_not_found");
    reveal_strlit("internal");
    reveal_strlit("worker_shed");
    reveal_strlit("invalid_request");
    reveal_strlit("worker_unreachable");
    reveal_strlit("dispatch_failed");
    reveal_strlit("rate_limited");
    reveal_strlit("unauthorized");
    assert("trap"@.len() == 4 && "timeout"@.len() == 7 && "fuel_exhausted"@.len() == 14
        && "memory_limit"@.len() == 12);
    assert("rate_limited"@[0] != "memory_limit"@[0]);
    assert("unauthorized"@[0] != "memory_limit"@[0]);
}

/// What a worker said of an execution is what the caller is told, by the number
/// that it put on the wire: all of the guest's output and nothing else under 200;
/// what went wrong in full for a fault of the guest, under the fault's own name;
/// and nothing of a failure of the host.
pub proof fn law_the_caller_gets_what_the_guest_produced(
    response: ExecuteResponseView,
    deadline_ms: u32,
)
    ensures
        ({
            let answer = answered(response, deadline_ms);
            let said = (answer.status, answer.fault, answer.body);
            let detail = encode_utf8(response.fault_detail);
            &&& response.outcome == 0 ==> said == (200u16, None::<Seq<char>>, response.body)
            &&& response.outcome == 1 ==> said == (500u16, Some("trap"@), detail)
            &&& response.outcome == 2 ==> said == (504u16, Some("timeout"@), detail)
            &&& response.outcome == 3 ==> said == (504u16, Some("fuel_exhausted"@), detail)
            &&& response.outcome == 4 ==> said == (500u16, Some("memory_limit"@), detail)
            &&& response.outcome == 5 ==> said == (404u16, Some("module_not_found"@), detail)
            &&& response.outcome < 0 || response.outcome > 5 ==> said == (
                500u16,
                Some("internal"@),
                Seq::<u8>::empty(),
            )
            &&& answer.cold == Some(response.cold)
            &&& answer.exec_micros == Some(response.exec_micros)
            &&& answer.deadline_ms == Some(deadline_ms)
            &&& !answer.replayed
            &&& answer.trace_id is None
            &&& answer.retry_after is None
        }),
{
}

/// Two executions that put out different things are answered differently.
pub proof fn law_no_output_is_lost(
    one: ExecuteResponseView,
    other: ExecuteResponseView,
    deadline_ms: u32,
)
    requires
        one.outcome == 0,
        other.outcome == 0,
        answered(one, deadline_ms).body == answered(other, deadline_ms).body,
    ensures
        one.body == other.body,
{
}

/// A call that failed is answered by its code: a worker that was full can be
/// asked again, a bad request is told what was wrong with it, one that may have
/// run is said to, and of anything else nothing is told.
pub proof fn law_a_failed_call_is_answered_by_its_code(status: Status)
    ensures
        ({
            let answer = failed(status);
            let said = (answer.status, answer.fault);
            &&& status.code == Code::ResourceExhausted ==> said == (503u16, Some("worker_shed"@))
            &&& status.code == Code::InvalidArgument ==> said == (400u16, Some("invalid_request"@))
                && answer.body == encode_utf8(status.message@)
            &&& status.code == Code::Unavailable || status.code == Code::Cancelled || status.code
                == Code::DeadlineExceeded ==> said == (502u16, Some("worker_unreachable"@))
            &&& status.code == Code::NotFound || status.code == Code::Internal || status.code
                == Code::Other ==> said == (500u16, Some("dispatch_failed"@)) && answer.body
                == encode_utf8("dispatch failed"@)
            &&& answer.cold is None && answer.exec_micros is None && answer.deadline_ms is None
            &&& !answer.replayed && answer.trace_id is None && answer.retry_after is None
        }),
{
}

/// A failure says its status, its kind and its detail, in full, and nothing of an
/// execution.
pub proof fn law_a_failure_carries_its_detail(status: u16, kind: Seq<char>, detail: Seq<char>)
    ensures
        ({
            let answer = faulted(status, kind, detail);
            &&& answer.status == status
            &&& answer.fault == Some(kind)
            &&& answer.body == encode_utf8(detail)
            &&& answer.cold is None && answer.exec_micros is None && answer.deadline_ms is None
            &&& !answer.replayed && answer.trace_id is None && answer.retry_after is None
        }),
{
}

/// Whoever is over a limit is told to come back after as long as was asked for,
/// and after a second at least.
pub proof fn law_a_limited_caller_is_told_when_to_return(seconds: u64)
    ensures
        limited(seconds).status == 429,
        limited(seconds).fault == Some("rate_limited"@),
        limited(seconds).retry_after == Some(
            if seconds == 0 {
                1u64
            } else {
                seconds
            },
        ),
{
}

/// The trace of a request is stamped over any other, and nothing else of the
/// answer changes.
pub proof fn law_a_trace_replaces_only_a_trace(answer: AnswerView, trace_id: Seq<char>)
    ensures
        ({
            let stamped = answer.with_trace(trace_id);
            &&& stamped.trace_id == Some(trace_id)
            &&& stamped.status == answer.status && stamped.fault == answer.fault
            &&& stamped.body == answer.body && stamped.cold == answer.cold
            &&& stamped.exec_micros == answer.exec_micros
            &&& stamped.deadline_ms == answer.deadline_ms
            &&& stamped.replayed == answer.replayed
            &&& stamped.retry_after == answer.retry_after
        }),
{
}

/// An answer costs the store its body and a hundred and twenty-eight bytes more.
pub proof fn law_an_answer_weighs_its_body(answer: AnswerView)
    requires
        answer.body.len() + 128 <= usize::MAX,
    ensures
        answer.weight() == answer.body.len() + 128,
{
}

/// The headers of a response are these and no others, each once: what failed,
/// when to come back, who may answer a challenge, what the execution cost, that
/// it was replayed, and its trace.
#[verifier::rlimit(40)]
pub proof fn law_a_response_has_these_headers(answer: AnswerView, header: (Seq<char>, Seq<char>))
    ensures
        answer.headers().contains(header) <==> {
            ||| answer.fault == Some(header.1) && header.0 == "x-nebula-fault"@
            ||| header.0 == "retry-after"@ && (match answer.retry_after {
                Some(seconds) => header.1 == decimal(seconds as nat),
                None => answer.status == 503 && header.1 == "1"@,
            })
            ||| header.0 == "www-authenticate"@ && header.1 == "Bearer"@ && answer.status == 401
            ||| header.0 == "x-nebula-cold"@ && header.1 == "true"@ && answer.cold == Some(true)
            ||| header.0 == "x-nebula-cold"@ && header.1 == "false"@ && answer.cold == Some(false)
            ||| header.0 == "x-nebula-exec-micros"@ && answer.exec_micros is Some && header.1
                == decimal(answer.exec_micros->0 as nat)
            ||| header.0 == "x-nebula-deadline-ms"@ && answer.deadline_ms is Some && header.1
                == decimal(answer.deadline_ms->0 as nat)
            ||| header.0 == "x-nebula-idempotent-replay"@ && header.1 == "true"@ && answer.replayed
            ||| header.0 == "x-nebula-trace-id"@ && answer.trace_id == Some(header.1)
                && all_sendable(encode_utf8(header.1))
        },
        answer.headers().len() <= 8,
{
    let fault = header_if(answer.fault is Some, FAULT_HEADER@, answer.fault->0);
    let retry = header_if(answer.retry_text() is Some, RETRY_HEADER@, answer.retry_text()->0);
    let challenge = header_if(answer.status == 401, CHALLENGE_HEADER@, "Bearer"@);
    let cold = header_if(
        answer.cold is Some,
        COLD_HEADER@,
        if answer.cold == Some(true) {
            "true"@
        } else {
            "false"@
        },
    );
    let micros = header_if(
        answer.exec_micros is Some,
        MICROS_HEADER@,
        decimal(answer.exec_micros->0 as nat),
    );
    let deadline = header_if(
        answer.deadline_ms is Some,
        DEADLINE_HEADER@,
        decimal(answer.deadline_ms->0 as nat),
    );
    let replay = header_if(answer.replayed, REPLAY_HEADER@, "true"@);
    let trace = header_if(
        answer.trace_id is Some && all_sendable(encode_utf8(answer.trace_id->0)),
        TRACE_ID_HEADER@,
        answer.trace_id->0,
    );
    lemma_header_if(fault + retry + challenge + cold + micros + deadline + replay, trace, header);
    lemma_header_if(fault + retry + challenge + cold + micros + deadline, replay, header);
    lemma_header_if(fault + retry + challenge + cold + micros, deadline, header);
    lemma_header_if(fault + retry + challenge + cold, micros, header);
    lemma_header_if(fault + retry + challenge, cold, header);
    lemma_header_if(fault + retry, challenge, header);
    lemma_header_if(fault, retry, header);
    lemma_header_if(Seq::empty(), fault, header);
    assert(Seq::empty() + fault =~= fault);
    assert(!Seq::<(Seq<char>, Seq<char>)>::empty().contains(header));
    let (name, value) = header;
    assert(header == (name, value));
    assert(answer.headers() == fault + retry + challenge + cold + micros + deadline + replay + trace);
    assert((fault.len() == 1 && fault[0] == header) <==> answer.fault == Some(value) && name
        == "x-nebula-fault"@);
    assert((retry.len() == 1 && retry[0] == header) <==> name == "retry-after"@ && (
    match answer.retry_after {
        Some(seconds) => value == decimal(seconds as nat),
        None => answer.status == 503 && value == "1"@,
    }));
    assert((challenge.len() == 1 && challenge[0] == header) <==> name == "www-authenticate"@ && value
        == "Bearer"@ && answer.status == 401);
    match answer.cold {
        Some(true) => {},
        Some(false) => {
            assert(answer.cold != Some(true));
        },
        None => {},
    }
    assert((cold.len() == 1 && cold[0] == header) <==> name == "x-nebula-cold"@ && ((value == "true"@
        && answer.cold == Some(true)) || (value == "false"@ && answer.cold == Some(false))));
    assert((trace.len() == 1 && trace[0] == header) <==> name == "x-nebula-trace-id"@
        && answer.trace_id == Some(value) && all_sendable(encode_utf8(value)));
}

proof fn lemma_header_if(
    list: Seq<(Seq<char>, Seq<char>)>,
    more: Seq<(Seq<char>, Seq<char>)>,
    header: (Seq<char>, Seq<char>),
)
    requires
        more.len() <= 1,
    ensures
        (list + more).contains(header) <==> list.contains(header) || (more.len() == 1 && more[0]
            == header),
{
    let all = list + more;
    if all.contains(header) {
        let i = all.index_of(header);
        if i < list.len() {
            assert(list[i] == header);
        } else {
            assert(more[i - list.len()] == header);
        }
    }
    if list.contains(header) {
        let i = list.index_of(header);
        assert(all[i] == header);
    }
    if more.len() == 1 && more[0] == header {
        assert(all[list.len() as int] == header);
    }
}

/// An answer is seen whole: nothing that it carries is left out of its view.
pub proof fn law_an_answer_is_seen_whole(answer: Answer)
    ensures
        answer@.status == answer.status,
        answer.fault is Some <==> answer@.fault is Some,
        answer.fault is Some ==> answer@.fault->0 == answer.fault->0@,
        answer@.body == answer.body@,
        answer@.cold == answer.cold && answer@.exec_micros == answer.exec_micros,
        answer@.deadline_ms == answer.deadline_ms && answer@.replayed == answer.replayed,
        answer.trace_id is Some <==> answer@.trace_id is Some,
        answer.trace_id is Some ==> answer@.trace_id->0 == answer.trace_id->0@,
        answer@.retry_after == answer.retry_after,
{
}

/// Headers are seen whole, each in its place.
pub proof fn law_headers_are_seen_whole(list: Seq<(&'static str, String)>, i: int)
    requires
        0 <= i < list.len(),
    ensures
        header_views(list).len() == list.len(),
        header_views(list)[i] == (list[i].0@, list[i].1@),
{
}

} // verus!

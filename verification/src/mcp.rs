//! The tool server's side of the Model Context Protocol: what a call asks of
//! the gateway, and what a model is told of the reply.
use crate::proto::text_of;
use crate::text::chars_of;
use crate::text::copy_range;
use crate::text::decimal;
use crate::text::decimal_text;
use crate::text::find;
use crate::text::first_of;
use crate::text::is_white_space;
use crate::text::is_white_space_char;
use crate::text::lemma_first_of;
use crate::text::lossy;
use crate::text::lossy_text;
use crate::text::lower_chars;
use crate::text::parse_number;
use crate::text::parse_unsigned;
use crate::text::same;
use crate::text::split;
use crate::text::split_chars;
use crate::text::string_of;
use crate::text::to_lower;
use crate::text::trim;
use crate::text::trim_chars;
use crate::text::trim_end;
use crate::text::trim_end_chars;
use crate::text::trim_start;
use crate::text::trimmed;
use crate::text::views;
use crate::trace::parsed;
use vstd::prelude::*;
use vstd::slice::slice_subrange;
use vstd::slice::slice_to_vec;
use vstd::string::StringExecFns;

verus! {

/// The revision this server implements.
pub const PROTOCOL_VERSION: &'static str = "2025-06-18";

pub const TOOL_NAME: &'static str = "run_javascript";

/// The budget of a tool call that asks for none, in milliseconds: a web
/// handler's would starve an agent.
pub const DEFAULT_TIMEOUT_MS: u32 = 1_000;

pub const MIN_TIMEOUT_MS: u32 = 10;

pub const MAX_TIMEOUT_MS: u32 = 5_000;

pub const PARSE_ERROR: i32 = -32700;

pub const METHOD_NOT_FOUND: i32 = -32601;

pub const INVALID_PARAMS: i32 = -32602;

/// Set by the gateway on every failure.
pub const FAULT_HEADER: &'static str = "x-nebula-fault";

/// Read by the gateway, and echoed back with the budget that was applied.
pub const DEADLINE_HEADER: &'static str = "x-nebula-deadline-ms";

pub const TRACEPARENT_HEADER: &'static str = "traceparent";

pub const RETRY_HEADER: &'static str = "retry-after";

/// What the gateway replied.
pub struct Reply {
    pub status: u16,
    /// The fault it named, absent on success.
    pub fault: Option<String>,
    /// The whole seconds to wait, if it said so.
    pub retry_after: Option<u64>,
    pub body: Vec<u8>,
}

pub struct ReplyView {
    pub status: u16,
    pub fault: Option<Seq<char>>,
    pub retry_after: Option<u64>,
    pub body: Seq<u8>,
}

impl View for Reply {
    type V = ReplyView;

    open spec fn view(&self) -> ReplyView {
        ReplyView {
            status: self.status,
            fault: text_of(self.fault),
            retry_after: self.retry_after,
            body: self.body@,
        }
    }
}

impl ReplyView {
    pub open spec fn text(self) -> Seq<char> {
        trim_end(lossy_text(self.body))
    }

    pub open spec fn kind(self) -> Seq<char> {
        match self.fault {
            Some(kind) => kind,
            None => "unknown"@,
        }
    }
}

impl Reply {
    pub fn text(&self) -> (out: String)
        ensures
            out@ == self@.text(),
    {
        let text = lossy(&self.body);
        let chars = chars_of(text.as_str());
        string_of(&trim_end_chars(&chars))
    }

    /// The fault name, or `unknown` when a failure arrived without one, which
    /// would mean that something other than the gateway answered.
    pub fn fault_or_unknown(&self) -> (out: &str)
        ensures
            out@ == self@.kind(),
    {
        match &self.fault {
            Some(kind) => kind.as_str(),
            None => "unknown",
        }
    }
}

/// What was wrong with a reply.
#[derive(Clone, Copy, PartialEq, Eq, Structural, Debug)]
pub enum BadReply {
    NoHeaderTerminator,
    NoStatusLine,
}

impl BadReply {
    pub open spec fn spec_message(self) -> Seq<char> {
        match self {
            BadReply::NoHeaderTerminator => "no header terminator"@,
            BadReply::NoStatusLine => "no status line"@,
        }
    }

    pub fn message(self) -> (out: &'static str)
        ensures
            out@ == self.spec_message(),
    {
        match self {
            BadReply::NoHeaderTerminator => "no header terminator",
            BadReply::NoStatusLine => "no status line",
        }
    }
}

/// Whether a blank line ends the headers at `at`.
pub open spec fn ends_head(raw: Seq<u8>, at: int) -> bool {
    0 <= at && at + 4 <= raw.len() && raw[at] == 13 && raw[at + 1] == 10 && raw[at + 2] == 13
        && raw[at + 3] == 10
}

/// Where the headers end, looking from `from` on.
pub open spec fn head_end(raw: Seq<u8>, from: int) -> Option<int>
    decreases raw.len() - from,
{
    if from < 0 || from >= raw.len() {
        None
    } else if ends_head(raw, from) {
        Some(from)
    } else {
        head_end(raw, from + 1)
    }
}

/// Where the first word of `s` ends, `s` not starting with white space.
pub open spec fn word_end(s: Seq<char>) -> int
    decreases s.len(),
{
    if s.len() == 0 || is_white_space(s[0]) {
        0
    } else {
        1 + word_end(s.drop_first())
    }
}

/// The second word of a line.
pub open spec fn second_word(s: Seq<char>) -> Option<Seq<char>> {
    let first = trim_start(s);
    let second = trim_start(first.skip(word_end(first)));
    if second.len() == 0 {
        None
    } else {
        Some(second.take(word_end(second)))
    }
}

/// The value under `name` in one header line.
pub open spec fn value_in(line: Seq<char>, name: Seq<char>) -> Option<Seq<char>> {
    let colon = first_of(line, ':');
    if colon < line.len() && to_lower(trim(line.take(colon))) == name {
        Some(trim(line.skip(colon + 1)))
    } else {
        None
    }
}

/// The value under `name` in a head: the last line that has one.
pub open spec fn header_in(lines: Seq<Seq<char>>, name: Seq<char>) -> Option<Seq<char>>
    decreases lines.len(),
{
    if lines.len() == 0 {
        None
    } else {
        match value_in(lines.last(), name) {
            Some(value) => Some(value),
            None => header_in(lines.drop_last(), name),
        }
    }
}

/// The status that a status line gives.
pub open spec fn status_in(line: Seq<char>) -> Option<u16> {
    match second_word(line) {
        Some(word) => match parse_unsigned(word, u16::MAX as nat) {
            Some(code) => Some(code as u16),
            None => None,
        },
        None => None,
    }
}

/// The seconds that a header value gives.
pub open spec fn seconds_in(value: Option<Seq<char>>) -> Option<u64> {
    match value {
        Some(value) => match parse_unsigned(value, u64::MAX as nat) {
            Some(seconds) => Some(seconds as u64),
            None => None,
        },
        None => None,
    }
}

/// What a head says, its body aside.
pub open spec fn head_says(head: Seq<char>, body: Seq<u8>) -> Result<ReplyView, BadReply> {
    let lines = split(head, '\n');
    match status_in(lines[0]) {
        None => Err(BadReply::NoStatusLine),
        Some(status) => Ok(
            ReplyView {
                status,
                fault: header_in(lines.drop_first(), FAULT_HEADER@),
                retry_after: seconds_in(header_in(lines.drop_first(), RETRY_HEADER@)),
                body,
            },
        ),
    }
}

/// What a whole response says.
pub open spec fn reply_in(raw: Seq<u8>) -> Result<ReplyView, BadReply> {
    match head_end(raw, 0) {
        None => Err(BadReply::NoHeaderTerminator),
        Some(at) => head_says(lossy_text(raw.take(at)), raw.skip(at + 4)),
    }
}

fn trim_start_at(chars: &[char], from: usize) -> (at: usize)
    requires
        from <= chars@.len(),
    ensures
        from <= at <= chars@.len(),
        chars@.skip(at as int) == trim_start(chars@.skip(from as int)),
{
    let mut at: usize = from;
    while at < chars.len() && is_white_space_char(chars[at])
        invariant
            from <= at <= chars@.len(),
            trim_start(chars@.skip(at as int)) == trim_start(chars@.skip(from as int)),
        decreases chars@.len() - at,
    {
        assert(chars@.skip(at as int).drop_first() =~= chars@.skip(at as int + 1));
        at += 1;
    }
    at
}

fn word_end_at(chars: &[char], from: usize) -> (at: usize)
    requires
        from <= chars@.len(),
    ensures
        from <= at <= chars@.len(),
        at - from == word_end(chars@.skip(from as int)),
{
    let mut at: usize = from;
    while at < chars.len() && !is_white_space_char(chars[at])
        invariant
            from <= at <= chars@.len(),
            at - from + word_end(chars@.skip(at as int)) == word_end(chars@.skip(from as int)),
        decreases chars@.len() - at,
    {
        assert(chars@.skip(at as int).drop_first() =~= chars@.skip(at as int + 1));
        at += 1;
    }
    at
}

fn status_of(line: &[char]) -> (out: Option<u16>)
    ensures
        out == status_in(line@),
{
    assert(line@.skip(0) =~= line@);
    let a: usize = trim_start_at(line, 0);
    let b: usize = word_end_at(line, a);
    assert(line@.skip(a as int).skip(b - a) =~= line@.skip(b as int));
    let c: usize = trim_start_at(line, b);
    if c == line.len() {
        return None;
    }
    let d: usize = word_end_at(line, c);
    let word = copy_range(line, c, d);
    assert(word@ =~= line@.skip(c as int).take(d - c));
    match parse_number(&word, u16::MAX as u64) {
        Some(code) => Some(code as u16),
        None => None,
    }
}

fn value_of(line: &[char], name: &str) -> (out: Option<String>)
    ensures
        text_of(out) == value_in(line@, name@),
{
    let colon: usize = find(line, ':');
    let size: usize = line.len();
    proof {
        lemma_first_of(line@, ':');
    }
    if colon == size {
        return None;
    }
    let left = copy_range(line, 0, colon);
    assert(left@ =~= line@.take(colon as int));
    let left = lower_chars(&trim_chars(&left));
    if !same(string_of(&left).as_str(), name) {
        return None;
    }
    let right = copy_range(line, colon + 1, size);
    assert(right@ =~= line@.skip(colon + 1));
    Some(string_of(&trim_chars(&right)))
}

/// The last value under `name`, from the second line on.
fn header_of(lines: &Vec<Vec<char>>, name: &str) -> (out: Option<String>)
    requires
        lines@.len() >= 1,
    ensures
        text_of(out) == header_in(views(lines@).drop_first(), name@),
{
    let ghost all = views(lines@).drop_first();
    let mut i: usize = lines.len();
    assert(all.take(all.len() as int) =~= all);
    while i > 1
        invariant
            1 <= i <= lines@.len(),
            all == views(lines@).drop_first(),
            all.len() == lines@.len() - 1,
            header_in(all.take(i - 1), name@) == header_in(all, name@),
        decreases i,
    {
        i -= 1;
        proof {
            let now = all.take(i as int);
            assert(now.last() == lines@[i as int]@);
            assert(now.drop_last() =~= all.take(i - 1));
        }
        let value = value_of(&lines[i], name);
        if value.is_some() {
            return value;
        }
    }
    None
}

fn read_head(head: &str, body: Vec<u8>) -> (out: Result<Reply, BadReply>)
    ensures
        match (head_says(head@, body@), out) {
            (Ok(view), Ok(reply)) => reply@ == view,
            (Err(why), Err(said)) => said == why,
            _ => false,
        },
{
    let chars = chars_of(head);
    let lines = split_chars(&chars, '\n');
    assert(views(lines@)[0] == lines@[0]@);
    let status: u16 = match status_of(&lines[0]) {
        Some(status) => status,
        None => {
            return Err(BadReply::NoStatusLine);
        },
    };
    let fault = header_of(&lines, FAULT_HEADER);
    let retry_after: Option<u64> = match header_of(&lines, RETRY_HEADER) {
        Some(value) => {
            let digits = chars_of(value.as_str());
            parse_number(&digits, u64::MAX)
        },
        None => None,
    };
    Ok(Reply { status, fault, retry_after, body })
}

/// Reads a whole response: every request asks for the connection to be closed,
/// so the end of the stream is the end of the body.
pub fn parse(raw: &[u8]) -> (out: Result<Reply, BadReply>)
    ensures
        match (reply_in(raw@), out) {
            (Ok(view), Ok(reply)) => reply@ == view,
            (Err(why), Err(said)) => said == why,
            _ => false,
        },
{
    let size: usize = raw.len();
    let mut at: usize = 0;
    let mut found: Option<usize> = None;
    while at < size
        invariant_except_break
            found is None,
            head_end(raw@, at as int) == head_end(raw@, 0),
        invariant
            at <= size,
            size == raw@.len(),
        ensures
            match found {
                Some(end) => end + 4 <= size && head_end(raw@, 0) == Some(end as int),
                None => head_end(raw@, 0) is None,
            },
        decreases size - at,
    {
        if size - at >= 4 && raw[at] == 13 && raw[at + 1] == 10 && raw[at + 2] == 13 && raw[at + 3]
            == 10 {
            found = Some(at);
            break;
        }
        at += 1;
    }
    match found {
        None => Err(BadReply::NoHeaderTerminator),
        Some(end) => {
            let head_bytes = slice_subrange(raw, 0, end);
            assert(head_bytes@ =~= raw@.take(end as int));
            let head = lossy(head_bytes);
            let body = slice_to_vec(slice_subrange(raw, end + 4, size));
            assert(body@ =~= raw@.skip(end + 4));
            read_head(head.as_str(), body)
        },
    }
}

/// The trace to forward: one that has the shape of a `traceparent`, and nothing
/// else, because it goes into a request that is written by hand.
pub open spec fn forwarded(traceparent: Option<Seq<char>>) -> Option<Seq<char>> {
    match traceparent {
        Some(raw) => if parsed(raw) is Some {
            Some(trim(raw))
        } else {
            None
        },
        None => None,
    }
}

/// The head of a request to the gateway.
pub open spec fn request_head(
    function_id: Seq<char>,
    token: Seq<char>,
    length: nat,
    deadline_ms: u32,
    traceparent: Option<Seq<char>>,
) -> Seq<char> {
    "POST /execute/"@ + function_id
        + " HTTP/1.1\r\nHost: nebula\r\nConnection: close\r\nAuthorization: Bearer "@ + token
        + "\r\nContent-Type: application/octet-stream\r\nContent-Length: "@ + decimal(length)
        + "\r\nx-nebula-deadline-ms: "@ + decimal(deadline_ms as nat) + "\r\n"@ + (
    match forwarded(traceparent) {
        Some(trace) => "traceparent: "@ + trace + "\r\n"@,
        None => Seq::empty(),
    }) + "\r\n"@
}

/// Where to reach the cluster, as whom, and under which id the interpreter is
/// deployed.
pub struct Server {
    pub address: String,
    pub token: String,
    pub function_id: String,
}

impl Server {
    pub fn new(address: &str, token: &str, function_id: &str) -> (out: Self)
        ensures
            out.address@ == address@,
            out.token@ == token@,
            out.function_id@ == function_id@,
    {
        Server {
            address: address.to_owned(),
            token: token.to_owned(),
            function_id: function_id.to_owned(),
        }
    }

    /// The head of the request that runs a script.
    pub fn head(&self, deadline_ms: u32, traceparent: Option<&str>, body: &[u8]) -> (out: String)
        ensures
            out@ == request_head(
                self.function_id@,
                self.token@,
                body@.len(),
                deadline_ms,
                match traceparent {
                    Some(raw) => Some(raw@),
                    None => None,
                },
            ),
    {
        let mut out = String::from_str("POST /execute/");
        out.append(self.function_id.as_str());
        out.append(" HTTP/1.1\r\nHost: nebula\r\nConnection: close\r\nAuthorization: Bearer ");
        out.append(self.token.as_str());
        out.append("\r\nContent-Type: application/octet-stream\r\nContent-Length: ");
        out.append(decimal_text(body.len() as u64).as_str());
        out.append("\r\nx-nebula-deadline-ms: ");
        out.append(decimal_text(deadline_ms as u64).as_str());
        out.append("\r\n");
        let ghost start = out@;
        match traceparent {
            Some(raw) => {
                if crate::trace::parse(raw).is_some() {
                    out.append("traceparent: ");
                    out.append(trimmed(raw).as_str());
                    out.append("\r\n");
                    assert(out@ =~= start + ("traceparent: "@ + trim(raw@) + "\r\n"@));
                } else {
                    assert(out@ =~= start + Seq::<char>::empty());
                }
            },
            None => {
                assert(out@ =~= start + Seq::<char>::empty());
            },
        }
        out.append("\r\n");
        out
    }
}

/// A mistake at the protocol level.
pub struct RpcError {
    pub code: i32,
    pub message: String,
}

/// What a protocol method asks for.
#[derive(Clone, Copy, PartialEq, Eq, Structural, Debug)]
pub enum Method {
    Initialize,
    Ping,
    ListTools,
    CallTool,
}

pub open spec fn method_in(name: Seq<char>) -> Option<Method> {
    if name == "initialize"@ {
        Some(Method::Initialize)
    } else if name == "ping"@ {
        Some(Method::Ping)
    } else if name == "tools/list"@ {
        Some(Method::ListTools)
    } else if name == "tools/call"@ {
        Some(Method::CallTool)
    } else {
        None
    }
}

/// How a message is handled.
pub enum Handling {
    /// A notification: acknowledged, and not answered.
    Acknowledge,
    Answer(Method),
    Reject(RpcError),
}

/// Decides how a message is handled. One without an id is a notification,
/// whatever it says.
pub fn handle(has_id: bool, method: &str) -> (out: Handling)
    ensures
        match out {
            Handling::Acknowledge => !has_id,
            Handling::Answer(said) => has_id && method_in(method@) == Some(said),
            Handling::Reject(error) => has_id && method_in(method@) is None && error.code
                == METHOD_NOT_FOUND && error.message@ == "unknown method `"@ + method@ + "`"@,
        },
{
    if !has_id {
        return Handling::Acknowledge;
    }
    if same(method, "initialize") {
        Handling::Answer(Method::Initialize)
    } else if same(method, "ping") {
        Handling::Answer(Method::Ping)
    } else if same(method, "tools/list") {
        Handling::Answer(Method::ListTools)
    } else if same(method, "tools/call") {
        Handling::Answer(Method::CallTool)
    } else {
        let mut message = String::from_str("unknown method `");
        message.append(method);
        message.append("`");
        Handling::Reject(RpcError { code: METHOD_NOT_FOUND, message })
    }
}

/// The answer to a message that could not be read.
pub fn unreadable() -> (out: RpcError)
    ensures
        out.code == PARSE_ERROR,
        out.message@ == "request is not valid JSON-RPC"@,
{
    RpcError { code: PARSE_ERROR, message: String::from_str("request is not valid JSON-RPC") }
}

/// The parameters of a tool call that matter: each where it is there and of its
/// type.
pub struct Params {
    pub name: Option<String>,
    pub source: Option<String>,
    pub timeout_ms: Option<u64>,
}

/// The budget of a call, within its bounds.
pub open spec fn timeout_in(asked: Option<u64>) -> u32 {
    match asked {
        Some(ms) => if ms < MIN_TIMEOUT_MS {
            MIN_TIMEOUT_MS
        } else if ms > MAX_TIMEOUT_MS {
            MAX_TIMEOUT_MS
        } else {
            ms as u32
        },
        None => DEFAULT_TIMEOUT_MS,
    }
}

/// Why a tool call is refused before it reaches the cluster.
pub open spec fn refusal(params: Params) -> Option<Seq<char>> {
    let name = match params.name {
        Some(name) => name@,
        None => Seq::empty(),
    };
    if name != TOOL_NAME@ {
        Some("unknown tool `"@ + name + "`"@)
    } else if params.source is None {
        Some("`source` is required and must be a string"@)
    } else {
        None
    }
}

/// A tool call that goes to the cluster.
pub struct Call {
    pub source: String,
    pub timeout_ms: u32,
}

/// Reads the parameters of a tool call.
pub fn call_tool(params: Params) -> (out: Result<Call, RpcError>)
    ensures
        match (refusal(params), out) {
            (None, Ok(call)) => Some(call.source@) == text_of(params.source) && call.timeout_ms
                == timeout_in(params.timeout_ms),
            (Some(why), Err(error)) => error.code == INVALID_PARAMS && error.message@ == why,
            _ => false,
        },
{
    let name = match params.name {
        Some(name) => name,
        None => {
            let empty = String::new();
            assert(empty@ =~= Seq::<char>::empty());
            empty
        },
    };
    if !same(name.as_str(), TOOL_NAME) {
        let mut message = String::from_str("unknown tool `");
        message.append(name.as_str());
        message.append("`");
        return Err(RpcError { code: INVALID_PARAMS, message });
    }
    let source = match params.source {
        Some(source) => source,
        None => {
            return Err(
                RpcError {
                    code: INVALID_PARAMS,
                    message: String::from_str("`source` is required and must be a string"),
                },
            );
        },
    };
    let timeout_ms: u32 = match params.timeout_ms {
        Some(ms) => if ms < MIN_TIMEOUT_MS as u64 {
            MIN_TIMEOUT_MS
        } else if ms > MAX_TIMEOUT_MS as u64 {
            MAX_TIMEOUT_MS
        } else {
            ms as u32
        },
        None => DEFAULT_TIMEOUT_MS,
    };
    Ok(Call { source, timeout_ms })
}

/// What a model is told.
pub struct ToolResult {
    pub text: String,
    /// A failed script is content that a model can read and correct, so it is a
    /// success of the protocol.
    pub is_error: bool,
}

/// What a model is told when the gateway could not be reached.
pub fn unreachable(why: &str) -> (out: ToolResult)
    ensures
        out.is_error,
        out.text@ == "Nebula is unreachable from this MCP server: "@ + why
            @ + ". The script did not run."@,
{
    let mut text = String::from_str("Nebula is unreachable from this MCP server: ");
    text.append(why);
    text.append(". The script did not run.");
    ToolResult { text, is_error: true }
}

/// How long to wait, in words.
pub open spec fn wait_words(retry_after: Option<u64>) -> Seq<char> {
    match retry_after {
        Some(1) => "a second"@,
        Some(seconds) => decimal(seconds as nat) + " seconds"@,
        None => "a moment"@,
    }
}

/// Turns a fault into something a model can act on. The distinction that
/// matters most is whether to retry, and the wording says so in each case.
pub open spec fn explained(reply: ReplyView, timeout_ms: u32, function_id: Seq<char>) -> Seq<char> {
    let detail = reply.text();
    let kind = reply.kind();
    if kind == "timeout"@ || kind == "fuel_exhausted"@ {
        "The script ran longer than its "@ + decimal(timeout_ms as nat)
            + " ms budget and was stopped. Do less work, or pass a larger `timeout_ms` (up to "@
            + decimal(MAX_TIMEOUT_MS as nat) + ")."@
    } else if kind == "memory_limit"@ {
        "The script exceeded the sandbox's memory ceiling and was stopped. Process the data in smaller pieces."@
    } else if kind == "trap"@ {
        "The sandbox aborted the script: "@ + detail
            + ". This is a fault in the interpreter rather than an ordinary exception — an uncaught JavaScript error would have come back as normal output."@
    } else if kind == "unknown_function"@ || kind == "module_not_found"@ {
        "The JavaScript interpreter is not deployed on this Nebula cluster under `"@ + function_id
            + "`. This is a configuration problem on the server side; retrying will not help."@
    } else if kind == "unauthorized"@ {
        "This MCP server's credentials were rejected by Nebula. This is a configuration problem on the server side; retrying will not help."@
    } else if kind == "worker_unreachable"@ {
        "The connection to the sandbox dropped after the script was sent. It may or may not have run. Retry only if running it twice is safe."@
    } else if kind == "rate_limited"@ {
        "This tool is being called faster than its rate limit allows. Nothing ran.              Wait "@
            + wait_words(reply.retry_after)
            + " before calling it again, and avoid retrying in a tight loop."@
    } else if kind == "no_healthy_worker"@ || kind == "no_reachable_worker"@ || kind
        == "cluster_at_capacity"@ || kind == "worker_shed"@ {
        "Nebula has no capacity to run the script right now. Nothing ran. Retrying in a moment is reasonable."@
    } else {
        "Nebula refused the call ("@ + kind + ", HTTP "@ + decimal(reply.status as nat) + ")"@ + (
        if detail.len() == 0 {
            Seq::empty()
        } else {
            ": "@ + detail
        })
    }
}

fn wait_text(retry_after: Option<u64>) -> (out: String)
    ensures
        out@ == wait_words(retry_after),
{
    match retry_after {
        Some(seconds) => {
            if seconds == 1 {
                String::from_str("a second")
            } else {
                let mut out = decimal_text(seconds);
                out.append(" seconds");
                out
            }
        },
        None => String::from_str("a moment"),
    }
}

/// Explains a reply that is no success.
pub fn explain(reply: &Reply, timeout_ms: u32, function_id: &str) -> (out: String)
    ensures
        out@ == explained(reply@, timeout_ms, function_id@),
{
    let detail = reply.text();
    let kind = reply.fault_or_unknown();
    if same(kind, "timeout") || same(kind, "fuel_exhausted") {
        let mut out = String::from_str("The script ran longer than its ");
        out.append(decimal_text(timeout_ms as u64).as_str());
        out.append(
            " ms budget and was stopped. Do less work, or pass a larger `timeout_ms` (up to ",
        );
        out.append(decimal_text(MAX_TIMEOUT_MS as u64).as_str());
        out.append(").");
        out
    } else if same(kind, "memory_limit") {
        String::from_str(
            "The script exceeded the sandbox's memory ceiling and was stopped. Process the data in smaller pieces.",
        )
    } else if same(kind, "trap") {
        let mut out = String::from_str("The sandbox aborted the script: ");
        out.append(detail.as_str());
        out.append(
            ". This is a fault in the interpreter rather than an ordinary exception — an uncaught JavaScript error would have come back as normal output.",
        );
        out
    } else if same(kind, "unknown_function") || same(kind, "module_not_found") {
        let mut out = String::from_str(
            "The JavaScript interpreter is not deployed on this Nebula cluster under `",
        );
        out.append(function_id);
        out.append(
            "`. This is a configuration problem on the server side; retrying will not help.",
        );
        out
    } else if same(kind, "unauthorized") {
        String::from_str(
            "This MCP server's credentials were rejected by Nebula. This is a configuration problem on the server side; retrying will not help.",
        )
    } else if same(kind, "worker_unreachable") {
        String::from_str(
            "The connection to the sandbox dropped after the script was sent. It may or may not have run. Retry only if running it twice is safe.",
        )
    } else if same(kind, "rate_limited") {
        let mut out = String::from_str(
            "This tool is being called faster than its rate limit allows. Nothing ran.              Wait ",
        );
        out.append(wait_text(reply.retry_after).as_str());
        out.append(" before calling it again, and avoid retrying in a tight loop.");
        out
    } else if same(kind, "no_healthy_worker") || same(kind, "no_reachable_worker") || same(
        kind,
        "cluster_at_capacity",
    ) || same(kind, "worker_shed") {
        String::from_str(
            "Nebula has no capacity to run the script right now. Nothing ran. Retrying in a moment is reasonable.",
        )
    } else {
        let mut out = String::from_str("Nebula refused the call (");
        out.append(kind);
        out.append(", HTTP ");
        out.append(decimal_text(reply.status as u64).as_str());
        out.append(")");
        let ghost start = out@;
        if detail.as_str().is_empty() {
            assert(out@ =~= start + Seq::<char>::empty());
        } else {
            out.append(": ");
            out.append(detail.as_str());
            assert(out@ =~= start + (": "@ + detail@));
        }
        out
    }
}

/// What a model is told of a reply, and whether as an error.
pub open spec fn concluded(reply: ReplyView, timeout_ms: u32, function_id: Seq<char>) -> (
    Seq<char>,
    bool,
) {
    if reply.status != 200 {
        (explained(reply, timeout_ms, function_id), true)
    } else if reply.text().len() == 0 {
        ("(the script produced no output)"@, false)
    } else {
        (reply.text(), false)
    }
}

/// What a model is told of a reply. A script that printed nothing said nothing,
/// and an empty text would read as a broken tool.
pub fn conclude(reply: &Reply, timeout_ms: u32, function_id: &str) -> (out: ToolResult)
    ensures
        (out.text@, out.is_error) == concluded(reply@, timeout_ms, function_id@),
        out.is_error == (reply.status != 200),
        out.text@ == (if reply.status == 200 {
            if reply@.text().len() == 0 {
                "(the script produced no output)"@
            } else {
                reply@.text()
            }
        } else {
            explained(reply@, timeout_ms, function_id@)
        }),
{
    if reply.status == 200 {
        let text = reply.text();
        if text.as_str().is_empty() {
            return ToolResult {
                text: String::from_str("(the script produced no output)"),
                is_error: false,
            };
        }
        return ToolResult { text, is_error: false };
    }
    ToolResult { text: explain(reply, timeout_ms, function_id), is_error: true }
}

/// Nothing but a `traceparent` is ever forwarded: no line break can come along.
pub proof fn law_only_a_traceparent_is_forwarded(raw: Seq<char>)
    ensures
        forwarded(Some(raw)) matches Some(trace) ==> parsed(trace) is Some && !trace.contains('\r')
            && !trace.contains('\n'),
{
    if parsed(raw) is Some {
        let trace = trim(raw);
        let parts = split(trace, '-');
        reveal_strlit("00");
        assert forall|k: int| 0 <= k < trace.len() implies trace[k] != '\r' && trace[k] != '\n' by {
            lemma_char_of_field(trace, k);
            if trace[k] != '-' {
                let i = choose|i: int| 0 <= i < parts.len() && (#[trigger] parts[i]).contains(trace[k]);
                let at = choose|at: int| 0 <= at < parts[i].len() && parts[i][at] == trace[k];
                if i > 0 {
                    assert(crate::text::is_hex(parts[i][at]));
                }
            }
        }
        assert(trim(trace) == trace) by {
            crate::text::lemma_trim_twice(raw);
        }
    }
}

/// Every character of a text is the separator or stands in one of its fields.
proof fn lemma_char_of_field(s: Seq<char>, k: int)
    requires
        0 <= k < s.len(),
    ensures
        s[k] == '-' || exists|i: int|
            0 <= i < split(s, '-').len() && (#[trigger] split(s, '-')[i]).contains(s[k]),
    decreases s.len(),
{
    let at = first_of(s, '-');
    lemma_first_of(s, '-');
    let parts = split(s, '-');
    if at >= s.len() {
        assert(parts[0].contains(s[k]));
    } else if k < at {
        assert(parts[0][k] == s[k]);
        assert(parts[0].contains(s[k]));
    } else if k > at {
        let rest = s.skip(at + 1);
        lemma_char_of_field(rest, k - at - 1);
        assert(rest[k - at - 1] == s[k]);
        if s[k] != '-' {
            let i = choose|i: int|
                0 <= i < split(rest, '-').len() && (#[trigger] split(rest, '-')[i]).contains(s[k]);
            assert(parts[i + 1] == split(rest, '-')[i]);
        }
    }
}

/// What a model is told of a script is all that it printed, up to the white space
/// at the end, and none of that.
pub proof fn law_the_model_is_told_all_that_was_printed(reply: ReplyView)
    ensures
        ({
            let printed = lossy_text(reply.body);
            let told = reply.text();
            &&& printed == told + printed.skip(told.len() as int)
            &&& forall|i: int|
                told.len() <= i < printed.len() ==> is_white_space(#[trigger] printed[i])
            &&& told.len() > 0 ==> !is_white_space(told.last())
        }),
{
    let printed = lossy_text(reply.body);
    crate::text::law_trimming_the_end_takes_only_white_space(printed);
    assert(printed =~= reply.text() + printed.skip(reply.text().len() as int));
}

proof fn lemma_head_end(raw: Seq<u8>, from: int)
    requires
        0 <= from,
    ensures
        match head_end(raw, from) {
            Some(at) => from <= at && at + 4 <= raw.len() && raw.subrange(at, at + 4) == seq![
                13u8,
                10,
                13,
                10,
            ] && forall|k: int|
                from <= k < at ==> #[trigger] raw.subrange(k, k + 4) != seq![13u8, 10, 13, 10],
            None => forall|k: int|
                from <= k && k + 4 <= raw.len() ==> #[trigger] raw.subrange(k, k + 4) != seq![
                    13u8,
                    10,
                    13,
                    10,
                ],
        },
    decreases raw.len() - from,
{
    let blank = seq![13u8, 10, 13, 10];
    if from < raw.len() {
        if from + 4 <= raw.len() {
            let here = raw.subrange(from, from + 4);
            assert(here[0] == raw[from] && here[1] == raw[from + 1] && here[2] == raw[from + 2]
                && here[3] == raw[from + 3]);
            assert(here =~= blank <==> ends_head(raw, from));
        }
        if !ends_head(raw, from) {
            lemma_head_end(raw, from + 1);
        }
    }
}

/// A response is cut at its first blank line: what comes before it is the head and
/// all that comes after it is the body.
pub proof fn law_a_reply_keeps_its_whole_body(raw: Seq<u8>)
    ensures
        match reply_in(raw) {
            Ok(reply) => exists|head: Seq<u8>|
                {
                    &&& raw == head + seq![13u8, 10, 13, 10] + reply.body
                    &&& head_says(#[trigger] lossy_text(head), reply.body) == Ok::<
                        ReplyView,
                        BadReply,
                    >(reply)
                    &&& forall|k: int|
                        0 <= k < head.len() ==> #[trigger] raw.subrange(k, k + 4) != seq![
                            13u8,
                            10,
                            13,
                            10,
                        ]
                },
            Err(BadReply::NoHeaderTerminator) => forall|k: int|
                0 <= k && k + 4 <= raw.len() ==> #[trigger] raw.subrange(k, k + 4) != seq![
                    13u8,
                    10,
                    13,
                    10,
                ],
            Err(BadReply::NoStatusLine) => true,
        },
{
    lemma_head_end(raw, 0);
    if let Some(at) = head_end(raw, 0) {
        let head = raw.take(at);
        let body = raw.skip(at + 4);
        assert(raw =~= head + raw.subrange(at, at + 4) + body);
        if let Ok(reply) = reply_in(raw) {
            assert(reply.body == body);
            assert(head_says(lossy_text(head), reply.body) == Ok::<ReplyView, BadReply>(reply));
        }
    }
}

proof fn lemma_word(word: Seq<char>, rest: Seq<char>)
    requires
        forall|i: int| 0 <= i < word.len() ==> !is_white_space(#[trigger] word[i]),
        rest.len() > 0 ==> is_white_space(rest[0]),
    ensures
        word_end(word + rest) == word.len(),
    decreases word.len(),
{
    let all = word + rest;
    if word.len() > 0 {
        assert(all[0] == word[0]);
        assert(all.drop_first() =~= word.drop_first() + rest);
        lemma_word(word.drop_first(), rest);
    } else {
        assert(all =~= rest);
    }
}

/// The status of a reply is the number behind the first blank of its first line.
pub proof fn law_the_status_follows_the_version(
    version: Seq<char>,
    number: Seq<char>,
    reason: Seq<char>,
)
    requires
        version.len() > 0,
        number.len() > 0,
        forall|i: int| 0 <= i < version.len() ==> !is_white_space(#[trigger] version[i]),
        forall|i: int| 0 <= i < number.len() ==> !is_white_space(#[trigger] number[i]),
        reason.len() > 0 ==> is_white_space(reason[0]),
    ensures
        match status_in(version + seq![' '] + number + reason) {
            Some(status) => parse_unsigned(number, 65535) == Some(status as nat),
            None => parse_unsigned(number, 65535) is None,
        },
{
    let line = version + seq![' '] + number + reason;
    let tail = seq![' '] + number + reason;
    assert(line =~= version + tail);
    assert(line[0] == version[0]);
    assert(trim_start(line) == line);
    lemma_word(version, tail);
    assert(line.skip(version.len() as int) =~= tail);
    let second = number + reason;
    assert(tail.drop_first() =~= second);
    assert(second[0] == number[0]);
    assert(trim_start(second) == second);
    assert(trim_start(tail) == second);
    lemma_word(number, reason);
    assert(second.take(number.len() as int) =~= number);
}

/// A header line gives its value under its name, in any case and whatever the
/// blanks around either; a line without a colon gives none.
pub proof fn law_a_header_line_gives_its_value(
    label: Seq<char>,
    value: Seq<char>,
    name: Seq<char>,
    line: Seq<char>,
)
    requires
        !label.contains(':'),
    ensures
        value_in(label + seq![':'] + value, name) == (if to_lower(trim(label)) == name {
            Some(trim(value))
        } else {
            None
        }),
        !line.contains(':') ==> value_in(line, name) is None,
{
    let all = label + seq![':'] + value;
    assert forall|i: int| 0 <= i < label.len() implies all[i] != ':' by {
        assert(label.contains(label[i]));
    }
    assert(all[label.len() as int] == ':');
    crate::text::lemma_first_of_unique(all, ':', label.len() as int);
    assert(all.take(label.len() as int) =~= label);
    assert(all.skip(label.len() as int + 1) =~= value);
    lemma_first_of(line, ':');
}

/// Of several lines with one name the last counts.
pub proof fn law_the_last_header_of_a_name_counts(lines: Seq<Seq<char>>, name: Seq<char>)
    ensures
        match header_in(lines, name) {
            Some(value) => exists|i: int|
                0 <= i < lines.len() && value_in(#[trigger] lines[i], name) == Some(value)
                    && forall|k: int|
                    i < k < lines.len() ==> value_in(#[trigger] lines[k], name) is None,
            None => forall|k: int|
                0 <= k < lines.len() ==> value_in(#[trigger] lines[k], name) is None,
        },
    decreases lines.len(),
{
    if lines.len() > 0 {
        let init = lines.drop_last();
        law_the_last_header_of_a_name_counts(init, name);
        assert forall|k: int| 0 <= k < init.len() implies #[trigger] lines[k] == init[k] by {}
        match value_in(lines.last(), name) {
            Some(value) => {
                assert(value_in(lines[lines.len() - 1], name) == Some(value));
            },
            None => {
                if let Some(value) = header_in(init, name) {
                    let i = choose|i: int|
                        0 <= i < init.len() && value_in(#[trigger] init[i], name) == Some(value)
                            && forall|k: int|
                            i < k < init.len() ==> value_in(#[trigger] init[k], name) is None;
                    assert(value_in(lines[i], name) == Some(value));
                }
            },
        }
    }
}

/// A head is read line by line: the status from the first, the fault and the
/// seconds to wait from the others, and the body is handed through.
pub proof fn law_a_head_is_read_by_its_lines(head: Seq<char>, body: Seq<u8>)
    ensures
        ({
            let lines = split(head, '\n');
            let others = lines.drop_first();
            let status = status_in(lines[0]);
            &&& status is None ==> head_says(head, body) == Err::<ReplyView, BadReply>(
                BadReply::NoStatusLine,
            )
            &&& status is Some ==> head_says(head, body) is Ok && head_says(head, body)->Ok_0.status
                == status->0 && head_says(head, body)->Ok_0.body == body && head_says(
                head,
                body,
            )->Ok_0.fault == header_in(others, "x-nebula-fault"@) && (match head_says(
                head,
                body,
            )->Ok_0.retry_after {
                Some(seconds) => header_in(others, "retry-after"@) is Some && parse_unsigned(
                    header_in(others, "retry-after"@)->0,
                    0xffff_ffff_ffff_ffff,
                ) == Some(seconds as nat),
                None => header_in(others, "retry-after"@) is None || parse_unsigned(
                    header_in(others, "retry-after"@)->0,
                    0xffff_ffff_ffff_ffff,
                ) is None,
            })
        }),
{
}

/// A trace that can be read is forwarded without the blanks around it, and no
/// other is.
pub proof fn law_a_readable_trace_is_forwarded_whole(raw: Seq<char>)
    ensures
        forwarded(None) is None,
        forwarded(Some(raw)) is Some <==> parsed(raw) is Some,
        forwarded(Some(raw)) is Some ==> forwarded(Some(raw))->0 == trim(raw),
{
}

/// The head of a request names the function, carries the token, says how long the
/// body is and what may be spent on it, forwards a trace if there is one, and ends
/// in a blank line.
#[verifier::rlimit(40)]
pub proof fn law_a_request_says_what_is_asked(
    function_id: Seq<char>,
    token: Seq<char>,
    length: nat,
    deadline_ms: u32,
    traceparent: Option<Seq<char>>,
)
    ensures
        ({
            let crlf = seq!['\r', '\n'];
            let trace = match forwarded(traceparent) {
                Some(trace) => "traceparent: "@ + trace + crlf,
                None => Seq::empty(),
            };
            request_head(function_id, token, length, deadline_ms, traceparent)
                == "POST /execute/"@ + function_id + " HTTP/1.1"@ + crlf + ("Host: nebula"@ + crlf)
                + ("Connection: close"@ + crlf) + ("Authorization: Bearer "@ + token + crlf)
                + ("Content-Type: application/octet-stream"@ + crlf) + ("Content-Length: "@
                + decimal(length) + crlf) + ("x-nebula-deadline-ms: "@ + decimal(deadline_ms as nat)
                + crlf) + trace + crlf
        }),
{
    let crlf = seq!['\r', '\n'];
    reveal_strlit(" HTTP/1.1\r\nHost: nebula\r\nConnection: close\r\nAuthorization: Bearer ");
    reveal_strlit(" HTTP/1.1");
    reveal_strlit("Host: nebula");
    reveal_strlit("Connection: close");
    reveal_strlit("Authorization: Bearer ");
    reveal_strlit("\r\nContent-Type: application/octet-stream\r\nContent-Length: ");
    reveal_strlit("Content-Type: application/octet-stream");
    reveal_strlit("Content-Length: ");
    reveal_strlit("\r\nx-nebula-deadline-ms: ");
    reveal_strlit("x-nebula-deadline-ms: ");
    reveal_strlit("\r\n");
    assert("\r\n"@ =~= crlf);
    assert(" HTTP/1.1\r\nHost: nebula\r\nConnection: close\r\nAuthorization: Bearer "@
        =~= " HTTP/1.1"@ + crlf + ("Host: nebula"@ + crlf) + ("Connection: close"@ + crlf)
        + "Authorization: Bearer "@);
    assert("\r\nContent-Type: application/octet-stream\r\nContent-Length: "@ =~= crlf
        + ("Content-Type: application/octet-stream"@ + crlf) + "Content-Length: "@);
    assert("\r\nx-nebula-deadline-ms: "@ =~= crlf + "x-nebula-deadline-ms: "@);
    let trace = match forwarded(traceparent) {
        Some(trace) => "traceparent: "@ + trace + crlf,
        None => Seq::empty(),
    };
    let want = "POST /execute/"@ + function_id + " HTTP/1.1"@ + crlf + ("Host: nebula"@ + crlf) + (
    "Connection: close"@ + crlf) + ("Authorization: Bearer "@ + token + crlf) + (
    "Content-Type: application/octet-stream"@ + crlf) + ("Content-Length: "@ + decimal(length)
        + crlf) + ("x-nebula-deadline-ms: "@ + decimal(deadline_ms as nat) + crlf) + trace + crlf;
    assert(request_head(function_id, token, length, deadline_ms, traceparent) =~= want);
}

/// A call is given the milliseconds it asks for, ten at least and five thousand at
/// most, and a thousand when it asks for none.
pub proof fn law_a_call_gets_the_time_it_asks_for(ms: u64)
    ensures
        timeout_in(None) == 1000,
        10 <= timeout_in(Some(ms)) <= 5000,
        10 <= ms <= 5000 ==> timeout_in(Some(ms)) == ms,
        ms < 10 ==> timeout_in(Some(ms)) == 10,
        ms > 5000 ==> timeout_in(Some(ms)) == 5000,
{
}

/// A call reaches the cluster exactly when it names the one tool and brings a
/// script; who names another is told which.
pub proof fn law_only_the_one_tool_is_called(params: Params)
    ensures
        refusal(params) is None <==> text_of(params.name) == Some("run_javascript"@)
            && params.source is Some,
        params.name is Some && params.name->0@ != "run_javascript"@ ==> refusal(params) == Some(
            "unknown tool `"@ + params.name->0@ + "`"@,
        ),
{
    reveal_strlit("run_javascript");
}

/// Four methods are answered and no others.
pub proof fn law_four_methods_are_answered(name: Seq<char>)
    ensures
        method_in(name) == Some(Method::Initialize) <==> name == "initialize"@,
        method_in(name) == Some(Method::Ping) <==> name == "ping"@,
        method_in(name) == Some(Method::ListTools) <==> name == "tools/list"@,
        method_in(name) == Some(Method::CallTool) <==> name == "tools/call"@,
{
    reveal_strlit("initialize");
    reveal_strlit("ping");
    reveal_strlit("tools/list");
    reveal_strlit("tools/call");
    assert("tools/list"@[6] != "tools/call"@[6]);
    assert("initialize"@[0] != "tools/list"@[0]);
    assert("initialize"@[0] != "tools/call"@[0]);
    assert("ping"@.len() == 4 && "tools/call"@.len() == 10);
}

/// A model is told what it can act on: how long it may be, how long to wait, what
/// the sandbox said and which function is missing, each in full; a fault of no
/// known kind is told with its kind, its status and all that was said of it.
#[verifier::rlimit(40)]
pub proof fn law_an_explanation_names_what_matters(
    reply: ReplyView,
    timeout_ms: u32,
    function_id: Seq<char>,
)
    ensures
        ({
            let said = explained(reply, timeout_ms, function_id);
            &&& reply.fault == Some("timeout"@) || reply.fault == Some("fuel_exhausted"@) ==> crate::text::holds_part(
                said,
                decimal(timeout_ms as nat) + " ms budget"@,
            )
            &&& reply.fault == Some("trap"@) ==> crate::text::holds_part(said, reply.text())
            &&& reply.fault == Some("unknown_function"@) || reply.fault == Some("module_not_found"@) ==> crate::text::holds_part(
                said,
                seq!['`'] + function_id + seq!['`'],
            )
            &&& reply.fault == Some("rate_limited"@) ==> crate::text::holds_part(
                said,
                "Nothing ran."@,
            ) && crate::text::holds_part(said, wait_words(reply.retry_after))
            &&& reply.fault == Some("worker_unreachable"@) ==> crate::text::holds_part(
                said,
                "It may or may not have run."@,
            )
            &&& reply.fault == Some("no_healthy_worker"@) || reply.fault == Some("no_reachable_worker"@) || reply.fault == Some("cluster_at_capacity"@) || reply.fault == Some("worker_shed"@) ==> crate::text::holds_part(said, "Nothing ran."@)
        }),
{
    lemma_kinds_differ();
    let said = explained(reply, timeout_ms, function_id);
    let kind = reply.kind();
    let ms = decimal(timeout_ms as nat);
    if reply.fault == Some("timeout"@) || reply.fault == Some("fuel_exhausted"@) {
        let rest = " ms budget and was stopped. Do less work, or pass a larger `timeout_ms` (up to "@;
        reveal_strlit(
            " ms budget and was stopped. Do less work, or pass a larger `timeout_ms` (up to ",
        );
        reveal_strlit(" ms budget");
        assert(rest =~= " ms budget"@ + rest.skip(10));
        let after = rest.skip(10) + decimal(MAX_TIMEOUT_MS as nat) + ")."@;
        assert(said =~= "The script ran longer than its "@ + (ms + " ms budget"@) + after);
        crate::text::lemma_holds_part(
            "The script ran longer than its "@,
            ms + " ms budget"@,
            after,
        );
    }
    if reply.fault == Some("trap"@) {
        let after = ". This is a fault in the interpreter rather than an ordinary exception — an uncaught JavaScript error would have come back as normal output."@;
        crate::text::lemma_holds_part("The sandbox aborted the script: "@, reply.text(), after);
    }
    if reply.fault == Some("unknown_function"@) || reply.fault == Some("module_not_found"@) {
        let a = "The JavaScript interpreter is not deployed on this Nebula cluster under `"@;
        let b = "`. This is a configuration problem on the server side; retrying will not help."@;
        reveal_strlit("The JavaScript interpreter is not deployed on this Nebula cluster under `");
        reveal_strlit(
            "`. This is a configuration problem on the server side; retrying will not help.",
        );
        assert(a =~= a.drop_last() + seq!['`']);
        assert(b =~= seq!['`'] + b.drop_first());
        let part = seq!['`'] + function_id + seq!['`'];
        assert(said =~= a.drop_last() + part + b.drop_first());
        crate::text::lemma_holds_part(a.drop_last(), part, b.drop_first());
    }
    if reply.fault == Some("worker_unreachable"@) {
        reveal_strlit("It may or may not have run.");
        reveal_strlit(
            "The connection to the sandbox dropped after the script was sent. It may or may not have run. Retry only if running it twice is safe.",
        );
        let part = "It may or may not have run."@;
        assert(said.subrange(65, 65int + part.len()) =~= part);
    }
    if reply.fault == Some("rate_limited"@) {
        let a = "This tool is being called faster than its rate limit allows. Nothing ran.              Wait "@;
        let c = " before calling it again, and avoid retrying in a tight loop."@;
        reveal_strlit(
            "This tool is being called faster than its rate limit allows. Nothing ran.              Wait ",
        );
        reveal_strlit("Nothing ran.");
        crate::text::lemma_holds_part(a, wait_words(reply.retry_after), c);
        let part = "Nothing ran."@;
        assert(said.subrange(61, 61int + part.len()) =~= part);
    }
    if reply.fault == Some("no_healthy_worker"@) || reply.fault == Some("no_reachable_worker"@)
        || reply.fault == Some("cluster_at_capacity"@) || reply.fault == Some("worker_shed"@) {
        reveal_strlit("Nothing ran.");
        reveal_strlit(
            "Nebula has no capacity to run the script right now. Nothing ran. Retrying in a moment is reasonable.",
        );
        let part = "Nothing ran."@;
        assert(said.subrange(52, 52int + part.len()) =~= part);
    }
}

/// A fault of no known kind, and a reply that names none, is told with its kind,
/// its status and all that was said of it.
pub proof fn law_an_unknown_fault_is_told_in_full(
    reply: ReplyView,
    timeout_ms: u32,
    function_id: Seq<char>,
)
    ensures
        reply.fault is None ==> reply.kind() == "unknown"@,
        reply.fault is Some ==> reply.kind() == reply.fault->0,
        ({
            let kind = reply.kind();
            &&& kind != "timeout"@ && kind != "fuel_exhausted"@ && kind != "memory_limit"@
            &&& kind != "trap"@ && kind != "unknown_function"@ && kind != "module_not_found"@
            &&& kind != "unauthorized"@ && kind != "worker_unreachable"@ && kind != "rate_limited"@
            &&& kind != "no_healthy_worker"@ && kind != "no_reachable_worker"@
            &&& kind != "cluster_at_capacity"@ && kind != "worker_shed"@
        }) ==> explained(reply, timeout_ms, function_id) == "Nebula refused the call ("@
            + reply.kind() + ", HTTP "@ + decimal(reply.status as nat) + ")"@ + (
        if reply.text().len() == 0 {
            Seq::empty()
        } else {
            ": "@ + reply.text()
        }),
{
}

/// How long to wait is told as it was asked for.
pub proof fn law_the_wait_is_told_as_asked(seconds: u64)
    ensures
        wait_words(None) == "a moment"@,
        wait_words(Some(1)) == "a second"@,
        seconds != 1 ==> wait_words(Some(seconds)) == decimal(seconds as nat) + " seconds"@,
{
}

proof fn lemma_kinds_differ()
    ensures
        "unknown_function"@.len() == 16 && "module_not_found"@.len() == 16,
        "unauthorized"@.len() == 12 && "unauthorized"@[0] == 'u',
        "memory_limit"@.len() == 12 && "memory_limit"@[0] == 'm',
        "rate_limited"@.len() == 12 && "rate_limited"@[0] == 'r',
        "timeout"@.len() == 7 && "fuel_exhausted"@.len() == 14 && "trap"@.len() == 4,
        "worker_unreachable"@.len() == 18,
        "no_healthy_worker"@.len() == 17 && "no_reachable_worker"@.len() == 19,
        "cluster_at_capacity"@.len() == 19 && "worker_shed"@.len() == 11,
{
    reveal_strlit("timeout");
    reveal_strlit("fuel_exhausted");
    reveal_strlit("memory_limit");
    reveal_strlit("trap");
    reveal_strlit("unknown_function");
    reveal_strlit("module_not_found");
    reveal_strlit("unauthorized");
    reveal_strlit("worker_unreachable");
    reveal_strlit("rate_limited");
    reveal_strlit("no_healthy_worker");
    reveal_strlit("no_reachable_worker");
    reveal_strlit("cluster_at_capacity");
    reveal_strlit("worker_shed");
}

/// A reply is seen whole, and mistakes have the numbers that the protocol gives them.
pub proof fn law_a_reply_is_seen_whole(reply: Reply)
    ensures
        reply@.status == reply.status && reply@.body == reply.body@,
        reply@.retry_after == reply.retry_after,
        reply.fault is Some <==> reply@.fault is Some,
        reply.fault is Some ==> reply@.fault->0 == reply.fault->0@,
        PARSE_ERROR == -32700,
        METHOD_NOT_FOUND == -32601,
        INVALID_PARAMS == -32602,
{
}

/// A script that ran is told as it printed, all of it up to the white space at the
/// end; one that printed nothing else is said to have; and only a reply other than
/// 200 is an error, explained.
pub proof fn law_a_script_that_ran_is_told_as_it_printed(
    reply: ReplyView,
    timeout_ms: u32,
    function_id: Seq<char>,
)
    ensures
        ({
            let printed = lossy_text(reply.body);
            let (told, is_error) = concluded(reply, timeout_ms, function_id);
            let blank = forall|i: int|
                0 <= i < printed.len() ==> is_white_space(#[trigger] printed[i]);
            &&& is_error <==> reply.status != 200
            &&& is_error ==> told == explained(reply, timeout_ms, function_id)
            &&& !is_error && blank ==> told == "(the script produced no output)"@
            &&& !is_error && !blank ==> {
                &&& told.len() > 0 && !is_white_space(told.last())
                &&& told.len() <= printed.len()
                &&& told == printed.take(told.len() as int)
                &&& forall|i: int|
                    told.len() <= i < printed.len() ==> is_white_space(#[trigger] printed[i])
            }
        }),
{
    let printed = lossy_text(reply.body);
    law_the_model_is_told_all_that_was_printed(reply);
    let text = reply.text();
    assert(text =~= printed.take(text.len() as int));
    if text.len() > 0 {
        assert(printed[text.len() - 1] == text.last());
    }
}

} // verus!

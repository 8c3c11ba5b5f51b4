use nebula::mcp::{
    call_tool, conclude, handle, parse, unreadable, BadReply, Handling, Method,
    Params, Reply, Server, ToolResult, DEADLINE_HEADER, DEFAULT_TIMEOUT_MS, FAULT_HEADER,
    MAX_TIMEOUT_MS, MIN_TIMEOUT_MS, RETRY_HEADER, TOOL_NAME, TRACEPARENT_HEADER,
};

const TRACEPARENT: &str = "00-4bf92f3577b34da6a3ce929d0e0e4736-00f067aa0ba902b7-01";

fn server() -> Server {
    Server::new("127.0.0.1:8080", "tenant-a", "js")
}

fn script(source: &str, timeout_ms: Option<u64>) -> Params {
    Params {
        name: Some(TOOL_NAME.to_string()),
        source: Some(source.to_string()),
        timeout_ms,
    }
}

/// A response as the gateway writes it.
fn raw(status: u16, fault: Option<&str>, body: &str) -> Vec<u8> {
    let mut head = format!("HTTP/1.1 {status} X\r\ncontent-length: {}\r\n", body.len());
    if let Some(fault) = fault {
        head.push_str(&format!("{FAULT_HEADER}: {fault}\r\n"));
    }
    head.push_str("\r\n");
    head.push_str(body);
    head.into_bytes()
}

/// What the model is told of a call that the gateway answers so.
fn told(status: u16, fault: Option<&str>, body: &str) -> (String, bool) {
    let call = call_tool(script("1", None)).ok().expect("a good call");
    let reply = parse(&raw(status, fault, body)).ok().expect("a reply");
    let ToolResult { text, is_error } = conclude(&reply, call.timeout_ms, "js");
    (text, is_error)
}

/// The value of a header in a request head.
fn sent<'a>(head: &'a str, name: &str) -> &'a str {
    head.lines()
        .find_map(|line| {
            let (n, value) = line.split_once(':')?;
            n.eq_ignore_ascii_case(name).then_some(value.trim())
        })
        .unwrap_or("")
}

#[test]
fn a_client_can_handshake_and_discover_the_tool() {
    assert!(matches!(
        handle(true, "initialize"),
        Handling::Answer(Method::Initialize)
    ));
    assert!(matches!(
        handle(true, "tools/list"),
        Handling::Answer(Method::ListTools)
    ));
    assert!(matches!(
        handle(true, "tools/call"),
        Handling::Answer(Method::CallTool)
    ));
    assert!(matches!(handle(true, "ping"), Handling::Answer(Method::Ping)));
}

#[test]
fn a_notification_is_acknowledged_without_a_reply() {
    assert!(matches!(
        handle(false, "notifications/initialized"),
        Handling::Acknowledge
    ));
    assert!(matches!(handle(false, "tools/call"), Handling::Acknowledge));
}

#[test]
fn protocol_level_mistakes_are_json_rpc_errors() {
    match handle(true, "tools/nope") {
        Handling::Reject(error) => {
            assert_eq!(error.code, -32601);
            assert_eq!(error.message, "unknown method `tools/nope`");
        }
        _ => panic!("expected a rejection"),
    }

    let error = call_tool(Params {
        name: Some("run_python".to_string()),
        source: Some("1".to_string()),
        timeout_ms: None,
    })
    .err()
    .expect("an unknown tool");
    assert_eq!(error.code, -32602);
    assert_eq!(error.message, "unknown tool `run_python`");

    let error = call_tool(Params {
        name: Some(TOOL_NAME.to_string()),
        source: None,
        timeout_ms: None,
    })
    .err()
    .expect("a missing source");
    assert_eq!(
        error.code, -32602,
        "a missing `source` is the client's mistake, not a failed script"
    );

    assert_eq!(unreadable().code, -32700);
}

#[test]
fn a_tool_call_becomes_an_execute_request_for_the_interpreter() {
    let call = call_tool(script("[1,2,3].reduce((a,b) => a+b)", None))
        .ok()
        .expect("a good call");
    let head = server().head(call.timeout_ms, None, call.source.as_bytes());
    assert_eq!(
        head,
        "POST /execute/js HTTP/1.1\r\nHost: nebula\r\nConnection: close\r\n\
         Authorization: Bearer tenant-a\r\nContent-Type: application/octet-stream\r\n\
         Content-Length: 28\r\nx-nebula-deadline-ms: 1000\r\n\r\n"
    );
    assert_eq!(call.source, "[1,2,3].reduce((a,b) => a+b)");

    let (text, is_error) = told(200, None, "6");
    assert_eq!(text, "6");
    assert!(!is_error);
}

#[test]
fn a_requested_timeout_is_passed_through_and_clamped() {
    let deadline = |asked| {
        let call = call_tool(script("1", asked)).ok().expect("a good call");
        let head = server().head(call.timeout_ms, None, b"1");
        sent(&head, DEADLINE_HEADER).to_string()
    };
    assert_eq!(deadline(Some(2500)), "2500");
    assert_eq!(deadline(Some(999_999)), MAX_TIMEOUT_MS.to_string());
    assert_eq!(deadline(Some(u64::MAX)), MAX_TIMEOUT_MS.to_string());
    assert_eq!(deadline(Some(0)), MIN_TIMEOUT_MS.to_string());
    assert_eq!(deadline(None), DEFAULT_TIMEOUT_MS.to_string());
}

#[test]
fn a_silent_script_does_not_look_like_a_broken_tool() {
    let (text, is_error) = told(200, None, "");
    assert!(!is_error);
    assert_eq!(text, "(the script produced no output)");
}

#[test]
fn every_fault_is_explained_rather_than_passed_through_as_a_status_code() {
    // (fault, gateway status, words the explanation must contain)
    let cases = [
        ("timeout", 504, "timeout_ms"),
        ("fuel_exhausted", 504, "budget"),
        ("memory_limit", 500, "smaller pieces"),
        ("unknown_function", 404, "not deployed"),
        ("unauthorized", 401, "credentials"),
        ("worker_shed", 503, "Retrying in a moment"),
        ("worker_unreachable", 502, "may or may not have run"),
    ];

    for (fault, status, expected) in cases {
        let (text, is_error) = told(status, Some(fault), "");
        assert!(is_error, "`{fault}` must be flagged as an error");
        assert!(
            text.contains(expected),
            "`{fault}` must tell the model what to do; expected `{expected}` in: {text}"
        );
    }

    let (shed, _) = told(503, Some("worker_shed"), "");
    let (unreachable, _) = told(502, Some("worker_unreachable"), "");
    assert_ne!(shed, unreachable);
    assert!(shed.contains("Nothing ran"));
}

#[test]
fn an_unrecognised_fault_still_names_itself() {
    let (text, is_error) = told(418, Some("something_new"), "detail here");
    assert!(is_error);
    assert!(text.contains("something_new"), "{text}");
    assert!(text.contains("detail here"), "{text}");
    assert_eq!(
        text,
        "Nebula refused the call (something_new, HTTP 418): detail here"
    );
    assert_eq!(told(500, None, "").0, "Nebula refused the call (unknown, HTTP 500)");
}

#[test]
fn an_unreachable_cluster_is_a_tool_error_not_a_transport_error() {
    let result = nebula::mcp::unreachable("connection refused");
    assert!(result.is_error);
    assert!(
        result.text.contains("did not run"),
        "the model must be told the script never ran: {}",
        result.text
    );
}

/// The header names are duplicated rather than imported, so they are held
/// together here.
#[test]
fn the_header_names_still_match_the_gateways() {
    assert_eq!(FAULT_HEADER, nebula::answer::FAULT_HEADER);
    assert_eq!(DEADLINE_HEADER, nebula::answer::DEADLINE_HEADER);
    assert_eq!(TRACEPARENT_HEADER, nebula::trace::TRACEPARENT_HEADER);
    assert_eq!(RETRY_HEADER, nebula::answer::RETRY_HEADER);
}

#[test]
fn an_agents_trace_is_carried_into_the_sandbox_call() {
    let head = server().head(1000, Some(TRACEPARENT), b"1");
    assert_eq!(sent(&head, TRACEPARENT_HEADER), TRACEPARENT);
}

#[test]
fn an_untraced_call_forwards_nothing_and_a_dangerous_one_is_dropped() {
    let head = server().head(1000, None, b"1");
    assert_eq!(
        sent(&head, TRACEPARENT_HEADER),
        "",
        "nothing to forward means forward nothing; the gateway mints an id"
    );

    for dangerous in [
        "00-abc-def-01 evil".to_string(),
        format!("{TRACEPARENT}\r\nx-evil: 1"),
    ] {
        let head = server().head(1000, Some(&dangerous), b"1");
        assert_eq!(sent(&head, TRACEPARENT_HEADER), "");
        assert!(!head.contains("evil"));
    }
}

#[test]
fn a_rate_limit_is_explained_with_the_time_to_wait() {
    let explained = |retry: &str| {
        let raw = format!(
            "HTTP/1.1 429 Too Many Requests\r\n{FAULT_HEADER}: rate_limited\r\n{retry}\r\nslow down"
        );
        let reply: Reply = parse(raw.as_bytes()).ok().expect("a reply");
        conclude(&reply, 1000, "js").text
    };
    assert!(explained("Retry-After: 7\r\n").contains("Wait 7 seconds before"));
    assert!(explained("retry-after: 1\r\n").contains("Wait a second before"));
    assert!(explained("").contains("Wait a moment before"));
    assert!(explained("retry-after: soon\r\n").contains("Wait a moment before"));
}

#[test]
fn a_reply_is_read_by_its_head() {
    let reply = parse(b"HTTP/1.1 200 OK\r\nX-Nebula-Fault :  trap \r\n\r\nout\xffput \n")
        .ok()
        .expect("a reply");
    assert_eq!(reply.status, 200);
    assert_eq!(reply.fault_or_unknown(), "trap");
    assert_eq!(reply.body, b"out\xffput \n");
    assert_eq!(reply.text(), "out\u{fffd}put");

    assert_eq!(
        parse(b"HTTP/1.1 200 OK\r\n").err(),
        Some(BadReply::NoHeaderTerminator)
    );
    assert_eq!(
        parse(b"HTTP/1.1\r\n\r\n").err(),
        Some(BadReply::NoStatusLine)
    );
    assert_eq!(
        parse(b"HTTP/1.1 abc\r\n\r\n").err(),
        Some(BadReply::NoStatusLine)
    );
    assert_eq!(
        BadReply::NoHeaderTerminator.message(),
        "no header terminator"
    );
    assert_eq!(BadReply::NoStatusLine.message(), "no status line");
}

use nebula::egress::{
    classify, is_public, parse, Action, Event, Fetch, Ip, Policy, Refusal, Trouble,
    MAX_RESPONSE_BYTES, MAX_URL_BYTES,
};

const SECOND: u64 = 1_000_000_000;

fn v4(raw: &str) -> [u8; 4] {
    let parts: Vec<u8> = raw.split('.').map(|p| p.parse().expect("octet")).collect();
    [parts[0], parts[1], parts[2], parts[3]]
}

fn groups(raw: &str) -> Vec<u16> {
    let mut out = Vec::new();
    for part in raw.split(':').filter(|p| !p.is_empty()) {
        if part.contains('.') {
            let [a, b, c, d] = v4(part);
            out.push(u16::from(a) << 8 | u16::from(b));
            out.push(u16::from(c) << 8 | u16::from(d));
        } else {
            out.push(u16::from_str_radix(part, 16).expect("group"));
        }
    }
    out
}

fn ip(raw: &str) -> Ip {
    if !raw.contains(':') {
        let [a, b, c, d] = v4(raw);
        return Ip::V4(a, b, c, d);
    }
    let (head, tail) = raw.split_once("::").expect("a shortened address");
    let (head, tail) = (groups(head), groups(tail));
    let mut all = head.clone();
    all.resize(8 - tail.len(), 0);
    all.extend(tail);
    Ip::V6(
        all[0], all[1], all[2], all[3], all[4], all[5], all[6], all[7],
    )
}

fn opened(policy: &Policy, url: &str, budget: u64) -> Result<Fetch, Refusal> {
    Fetch::open(policy, "acme", url, budget, "0.1.0")
}

#[test]
fn egress_is_off_until_an_operator_turns_it_on() {
    let policy = Policy::default();
    assert!(!policy.is_enabled());
    assert_eq!(
        opened(&policy, "http://example.com/", SECOND).err(),
        Some(Refusal::Disabled)
    );
}

#[test]
fn only_listed_hosts_are_allowed() {
    let policy = Policy::new(&["api.example.com", "Example.ORG"]);
    assert!(policy.allows("api.example.com"));
    assert!(policy.allows("API.EXAMPLE.COM"));
    assert!(policy.allows("example.org"));

    assert!(!policy.allows("evil.test"));
    assert!(!policy.allows("api.example.com.evil.test"));
    assert!(!policy.allows("notapi.example.com"));
}

#[test]
fn the_metadata_endpoint_is_not_reachable() {
    assert!(!is_public(ip("169.254.169.254")));
    assert!(!is_public(ip("::ffff:169.254.169.254")));
}

#[test]
fn no_address_inside_the_infrastructure_counts_as_public() {
    for raw in [
        "127.0.0.1",
        "0.0.0.0",
        "10.0.0.1",
        "172.16.0.1",
        "192.168.1.1",
        "100.64.0.1",
        "192.0.0.1",
        "255.255.255.255",
        "224.0.0.1",
        "::1",
        "::",
        "fc00::1",
        "fe80::1",
        "::ffff:127.0.0.1",
    ] {
        assert!(!is_public(ip(raw)), "{raw} must not be reachable");
    }

    for raw in ["1.1.1.1", "93.184.216.34", "2606:4700::1111"] {
        assert!(is_public(ip(raw)), "{raw} is an ordinary public address");
    }
}

#[test]
fn https_is_refused_by_name_rather_than_as_a_bad_url() {
    assert_eq!(parse("https://example.com/").err(), Some(Refusal::Tls));
    assert_eq!(parse("HTTPS://example.com/").err(), Some(Refusal::Tls));
}

#[test]
fn a_url_that_reads_as_one_host_and_parses_as_another_is_refused() {
    assert_eq!(
        parse("http://api.example.com@evil.test/").err(),
        Some(Refusal::BadUrl)
    );

    for bad in [
        "",
        "example.com",
        "ftp://example.com/",
        "http://",
        "http://exa mple.com/",
        "http://example.com:99999/",
    ] {
        assert!(parse(bad).is_err(), "{bad:?} should not parse");
    }
}

#[test]
fn a_url_parses_into_the_pieces_a_request_needs() {
    let target = parse("http://api.example.com/v1/things?q=1").ok().unwrap();
    assert_eq!(target.host, "api.example.com");
    assert_eq!(target.port, 80);
    assert_eq!(target.path, "/v1/things?q=1");

    let target = parse("http://api.example.com:8080").ok().unwrap();
    assert_eq!(target.port, 8080);
    assert_eq!(target.path, "/", "a bare authority still needs a path");
}

#[test]
fn the_private_address_escape_hatch_does_not_widen_the_allowlist() {
    let policy = Policy::new(&["internal.svc"]).allow_private_addresses();
    assert!(!policy.allows("169.254.169.254"));
    assert_eq!(
        opened(&policy, "http://169.254.169.254/", SECOND).err(),
        Some(Refusal::HostNotAllowed)
    );
}

#[test]
fn an_allowlisted_host_that_resolves_inward_is_still_refused() {
    let policy = Policy::new(&["localhost"]);
    let mut fetch = opened(&policy, "http://localhost:1/", SECOND).ok().unwrap();
    let action = fetch.step(Event::Resolved(Some(vec![ip("127.0.0.1")])), 0);
    assert!(matches!(action, Action::Refuse(Refusal::PrivateAddress)));
}

#[test]
fn an_exhausted_budget_refuses_before_opening_a_socket() {
    let policy = Policy::new(&["example.com"]);
    assert_eq!(
        opened(&policy, "http://example.com/", 0).err(),
        Some(Refusal::Timeout)
    );
}

#[test]
fn a_blocked_host_is_refused_before_dns_is_consulted() {
    let policy = Policy::new(&["api.example.com"]);
    assert_eq!(
        opened(
            &policy,
            "http://this-should-never-be-resolved.invalid/",
            5 * SECOND
        )
        .err(),
        Some(Refusal::HostNotAllowed)
    );
}

/// A fetch that has sent its request and reads.
fn reading() -> Fetch {
    let policy = Policy::new(&["example.com"]);
    let mut fetch = opened(&policy, "http://example.com:8080/x", SECOND)
        .ok()
        .unwrap();
    assert_eq!(fetch.target().host, "example.com");
    match fetch.step(
        Event::Resolved(Some(vec![ip("93.184.216.34"), ip("1.1.1.1")])),
        1,
    ) {
        Action::Connect {
            address,
            port,
            timeout,
        } => {
            assert_eq!(address, ip("93.184.216.34"));
            assert_eq!(port, 8080);
            assert_eq!(timeout, SECOND - 1);
        }
        _ => panic!("expected to connect"),
    }
    let request = match fetch.step(Event::Connected(None), 5) {
        Action::Send { bytes, timeout } => {
            assert_eq!(timeout, SECOND - 5);
            bytes
        }
        _ => panic!("expected to send"),
    };
    assert_eq!(
        String::from_utf8(request.clone()).unwrap(),
        "GET /x HTTP/1.1\r\nHost: example.com\r\nConnection: close\r\nAccept: */*\r\n\
         User-Agent: nebula/0.1.0\r\n\r\n"
    );
    // The socket takes it in two pieces, with an interruption between them.
    match fetch.step(Event::Sent(Ok(4)), 6) {
        Action::Send { bytes, timeout } => {
            assert_eq!(bytes, request[4..]);
            assert_eq!(timeout, SECOND - 6);
        }
        _ => panic!("expected to send the rest"),
    }
    match fetch.step(Event::Sent(Err(Trouble::Interrupted)), 6) {
        Action::Send { bytes, .. } => assert_eq!(bytes, request[4..]),
        _ => panic!("expected to send the rest again"),
    }
    match fetch.step(Event::Sent(Ok(request.len() - 4)), 7) {
        Action::Read { timeout } => assert_eq!(timeout, SECOND - 7),
        _ => panic!("expected to read"),
    }
    fetch
}

#[test]
fn an_allowed_host_comes_back_whole() {
    let mut fetch = reading();
    assert!(matches!(
        fetch.step(Event::Arrived(b"HTTP/1.1 200 OK\r\n".to_vec()), 8),
        Action::Read { .. }
    ));
    assert!(matches!(
        fetch.step(Event::Arrived(b"\r\nhello".to_vec()), 9),
        Action::Read { .. }
    ));
    match fetch.step(Event::Arrived(vec![]), 10) {
        Action::Finish(raw) => assert_eq!(raw, b"HTTP/1.1 200 OK\r\n\r\nhello"),
        _ => panic!("expected the response"),
    }
}

#[test]
fn a_response_past_the_cap_is_refused_rather_than_truncated() {
    let mut fetch = reading();
    assert!(matches!(
        fetch.step(Event::Arrived(vec![b'x'; MAX_RESPONSE_BYTES]), 8),
        Action::Read { .. }
    ));
    assert!(matches!(
        fetch.step(Event::Arrived(vec![b'x']), 9),
        Action::Refuse(Refusal::TooLarge)
    ));

    let mut fetch = reading();
    assert!(matches!(
        fetch.step(Event::Arrived(vec![b'x'; MAX_RESPONSE_BYTES]), 8),
        Action::Read { .. }
    ));
    match fetch.step(Event::Arrived(vec![]), 9) {
        Action::Finish(raw) => assert_eq!(raw.len(), MAX_RESPONSE_BYTES),
        _ => panic!("a response of exactly the cap is whole"),
    }
}

#[test]
fn every_failure_on_the_way_has_its_refusal() {
    let policy = Policy::new(&["example.com"]);
    let fresh = || opened(&policy, "http://example.com/", SECOND).ok().unwrap();
    let refusal = |action: Action| match action {
        Action::Refuse(why) => why,
        _ => panic!("expected a refusal"),
    };

    assert_eq!(
        refusal(fresh().step(Event::Resolved(None), 0)),
        Refusal::Unresolvable
    );
    assert_eq!(
        refusal(fresh().step(Event::Resolved(Some(vec![])), 0)),
        Refusal::Unresolvable
    );
    // One private address among public ones is enough.
    assert_eq!(
        refusal(fresh().step(
            Event::Resolved(Some(vec![ip("1.1.1.1"), ip("10.0.0.1")])),
            0
        )),
        Refusal::PrivateAddress
    );
    assert_eq!(
        refusal(fresh().step(Event::Resolved(Some(vec![ip("1.1.1.1")])), SECOND + 1)),
        Refusal::Timeout
    );

    let mut fetch = fresh();
    fetch.step(Event::Resolved(Some(vec![ip("1.1.1.1")])), 0);
    assert_eq!(
        refusal(fetch.step(Event::Connected(Some(Trouble::Other)), 1)),
        Refusal::Io
    );

    assert_eq!(
        refusal(reading().step(Event::Broken(Trouble::WouldBlock), 8)),
        Refusal::Timeout
    );
    assert_eq!(
        refusal(reading().step(Event::Arrived(vec![1]), SECOND + 1)),
        Refusal::Timeout
    );
    let sending = || {
        let mut fetch = fresh();
        fetch.step(Event::Resolved(Some(vec![ip("1.1.1.1")])), 0);
        fetch.step(Event::Connected(None), 1);
        fetch
    };
    assert_eq!(refusal(sending().step(Event::Sent(Ok(0)), 2)), Refusal::Io);
    assert_eq!(
        refusal(sending().step(Event::Sent(Err(Trouble::TimedOut)), 2)),
        Refusal::Timeout
    );
    assert_eq!(classify(Trouble::Interrupted), Refusal::Io);
    assert_eq!(classify(Trouble::TimedOut), Refusal::Timeout);
    assert_eq!(classify(Trouble::WouldBlock), Refusal::Timeout);
    assert_eq!(classify(Trouble::Other), Refusal::Io);
}

#[test]
fn the_tenant_selects_the_allowlist() {
    let policy = Policy::new(&["shared.example"]).for_tenant("acme", &["acme.example"]);
    assert!(policy.allows_for("acme", "acme.example"));
    assert!(!policy.allows_for("acme", "shared.example"));
    assert!(policy.allows_for("globex", "shared.example"));
    assert!(!policy.allows_for("globex", "acme.example"));

    assert_eq!(
        Fetch::open(&policy, "globex", "http://acme.example/", SECOND, "0").err(),
        Some(Refusal::HostNotAllowed)
    );
    assert!(Fetch::open(&policy, "acme", "http://acme.example/", SECOND, "0").is_ok());
}

#[test]
fn a_setting_is_a_list_with_commas() {
    let policy = Policy::from_setting(Some(" a.example , ,B.example "));
    assert!(policy.is_enabled());
    assert!(policy.allows("a.example"));
    assert!(policy.allows("b.example"));
    assert!(!policy.allows(""));
    assert!(!Policy::from_setting(Some(" , ")).is_enabled());
    assert!(!Policy::from_setting(None).is_enabled());
}

#[test]
fn a_url_has_a_longest_length() {
    let base = "http://example.com/";
    let longest = format!("{base}{}", "x".repeat(MAX_URL_BYTES - base.len()));
    assert!(parse(&longest).is_ok());
    assert!(parse(&format!("{longest}x")).is_err());
}

#[test]
fn each_refusal_has_its_own_words() {
    let all = [
        Refusal::Disabled,
        Refusal::HostNotAllowed,
        Refusal::PrivateAddress,
        Refusal::BadUrl,
        Refusal::Tls,
        Refusal::Unresolvable,
        Refusal::Timeout,
        Refusal::TooLarge,
        Refusal::Io,
    ];
    let said: std::collections::HashSet<&str> = all.iter().map(|r| r.message()).collect();
    assert_eq!(said.len(), all.len());
}

#[test]
fn nothing_that_comes_after_the_budget_is_a_success() {
    let late = SECOND + 1;
    let timed_out = |action: Action| matches!(action, Action::Refuse(Refusal::Timeout));
    assert_eq!(reading().budget(), SECOND);
    // The end of a response that would be whole.
    let mut fetch = reading();
    fetch.step(Event::Arrived(b"HTTP/1.1 200 OK\r\n\r\n".to_vec()), SECOND);
    assert!(timed_out(fetch.step(Event::Arrived(vec![]), late)));
    // At the last moment it still counts.
    let mut fetch = reading();
    assert!(matches!(
        fetch.step(Event::Arrived(vec![]), SECOND),
        Action::Finish(_)
    ));
    assert!(timed_out(reading().step(Event::Broken(Trouble::Other), late)));

    let policy = Policy::new(&["example.com"]);
    let mut fetch = opened(&policy, "http://example.com/", SECOND).ok().unwrap();
    fetch.step(Event::Resolved(Some(vec![ip("1.1.1.1")])), 0);
    assert!(timed_out(fetch.step(Event::Connected(None), late)));
    let mut fetch = opened(&policy, "http://example.com/", SECOND).ok().unwrap();
    fetch.step(Event::Resolved(Some(vec![ip("1.1.1.1")])), 0);
    fetch.step(Event::Connected(None), 1);
    assert!(timed_out(fetch.step(Event::Sent(Ok(1)), late)));
    let mut fetch = opened(&policy, "http://example.com/", SECOND).ok().unwrap();
    assert!(timed_out(fetch.step(Event::Resolved(None), late)));
}

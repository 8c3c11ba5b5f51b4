use nebula::answer::{fault, from_status, rate_limited, to_http, unauthorized};
use nebula::bench::{
    interpreter_path, samples, sized_module, uniquify, warmups, Latencies,
};
use nebula::boot::{boot, checksum_of, sieve, summary, Boot, FNV_OFFSET, FNV_PRIME};
use nebula::cache::content_hash;
use nebula::clock::{wall_nanos, Clock};
use nebula::header::{header_text, may_be_sent, read_key};
use nebula::proto::{Code, ExecuteResponse, Outcome, Status};
use nebula::script::{fetched, report, session_get, session_set, unreadable, Evaluated};
use nebula::text::{
    chars_of, decimal_text, hex_fixed_text, hex_string, parse_number, split_chars, string_of,
    trimmed, unhex_chars,
};

#[test]
fn percentiles_are_by_nearest_rank() {
    let latencies = Latencies::new("x", (1..=200).rev().collect());
    assert_eq!(latencies.count(), 200);
    assert_eq!(latencies.p(50), Some(100));
    assert_eq!(latencies.p(99), Some(198));
    assert_eq!(latencies.p(100), Some(200));
    assert_eq!(latencies.p(0), Some(1));
    assert_eq!(latencies.p(101), Some(200));
    assert_eq!(latencies.p(u64::MAX), Some(200));
    assert_eq!(latencies.max(), 200);

    let one = Latencies::new("x", vec![7]);
    assert_eq!(one.p(50), Some(7));
    let none = Latencies::new("x", vec![]);
    assert_eq!(none.p(50), None);
    assert_eq!(none.max(), 0);
}

#[test]
fn a_report_says_whether_the_target_was_met() {
    let latencies = Latencies::new("M1 in process (trivial)", vec![250, 999, 120]);
    assert_eq!(
        latencies.report(Some(1)),
        "M1 in process (trivial)      n=3      p50    0.250  p99    0.999  max    0.999 ms  \
         MET (target p99 < 1 ms)"
    );
    let slow = Latencies::new("M2", vec![1000]);
    assert_eq!(
        slow.report(Some(1)),
        format!(
            "{:<28} n={:<6} p50 {:>8.3}  p99 {:>8.3}  max {:>8.3} ms  MISSED (target p99 < 1 ms)",
            "M2", 1, 1.0, 1.0, 1.0
        )
    );
    let none = Latencies::new("M3", vec![]);
    assert_eq!(
        none.report(None),
        format!(
            "{:<28} n={:<6} p50 {:>8.3}  p99 {:>8.3}  max {:>8.3} ms",
            "M3",
            0,
            f64::NAN,
            f64::NAN,
            0.0
        )
    );
}

#[test]
fn a_sample_count_is_a_setting_with_a_default() {
    assert_eq!(samples(Some("12"), 5), 12);
    assert_eq!(samples(Some("twelve"), 5), 5);
    assert_eq!(samples(None, 5), 5);
    assert_eq!(warmups(0), 1);
    assert_eq!(warmups(50), 50);
    assert_eq!(warmups(5000), 200);
    assert!(interpreter_path("/w/crate").starts_with("/w/crate/../../guests/"));
}

#[test]
fn unique_modules_differ_only_behind_the_module() {
    let wasm = b"\0asm\x01\0\0\0";
    let one = uniquify(wasm, 1);
    let two = uniquify(wasm, 2);
    assert_ne!(content_hash(&one), content_hash(&two));
    assert_eq!(&one[..8], wasm);
    assert_eq!(
        &one[8..],
        b"\x00\x15\x0cnebula-bench\x01\0\0\0\0\0\0\0"
    );
}

#[test]
fn a_sized_module_has_its_size() {
    let wat = sized_module(4096, 3);
    assert!(wat.len() >= 4096 && wat.len() < 4096 + 200);
    assert!(wat.contains("(func $f3_0 (param i32) (result i32)"));
    assert!(wat.ends_with("\n)"));
    assert_ne!(wat, sized_module(4096, 4));
    assert!(sized_module(0, 3).ends_with("(local.get $n))))\n)"));
}

#[test]
fn the_sieve_finds_exactly_the_primes() {
    assert_eq!(sieve(30), vec![2, 3, 5, 7, 11, 13, 17, 19, 23, 29]);
    assert_eq!(sieve(29), vec![2, 3, 5, 7, 11, 13, 17, 19, 23]);
    assert!(sieve(2).is_empty());
    assert!(sieve(0).is_empty());
    assert_eq!(sieve(200_000).len(), 17_984);
}

#[test]
fn a_checksum_chains_the_primes() {
    let primes = vec![2, 3];
    assert_eq!(checksum_of(&primes, 0), FNV_OFFSET);
    let expected = {
        let one = (FNV_OFFSET ^ 2).wrapping_mul(FNV_PRIME);
        (one ^ 3).wrapping_mul(FNV_PRIME)
    };
    assert_eq!(checksum_of(&primes, 2), expected);
}

#[test]
fn a_boot_is_summed_up_in_two_numbers() {
    assert_eq!(
        summary(Some(&Boot {
            primes: vec![2, 3, 5],
            checksum: 99
        })),
        "3 99"
    );
    let done = boot();
    assert_eq!(done.primes.len(), 17_984);
    assert_eq!(summary(Some(&done)), format!("17984 {}", done.checksum));
    assert_eq!(summary(None), "UNINITIALIZED");
}

#[test]
fn what_the_host_returned_becomes_what_a_script_sees() {
    assert_eq!(
        fetched("http://a/", 2, b"hi there"),
        Ok("hi".to_string())
    );
    assert_eq!(fetched("http://a/", 100, b"hi\xff"), Ok("hi\u{fffd}".to_string()));
    assert_eq!(
        fetched("http://a/", -1, b"hi"),
        Err("httpGet refused: http://a/".to_string())
    );
    assert_eq!(session_get(-1, b"x"), None);
    assert_eq!(session_get(0, b"x"), Some(String::new()));
    assert!(session_set(0));
    assert!(!session_set(-1));
}

#[test]
fn a_thrown_exception_is_reported_not_swallowed() {
    assert_eq!(
        report(Evaluated::Threw("Error: boom".to_string())).as_deref(),
        Some("Uncaught Error: boom")
    );
    assert_eq!(report(Evaluated::Undefined), None);
    assert_eq!(
        report(Evaluated::Value(Ok("42".to_string()))).as_deref(),
        Some("42")
    );
    assert_eq!(
        report(Evaluated::Value(Err("TypeError: no".to_string()))).as_deref(),
        Some("Uncaught TypeError: no")
    );
    assert_eq!(
        unreadable("closed"),
        "Uncaught Error: could not read request body: closed"
    );
}

#[test]
fn each_outcome_has_its_status_and_its_kind() {
    let rendered = |outcome: Outcome| {
        let answer = to_http(
            ExecuteResponse {
                outcome: outcome.wire(),
                body: b"body".to_vec(),
                fault_detail: "detail".to_string(),
                exec_micros: 3,
                cold: true,
            },
            70,
        );
        assert_eq!(answer.cold, Some(true));
        assert_eq!(answer.exec_micros, Some(3));
        assert_eq!(answer.deadline_ms, Some(70));
        let replayable = answer.replayable();
        (answer.status, answer.fault, answer.body, replayable)
    };
    let faulted = |status, kind, replayable| (status, Some(kind), b"detail".to_vec(), replayable);
    assert_eq!(
        rendered(Outcome::Success),
        (200, None, b"body".to_vec(), true)
    );
    assert_eq!(rendered(Outcome::Trap), faulted(500, "trap", true));
    assert_eq!(rendered(Outcome::Timeout), faulted(504, "timeout", true));
    assert_eq!(
        rendered(Outcome::FuelExhausted),
        faulted(504, "fuel_exhausted", true)
    );
    assert_eq!(
        rendered(Outcome::MemoryLimit),
        faulted(500, "memory_limit", true)
    );
    assert_eq!(
        rendered(Outcome::ModuleNotFound),
        faulted(404, "module_not_found", false)
    );
    // What went wrong in the host is not the client's to read.
    assert_eq!(
        rendered(Outcome::Internal),
        (500, Some("internal"), Vec::new(), false)
    );
    let unknown = to_http(
        ExecuteResponse {
            outcome: 99,
            body: b"body".to_vec(),
            fault_detail: "detail".to_string(),
            exec_micros: 3,
            cold: false,
        },
        70,
    );
    assert_eq!((unknown.status, unknown.fault), (500, Some("internal")));
    assert!(unknown.body.is_empty());
}

#[test]
fn each_transport_failure_has_its_kind() {
    let kind = |code| {
        let answer = from_status(&Status::new(code, "said"));
        (answer.status, answer.fault.unwrap())
    };
    assert_eq!(kind(Code::ResourceExhausted), (503, "worker_shed"));
    assert_eq!(kind(Code::InvalidArgument), (400, "invalid_request"));
    assert_eq!(kind(Code::Unavailable), (502, "worker_unreachable"));
    assert_eq!(kind(Code::Cancelled), (502, "worker_unreachable"));
    assert_eq!(kind(Code::DeadlineExceeded), (502, "worker_unreachable"));
    assert_eq!(kind(Code::Internal), (500, "dispatch_failed"));
    assert_eq!(
        from_status(&Status::new(Code::InvalidArgument, "said")).body,
        b"said"
    );
}

#[test]
fn an_answer_carries_its_headers() {
    let limited = rate_limited(0).into_response();
    assert_eq!(
        limited.headers,
        vec![
            ("x-nebula-fault", "rate_limited".to_string()),
            ("retry-after", "1".to_string()),
        ]
    );
    let refused = unauthorized().into_response();
    assert_eq!(
        refused.headers,
        vec![
            ("x-nebula-fault", "unauthorized".to_string()),
            ("www-authenticate", "Bearer".to_string()),
        ]
    );
    let plain = fault(400, "invalid_deadline", "no");
    assert_eq!(plain.weight(), 2 + 128);
    assert_eq!(
        plain.into_response().headers,
        vec![("x-nebula-fault", "invalid_deadline".to_string())]
    );
}

#[test]
fn a_trace_id_is_sent_unless_it_holds_a_control_character() {
    let sent = |id: &str| {
        let mut answer = fault(400, "invalid_deadline", "no");
        answer.trace_id = Some(id.to_string());
        answer
            .into_response()
            .headers
            .iter()
            .find(|(name, _)| *name == "x-nebula-trace-id")
            .map(|(_, value)| value.clone())
    };
    for id in ["4bf92f35", "a b\tc", "caf\u{e9}", "\u{80}", ""] {
        assert_eq!(sent(id).as_deref(), Some(id));
    }
    for id in ["a\nb", "\u{0}", "\u{1f}", "\u{7f}"] {
        assert_eq!(sent(id), None);
    }
    assert!(may_be_sent(b"\xff~ \t"));
    assert!(!may_be_sent(b"\x7f"));
}

#[test]
fn a_header_is_text_when_it_is_printable() {
    assert_eq!(header_text(b"a b\tc"), Some("a b\tc".to_string()));
    assert_eq!(header_text(b"caf\xc3\xa9"), None);
    assert_eq!(header_text(b"a\x01"), None);
    assert_eq!(read_key(b"  k  ", 5).as_deref(), Some("k"));
    // The bound is on what arrived, blanks and all.
    assert_eq!(read_key(b"  k  ", 4), None);
    assert_eq!(read_key(b"  ", 5), None);
    assert_eq!(read_key(b"long", 3), None);
}

#[test]
fn text_is_cut_and_put_together() {
    assert_eq!(decimal_text(0), "0");
    assert_eq!(decimal_text(u64::MAX), "18446744073709551615");
    assert_eq!(hex_string(&[0, 0xab]), "00ab");
    assert_eq!(hex_fixed_text(0xbeef, 8), "0000beef");
    assert_eq!(unhex_chars(&chars_of("0aFf")), Some(vec![10, 255]));
    assert_eq!(unhex_chars(&chars_of("0")), None);
    assert_eq!(parse_number(&chars_of("+12"), 100), Some(12));
    assert_eq!(parse_number(&chars_of("101"), 100), None);
    assert_eq!(parse_number(&chars_of(""), 100), None);
    assert_eq!(parse_number(&chars_of("+"), 100), None);
    assert_eq!(trimmed("\u{a0} x\u{2003}"), "x");
    let parts: Vec<String> = split_chars(&chars_of("a,,b"), ',')
        .iter()
        .map(|part| string_of(part))
        .collect();
    assert_eq!(parts, vec!["a", "", "b"]);
}

#[test]
fn a_clock_does_not_go_back() {
    let clock = Clock::start();
    let a = clock.now();
    let b = clock.now();
    assert!(a <= b);
    // Some moment after the first of January 2020.
    assert!(wall_nanos() > 1_577_836_800_000_000_000);
}

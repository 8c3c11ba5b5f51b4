use nebula::egress::{Action, Event, Ip, Policy, Refusal};
use nebula::engine::{Limits, MAX_MEMORY_BYTES, POOL_MAX_MEMORY_BYTES};
use nebula::host::{
    checked_range, guest_slice, remaining_budget, HostCtx, Trap, MAX_LOG_BYTES, MAX_RESPONSE_BYTES,
    REFUSED,
};
use nebula::kv::{Kv, Rejected, MAX_BYTES, MAX_ENTRIES, MAX_KEY_BYTES, MAX_VALUE_BYTES, TTL};

const PAGE: usize = 65536;
const SECOND: u64 = 1_000_000_000;

fn ctx(tenant: &str, request: &[u8]) -> HostCtx {
    HostCtx::new(tenant, "", request.to_vec())
}

/// One page of guest memory with some bytes in it.
fn memory(data: &[(usize, &[u8])]) -> Vec<u8> {
    let mut memory = vec![0u8; PAGE];
    for (at, bytes) in data {
        memory[*at..*at + bytes.len()].copy_from_slice(bytes);
    }
    memory
}

#[test]
fn checked_range_accepts_in_bounds() {
    assert_eq!(checked_range(100, 10, 20).unwrap(), 10..30);
}

#[test]
fn checked_range_accepts_exact_end() {
    assert_eq!(checked_range(100, 90, 10).unwrap(), 90..100);
}

#[test]
fn checked_range_accepts_zero_length_at_boundary() {
    assert_eq!(checked_range(100, 100, 0).unwrap(), 100..100);
}

#[test]
fn checked_range_rejects_ptr_past_end() {
    assert!(checked_range(100, 101, 0).is_err());
}

#[test]
fn checked_range_rejects_len_past_end() {
    assert!(checked_range(100, 90, 11).is_err());
}

#[test]
fn checked_range_rejects_ptr_plus_len_overflow() {
    assert!(checked_range(usize::MAX, u32::MAX, 16).is_err());
    assert!(checked_range(usize::MAX, 1, u32::MAX).is_err());
}

#[test]
fn checked_range_rejects_everything_against_empty_memory() {
    assert!(checked_range(0, 0, 1).is_err());
    assert_eq!(checked_range(0, 0, 0).unwrap(), 0..0);
}

#[test]
fn host_receives_logged_string() {
    let mut ctx = ctx("sandbox", b"");
    let memory = memory(&[(16, b"hello from guest")]);
    assert_eq!(ctx.log(&memory, true, 2, 16, 16), Ok(()));
    assert_eq!(ctx.logs, vec![(2, "hello from guest".to_string())]);
}

#[test]
fn host_receives_empty_log_at_memory_boundary() {
    let mut ctx = ctx("sandbox", b"");
    assert_eq!(ctx.log(&memory(&[]), true, 2, 65536, 0), Ok(()));
    assert_eq!(ctx.logs, vec![(2, String::new())]);
}

#[test]
fn log_payload_is_truncated_not_trapped() {
    let mut ctx = ctx("sandbox", b"");
    let memory = memory(&[(0, &[65u8; 5000])]);
    assert_eq!(ctx.log(&memory, true, 1, 0, 5000), Ok(()));

    let (level, message) = &ctx.logs[0];
    assert_eq!(*level, 1);
    assert_eq!(message.len(), MAX_LOG_BYTES as usize);
    assert!(message.bytes().all(|byte| byte == b'A'));
}

#[test]
fn a_log_line_that_is_not_text_is_repaired() {
    let mut ctx = ctx("sandbox", b"");
    let memory = memory(&[(0, b"a\xffb")]);
    assert_eq!(ctx.log(&memory, true, 1, 0, 3), Ok(()));
    assert_eq!(ctx.logs[0].1, "a\u{fffd}b");
}

#[test]
fn guest_slice_traps_on_ptr_past_end_of_memory() {
    let mut ctx = ctx("sandbox", b"");
    assert_eq!(
        ctx.log(&memory(&[]), true, 2, 65536, 1),
        Err(Trap::MemoryOutOfBounds)
    );
}

#[test]
fn guest_slice_traps_on_ptr_plus_len_overflow() {
    let mut ctx = ctx("sandbox", b"");
    assert_eq!(
        ctx.log(&memory(&[]), true, 2, u32::MAX, 16),
        Err(Trap::MemoryOutOfBounds)
    );
}

#[test]
fn guest_slice_traps_on_len_past_end_of_memory() {
    let mut ctx = ctx("sandbox", b"");
    assert_eq!(
        ctx.log(&memory(&[]), true, 2, 0, u32::MAX),
        Err(Trap::MemoryOutOfBounds)
    );
}

#[test]
fn guest_slice_traps_when_guest_exports_no_memory() {
    let mut ctx = ctx("sandbox", b"");
    assert_eq!(ctx.log(&[], false, 2, 0, 0), Err(Trap::MemoryOutOfBounds));
    assert!(ctx.logs.is_empty());
    assert_eq!(
        guest_slice(&[], false, 0, 0),
        Err(Trap::MemoryOutOfBounds)
    );
    assert_eq!(guest_slice(b"abc", true, 1, 2), Ok(b"bc".to_vec()));
}

/// Reads the whole body to the start of memory and writes it back.
fn echo(ctx: &mut HostCtx) {
    let mut memory = memory(&[]);
    let n = ctx.request_len() as u32;
    assert_eq!(ctx.request_read(&mut memory, true, 0, n), Ok(n as i32));
    assert_eq!(ctx.response_write(&memory, true, 0, n), Ok(n as i32));
}

#[test]
fn request_body_round_trips_through_the_guest() {
    let body = b"the quick brown fox".to_vec();
    let mut ctx = ctx("echo", &body);
    echo(&mut ctx);
    assert_eq!(ctx.response, body);
}

#[test]
fn empty_request_body_round_trips() {
    let mut ctx = ctx("echo-empty", b"");
    echo(&mut ctx);
    assert!(ctx.response.is_empty());
}

#[test]
fn a_request_is_read_from_its_start_every_time() {
    let ctx = ctx("echo", b"abcdef");
    let mut memory = memory(&[]);
    assert_eq!(ctx.request_read(&mut memory, true, 0, 4), Ok(4));
    assert_eq!(ctx.request_read(&mut memory, true, 8, 4), Ok(4));
    assert_eq!(&memory[..12], b"abcd\0\0\0\0abcd");
    assert_eq!(ctx.request_read(&mut memory, true, 16, 100), Ok(6));
    assert_eq!(
        ctx.request_read(&mut memory, true, 65530, 7),
        Err(Trap::MemoryOutOfBounds)
    );
}

#[test]
fn response_write_caps_and_reports_the_short_write() {
    // 20 x 64 KiB is 1.25 MiB against a 1 MiB cap. Once full, a further write
    // must report 0 accepted rather than trapping or silently claiming success.
    let mut ctx = ctx("response-cap", b"");
    let memory = memory(&[]);
    for _ in 0..20 {
        assert!(ctx.response_write(&memory, true, 0, 65536).is_ok());
    }
    assert_eq!(ctx.response_write(&memory, true, 0, 16), Ok(0));
    assert_eq!(ctx.response.len(), MAX_RESPONSE_BYTES);
}

#[test]
fn the_response_body_falls_back_to_stdout_only_when_nothing_was_written() {
    let mut ctx = ctx("stdout", b"");
    ctx.stdout = b"printed".to_vec();
    assert_eq!(ctx.output(), b"printed");
    let memory = memory(&[(0, b"written")]);
    assert_eq!(ctx.response_write(&memory, true, 0, 7), Ok(7));
    assert_eq!(ctx.output(), b"written");
}

#[test]
fn kv_set_then_get_round_trips() {
    let mut kv = Kv::new();
    let mut ctx = ctx("kv-roundtrip", b"");
    let mut memory = memory(&[(0, b"greeting"), (16, b"hello kv")]);
    assert_eq!(ctx.kv_set(&mut kv, &memory, true, (0, 8), (16, 8)), Ok(0));
    assert_eq!(ctx.kv_get(&kv, &mut memory, true, (0, 8), (256, 64)), Ok(8));
    assert_eq!(ctx.response_write(&memory, true, 256, 8), Ok(8));
    assert_eq!(ctx.response, b"hello kv");
}

#[test]
fn kv_get_reports_full_length_when_the_guest_buffer_is_short() {
    let mut kv = Kv::new();
    let mut ctx = ctx("kv-short-buffer", b"");
    let mut memory = memory(&[(0, b"k"), (16, b"abcdefgh")]);
    assert_eq!(ctx.kv_set(&mut kv, &memory, true, (0, 1), (16, 8)), Ok(0));
    assert_eq!(ctx.kv_get(&kv, &mut memory, true, (0, 1), (256, 4)), Ok(8));
    assert_eq!(ctx.response_write(&memory, true, 256, 4), Ok(4));
    assert_eq!(ctx.response, b"abcd");
    assert_eq!(&memory[256..264], b"abcd\0\0\0\0");
}

#[test]
fn kv_missing_key_returns_minus_one() {
    let kv = Kv::new();
    let ctx = ctx("kv-missing", b"");
    let mut memory = memory(&[(0, b"nope")]);
    assert_eq!(
        ctx.kv_get(&kv, &mut memory, true, (0, 4), (256, 64)),
        Ok(-1)
    );
}

#[test]
fn kv_rejects_an_oversized_value_without_storing_anything() {
    // 65537 bytes is one past MAX_VALUE_BYTES.
    let mut kv = Kv::new();
    let ctx = ctx("kv-big-value", b"");
    let mut memory = vec![0u8; 3 * PAGE];
    memory[0] = b'k';
    assert_eq!(
        ctx.kv_set(&mut kv, &memory, true, (0, 1), (16, 65537)),
        Ok(-1)
    );
    assert!(
        kv.get("kv-big-value", "", b"k").is_none(),
        "a refused write must leave nothing behind, not a truncated value"
    );
}

#[test]
fn kv_rejects_an_oversized_key() {
    let mut kv = Kv::new();
    let ctx = ctx("kv-big-key", b"");
    let memory = vec![0u8; 2 * PAGE];
    assert_eq!(
        ctx.kv_set(&mut kv, &memory, true, (0, 1025), (2048, 4)),
        Ok(-1)
    );
}

#[test]
fn kv_oob_pointer_traps_even_though_capacity_failures_do_not() {
    let mut kv = Kv::new();
    let ctx = ctx("kv-oob", b"");
    assert_eq!(
        ctx.kv_set(&mut kv, &memory(&[]), true, (65530, 32), (0, 4)),
        Err(Trap::MemoryOutOfBounds)
    );
}

#[test]
fn kv_is_isolated_between_tenants() {
    let mut kv = Kv::new();
    let mut memory = memory(&[(0, b"shared"), (16, b"secret")]);
    assert_eq!(
        ctx("tenant-alpha", b"").kv_set(&mut kv, &memory, true, (0, 6), (16, 6)),
        Ok(0)
    );
    assert_eq!(
        ctx("tenant-beta", b"").kv_get(&kv, &mut memory, true, (0, 6), (256, 64)),
        Ok(-1)
    );

    assert_eq!(
        kv.get("tenant-alpha", "", b"shared").as_deref(),
        Some(&b"secret"[..])
    );
    assert!(kv.get("tenant-beta", "", b"shared").is_none());
}

#[test]
fn kv_byte_cap_is_enforced_exactly() {
    let mut kv = Kv::new();
    let value = vec![0u8; MAX_VALUE_BYTES];

    let mut stored = 0usize;
    for i in 0..1000 {
        let key = format!("k{i}");
        match kv.set("t", "", key.as_bytes(), &value) {
            Ok(()) => stored += 1,
            Err(Rejected) => break,
        }
    }

    assert!(stored > 0, "the store must accept something");
    assert!(stored < 1000, "the store must refuse before 1000 x 64 KiB");
    assert!(
        kv.bytes() <= MAX_BYTES,
        "held {} bytes against a {} cap",
        kv.bytes(),
        MAX_BYTES
    );
    let before = kv.bytes();
    assert_eq!(kv.set("t", "", b"one-more", &value), Err(Rejected));
    assert_eq!(kv.bytes(), before);
}

#[test]
fn kv_entry_cap_is_enforced() {
    let mut kv = Kv::new();
    for i in 0..MAX_ENTRIES {
        kv.set("t", "", format!("k{i}").as_bytes(), b"v")
            .expect("within the entry cap");
    }
    assert_eq!(kv.len(), MAX_ENTRIES);
    assert_eq!(kv.set("t", "", b"one-too-many", b"v"), Err(Rejected));

    // An overwrite is not a new entry, so it must still be accepted at the cap.
    assert_eq!(kv.set("t", "", b"k0", b"w"), Ok(()));
    assert_eq!(kv.get("t", "", b"k0").as_deref(), Some(&b"w"[..]));
}

#[test]
fn overwriting_releases_the_previous_value_bytes() {
    let mut kv = Kv::new();
    kv.set("t", "", b"k", &vec![0u8; MAX_VALUE_BYTES]).unwrap();
    let full = kv.bytes();
    kv.set("t", "", b"k", b"tiny").unwrap();

    assert!(
        kv.bytes() < full,
        "replacing a large value must return its bytes to the budget"
    );
    assert_eq!(kv.len(), 1, "an overwrite is not a new entry");
    assert_eq!(kv.bytes(), 1 + 4);
}

#[test]
fn kv_state_is_shared_across_requests_on_one_node() {
    let mut kv = Kv::new();
    let memory = memory(&[(0, b"carried"), (16, b"over")]);
    assert_eq!(
        ctx("node", b"").kv_set(&mut kv, &memory, true, (0, 7), (16, 4)),
        Ok(0)
    );
    assert_eq!(
        kv.get("node", "", b"carried").as_deref(),
        Some(&b"over"[..])
    );
}

#[test]
fn two_sessions_of_one_tenant_cannot_read_each_other() {
    let mut kv = Kv::new();
    kv.set("acme", "chat-1", b"draft", b"first conversation")
        .expect("write");
    kv.set("acme", "chat-2", b"draft", b"second conversation")
        .expect("write");

    assert_eq!(
        kv.get("acme", "chat-1", b"draft").unwrap(),
        b"first conversation"
    );
    assert_eq!(
        kv.get("acme", "chat-2", b"draft").unwrap(),
        b"second conversation"
    );

    // And an unscoped request is its own namespace, not a shared one.
    assert!(kv.get("acme", "", b"draft").is_none());
}

#[test]
fn an_expired_entry_is_neither_served_nor_left_holding_space() {
    let mut kv = Kv::new();
    kv.set("acme", "s", b"k", b"v").expect("write");
    assert_eq!(kv.len(), 1);
    assert!(kv.bytes() > 0);

    // Nothing has expired yet, so a sweep must leave a live entry alone.
    assert_eq!(kv.expire(), 0);
    assert!(kv.get("acme", "s", b"k").is_some());
}

#[test]
fn an_entry_is_served_until_its_time_and_swept_after() {
    let mut kv = Kv::new();
    kv.set_at(5, "acme", "s", b"k", b"v").expect("write");
    assert!(kv.get_at(5 + TTL - 1, "acme", "s", b"k").is_some());
    assert!(kv.get_at(5 + TTL, "acme", "s", b"k").is_none());
    assert_eq!(kv.expire_at(5 + TTL), 1);
    assert!(kv.is_empty());
    assert_eq!(kv.bytes(), 0);
}

#[test]
fn a_full_store_recovers_once_entries_expire() {
    let mut kv = Kv::new();
    let value = vec![0u8; MAX_VALUE_BYTES];
    let mut written = 0;
    while kv
        .set("acme", "s", format!("k{written}").as_bytes(), &value)
        .is_ok()
    {
        written += 1;
        assert!(written < 100_000, "the byte cap never engaged");
    }

    assert!(written > 0, "nothing was ever stored");
    // Still full, and nothing has expired, so a retry is still refused.
    assert!(kv.set("acme", "s", b"one-more", &value).is_err());

    let later = kv.now() + TTL + SECOND;
    assert!(kv.set_at(later, "acme", "s", b"one-more", &value).is_ok());
    assert_eq!(kv.len(), 1);
}

#[test]
fn a_key_may_be_as_long_as_its_cap() {
    let mut kv = Kv::new();
    assert_eq!(kv.set("t", "", &[b'k'; MAX_KEY_BYTES], b"v"), Ok(()));
    assert_eq!(
        kv.set("t", "", &[b'k'; MAX_KEY_BYTES + 1], b"v"),
        Err(Rejected)
    );
}

/// What the guest is told when it fetches `url`, with `response` on the other
/// end of the socket.
fn fetch_via_guest(ctx: &mut HostCtx, policy: &Policy, url: &str, response: &[u8]) -> String {
    let mut memory = vec![0u8; 32 * PAGE];
    memory[1024..1024 + url.len()].copy_from_slice(url.as_bytes());
    let mut fetch = match ctx
        .http_get(&memory, true, (1024, url.len() as u32), policy, SECOND, "0.1.0")
        .expect("an in-bounds url")
    {
        Ok(fetch) => fetch,
        Err(code) => {
            assert_eq!(code, REFUSED);
            return "REFUSED".to_string();
        }
    };
    let mut sent = false;
    let mut rest = response;
    let mut action = fetch.step(Event::Resolved(Some(vec![Ip::V4(127, 0, 0, 1)])), 0);
    loop {
        action = match action {
            Action::Connect { .. } => fetch.step(Event::Connected(None), 1),
            Action::Send { bytes, .. } => {
                sent = true;
                fetch.step(Event::Sent(Ok(bytes.len())), 3)
            }
            Action::Read { .. } => {
                let n = rest.len().min(8192);
                let (chunk, tail) = rest.split_at(n);
                rest = tail;
                fetch.step(Event::Arrived(chunk.to_vec()), 4)
            }
            Action::Finish(raw) => {
                assert!(sent);
                let n = ctx
                    .http_answer(&mut memory, true, 8192, 65536, &raw)
                    .expect("an in-bounds buffer") as usize;
                return String::from_utf8_lossy(&memory[8192..8192 + n]).to_string();
            }
            Action::Refuse(why) => {
                assert_eq!(ctx.http_refused(why), REFUSED);
                return "REFUSED".to_string();
            }
        };
    }
}

#[test]
fn a_guest_cannot_reach_the_network_unless_an_operator_said_so() {
    let answer = fetch_via_guest(
        &mut ctx("egress", b""),
        &Policy::default(),
        "http://127.0.0.1:8080/",
        b"HTTP/1.1 200 OK\r\nContent-Length: 2\r\n\r\nhi",
    );
    assert_eq!(answer, "REFUSED");
}

#[test]
fn the_guest_gets_the_whole_response_with_its_status_line() {
    let policy = Policy::new(&["127.0.0.1"]).allow_private_addresses();
    let answer = fetch_via_guest(
        &mut ctx("egress", b""),
        &policy,
        "http://127.0.0.1:8080/",
        b"HTTP/1.1 404 Not Found\r\nContent-Length: 9\r\n\r\nnot there",
    );
    assert!(answer.starts_with("HTTP/1.1 404 Not Found"), "{answer}");
    assert!(answer.ends_with("not there"), "{answer}");
}

#[test]
fn a_response_past_the_cap_is_refused_to_the_guest_too() {
    let policy = Policy::new(&["127.0.0.1"]).allow_private_addresses();
    let answer = fetch_via_guest(
        &mut ctx("egress", b""),
        &policy,
        "http://127.0.0.1:8080/",
        &vec![b'x'; 2 << 20],
    );
    assert_eq!(answer, "REFUSED");
}

#[test]
fn a_host_that_is_not_on_the_list_is_refused() {
    let policy = Policy::new(&["api.example.com"]);
    let answer = fetch_via_guest(&mut ctx("egress", b""), &policy, "http://evil.test/", b"");
    assert_eq!(answer, "REFUSED");
}

#[test]
fn https_is_refused_rather_than_silently_downgraded() {
    let policy = Policy::new(&["api.example.com"]);
    let answer = fetch_via_guest(
        &mut ctx("egress", b""),
        &policy,
        "https://api.example.com/",
        b"",
    );
    assert_eq!(answer, "REFUSED");
}

#[test]
fn a_refusal_is_recoverable_rather_than_a_trap() {
    let policy = Policy::new(&["api.example.com"]);
    let mut ctx = ctx("egress", b"");
    let answer = fetch_via_guest(&mut ctx, &policy, "http://blocked.test/", b"");
    assert_eq!(answer, "REFUSED");
    assert!(
        ctx.logs
            .iter()
            .any(|(_, message)| message.contains("refused")),
        "the host should record why: {:?}",
        ctx.logs
    );
    assert_eq!(
        ctx.logs,
        vec![(
            3,
            format!("http_get refused: {}", Refusal::HostNotAllowed.message())
        )]
    );
}

#[test]
fn two_tenants_get_two_answers_from_one_url() {
    let policy = Policy::default()
        .for_tenant("allowed", &["127.0.0.1"])
        .for_tenant("denied", &["somewhere.else"])
        .allow_private_addresses();
    let fetch_as = |tenant: &str| {
        fetch_via_guest(
            &mut ctx(tenant, b""),
            &policy,
            "http://127.0.0.1:8080/",
            b"HTTP/1.1 200 OK\r\nContent-Length: 2\r\n\r\nok",
        )
    };

    assert!(fetch_as("allowed").starts_with("HTTP/1.1 200 OK"));
    assert_eq!(fetch_as("denied"), "REFUSED");
    assert_eq!(fetch_as("unknown"), "REFUSED");
}

#[test]
fn each_run_gets_a_fresh_host_context() {
    let mut first = ctx("sandbox", b"one");
    let memory = memory(&[(0, b"left behind")]);
    first.log(&memory, true, 1, 0, 11).unwrap();
    first.response_write(&memory, true, 0, 11).unwrap();

    let second = ctx("sandbox", b"two");
    assert!(second.logs.is_empty());
    assert!(second.response.is_empty());
    assert_eq!(second.request, b"two");
}

#[test]
fn store_limiter_refuses_growth_the_pooling_slot_would_allow() {
    // 3200 pages is 200 MiB: above the ceiling but below the slot.
    let mut limits = Limits::new();
    assert!(3201 * PAGE < POOL_MAX_MEMORY_BYTES);
    assert!(!limits.memory_growing(3201 * PAGE, None));
    assert!(limits.memory_refused());
}

#[test]
fn memory_growth_beyond_the_pooling_slot_is_refused() {
    let mut limits = Limits::new();
    assert!(!limits.memory_growing(100_001 * PAGE, None));
}

#[test]
fn memory_growth_within_the_ceiling_succeeds() {
    let mut limits = Limits::new();
    assert!(limits.memory_growing(17 * PAGE, None));
    assert!(limits.memory_growing(MAX_MEMORY_BYTES, None));
    assert!(!limits.memory_refused());
    // Past the module's own maximum: refused, and no breach of the ceiling.
    assert!(!limits.memory_growing(17 * PAGE, Some(16 * PAGE)));
    assert!(!limits.memory_refused());
}

#[test]
fn a_table_has_its_own_ceiling() {
    let limits = Limits::new();
    assert!(limits.table_growing(10_000, None));
    assert!(!limits.table_growing(10_001, None));
    assert!(!limits.table_growing(11, Some(10)));
}

#[test]
fn what_is_left_of_a_budget_never_goes_below_nothing() {
    assert_eq!(remaining_budget(10, 3), 7);
    assert_eq!(remaining_budget(10, 10), 0);
    assert_eq!(remaining_budget(10, 11), 0);
}

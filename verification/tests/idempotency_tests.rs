use nebula::idempotency::{Claim, Slot, Store, MAX_BYTES, MAX_ENTRIES, TTL};

fn slot(tenant: &str, key: &str) -> Slot {
    Slot {
        tenant: tenant.to_string(),
        function_id: "js".to_string(),
        key: key.to_string(),
    }
}

fn claimed<T: Clone>(store: &mut Store<T>, slot: &Slot) -> &'static str {
    match store.claim(slot) {
        // A probe is not going to answer, so it gives the slot back.
        Claim::Proceed(claim) => {
            claim.release(store);
            "proceed"
        }
        Claim::Replay(_) => "replay",
        Claim::InFlight => "in-flight",
    }
}

/// Claim and answer in one step, the way a completed request does.
fn served(store: &mut Store<String>, slot: &Slot, answer: &str, replayable: bool) {
    match store.claim(slot) {
        Claim::Proceed(claim) => {
            claim.finish(store, &answer.to_string(), replayable, answer.len())
        }
        _ => panic!("expected a free slot"),
    }
}

#[test]
fn a_finished_answer_replays() {
    let mut store = Store::new();
    let slot = slot("a", "k1");

    served(&mut store, &slot, "result", true);
    match store.claim(&slot) {
        Claim::Replay(answer) => assert_eq!(answer, "result"),
        _ => panic!("an identical keyed request must replay, not re-run"),
    };
}

#[test]
fn a_claim_blocks_a_concurrent_duplicate() {
    let mut store: Store<String> = Store::new();
    let slot = slot("a", "k1");

    let held = match store.claim(&slot) {
        Claim::Proceed(claim) => claim,
        _ => panic!("expected a free slot"),
    };
    assert_eq!(claimed(&mut store, &slot), "in-flight");
    held.release(&mut store);
}

#[test]
fn an_abandoned_claim_is_released_rather_than_left_holding_the_slot() {
    let mut store: Store<String> = Store::new();
    let slot = slot("a", "k1");

    match store.claim(&slot) {
        Claim::Proceed(claim) => claim.release(&mut store),
        _ => panic!("expected a free slot"),
    }
    assert_eq!(claimed(&mut store, &slot), "proceed");
}

#[test]
fn an_unreplayable_answer_frees_the_slot_for_a_real_retry() {
    let mut store = Store::new();
    let slot = slot("a", "k1");

    served(&mut store, &slot, "shed", false);
    assert_eq!(claimed(&mut store, &slot), "proceed");
}

#[test]
fn one_tenants_key_is_invisible_to_another() {
    let mut store = Store::new();
    served(&mut store, &slot("a", "shared"), "tenant a data", true);

    assert_eq!(claimed(&mut store, &slot("b", "shared")), "proceed");
}

#[test]
fn the_same_key_on_a_different_function_is_a_different_slot() {
    let mut store = Store::new();
    let mut other = slot("a", "k1");
    other.function_id = "python".to_string();

    served(&mut store, &slot("a", "k1"), "js answer", true);
    assert_eq!(claimed(&mut store, &other), "proceed");
}

#[test]
fn a_full_store_lets_requests_through_unkeyed() {
    let mut store: Store<String> = Store::new();
    for n in 0..MAX_ENTRIES {
        served(&mut store, &slot("a", &format!("k{n}")), "x", true);
    }
    assert_eq!(store.len(), MAX_ENTRIES);

    assert_eq!(claimed(&mut store, &slot("a", "overflow")), "proceed");
    assert_eq!(store.len(), MAX_ENTRIES, "a full store must not grow");
}

#[test]
fn the_store_is_bounded_by_bytes_and_not_only_by_count() {
    let mut store: Store<String> = Store::new();
    let big = "x".repeat(1 << 20);

    for n in 0..200 {
        served(&mut store, &slot("a", &format!("big{n}")), &big, true);
    }

    assert!(
        store.bytes() <= MAX_BYTES,
        "stored {} bytes, over the {MAX_BYTES} budget",
        store.bytes()
    );
    assert!(
        store.len() < 200,
        "the byte budget must refuse entries the count cap would allow"
    );
}

#[test]
fn evicting_an_entry_returns_its_bytes_to_the_budget() {
    let mut store: Store<String> = Store::new();
    let slot = slot("a", "k1");

    served(&mut store, &slot, "some answer", true);
    assert_eq!(store.bytes(), "some answer".len());

    store.remove(&slot);
    assert_eq!(store.bytes(), 0);
}

#[test]
fn an_answer_is_forgotten_after_its_time_and_not_before() {
    let mut store: Store<String> = Store::new();
    let slot = slot("a", "k1");
    match store.claim_at(0, &slot) {
        Claim::Proceed(claim) => {
            claim.finish_at(10, &mut store, &"result".to_string(), true, 6)
        }
        _ => panic!("expected a free slot"),
    }
    assert!(matches!(store.claim_at(10 + TTL - 1, &slot), Claim::Replay(_)));
    match store.claim_at(10 + TTL, &slot) {
        Claim::Proceed(claim) => claim.release(&mut store),
        _ => panic!("an answer past its time must not replay"),
    }
    assert_eq!(store.bytes(), 0);
    assert_eq!(store.len(), 0);
}

#[test]
fn a_full_store_recovers_once_its_answers_have_aged_out() {
    let mut store: Store<String> = Store::new();
    for n in 0..MAX_ENTRIES {
        match store.claim_at(0, &slot("a", &format!("k{n}"))) {
            Claim::Proceed(claim) => claim.finish_at(0, &mut store, &"x".to_string(), true, 1),
            _ => panic!("expected a free slot"),
        }
    }
    match store.claim_at(TTL + 1, &slot("a", "late")) {
        Claim::Proceed(claim) => {
            claim.finish_at(TTL + 1, &mut store, &"y".to_string(), true, 1)
        }
        _ => panic!("expected a free slot"),
    }
    assert_eq!(store.len(), 1);
    assert_eq!(store.bytes(), 1);
}

#[test]
fn an_answer_over_the_byte_budget_is_not_kept() {
    let mut store: Store<String> = Store::new();
    let slot = slot("a", "k1");
    match store.claim(&slot) {
        Claim::Proceed(claim) => {
            claim.finish(&mut store, &"big".to_string(), true, MAX_BYTES + 1)
        }
        _ => panic!("expected a free slot"),
    }
    assert_eq!(store.bytes(), 0);
    assert_eq!(claimed(&mut store, &slot), "proceed");
}

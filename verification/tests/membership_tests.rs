use nebula::cluster::{cluster_lines, cluster_text};
use nebula::membership::{Membership, LIVENESS_TIMEOUT};

const FAST: u64 = 60_000_000;

fn beat(membership: &mut Membership, node: &str, generation: u64) -> bool {
    membership.heartbeat(node, generation, 0, 0, 0)
}

#[test]
fn registering_puts_a_worker_on_the_ring() {
    let mut membership = Membership::new(FAST);
    membership.register("worker-a", "127.0.0.1:1", 7);

    assert_eq!(membership.len(), 1);
    assert!(membership.contains("worker-a"));
    assert_eq!(
        membership.route("some-function").as_deref(),
        Some("worker-a")
    );
    assert_eq!(
        membership.address_of("worker-a").as_deref(),
        Some("127.0.0.1:1")
    );
}

#[test]
fn a_beating_worker_survives_reconciliation() {
    let mut membership = Membership::new(FAST);
    let mut now = 0;
    membership.register_at(now, "worker-a", "127.0.0.1:1", 7);

    for _ in 0..4 {
        now += FAST / 2;
        assert!(membership.heartbeat_at(now, "worker-a", 7, 0, 0, 0));
        assert!(membership.reconcile_at(now).is_empty());
    }
    assert!(membership.contains("worker-a"));
}

#[test]
fn a_silent_worker_is_removed_from_the_ring() {
    let mut membership = Membership::new(FAST);
    membership.register_at(0, "worker-a", "127.0.0.1:1", 7);
    membership.register_at(0, "worker-b", "127.0.0.1:2", 8);

    let now = FAST * 2;
    membership.heartbeat_at(now, "worker-b", 8, 0, 0, 0);

    let removed = membership.reconcile_at(now);
    assert_eq!(removed, vec!["worker-a".to_string()]);
    assert!(!membership.contains("worker-a"));
    assert_eq!(membership.len(), 1);
    for key in ["a", "b", "c", "d", "e"] {
        assert_eq!(membership.route(key).as_deref(), Some("worker-b"));
    }
}

#[test]
fn a_restarted_worker_is_told_to_register_again() {
    let mut membership = Membership::new(FAST);
    membership.register("worker-a", "127.0.0.1:1", 7);

    assert!(!beat(&mut membership, "worker-a", 999));
    assert!(membership.contains("worker-a"));

    membership.register("worker-a", "127.0.0.1:1", 999);
    assert!(beat(&mut membership, "worker-a", 999));
}

#[test]
fn an_unknown_worker_is_told_to_register() {
    let mut membership = Membership::new(FAST);
    assert!(!beat(&mut membership, "never-seen", 1));
    assert!(membership.is_empty());
}

#[test]
fn re_registering_does_not_duplicate_the_node() {
    let mut membership = Membership::new(FAST);
    membership.register("worker-a", "127.0.0.1:1", 7);
    membership.register("worker-a", "127.0.0.1:1", 7);
    assert_eq!(membership.len(), 1);
}

#[test]
fn a_worker_is_removed_only_past_the_timeout() {
    let mut membership = Membership::with_defaults();
    membership.register_at(5, "worker-a", "127.0.0.1:1", 7);
    assert!(membership.reconcile_at(5 + LIVENESS_TIMEOUT).is_empty());
    assert_eq!(
        membership.reconcile_at(6 + LIVENESS_TIMEOUT),
        vec!["worker-a".to_string()]
    );
    assert!(membership.is_empty());
    assert_eq!(membership.route("anything"), None);
}

#[test]
fn a_beat_of_another_generation_does_not_refresh_liveness() {
    let mut membership = Membership::new(FAST);
    membership.register_at(0, "worker-a", "127.0.0.1:1", 7);
    assert!(!membership.heartbeat_at(FAST, "worker-a", 8, 0, 0, 0));
    assert_eq!(
        membership.reconcile_at(FAST + 1),
        vec!["worker-a".to_string()]
    );
}

#[test]
fn a_plan_visits_every_worker_once_and_skips_the_hot_ones_first() {
    let mut membership = Membership::new(FAST);
    for (n, node) in ["worker-a", "worker-b", "worker-c"].iter().enumerate() {
        membership.register_at(0, node, &format!("127.0.0.1:{n}"), 1);
    }
    let cold = membership.route_plan("some-function");
    let order: Vec<String> = cold.iter().map(|(node, _)| node.clone()).collect();
    assert_eq!(order, membership.candidates("some-function"));
    assert_eq!(Some(order[0].clone()), membership.route("some-function"));

    // Three loads of 0, 0 and 30: the mean is 10, and 30 is more than a
    // quarter over it.
    membership.heartbeat_at(1, &order[0], 1, 30, 0, 0);
    let hot = membership.route_plan("some-function");
    let after: Vec<String> = hot.iter().map(|(node, _)| node.clone()).collect();
    assert_eq!(
        after,
        vec![order[1].clone(), order[2].clone(), order[0].clone()]
    );
    for (node, address) in hot {
        assert_eq!(membership.address_of(&node), Some(address));
    }
}

#[test]
fn a_snapshot_reports_the_last_beat() {
    let mut membership = Membership::new(FAST);
    membership.register_at(0, "worker-a", "127.0.0.1:1", 7);
    membership.heartbeat_at(9, "worker-a", 7, 3, 4, 5);
    let rows = membership.snapshot();
    assert_eq!(rows.len(), 1);
    let (node, state) = &rows[0];
    assert_eq!(node, "worker-a");
    assert_eq!(state.address, "127.0.0.1:1");
    assert_eq!(state.generation, 7);
    assert_eq!(state.last_seen, 9);
    assert_eq!(state.in_flight, 3);
    assert_eq!(state.queue_depth, 4);
    assert_eq!(state.cache_bytes, 5);

    membership.register_at(9, "a-worker", "127.0.0.1:2", 1);
    let rows = membership.snapshot();
    let lines = vec![
        "a-worker 127.0.0.1:2 in_flight=0 queue=0 cache_bytes=0".to_string(),
        "worker-a 127.0.0.1:1 in_flight=3 queue=4 cache_bytes=5".to_string(),
    ];
    assert_eq!(cluster_lines(&rows), lines);
    assert_eq!(cluster_text(&rows), lines.join("\n"));
}

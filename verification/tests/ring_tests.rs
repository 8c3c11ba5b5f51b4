use nebula::ring::{Ring, VIRTUAL_NODES};
use std::collections::{HashMap, HashSet};

const NODES: [&str; 3] = ["worker-a", "worker-b", "worker-c"];

/// Deterministic xorshift64. Reproducible on purpose: a distribution failure
/// should be investigable, not re-rollable.
fn seeded_keys(count: usize, seed: u64) -> Vec<String> {
    let mut state: u64 = seed | 1; // xorshift64 is dead at zero
    (0..count)
        .map(|_| {
            state ^= state << 13;
            state ^= state >> 7;
            state ^= state << 17;
            format!("fn-{state:016x}")
        })
        .collect()
}

fn random_keys(count: usize) -> Vec<String> {
    seeded_keys(count, 0x2545_f491_4f6c_dd1d)
}

fn ring_of(nodes: &[&str]) -> Ring {
    let mut ring = Ring::new();
    for node in nodes {
        ring.insert(node);
    }
    ring
}

/// Worst per-node deviation from an even share, as a fraction.
fn worst_drift(ring: &Ring, keys: &[String]) -> f64 {
    let mut counts: HashMap<&str, usize> = HashMap::new();
    for key in keys {
        let owner = ring.route(key).expect("a populated ring always routes");
        *counts.entry(owner).or_default() += 1;
    }
    let expected = keys.len() as f64 / ring.len() as f64;
    ring.members()
        .into_iter()
        .map(|node| {
            let count = *counts.get(node).unwrap_or(&0) as f64;
            (count - expected).abs() / expected
        })
        .fold(0.0, f64::max)
}

#[test]
fn ten_thousand_keys_land_within_ten_percent_of_even_across_three_workers() {
    let ring = ring_of(&NODES);
    let drift = worst_drift(&ring, &random_keys(10_000));

    assert!(
        drift <= 0.10,
        "worst worker was {:.1}% off even across 10000 keys (limit 10%)",
        drift * 100.0
    );
}

#[test]
fn distribution_holds_across_many_key_sets() {
    let ring = ring_of(&NODES);
    let mut drifts: Vec<f64> = (0..64u64)
        .map(|seed| {
            let keys = seeded_keys(10_000, seed.wrapping_mul(0x9e37_79b9_7f4a_7c15));
            worst_drift(&ring, &keys)
        })
        .collect();
    drifts.sort_by(f64::total_cmp);

    let median = drifts[drifts.len() / 2];
    let max = *drifts.last().expect("64 samples");

    assert!(
        median <= 0.10,
        "typical drift {:.1}% exceeds 10%",
        median * 100.0
    );
    assert!(
        max <= 0.15,
        "worst drift {:.1}% is past what the 1/sqrt({VIRTUAL_NODES}) model predicts; \
         the hash or the virtual node count changed",
        max * 100.0
    );
}

#[test]
fn the_ring_carries_exactly_160_virtual_nodes_per_worker() {
    assert_eq!(VIRTUAL_NODES, 160);
    let ring = ring_of(&NODES);
    assert_eq!(ring.virtual_nodes(), 160 * NODES.len());
    assert_eq!(ring.len(), NODES.len());
}

#[test]
fn routing_is_stable_for_the_same_key() {
    let ring = ring_of(&NODES);
    for key in random_keys(200) {
        assert_eq!(ring.route(&key), ring.route(&key));
    }
}

#[test]
fn an_empty_ring_routes_nowhere() {
    let ring = Ring::new();
    assert!(ring.is_empty());
    assert_eq!(ring.route("anything"), None);
    assert_eq!(ring.candidates("anything").len(), 0);
}

#[test]
fn a_single_worker_owns_the_whole_keyspace() {
    let ring = ring_of(&["only"]);
    for key in random_keys(500) {
        assert_eq!(ring.route(&key), Some("only"));
    }
}

#[test]
fn insert_is_idempotent() {
    let mut ring = ring_of(&NODES);
    let keys = random_keys(500);
    let before: Vec<String> = keys
        .iter()
        .map(|key| ring.route(key).unwrap().to_string())
        .collect();

    ring.insert("worker-b");

    assert_eq!(ring.len(), 3);
    assert_eq!(ring.virtual_nodes(), 160 * 3);
    let after: Vec<String> = keys
        .iter()
        .map(|key| ring.route(key).unwrap().to_string())
        .collect();
    assert_eq!(before, after, "a duplicate register must not move any key");
}

#[test]
fn removing_a_worker_moves_only_its_own_share() {
    let mut ring = ring_of(&NODES);
    let keys = random_keys(10_000);
    let before: Vec<String> = keys
        .iter()
        .map(|key| ring.route(key).unwrap().to_string())
        .collect();

    ring.remove("worker-b");
    assert_eq!(ring.len(), 2);
    assert!(!ring.contains("worker-b"));
    assert_eq!(ring.virtual_nodes(), 160 * 2);

    let mut moved = 0;
    for (key, was) in keys.iter().zip(&before) {
        let now = ring.route(key).unwrap();
        if now != was.as_str() {
            assert_eq!(
                was.as_str(),
                "worker-b",
                "only keys owned by the removed worker may move; {key} went {was} -> {now}"
            );
            moved += 1;
        }
    }

    let fraction = moved as f64 / keys.len() as f64;
    assert!(
        (0.23..=0.43).contains(&fraction),
        "expected roughly a third of keys to move, got {:.1}%",
        fraction * 100.0
    );
}

#[test]
fn candidates_walk_every_worker_once_starting_at_the_owner() {
    let ring = ring_of(&NODES);
    for key in random_keys(200) {
        let walk: Vec<&str> = ring.candidates(&key);
        assert_eq!(walk.len(), NODES.len(), "the walk must visit every worker");
        let unique: HashSet<&str> = walk.iter().copied().collect();
        assert_eq!(unique.len(), NODES.len(), "and each exactly once");
        assert_eq!(
            walk[0],
            ring.route(&key).unwrap(),
            "the first candidate is the owner"
        );
    }
}

#[test]
fn members_come_out_in_order_whatever_order_they_went_in() {
    let ring = ring_of(&["worker-c", "worker-a", "worker-b"]);
    assert_eq!(ring.members(), NODES.to_vec());
}

#[test]
fn removing_the_owner_leaves_the_next_candidate() {
    let ring = ring_of(&NODES);
    for key in random_keys(50) {
        let walk: Vec<String> = ring.candidates(&key).iter().map(|n| n.to_string()).collect();
        let mut smaller = ring_of(&NODES);
        smaller.remove(&walk[0]);
        assert_eq!(smaller.route(&key), Some(walk[1].as_str()));
    }
}

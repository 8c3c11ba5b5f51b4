use nebula::ratelimit::{Decision, Limit, Limiter, MAX_TENANTS};

const MILLISECOND: u64 = 1_000_000;

fn allowed(limiter: &mut Limiter, tenant: &str) -> bool {
    limiter.check(tenant) == Decision::Allowed
}

/// Spends `n` requests, returning how many were allowed.
fn spend(limiter: &mut Limiter, tenant: &str, n: usize) -> usize {
    (0..n).filter(|_| allowed(limiter, tenant)).count()
}

fn spend_at(limiter: &mut Limiter, now: u64, tenant: &str, n: usize) -> usize {
    (0..n)
        .filter(|_| limiter.check_at(now, tenant) == Decision::Allowed)
        .count()
}

#[test]
fn a_burst_is_allowed_and_then_the_rate_applies() {
    let mut limiter = Limiter::new(Limit {
        per_second: 10_000_000,
        burst: 5_000_000,
    });

    assert_eq!(spend(&mut limiter, "acme", 5), 5);
    assert!(!allowed(&mut limiter, "acme"), "the sixth exceeds the burst");
}

#[test]
fn tokens_come_back_with_time() {
    let mut limiter = Limiter::new(Limit {
        per_second: 100_000_000,
        burst: 2_000_000,
    });
    assert_eq!(spend_at(&mut limiter, 0, "acme", 2), 2);
    assert!(limiter.check_at(0, "acme") != Decision::Allowed);

    assert!(
        limiter.check_at(50 * MILLISECOND, "acme") == Decision::Allowed,
        "tokens must refill over time"
    );
}

#[test]
fn refill_never_exceeds_the_burst() {
    let mut limiter = Limiter::new(Limit {
        per_second: 1_000_000_000,
        burst: 3_000_000,
    });
    assert!(limiter.check_at(0, "acme") == Decision::Allowed);

    assert_eq!(
        spend_at(&mut limiter, 50 * MILLISECOND, "acme", 10),
        3,
        "banked more than the burst"
    );
}

#[test]
fn one_tenant_cannot_spend_anothers_budget() {
    let mut limiter = Limiter::new(Limit {
        per_second: 1_000_000,
        burst: 2_000_000,
    });

    assert_eq!(spend(&mut limiter, "noisy", 5), 2);
    assert!(!allowed(&mut limiter, "noisy"));
    assert!(
        allowed(&mut limiter, "quiet"),
        "a well-behaved tenant must not pay for a loud one"
    );
}

#[test]
fn a_refusal_says_when_to_come_back() {
    let mut limiter = Limiter::new(Limit {
        per_second: 500_000,
        burst: 1_000_000,
    });
    assert!(allowed(&mut limiter, "acme"));

    match limiter.check("acme") {
        Decision::Limited { retry_after } => {
            assert!(retry_after >= 1, "{retry_after:?}");
            assert!(retry_after <= 3, "{retry_after:?}");
        }
        Decision::Allowed => panic!("expected a refusal"),
    }
}

#[test]
fn a_flood_of_invented_tenants_cannot_grow_the_map_without_bound() {
    let mut limiter = Limiter::new(Limit {
        per_second: 1_000,
        burst: 1_000_000,
    });

    for n in 0..(MAX_TENANTS + 500) {
        limiter.check(&format!("tenant-{n}"));
    }
    assert!(limiter.tenants() <= MAX_TENANTS, "{}", limiter.tenants());
}

#[test]
fn a_full_map_refuses_newcomers_rather_than_waving_them_through() {
    let mut limiter = Limiter::new(Limit {
        per_second: 1_000,
        burst: 1_000_000,
    });
    for n in 0..MAX_TENANTS {
        assert!(limiter.check_at(0, &format!("tenant-{n}")) == Decision::Allowed);
    }

    assert!(
        limiter.check_at(0, "brand-new") != Decision::Allowed,
        "a full map must fail closed for newcomers"
    );

    let known = limiter.check_at(10 * MILLISECOND, "tenant-0");
    assert!(
        matches!(known, Decision::Limited { .. }),
        "tenant-0 has spent its budget; it should be limited on its own terms"
    );
}

#[test]
fn a_refusal_names_the_exact_second() {
    // Half a token a second: an empty bucket needs two seconds, and one that
    // has had a second of them needs one more.
    let mut limiter = Limiter::new(Limit {
        per_second: 500_000,
        burst: 1_000_000,
    });
    assert!(limiter.check_at(0, "acme") == Decision::Allowed);
    assert_eq!(
        limiter.check_at(0, "acme"),
        Decision::Limited { retry_after: 2 }
    );
    assert_eq!(
        limiter.check_at(1000 * MILLISECOND, "acme"),
        Decision::Limited { retry_after: 1 }
    );
    assert_eq!(limiter.check_at(2000 * MILLISECOND, "acme"), Decision::Allowed);
}

#[test]
fn a_bucket_that_has_refilled_makes_room_for_a_newcomer() {
    let mut limiter = Limiter::new(Limit {
        per_second: 1_000_000,
        burst: 1_000_000,
    });
    for n in 0..MAX_TENANTS {
        assert!(limiter.check_at(0, &format!("tenant-{n}")) == Decision::Allowed);
    }
    assert!(limiter.check_at(0, "brand-new") != Decision::Allowed);
    assert!(limiter.check_at(1000 * MILLISECOND, "brand-new") == Decision::Allowed);
    assert!(limiter.tenants() <= MAX_TENANTS);
}

#[test]
fn the_limits_are_what_they_are_documented_to_be() {
    let mut executions = Limiter::new(Limit::execute());
    assert_eq!(spend_at(&mut executions, 0, "acme", 500), 400);
    assert_eq!(spend_at(&mut executions, 1000 * MILLISECOND, "acme", 500), 200);

    let mut deploys = Limiter::new(Limit::deploy());
    assert_eq!(spend_at(&mut deploys, 0, "acme", 10), 5);
    assert_eq!(spend_at(&mut deploys, 5000 * MILLISECOND, "acme", 10), 1);

    let mut unlimited = Limiter::new(Limit::none());
    assert_eq!(spend_at(&mut unlimited, 0, "acme", 1000), 1000);
}

#[test]
fn one_tenant_is_held_to_its_burst_and_its_rate() {
    // Three up front and two a second: whatever the rhythm, four seconds give
    // at most 3 + 4 * 2.
    let limit = Limit {
        per_second: 2_000_000,
        burst: 3_000_000,
    };
    let mut eager = Limiter::new(limit);
    let mut granted = 0;
    for tick in 0..=400 {
        let now = tick * 10 * MILLISECOND;
        granted += spend_at(&mut eager, now, "acme", 2);
        spend_at(&mut eager, now, "someone-else", 3);
    }
    assert_eq!(granted, 11);

    let mut patient = Limiter::new(limit);
    let first = spend_at(&mut patient, 0, "acme", 1);
    let last = spend_at(&mut patient, 4000 * MILLISECOND, "acme", 100);
    assert_eq!((first, last), (1, 3));
}

#[test]
fn a_refusal_spends_nothing() {
    let limit = Limit {
        per_second: 1_000_000,
        burst: 1_000_000,
    };
    let mut asked_once = Limiter::new(limit);
    let mut asked_often = Limiter::new(limit);
    assert_eq!(spend_at(&mut asked_once, 0, "acme", 1), 1);
    assert_eq!(spend_at(&mut asked_often, 0, "acme", 1), 1);
    for tick in 1..1000 {
        assert_eq!(
            asked_often.check_at(tick * MILLISECOND, "acme"),
            Decision::Limited { retry_after: 1 }
        );
    }
    assert_eq!(spend_at(&mut asked_once, 1000 * MILLISECOND, "acme", 1), 1);
    assert_eq!(spend_at(&mut asked_often, 1000 * MILLISECOND, "acme", 1), 1);
}

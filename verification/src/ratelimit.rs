//! Per-tenant token buckets at the gateway.
//!
//! Shedding at a worker protects the cluster and says nothing about who caused
//! the saturation: one tenant in a retry loop can take every admission slot. A
//! bucket per tenant is what makes that tenant wait instead of everyone.
use crate::clock::elapsed;
use crate::clock::elapsed_between;
use crate::clock::Clock;
use crate::table::Table;
use crate::text::lemma_utf8_injective;
use vstd::prelude::*;
use vstd::utf8::encode_utf8;

verus! {

/// Ceiling on the tenants that have a bucket. Inventing tenants may be free for
/// a caller, so the map is bounded.
pub const MAX_TENANTS: usize = 10_000;

/// One token, in the millionths that limits are expressed in.
pub const TOKEN: u64 = 1_000_000;

/// One token, in the units that buckets count: millionths of a token times
/// nanoseconds, so that a rate times a time is a whole number.
pub const ONE: i128 = 1_000_000_000_000_000;

/// A refill rate and a burst size, in millionths of a token.
#[derive(Clone, Copy, PartialEq, Eq, Structural)]
pub struct Limit {
    /// Sustained rate per second.
    pub per_second: u64,
    /// What the bucket holds when full: how far ahead a caller may run.
    pub burst: u64,
}

impl Limit {
    /// What a full bucket holds, in bucket units.
    pub open spec fn cap(self) -> int {
        self.burst * 1_000_000_000
    }

    /// Executions: 200 per second, 400 at once. Generous on purpose; the point
    /// is to stop one tenant monopolising the cluster.
    pub open spec fn spec_execute() -> Limit {
        Limit { per_second: 200_000_000, burst: 400_000_000 }
    }

    /// Deploys: one every five seconds, 5 at once. Far tighter, because a
    /// deploy runs the caller's initializer on the control plane.
    pub open spec fn spec_deploy() -> Limit {
        Limit { per_second: 200_000, burst: 5_000_000 }
    }

    /// Effectively no limit: a thousand million per second.
    pub open spec fn spec_none() -> Limit {
        Limit { per_second: 1_000_000_000_000_000, burst: 1_000_000_000_000_000 }
    }

    pub fn execute() -> (out: Limit)
        ensures
            out == Limit::spec_execute(),
    {
        Limit { per_second: 200_000_000, burst: 400_000_000 }
    }

    pub fn deploy() -> (out: Limit)
        ensures
            out == Limit::spec_deploy(),
    {
        Limit { per_second: 200_000, burst: 5_000_000 }
    }

    pub fn none() -> (out: Limit)
        ensures
            out == Limit::spec_none(),
    {
        Limit { per_second: 1_000_000_000_000_000, burst: 1_000_000_000_000_000 }
    }
}

#[derive(Clone, Copy, PartialEq, Eq, Structural, Debug)]
pub enum Decision {
    Allowed,
    /// Refused, with the whole seconds until a token is available.
    Limited { retry_after: u64 },
}

/// What one tenant has left, as of a moment.
#[derive(Clone, Copy, PartialEq, Eq, Structural)]
pub struct Bucket {
    /// In bucket units. Below zero only where a burst is smaller than a token.
    pub tokens: i128,
    pub last: u64,
}

impl Bucket {
    pub open spec fn wf(self, limit: Limit) -> bool {
        -ONE <= self.tokens <= limit.cap()
    }

    /// What has accrued by `now`, were there no ceiling.
    pub open spec fn accrued(self, limit: Limit, now: u64) -> int {
        self.tokens + elapsed(self.last, now) * limit.per_second
    }

    /// What is in the bucket at `now`.
    pub open spec fn refilled(self, limit: Limit, now: u64) -> int {
        if self.accrued(limit, now) < limit.cap() {
            self.accrued(limit, now)
        } else {
            limit.cap()
        }
    }
}

/// The whole seconds until `tokens` has grown to one token: rounded up and
/// never zero, since a zero would invite a retry into another refusal.
pub open spec fn wait_for_one(limit: Limit, tokens: int) -> u64 {
    if limit.per_second == 0 {
        u64::MAX
    } else {
        let second = limit.per_second * 1_000_000_000;
        let seconds = (ONE - tokens + second - 1) / second;
        if seconds < 1 {
            1
        } else {
            seconds as u64
        }
    }
}

pub struct LimiterView {
    pub limit: Limit,
    pub buckets: Map<Seq<u8>, Bucket>,
}

impl LimiterView {
    pub open spec fn wf(self) -> bool {
        &&& self.buckets.dom().finite()
        &&& self.buckets.len() <= MAX_TENANTS
        &&& forall|k: Seq<u8>| #[trigger]
            self.buckets.contains_key(k) ==> self.buckets[k].wf(self.limit)
    }

    pub open spec fn knows(self, tenant: Seq<char>) -> bool {
        self.buckets.contains_key(encode_utf8(tenant))
    }

    pub open spec fn bucket(self, tenant: Seq<char>) -> Bucket {
        self.buckets[encode_utf8(tenant)]
    }

    /// The buckets that still owe something at `now`. One that is full carries
    /// no debt.
    pub open spec fn owing(self, now: u64) -> LimiterView {
        LimiterView {
            limit: self.limit,
            buckets: self.buckets.restrict(
                Set::new(
                    |k: Seq<u8>|
                        self.buckets.contains_key(k) && self.buckets[k].accrued(self.limit, now)
                            < self.limit.cap(),
                ),
            ),
        }
    }

    /// The map that a newcomer finds: swept first if it is full.
    pub open spec fn room(self, now: u64) -> LimiterView {
        if self.buckets.len() >= MAX_TENANTS {
            self.owing(now)
        } else {
            self
        }
    }

    pub open spec fn with(self, tenant: Seq<char>, tokens: int, now: u64) -> LimiterView {
        LimiterView {
            limit: self.limit,
            buckets: self.buckets.insert(
                encode_utf8(tenant),
                Bucket { tokens: tokens as i128, last: now },
            ),
        }
    }

    /// What a check at `now` answers.
    pub open spec fn decides(self, now: u64, tenant: Seq<char>) -> Decision {
        if self.knows(tenant) {
            let tokens = self.bucket(tenant).refilled(self.limit, now);
            if tokens < ONE {
                Decision::Limited { retry_after: wait_for_one(self.limit, tokens) }
            } else {
                Decision::Allowed
            }
        } else if self.room(now).buckets.len() >= MAX_TENANTS {
            Decision::Limited { retry_after: 1 }
        } else {
            Decision::Allowed
        }
    }

    /// What a check at `now` leaves behind.
    pub open spec fn checked(self, now: u64, tenant: Seq<char>) -> LimiterView {
        if self.knows(tenant) {
            let tokens = self.bucket(tenant).refilled(self.limit, now);
            self.with(tenant, if tokens < ONE { tokens } else { tokens - ONE }, now)
        } else if self.room(now).buckets.len() >= MAX_TENANTS {
            self.room(now)
        } else {
            self.room(now).with(tenant, self.limit.cap() - ONE, now)
        }
    }

    /// What `tenant` has to spend at `now`, in bucket units: a newcomer has its
    /// whole burst.
    pub open spec fn available(self, now: u64, tenant: Seq<char>) -> int {
        if self.knows(tenant) {
            self.bucket(tenant).refilled(self.limit, now)
        } else {
            self.limit.cap()
        }
    }

    /// After `calls`, each of a moment and a tenant.
    pub open spec fn after(self, calls: Seq<(u64, Seq<char>)>) -> LimiterView
        decreases calls.len(),
    {
        if calls.len() == 0 {
            self
        } else {
            self.after(calls.drop_last()).checked(calls.last().0, calls.last().1)
        }
    }

    /// How many of `calls` were `tenant`'s and allowed.
    pub open spec fn allowed(self, calls: Seq<(u64, Seq<char>)>, tenant: Seq<char>) -> nat
        decreases calls.len(),
    {
        if calls.len() == 0 {
            0
        } else {
            let (now, caller) = calls.last();
            self.allowed(calls.drop_last(), tenant) + if caller == tenant && self.after(
                calls.drop_last(),
            ).decides(now, tenant) is Allowed {
                1nat
            } else {
                0nat
            }
        }
    }

    /// After `n` checks at one moment.
    pub open spec fn spent(self, now: u64, tenant: Seq<char>, n: nat) -> LimiterView
        decreases n,
    {
        if n == 0 {
            self
        } else {
            self.spent(now, tenant, (n - 1) as nat).checked(now, tenant)
        }
    }
}

/// Calls in the order of their moments.
pub open spec fn in_order(calls: Seq<(u64, Seq<char>)>) -> bool {
    forall|i: int, j: int|
        0 <= i <= j < calls.len() ==> (#[trigger] calls[i]).0 <= (#[trigger] calls[j]).0
}

/// The buckets of all tenants.
pub struct Limiter {
    limit: Limit,
    clock: Clock,
    buckets: Table<Bucket>,
}

impl View for Limiter {
    type V = LimiterView;

    closed spec fn view(&self) -> LimiterView {
        LimiterView { limit: self.limit, buckets: self.buckets@ }
    }
}

/// What has accrued in `bucket`, up to the ceiling, and whether it reached it.
fn refill(limit: Limit, bucket: Bucket, now: u64) -> (out: (i128, bool))
    requires
        bucket.wf(limit),
    ensures
        out.0 == bucket.refilled(limit, now),
        out.1 == (bucket.accrued(limit, now) >= limit.cap()),
        -ONE <= out.0 <= limit.cap(),
{
    let elapsed: u64 = elapsed_between(bucket.last, now);
    assert(elapsed as int * limit.per_second as int <= u64::MAX * u64::MAX) by (nonlinear_arith)
        requires
            elapsed <= u64::MAX,
            limit.per_second <= u64::MAX,
    ;
    assert(0 <= elapsed as int * limit.per_second as int) by (nonlinear_arith)
        requires
            elapsed >= 0,
            limit.per_second >= 0,
    ;
    let gain: u128 = elapsed as u128 * limit.per_second as u128;
    let cap: i128 = limit.burst as i128 * 1_000_000_000;
    let room: u128 = (cap - bucket.tokens) as u128;
    if gain < room {
        (bucket.tokens + gain as i128, false)
    } else {
        (cap, true)
    }
}

/// Rounded up to whole seconds.
fn wait(limit: Limit, tokens: i128) -> (out: u64)
    requires
        -ONE <= tokens < ONE,
    ensures
        out == wait_for_one(limit, tokens as int),
{
    if limit.per_second == 0 {
        return u64::MAX;
    }
    let second: i128 = limit.per_second as i128 * 1_000_000_000;
    let lacking: i128 = ONE - tokens;
    let top: i128 = lacking + second - 1;
    assert(top as int / second as int <= 2_000_000_000_000_001) by (nonlinear_arith)
        requires
            top == lacking + second - 1,
            0 < lacking <= 2_000_000_000_000_000,
            second > 0,
    ;
    assert(0 <= top as int / second as int) by (nonlinear_arith)
        requires
            top >= 0,
            second > 0,
    ;
    let seconds: i128 = top / second;
    if seconds < 1 {
        1
    } else {
        seconds as u64
    }
}

impl Limiter {
    pub closed spec fn wf(&self) -> bool {
        self.buckets.wf() && self@.wf()
    }

    /// What a well-formed limiter shows is well-formed too.
    pub proof fn lemma_wf(&self)
        requires
            self.wf(),
        ensures
            self@.wf(),
    {
    }

    pub fn new(limit: Limit) -> (out: Self)
        ensures
            out.wf(),
            out@ == (LimiterView { limit, buckets: Map::empty() }),
    {
        let out = Limiter { limit, clock: Clock::start(), buckets: Table::new() };
        proof {
            out.buckets.lemma_keys();
        }
        out
    }

    /// The moment on this limiter's clock.
    pub fn now(&self) -> u64 {
        self.clock.now()
    }

    /// How many tenants have a bucket.
    pub fn tenants(&self) -> (out: usize)
        requires
            self.wf(),
        ensures
            out == self@.buckets.len(),
            out <= MAX_TENANTS,
    {
        self.buckets.len()
    }

    /// Spends one token for `tenant`, or reports how long until there is one.
    ///
    /// Refill is lazy: computed from the elapsed time on access.
    pub fn check(&mut self, tenant: &str) -> (out: Decision)
        requires
            old(self).wf(),
        ensures
            final(self).wf(),
            exists|now: u64|
                out == #[trigger] old(self)@.decides(now, tenant@) && final(self)@ == old(
                    self,
                )@.checked(now, tenant@),
    {
        let now: u64 = self.clock.now();
        let out = self.check_at(now, tenant);
        assert(out == old(self)@.decides(now, tenant@));
        out
    }

    /// As [`Limiter::check`], at `now`.
    pub fn check_at(&mut self, now: u64, tenant: &str) -> (out: Decision)
        requires
            old(self).wf(),
        ensures
            final(self).wf(),
            out == old(self)@.decides(now, tenant@),
            final(self)@ == old(self)@.checked(now, tenant@),
    {
        let key = vstd::slice::slice_to_vec(tenant.as_bytes());
        let ghost before = self@;
        proof {
            self.buckets.lemma_keys();
        }
        if let Some(bucket) = self.buckets.get(&key) {
            let (tokens, _) = refill(self.limit, *bucket, now);
            let limited = tokens < ONE;
            let left: i128 = if limited {
                tokens
            } else {
                tokens - ONE
            };
            self.buckets.put(key, Bucket { tokens: left, last: now });
            proof {
                self.buckets.lemma_keys();
                assert(before.buckets.dom().insert(encode_utf8(tenant@)) =~= before.buckets.dom());
            }
            return if limited {
                Decision::Limited { retry_after: wait(self.limit, tokens) }
            } else {
                Decision::Allowed
            };
        }
        if self.buckets.len() >= MAX_TENANTS {
            self.sweep(now);
        }
        proof {
            self.buckets.lemma_keys();
            assert(self@ == before.room(now));
            assert(!self@.buckets.contains_key(key@));
        }
        if self.buckets.len() >= MAX_TENANTS {
            // Fail closed, and only for newcomers: admitting an unknown
            // tenant would hand unlimited capacity to whoever filled the map.
            return Decision::Limited { retry_after: 1 };
        }
        let tokens: i128 = self.limit.burst as i128 * 1_000_000_000 - ONE;
        self.buckets.put(key, Bucket { tokens, last: now });
        proof {
            self.buckets.lemma_keys();
        }
        Decision::Allowed
    }

    /// Forgets every bucket that is full at `now`.
    fn sweep(&mut self, now: u64)
        requires
            old(self).wf(),
        ensures
            final(self).wf(),
            final(self)@ == old(self)@.owing(now),
    {
        let ghost start = self@.buckets;
        let mut i: usize = 0;
        while i < self.buckets.len()
            invariant
                self.wf(),
                self.limit == old(self).limit,
                start == old(self)@.buckets,
                i <= self.buckets.keys().len(),
                self.buckets@.submap_of(start),
                forall|k: Seq<u8>|
                    #![trigger start.contains_key(k)]
                    start.contains_key(k) && start[k].accrued(self.limit, now) < self.limit.cap()
                        ==> self.buckets@.contains_key(k),
                forall|j: int|
                    0 <= j < i ==> self.buckets@[#[trigger] self.buckets.keys()[j]].accrued(
                        self.limit,
                        now,
                    ) < self.limit.cap(),
            decreases self.buckets.keys().len() - i,
        {
            let ghost keys = self.buckets.keys();
            let ghost rows = self.buckets@;
            proof {
                self.buckets.lemma_keys();
                assert(self@.buckets.contains_key(keys[i as int]));
            }
            let bucket = *self.buckets.value_at(i);
            let (_, full) = refill(self.limit, bucket, now);
            if full {
                let (key, _) = self.buckets.remove_at(i);
                proof {
                    self.buckets.lemma_keys();
                    assert forall|j: int| 0 <= j < i implies self.buckets@[#[trigger] self.buckets.keys()[j]].accrued(
                        self.limit,
                        now,
                    ) < self.limit.cap() by {
                        assert(self.buckets.keys()[j] == keys[j]);
                        assert(keys[j] != keys[i as int]);
                    }
                    assert forall|k: Seq<u8>|
                        #![trigger start.contains_key(k)]
                        start.contains_key(k) && start[k].accrued(self.limit, now)
                            < self.limit.cap() implies self.buckets@.contains_key(k) by {
                        assert(rows.contains_key(k));
                        assert(rows[k] == start[k]);
                    }
                    assert(self@.wf());
                }
            } else {
                i += 1;
            }
        }
        proof {
            self.buckets.lemma_keys();
            let want = old(self)@.owing(now).buckets;
            assert forall|k: Seq<u8>|
                #![trigger self.buckets@.dom().contains(k)]
                #![trigger want.dom().contains(k)]
                self.buckets@.dom().contains(k) == want.dom().contains(k) && (want.dom().contains(k)
                    ==> self.buckets@[k] == want[k]) by {
                if self.buckets@.contains_key(k) {
                    let j = self.buckets.keys().index_of(k);
                    assert(self.buckets@[self.buckets.keys()[j]].accrued(self.limit, now)
                        < self.limit.cap());
                    assert(start.contains_key(k));
                }
                if want.dom().contains(k) {
                    assert(start.contains_key(k));
                }
            }
            assert(self.buckets@ =~= want);
        }
    }
}

/// The deploy bucket stays far tighter than the execute bucket.
pub proof fn law_deploys_are_limited_far_harder_than_executions()
    ensures
        Limit::spec_deploy().per_second * 100 < Limit::spec_execute().per_second,
        Limit::spec_deploy().burst < Limit::spec_execute().burst,
{
}

/// However long a tenant stays away, it banks no more than the burst.
pub proof fn law_refill_never_exceeds_the_burst(bucket: Bucket, limit: Limit, now: u64)
    ensures
        bucket.refilled(limit, now) <= limit.cap(),
{
}

/// A check never grows the map past its bound.
pub proof fn law_the_map_stays_bounded(limiter: LimiterView, now: u64, tenant: Seq<char>)
    requires
        limiter.wf(),
    ensures
        limiter.checked(now, tenant).buckets.dom().finite(),
        limiter.checked(now, tenant).buckets.len() <= MAX_TENANTS,
{
    lemma_room(limiter, now);
}

proof fn lemma_room(limiter: LimiterView, now: u64)
    requires
        limiter.wf(),
    ensures
        limiter.room(now).buckets.dom().finite(),
        limiter.room(now).buckets.len() <= limiter.buckets.len(),
        forall|k: Seq<u8>| #[trigger]
            limiter.room(now).buckets.contains_key(k) ==> limiter.buckets.contains_key(k)
                && limiter.room(now).buckets[k] == limiter.buckets[k],
        forall|k: Seq<u8>| #[trigger]
            limiter.buckets.contains_key(k) && !limiter.room(now).buckets.contains_key(k)
                ==> limiter.buckets[k].accrued(limiter.limit, now) >= limiter.limit.cap(),
{
    let kept = limiter.owing(now).buckets;
    assert(kept.dom().subset_of(limiter.buckets.dom()));
    vstd::set_lib::lemma_len_subset(kept.dom(), limiter.buckets.dom());
}

/// One tenant's check leaves another's bucket as it was, unless that bucket is
/// full and the map has no room.
pub proof fn law_one_tenant_cannot_spend_anothers_budget(
    limiter: LimiterView,
    now: u64,
    tenant: Seq<char>,
    other: Seq<char>,
)
    requires
        limiter.wf(),
        tenant != other,
        limiter.knows(other),
    ensures
        limiter.checked(now, tenant).knows(other) ==> limiter.checked(now, tenant).bucket(other)
            == limiter.bucket(other),
        !limiter.checked(now, tenant).knows(other) ==> limiter.bucket(other).refilled(
            limiter.limit,
            now,
        ) == limiter.limit.cap(),
{
    lemma_room(limiter, now);
    if encode_utf8(tenant) == encode_utf8(other) {
        lemma_utf8_injective(tenant, other);
    }
}

/// Forgetting a full bucket changes nothing: its tenant is answered, and left
/// with, the same as a newcomer.
pub proof fn law_forgetting_a_full_bucket_changes_nothing(
    limiter: LimiterView,
    now: u64,
    tenant: Seq<char>,
)
    requires
        limiter.wf(),
        limiter.limit.burst >= TOKEN,
        limiter.knows(tenant),
        limiter.bucket(tenant).refilled(limiter.limit, now) == limiter.limit.cap(),
    ensures
        ({
            let forgotten = LimiterView {
                limit: limiter.limit,
                buckets: limiter.buckets.remove(encode_utf8(tenant)),
            };
            &&& forgotten.decides(now, tenant) == limiter.decides(now, tenant)
            &&& forgotten.checked(now, tenant) == limiter.checked(now, tenant)
        }),
{
    let key = encode_utf8(tenant);
    let forgotten = LimiterView { limit: limiter.limit, buckets: limiter.buckets.remove(key) };
    assert(forgotten.buckets.len() == limiter.buckets.len() - 1);
    assert(forgotten.checked(now, tenant).buckets =~= limiter.checked(now, tenant).buckets);
}

/// A full map that owes everywhere refuses newcomers, and stays as it is.
pub proof fn law_a_full_map_refuses_newcomers(limiter: LimiterView, now: u64, tenant: Seq<char>)
    requires
        limiter.wf(),
        !limiter.knows(tenant),
        limiter.buckets.len() == MAX_TENANTS,
        forall|k: Seq<u8>| #[trigger]
            limiter.buckets.contains_key(k) ==> limiter.buckets[k].accrued(limiter.limit, now)
                < limiter.limit.cap(),
    ensures
        limiter.decides(now, tenant) is Limited,
        limiter.checked(now, tenant) == limiter,
{
    assert(limiter.owing(now).buckets =~= limiter.buckets);
}

/// A newcomer may spend its whole burst at once, and not one request more.
pub proof fn law_a_burst_is_allowed_and_then_the_rate_applies(
    limiter: LimiterView,
    now: u64,
    tenant: Seq<char>,
    n: nat,
)
    requires
        limiter.wf(),
        !limiter.knows(tenant),
        limiter.buckets.len() < MAX_TENANTS,
        limiter.limit.burst >= TOKEN,
    ensures
        limiter.spent(now, tenant, n).decides(now, tenant) is Allowed <==> (n + 1) * TOKEN
            <= limiter.limit.burst,
{
    if n > 0 {
        lemma_spent(limiter, now, tenant, n);
        let b = limiter.spent(now, tenant, n).bucket(tenant);
        assert(elapsed(b.last, now) * limiter.limit.per_second == 0) by (nonlinear_arith)
            requires
                elapsed(b.last, now) == 0,
        ;
    }
}

proof fn lemma_spent(limiter: LimiterView, now: u64, tenant: Seq<char>, n: nat)
    requires
        limiter.wf(),
        !limiter.knows(tenant),
        limiter.buckets.len() < MAX_TENANTS,
        limiter.limit.burst >= TOKEN,
        n > 0,
    ensures
        ({
            let after = limiter.spent(now, tenant, n);
            &&& after.limit == limiter.limit
            &&& after.knows(tenant)
            &&& after.bucket(tenant).last == now
            &&& after.bucket(tenant).tokens == if n * TOKEN <= limiter.limit.burst {
                limiter.limit.cap() - n * ONE
            } else {
                limiter.limit.cap() - (limiter.limit.burst / TOKEN) * ONE
            }
        }),
    decreases n,
{
    let cap = limiter.limit.cap();
    if n > 1 {
        let m = (n - 1) as nat;
        lemma_spent(limiter, now, tenant, m);
        let mid = limiter.spent(now, tenant, m);
        assert(limiter.spent(now, tenant, n) == mid.checked(now, tenant));
        let b = mid.bucket(tenant);
        assert(elapsed(b.last, now) * limiter.limit.per_second == 0) by (nonlinear_arith)
            requires
                elapsed(b.last, now) == 0,
        ;
        assert(b.accrued(limiter.limit, now) == b.tokens);
        assert(b.refilled(limiter.limit, now) == b.tokens);
    } else {
        assert(limiter.spent(now, tenant, 0) == limiter);
        assert(limiter.spent(now, tenant, 1) == limiter.checked(now, tenant));
    }
}

/// A refusal says when to come back: by then a token has accrued, whatever the
/// refused caller had left.
pub proof fn law_a_refusal_says_when_to_come_back(
    limiter: LimiterView,
    now: u64,
    later: u64,
    tenant: Seq<char>,
)
    requires
        limiter.wf(),
        limiter.knows(tenant),
        limiter.limit.burst >= TOKEN,
        limiter.limit.per_second > 0,
        limiter.decides(now, tenant) matches Decision::Limited { retry_after }
            && later >= now + retry_after * 1_000_000_000,
    ensures
        limiter.decides(now, tenant)->retry_after >= 1,
        limiter.checked(now, tenant).decides(later, tenant) is Allowed,
{
    let rate = limiter.limit.per_second as int;
    let tokens = limiter.bucket(tenant).refilled(limiter.limit, now);
    let second = rate * 1_000_000_000;
    let seconds = limiter.decides(now, tenant)->retry_after as int;
    let raw = (ONE - tokens + second - 1) / second;
    let after = limiter.checked(now, tenant);
    let b = after.bucket(tenant);
    assert(-ONE <= tokens <= ONE) by {
        assert(limiter.buckets[encode_utf8(tenant)].wf(limiter.limit));
        assert(elapsed(limiter.bucket(tenant).last, now) * limiter.limit.per_second >= 0)
            by (nonlinear_arith)
            requires
                elapsed(limiter.bucket(tenant).last, now) >= 0,
                limiter.limit.per_second >= 0,
        ;
    }
    assert(b.tokens == tokens);
    assert(0 <= raw <= 2_000_000_000_000_001) by (nonlinear_arith)
        requires
            raw == (ONE - tokens + second - 1) / second,
            -ONE <= tokens < ONE,
            ONE == 1_000_000_000_000_000,
            second > 0,
    ;
    assert(raw * second >= ONE - tokens) by (nonlinear_arith)
        requires
            raw == (ONE - tokens + second - 1) / second,
            second > 0,
    ;
    assert(seconds >= raw);
    assert(seconds * second >= raw * second) by (nonlinear_arith)
        requires
            seconds >= raw,
            second > 0,
    ;
    let gone = elapsed(now, later) as int;
    assert(gone >= seconds * 1_000_000_000);
    assert(gone * rate >= seconds * second) by (nonlinear_arith)
        requires
            gone >= seconds * 1_000_000_000,
            second == rate * 1_000_000_000,
            rate > 0,
    ;
    assert(b.accrued(limiter.limit, later) >= ONE);
}

/// What a check at `now` does to what a tenant has to spend then.
proof fn lemma_checked(limiter: LimiterView, now: u64, caller: Seq<char>, tenant: Seq<char>)
    requires
        limiter.wf(),
        limiter.limit.burst >= TOKEN,
    ensures
        limiter.checked(now, caller).wf(),
        limiter.checked(now, caller).limit == limiter.limit,
        limiter.checked(now, caller).available(now, tenant) == limiter.available(now, tenant) - if caller
            == tenant && limiter.decides(now, caller) is Allowed {
            ONE as int
        } else {
            0
        },
        caller == tenant && limiter.decides(now, caller) is Allowed ==> limiter.available(now, tenant)
            >= ONE,
        limiter.available(now, tenant) <= limiter.limit.cap(),
{
    let limit = limiter.limit;
    let key = encode_utf8(caller);
    let after = limiter.checked(now, caller);
    lemma_room(limiter, now);
    if encode_utf8(caller) == encode_utf8(tenant) {
        lemma_utf8_injective(caller, tenant);
    }
    if limiter.knows(caller) {
        let b = limiter.bucket(caller);
        assert(b.wf(limit));
        assert(elapsed(b.last, now) * limit.per_second >= 0) by (nonlinear_arith)
            requires
                elapsed(b.last, now) >= 0,
                limit.per_second >= 0,
        ;
        assert(limiter.buckets.dom().insert(key) =~= limiter.buckets.dom());
    }
    if after.knows(caller) {
        assert(after.bucket(caller).last == now || after == limiter.room(now));
        assert(elapsed(now, now) * limit.per_second == 0) by (nonlinear_arith)
            requires
                elapsed(now, now) == 0,
        ;
    }
    assert(after.wf()) by {
        assert forall|k: Seq<u8>| #[trigger] after.buckets.contains_key(k) implies after.buckets[k].wf(
            limit,
        ) by {
            if k != key {
                assert(limiter.buckets.contains_key(k));
            }
        }
    }
}

/// As time goes by, what a tenant has to spend grows, at the rate at most.
proof fn lemma_waited(limiter: LimiterView, from: u64, to: u64, tenant: Seq<char>)
    requires
        from <= to,
    ensures
        limiter.available(from, tenant) <= limiter.available(to, tenant),
        limiter.available(to, tenant) <= limiter.available(from, tenant) + (to - from)
            * limiter.limit.per_second,
{
    let rate = limiter.limit.per_second as int;
    let last = limiter.bucket(tenant).last;
    let a = elapsed(last, from) as int;
    let b = elapsed(last, to) as int;
    let gone = to - from;
    assert(a <= b <= a + gone);
    assert(a * rate <= b * rate <= a * rate + gone * rate && 0 <= gone * rate) by (nonlinear_arith)
        requires
            a <= b <= a + gone,
            rate >= 0,
            gone >= 0,
    ;
}

proof fn lemma_allowed(limiter: LimiterView, calls: Seq<(u64, Seq<char>)>, tenant: Seq<char>)
    requires
        limiter.wf(),
        limiter.limit.burst >= TOKEN,
        in_order(calls),
        calls.len() > 0,
    ensures
        limiter.after(calls).wf(),
        limiter.after(calls).limit == limiter.limit,
        limiter.allowed(calls, tenant) * ONE + limiter.after(calls).available(
            calls.last().0,
            tenant,
        ) <= limiter.limit.cap() + (calls.last().0 - calls[0].0) * limiter.limit.per_second,
        limiter.allowed(calls, tenant) > 0 ==> limiter.after(calls).available(
            calls.last().0,
            tenant,
        ) >= 0,
    decreases calls.len(),
{
    let init = calls.drop_last();
    let (now, caller) = calls.last();
    let mid = limiter.after(init);
    let rate = limiter.limit.per_second as int;
    if init.len() == 0 {
        assert(mid == limiter);
        lemma_checked(limiter, now, caller, tenant);
        assert((now - calls[0].0) * rate == 0) by (nonlinear_arith)
            requires
                now == calls[0].0,
        ;
    } else {
        assert forall|i: int, j: int| 0 <= i <= j < init.len() implies (#[trigger] init[i]).0 <= (
        #[trigger] init[j]).0 by {
            assert(init[i] == calls[i] && init[j] == calls[j]);
        }
        lemma_allowed(limiter, init, tenant);
        let before = init.last().0;
        assert(init.last() == calls[calls.len() - 2]);
        assert(init[0] == calls[0]);
        lemma_waited(mid, before, now, tenant);
        lemma_checked(mid, now, caller, tenant);
        assert((now - before) * rate + (before - calls[0].0) * rate == (now - calls[0].0) * rate)
            by (nonlinear_arith);
    }
}

/// However the calls of all tenants interleave, one tenant is allowed at most
/// its burst and what its rate gives in the time they span.
pub proof fn law_one_tenant_is_held_to_its_burst_and_its_rate(
    limiter: LimiterView,
    calls: Seq<(u64, Seq<char>)>,
    tenant: Seq<char>,
)
    requires
        limiter.wf(),
        limiter.limit.burst >= TOKEN,
        in_order(calls),
        calls.len() > 0,
    ensures
        limiter.allowed(calls, tenant) * ONE <= limiter.limit.cap() + (calls.last().0 - calls[0].0)
            * limiter.limit.per_second,
{
    lemma_allowed(limiter, calls, tenant);
    if limiter.allowed(calls, tenant) == 0 {
        assert(calls[0].0 <= calls[calls.len() - 1].0);
        assert((calls.last().0 - calls[0].0) * limiter.limit.per_second >= 0) by (nonlinear_arith)
            requires
                calls.last().0 - calls[0].0 >= 0,
                limiter.limit.per_second >= 0,
        ;
    }
}

/// A tenant that holds a whole token is allowed, a refusal spends nothing, and
/// whoever is refused is told to wait for a second at least.
pub proof fn law_a_refusal_spends_nothing(limiter: LimiterView, now: u64, tenant: Seq<char>)
    requires
        limiter.wf(),
        limiter.limit.burst >= TOKEN,
    ensures
        limiter.knows(tenant) ==> (limiter.decides(now, tenant) is Allowed <==> limiter.available(
            now,
            tenant,
        ) >= ONE),
        limiter.decides(now, tenant) matches Decision::Limited { retry_after } ==> {
            &&& retry_after >= 1
            &&& limiter.checked(now, tenant).available(now, tenant) == limiter.available(now, tenant)
        },
{
    lemma_checked(limiter, now, tenant, tenant);
    if let Decision::Limited { retry_after } = limiter.decides(now, tenant) {
        if limiter.knows(tenant) && limiter.limit.per_second > 0 {
            let tokens = limiter.available(now, tenant);
            let second = limiter.limit.per_second * 1_000_000_000;
            let raw = (ONE - tokens + second - 1) / second;
            let b = limiter.bucket(tenant);
            assert(b.wf(limiter.limit));
            assert(elapsed(b.last, now) * limiter.limit.per_second >= 0) by (nonlinear_arith)
                requires
                    elapsed(b.last, now) >= 0,
                    limiter.limit.per_second >= 0,
            ;
            assert(0 <= raw <= 2_000_000_000_000_001) by (nonlinear_arith)
                requires
                    raw == (ONE - tokens + second - 1) / second,
                    -ONE <= tokens < ONE,
                    ONE == 1_000_000_000_000_000,
                    second > 0,
            ;
        }
    }
}

/// Executions come at two hundred a second and four hundred at once, deploys at one
/// in five seconds and five at once; a token is a million of the units limits are
/// given in, and a thousand million times as many of a bucket's.
pub proof fn law_the_limits_are_these()
    ensures
        Limit::spec_execute().per_second == 200 * 1_000_000,
        Limit::spec_execute().burst == 400 * 1_000_000,
        5 * Limit::spec_deploy().per_second == 1_000_000,
        Limit::spec_deploy().burst == 5 * 1_000_000,
        Limit::spec_none().per_second == 1_000_000_000 * 1_000_000,
        Limit::spec_none().burst == 1_000_000_000 * 1_000_000,
        ONE == 1_000_000 * 1_000_000_000,
        MAX_TENANTS == 10_000,
{
}

/// A bucket holds what was left in it and what its rate has given since, up to the
/// burst.
pub proof fn law_a_bucket_fills_at_its_rate(bucket: Bucket, limit: Limit, now: u64)
    requires
        bucket.last <= now,
    ensures
        ({
            let full = limit.burst * 1_000_000_000;
            let grown = bucket.tokens + (now - bucket.last) * limit.per_second;
            &&& limit.cap() == full
            &&& grown <= full ==> bucket.refilled(limit, now) == grown
            &&& grown > full ==> bucket.refilled(limit, now) == full
        }),
{
}

/// A tenant that is known is allowed exactly with a whole token in its bucket, and
/// then one token is taken; a refusal takes none. Nothing of another tenant's
/// changes.
pub proof fn law_a_request_costs_one_token(
    limiter: LimiterView,
    now: u64,
    tenant: Seq<char>,
    other: Seq<char>,
)
    requires
        limiter.wf(),
        limiter.knows(tenant),
    ensures
        ({
            let held = limiter.bucket(tenant).refilled(limiter.limit, now);
            let after = limiter.checked(now, tenant);
            &&& limiter.decides(now, tenant) is Allowed <==> held >= 1_000_000_000_000_000
            &&& after.knows(tenant)
            &&& after.bucket(tenant).last == now
            &&& after.bucket(tenant).tokens == (if held >= 1_000_000_000_000_000 {
                held - 1_000_000_000_000_000
            } else {
                held
            })
            &&& after.limit == limiter.limit
            &&& other != tenant ==> after.knows(other) == limiter.knows(other)
            &&& other != tenant && limiter.knows(other) ==> after.bucket(other) == limiter.bucket(
                other,
            )
        }),
{
    let held = limiter.bucket(tenant).refilled(limiter.limit, now);
    let bucket = limiter.bucket(tenant);
    assert(limiter.buckets.contains_key(encode_utf8(tenant)));
    assert(bucket.wf(limiter.limit));
    assert(elapsed(bucket.last, now) * limiter.limit.per_second >= 0) by (nonlinear_arith);
    if encode_utf8(other) == encode_utf8(tenant) {
        lemma_utf8_injective(other, tenant);
    }
}

/// A newcomer is allowed where there is room, and starts with its burst less the one
/// token; without room, once those who owe nothing were forgotten, it is refused.
pub proof fn law_a_newcomer_starts_with_its_burst(
    limiter: LimiterView,
    now: u64,
    tenant: Seq<char>,
)
    requires
        limiter.wf(),
        !limiter.knows(tenant),
    ensures
        ({
            let after = limiter.checked(now, tenant);
            &&& limiter.buckets.len() < 10_000 ==> limiter.decides(now, tenant) is Allowed
            &&& limiter.decides(now, tenant) is Allowed ==> {
                &&& after.knows(tenant)
                &&& after.bucket(tenant).last == now
                &&& after.bucket(tenant).tokens == limiter.limit.burst * 1_000_000_000
                    - 1_000_000_000_000_000
            }
            &&& limiter.decides(now, tenant) is Limited ==> !after.knows(tenant)
                && limiter.decides(now, tenant)->retry_after == 1
            &&& (forall|k: Seq<u8>|
                k != encode_utf8(tenant) && #[trigger] after.buckets.contains_key(k)
                    ==> limiter.buckets.contains_key(k) && after.buckets[k] == limiter.buckets[k])
            &&& (forall|k: Seq<u8>| #[trigger]
                limiter.buckets.contains_key(k) && !after.buckets.contains_key(k)
                    ==> limiter.buckets[k].accrued(limiter.limit, now) >= limiter.limit.cap())
        }),
{
    lemma_room(limiter, now);
}

/// The wait that a refused tenant is told is the shortest whole number of seconds in
/// which a token accrues.
pub proof fn law_the_wait_is_as_short_as_can_be(limit: Limit, tokens: int)
    requires
        -ONE <= tokens < ONE,
        limit.per_second > 0,
    ensures
        ({
            let seconds = wait_for_one(limit, tokens);
            &&& seconds >= 1
            &&& tokens + seconds * (limit.per_second * 1_000_000_000) >= 1_000_000_000_000_000
            &&& seconds > 1 ==> tokens + (seconds - 1) * (limit.per_second * 1_000_000_000)
                < 1_000_000_000_000_000
        }),
{
    let second = limit.per_second * 1_000_000_000;
    let lacking = ONE - tokens;
    let exact = (lacking + second - 1) / second;
    vstd::arithmetic::div_mod::lemma_fundamental_div_mod(lacking + second - 1, second);
    let rest = (lacking + second - 1) % second;
    assert(0 <= rest < second);
    assert(second * exact == exact * second) by (nonlinear_arith);
    assert(exact * second + rest == lacking + second - 1);
    assert(exact >= 1) by (nonlinear_arith)
        requires
            exact * second + rest == lacking + second - 1,
            rest < second,
            lacking >= 1,
            second > 0,
    ;
    assert(exact <= lacking + second - 1) by (nonlinear_arith)
        requires
            exact * second + rest == lacking + second - 1,
            0 <= rest,
            second >= 1,
            exact >= 1,
    ;
    assert(exact <= 2_000_000_000_000_001) by (nonlinear_arith)
        requires
            exact * second + rest == lacking + second - 1,
            0 <= rest,
            second >= 1_000_000_000,
            lacking <= 2_000_000_000_000_000,
            exact >= 1,
    ;
    assert((exact - 1) * second == exact * second - second) by (nonlinear_arith);
    assert(wait_for_one(limit, tokens) == exact);
}

} // verus!

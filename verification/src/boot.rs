//! A guest with an expensive boot: it sieves primes and hashes them, so that
//! pre-initializing it has something to save.
use crate::text::decimal;
use crate::text::decimal_text;
use vstd::prelude::*;
use vstd::string::StringExecFns;

verus! {

/// Sieve bound.
pub const SIEVE_LIMIT: usize = 200_000;

/// Hash rounds: the knob for boot cost.
pub const HASH_ROUNDS: u64 = 15_000_000;

pub const FNV_OFFSET: u64 = 0xcbf2_9ce4_8422_2325;

pub const FNV_PRIME: u64 = 0x0000_0100_0000_01b3;

pub open spec fn divides(d: int, n: int) -> bool {
    d > 0 && n % d == 0
}

pub open spec fn is_prime(n: int) -> bool {
    n >= 2 && forall|d: int| 2 <= d < n ==> !#[trigger] divides(d, n)
}

/// The primes below `limit`, in order.
pub open spec fn primes_below(limit: nat) -> Seq<u32>
    decreases limit,
{
    if limit == 0 {
        Seq::empty()
    } else {
        let rest = primes_below((limit - 1) as nat);
        if is_prime(limit - 1) {
            rest.push((limit - 1) as u32)
        } else {
            rest
        }
    }
}

/// Whether a prime below `bound` divides `n`, other than `n` itself.
pub open spec fn has_factor_below(n: int, bound: int) -> bool {
    exists|p: int| 2 <= p < bound && p < n && is_prime(p) && #[trigger] divides(p, n)
}

/// The smallest divisor of a number is prime.
proof fn lemma_prime_factor(n: int, d: int)
    requires
        2 <= d < n,
        divides(d, n),
    ensures
        exists|p: int| 2 <= p <= d && is_prime(p) && #[trigger] divides(p, n),
    decreases d,
{
    if is_prime(d) {
        assert(divides(d, n));
    } else {
        let e = choose|e: int| 2 <= e < d && #[trigger] divides(e, d);
        lemma_divides_through(e, d, n);
        lemma_prime_factor(n, e);
    }
}

proof fn lemma_divides_through(e: int, d: int, n: int)
    requires
        divides(e, d),
        divides(d, n),
    ensures
        divides(e, n),
{
    let a = d / e;
    let b = n / d;
    vstd::arithmetic::div_mod::lemma_fundamental_div_mod(d, e);
    vstd::arithmetic::div_mod::lemma_fundamental_div_mod(n, d);
    assert(n == e * (a * b)) by (nonlinear_arith)
        requires
            d == e * a,
            n == d * b,
    ;
    vstd::arithmetic::div_mod::lemma_mod_multiples_basic(a * b, e);
    assert(n == (a * b) * e) by (nonlinear_arith)
        requires
            n == e * (a * b),
    ;
}

/// A number is prime exactly when no prime below it divides it.
proof fn lemma_prime_iff(n: int)
    requires
        n >= 2,
    ensures
        is_prime(n) <==> !has_factor_below(n, n),
{
    if has_factor_below(n, n) {
        let p = choose|p: int| 2 <= p < n && p < n && is_prime(p) && #[trigger] divides(p, n);
        assert(divides(p, n));
    }
    if !is_prime(n) {
        let d = choose|d: int| 2 <= d < n && #[trigger] divides(d, n);
        lemma_prime_factor(n, d);
        let p = choose|p: int| 2 <= p <= d && is_prime(p) && #[trigger] divides(p, n);
        assert(2 <= p < n && p < n && is_prime(p) && divides(p, n));
    }
}

/// A multiple of a prime that is below its square has a smaller prime factor.
proof fn lemma_small_multiple(m: int, n: int)
    requires
        is_prime(n),
        n < m < n * n,
        divides(n, m),
    ensures
        has_factor_below(m, n),
{
    let k = m / n;
    vstd::arithmetic::div_mod::lemma_fundamental_div_mod(m, n);
    assert(m == n * k);
    assert(1 < k < n) by (nonlinear_arith)
        requires
            m == n * k,
            n < m < n * n,
            n >= 2,
    ;
    assert(m == k * n) by (nonlinear_arith)
        requires
            m == n * k,
    ;
    vstd::arithmetic::div_mod::lemma_mod_multiples_basic(n, k);
    assert(n * k == k * n) by (nonlinear_arith);
    assert(divides(k, m));
    assert(k < m);
    lemma_prime_factor(m, k);
    let p = choose|p: int| 2 <= p <= k && is_prime(p) && #[trigger] divides(p, m);
    assert(2 <= p < n && p < m && is_prime(p) && divides(p, m));
}

/// Crosses out the multiples of `n` from its square on.
fn cross_out(composite: &mut Vec<bool>, n: usize)
    requires
        2 <= n < old(composite)@.len() <= 0x1_0000_0000,
    ensures
        final(composite)@.len() == old(composite)@.len(),
        forall|m: int|
            #![trigger final(composite)@[m]]
            0 <= m < old(composite)@.len() ==> final(composite)@[m] == (old(composite)@[m] || (n * n
                <= m && divides(n as int, m))),
{
    let ghost before = composite@;
    let size: u64 = composite.len() as u64;
    let step: u64 = n as u64;
    assert(step * step < 0x1_0000_0000_0000_0000) by (nonlinear_arith)
        requires
            step < 0x1_0000_0000,
    ;
    let mut multiple: u64 = step * step;
    proof {
        vstd::arithmetic::div_mod::lemma_mod_multiples_basic(step as int, step as int);
    }
    while multiple < size
        invariant
            composite@.len() == before.len(),
            size == before.len(),
            size <= 0x1_0000_0000,
            2 <= step < size,
            step == n,
            step * step <= multiple,
            divides(step as int, multiple as int),
            forall|m: int|
                #![trigger composite@[m]]
                0 <= m < before.len() ==> composite@[m] == (before[m] || (step * step <= m && m
                    < multiple && divides(step as int, m))),
        decreases size + step - multiple,
    {
        let ghost now = composite@;
        composite.set(multiple as usize, true);
        proof {
            assert forall|m: int|
                #![trigger composite@[m]]
                0 <= m < before.len() implies composite@[m] == (before[m] || (step * step <= m && m
                < multiple + step && divides(step as int, m))) by {
                if multiple < m < multiple + step {
                    lemma_no_multiple_between(step as int, multiple as int, m);
                    assert(composite@[m] == now[m]);
                } else if m != multiple {
                    assert(composite@[m] == now[m]);
                }
            }
            assert(divides(step as int, multiple + step)) by {
                vstd::arithmetic::div_mod::lemma_mod_add_multiples_vanish(multiple as int, step as int);
            }
        }
        multiple = multiple + step;
    }
}

proof fn lemma_no_multiple_between(d: int, a: int, b: int)
    requires
        divides(d, a),
        a < b < a + d,
        0 <= a,
    ensures
        !divides(d, b),
{
    if divides(d, b) {
        vstd::arithmetic::div_mod::lemma_fundamental_div_mod(a, d);
        vstd::arithmetic::div_mod::lemma_fundamental_div_mod(b, d);
        let x = a / d;
        let y = b / d;
        assert(a == d * x && b == d * y);
        assert(x < y) by (nonlinear_arith)
            requires
                d * x < d * y,
                d > 0,
        ;
        assert(d * y >= d * x + d) by (nonlinear_arith)
            requires
                x < y,
                d > 0,
        ;
    }
}

/// The primes below `limit`.
pub fn sieve(limit: usize) -> (primes: Vec<u32>)
    requires
        limit <= 0x1_0000_0000,
    ensures
        primes@ == primes_below(limit as nat),
{
    let mut composite: Vec<bool> = Vec::new();
    let mut i: usize = 0;
    while i < limit
        invariant
            i <= limit,
            composite@.len() == i,
            forall|m: int| 0 <= m < i ==> !#[trigger] composite@[m],
        decreases limit - i,
    {
        composite.push(false);
        i += 1;
    }
    let mut primes: Vec<u32> = Vec::new();
    let mut n: usize = 0;
    assert(primes@ =~= primes_below(0));
    proof {
        assert forall|m: int| 0 <= m < limit implies #[trigger] composite@[m] == has_factor_below(
            m,
            0,
        ) by {}
    }
    while n < limit
        invariant
            n <= limit <= 0x1_0000_0000,
            composite@.len() == limit,
            primes@ == primes_below(n as nat),
            forall|m: int|
                #![trigger composite@[m]]
                n <= m < limit ==> composite@[m] == has_factor_below(m, n as int),
        decreases limit - n,
    {
        let ghost before = composite@;
        proof {
            if n >= 2 {
                lemma_prime_iff(n as int);
            }
            assert(before[n as int] == has_factor_below(n as int, n as int));
        }
        if n >= 2 && !composite[n] {
            assert(is_prime(n as int));
            primes.push(n as u32);
            cross_out(&mut composite, n);
            proof {
                assert forall|m: int|
                    #![trigger composite@[m]]
                    n + 1 <= m < limit implies composite@[m] == has_factor_below(m, n + 1) by {
                    assert(before[m] == has_factor_below(m, n as int));
                    assert(composite@[m] == (before[m] || (n * n <= m && divides(n as int, m))));
                    if has_factor_below(m, n as int) {
                        let p = choose|p: int|
                            2 <= p < n && p < m && is_prime(p) && #[trigger] divides(p, m);
                        assert(2 <= p < n + 1 && p < m && is_prime(p) && divides(p, m));
                    }
                    if divides(n as int, m) {
                        assert(2 <= n < n + 1 && n < m && is_prime(n as int) && divides(n as int, m));
                        if m < n * n {
                            lemma_small_multiple(m, n as int);
                        }
                    }
                    if has_factor_below(m, n + 1) {
                        let p = choose|p: int|
                            2 <= p < n + 1 && p < m && is_prime(p) && #[trigger] divides(p, m);
                        if p < n {
                            assert(2 <= p < n && p < m && is_prime(p) && divides(p, m));
                        }
                    }
                }
            }
        } else {
            proof {
                assert(!is_prime(n as int));
                assert forall|m: int|
                    #![trigger composite@[m]]
                    n + 1 <= m < limit implies composite@[m] == has_factor_below(m, n + 1) by {
                    assert(composite@[m] == has_factor_below(m, n as int));
                    if has_factor_below(m, n as int) {
                        let p = choose|p: int|
                            2 <= p < n && p < m && is_prime(p) && #[trigger] divides(p, m);
                        assert(2 <= p < n + 1 && p < m && is_prime(p) && divides(p, m));
                    }
                    if has_factor_below(m, n + 1) {
                        let p = choose|p: int|
                            2 <= p < n + 1 && p < m && is_prime(p) && #[trigger] divides(p, m);
                        assert(p != n);
                        assert(2 <= p < n && p < m && is_prime(p) && divides(p, m));
                    }
                }
            }
        }
        n += 1;
    }
    primes
}

/// The hash chain over the primes, after so many rounds.
pub open spec fn chained(primes: Seq<u32>, rounds: nat) -> u64
    decreases rounds,
{
    if rounds == 0 {
        FNV_OFFSET
    } else {
        let round = (rounds - 1) as nat;
        (chained(primes, round) ^ (primes[(round % primes.len()) as int] as u64)).wrapping_mul(
            FNV_PRIME,
        )
    }
}

/// Hashes `primes` over and over.
pub fn checksum_of(primes: &Vec<u32>, rounds: u64) -> (out: u64)
    requires
        primes@.len() > 0,
    ensures
        out == chained(primes@, rounds as nat),
{
    let size: usize = primes.len();
    let mut checksum: u64 = FNV_OFFSET;
    let mut round: u64 = 0;
    let mut at: usize = 0;
    assert(0nat % primes@.len() == 0) by {
        vstd::arithmetic::div_mod::lemma_small_mod(0, primes@.len());
    }
    while round < rounds
        invariant
            round <= rounds,
            size == primes@.len(),
            at < size,
            at == (round as nat) % primes@.len(),
            checksum == chained(primes@, round as nat),
        decreases rounds - round,
    {
        checksum = (checksum ^ (primes[at] as u64)).wrapping_mul(FNV_PRIME);
        proof {
            lemma_next_mod(round as nat, primes@.len());
        }
        at = at + 1;
        if at == size {
            at = 0;
        }
        round += 1;
    }
    checksum
}

proof fn lemma_next_mod(r: nat, n: nat)
    requires
        n > 0,
    ensures
        (r + 1) % n == if r % n + 1 == n {
            0
        } else {
            r % n + 1
        },
{
    let q = (r / n) as int;
    let m = (r % n) as int;
    vstd::arithmetic::div_mod::lemma_fundamental_div_mod(r as int, n as int);
    if m + 1 == n {
        assert(r + 1 == n * (q + 1)) by (nonlinear_arith)
            requires
                r == n * q + m,
                m + 1 == n,
        ;
        assert(r + 1 == (q + 1) * n) by (nonlinear_arith)
            requires
                r + 1 == n * (q + 1),
        ;
        vstd::arithmetic::div_mod::lemma_mod_multiples_basic(q + 1, n as int);
    } else {
        assert(r + 1 == q * n + (m + 1)) by (nonlinear_arith)
            requires
                r == n * q + m,
        ;
        vstd::arithmetic::div_mod::lemma_fundamental_div_mod_converse(
            (r + 1) as int,
            n as int,
            q,
            m + 1,
        );
    }
}

/// What booting leaves behind.
pub struct Boot {
    pub primes: Vec<u32>,
    pub checksum: u64,
}

/// The expensive boot.
pub fn boot() -> (out: Boot)
    ensures
        out.primes@ == primes_below(SIEVE_LIMIT as nat),
        out.checksum == chained(out.primes@, HASH_ROUNDS as nat),
{
    let primes = sieve(SIEVE_LIMIT);
    proof {
        lemma_two_is_there(SIEVE_LIMIT as nat);
    }
    let checksum: u64 = checksum_of(&primes, HASH_ROUNDS);
    Boot { primes, checksum }
}

proof fn lemma_two_is_there(limit: nat)
    requires
        limit >= 3,
    ensures
        primes_below(limit).len() > 0,
    decreases limit,
{
    if limit == 3 {
        assert(is_prime(2));
    } else {
        lemma_two_is_there((limit - 1) as nat);
    }
}

/// What the handler prints: a summary of the boot, or, loudly, that there was
/// none. It never boots by itself, so that an uninitialized module cannot pass
/// for a fast one.
pub fn summary(boot: Option<&Boot>) -> (out: String)
    ensures
        out@ == match boot {
            Some(boot) => decimal(boot.primes@.len()) + " "@ + decimal(boot.checksum as nat),
            None => "UNINITIALIZED"@,
        },
{
    match boot {
        Some(boot) => {
            let mut out = decimal_text(boot.primes.len() as u64);
            out.append(" ");
            out.append(decimal_text(boot.checksum).as_str());
            out
        },
        None => String::from_str("UNINITIALIZED"),
    }
}

/// The list of primes holds every prime below the bound and nothing else.
pub proof fn law_the_sieve_finds_exactly_the_primes(limit: nat, n: u32)
    requires
        limit <= 0x1_0000_0000,
    ensures
        primes_below(limit).contains(n) <==> n < limit && is_prime(n as int),
    decreases limit,
{
    if limit > 0 {
        let rest = primes_below((limit - 1) as nat);
        law_the_sieve_finds_exactly_the_primes((limit - 1) as nat, n);
        if is_prime(limit - 1) {
            let all = rest.push((limit - 1) as u32);
            assert(all[rest.len() as int] == (limit - 1) as u32);
            if rest.contains(n) {
                let i = rest.index_of(n);
                assert(all[i] == n);
            }
            if all.contains(n) {
                let i = all.index_of(n);
                if i < rest.len() {
                    assert(rest[i] == n);
                }
            }
        }
    }
}

/// The primes are in ascending order, none of them twice.
pub proof fn law_the_primes_ascend(limit: nat)
    requires
        limit <= 0x1_0000_0000,
    ensures
        forall|i: int, j: int|
            0 <= i < j < primes_below(limit).len() ==> primes_below(limit)[i] < primes_below(limit)[j],
    decreases limit,
{
    if limit > 0 {
        let rest = primes_below((limit - 1) as nat);
        let all = primes_below(limit);
        law_the_primes_ascend((limit - 1) as nat);
        assert forall|i: int, j: int| 0 <= i < j < all.len() implies all[i] < all[j] by {
            if j < rest.len() {
                assert(all[i] == rest[i] && all[j] == rest[j]);
            } else {
                law_the_sieve_finds_exactly_the_primes((limit - 1) as nat, rest[i]);
                assert(rest.contains(rest[i]));
            }
        }
    }
}

/// A prime is a number from two on that no smaller one from two on divides.
pub proof fn law_what_a_prime_is(n: int, a: int, b: int)
    requires
        is_prime(n),
        a >= 2,
        b >= 2,
    ensures
        n >= 2,
        n != a * b,
{
    if n == a * b {
        assert(a < n) by (nonlinear_arith)
            requires
                n == a * b,
                a >= 2,
                b >= 2,
        ;
        vstd::arithmetic::div_mod::lemma_mod_multiples_basic(b, a);
        assert(b * a == a * b) by (nonlinear_arith);
        assert(divides(a, n));
    }
}

/// Each round takes in the next prime, from the first again after the last; the
/// numbers are those of the 64-bit FNV-1a hash.
pub proof fn law_each_round_takes_in_one_prime(primes: Seq<u32>, round: nat)
    requires
        primes.len() > 0,
    ensures
        chained(primes, 0) == 14_695_981_039_346_656_037,
        chained(primes, round + 1) == (chained(primes, round) ^ (primes[(round
            % primes.len()) as int] as u64)).wrapping_mul(1_099_511_628_211),
        SIEVE_LIMIT == 200_000,
        HASH_ROUNDS == 15_000_000,
{
    assert(((round + 1) - 1) as nat == round);
}

} // verus!

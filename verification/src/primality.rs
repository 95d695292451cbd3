use vstd::prelude::*;
use vstd::arithmetic::power::pow;
use vstd::arithmetic::power::lemma_pow_mod_noop;
use vstd::arithmetic::power::lemma_pow_multiplies;
use vstd::arithmetic::power2::pow2;
use vstd::arithmetic::power2::lemma2_to64;
use vstd::arithmetic::power2::lemma_pow2_strictly_increases;
use vstd::arithmetic::power2::lemma_pow2_unfold;
use vstd::arithmetic::div_mod::lemma_fundamental_div_mod;
use vstd::arithmetic::div_mod::lemma_mod_multiples_basic;
use vstd::arithmetic::div_mod::lemma_mod_self_0;
use vstd::arithmetic::div_mod::lemma_small_mod;
use crate::arith::gcd;
use crate::arith::pow_mod;
use crate::arith::powmod;
use crate::arith::ggt;
use crate::arith::MODULUS_LIMIT;
use crate::rng::random_in_range;

verus! {

/// Mathematical primality: no divisor strictly between 1 and n.
pub open spec fn is_prime_spec(n: nat) -> bool {
    n >= 2 && forall|d: nat| 2 <= d < n ==> #[trigger] (n % d) != 0
}

/// The sieve bound: 541 is the hundredth prime. A number has a divisor in
/// [2, 541] exactly when one of the first hundred primes divides it, so
/// trial division by every candidate up to 541 rejects the same numbers as
/// the hundred-prime sieve does.
pub open spec fn has_small_divisor(n: nat) -> bool {
    exists|d: nat| 2 <= d <= 541 && #[trigger] (n % d) == 0
}

/// The sieve stage rejects n: a divisor of n at most 541 exists that is
/// not n itself.
pub open spec fn sieve_rejects(n: nat) -> bool {
    exists|d: nat| 2 <= d <= 541 && d != n && #[trigger] (n % d) == 0
}

/// The odd factor left after dividing out every 2.
pub open spec fn odd_part(x: nat) -> nat
    decreases x,
{
    if x > 0 && x % 2 == 0 {
        odd_part(x / 2)
    } else {
        x
    }
}

/// How many factors of 2 divide x.
pub open spec fn two_count(x: nat) -> nat
    decreases x,
{
    if x > 0 && x % 2 == 0 {
        two_count(x / 2) + 1
    } else {
        0
    }
}

/// gcd(n, x) gives no information about a factor of n: it is 1 or n itself.
pub open spec fn is_trivial_gcd(n: nat, x: nat) -> bool {
    gcd(n, x) == 1 || gcd(n, x) == n
}

/// One Miller-Rabin round on witness a. Write n - 1 = m * 2^k with m odd.
/// The round passes when a is coprime to n and either a^m = 1 (mod n), or
/// the chain of repeated squarings of a^m reaches 1 at step k while the
/// entry just before the final squaring has a trivial gcd with n after
/// adding one.
pub open spec fn mr_round_passes(n: nat, a: nat) -> bool
    recommends
        n >= 4,
{
    let m = odd_part((n - 1) as nat);
    let k = two_count((n - 1) as nat);
    gcd(n, a) == 1 && (pow_mod(a, m, n) == 1 || (k >= 1 && pow_mod(a, m * pow2(k), n) == 1
        && is_trivial_gcd(n, (pow_mod(a, m * pow2((k - 1) as nat), n) + 1) as nat)))
}

/// Sixteen witnesses in [2, n - 2] exist whose Miller-Rabin rounds all pass.
pub open spec fn mr_all_rounds(n: nat) -> bool {
    exists|ws: Seq<nat>|
        #![auto]
        ws.len() == 16 && (forall|j: int|
            0 <= j < ws.len() ==> 2 <= #[trigger] ws[j] <= n - 2 && mr_round_passes(n, ws[j]))
}

/// The smallest divisor of n between 2 and 541, by ascending trial
/// division; None when no such divisor exists.
fn smallest_small_divisor(n: u128) -> (r: Option<u128>)
    ensures
        match r {
            Some(d) => 2 <= d <= 541 && (n as nat) % (d as nat) == 0 && (forall|e: nat|
                2 <= e < d ==> #[trigger] ((n as nat) % e) != 0),
            None => !has_small_divisor(n as nat),
        },
{
    let mut d: u128 = 2;
    while d <= 541
        invariant
            2 <= d <= 542,
            forall|e: nat| 2 <= e < d ==> #[trigger] ((n as nat) % e) != 0,
        decreases 542 - d,
    {
        if n % d == 0 {
            return Some(d);
        }
        d = d + 1;
    }
    proof {
        assert(!has_small_divisor(n as nat)) by {
            if has_small_divisor(n as nat) {
                let dd = choose|dd: nat| 2 <= dd <= 541 && #[trigger] ((n as nat) % dd) == 0;
                assert((n as nat) % dd != 0);
            }
        }
    }
    None
}

/// Stage one of the primality test: does some number between 2 and the
/// sieve bound divide x?
pub fn is_divisible_small_prime(x: u128) -> (r: bool)
    ensures
        r == has_small_divisor(x as nat),
{
    match smallest_small_divisor(x) {
        Some(_) => true,
        None => false,
    }
}

/// A composite number up to 541 * 541 is caught by the sieve stage: it has
/// a divisor of at most 541 other than itself.
pub proof fn lemma_composite_has_small_divisor(n: nat)
    requires
        2 <= n <= 541 * 541,
        !is_prime_spec(n),
    ensures
        sieve_rejects(n),
{
    let d = choose|d: nat| 2 <= d < n && #[trigger] (n % d) == 0;
    lemma_fundamental_div_mod(n as int, d as int);
    let q = n as int / d as int;
    assert(n as int == (d as int) * q);
    assert(q >= 2) by (nonlinear_arith)
        requires
            n as int == (d as int) * q,
            2 <= (d as int),
            (d as int) < (n as int),
            n >= 2,
    ;
    assert(q < n as int) by (nonlinear_arith)
        requires
            n as int == (d as int) * q,
            2 <= (d as int),
            q >= 2,
    ;
    lemma_mod_multiples_basic(d as int, q);
    assert((n as int) % q == 0);
    if d <= 541 {
        assert(sieve_rejects(n));
    } else {
        assert(q <= 541) by (nonlinear_arith)
            requires
                n as int == (d as int) * q,
                (d as int) >= 542,
                q >= 2,
                n <= 541 * 541,
        ;
        let qn = q as nat;
        assert(n % qn == 0);
        assert(sieve_rejects(n));
    }
}

/// One Miller-Rabin round, made deterministic by taking the witness as an
/// argument: the result is exactly what `mr_round_passes` says of it.
pub fn miller_rabin_round(n: u128, a: u128) -> (r: bool)
    requires
        4 <= n <= MODULUS_LIMIT,
        2 <= a,
        a <= n - 2,
    ensures
        r == mr_round_passes(n as nat, a as nat),
{
    let mut m: u128 = n - 1;
    let mut k: u128 = 0;
    proof {
        lemma2_to64();
        assert((m as nat) * pow2(0) == m as nat);
    }
    while m % 2 == 0
        invariant
            1 <= m <= n - 1,
            4 <= n <= MODULUS_LIMIT,
            k <= 64,
            (m as nat) * pow2(k as nat) == (n - 1) as nat,
            odd_part((n - 1) as nat) == odd_part(m as nat),
            two_count((n - 1) as nat) == two_count(m as nat) + k,
        decreases m,
    {
        proof {
            lemma2_to64();
            lemma_pow2_unfold((k + 1) as nat);
            assert((m as nat) * pow2(k as nat) >= 2 * pow2(k as nat)) by (nonlinear_arith)
                requires
                    m >= 2,
                    pow2(k as nat) >= 0,
            ;
            if k + 1 >= 64 {
                if k + 1 > 64 {
                    lemma_pow2_strictly_increases(64, (k + 1) as nat);
                }
                assert(false);
            }
            let m2 = (m / 2) as nat;
            assert(m2 * pow2((k + 1) as nat) == (m2 * 2) * pow2(k as nat)) by (nonlinear_arith)
                requires
                    pow2((k + 1) as nat) == 2 * pow2(k as nat),
            ;
        }
        m = m / 2;
        k = k + 1;
    }
    proof {
        assert(m as nat == odd_part((n - 1) as nat));
        assert(k as nat == two_count((n - 1) as nat));
    }
    let g0 = ggt(n, a);
    if g0 != 1 {
        return false;
    }
    let b0 = powmod(a, m, n);
    if b0 == 1 {
        return true;
    }
    if k == 0 {
        return false;
    }
    let mut prev: u128 = b0;
    let mut cur: u128 = powmod(b0, 2, n);
    proof {
        lemma2_to64();
        lemma_pow_mod_noop(pow(a as int, m as nat), 2, n as int);
        lemma_pow_multiplies(a as int, m as nat, 2);
        assert((m as nat) * pow2(0) == m as nat);
        assert((prev as int) == pow_mod(a as nat, (m as nat) * pow2(0), n as nat));
        assert((m as nat) * pow2(1) == (m as nat) * 2);
        assert((cur as int) == pow_mod(a as nat, (m as nat) * pow2(1), n as nat));
    }
    let mut i: u128 = 1;
    while i < k
        invariant
            1 <= i <= k,
            4 <= n <= MODULUS_LIMIT,
            2 <= a <= n - 2,
            1 <= m,
            m as nat == odd_part((n - 1) as nat),
            k as nat == two_count((n - 1) as nat),
            gcd(n as nat, a as nat) == 1,
            pow_mod(a as nat, m as nat, n as nat) != 1,
            (cur as int) == pow_mod(a as nat, (m as nat) * pow2(i as nat), n as nat),
            (prev as int) == pow_mod(a as nat, (m as nat) * pow2((i - 1) as nat), n as nat),
            cur < n,
            prev < n,
        decreases k - i,
    {
        prev = cur;
        let ghost e_i = (m as nat) * pow2(i as nat);
        proof {
            lemma_pow_mod_noop(pow(a as int, e_i), 2, n as int);
            lemma_pow_multiplies(a as int, e_i, 2);
            lemma_pow2_unfold((i + 1) as nat);
            assert((m as nat) * pow2((i + 1) as nat) == e_i * 2) by (nonlinear_arith)
                requires
                    pow2((i + 1) as nat) == 2 * pow2(i as nat),
                    e_i == (m as nat) * pow2(i as nat),
            ;
        }
        cur = powmod(cur, 2, n);
        i = i + 1;
    }
    if cur != 1 {
        return false;
    }
    let g = ggt(n, prev + 1);
    g == 1 || g == n
}

/// One Miller-Rabin round on a witness drawn uniformly from [2, n - 2].
/// Nothing is promised of which witness was drawn, only that the result is
/// the round's verdict for some witness of that range.
pub fn miller_rabin(n: u128) -> (r: bool)
    requires
        4 <= n <= MODULUS_LIMIT,
    ensures
        exists|a: nat| 2 <= a <= (n - 2) as nat && r == #[trigger] mr_round_passes(n as nat, a),
{
    let a = random_in_range(2, n - 1);
    let result = miller_rabin_round(n, a);
    proof {
        assert(2 <= a as nat <= (n - 2) as nat && result == mr_round_passes(n as nat, a as nat));
    }
    result
}

/// Two-stage primality test: trial division by everything up to the sieve
/// bound, then sixteen Miller-Rabin rounds on fresh random witnesses, each
/// failure conclusive on its own. The verdict is exact for numbers whose
/// smallest factor is within reach of the sieve, in particular for every
/// composite up to 541 * 541; beyond that a `true` records only that all
/// sixteen rounds passed, which bounds the false-positive probability by
/// 4^-16 = 2^-32 at two bits of confidence per independent witness.
pub fn is_prime(n: u128) -> (r: bool)
    requires
        n <= MODULUS_LIMIT,
    ensures
        r ==> n >= 2,
        sieve_rejects(n as nat) ==> !r,
        !is_prime_spec(n as nat) && n <= 541 * 541 ==> !r,
        is_prime_spec(n as nat) && n <= 541 ==> r,
        r && has_small_divisor(n as nat) ==> is_prime_spec(n as nat),
        r && n >= 2 && !has_small_divisor(n as nat) ==> mr_all_rounds(n as nat),
        !r && n >= 2 && !has_small_divisor(n as nat) ==> exists|a: nat|
            2 <= a <= (n - 2) as nat && !(#[trigger] mr_round_passes(n as nat, a)),
{
    if n < 2 {
        return false;
    }
    match smallest_small_divisor(n) {
        Some(d) => {
            proof {
                if n == d {
                    assert(is_prime_spec(n as nat));
                    assert(!sieve_rejects(n as nat)) by {
                        if sieve_rejects(n as nat) {
                            let dd = choose|dd: nat|
                                2 <= dd <= 541 && dd != (n as nat) && #[trigger] ((n as nat) % dd)
                                    == 0;
                            if dd > n as nat {
                                lemma_small_mod(n as nat, dd);
                            }
                        }
                    }
                } else {
                    if d > n {
                        lemma_small_mod(n as nat, d as nat);
                        assert(false);
                    }
                    assert(sieve_rejects(n as nat));
                    assert(!is_prime_spec(n as nat));
                }
            }
            n == d
        },
        None => {
            proof {
                lemma_mod_self_0(n as int);
                if n <= 541 {
                    assert(has_small_divisor(n as nat));
                }
                assert(n >= 542);
                if !is_prime_spec(n as nat) && n <= 541 * 541 {
                    lemma_composite_has_small_divisor(n as nat);
                    let dd = choose|dd: nat|
                        2 <= dd <= 541 && dd != (n as nat) && #[trigger] ((n as nat) % dd) == 0;
                    assert(has_small_divisor(n as nat));
                }
                assert(!sieve_rejects(n as nat)) by {
                    if sieve_rejects(n as nat) {
                        let dd = choose|dd: nat|
                            2 <= dd <= 541 && dd != (n as nat) && #[trigger] ((n as nat) % dd)
                                == 0;
                        assert(has_small_divisor(n as nat));
                    }
                }
            }
            let mut t: u64 = 0;
            let ghost mut ws: Seq<nat> = Seq::empty();
            while t < 16
                invariant
                    t <= 16,
                    542 <= n <= MODULUS_LIMIT,
                    !has_small_divisor(n as nat),
                    !sieve_rejects(n as nat),
                    is_prime_spec(n as nat) || n > 541 * 541,
                    ws.len() == t as nat,
                    forall|j: int|
                        0 <= j < ws.len() ==> 2 <= #[trigger] ws[j] <= (n - 2) as nat
                            && mr_round_passes(n as nat, ws[j]),
                decreases 16 - t,
            {
                let ok = miller_rabin(n);
                if !ok {
                    proof {
                        let a = choose|a: nat|
                            2 <= a <= (n - 2) as nat && false == #[trigger] mr_round_passes(
                                n as nat,
                                a,
                            );
                        assert(2 <= a <= (n - 2) as nat && !mr_round_passes(n as nat, a));
                    }
                    return false;
                }
                proof {
                    let a = choose|a: nat|
                        2 <= a <= (n - 2) as nat && true == #[trigger] mr_round_passes(
                            n as nat,
                            a,
                        );
                    ws = ws.push(a);
                }
                t = t + 1;
            }
            proof {
                assert(ws.len() == 16);
                assert(mr_all_rounds(n as nat));
            }
            true
        },
    }
}

} // verus!

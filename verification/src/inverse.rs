use vstd::prelude::*;
use vstd::calc;
use vstd::math::max;
use vstd::math::min;
use vstd::arithmetic::div_mod::lemma_add_mod_noop;
use vstd::arithmetic::div_mod::lemma_div_nonincreasing;
use vstd::arithmetic::div_mod::lemma_fundamental_div_mod;
use vstd::arithmetic::div_mod::lemma_mod_add_multiples_vanish;
use vstd::arithmetic::div_mod::lemma_mod_bound;
use vstd::arithmetic::div_mod::lemma_mod_multiples_vanish;
use vstd::arithmetic::div_mod::lemma_mod_self_0;
use vstd::arithmetic::div_mod::lemma_mul_mod_noop_left;
use vstd::arithmetic::div_mod::lemma_mul_mod_noop_right;
use vstd::arithmetic::div_mod::lemma_small_mod;
use vstd::arithmetic::div_mod::lemma_sub_mod_noop;
use vstd::arithmetic::div_mod::lemma_sub_mod_noop_right;
use crate::arith::gcd;
use crate::arith::MODULUS_LIMIT;

verus! {

/// Outcome of the extended Euclidean run: the greatest common divisor `k`
/// and the two Bezout coefficients `c` and `d`, both already reduced
/// modulo the modulus that the run was asked to work under.
pub struct EEAResult {
    pub k: u128,
    pub c: u128,
    pub d: u128,
}

/// `(x + n - (y % n)) % n` is `x - y` wrapped into `[0, n)`.
proof fn lemma_wrap_sub_mod(x: int, y: int, n: int)
    requires
        n > 0,
    ensures
        (x + n - y % n) % n == (x - y) % n,
{
    lemma_sub_mod_noop_right(x + n, y, n);
    lemma_mod_add_multiples_vanish(x - y, n);
}

proof fn lemma_eea_step(c0: int, c1: int, d0: int, d1: int, big: int, small: int, m0: int, m1: int, n: int)
    requires
        2 <= n,
        0 <= c0 < n,
        0 <= c1 < n,
        0 <= d0 < n,
        0 <= d1 < n,
        1 <= m1 <= m0,
        (c0 * big + d0 * small) % n == m0 % n,
        (c1 * big + d1 * small) % n == m1 % n,
    ensures
        (((c0 + n - (c1 * (m0 / m1)) % n) % n) * big + ((d0 + n - (d1 * (m0 / m1)) % n) % n)
            * small) % n == (m0 % m1) % n,
{
    let q = m0 / m1;
    let cn = (c0 + n - (c1 * q) % n) % n;
    let dn = (d0 + n - (d1 * q) % n) % n;
    lemma_wrap_sub_mod(c0, c1 * q, n);
    lemma_wrap_sub_mod(d0, d1 * q, n);
    assert(cn % n == (c0 - c1 * q) % n) by {
        lemma_mod_bound(c0 + n - (c1 * q) % n, n);
        lemma_small_mod(cn as nat, n as nat);
    }
    assert(dn % n == (d0 - d1 * q) % n) by {
        lemma_mod_bound(d0 + n - (d1 * q) % n, n);
        lemma_small_mod(dn as nat, n as nat);
    }
    assert((cn * big) % n == ((c0 - c1 * q) * big) % n) by {
        lemma_mul_mod_noop_left(cn, big, n);
        lemma_mul_mod_noop_left(c0 - c1 * q, big, n);
    }
    assert((dn * small) % n == ((d0 - d1 * q) * small) % n) by {
        lemma_mul_mod_noop_left(dn, small, n);
        lemma_mul_mod_noop_left(d0 - d1 * q, small, n);
    }
    let x = c0 * big + d0 * small;
    let y = c1 * big + d1 * small;
    calc! {
        (==)
        (cn * big + dn * small) % n; {
            lemma_add_mod_noop(cn * big, dn * small, n);
        }
        ((cn * big) % n + (dn * small) % n) % n; {}
        (((c0 - c1 * q) * big) % n + ((d0 - d1 * q) * small) % n) % n; {
            lemma_add_mod_noop((c0 - c1 * q) * big, (d0 - d1 * q) * small, n);
        }
        ((c0 - c1 * q) * big + (d0 - d1 * q) * small) % n; {
            assert((c0 - c1 * q) * big + (d0 - d1 * q) * small == (c0 * big + d0 * small) - q * (c1
                * big + d1 * small)) by (nonlinear_arith);
        }
        (x - q * y) % n; {
            lemma_sub_mod_noop(x, q * y, n);
        }
        (x % n - (q * y) % n) % n; {
            lemma_mul_mod_noop_right(q, y, n);
            lemma_mul_mod_noop_right(q, m1, n);
        }
        (m0 % n - (q * m1) % n) % n; {
            lemma_sub_mod_noop(m0, q * m1, n);
        }
        (m0 - q * m1) % n; {
            lemma_fundamental_div_mod(m0, m1);
            assert(m0 - q * m1 == m0 % m1) by {
                assert(m1 * q == q * m1) by (nonlinear_arith);
            }
        }
        (m0 % m1) % n;
    }
}

/// Extended Euclidean algorithm run under a modulus: every coefficient
/// update is wrapped into `[0, n)`. The result carries gcd(a, b) together
/// with coefficients `c` and `d` satisfying the Bezout congruence
/// `c * max(a, b) + d * min(a, b) = gcd(a, b)  (mod n)`. Run on `(phi, e,
/// phi)` with coprime `e < phi`, the `d` field is therefore the modular
/// inverse of `e` modulo `phi`.
pub fn eea_mod(a: u128, b: u128, n: u128) -> (r: EEAResult)
    requires
        a > 0,
        b > 0,
        2 <= n <= MODULUS_LIMIT,
        a <= n,
        b <= n,
    ensures
        r.k == gcd(a as nat, b as nat),
        r.c < n,
        r.d < n,
        ((r.c as int) * max(a as int, b as int) + (r.d as int) * min(a as int, b as int)) % (
        n as int) == (r.k as int) % (n as int),
        a == n && r.k == 1 ==> ((r.d as int) * (b as int)) % (n as int) == 1,
{
    let mut m0: u128;
    let mut m1: u128;
    if a > b {
        m0 = a;
        m1 = b;
    } else {
        m0 = b;
        m1 = a;
        proof {
            if a < b {
                lemma_small_mod(a as nat, b as nat);
                assert(gcd(a as nat, b as nat) == gcd(b as nat, a as nat % b as nat));
            } else {
                lemma_mod_self_0(b as int);
                assert(gcd(a as nat, b as nat) == gcd(b as nat, 0));
            }
        }
    }
    let mut c0: u128 = 1;
    let mut c1: u128 = 0;
    let mut d0: u128 = 0;
    let mut d1: u128 = 1;
    let ghost big: int = max(a as int, b as int);
    let ghost small: int = min(a as int, b as int);
    proof {
        assert(gcd(m0 as nat, m1 as nat) == gcd(a as nat, b as nat));
        lemma_mod_bound(big, n as int);
        lemma_mod_bound(small, n as int);
    }
    loop
        invariant
            1 <= m1 <= m0,
            m0 <= n,
            c0 < n,
            c1 < n,
            d0 < n,
            d1 < n,
            2 <= n <= MODULUS_LIMIT,
            0 < a <= n,
            0 < b <= n,
            big == max(a as int, b as int),
            small == min(a as int, b as int),
            gcd(m0 as nat, m1 as nat) == gcd(a as nat, b as nat),
            ((c0 as int) * big + (d0 as int) * small) % (n as int) == (m0 as int) % (n as int),
            ((c1 as int) * big + (d1 as int) * small) % (n as int) == (m1 as int) % (n as int),
        decreases m1,
    {
        let remainder = m0 % m1;
        if remainder == 0 {
            proof {
                assert(gcd(m0 as nat, m1 as nat) == gcd(m1 as nat, 0));
                assert(gcd(m1 as nat, 0nat) == m1);
                if a == n && m1 == 1 {
                    assert(big == a as int && small == b as int);
                    lemma_mod_multiples_vanish(c1 as int, (d1 as int) * (b as int), n as int);
                    assert((c1 as int) * (n as int) + (d1 as int) * (b as int) == (n as int) * (
                    c1 as int) + (d1 as int) * (b as int)) by (nonlinear_arith);
                    lemma_small_mod(1nat, n as nat);
                }
            }
            return EEAResult { k: m1, c: c1, d: d1 };
        }
        let quotient = m0 / m1;
        proof {
            lemma_div_nonincreasing(m0 as int, m1 as int);
            assert((c1 as int) * (quotient as int) < 0x1_0000_0000_0000_0000_0000_0000_0000_0000)
                by (nonlinear_arith)
                requires
                    0 <= (c1 as int) < 0x1_0000_0000_0000_0000,
                    0 <= (quotient as int) <= 0x1_0000_0000_0000_0000,
            ;
            assert((d1 as int) * (quotient as int) < 0x1_0000_0000_0000_0000_0000_0000_0000_0000)
                by (nonlinear_arith)
                requires
                    0 <= (d1 as int) < 0x1_0000_0000_0000_0000,
                    0 <= (quotient as int) <= 0x1_0000_0000_0000_0000,
            ;
            lemma_mod_bound((c1 as int) * (quotient as int), n as int);
            lemma_mod_bound((d1 as int) * (quotient as int), n as int);
            lemma_eea_step(
                c0 as int,
                c1 as int,
                d0 as int,
                d1 as int,
                big,
                small,
                m0 as int,
                m1 as int,
                n as int,
            );
        }
        let new_c = (c0 + n - (c1 * quotient) % n) % n;
        let new_d = (d0 + n - (d1 * quotient) % n) % n;
        m0 = m1;
        m1 = remainder;
        c0 = c1;
        c1 = new_c;
        d0 = d1;
        d1 = new_d;
    }
}

} // verus!

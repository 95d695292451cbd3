use vstd::prelude::*;
use vstd::calc;
use vstd::arithmetic::power::pow;
use vstd::arithmetic::power::lemma_pow0;
use vstd::arithmetic::power::lemma_pow1;
use vstd::arithmetic::power::lemma_pow_adds;
use vstd::arithmetic::power::lemma_pow_multiplies;
use vstd::arithmetic::power::lemma_pow_mod_noop;
use vstd::arithmetic::power::lemma_square_is_pow2;
use vstd::arithmetic::div_mod::lemma_add_mod_noop;
use vstd::arithmetic::div_mod::lemma_fundamental_div_mod;
use vstd::arithmetic::div_mod::lemma_mod_self_0;
use vstd::arithmetic::div_mod::lemma_mul_mod_noop_left;
use vstd::arithmetic::div_mod::lemma_mul_mod_noop_right;
use vstd::arithmetic::div_mod::lemma_small_mod;
use vstd::arithmetic::div_mod::lemma_sub_mod_noop;
use vstd::arithmetic::mul::lemma_mul_inequality;

verus! {

/// Largest modulus accepted by the modular routines: keeping every operand
/// below 2^64 lets a product of two reduced operands fit in a `u128`.
pub const MODULUS_LIMIT: u128 = 0x1_0000_0000_0000_0000;

/// What modular exponentiation means: `b^e` reduced modulo `m`.
pub open spec fn pow_mod(b: nat, e: nat, m: nat) -> int {
    pow(b as int, e) % (m as int)
}

/// Greatest common divisor, by Euclid's recursion.
pub open spec fn gcd(a: nat, b: nat) -> nat
    decreases b,
{
    if b == 0 {
        a
    } else {
        gcd(b, a % b)
    }
}

/// `d` divides `x` evenly.
pub open spec fn divides(d: nat, x: nat) -> bool {
    d > 0 && x % d == 0
}

proof fn lemma_sq_mod_pow(b: int, e2: nat, m: int)
    requires
        m > 0,
    ensures
        pow((b * b) % m, e2) % m == pow(b, 2 * e2) % m,
{
    lemma_pow_mod_noop(b * b, e2, m);
    lemma_square_is_pow2(b);
    lemma_pow_multiplies(b, 2, e2);
}

proof fn lemma_powmod_step(result: int, b: int, e: nat, m: int)
    requires
        m > 0,
        e > 0,
    ensures
        e % 2 == 1 ==> (((result * b) % m) * pow((b * b) % m, (e / 2) as nat)) % m == (result
            * pow(b, e)) % m,
        e % 2 == 0 ==> (result * pow((b * b) % m, (e / 2) as nat)) % m == (result * pow(b, e)) % m,
{
    let e2 = (e / 2) as nat;
    lemma_sq_mod_pow(b, e2, m);
    let bsq = (b * b) % m;
    if e % 2 == 1 {
        assert(e == 2 * e2 + 1);
        lemma_pow_adds(b, (2 * e2) as nat, 1);
        lemma_pow1(b);
        assert(pow(b, e) == pow(b, 2 * e2) * b);
        calc! {
            (==)
            (((result * b) % m) * pow(bsq, e2)) % m; {
                lemma_mul_mod_noop_left(result * b, pow(bsq, e2), m);
            }
            ((result * b) * pow(bsq, e2)) % m; {
                lemma_mul_mod_noop_right(result * b, pow(bsq, e2), m);
            }
            ((result * b) * (pow(bsq, e2) % m)) % m; {}
            ((result * b) * (pow(b, 2 * e2) % m)) % m; {
                lemma_mul_mod_noop_right(result * b, pow(b, 2 * e2), m);
            }
            ((result * b) * pow(b, 2 * e2)) % m; {
                assert((result * b) * pow(b, 2 * e2) == result * (pow(b, 2 * e2) * b))
                    by (nonlinear_arith);
            }
            (result * (pow(b, 2 * e2) * b)) % m; {}
            (result * pow(b, e)) % m;
        }
    } else {
        assert(e == 2 * e2);
        calc! {
            (==)
            (result * pow(bsq, e2)) % m; {
                lemma_mul_mod_noop_right(result, pow(bsq, e2), m);
            }
            (result * (pow(bsq, e2) % m)) % m; {}
            (result * (pow(b, 2 * e2) % m)) % m; {
                lemma_mul_mod_noop_right(result, pow(b, 2 * e2), m);
            }
            (result * pow(b, 2 * e2)) % m; {}
            (result * pow(b, e)) % m;
        }
    }
}

/// Modular exponentiation by iterated squaring. Exponent zero yields 1 by
/// convention, whatever the base; for a positive exponent the result is
/// exactly `base^exponent mod modulo`.
pub fn powmod(base: u128, exponent: u128, modulo: u128) -> (r: u128)
    requires
        0 < modulo <= MODULUS_LIMIT,
    ensures
        exponent == 0 ==> r == 1,
        exponent > 0 ==> r as int == pow_mod(base as nat, exponent as nat, modulo as nat),
        exponent > 0 ==> r < modulo,
{
    if exponent == 0 {
        return 1;
    }
    let mut result: u128 = 1 % modulo;
    let mut b: u128 = base % modulo;
    let mut e: u128 = exponent;
    proof {
        lemma_pow_mod_noop(base as int, exponent as nat, modulo as int);
        lemma_mul_mod_noop_left(1, pow(b as int, e as nat), modulo as int);
    }
    while e > 0
        invariant
            0 < modulo <= MODULUS_LIMIT,
            result < modulo,
            b < modulo,
            (result as int * pow(b as int, e as nat)) % (modulo as int) == pow_mod(
                base as nat,
                exponent as nat,
                modulo as nat,
            ),
        decreases e,
    {
        proof {
            lemma_powmod_step(result as int, b as int, e as nat, modulo as int);
            assert((result as int) * (b as int) < (MODULUS_LIMIT as int) * (MODULUS_LIMIT as int))
                by (nonlinear_arith)
                requires
                    result < MODULUS_LIMIT,
                    b < MODULUS_LIMIT,
            ;
            assert((b as int) * (b as int) < (MODULUS_LIMIT as int) * (MODULUS_LIMIT as int))
                by (nonlinear_arith)
                requires
                    b < MODULUS_LIMIT,
            ;
        }
        if e % 2 == 1 {
            result = (result * b) % modulo;
        }
        b = (b * b) % modulo;
        e = e / 2;
    }
    proof {
        lemma_pow0(b as int);
        lemma_small_mod(result as nat, modulo as nat);
    }
    result
}

/// Greatest common divisor by Euclid's remainder loop, largest operand first.
pub fn ggt(a: u128, b: u128) -> (r: u128)
    requires
        a > 0 || b > 0,
    ensures
        r == gcd(a as nat, b as nat),
{
    let mut x: u128;
    let mut y: u128;
    if a > b {
        x = a;
        y = b;
    } else {
        x = b;
        y = a;
        proof {
            if a > 0 && a < b {
                lemma_small_mod(a as nat, b as nat);
                assert(gcd(a as nat, b as nat) == gcd(b as nat, a as nat % b as nat));
            } else if a == b {
                lemma_mod_self_0(b as int);
                assert(gcd(a as nat, b as nat) == gcd(b as nat, 0));
            } else {
                assert(a == 0);
                lemma_small_mod(0, b as nat);
                assert(gcd(a as nat, b as nat) == gcd(b as nat, 0));
                assert(gcd(b as nat, 0nat) == b);
            }
        }
    }
    proof {
        assert(gcd(x as nat, y as nat) == gcd(a as nat, b as nat));
    }
    if y == 0 {
        proof {
            assert(gcd(x as nat, 0nat) == x);
        }
        return x;
    }
    loop
        invariant
            1 <= y <= x,
            gcd(x as nat, y as nat) == gcd(a as nat, b as nat),
        decreases y,
    {
        let remainder = x % y;
        if remainder == 0 {
            proof {
                assert(gcd(x as nat, y as nat) == gcd(y as nat, 0));
                assert(gcd(y as nat, 0nat) == y);
            }
            return y;
        }
        x = y;
        y = remainder;
    }
}

/// A positive multiple of `d` plus another multiple of `d` is again a
/// multiple of `d`.
proof fn lemma_divides_add_multiple(d: nat, x: nat, y: nat, k: nat)
    requires
        divides(d, x),
        divides(d, y),
    ensures
        (k * x + y) % d == 0,
{
    lemma_mul_mod_noop_right(k as int, x as int, d as int);
    assert((x as int) % (d as int) == 0);
    assert((k as int) * ((x as int) % (d as int)) == 0) by (nonlinear_arith)
        requires
            (x as int) % (d as int) == 0,
    ;
    assert(0int % (d as int) == 0);
    assert((k as int) * (x as int) % (d as int) == 0);
    lemma_add_mod_noop((k as int) * (x as int), y as int, d as int);
    assert(((k as int) * (x as int) + (y as int)) % (d as int) == 0);
}

/// A common divisor of `a` and `b` also divides the remainder `a % b`.
proof fn lemma_divides_mod(d: nat, a: nat, b: nat)
    requires
        divides(d, a),
        divides(d, b),
        b > 0,
    ensures
        (a % b) % d == 0,
{
    let q = a as int / b as int;
    lemma_fundamental_div_mod(a as int, b as int);
    assert(a as int % b as int == a as int - b as int * q);
    lemma_mul_mod_noop_right(q, b as int, d as int);
    assert((q * b as int) % d as int == 0) by {
        lemma_mul_mod_noop_left(b as int, q, d as int);
        assert(b as int * q == q * b as int) by (nonlinear_arith);
    }
    lemma_sub_mod_noop(a as int, q * b as int, d as int);
    assert(b as int * q == q * b as int) by (nonlinear_arith);
}

/// A divisor of a positive number is no larger than it.
proof fn lemma_divides_le(d: nat, x: nat)
    requires
        divides(d, x),
        x > 0,
    ensures
        d <= x,
{
    lemma_fundamental_div_mod(x as int, d as int);
    let q = x as int / d as int;
    assert(x as int == d as int * q);
    assert(q >= 1) by (nonlinear_arith)
        requires
            d as int * q == x as int,
            d > 0,
            x > 0,
    ;
    lemma_mul_inequality(1, q, d as int);
    assert(d as int * q == q * d as int) by (nonlinear_arith);
}

/// The greatest common divisor divides both of its arguments, and it is
/// positive whenever at least one argument is.
pub proof fn lemma_gcd_divides(a: nat, b: nat)
    requires
        a > 0 || b > 0,
    ensures
        gcd(a, b) > 0,
        divides(gcd(a, b), a),
        divides(gcd(a, b), b),
    decreases b,
{
    if b == 0 {
        lemma_mod_self_0(a as int);
        lemma_small_mod(0, a as nat);
    } else {
        lemma_gcd_divides(b, a % b);
        let g = gcd(b, a % b);
        lemma_divides_add_multiple(g, b, a % b, a / b);
        lemma_fundamental_div_mod(a as int, b as int);
        assert(a == (a / b) * b + a % b);
        assert(a / b * b == b * (a / b)) by (nonlinear_arith);
    }
}

/// Every common divisor of `a` and `b` divides their greatest common
/// divisor, and so cannot exceed it: `gcd(a, b)` is the largest common
/// divisor.
pub proof fn lemma_gcd_is_largest(a: nat, b: nat, d: nat)
    requires
        a > 0 || b > 0,
        divides(d, a),
        divides(d, b),
    ensures
        divides(d, gcd(a, b)),
        d <= gcd(a, b),
    decreases b,
{
    lemma_gcd_divides(a, b);
    if b == 0 {
        lemma_divides_le(d, gcd(a, b));
    } else {
        lemma_divides_mod(d, a, b);
        lemma_gcd_is_largest(b, a % b, d);
        lemma_divides_le(d, gcd(a, b));
    }
}

} // verus!


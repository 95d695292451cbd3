use textbook_rsa::arith::ggt;
use textbook_rsa::arith::powmod;
use textbook_rsa::inverse::eea_mod;

fn naive_pow_mod(base: u128, exponent: u128, modulo: u128) -> u128 {
    let mut r: u128 = 1 % modulo;
    let mut i: u128 = 0;
    while i < exponent {
        r = (r * (base % modulo)) % modulo;
        i += 1;
    }
    r
}

#[test]
fn powmod_matches_direct_computation() {
    for base in 0u128..12 {
        for exponent in 1u128..12 {
            for modulo in 1u128..12 {
                assert_eq!(
                    powmod(base, exponent, modulo),
                    naive_pow_mod(base, exponent, modulo),
                    "base {} exponent {} modulo {}",
                    base,
                    exponent,
                    modulo
                );
            }
        }
    }
    assert_eq!(powmod(2, 10, 1000), 24);
    assert_eq!(powmod(3, 7, 100), 87);
    assert_eq!(powmod(65, 17, 3233), 2790);
}

#[test]
fn powmod_zero_exponent_is_one() {
    assert_eq!(powmod(0, 0, 5), 1);
    assert_eq!(powmod(7, 0, 2), 1);
    assert_eq!(powmod(123456, 0, 97), 1);
    assert_eq!(powmod(0, 0, 1), 1);
}

#[test]
fn ggt_concrete_values() {
    assert_eq!(ggt(12, 18), 6);
    assert_eq!(ggt(18, 12), 6);
    assert_eq!(ggt(17, 3120), 1);
    assert_eq!(ggt(3120, 17), 1);
    assert_eq!(ggt(0, 5), 5);
    assert_eq!(ggt(5, 0), 5);
    assert_eq!(ggt(7, 7), 7);
    assert_eq!(ggt(1, 999), 1);
}

#[test]
fn ggt_is_greatest_common_divisor() {
    for a in 1u128..60 {
        for b in 1u128..60 {
            let g = ggt(a, b);
            assert!(g > 0);
            assert_eq!(a % g, 0, "gcd({}, {}) = {} does not divide {}", a, b, g, a);
            assert_eq!(b % g, 0, "gcd({}, {}) = {} does not divide {}", a, b, g, b);
            let smaller = if a < b { a } else { b };
            for d in 1u128..=smaller {
                if a % d == 0 && b % d == 0 {
                    assert!(d <= g, "common divisor {} of ({}, {}) exceeds gcd {}", d, a, b, g);
                }
            }
        }
    }
}

#[test]
fn eea_mod_textbook_inverse() {
    let r = eea_mod(3120, 17, 3120);
    assert_eq!(r.k, 1);
    assert_eq!(r.d, 2753);
    assert_eq!((r.d * 17) % 3120, 1);
}

#[test]
fn eea_mod_inverse_for_coprime_pairs() {
    let pairs: [(u128, u128); 5] = [(3120, 17), (40, 7), (1046529, 34), (100, 3), (9, 2)];
    for (phi, e) in pairs {
        assert_eq!(ggt(phi, e), 1, "pair ({}, {}) is not coprime", phi, e);
        let r = eea_mod(phi, e, phi);
        assert_eq!(r.k, 1);
        assert_eq!((r.d * e) % phi, 1, "inverse of {} modulo {} failed", e, phi);
    }
}

#[test]
fn eea_mod_gcd_field() {
    let r = eea_mod(12, 18, 30);
    assert_eq!(r.k, 6);
    let r2 = eea_mod(35, 14, 100);
    assert_eq!(r2.k, 7);
}

use textbook_rsa::gen_prime;
use textbook_rsa::is_divisible_small_prime;
use textbook_rsa::is_prime;
use textbook_rsa::miller_rabin_round;

fn trial_division_is_prime(n: u128) -> bool {
    if n < 2 {
        return false;
    }
    let mut d: u128 = 2;
    while d * d <= n {
        if n % d == 0 {
            return false;
        }
        d += 1;
    }
    true
}

#[test]
fn is_prime_agrees_with_trial_division_below_ten_thousand() {
    for n in 0u128..10000 {
        assert_eq!(
            is_prime(n),
            trial_division_is_prime(n),
            "is_prime disagrees with trial division at {}",
            n
        );
    }
}

#[test]
fn is_prime_rejects_sieve_divisible_numbers() {
    assert!(!is_prime(0));
    assert!(!is_prime(1));
    assert!(is_prime(2));
    assert!(is_prime(3));
    assert!(is_prime(541));
    assert!(!is_prime(541 * 2));
    assert!(!is_prime(541 * 541));
    assert!(!is_prime(1024));
    assert!(!is_prime(3233));
}

#[test]
fn is_prime_accepts_primes_beyond_the_sieve() {
    assert!(is_prime(547));
    assert!(is_prime(4099));
    assert!(is_prime(65537));
    assert!(is_prime(999983));
    assert!(is_prime(1048573));
}

#[test]
fn sieve_stage_finds_small_divisors() {
    assert!(is_divisible_small_prime(1022));
    assert!(is_divisible_small_prime(541));
    assert!(is_divisible_small_prime(541 * 541));
    assert!(!is_divisible_small_prime(1));
    assert!(!is_divisible_small_prime(1009));
    assert!(!is_divisible_small_prime(547 * 557));
}

#[test]
fn miller_rabin_round_textbook_behavior() {
    // 221 = 13 * 17; 174 is a known strong liar for it, 137 a witness.
    assert!(miller_rabin_round(221, 174));
    assert!(!miller_rabin_round(221, 137));
    // On a prime every witness passes.
    for a in 2u128..=545 {
        assert!(miller_rabin_round(547, a), "witness {} failed on the prime 547", a);
    }
}

#[test]
fn composites_with_no_small_factor_are_rejected() {
    // Products of primes beyond the sieve bound: invisible to the sieve
    // stage, so only the Miller-Rabin rounds can reject them.
    let composites: [u128; 4] = [547 * 547, 547 * 557, 557 * 557, 547 * 563];
    for c in composites {
        for _ in 0..50 {
            assert!(!is_prime(c), "false positive on composite {}", c);
        }
    }
}

#[test]
fn gen_prime_returns_prime_in_range() {
    for _ in 0..5 {
        let p = gen_prime().expect("the attempt budget is ample for this range");
        assert!((1024..1048576).contains(&p));
        assert!(trial_division_is_prime(p), "gen_prime returned composite {}", p);
    }
}

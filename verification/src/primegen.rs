use vstd::prelude::*;
use crate::arith::MODULUS_LIMIT;
use crate::primality::has_small_divisor;
use crate::primality::is_prime;
use crate::primality::is_prime_spec;
use crate::primality::mr_all_rounds;
use crate::primality::sieve_rejects;
use crate::rng::random_in_range;

verus! {

/// How many random draws a sample-until-prime search may spend before it
/// reports exhaustion. Prime density makes reaching this bound vanishingly
/// unlikely for any range that holds a prime; the cap only turns the
/// otherwise unbounded retry loop into a terminating one.
pub const MAX_PRIME_ATTEMPTS: u64 = 100000;

/// Draw candidates uniformly from [low, high) until one passes the
/// primality test; give up with None after MAX_PRIME_ATTEMPTS draws.
/// Success cannot be owed: it depends on the random draws and on ranges
/// that actually contain primes, so None is always a possible outcome.
pub fn gen_prime_in_range(low: u128, high: u128) -> (r: Option<u128>)
    requires
        low < high,
        high <= MODULUS_LIMIT,
    ensures
        match r {
            Some(p) => {
                &&& low <= p < high
                &&& p >= 2
                &&& !sieve_rejects(p as nat)
                &&& (!is_prime_spec(p as nat) ==> p > 541 * 541)
                &&& (!has_small_divisor(p as nat) ==> mr_all_rounds(p as nat))
            },
            None => true,
        },
{
    let mut attempts: u64 = 0;
    while attempts < MAX_PRIME_ATTEMPTS
        invariant
            low < high,
            high <= MODULUS_LIMIT,
        decreases MAX_PRIME_ATTEMPTS - attempts,
    {
        let candidate = random_in_range(low, high);
        if is_prime(candidate) {
            return Some(candidate);
        }
        attempts = attempts + 1;
    }
    None
}

/// Generate a probable prime between 2^10 and 2^20, the range the key
/// generation draws its factors from; None when the attempt budget ran out.
pub fn gen_prime() -> (r: Option<u128>)
    ensures
        match r {
            Some(p) => {
                &&& 1024 <= p < 1048576
                &&& !has_small_divisor(p as nat)
                &&& mr_all_rounds(p as nat)
                &&& (p <= 541 * 541 ==> is_prime_spec(p as nat))
            },
            None => true,
        },
{
    let drawn = gen_prime_in_range(1024, 1048576);
    match drawn {
        Some(p) => {
            proof {
                assert(!has_small_divisor(p as nat)) by {
                    if has_small_divisor(p as nat) {
                        let d = choose|d: nat| 2 <= d <= 541 && #[trigger] ((p as nat) % d) == 0;
                        assert(d != p as nat);
                        assert(sieve_rejects(p as nat));
                    }
                }
            }
            Some(p)
        },
        None => None,
    }
}

} // verus!

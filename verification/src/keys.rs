use vstd::prelude::*;
use vstd::arithmetic::power::pow;
use vstd::arithmetic::power::lemma_pow_mod_noop;
use vstd::arithmetic::power::lemma_pow_multiplies;
use crate::arith::gcd;
use crate::arith::pow_mod;
use crate::arith::powmod;
use crate::arith::ggt;
use crate::arith::MODULUS_LIMIT;
use crate::inverse::eea_mod;
use crate::primality::has_small_divisor;
use crate::primality::mr_all_rounds;
use crate::primegen::gen_prime;
use crate::rng::random_in_range;

verus! {

/// Public half of an RSA key pair: exponent e and modulus n. Immutable
/// once built; consumed read-only by encryption.
pub struct RSAPublicKey {
    e: u128,
    n: u128,
}

/// Private half of an RSA key pair: exponent d and modulus n. Immutable
/// once built; consumed read-only by decryption.
pub struct RSAPrivateKey {
    d: u128,
    n: u128,
}

impl RSAPublicKey {
    pub closed spec fn exponent(&self) -> u128 {
        self.e
    }

    pub closed spec fn modulus(&self) -> u128 {
        self.n
    }

    /// The modulus is a genuine modulus and small enough for overflow-free
    /// squaring; the exponent is positive.
    pub open spec fn wf(&self) -> bool {
        1 < self.modulus() <= MODULUS_LIMIT && self.exponent() >= 1
    }

    /// Assemble a public key from an exponent and a modulus.
    pub fn new(e: u128, n: u128) -> (k: Self)
        requires
            1 <= e,
            1 < n <= MODULUS_LIMIT,
        ensures
            k.wf(),
            k.exponent() == e,
            k.modulus() == n,
    {
        RSAPublicKey { e, n }
    }

    /// Encryption: the ciphertext is m^e mod n.
    pub fn encript(&self, m: u128) -> (c: u128)
        requires
            self.wf(),
        ensures
            c as int == pow_mod(m as nat, self.exponent() as nat, self.modulus() as nat),
            c < self.modulus(),
    {
        powmod(m, self.e, self.n)
    }
}

impl RSAPrivateKey {
    pub closed spec fn exponent(&self) -> u128 {
        self.d
    }

    pub closed spec fn modulus(&self) -> u128 {
        self.n
    }

    /// The modulus is a genuine modulus and small enough for overflow-free
    /// squaring; the exponent is positive.
    pub open spec fn wf(&self) -> bool {
        1 < self.modulus() <= MODULUS_LIMIT && self.exponent() >= 1
    }

    /// Assemble a private key from an exponent and a modulus.
    pub fn new(d: u128, n: u128) -> (k: Self)
        requires
            1 <= d,
            1 < n <= MODULUS_LIMIT,
        ensures
            k.wf(),
            k.exponent() == d,
            k.modulus() == n,
    {
        RSAPrivateKey { d, n }
    }

    /// Decryption: the plaintext is c^d mod n.
    pub fn decrypt(&self, c: u128) -> (m: u128)
        requires
            self.wf(),
        ensures
            m as int == pow_mod(c as nat, self.exponent() as nat, self.modulus() as nat),
            m < self.modulus(),
    {
        powmod(c, self.d, self.n)
    }
}

/// The two keys were built from the factors p and q: both factors came out
/// of the prime generator's range with all sixteen Miller-Rabin rounds
/// passed, the shared modulus is p * q, the public exponent is coprime to
/// the totient (p - 1) * (q - 1), and the private exponent is its modular
/// inverse there.
pub open spec fn keypair_from_factors(
    sk: RSAPrivateKey,
    pk: RSAPublicKey,
    p: nat,
    q: nat,
) -> bool {
    let phi = ((p - 1) * (q - 1)) as int;
    &&& 1024 <= p < 1048576
    &&& 1024 <= q < 1048576
    &&& !has_small_divisor(p)
    &&& !has_small_divisor(q)
    &&& mr_all_rounds(p)
    &&& mr_all_rounds(q)
    &&& pk.modulus() == p * q
    &&& sk.modulus() == p * q
    &&& 32 <= pk.exponent() < 1024
    &&& gcd(phi as nat, pk.exponent() as nat) == 1
    &&& (sk.exponent() as int) < phi
    &&& ((sk.exponent() as int) * (pk.exponent() as int)) % phi == 1
}

/// Encrypting and then decrypting is one modular power: from c = m^e mod n
/// it follows that c^d mod n is m^(e * d) mod n. This is the provable half
/// of the round trip. The remaining step, that m^(e * d) mod n gives back m
/// itself when d inverts e modulo the totient, is Euler's theorem: it rests
/// on the primality of the two factors, which the probabilistic test cannot
/// establish, so it is exercised by tests rather than proved.
pub proof fn lemma_round_trip_is_single_power(m: nat, e: nat, d: nat, n: nat)
    requires
        n > 1,
    ensures
        pow_mod((pow_mod(m, e, n) as nat), d, n) == pow_mod(m, e * d, n),
{
    lemma_pow_mod_noop(pow(m as int, e), d, n as int);
    lemma_pow_multiplies(m as int, e, d);
}

/// Everything key generation promises of a pair it hands out: both keys
/// well formed, one shared modulus, and factors p and q from the prime
/// generator's range that tie exponents, modulus and totient together.
pub open spec fn valid_keypair(ks: (RSAPrivateKey, RSAPublicKey)) -> bool {
    &&& ks.0.wf()
    &&& ks.1.wf()
    &&& ks.0.modulus() == ks.1.modulus()
    &&& exists|p: nat, q: nat| #[trigger] keypair_from_factors(ks.0, ks.1, p, q)
}

/// Retry uniform draws from [2^5, 2^10) until one is coprime to the
/// totient; None once the attempt budget is spent, which the draws make
/// vanishingly unlikely.
fn pick_public_exponent(phi_n: u128) -> (e: Option<u128>)
    requires
        phi_n > 0,
    ensures
        match e {
            Some(v) => 32 <= v < 1024 && gcd(phi_n as nat, v as nat) == 1,
            None => true,
        },
{
    let mut attempts: u64 = 0;
    while attempts < 100000
        invariant
            phi_n > 0,
        decreases 100000u64 - attempts,
    {
        let pot_e = random_in_range(32, 1024);
        let g = ggt(phi_n, pot_e);
        if g == 1 {
            return Some(pot_e);
        }
        attempts = attempts + 1;
    }
    None
}

/// Generate an RSA key pair: two probable primes from [2^10, 2^20), the
/// modulus and totient derived from them, a public exponent drawn until
/// coprime to the totient, and the private exponent computed as its
/// modular inverse by the extended Euclidean algorithm. None only when a
/// retry budget inside one of the random searches ran out, which the
/// prime density of the ranges makes vanishingly unlikely.
pub fn gen_rsa_keypair() -> (keys: Option<(RSAPrivateKey, RSAPublicKey)>)
    ensures
        match keys {
            Some(ks) => valid_keypair(ks),
            None => true,
        },
{
    let prim_a = match gen_prime() {
        Some(p) => p,
        None => {
            return None;
        },
    };
    let prim_b = match gen_prime() {
        Some(p) => p,
        None => {
            return None;
        },
    };
    proof {
        assert((prim_a as int) * (prim_b as int) < 0x100_0000_0000) by (nonlinear_arith)
            requires
                prim_a < 1048576,
                prim_b < 1048576,
                prim_a >= 0,
                prim_b >= 0,
        ;
        assert((prim_a as int) * (prim_b as int) >= 1024 * 1024) by (nonlinear_arith)
            requires
                prim_a >= 1024,
                prim_b >= 1024,
        ;
        assert(((prim_a - 1) as int) * ((prim_b - 1) as int) < 0x100_0000_0000)
            by (nonlinear_arith)
            requires
                0 <= ((prim_a - 1) as int) < 1048576,
                0 <= ((prim_b - 1) as int) < 1048576,
        ;
        assert(((prim_a - 1) as int) * ((prim_b - 1) as int) >= 1023 * 1023) by (nonlinear_arith)
            requires
                (prim_a - 1) as int >= 1023,
                (prim_b - 1) as int >= 1023,
        ;
    }
    let n = prim_a * prim_b;
    let phi_n = (prim_a - 1) * (prim_b - 1);
    let e = match pick_public_exponent(phi_n) {
        Some(v) => v,
        None => {
            return None;
        },
    };
    let eea = eea_mod(phi_n, e, phi_n);
    let d = eea.d;
    proof {
        assert(d >= 1) by {
            if d == 0 {
                vstd::arithmetic::div_mod::lemma_small_mod(0nat, phi_n as nat);
                assert((0int * (e as int)) % (phi_n as int) == 0);
            }
        }
    }
    let sk = RSAPrivateKey { d, n };
    let pk = RSAPublicKey { e, n };
    let keys = (sk, pk);
    proof {
        assert(keypair_from_factors(keys.0, keys.1, prim_a as nat, prim_b as nat));
        assert(valid_keypair(keys));
    }
    Some(keys)
}

} // verus!

use textbook_rsa::arith::ggt;
use textbook_rsa::arith::powmod;
use textbook_rsa::gen_rsa_keypair;
use textbook_rsa::inverse::eea_mod;
use textbook_rsa::RSAPrivateKey;
use textbook_rsa::RSAPublicKey;

#[test]
fn it_works() {
    let (private_key, public_key) = gen_rsa_keypair().expect("key generation exhausted its budget");

    let m = 123u128;

    let c = public_key.encript(m);

    let m_1 = private_key.decrypt(c);

    assert_eq!(m, m_1);
}

#[test]
fn textbook_vector_round_trips() {
    // p = 61, q = 53: n = 3233, phi = 3120; e = 17 is coprime to phi and
    // d = 2753 is its inverse modulo phi; m = 65 encrypts to 2790.
    assert_eq!(61u128 * 53, 3233);
    assert_eq!(60u128 * 52, 3120);
    assert_eq!(ggt(3120, 17), 1);
    let inv = eea_mod(3120, 17, 3120);
    assert_eq!(inv.k, 1);
    assert_eq!(inv.d, 2753);
    assert_eq!((17u128 * 2753) % 3120, 1);
    assert_eq!(powmod(65, 17, 3233), 2790);
    assert_eq!(powmod(2790, 2753, 3233), 65);

    let public_key = RSAPublicKey::new(17, 3233);
    let private_key = RSAPrivateKey::new(2753, 3233);
    let c = public_key.encript(65);
    assert_eq!(c, 2790);
    assert_eq!(private_key.decrypt(c), 65);
}

#[test]
fn round_trip_on_generated_keys() {
    let (private_key, public_key) = gen_rsa_keypair().expect("key generation exhausted its budget");
    // The modulus is at least 2^20, so these plaintexts are all in range.
    let messages: [u128; 7] = [0, 1, 2, 65, 123, 999983, 1048575];
    for m in messages {
        let c = public_key.encript(m);
        let m_back = private_key.decrypt(c);
        assert_eq!(m, m_back, "round trip failed for {}", m);
    }
}

#[test]
fn generate_twice_yields_independent_pairs() {
    let (sk_a, pk_a) = gen_rsa_keypair().expect("key generation exhausted its budget");
    let (sk_b, pk_b) = gen_rsa_keypair().expect("key generation exhausted its budget");
    // Each pair works on its own after the other was created and used:
    // nothing is shared between the two calls.
    assert_eq!(sk_a.decrypt(pk_a.encript(123)), 123);
    assert_eq!(sk_b.decrypt(pk_b.encript(123)), 123);
    assert_eq!(sk_a.decrypt(pk_a.encript(77)), 77);
    assert_eq!(sk_b.decrypt(pk_b.encript(77)), 77);
}

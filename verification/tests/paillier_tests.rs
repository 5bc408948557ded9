use num_bigint::BigUint;
use hope::paillier::Paillier;

fn keypair(bits: usize) -> (hope::paillier::PaillierEncryptionKey, hope::paillier::PaillierDecryptionKey) {
    Paillier::keygen(bits).expect("key generation needs randomness")
}

#[test]
fn miller_generate() {
    let (ek, dk) = keypair(256);
    let n1 = Paillier::encrypt(&ek, &BigUint::from(100u64)).unwrap();
    let n2 = Paillier::encrypt(&ek, &BigUint::from(101u64)).unwrap();
    let c201 = Paillier::encrypt(&ek, &BigUint::from(201u64)).unwrap();
    let sum = Paillier::add(&ek, &n1, &n2);
    assert_eq!(
        Paillier::decrypt(&dk, &ek, &c201),
        Paillier::decrypt(&dk, &ek, &sum)
    );
}

#[test]
fn paillier_add() {
    let (ek, dk) = keypair(256);
    let n1 = Paillier::encrypt(&ek, &BigUint::from(100u64)).unwrap();
    let n2 = Paillier::encrypt(&ek, &BigUint::from(101u64)).unwrap();
    let c201 = Paillier::encrypt(&ek, &BigUint::from(201u64)).unwrap();
    let sum = Paillier::add(&ek, &n1, &n2);
    assert_eq!(
        Paillier::decrypt(&dk, &ek, &c201),
        Paillier::decrypt(&dk, &ek, &sum)
    );
}

#[test]
fn roundtrip_various_plaintexts() {
    let (ek, dk) = keypair(256);
    for m in [0u64, 1, 2, 123456789, 0xffff_ffff] {
        let c = Paillier::encrypt(&ek, &BigUint::from(m)).unwrap();
        assert_eq!(Paillier::decrypt(&dk, &ek, &c), BigUint::from(m));
    }
}

#[test]
fn subtraction_recovers_difference() {
    let (ek, dk) = keypair(256);
    let c50 = Paillier::encrypt(&ek, &BigUint::from(50u64)).unwrap();
    let c20 = Paillier::encrypt(&ek, &BigUint::from(20u64)).unwrap();
    let diff = Paillier::sub(&ek, &c50, &c20).expect("ciphertext is invertible");
    assert_eq!(Paillier::decrypt(&dk, &ek, &diff), BigUint::from(30u64));
}

#[test]
fn rerandomize_preserves_plaintext_and_changes_bits() {
    let (ek, dk) = keypair(256);
    let c = Paillier::encrypt(&ek, &BigUint::from(123u64)).unwrap();
    let mut seen: Vec<BigUint> = vec![c.clone()];
    for _ in 0..100 {
        let cr = Paillier::rerandomize(&ek, &c).unwrap();
        assert_eq!(Paillier::decrypt(&dk, &ek, &cr), BigUint::from(123u64));
        for old in &seen {
            assert_ne!(&cr, old);
        }
        seen.push(cr);
    }
}

#[test]
fn add_const_and_mul_const() {
    let (ek, dk) = keypair(256);
    let c7 = Paillier::encrypt(&ek, &BigUint::from(7u64)).unwrap();
    let plus5 = Paillier::add_const(&ek, &c7, &BigUint::from(5u64));
    assert_eq!(Paillier::decrypt(&dk, &ek, &plus5), BigUint::from(12u64));
    let times3 = Paillier::mul_const(&ek, &c7, &BigUint::from(3u64));
    assert_eq!(Paillier::decrypt(&dk, &ek, &times3), BigUint::from(21u64));
}

#[test]
fn mult_inv_inverts() {
    let (ek, _dk) = keypair(256);
    let c = Paillier::encrypt(&ek, &BigUint::from(9u64)).unwrap();
    let inv = Paillier::mult_inv(&ek, &c).expect("coprime ciphertext");
    let n2 = &ek.n * &ek.n;
    assert_eq!((&c * &inv) % &n2, BigUint::from(1u64));
}

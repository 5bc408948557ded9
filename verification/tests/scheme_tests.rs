use num_bigint::BigUint;
use hope::group::pairing;
use hope::paillier::{PaillierDecryptionKey, PaillierEncryptionKey};

fn fresh_scheme() -> hope::scheme::hope {
    hope::scheme::hope::new(String::from("demo")).expect("randomness available")
}

fn scheme_keys(h: &hope::scheme::hope) -> (PaillierDecryptionKey, PaillierEncryptionKey) {
    (h.dec_key().unwrap(), h.enc_key().unwrap())
}

#[test]
fn and() {
}

#[test]
fn add_matches_encryption_of_sum() {
    let mut h = fresh_scheme();
    let (dk, ek) = scheme_keys(&h);
    let r1 = h.encrypt(&BigUint::from(100u64)).unwrap();
    let r2 = h.encrypt(&BigUint::from(101u64)).unwrap();
    let rsum = h.add(&r1, &r2).unwrap();
    let r201 = h.encrypt(&BigUint::from(201u64)).unwrap();
    assert_eq!(h.decrypt(&rsum, &dk, &ek), h.decrypt(&r201, &dk, &ek));
    assert_eq!(h.decrypt(&rsum, &dk, &ek), BigUint::from(201u64));
}

#[test]
fn sub_recovers_difference() {
    let mut h = fresh_scheme();
    let (dk, ek) = scheme_keys(&h);
    let r1 = h.encrypt(&BigUint::from(50u64)).unwrap();
    let r2 = h.encrypt(&BigUint::from(20u64)).unwrap();
    let rdiff = h.sub(&r1, &r2).unwrap();
    assert_eq!(h.decrypt(&rdiff, &dk, &ek), BigUint::from(30u64));
}

#[test]
fn order_codes_follow_plaintext_order() {
    let mut h = fresh_scheme();
    let values = [7u64, 3, 9, 1, 5];
    let mut records = Vec::new();
    for v in values {
        records.push(h.encrypt(&BigUint::from(v)).unwrap());
    }
    // Codes are refreshed in the store after later insertions
    // re-balance the index; read them back by identifier.
    let mut coded = Vec::new();
    for r in &records {
        let stored = h.fetch_ct(r._id).unwrap();
        assert_eq!(Some(stored._o), h.lookup_tree(r._id));
        coded.push(stored._o);
    }
    // 1 < 3 < 5 < 7 < 9
    assert!(coded[3] < coded[1]);
    assert!(coded[1] < coded[4]);
    assert!(coded[4] < coded[0]);
    assert!(coded[0] < coded[2]);
}

#[test]
fn encrypt_twice_shares_identifier() {
    let mut h = fresh_scheme();
    let r1 = h.encrypt(&BigUint::from(42u64)).unwrap();
    let r2 = h.encrypt(&BigUint::from(42u64)).unwrap();
    assert_eq!(r1._id, r2._id);
    assert_eq!(r1._o, r2._o);
}

#[test]
fn record_anchor_is_pairing_of_tag() {
    let mut h = fresh_scheme();
    let sp = h.parameters();
    let r = h.encrypt(&BigUint::from(77u64)).unwrap();
    let expected = pairing(&r._g, &sp._q);
    assert!(r._h.equals(&expected));
}

#[test]
fn out_of_field_plaintext_rejected() {
    let mut h = fresh_scheme();
    let modulus = hope::field::fr_modulus();
    assert!(h.encrypt(&modulus).is_none());
    let above = &modulus + BigUint::from(5u64);
    assert!(h.encrypt(&above).is_none());
}

#[test]
fn fetch_and_lookup_on_fresh_scheme() {
    let h = fresh_scheme();
    assert!(h.fetch_ct(1).is_none());
    assert!(h.lookup_tree(1).is_none());
    let dummy = hope::scheme::hopeCT::new(
        BigUint::from(1u64),
        hope::group::G1 { x: BigUint::from(0u64) },
        hope::group::Gt { z: BigUint::from(0u64) },
        0,
    );
    assert!(h.insert_ct(dummy).is_none());
}

#[test]
fn keys_are_exposed() {
    let h = fresh_scheme();
    assert!(h.keys().is_some());
    assert!(h.enc_key().is_some());
    assert!(h.dec_key().is_some());
    let k = hope::scheme::hope::keygen().expect("randomness available");
    assert!(k._dk.is_some());
}

#[test]
fn records_returned_by_value_lookup() {
    let mut h = fresh_scheme();
    let r = h.encrypt(&BigUint::from(9u64)).unwrap();
    let found = h.lookup_apl(&r._g).expect("registered tag");
    assert_eq!(found._id, r._id);
    let fetched = h.fetch_ct(r._id).expect("stored record");
    assert_eq!(fetched._o, found._o);
}

#[test]
fn insert_apl_returns_previous_binding() {
    let mut h = fresh_scheme();
    let r = h.encrypt(&BigUint::from(5u64)).unwrap();
    // A rebinding of the same tag returns the identifier it replaces.
    let rebound = hope::scheme::hopeCT::from_id(
        999,
        BigUint::from(1u64),
        hope::group::G1 { x: r._g.x.clone() },
        hope::group::Gt { z: r._h.z.clone() },
        0,
    );
    assert_eq!(h.insert_apl(&rebound), Some(r._id));
    // A fresh tag is appended and nothing is returned.
    let fresh = hope::scheme::hopeCT::from_id(
        1000,
        BigUint::from(2u64),
        hope::group::G1 { x: &r._g.x + BigUint::from(1u64) },
        hope::group::Gt { z: r._h.z.clone() },
        0,
    );
    assert_eq!(h.insert_apl(&fresh), None);
}

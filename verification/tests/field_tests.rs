use num_bigint::BigUint;
use hope::field::{field_trials, Fr, FieldElement, fr_modulus};
use hope::tree::{hopeLeaf, hopeNode, DEGREE};

#[test]
fn field_trials_over_fr() {
    field_trials::<Fr>();
}

#[test]
fn fr_modulus_value() {
    // The 254-bit prime order of the bilinear group.
    let expected = BigUint::parse_bytes(
        b"21888242871839275222246405745257275088548364400416034343698204186575808495617",
        10,
    )
    .unwrap();
    assert_eq!(fr_modulus(), expected);
}

#[test]
fn fr_arithmetic_wraps_at_modulus() {
    let md = fr_modulus();
    let a = Fr { v: &md - BigUint::from(1u64) };
    let one = Fr::one();
    let sum = a.add_el(&one);
    assert_eq!(sum.v, BigUint::from(0u64));
    let zero = Fr::zero();
    assert!(zero.inverse().is_none());
    let two = Fr { v: BigUint::from(2u64) };
    let inv2 = two.inverse().unwrap();
    let prod = two.mul_el(&inv2);
    assert_eq!(prod.v, BigUint::from(1u64));
}

#[test]
fn node_shape_helpers() {
    let node = hopeNode::new(DEGREE, true);
    assert_eq!(node.capacity(), DEGREE);
    assert!(node.is_leaf());
    assert!(!node.is_full());
    let leaf = hopeLeaf::new(7, BigUint::from(99u64), 0);
    assert_eq!(leaf._id, 7);
    let copy = leaf.dup();
    assert_eq!(copy._id, 7);
    assert_eq!(copy._c, BigUint::from(99u64));
    assert_eq!(copy._o, 0);
}

#[test]
fn group_model_laws_hold_on_samples() {
    let p = hope::group::G1::random().expect("randomness available");
    let q = hope::group::G2::random().expect("randomness available");
    let a = Fr { v: BigUint::from(5u64) };
    let b = Fr { v: BigUint::from(11u64) };
    let ga = p.mul_fr(&a);
    let gb = p.mul_fr(&b);
    let gsum = ga.add_g1(&gb);
    let gdirect = p.mul_fr(&Fr { v: BigUint::from(16u64) });
    assert!(gsum.equals(&gdirect));
    let gdiff = gdirect.sub_g1(&gb);
    assert!(gdiff.equals(&ga));
    let ha = pairing_of(&ga, &q);
    let hb = pairing_of(&ga, &q);
    assert!(ha.equals(&hb));
}

fn pairing_of(g: &hope::group::G1, q: &hope::group::G2) -> hope::group::Gt {
    hope::group::pairing(g, q)
}

#[test]
fn records_compare_by_order_code() {
    let a = hopeLeaf::new(1, BigUint::from(5u64), 10);
    let b = hopeLeaf::new(2, BigUint::from(6u64), 20);
    let c = hopeLeaf::new(3, BigUint::from(7u64), 10);
    assert!(a < b);
    assert!(a == c);
    assert!(b > a);
    let r1 = hope::scheme::hopeCT::new(
        BigUint::from(1u64),
        hope::group::G1 { x: BigUint::from(0u64) },
        hope::group::Gt { z: BigUint::from(0u64) },
        4,
    );
    let r2 = hope::scheme::hopeCT::new(
        BigUint::from(2u64),
        hope::group::G1 { x: BigUint::from(1u64) },
        hope::group::Gt { z: BigUint::from(1u64) },
        9,
    );
    assert!(r1 < r2);
    assert!(r1 != r2);
}

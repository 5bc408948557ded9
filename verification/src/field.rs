//! The scalar field of the bilinear group: a prime-order field interface
//! with one concrete instance, `Fr`, the integers modulo the 254-bit
//! group order, and the generic field trials exercised over it.

use vstd::prelude::*;
use num_bigint::BigUint;
use crate::arith::{is_prime_spec, lemma_prime_coprime_below, gcd_nat};
use crate::bigint::{
    big_nat, big_from_u64, big_eq, big_add, big_mul, big_mod, big_modinv, big_from_bytes_be,
    rand_fill,
};

verus! {

/// The order of the scalar field: the prime group order of the
/// bilinear construction.
pub open spec fn fr_mod() -> nat {
    21888242871839275222246405745257275088548364400416034343698204186575808495617nat
}

/// Field addition.
pub open spec fn f_add(m: nat, x: nat, y: nat) -> nat {
    (x + y) % m
}

/// Field negation of a reduced value.
pub open spec fn f_neg(m: nat, x: nat) -> nat
    recommends
        x < m,
{
    ((m - x) as nat) % m
}

/// Field subtraction of reduced values.
pub open spec fn f_sub(m: nat, x: nat, y: nat) -> nat
    recommends
        y < m,
{
    (x + ((m - y) as nat)) % m
}

/// Field multiplication.
pub open spec fn f_mul(m: nat, x: nat, y: nat) -> nat {
    (x * y) % m
}

/// An element of a prime-order field. The specification names the
/// modulus and the value an element holds; every operation states its
/// result modulo that modulus. Inverses are owed exactly for nonzero
/// elements of a genuinely prime modulus.
pub trait FieldElement: Sized {
    /// The field modulus.
    spec fn modulus() -> nat;

    /// The value this element holds, always below the modulus.
    spec fn val(&self) -> nat;

    /// Every modulus is at least 2.
    proof fn lemma_modulus()
        ensures
            Self::modulus() >= 2,
    ;

    fn zero() -> (r: Self)
        ensures
            r.val() == 0,
            r.val() < Self::modulus(),
    ;

    fn one() -> (r: Self)
        ensures
            r.val() == 1nat % Self::modulus(),
            r.val() < Self::modulus(),
    ;

    /// A uniformly random element; `None` when the randomness source
    /// fails.
    fn random() -> (r: Option<Self>)
        ensures
            r matches Some(v) ==> v.val() < Self::modulus(),
    ;

    fn add_el(&self, o: &Self) -> (r: Self)
        requires
            self.val() < Self::modulus(),
            o.val() < Self::modulus(),
        ensures
            r.val() == f_add(Self::modulus(), self.val(), o.val()),
            r.val() < Self::modulus(),
    ;

    fn sub_el(&self, o: &Self) -> (r: Self)
        requires
            self.val() < Self::modulus(),
            o.val() < Self::modulus(),
        ensures
            r.val() == f_sub(Self::modulus(), self.val(), o.val()),
            r.val() < Self::modulus(),
    ;

    fn neg_el(&self) -> (r: Self)
        requires
            self.val() < Self::modulus(),
        ensures
            r.val() == f_neg(Self::modulus(), self.val()),
            r.val() < Self::modulus(),
    ;

    fn mul_el(&self, o: &Self) -> (r: Self)
        requires
            self.val() < Self::modulus(),
            o.val() < Self::modulus(),
        ensures
            r.val() == f_mul(Self::modulus(), self.val(), o.val()),
            r.val() < Self::modulus(),
    ;

    fn squared(&self) -> (r: Self)
        requires
            self.val() < Self::modulus(),
        ensures
            r.val() == f_mul(Self::modulus(), self.val(), self.val()),
            r.val() < Self::modulus(),
    ;

    fn inverse(&self) -> (r: Option<Self>)
        requires
            self.val() < Self::modulus(),
        ensures
            is_prime_spec(Self::modulus()) && self.val() != 0 ==> r is Some,
            self.val() == 0 ==> r is None,
            r matches Some(i) ==> i.val() < Self::modulus() && (self.val() * i.val())
                % Self::modulus() == 1nat % Self::modulus(),
    ;
}

/// Builds the field modulus as a big integer, limb by limb from the
/// most significant 64 bits down.
pub fn fr_modulus() -> (r: BigUint)
    ensures
        big_nat(r) == fr_mod(),
{
    let p64 = crate::bigint::big_pow2(64);
    proof {
        vstd::arithmetic::power2::lemma2_to64();
        vstd::arithmetic::power2::lemma2_to64_rest();
    }
    let l3 = big_from_u64(0x30644e72e131a029u64);
    let l2 = big_from_u64(0xb85045b68181585du64);
    let l1 = big_from_u64(0x2833e84879b97091u64);
    let l0 = big_from_u64(0x43e1f593f0000001u64);
    let a3 = big_mul(&l3, &p64);
    let a2 = big_add(&a3, &l2);
    let b2 = big_mul(&a2, &p64);
    let b1 = big_add(&b2, &l1);
    let c1 = big_mul(&b1, &p64);
    let c0 = big_add(&c1, &l0);
    proof {
        assert(big_nat(c0) == fr_mod());
    }
    c0
}

/// An element of the concrete scalar field: a big integer reduced
/// modulo the 254-bit prime group order.
pub struct Fr {
    pub v: BigUint,
}

impl FieldElement for Fr {
    open spec fn modulus() -> nat {
        fr_mod()
    }

    open spec fn val(&self) -> nat {
        big_nat(self.v)
    }

    proof fn lemma_modulus() {
    }

    fn zero() -> (r: Self) {
        Fr { v: big_from_u64(0) }
    }

    fn one() -> (r: Self) {
        Fr { v: big_from_u64(1) }
    }

    fn random() -> (r: Option<Self>) {
        let mut buf: Vec<u8> = Vec::new();
        let mut i: usize = 0;
        while i < 48
            invariant
                i <= 48,
            decreases 48 - i,
        {
            buf.push(0u8);
            i = i + 1;
        }
        match rand_fill(&mut buf) {
            Ok(()) => {
                let wide = big_from_bytes_be(&buf);
                let md = fr_modulus();
                let v = big_mod(&wide, &md);
                Some(Fr { v })
            },
            Err(_) => None,
        }
    }

    fn add_el(&self, o: &Self) -> (r: Self) {
        let md = fr_modulus();
        let s = big_add(&self.v, &o.v);
        Fr { v: big_mod(&s, &md) }
    }

    fn sub_el(&self, o: &Self) -> (r: Self) {
        let md = fr_modulus();
        let comp = crate::bigint::big_sub(&md, &o.v);
        let s = big_add(&self.v, &comp);
        Fr { v: big_mod(&s, &md) }
    }

    fn neg_el(&self) -> (r: Self) {
        let md = fr_modulus();
        let comp = crate::bigint::big_sub(&md, &self.v);
        Fr { v: big_mod(&comp, &md) }
    }

    fn mul_el(&self, o: &Self) -> (r: Self) {
        let md = fr_modulus();
        let p = big_mul(&self.v, &o.v);
        Fr { v: big_mod(&p, &md) }
    }

    fn squared(&self) -> (r: Self) {
        let md = fr_modulus();
        let p = big_mul(&self.v, &self.v);
        Fr { v: big_mod(&p, &md) }
    }

    fn inverse(&self) -> (r: Option<Self>) {
        let md = fr_modulus();
        proof {
            if is_prime_spec(fr_mod()) && self.val() != 0 {
                lemma_prime_coprime_below(self.val(), fr_mod());
            }
            if self.val() == 0 {
                vstd::arithmetic::div_mod::lemma_small_mod(0, fr_mod());
                assert(gcd_nat(0, fr_mod()) == gcd_nat(fr_mod(), 0nat % fr_mod()));
                assert(gcd_nat(fr_mod(), 0) == fr_mod());
            }
        }
        match big_modinv(&self.v, &md) {
            Some(i) => Some(Fr { v: i }),
            None => None,
        }
    }
}

/// Negation is an involution on reduced values.
proof fn lemma_f_neg_neg(m: nat, v: nat)
    requires
        m >= 2,
        v < m,
    ensures
        f_neg(m, f_neg(m, v)) == v,
{
    if v == 0 {
        vstd::arithmetic::div_mod::lemma_mod_self_0(m as int);
    } else {
        vstd::arithmetic::div_mod::lemma_small_mod((m - v) as nat, m);
        vstd::arithmetic::div_mod::lemma_small_mod(v, m);
    }
}

/// Adding the same shift to two values a fixed offset apart keeps them
/// the same offset apart, modulo `m`.
proof fn lemma_shift(m: nat, av: nat, bv: nat, r0: nat, d: nat)
    requires
        m > 0,
        bv == (av + r0) % m,
    ensures
        (bv + d) % m == (((av + d) % m) + r0) % m,
{
    crate::arith::lemma_mod_add_left((av + r0) as nat, d, m);
    crate::arith::lemma_mod_add_left((av + d) as nat, r0, m);
}

/// Walks the units 1, 2, ... and their negatives, checking that each
/// multiplied by its inverse gives one, and that zero has no inverse.
pub fn can_invert<F: FieldElement>()
    requires
        is_prime_spec(F::modulus()),
        F::modulus() > 20003,
{
    let ghost m = F::modulus();
    proof {
        F::lemma_modulus();
        vstd::arithmetic::div_mod::lemma_small_mod(1, m);
    }
    let mut a = F::one();
    let mut i: u64 = 0;
    while i < 10000
        invariant
            is_prime_spec(F::modulus()),
            F::modulus() > 20003,
            m == F::modulus(),
            i <= 10000,
            a.val() == 1 + i,
        decreases 10000 - i,
    {
        proof {
            vstd::arithmetic::div_mod::lemma_small_mod(1, m);
        }
        let inv = a.inverse().unwrap();
        let prod = a.mul_el(&inv);
        assert(prod.val() == 1);
        let one = F::one();
        proof {
            vstd::arithmetic::div_mod::lemma_small_mod((2 + i) as nat, m);
        }
        a = a.add_el(&one);
        i = i + 1;
    }
    let first = F::one();
    let mut b = first.neg_el();
    proof {
        F::lemma_modulus();
        vstd::arithmetic::div_mod::lemma_small_mod(1, m);
        vstd::arithmetic::div_mod::lemma_small_mod((m - 1) as nat, m);
    }
    let mut j: u64 = 0;
    while j < 10000
        invariant
            is_prime_spec(F::modulus()),
            F::modulus() > 20003,
            m == F::modulus(),
            j <= 10000,
            b.val() == m - 1 - j,
        decreases 10000 - j,
    {
        proof {
            vstd::arithmetic::div_mod::lemma_small_mod(1, m);
        }
        let inv = b.inverse().unwrap();
        let prod = b.mul_el(&inv);
        assert(prod.val() == 1);
        let one = F::one();
        proof {
            assert((b.val() + ((m - 1) as nat)) % m == (m - 2 - j) as nat) by {
                assert(b.val() + ((m - 1) as nat) == m + ((m - 2 - j) as nat));
                vstd::arithmetic::div_mod::lemma_mod_multiples_vanish(
                    1,
                    (m - 2 - j) as int,
                    m as int,
                );
                vstd::arithmetic::div_mod::lemma_small_mod((m - 2 - j) as nat, m);
            }
        }
        b = b.sub_el(&one);
        j = j + 1;
    }
    let z = F::zero();
    let zi = z.inverse();
    assert(zi is None);
}

/// Random elements satisfy the ring expansion
/// `(a + b) * (c + d) == a*c + b*c + a*d + b*d`.
pub fn rand_element_eval<F: FieldElement>() {
    let ghost m = F::modulus();
    proof {
        F::lemma_modulus();
    }
    let mut k: u64 = 0;
    while k < 100
        invariant
            m == F::modulus(),
            m >= 2,
        decreases 100 - k,
    {
        let a = match F::random() {
            Some(v) => v,
            None => { return ; },
        };
        let b = match F::random() {
            Some(v) => v,
            None => { return ; },
        };
        let c = match F::random() {
            Some(v) => v,
            None => { return ; },
        };
        let d = match F::random() {
            Some(v) => v,
            None => { return ; },
        };
        let lhs = a.add_el(&b).mul_el(&c.add_el(&d));
        let rhs = a.mul_el(&c).add_el(&b.mul_el(&c)).add_el(&a.mul_el(&d)).add_el(
            &b.mul_el(&d),
        );
        proof {
            let av = a.val();
            let bv = b.val();
            let cv = c.val();
            let dv = d.val();
            let mi = m as int;
            assert(lhs.val() == ((av + bv) * (cv + dv)) % m) by {
                vstd::arithmetic::div_mod::lemma_mul_mod_noop_general(
                    (av + bv) as int,
                    (cv + dv) as int,
                    mi,
                );
            }
            assert(rhs.val() == (av * cv + bv * cv + av * dv + bv * dv) % m) by {
                crate::arith::lemma_mod_add_right(((av * cv) % m) as nat, (bv * cv) as nat, m);
                crate::arith::lemma_mod_add_left((av * cv) as nat, (bv * cv) as nat, m);
                crate::arith::lemma_mod_add_right(
                    ((av * cv + bv * cv) % m) as nat,
                    (av * dv) as nat,
                    m,
                );
                crate::arith::lemma_mod_add_left((av * cv + bv * cv) as nat, (av * dv) as nat, m);
                crate::arith::lemma_mod_add_right(
                    ((av * cv + bv * cv + av * dv) % m) as nat,
                    (bv * dv) as nat,
                    m,
                );
                crate::arith::lemma_mod_add_left(
                    (av * cv + bv * cv + av * dv) as nat,
                    (bv * dv) as nat,
                    m,
                );
            }
            assert((av + bv) * (cv + dv) == av * cv + bv * cv + av * dv + bv * dv)
                by (nonlinear_arith);
            assert(lhs.val() == rhs.val());
        }
        k = k + 1;
    }
}

/// Squaring agrees with self-multiplication, on random elements and on
/// the first hundred integers.
pub fn rand_element_squaring<F: FieldElement>() {
    let ghost m = F::modulus();
    proof {
        F::lemma_modulus();
    }
    let mut k: u64 = 0;
    while k < 100
        invariant
            m == F::modulus(),
            m >= 2,
        decreases 100 - k,
    {
        let a = match F::random() {
            Some(v) => v,
            None => { return ; },
        };
        let lhs = a.mul_el(&a);
        let rhs = a.squared();
        assert(lhs.val() == rhs.val());
        k = k + 1;
    }
    let mut cur = F::zero();
    let mut t: u64 = 0;
    while t < 100
        invariant
            m == F::modulus(),
            m >= 2,
            cur.val() < m,
        decreases 100 - t,
    {
        let lhs = cur.squared();
        let rhs = cur.mul_el(&cur);
        assert(lhs.val() == rhs.val());
        let one = F::one();
        cur = cur.add_el(&one);
        t = t + 1;
    }
}

/// Keeps two random walks a fixed offset apart through additions,
/// subtractions and double negations, and checks that removing the
/// offset makes them meet.
pub fn rand_element_addition_and_negation<F: FieldElement>() {
    let ghost m = F::modulus();
    proof {
        F::lemma_modulus();
    }
    let mut k: u64 = 0;
    while k < 100
        invariant
            m == F::modulus(),
            m >= 2,
        decreases 100 - k,
    {
        let a0 = match F::random() {
            Some(v) => v,
            None => { return ; },
        };
        let neg = a0.neg_el();
        let s = a0.add_el(&neg);
        proof {
            assert((a0.val() + ((m - a0.val()) as nat) % m) % m == 0) by {
                crate::arith::lemma_mod_add_right(a0.val(), (m - a0.val()) as nat, m);
                vstd::arithmetic::div_mod::lemma_mod_self_0(m as int);
            }
        }
        assert(s.val() == 0);
        k = k + 1;
    }
    let mut k2: u64 = 0;
    while k2 < 100
        invariant
            m == F::modulus(),
            m >= 2,
        decreases 100 - k2,
    {
        let mut a = match F::random() {
            Some(v) => v,
            None => { return ; },
        };
        let r0 = match F::random() {
            Some(v) => v,
            None => { return ; },
        };
        let ghost r0v = r0.val();
        let mut b = a.add_el(&r0);
        let mut t: u64 = 0;
        while t < 10
            invariant
                m == F::modulus(),
                m >= 2,
                a.val() < m,
                b.val() < m,
                r0v < m,
                b.val() == (a.val() + r0v) % m,
            decreases 10 - t,
        {
            let r1 = match F::random() {
                Some(v) => v,
                None => { return ; },
            };
            proof {
                lemma_shift(m, a.val(), b.val(), r0v, r1.val());
            }
            a = a.add_el(&r1);
            b = b.add_el(&r1);
            let r2 = match F::random() {
                Some(v) => v,
                None => { return ; },
            };
            proof {
                lemma_shift(m, a.val(), b.val(), r0v, (m - r2.val()) as nat);
            }
            a = a.sub_el(&r2);
            b = b.sub_el(&r2);
            let r3 = match F::random() {
                Some(v) => v,
                None => { return ; },
            };
            let r3nn = r3.neg_el().neg_el();
            proof {
                lemma_f_neg_neg(m, r3.val());
                lemma_shift(m, a.val(), b.val(), r0v, r3nn.val());
            }
            a = a.add_el(&r3nn);
            b = b.add_el(&r3nn);
            let r4 = match F::random() {
                Some(v) => v,
                None => { return ; },
            };
            let r4n = r4.neg_el();
            proof {
                lemma_shift(m, a.val(), b.val(), r0v, (m - r4.val()) as nat);
                crate::arith::lemma_mod_add_right(b.val(), (m - r4.val()) as nat, m);
            }
            a = a.sub_el(&r4);
            b = b.add_el(&r4n);
            let r5 = match F::random() {
                Some(v) => v,
                None => { return ; },
            };
            let r5n = r5.neg_el();
            proof {
                lemma_shift(m, a.val(), b.val(), r0v, (m - r5.val()) as nat);
                crate::arith::lemma_mod_add_right(a.val(), (m - r5.val()) as nat, m);
            }
            a = a.add_el(&r5n);
            b = b.sub_el(&r5);
            t = t + 1;
        }
        proof {
            assert((b.val() + ((m - r0v) as nat)) % m == a.val()) by {
                crate::arith::lemma_mod_add_left((a.val() + r0v) as nat, (m - r0v) as nat, m);
                assert(a.val() + r0v + (m - r0v) == m + a.val());
                vstd::arithmetic::div_mod::lemma_mod_multiples_vanish(
                    1,
                    a.val() as int,
                    m as int,
                );
                vstd::arithmetic::div_mod::lemma_small_mod(a.val(), m);
            }
        }
        let bfinal = b.sub_el(&r0);
        assert(bfinal.val() == a.val());
        k2 = k2 + 1;
    }
}

/// A random element times its inverse is one, and dividing a product by
/// a factor recovers the other factor.
pub fn rand_element_inverse<F: FieldElement>()
    requires
        is_prime_spec(F::modulus()),
{
    let ghost m = F::modulus();
    proof {
        F::lemma_modulus();
    }
    let mut k: u64 = 0;
    while k < 100
        invariant
            is_prime_spec(F::modulus()),
            m == F::modulus(),
            m >= 2,
        decreases 100 - k,
    {
        let a = match F::random() {
            Some(v) => v,
            None => { return ; },
        };
        let b = match F::random() {
            Some(v) => v,
            None => { return ; },
        };
        match a.inverse() {
            Some(ai) => {
                proof {
                    vstd::arithmetic::div_mod::lemma_small_mod(1, m);
                }
                let p = a.mul_el(&ai);
                assert(p.val() == 1);
                let ab = a.mul_el(&b);
                let q = ab.mul_el(&ai);
                proof {
                    let av = a.val();
                    let bv = b.val();
                    let iv = ai.val();
                    let mi = m as int;
                    assert(q.val() == (av * bv * iv) % m) by {
                        vstd::arithmetic::div_mod::lemma_mul_mod_noop_left(
                            (av * bv) as int,
                            iv as int,
                            mi,
                        );
                    }
                    assert(av * bv * iv == bv * (av * iv)) by (nonlinear_arith);
                    assert((bv * (av * iv)) % m == (bv * ((av * iv) % m)) % m) by {
                        vstd::arithmetic::div_mod::lemma_mul_mod_noop_right(
                            bv as int,
                            (av * iv) as int,
                            mi,
                        );
                    }
                    assert(bv * 1 == bv) by {
                        vstd::arithmetic::mul::lemma_mul_basics_2(bv as int);
                    }
                    vstd::arithmetic::div_mod::lemma_small_mod(bv, m);
                }
                assert(q.val() == b.val());
            },
            None => {
                assert(a.val() == 0);
            },
        }
        k = k + 1;
    }
}

/// Multiplication of random elements is associative.
pub fn rand_element_multiplication<F: FieldElement>() {
    let ghost m = F::modulus();
    proof {
        F::lemma_modulus();
    }
    let mut k: u64 = 0;
    while k < 250
        invariant
            m == F::modulus(),
            m >= 2,
        decreases 250 - k,
    {
        let a = match F::random() {
            Some(v) => v,
            None => { return ; },
        };
        let b = match F::random() {
            Some(v) => v,
            None => { return ; },
        };
        let c = match F::random() {
            Some(v) => v,
            None => { return ; },
        };
        let lhs = a.mul_el(&b).mul_el(&c);
        let rhs = a.mul_el(&b.mul_el(&c));
        proof {
            let av = a.val();
            let bv = b.val();
            let cv = c.val();
            let mi = m as int;
            assert(lhs.val() == (av * bv * cv) % m) by {
                vstd::arithmetic::div_mod::lemma_mul_mod_noop_left(
                    (av * bv) as int,
                    cv as int,
                    mi,
                );
            }
            assert(rhs.val() == (av * (bv * cv)) % m) by {
                vstd::arithmetic::div_mod::lemma_mul_mod_noop_right(
                    av as int,
                    (bv * cv) as int,
                    mi,
                );
            }
            assert(av * bv * cv == av * (bv * cv)) by (nonlinear_arith);
        }
        assert(lhs.val() == rhs.val());
        k = k + 1;
    }
}

/// Runs the whole battery of field laws over a field type: inverses,
/// negation identities, squaring, the random-walk law, associativity,
/// division and the ring expansion.
pub fn field_trials<F: FieldElement>()
    requires
        is_prime_spec(F::modulus()),
        F::modulus() > 20003,
{
    let ghost m = F::modulus();
    proof {
        F::lemma_modulus();
    }
    can_invert::<F>();
    let z = F::zero();
    let zn = z.neg_el();
    proof {
        vstd::arithmetic::div_mod::lemma_mod_self_0(m as int);
    }
    assert(zn.val() == z.val());
    let one = F::one();
    let onen = one.neg_el();
    let sum = onen.add_el(&one);
    proof {
        vstd::arithmetic::div_mod::lemma_small_mod(1, m);
        vstd::arithmetic::div_mod::lemma_small_mod((m - 1) as nat, m);
        vstd::arithmetic::div_mod::lemma_mod_self_0(m as int);
    }
    assert(sum.val() == 0);
    let z2 = F::zero();
    let zdiff = z2.sub_el(&z2);
    proof {
        vstd::arithmetic::div_mod::lemma_mod_self_0(m as int);
    }
    assert(zdiff.val() == 0);
    rand_element_squaring::<F>();
    rand_element_addition_and_negation::<F>();
    rand_element_multiplication::<F>();
    rand_element_inverse::<F>();
    rand_element_eval::<F>();
}

} // verus!

//! The bilinear group layer, modelled over the prime-order scalar
//! field: group elements are represented by their discrete logarithm
//! with respect to a fixed generator, scalar multiplication and the
//! pairing become field multiplications, and every law of the tag
//! construction is provable arithmetic.

use vstd::prelude::*;
use num_bigint::BigUint;
use crate::field::fr_mod;
use crate::bigint::{big_nat, big_clone, big_eq, big_add, big_sub, big_mul, big_mod, rand_fill,
    big_from_bytes_be};

verus! {

/// An element of the first source group, as its discrete logarithm.
pub struct G1 {
    pub x: BigUint,
}

/// An element of the second source group.
pub struct G2 {
    pub y: BigUint,
}

/// An element of the target group.
pub struct Gt {
    pub z: BigUint,
}

impl G1 {
    pub open spec fn val(&self) -> nat {
        big_nat(self.x)
    }

    pub open spec fn wf(&self) -> bool {
        self.val() < fr_mod()
    }
}

impl G2 {
    pub open spec fn val(&self) -> nat {
        big_nat(self.y)
    }

    pub open spec fn wf(&self) -> bool {
        self.val() < fr_mod()
    }
}

impl Gt {
    pub open spec fn val(&self) -> nat {
        big_nat(self.z)
    }

    pub open spec fn wf(&self) -> bool {
        self.val() < fr_mod()
    }
}

/// The deterministic tag of plaintext `m` under generator log `p`.
pub open spec fn tag_val(p: nat, m: nat) -> nat {
    (p * m) % fr_mod()
}

/// The value of a group addition of two elements.
pub open spec fn g1_add_val(a: nat, b: nat) -> nat {
    (a + b) % fr_mod()
}

/// The value of a group subtraction of two reduced elements.
pub open spec fn g1_sub_val(a: nat, b: nat) -> nat
    recommends
        b < fr_mod(),
{
    (a + ((fr_mod() - b) as nat)) % fr_mod()
}

/// Draws a uniformly random scalar below the group order.
fn random_scalar() -> (r: Option<BigUint>)
    ensures
        r matches Some(v) ==> big_nat(v) < fr_mod(),
{
    let mut buf: Vec<u8> = Vec::new();
    let mut i: usize = 0;
    while i < 48
        invariant
            i <= 48,
        decreases 48 - i,
    {
        buf.push(0u8);
        i = i + 1;
    }
    match rand_fill(&mut buf) {
        Ok(()) => {
            let wide = big_from_bytes_be(&buf);
            let md = crate::field::fr_modulus();
            Some(big_mod(&wide, &md))
        },
        Err(_) => None,
    }
}

impl G1 {
    /// A uniformly random group element; `None` when the randomness
    /// source fails.
    pub fn random() -> (r: Option<G1>)
        ensures
            r matches Some(g) ==> g.wf(),
    {
        match random_scalar() {
            Some(x) => Some(G1 { x }),
            None => None,
        }
    }

    /// A copy holding the same element.
    pub fn dup(&self) -> (r: G1)
        ensures
            r.val() == self.val(),
    {
        G1 { x: big_clone(&self.x) }
    }

    /// Equality of group elements.
    pub fn equals(&self, o: &G1) -> (r: bool)
        ensures
            r == (self.val() == o.val()),
    {
        big_eq(&self.x, &o.x)
    }

    /// Group addition.
    pub fn add_g1(&self, o: &G1) -> (r: G1)
        requires
            self.wf(),
            o.wf(),
        ensures
            r.wf(),
            r.val() == (self.val() + o.val()) % fr_mod(),
    {
        let md = crate::field::fr_modulus();
        let s = big_add(&self.x, &o.x);
        G1 { x: big_mod(&s, &md) }
    }

    /// Group subtraction.
    pub fn sub_g1(&self, o: &G1) -> (r: G1)
        requires
            self.wf(),
            o.wf(),
        ensures
            r.wf(),
            r.val() == (self.val() + ((fr_mod() - o.val()) as nat)) % fr_mod(),
    {
        let md = crate::field::fr_modulus();
        let comp = big_sub(&md, &o.x);
        let s = big_add(&self.x, &comp);
        G1 { x: big_mod(&s, &md) }
    }

    /// Scalar multiplication by a field element.
    pub fn mul_fr(&self, s: &crate::field::Fr) -> (r: G1)
        requires
            self.wf(),
        ensures
            r.wf(),
            r.val() == (self.val() * big_nat(s.v)) % fr_mod(),
    {
        let md = crate::field::fr_modulus();
        let p = big_mul(&self.x, &s.v);
        G1 { x: big_mod(&p, &md) }
    }
}

impl G2 {
    /// A uniformly random group element; `None` when the randomness
    /// source fails.
    pub fn random() -> (r: Option<G2>)
        ensures
            r matches Some(g) ==> g.wf(),
    {
        match random_scalar() {
            Some(y) => Some(G2 { y }),
            None => None,
        }
    }

    /// A copy holding the same element.
    pub fn dup(&self) -> (r: G2)
        ensures
            r.val() == self.val(),
    {
        G2 { y: big_clone(&self.y) }
    }
}

impl Gt {
    /// A copy holding the same element.
    pub fn dup(&self) -> (r: Gt)
        ensures
            r.val() == self.val(),
    {
        Gt { z: big_clone(&self.z) }
    }

    /// Equality of target-group elements.
    pub fn equals(&self, o: &Gt) -> (r: bool)
        ensures
            r == (self.val() == o.val()),
    {
        big_eq(&self.z, &o.z)
    }
}

/// The bilinear pairing: in the discrete-log model, the product of the
/// logarithms.
pub fn pairing(g: &G1, q: &G2) -> (r: Gt)
    requires
        g.wf(),
        q.wf(),
    ensures
        r.wf(),
        r.val() == (g.val() * q.val()) % fr_mod(),
{
    let md = crate::field::fr_modulus();
    let p = big_mul(&g.x, &q.y);
    Gt { z: big_mod(&p, &md) }
}

/// Law: the tag is additive. The group sum of the tags of `m1` and
/// `m2` is the tag of `m1 + m2` reduced into the scalar field.
pub proof fn lemma_tag_add(p: nat, m1: nat, m2: nat)
    ensures
        (tag_val(p, m1) + tag_val(p, m2)) % fr_mod() == tag_val(p, ((m1 + m2) % fr_mod())),
{
    let r = fr_mod();
    crate::arith::lemma_mod_add_left((p * m1) as nat, tag_val(p, m2), r);
    crate::arith::lemma_mod_add_right((p * m1) as nat, (p * m2) as nat, r);
    assert(p * m1 + p * m2 == p * (m1 + m2)) by (nonlinear_arith);
    assert((p * ((m1 + m2) % r)) % r == (p * (m1 + m2)) % r) by {
        vstd::arithmetic::div_mod::lemma_mul_mod_noop_right(
            p as int,
            (m1 + m2) as int,
            r as int,
        );
    }
}

/// Law: the tag respects subtraction. Removing the tag of `m2` from
/// the tag of `m1`, for `m2 <= m1`, gives the tag of the difference.
pub proof fn lemma_tag_sub(p: nat, m1: nat, m2: nat)
    requires
        m2 <= m1,
    ensures
        (tag_val(p, m1) + ((fr_mod() - tag_val(p, m2)) as nat)) % fr_mod() == tag_val(
            p,
            ((m1 - m2) as nat % fr_mod()),
        ),
{
    let r = fr_mod();
    let b = tag_val(p, m2);
    let k = (p * m2) / r;
    let d = (m1 - m2) as nat;
    assert(b < r) by {
        vstd::arithmetic::div_mod::lemma_mod_bound((p * m2) as int, r as int);
    }
    crate::arith::lemma_mod_add_left((p * m1) as nat, ((r - b) as nat), r);
    vstd::arithmetic::div_mod::lemma_fundamental_div_mod((p * m2) as int, r as int);
    assert(p * m2 == r * k + b);
    assert(p * m1 + ((r - b) as nat) == r * ((k + 1) as nat) + p * d) by (nonlinear_arith)
        requires
            m2 <= m1,
            d == m1 - m2,
            p * m2 == r * k + b,
            b < r,
    ;
    assert((r * ((k + 1) as nat) + p * d) % r == (p * d) % r) by {
        vstd::arithmetic::div_mod::lemma_mod_multiples_vanish(
            ((k + 1) as nat) as int,
            (p * d) as int,
            r as int,
        );
    }
    assert((p * (d % r)) % r == (p * d) % r) by {
        vstd::arithmetic::div_mod::lemma_mul_mod_noop_right(p as int, d as int, r as int);
    }
}

} // verus!

//! The order-preserving homomorphic scheme: system parameters, paired
//! ciphertext records, the tag lookup table, and the orchestrator that
//! composes the Paillier cryptosystem, the pairing tag layer and the
//! order-preserving index.

use vstd::prelude::*;
use num_bigint::BigUint;
use crate::bigint::{big_nat, big_clone, big_eq, big_lt};
use crate::paillier::{
    Paillier, PaillierEncryptionKey, PaillierDecryptionKey, keypair_wf, dec_spec,
};
use crate::primes::MAX_BITS;
use crate::arith::{bitlen, gcd_nat};
use crate::field::{fr_mod, fr_modulus, Fr};
use crate::group::{G1, G2, Gt, pairing, tag_val, g1_add_val, g1_sub_val};
use crate::tree::{Tree, hopeLeaf, hopeNode, CompareOracle, DEGREE, has_plain};

verus! {

/// System parameters: an identifier, a name, and the two group
/// generators.
#[allow(non_camel_case_types)]
pub struct hopeSP {
    pub _id: u64,
    pub _name: String,
    pub _p: G1,
    pub _q: G2,
}

impl hopeSP {
    pub open spec fn wf(&self) -> bool {
        self._p.wf() && self._q.wf()
    }

    /// Fresh parameters with uniformly random generators. `None` means
    /// the randomness source failed.
    pub fn new(_name: String) -> (res: Option<hopeSP>)
        ensures
            res matches Some(sp) ==> sp.wf() && sp._name == _name,
    {
        let p = match G1::random() {
            Some(v) => v,
            None => { return None; },
        };
        let q = match G2::random() {
            Some(v) => v,
            None => { return None; },
        };
        Some(hopeSP { _id: 0, _name, _p: p, _q: q })
    }

    /// A copy holding the same parameters.
    pub fn dup(&self) -> (r: hopeSP)
        ensures
            r._id == self._id,
            r._p.val() == self._p.val(),
            r._q.val() == self._q.val(),
    {
        hopeSP {
            _id: self._id,
            _name: self._name.clone(),
            _p: self._p.dup(),
            _q: self._q.dup(),
        }
    }
}

/// A paired ciphertext record: identifier, Paillier component, curve
/// tag, pairing anchor, order code, and the ghost plaintext the record
/// decrypts to.
#[allow(non_camel_case_types)]
pub struct hopeCT {
    pub _id: u64,
    pub _c: BigUint,
    pub _g: G1,
    pub _h: Gt,
    pub _o: u64,
    pub _m: Ghost<nat>,
}

impl hopeCT {
    /// Builds a record from all its visible parts.
    pub fn from_id(_id: u64, _c: BigUint, _g: G1, _h: Gt, _o: u64) -> (r: hopeCT)
        ensures
            r._id == _id,
            big_nat(r._c) == big_nat(_c),
            r._g.val() == _g.val(),
            r._h.val() == _h.val(),
            r._o == _o,
    {
        hopeCT { _id, _c, _g, _h, _o, _m: Ghost(0) }
    }

    /// Builds a record from all its visible parts; a second
    /// constructor kept alongside [`hopeCT::from_id`] for callers that
    /// copy records field by field.
    pub fn clone(_id: u64, _c: BigUint, _g: G1, _h: Gt, _o: u64) -> (r: hopeCT)
        ensures
            r._id == _id,
            big_nat(r._c) == big_nat(_c),
            r._g.val() == _g.val(),
            r._h.val() == _h.val(),
            r._o == _o,
    {
        hopeCT { _id, _c, _g, _h, _o, _m: Ghost(0) }
    }

    /// Builds a record whose identifier the orchestrator assigns
    /// later.
    pub fn new(_c: BigUint, _g: G1, _h: Gt, _o: u64) -> (r: hopeCT)
        ensures
            r._id == 0,
            big_nat(r._c) == big_nat(_c),
            r._g.val() == _g.val(),
            r._h.val() == _h.val(),
            r._o == _o,
    {
        hopeCT { _id: 0, _c, _g, _h, _o, _m: Ghost(0) }
    }

    /// A copy holding the same record, ghost plaintext included.
    pub fn dup(&self) -> (r: hopeCT)
        ensures
            r._id == self._id,
            big_nat(r._c) == big_nat(self._c),
            r._g.val() == self._g.val(),
            r._h.val() == self._h.val(),
            r._o == self._o,
            r._m@ == self._m@,
    {
        hopeCT {
            _id: self._id,
            _c: big_clone(&self._c),
            _g: self._g.dup(),
            _h: self._h.dup(),
            _o: self._o,
            _m: self._m,
        }
    }
}


impl PartialEq for hopeCT {
    /// Records compare by their order code, as the index sees them.
    fn eq(&self, other: &hopeCT) -> (r: bool) {
        self._o == other._o
    }
}

impl vstd::std_specs::cmp::PartialEqSpecImpl for hopeCT {
    open spec fn obeys_eq_spec() -> bool {
        true
    }

    open spec fn eq_spec(&self, other: &hopeCT) -> bool {
        self._o == other._o
    }
}

impl Eq for hopeCT {

}

impl PartialOrd for hopeCT {
    /// Records order by their order code.
    fn partial_cmp(&self, other: &hopeCT) -> (r: Option<core::cmp::Ordering>) {
        if self._o < other._o {
            Some(core::cmp::Ordering::Less)
        } else if self._o == other._o {
            Some(core::cmp::Ordering::Equal)
        } else {
            Some(core::cmp::Ordering::Greater)
        }
    }
}

impl vstd::std_specs::cmp::PartialOrdSpecImpl for hopeCT {
    open spec fn obeys_partial_cmp_spec() -> bool {
        true
    }

    open spec fn partial_cmp_spec(&self, other: &hopeCT) -> Option<core::cmp::Ordering> {
        if self._o < other._o {
            Some(core::cmp::Ordering::Less)
        } else if self._o == other._o {
            Some(core::cmp::Ordering::Equal)
        } else {
            Some(core::cmp::Ordering::Greater)
        }
    }
}

/// The Paillier key pair held by the scheme: the public key, and the
/// private key for the party allowed to decrypt.
#[allow(non_camel_case_types)]
pub struct hopeK {
    pub _dk: Option<PaillierDecryptionKey>,
    pub _ek: PaillierEncryptionKey,
}

impl hopeK {
    pub fn new(ek: PaillierEncryptionKey, dk: PaillierDecryptionKey) -> (r: hopeK)
        ensures
            r._dk matches Some(d) ==> d.lambdav() == dk.lambdav() && d.muv() == dk.muv(),
            r._dk is Some,
            r._ek.nv() == ek.nv(),
            big_nat(r._ek.n2) == big_nat(ek.n2),
            big_nat(r._ek.g) == big_nat(ek.g),
    {
        hopeK { _dk: Some(dk), _ek: ek }
    }
}

/// The comparison oracle of the scheme: the holder of the decryption
/// key answers plaintext order questions about ciphertexts. A leaf is
/// admissible when its ghost plaintext is exactly what its ciphertext
/// decrypts to under these keys.
pub struct DecryptOracle {
    pub dk: PaillierDecryptionKey,
    pub ek: PaillierEncryptionKey,
}

impl CompareOracle for DecryptOracle {
    open spec fn leaf_ok(&self, l: hopeLeaf) -> bool {
        &&& self.ek.wf()
        &&& dec_spec(self.dk.lambdav(), self.dk.muv(), self.ek.nv(), big_nat(l._c)) == l._m@
    }

    proof fn leaf_ok_congruent(&self, a: hopeLeaf, b: hopeLeaf) {
    }

    fn greater(&self, a: &hopeLeaf, b: &hopeLeaf) -> (r: bool) {
        let da = Paillier::decrypt(&self.dk, &self.ek, &a._c);
        let db = Paillier::decrypt(&self.dk, &self.ek, &b._c);
        big_lt(&db, &da)
    }
}

/// The admissibility of a whole subtree, stated over the key numbers
/// alone: every stored key and routing key decrypts to its ghost
/// plaintext.
pub open spec fn node_sem_ok(node: hopeNode, lambda: nat, mu: nat, n: nat) -> bool
    decreases node,
{
    &&& forall|i: int|
        0 <= i < node._cts@.len() ==> dec_spec(
            lambda,
            mu,
            n,
            big_nat((#[trigger] node._cts@[i])._c),
        ) == node._cts@[i]._m@
    &&& forall|i: int|
        0 <= i < node._children@.len() ==> node_sem_ok(
            #[trigger] node._children@[i],
            lambda,
            mu,
            n,
        )
}

/// A subtree is admissible for a decrypt oracle exactly when it is
/// semantically admissible for the oracle's key numbers.
pub proof fn lemma_sem_ok_iff(node: hopeNode, o: &DecryptOracle)
    requires
        o.ek.wf(),
    ensures
        node.all_ok(o) == node_sem_ok(node, o.dk.lambdav(), o.dk.muv(), o.ek.nv()),
    decreases node,
{
    assert forall|i: int| 0 <= i < node._children@.len() implies (#[trigger] node._children@[i]).all_ok(
        o,
    ) == node_sem_ok(node._children@[i], o.dk.lambdav(), o.dk.muv(), o.ek.nv()) by {
        lemma_sem_ok_iff(node._children@[i], o);
    }
}

/// What the decryption oracle of a key pair computes on a number.
pub open spec fn scheme_dec(k: hopeK, c: nat) -> nat {
    dec_spec(k._dk->0.lambdav(), k._dk->0.muv(), k._ek.nv(), c)
}

/// Semantic soundness of one record under given parameters and keys:
/// the tag is a group element, the anchor is the pairing of the tag
/// with the public generator, and the ghost plaintext is what the key
/// decrypts from the ciphertext.
pub open spec fn rec_sem(sp: hopeSP, key: Option<hopeK>, r: hopeCT) -> bool {
    &&& r._g.wf()
    &&& r._h.val() == (r._g.val() * sp._q.val()) % fr_mod()
    &&& (key matches Some(k) ==> (k._dk is Some ==> scheme_dec(k, big_nat(r._c)) == r._m@))
}

/// Where each leaf of a grown index comes from: the inserted leaf at
/// its position, or an old leaf whose aligned record carries the same
/// identifier and plaintext.
proof fn lemma_entry_ids(
    os: hope,
    tree0: Tree,
    ents: Seq<hopeLeaf>,
    gdx: int,
    leaf: hopeLeaf,
    q: int,
)
    requires
        os.index_ok(),
        tree0 == os._tree,
        0 <= gdx <= tree0.entries().len(),
        ents == tree0.entries().insert(gdx, leaf),
        forall|i: int| 0 <= i < os._cts@.len() ==> (#[trigger] os._cts@[i])._id < leaf._id,
        0 <= q < ents.len(),
    ensures
        q == gdx ==> ents[q] == leaf,
        q != gdx ==> ents[q]._id < leaf._id,
        q < gdx ==> ents[q] == tree0.entries()[q] && os._cts@[q]._id == ents[q]._id
            && os._cts@[q]._m@ == ents[q]._m@,
        q > gdx ==> ents[q] == tree0.entries()[q - 1] && os._cts@[q - 1]._id == ents[q]._id
            && os._cts@[q - 1]._m@ == ents[q]._m@,
{
    if q < gdx {
        assert(ents[q] == tree0.entries()[q]);
        assert(os._cts@[q]._id == tree0.entries()[q]._id);
        assert(os._cts@[q]._id < leaf._id);
    } else if q > gdx {
        assert(ents[q] == tree0.entries()[q - 1]);
        assert(os._cts@[q - 1]._id == tree0.entries()[q - 1]._id);
        assert(os._cts@[q - 1]._id < leaf._id);
    }
}

/// The scheme: system parameters, the order-preserving index, the tag
/// lookup table, the key pair, the record store and the identifier
/// counter.
#[allow(non_camel_case_types)]
pub struct hope {
    pub _sp: hopeSP,
    pub _tree: Tree,
    pub _apl: Vec<(BigUint, u64)>,
    pub _key: Option<hopeK>,
    pub _cts: Vec<hopeCT>,
    pub _next_id: u64,
}

impl hope {
    /// The key pair is sound and of a size the generators accept.
    pub open spec fn key_ok(&self) -> bool {
        self._key matches Some(k) ==> {
            &&& k._ek.wf()
            &&& bitlen(k._ek.nv()) <= MAX_BITS as nat
            &&& (k._dk matches Some(dk) ==> keypair_wf(&dk, &k._ek))
        }
    }

    /// The index and the record store describe the same population,
    /// position by position: the store is kept in the index's
    /// symmetric order, each record carries the leaf's identifier,
    /// ghost plaintext and current order code, identifiers are fresh
    /// and distinct, and the index's ghost plaintexts are what the
    /// scheme's key decrypts.
    pub open spec fn index_ok(&self) -> bool {
        &&& self._tree.wf()
        &&& self._cts@.len() == self._tree.entries().len()
        &&& forall|p: int|
            0 <= p < self._cts@.len() ==> {
                let r = #[trigger] self._cts@[p];
                &&& r._id == self._tree.entries()[p]._id
                &&& r._m@ == self._tree.entries()[p]._m@
                &&& r._o as nat == self._tree.pairs()[p].1
            }
        &&& forall|i: int, j: int|
            0 <= i < j < self._cts@.len() ==> (#[trigger] self._cts@[i])._id != (
            #[trigger] self._cts@[j])._id
        &&& forall|i: int|
            0 <= i < self._cts@.len() ==> (#[trigger] self._cts@[i])._id < self._next_id
        &&& (self._key matches Some(k) ==> (k._dk matches Some(dk) ==> node_sem_ok(
            self._tree.root,
            dk.lambdav(),
            dk.muv(),
            k._ek.nv(),
        )))
    }

    /// Every record carries a well-formed tag, its pairing anchor is
    /// the pairing of its tag with the public generator, and its ghost
    /// plaintext is what the scheme's key decrypts from its ciphertext.
    pub open spec fn records_ok(&self) -> bool {
        forall|i: int|
            0 <= i < self._cts@.len() ==> rec_sem(
                self._sp,
                self._key,
                #[trigger] self._cts@[i],
            )
    }

    /// Whether the lookup table maps tag value `t` to record id `id`.
    pub open spec fn apl_maps(&self, t: nat, id: u64) -> bool {
        exists|k: int|
            0 <= k < self._apl@.len() && big_nat((#[trigger] self._apl@[k]).0) == t
                && self._apl@[k].1 == id
    }

    /// The lookup table is a one-to-one map from tag values onto the
    /// record identifiers: every entry names a stored record tagged
    /// with that value, every record is reachable from its tag, and
    /// keys are distinct.
    pub open spec fn apl_ok(&self) -> bool {
        &&& forall|k: int|
            0 <= k < self._apl@.len() ==> exists|i: int|
                0 <= i < self._cts@.len() && (#[trigger] self._cts@[i])._id == (
                #[trigger] self._apl@[k]).1 && big_nat(self._apl@[k].0) == self._cts@[i]._g.val()
        &&& forall|i: int|
            0 <= i < self._cts@.len() ==> self.apl_maps(
                (#[trigger] self._cts@[i])._g.val(),
                self._cts@[i]._id,
            )
        &&& forall|k1: int, k2: int|
            0 <= k1 < k2 < self._apl@.len() ==> big_nat((#[trigger] self._apl@[k1]).0)
                != big_nat((#[trigger] self._apl@[k2]).0)
    }

    /// The scheme invariant.
    pub open spec fn wf(&self) -> bool {
        &&& self._sp.wf()
        &&& self.key_ok()
        &&& self.index_ok()
        &&& self.records_ok()
        &&& self.apl_ok()
    }

    /// Key generation for the scheme: a 256-bit Paillier key pair.
    /// `None` means the randomness source failed or the search budget
    /// ran out.
    pub fn keygen() -> (res: Option<hopeK>)
        ensures
            res matches Some(k) ==> {
                &&& k._ek.wf()
                &&& bitlen(k._ek.nv()) <= MAX_BITS as nat
                &&& k._dk is Some
                &&& (k._dk matches Some(dk) ==> keypair_wf(&dk, &k._ek))
            },
    {
        match Paillier::keygen(256) {
            Some((ek, dk)) => Some(hopeK { _dk: Some(dk), _ek: ek }),
            None => None,
        }
    }

    /// A new scheme instance with fresh parameters and keys. `None`
    /// means the randomness source failed.
    pub fn new(_name: String) -> (res: Option<hope>)
        ensures
            res matches Some(h) ==> h.wf() && h._cts@.len() == 0 && h._key is Some
                && h._key->0._dk is Some,
    {
        let sp = match hopeSP::new(_name) {
            Some(v) => v,
            None => { return None; },
        };
        hope::from_sp(sp)
    }

    /// A scheme instance around existing parameters, with fresh keys.
    /// `None` means the randomness source failed.
    pub fn from_sp(_sp: hopeSP) -> (res: Option<hope>)
        requires
            _sp.wf(),
        ensures
            res matches Some(h) ==> h.wf() && h._cts@.len() == 0 && h._key is Some
                && h._key->0._dk is Some,
    {
        let key = match hope::keygen() {
            Some(k) => k,
            None => { return None; },
        };
        let h = hope {
            _sp,
            _tree: Tree::new(DEGREE),
            _apl: Vec::new(),
            _key: Some(key),
            _cts: Vec::new(),
            _next_id: 1,
        };
        proof {
            assert(h._tree.entries().len() == 0);
        }
        Some(h)
    }

    /// The public system parameters.
    pub fn parameters(&self) -> (r: hopeSP)
        ensures
            r._p.val() == self._sp._p.val(),
            r._q.val() == self._sp._q.val(),
    {
        self._sp.dup()
    }

    /// The full key pair, when present.
    pub fn keys(&self) -> (r: Option<hopeK>)
        ensures
            r is Some <==> self._key is Some,
            r matches Some(k) ==> {
                let k0 = self._key->0;
                &&& k._ek.nv() == k0._ek.nv()
                &&& (k._dk is Some <==> k0._dk is Some)
            },
    {
        match &self._key {
            Some(k) => {
                let dk = match &k._dk {
                    Some(d) => Some(d.dup()),
                    None => None,
                };
                Some(hopeK { _dk: dk, _ek: k._ek.dup() })
            },
            None => None,
        }
    }

    /// The encryption key, when present.
    pub fn enc_key(&self) -> (r: Option<PaillierEncryptionKey>)
        ensures
            r is Some <==> self._key is Some,
            r matches Some(ek) ==> {
                let k0 = self._key->0;
                &&& ek.nv() == k0._ek.nv()
                &&& big_nat(ek.n2) == big_nat(k0._ek.n2)
                &&& big_nat(ek.g) == big_nat(k0._ek.g)
            },
    {
        match &self._key {
            Some(k) => Some(k._ek.dup()),
            None => None,
        }
    }

    /// The decryption key, when present.
    pub fn dec_key(&self) -> (r: Option<PaillierDecryptionKey>)
        ensures
            r is Some <==> (self._key is Some && self._key->0._dk is Some),
            r matches Some(dk) ==> {
                let d0 = self._key->0._dk->0;
                dk.lambdav() == d0.lambdav() && dk.muv() == d0.muv()
            },
    {
        match &self._key {
            Some(k) => {
                match &k._dk {
                    Some(d) => Some(d.dup()),
                    None => None,
                }
            },
            None => None,
        }
    }

    /// Looks a record up by identifier in the record store.
    pub fn fetch_ct(&self, _id: u64) -> (res: Option<hopeCT>)
        ensures
            res matches Some(ct) ==> exists|i: int|
                0 <= i < self._cts@.len() && (#[trigger] self._cts@[i])._id == _id
                    && ct._id == _id && big_nat(ct._c) == big_nat(self._cts@[i]._c)
                    && ct._g.val() == self._cts@[i]._g.val() && ct._h.val()
                    == self._cts@[i]._h.val() && ct._o == self._cts@[i]._o && ct._m@
                    == self._cts@[i]._m@,
            res is None ==> forall|i: int|
                0 <= i < self._cts@.len() ==> (#[trigger] self._cts@[i])._id != _id,
    {
        let mut i: usize = 0;
        while i < self._cts.len()
            invariant
                i <= self._cts@.len(),
                forall|j: int| 0 <= j < i ==> (#[trigger] self._cts@[j])._id != _id,
            decreases self._cts@.len() - i,
        {
            if self._cts[i]._id == _id {
                return Some(self._cts[i].dup());
            }
            i = i + 1;
        }
        None
    }

    /// The record store write: delegated to the orchestrator's own
    /// operations, which register records themselves; this entry point
    /// stores nothing.
    pub fn insert_ct(&self, _ct: hopeCT) -> (res: Option<u64>)
        ensures
            res is None,
    {
        None
    }

    /// The current order code of the record with this identifier.
    pub fn lookup_tree(&self, _id: u64) -> (res: Option<u64>)
        requires
            self._tree.wf(),
        ensures
            res matches Some(v) ==> exists|p: int|
                0 <= p < self._tree.pairs().len() && (#[trigger] self._tree.pairs()[p]).0 == _id
                    && self._tree.pairs()[p].1 == v as nat,
            res is None ==> forall|p: int|
                0 <= p < self._tree.pairs().len() ==> (#[trigger] self._tree.pairs()[p]).0
                    != _id,
    {
        self._tree.code(_id)
    }

    /// Looks the tag of a group element up in the lookup table and
    /// fetches the record it maps to.
    pub fn lookup_apl(&self, _token: &G1) -> (res: Option<hopeCT>)
        requires
            self.wf(),
        ensures
            res matches Some(ct) ==> self.apl_maps(_token.val(), ct._id) && ct._g.val()
                == _token.val() && exists|i: int|
                0 <= i < self._cts@.len() && (#[trigger] self._cts@[i])._id == ct._id
                    && big_nat(ct._c) == big_nat(self._cts@[i]._c) && ct._g.val()
                    == self._cts@[i]._g.val() && ct._h.val() == self._cts@[i]._h.val() && ct._o
                    == self._cts@[i]._o && ct._m@ == self._cts@[i]._m@,
            res is None ==> forall|k: int|
                0 <= k < self._apl@.len() ==> big_nat((#[trigger] self._apl@[k]).0)
                    != _token.val(),
    {
        let mut k: usize = 0;
        while k < self._apl.len()
            invariant
                self.wf(),
                k <= self._apl@.len(),
                forall|j: int| 0 <= j < k ==> big_nat((#[trigger] self._apl@[j]).0)
                    != _token.val(),
            decreases self._apl@.len() - k,
        {
            if big_eq(&self._apl[k].0, &_token.x) {
                let id = self._apl[k].1;
                proof {
                    assert(exists|i: int|
                        0 <= i < self._cts@.len() && (#[trigger] self._cts@[i])._id == id);
                }
                let fetched = self.fetch_ct(id);
                match fetched {
                    Some(ct) => {
                        return Some(ct);
                    },
                    None => {
                        proof {
                            assert(false);
                        }
                    },
                }
            }
            k = k + 1;
        }
        None
    }

    /// Allocates an identifier, inserts the ciphertext into the index,
    /// rebuilds the record store in the index's symmetric order with
    /// fresh codes, and registers the record in the lookup table. The
    /// caller has already ruled the tag and the decrypted value out of
    /// the scheme.
    #[verifier::rlimit(100)]
    #[verifier::spinoff_prover]
    fn register(&mut self, _c: BigUint, _g: G1, _h: Gt) -> (res: Option<hopeCT>)
        requires
            old(self).wf(),
            old(self)._key is Some,
            old(self)._key->0._dk is Some,
            _g.wf(),
            _h.val() == (_g.val() * old(self)._sp._q.val()) % fr_mod(),
            forall|i: int|
                0 <= i < old(self)._cts@.len() ==> (#[trigger] old(self)._cts@[i])._m@
                    != scheme_dec(old(self)._key->0, big_nat(_c)),
            forall|k2: int|
                0 <= k2 < old(self)._apl@.len() ==> big_nat((#[trigger] old(self)._apl@[k2]).0)
                    != _g.val(),
        ensures
            final(self).wf(),
            final(self)._sp == old(self)._sp,
            final(self)._key == old(self)._key,
            res matches Some(ct) ==> {
                &&& ct._g.val() == _g.val()
                &&& ct._h.val() == _h.val()
                &&& big_nat(ct._c) == big_nat(_c)
                &&& ct._m@ == scheme_dec(old(self)._key->0, big_nat(_c))
                &&& final(self).apl_maps(_g.val(), ct._id)
                &&& final(self)._apl@.len() == old(self)._apl@.len() + 1
                &&& forall|k2: int|
                    0 <= k2 < old(self)._apl@.len() ==> final(self)._apl@[k2] == old(
                        self,
                    )._apl@[k2]
                &&& exists|p: int|
                    0 <= p < final(self)._tree.pairs().len()
                        && (#[trigger] final(self)._tree.pairs()[p]).0 == ct._id
                        && final(self)._tree.pairs()[p].1 == ct._o as nat
            },
            res is None ==> *final(self) == *old(self),
            res is None ==> old(self)._next_id == u64::MAX || old(self)._tree.at_capacity(),
    {
        if self._next_id == u64::MAX {
            return None;
        }
        let ghost os = *old(self);
        let (odk, oek) = match &self._key {
            Some(k) => {
                match &k._dk {
                    Some(d) => (d.dup(), k._ek.dup()),
                    None => { return vstd::pervasive::unreached(); },
                }
            },
            None => { return vstd::pervasive::unreached(); },
        };
        let oracle = DecryptOracle { dk: odk, ek: oek };
        let ghost mval = scheme_dec(os._key->0, big_nat(_c));
        proof {
            lemma_sem_ok_iff(self._tree.root, &oracle);
            assert(self._tree.all_ok(&oracle));
        }
        let id = self._next_id;
        let leaf = hopeLeaf { _id: id, _c: big_clone(&_c), _o: 0u64, _m: Ghost(mval) };
        proof {
            assert(oracle.leaf_ok(leaf));
            assert(!has_plain(self._tree.entries(), mval)) by {
                if has_plain(self._tree.entries(), mval) {
                    let p = choose|p: int|
                        0 <= p < self._tree.entries().len()
                            && self._tree.entries()[p]._m@ == mval;
                    assert(os._cts@[p]._m@ == mval);
                }
            }
        }
        let ghost tree0 = self._tree;
        let ok = self._tree.insert(leaf, &oracle);
        if !ok {
            proof {
                assert(*self == *old(self));
            }
            return None;
        }
        self._next_id = id + 1;
        proof {
            self._tree.lemma_tree_order();
            tree0.lemma_tree_order();
        }
        let ghost gdx = choose|g: int|
            0 <= g <= tree0.entries().len() && self._tree.entries() == tree0.entries().insert(
                g,
                leaf,
            );
        proof {
            assert(self._tree.entries()[gdx] == leaf);
            assert(self._tree.pairs()[gdx].0 == id);
        }
        let code_opt = self._tree.code(id);
        let code = match code_opt {
            Some(v) => v,
            None => { return vstd::pervasive::unreached(); },
        };
        let hct = hopeCT { _id: id, _c, _g, _h, _o: code, _m: Ghost(mval) };
        self._cts.push(hct.dup());
        self._apl.push((big_clone(&hct._g.x), id));
        // Every leaf of the grown index has exactly one source record
        // in the pool, with the same identifier and plaintext.
        let ghost ents = self._tree.entries();
        let ghost prs = self._tree.pairs();
        let ghost pool = self._cts@;
        let ghost n = ents.len();
        proof {
            // Identifiers of the grown index are pairwise distinct and
            // each names one pool record.
            assert forall|q1: int, q2: int| 0 <= q1 < q2 < n implies ents[q1]._id
                != ents[q2]._id by {
                lemma_entry_ids(os, tree0, ents, gdx, leaf, q1);
                lemma_entry_ids(os, tree0, ents, gdx, leaf, q2);
            }
            assert forall|q: int| #![trigger ents[q]] 0 <= q < n implies exists|i: int|
                0 <= i < pool.len() && (#[trigger] pool[i])._id == ents[q]._id
                    && pool[i]._m@ == ents[q]._m@ && pool[i]._g.val() == os._cts@.push(
                    hct,
                )[i]._g.val() by {
                lemma_entry_ids(os, tree0, ents, gdx, leaf, q);
                if q == gdx {
                    assert(pool[pool.len() - 1]._id == ents[q]._id);
                    assert(pool[pool.len() - 1]._m@ == ents[q]._m@);
                } else {
                    let q0 = if q < gdx {
                        q
                    } else {
                        q - 1
                    };
                    assert(ents[q] == tree0.entries()[q0]);
                    assert(os._cts@[q0]._id == ents[q]._id && os._cts@[q0]._m@ == ents[q]._m@);
                    assert(pool[q0] == os._cts@[q0]);
                }
            }
        }
        let mut pairs_out: Vec<(u64, u64)> = Vec::new();
        self._tree.update_apl(&mut pairs_out);
        proof {
            assert forall|q: int| 0 <= q < n implies (#[trigger] pairs_out@[q]).0 == prs[q].0
                && pairs_out@[q].1 as nat == prs[q].1 by {
                assert(0 + q == q);
                assert((pairs_out@[0 + q]).0 == self._tree.pairs()[q].0);
                assert(pairs_out@[0 + q].1 as nat == self._tree.pairs()[q].1);
            }
        }
        let mut newstore: Vec<hopeCT> = Vec::new();
        let mut p: usize = 0;
        while p < pairs_out.len()
            invariant
                pairs_out@.len() == n,
                prs.len() == n,
                n == ents.len(),
                pool == self._cts@,
                pool.len() == n,
                forall|q: int|
                    0 <= q < n ==> (#[trigger] pairs_out@[q]).0 == prs[q].0 && pairs_out@[q].1
                        as nat == prs[q].1,
                forall|q: int| 0 <= q < n ==> (#[trigger] prs[q]).0 == ents[q]._id,
                forall|q1: int, q2: int|
                    0 <= q1 < q2 < n ==> ents[q1]._id != ents[q2]._id,
                forall|i1: int, i2: int|
                    0 <= i1 < i2 < pool.len() ==> (#[trigger] pool[i1])._id != (
                    #[trigger] pool[i2])._id,
                forall|i: int|
                    0 <= i < pool.len() ==> rec_sem(os._sp, os._key, #[trigger] pool[i])
                        && pool[i]._id < self._next_id,
                forall|q: int|
                    #![trigger ents[q]]
                    0 <= q < n ==> exists|i: int|
                        0 <= i < pool.len() && (#[trigger] pool[i])._id == ents[q]._id
                            && pool[i]._m@ == ents[q]._m@,
                p <= n,
                newstore@.len() == p,
                forall|q: int|
                    0 <= q < p ==> {
                        let r = #[trigger] newstore@[q];
                        &&& r._id == ents[q]._id
                        &&& r._m@ == ents[q]._m@
                        &&& r._o as nat == prs[q].1
                        &&& rec_sem(os._sp, os._key, r)
                        &&& r._id < self._next_id
                        &&& exists|i: int|
                            0 <= i < pool.len() && (#[trigger] pool[i])._id == r._id
                                && pool[i]._g.val() == r._g.val()
                    },
            decreases pairs_out@.len() - p,
        {
            let pid = pairs_out[p].0;
            let po = pairs_out[p].1;
            let mut i: usize = 0;
            let ghost pushed = false;
            while i < self._cts.len()
                invariant_except_break
                    pool == self._cts@,
                    i <= pool.len(),
                    forall|j: int| 0 <= j < i ==> (#[trigger] pool[j])._id != pid,
                ensures
                    pool == self._cts@,
                    i <= pool.len(),
                    i < pool.len() ==> pool[i as int]._id == pid,
                    i == pool.len() ==> forall|j: int|
                        0 <= j < pool.len() ==> (#[trigger] pool[j])._id != pid,
                decreases pool.len() - i,
            {
                if self._cts[i]._id == pid {
                    break ;
                }
                i = i + 1;
            }
            proof {
                assert(i < pool.len()) by {
                    assert(pid == ents[p as int]._id);
                    assert(exists|ii: int|
                        0 <= ii < pool.len() && (#[trigger] pool[ii])._id == ents[p as int]._id
                            && pool[ii]._m@ == ents[p as int]._m@);
                    if i == pool.len() {
                        let ii = choose|ii: int|
                            0 <= ii < pool.len() && (#[trigger] pool[ii])._id
                                == ents[p as int]._id && pool[ii]._m@ == ents[p as int]._m@;
                        assert(pool[ii]._id != pid);
                    }
                }
                // The record found by identifier carries the entry's
                // plaintext.
                let ii = choose|ii: int|
                    0 <= ii < pool.len() && (#[trigger] pool[ii])._id == ents[p as int]._id
                        && pool[ii]._m@ == ents[p as int]._m@;
                assert(pool[ii]._id == pid && pool[i as int]._id == pid);
                assert(ii == i as int) by {
                    if ii != i as int {
                        if ii < i as int {
                            assert(pool[ii]._id != pool[i as int]._id);
                        } else {
                            assert(pool[i as int]._id != pool[ii]._id);
                        }
                    }
                }
                assert(pool[i as int]._m@ == ents[p as int]._m@);
            }
            let r = &self._cts[i];
            let nr = hopeCT {
                _id: r._id,
                _c: big_clone(&r._c),
                _g: r._g.dup(),
                _h: r._h.dup(),
                _o: po,
                _m: r._m,
            };
            newstore.push(nr);
            p = p + 1;
        }
        self._cts = newstore;
        proof {
            // Reassemble the invariant over the rebuilt store.
            assert(self._cts@.len() == n);
            lemma_sem_ok_iff(self._tree.root, &oracle);
            assert(self._tree.all_ok(&oracle));
            assert(self.index_ok()) by {
                assert forall|i1: int, i2: int|
                    0 <= i1 < i2 < self._cts@.len() implies (#[trigger] self._cts@[i1])._id != (
                #[trigger] self._cts@[i2])._id by {
                    assert(self._cts@[i1]._id == ents[i1]._id);
                    assert(self._cts@[i2]._id == ents[i2]._id);
                }
            }
            assert(self.apl_ok()) by {
                let napl = self._apl@;
                assert(napl.len() == os._apl@.len() + 1);
                assert forall|k2: int| 0 <= k2 < napl.len() implies exists|i: int|
                    0 <= i < self._cts@.len() && (#[trigger] self._cts@[i])._id == (
                    #[trigger] napl[k2]).1 && big_nat(napl[k2].0) == self._cts@[i]._g.val() by {
                    if k2 < os._apl@.len() {
                        assert(napl[k2] == os._apl@[k2]);
                        let i0 = choose|i0: int|
                            0 <= i0 < os._cts@.len() && (#[trigger] os._cts@[i0])._id
                                == os._apl@[k2].1 && big_nat(os._apl@[k2].0)
                                == os._cts@[i0]._g.val();
                        // That old record survives in the rebuilt
                        // store under the same identifier and tag.
                        lemma_entry_ids(os, tree0, ents, gdx, leaf, if i0 < gdx {
                            i0
                        } else {
                            i0 + 1
                        });
                        let q = if i0 < gdx {
                            i0
                        } else {
                            i0 + 1
                        };
                        assert(ents[q]._id == os._cts@[i0]._id);
                        assert(self._cts@[q]._id == os._cts@[i0]._id);
                        let ip = choose|ip: int|
                            0 <= ip < pool.len() && (#[trigger] pool[ip])._id
                                == self._cts@[q]._id && pool[ip]._g.val()
                                == self._cts@[q]._g.val();
                        assert(pool[i0] == os._cts@.push(hct)[i0]);
                        assert(pool[i0]._id == self._cts@[q]._id);
                        assert(ip == i0) by {
                            if ip != i0 {
                                if ip < i0 {
                                    assert(pool[ip]._id != pool[i0]._id);
                                } else {
                                    assert(pool[i0]._id != pool[ip]._id);
                                }
                            }
                        }
                        assert(self._cts@[q]._g.val() == os._cts@[i0]._g.val());
                    } else {
                        // The appended entry names the new record.
                        assert(napl[k2].1 == id);
                        assert(self._cts@[gdx]._id == id);
                        let ip = choose|ip: int|
                            0 <= ip < pool.len() && (#[trigger] pool[ip])._id
                                == self._cts@[gdx]._id && pool[ip]._g.val()
                                == self._cts@[gdx]._g.val();
                        assert(pool[pool.len() - 1]._id == id);
                        assert(ip == pool.len() - 1) by {
                            if ip != pool.len() - 1 {
                                assert(pool[ip]._id != pool[pool.len() - 1]._id);
                            }
                        }
                        assert(self._cts@[gdx]._g.val() == hct._g.val());
                    }
                }
                assert forall|i: int| 0 <= i < self._cts@.len() implies self.apl_maps(
                    (#[trigger] self._cts@[i])._g.val(),
                    self._cts@[i]._id,
                ) by {
                    let rid = self._cts@[i]._id;
                    let ip = choose|ip: int|
                        0 <= ip < pool.len() && (#[trigger] pool[ip])._id == rid
                            && pool[ip]._g.val() == self._cts@[i]._g.val();
                    if ip == pool.len() - 1 {
                        assert(pool[ip]._g.val() == hct._g.val());
                        assert(big_nat(self._apl@[os._apl@.len() as int].0) == hct._g.val());
                        assert(self._apl@[os._apl@.len() as int].1 == id);
                        assert(rid == id) by {
                            assert(pool[ip]._id == rid);
                        }
                    } else {
                        assert(pool[ip] == os._cts@[ip]);
                        assert(os.apl_maps(os._cts@[ip]._g.val(), os._cts@[ip]._id));
                        let k0 = choose|k0: int|
                            0 <= k0 < os._apl@.len() && big_nat((#[trigger] os._apl@[k0]).0)
                                == os._cts@[ip]._g.val() && os._apl@[k0].1 == os._cts@[ip]._id;
                        assert(self._apl@[k0] == os._apl@[k0]);
                    }
                }
                assert forall|k1: int, k2: int|
                    0 <= k1 < k2 < self._apl@.len() implies big_nat(
                    (#[trigger] self._apl@[k1]).0,
                ) != big_nat((#[trigger] self._apl@[k2]).0) by {
                    if k2 == self._apl@.len() - 1 {
                        assert(self._apl@[k1] == os._apl@[k1]);
                        assert(big_nat(self._apl@[k2].0) == _g.val());
                    } else {
                        assert(self._apl@[k1] == os._apl@[k1]);
                        assert(self._apl@[k2] == os._apl@[k2]);
                    }
                }
            }
            assert(self.apl_maps(_g.val(), hct._id)) by {
                assert(big_nat(self._apl@[os._apl@.len() as int].0) == _g.val());
                assert(self._apl@[os._apl@.len() as int].1 == id);
            }
        }
        Some(hct)
    }

    /// Encryption under an explicit encryption key, which must hold
    /// the same numbers as the scheme's own. The plaintext is rejected
    /// outside the scalar field or the Paillier message space; a tag
    /// hit or an already-encrypted plaintext returns the stored record
    /// unchanged; otherwise a fresh record is created, indexed and
    /// registered.
    #[verifier::rlimit(100)]
    #[verifier::spinoff_prover]
    pub fn encrypt_ek(&mut self, _ek: &PaillierEncryptionKey, _m: &BigUint) -> (res: Option<
        hopeCT,
    >)
        requires
            old(self).wf(),
            old(self)._key is Some,
            old(self)._key->0._dk is Some,
            _ek.nv() == old(self)._key->0._ek.nv(),
            big_nat(_ek.n2) == big_nat(old(self)._key->0._ek.n2),
            big_nat(_ek.g) == big_nat(old(self)._key->0._ek.g),
        ensures
            final(self).wf(),
            final(self)._sp == old(self)._sp,
            final(self)._key == old(self)._key,
            big_nat(*_m) >= fr_mod() ==> res is None && *final(self) == *old(self),
            res matches Some(ct) ==> {
                &&& ct._h.val() == (ct._g.val() * old(self)._sp._q.val()) % fr_mod()
                &&& final(self).apl_maps(ct._g.val(), ct._id)
                &&& ((exists|i: int|
                    0 <= i < old(self)._cts@.len() && (#[trigger] old(self)._cts@[i])._id
                        == ct._id && big_nat(ct._c) == big_nat(old(self)._cts@[i]._c)
                        && ct._g.val() == old(self)._cts@[i]._g.val() && ct._h.val() == old(
                        self,
                    )._cts@[i]._h.val() && ct._o == old(self)._cts@[i]._o && ct._m@ == old(
                        self,
                    )._cts@[i]._m@) || {
                    &&& ct._g.val() == tag_val(old(self)._sp._p.val(), big_nat(*_m))
                    &&& ct._m@ == scheme_dec(old(self)._key->0, big_nat(ct._c))
                    &&& exists|p: int|
                        0 <= p < final(self)._tree.pairs().len()
                            && (#[trigger] final(self)._tree.pairs()[p]).0 == ct._id
                            && final(self)._tree.pairs()[p].1 == ct._o as nat
                })
            },
            big_nat(*_m) < fr_mod() ==> forall|id0: u64|
                old(self).apl_maps(
                    tag_val(old(self)._sp._p.val(), big_nat(*_m)),
                    id0,
                ) ==> (res matches Some(ct) && ct._id == id0),
            (big_nat(*_m) < fr_mod() && (exists|k: int|
                0 <= k < old(self)._apl@.len() && big_nat((#[trigger] old(self)._apl@[k]).0)
                    == tag_val(old(self)._sp._p.val(), big_nat(*_m)))) ==> (res is Some
                && *final(self) == *old(self)),
            (big_nat(*_m) < fr_mod() && big_nat(*_m) >= old(self)._key->0._ek.nv() && (forall|
                k: int,
            |
                0 <= k < old(self)._apl@.len() ==> big_nat((#[trigger] old(self)._apl@[k]).0)
                    != tag_val(old(self)._sp._p.val(), big_nat(*_m)))) ==> (res is None
                && *final(self) == *old(self)),
    {
        let md = fr_modulus();
        if !big_lt(_m, &md) {
            return None;
        }
        let fr = Fr { v: big_clone(_m) };
        let g = self._sp._p.mul_fr(&fr);
        let ghost t = tag_val(self._sp._p.val(), big_nat(*_m));
        proof {
            assert(g.val() == t);
        }
        let looked = self.lookup_apl(&g);
        match looked {
            Some(ct) => {
                proof {
                    assert forall|id0: u64|
                        old(self).apl_maps(t, id0) implies ct._id == id0 by {
                        let k1 = choose|k1: int|
                            0 <= k1 < self._apl@.len() && big_nat((#[trigger] self._apl@[k1]).0)
                                == t && self._apl@[k1].1 == id0;
                        let k2 = choose|k2: int|
                            0 <= k2 < self._apl@.len() && big_nat((#[trigger] self._apl@[k2]).0)
                                == t && self._apl@[k2].1 == ct._id;
                        if k1 != k2 {
                            if k1 < k2 {
                                assert(big_nat(self._apl@[k1].0) != big_nat(self._apl@[k2].0));
                            } else {
                                assert(big_nat(self._apl@[k2].0) != big_nat(self._apl@[k1].0));
                            }
                        }
                    }
                }
                return Some(ct);
            },
            None => {},
        }
        proof {
            assert(_ek.wf()) by {
                assert(old(self)._key->0._ek.wf());
            }
            assert(bitlen(_ek.nv()) <= MAX_BITS as nat);
        }
        if !big_lt(_m, &_ek.n) {
            return None;
        }
        let c = match Paillier::encrypt(_ek, _m) {
            Some(v) => v,
            None => { return None; },
        };
        let h = pairing(&g, &self._sp._q);
        let (dk, ekk) = match &self._key {
            Some(k) => {
                match &k._dk {
                    Some(d) => (d.dup(), k._ek.dup()),
                    None => { return vstd::pervasive::unreached(); },
                }
            },
            None => { return vstd::pervasive::unreached(); },
        };
        proof {
            assert(ekk.wf());
        }
        let dc = Paillier::decrypt(&dk, &ekk, &c);
        let ghost mval = scheme_dec(self._key->0, big_nat(c));
        proof {
            assert(big_nat(dc) == mval);
        }
        let mut i: usize = 0;
        while i < self._cts.len()
            invariant
                *self == *old(self),
                self.wf(),
                self._key is Some,
                self._key->0._dk is Some,
                ekk.wf(),
                ekk.nv() == self._key->0._ek.nv(),
                dk.lambdav() == self._key->0._dk->0.lambdav(),
                dk.muv() == self._key->0._dk->0.muv(),
                big_nat(dc) == mval,
                mval == scheme_dec(self._key->0, big_nat(c)),
                big_nat(*_m) < fr_mod(),
                big_nat(*_m) < self._key->0._ek.nv(),
                forall|k2: int|
                    0 <= k2 < self._apl@.len() ==> big_nat((#[trigger] self._apl@[k2]).0)
                        != tag_val(self._sp._p.val(), big_nat(*_m)),
                i <= self._cts@.len(),
                forall|j: int| 0 <= j < i ==> (#[trigger] self._cts@[j])._m@ != mval,
            decreases self._cts@.len() - i,
        {
            proof {
                assert(rec_sem(self._sp, self._key, self._cts@[i as int]));
            }
            let dr = Paillier::decrypt(&dk, &ekk, &self._cts[i]._c);
            proof {
                assert(big_nat(dr) == self._cts@[i as int]._m@);
            }
            if big_eq(&dc, &dr) {
                let existing = self._cts[i].dup();
                proof {
                    assert(rec_sem(self._sp, self._key, self._cts@[i as int]));
                    assert(self.apl_maps(existing._g.val(), existing._id));
                }
                return Some(existing);
            }
            i = i + 1;
        }
        self.register(c, g, h)
    }

    /// Encryption under the scheme's own key.
    pub fn encrypt(&mut self, _m: &BigUint) -> (res: Option<hopeCT>)
        requires
            old(self).wf(),
        ensures
            final(self).wf(),
            final(self)._sp == old(self)._sp,
            final(self)._key == old(self)._key,
            big_nat(*_m) >= fr_mod() ==> res is None,
            (old(self)._key is None || old(self)._key->0._dk is None) ==> res is None
                && *final(self) == *old(self),
            res is Some ==> old(self)._key is Some && old(self)._key->0._dk is Some,
            res matches Some(ct) ==> {
                &&& ct._h.val() == (ct._g.val() * old(self)._sp._q.val()) % fr_mod()
                &&& final(self).apl_maps(ct._g.val(), ct._id)
                &&& ((exists|i: int|
                    0 <= i < old(self)._cts@.len() && (#[trigger] old(self)._cts@[i])._id
                        == ct._id && big_nat(ct._c) == big_nat(old(self)._cts@[i]._c)
                        && ct._g.val() == old(self)._cts@[i]._g.val() && ct._h.val() == old(
                        self,
                    )._cts@[i]._h.val() && ct._o == old(self)._cts@[i]._o && ct._m@ == old(
                        self,
                    )._cts@[i]._m@) || {
                    &&& ct._g.val() == tag_val(old(self)._sp._p.val(), big_nat(*_m))
                    &&& ct._m@ == scheme_dec(old(self)._key->0, big_nat(ct._c))
                    &&& exists|p: int|
                        0 <= p < final(self)._tree.pairs().len()
                            && (#[trigger] final(self)._tree.pairs()[p]).0 == ct._id
                            && final(self)._tree.pairs()[p].1 == ct._o as nat
                })
            },
            (old(self)._key is Some && old(self)._key->0._dk is Some && big_nat(*_m) < fr_mod())
                ==> forall|id0: u64|
                old(self).apl_maps(
                    tag_val(old(self)._sp._p.val(), big_nat(*_m)),
                    id0,
                ) ==> (res matches Some(ct) && ct._id == id0),
    {
        let has_dk = match &self._key {
            Some(k) => k._dk.is_some(),
            None => false,
        };
        if !has_dk {
            return None;
        }
        let ek = match self.enc_key() {
            Some(v) => v,
            None => { return vstd::pervasive::unreached(); },
        };
        self.encrypt_ek(&ek, _m)
    }

    /// Decryption of a record's Paillier component under explicit
    /// keys.
    pub fn decrypt(
        &self,
        _ct: &hopeCT,
        _dk: &PaillierDecryptionKey,
        _ek: &PaillierEncryptionKey,
    ) -> (res: BigUint)
        requires
            _ek.wf(),
        ensures
            big_nat(res) == dec_spec(_dk.lambdav(), _dk.muv(), _ek.nv(), big_nat(_ct._c)),
    {
        Paillier::decrypt(_dk, _ek, &_ct._c)
    }

    /// Homomorphic addition of two records: the group sum of the tags
    /// keys the lookup, and on a miss the rerandomized product of the
    /// Paillier components is indexed and registered.
    #[verifier::rlimit(100)]
    #[verifier::spinoff_prover]
    pub fn add(&mut self, _ct1: &hopeCT, _ct2: &hopeCT) -> (res: Option<hopeCT>)
        requires
            old(self).wf(),
            _ct1._g.wf(),
            _ct2._g.wf(),
        ensures
            final(self).wf(),
            final(self)._sp == old(self)._sp,
            final(self)._key == old(self)._key,
            res matches Some(ct) ==> {
                &&& ct._h.val() == (ct._g.val() * old(self)._sp._q.val()) % fr_mod()
                &&& final(self).apl_maps(ct._g.val(), ct._id)
                &&& ((exists|i: int|
                    0 <= i < old(self)._cts@.len() && (#[trigger] old(self)._cts@[i])._id
                        == ct._id && big_nat(ct._c) == big_nat(old(self)._cts@[i]._c)
                        && ct._g.val() == old(self)._cts@[i]._g.val() && ct._h.val() == old(
                        self,
                    )._cts@[i]._h.val() && ct._o == old(self)._cts@[i]._o && ct._m@ == old(
                        self,
                    )._cts@[i]._m@) || {
                    &&& ct._g.val() == g1_add_val(_ct1._g.val(), _ct2._g.val())
                    &&& ct._m@ == scheme_dec(old(self)._key->0, big_nat(ct._c))
                    &&& exists|p: int|
                        0 <= p < final(self)._tree.pairs().len()
                            && (#[trigger] final(self)._tree.pairs()[p]).0 == ct._id
                            && final(self)._tree.pairs()[p].1 == ct._o as nat
                })
            },
            (old(self)._key is None || old(self)._key->0._dk is None) ==> res is None
                && *final(self) == *old(self),
            (old(self)._key is Some && old(self)._key->0._dk is Some) ==> forall|id0: u64|
                old(self).apl_maps(
                    g1_add_val(_ct1._g.val(), _ct2._g.val()),
                    id0,
                ) ==> (res matches Some(ct) && ct._id == id0),
            (old(self)._key is Some && old(self)._key->0._dk is Some && (exists|k: int|
                0 <= k < old(self)._apl@.len() && big_nat((#[trigger] old(self)._apl@[k]).0)
                    == g1_add_val(_ct1._g.val(), _ct2._g.val()))) ==> (res is Some && *final(self) == *old(self)),
    {
        let has_dk = match &self._key {
            Some(k) => k._dk.is_some(),
            None => false,
        };
        if !has_dk {
            return None;
        }
        let g = _ct1._g.add_g1(&_ct2._g);
        let ghost t = g1_add_val(_ct1._g.val(), _ct2._g.val());
        let looked = self.lookup_apl(&g);
        match looked {
            Some(ct) => {
                proof {
                    assert forall|id0: u64|
                        old(self).apl_maps(t, id0) implies ct._id == id0 by {
                        let k1 = choose|k1: int|
                            0 <= k1 < self._apl@.len() && big_nat((#[trigger] self._apl@[k1]).0)
                                == t && self._apl@[k1].1 == id0;
                        let k2 = choose|k2: int|
                            0 <= k2 < self._apl@.len() && big_nat((#[trigger] self._apl@[k2]).0)
                                == t && self._apl@[k2].1 == ct._id;
                        if k1 != k2 {
                            if k1 < k2 {
                                assert(big_nat(self._apl@[k1].0) != big_nat(self._apl@[k2].0));
                            } else {
                                assert(big_nat(self._apl@[k2].0) != big_nat(self._apl@[k1].0));
                            }
                        }
                    }
                }
                return Some(ct);
            },
            None => {},
        }
        let (dk, ekk) = match &self._key {
            Some(k) => {
                match &k._dk {
                    Some(d) => (d.dup(), k._ek.dup()),
                    None => { return vstd::pervasive::unreached(); },
                }
            },
            None => { return vstd::pervasive::unreached(); },
        };
        proof {
            assert(ekk.wf());
            assert(bitlen(ekk.nv()) <= MAX_BITS as nat);
        }
        let c0 = Paillier::add(&ekk, &_ct1._c, &_ct2._c);
        let c = match Paillier::rerandomize(&ekk, &c0) {
            Some(v) => v,
            None => { return None; },
        };
        let h = pairing(&g, &self._sp._q);
        let dc = Paillier::decrypt(&dk, &ekk, &c);
        let ghost mval = scheme_dec(self._key->0, big_nat(c));
        let mut i: usize = 0;
        while i < self._cts.len()
            invariant
                *self == *old(self),
                t == g1_add_val(_ct1._g.val(), _ct2._g.val()),
                self.wf(),
                self._key is Some,
                self._key->0._dk is Some,
                ekk.wf(),
                ekk.nv() == self._key->0._ek.nv(),
                dk.lambdav() == self._key->0._dk->0.lambdav(),
                dk.muv() == self._key->0._dk->0.muv(),
                big_nat(dc) == mval,
                mval == scheme_dec(self._key->0, big_nat(c)),
                forall|k2: int|
                    0 <= k2 < self._apl@.len() ==> big_nat((#[trigger] self._apl@[k2]).0) != t,
                i <= self._cts@.len(),
                forall|j: int| 0 <= j < i ==> (#[trigger] self._cts@[j])._m@ != mval,
            decreases self._cts@.len() - i,
        {
            proof {
                assert(rec_sem(self._sp, self._key, self._cts@[i as int]));
            }
            let dr = Paillier::decrypt(&dk, &ekk, &self._cts[i]._c);
            if big_eq(&dc, &dr) {
                let existing = self._cts[i].dup();
                proof {
                    assert(rec_sem(self._sp, self._key, self._cts@[i as int]));
                    assert(self.apl_maps(existing._g.val(), existing._id));
                }
                return Some(existing);
            }
            i = i + 1;
        }
        self.register(c, g, h)
    }

    /// Homomorphic subtraction of two records: the group difference of
    /// the tags keys the lookup, and on a miss the rerandomized
    /// quotient of the Paillier components is indexed and registered;
    /// absent when the second component has no modular inverse.
    #[verifier::rlimit(100)]
    #[verifier::spinoff_prover]
    pub fn sub(&mut self, _ct1: &hopeCT, _ct2: &hopeCT) -> (res: Option<hopeCT>)
        requires
            old(self).wf(),
            _ct1._g.wf(),
            _ct2._g.wf(),
        ensures
            final(self).wf(),
            final(self)._sp == old(self)._sp,
            final(self)._key == old(self)._key,
            res matches Some(ct) ==> {
                &&& ct._h.val() == (ct._g.val() * old(self)._sp._q.val()) % fr_mod()
                &&& final(self).apl_maps(ct._g.val(), ct._id)
                &&& ((exists|i: int|
                    0 <= i < old(self)._cts@.len() && (#[trigger] old(self)._cts@[i])._id
                        == ct._id && big_nat(ct._c) == big_nat(old(self)._cts@[i]._c)
                        && ct._g.val() == old(self)._cts@[i]._g.val() && ct._h.val() == old(
                        self,
                    )._cts@[i]._h.val() && ct._o == old(self)._cts@[i]._o && ct._m@ == old(
                        self,
                    )._cts@[i]._m@) || {
                    &&& ct._g.val() == g1_sub_val(_ct1._g.val(), _ct2._g.val())
                    &&& ct._m@ == scheme_dec(old(self)._key->0, big_nat(ct._c))
                    &&& exists|p: int|
                        0 <= p < final(self)._tree.pairs().len()
                            && (#[trigger] final(self)._tree.pairs()[p]).0 == ct._id
                            && final(self)._tree.pairs()[p].1 == ct._o as nat
                })
            },
            (old(self)._key is None || old(self)._key->0._dk is None) ==> res is None
                && *final(self) == *old(self),
            (old(self)._key is Some && old(self)._key->0._dk is Some) ==> forall|id0: u64|
                old(self).apl_maps(
                    g1_sub_val(_ct1._g.val(), _ct2._g.val()),
                    id0,
                ) ==> (res matches Some(ct) && ct._id == id0),
            (old(self)._key is Some && old(self)._key->0._dk is Some && (exists|k: int|
                0 <= k < old(self)._apl@.len() && big_nat((#[trigger] old(self)._apl@[k]).0)
                    == g1_sub_val(_ct1._g.val(), _ct2._g.val()))) ==> (res is Some && *final(self) == *old(self)),
            (old(self)._key is Some && old(self)._key->0._dk is Some && (forall|k2: int|
                0 <= k2 < old(self)._apl@.len() ==> big_nat(
                    (#[trigger] old(self)._apl@[k2]).0,
                ) != (_ct1._g.val() + ((fr_mod() - _ct2._g.val()) as nat)) % fr_mod())
                && gcd_nat(
                big_nat(_ct2._c),
                old(self)._key->0._ek.nv() * old(self)._key->0._ek.nv(),
            ) != 1) ==> (res is None && *final(self) == *old(self)),
    {
        let has_dk = match &self._key {
            Some(k) => k._dk.is_some(),
            None => false,
        };
        if !has_dk {
            return None;
        }
        let g = _ct1._g.sub_g1(&_ct2._g);
        let ghost t = g1_sub_val(_ct1._g.val(), _ct2._g.val());
        let looked = self.lookup_apl(&g);
        match looked {
            Some(ct) => {
                proof {
                    assert forall|id0: u64|
                        old(self).apl_maps(t, id0) implies ct._id == id0 by {
                        let k1 = choose|k1: int|
                            0 <= k1 < self._apl@.len() && big_nat((#[trigger] self._apl@[k1]).0)
                                == t && self._apl@[k1].1 == id0;
                        let k2 = choose|k2: int|
                            0 <= k2 < self._apl@.len() && big_nat((#[trigger] self._apl@[k2]).0)
                                == t && self._apl@[k2].1 == ct._id;
                        if k1 != k2 {
                            if k1 < k2 {
                                assert(big_nat(self._apl@[k1].0) != big_nat(self._apl@[k2].0));
                            } else {
                                assert(big_nat(self._apl@[k2].0) != big_nat(self._apl@[k1].0));
                            }
                        }
                    }
                }
                return Some(ct);
            },
            None => {},
        }
        let (dk, ekk) = match &self._key {
            Some(k) => {
                match &k._dk {
                    Some(d) => (d.dup(), k._ek.dup()),
                    None => { return vstd::pervasive::unreached(); },
                }
            },
            None => { return vstd::pervasive::unreached(); },
        };
        proof {
            assert(ekk.wf());
            assert(bitlen(ekk.nv()) <= MAX_BITS as nat);
        }
        let c0 = match Paillier::sub(&ekk, &_ct1._c, &_ct2._c) {
            Some(v) => v,
            None => { return None; },
        };
        let c = match Paillier::rerandomize(&ekk, &c0) {
            Some(v) => v,
            None => { return None; },
        };
        let h = pairing(&g, &self._sp._q);
        let dc = Paillier::decrypt(&dk, &ekk, &c);
        let ghost mval = scheme_dec(self._key->0, big_nat(c));
        let mut i: usize = 0;
        while i < self._cts.len()
            invariant
                *self == *old(self),
                t == g1_sub_val(_ct1._g.val(), _ct2._g.val()),
                gcd_nat(
                    big_nat(_ct2._c),
                    self._key->0._ek.nv() * self._key->0._ek.nv(),
                ) == 1,
                self.wf(),
                self._key is Some,
                self._key->0._dk is Some,
                ekk.wf(),
                ekk.nv() == self._key->0._ek.nv(),
                dk.lambdav() == self._key->0._dk->0.lambdav(),
                dk.muv() == self._key->0._dk->0.muv(),
                big_nat(dc) == mval,
                mval == scheme_dec(self._key->0, big_nat(c)),
                forall|k2: int|
                    0 <= k2 < self._apl@.len() ==> big_nat((#[trigger] self._apl@[k2]).0) != t,
                i <= self._cts@.len(),
                forall|j: int| 0 <= j < i ==> (#[trigger] self._cts@[j])._m@ != mval,
            decreases self._cts@.len() - i,
        {
            proof {
                assert(rec_sem(self._sp, self._key, self._cts@[i as int]));
            }
            let dr = Paillier::decrypt(&dk, &ekk, &self._cts[i]._c);
            if big_eq(&dc, &dr) {
                let existing = self._cts[i].dup();
                proof {
                    assert(rec_sem(self._sp, self._key, self._cts@[i as int]));
                    assert(self.apl_maps(existing._g.val(), existing._id));
                }
                return Some(existing);
            }
            i = i + 1;
        }
        self.register(c, g, h)
    }

    /// The raw index write the orchestrator wraps: inserts a leaf into
    /// the order-preserving tree under the scheme's own comparison
    /// oracle.
    pub fn insert_tree(&mut self, _elem: hopeLeaf)
        requires
            old(self).wf(),
            old(self)._key is Some,
            old(self)._key->0._dk is Some,
            scheme_dec(old(self)._key->0, big_nat(_elem._c)) == _elem._m@,
            !has_plain(old(self)._tree.entries(), _elem._m@),
        ensures
            final(self)._tree.wf(),
            final(self)._sp == old(self)._sp,
            final(self)._key == old(self)._key,
            final(self)._apl == old(self)._apl,
            final(self)._cts == old(self)._cts,
            final(self)._next_id == old(self)._next_id,
            !old(self)._tree.at_capacity() ==> exists|g: int|
                0 <= g <= old(self)._tree.entries().len() && final(self)._tree.entries() == old(
                    self,
                )._tree.entries().insert(g, _elem),
            old(self)._tree.at_capacity() ==> final(self)._tree == old(self)._tree,
    {
        let (odk, oek) = match &self._key {
            Some(k) => {
                match &k._dk {
                    Some(d) => (d.dup(), k._ek.dup()),
                    None => { return vstd::pervasive::unreached(); },
                }
            },
            None => { return vstd::pervasive::unreached(); },
        };
        let oracle = DecryptOracle { dk: odk, ek: oek };
        proof {
            lemma_sem_ok_iff(self._tree.root, &oracle);
            assert(oracle.leaf_ok(_elem));
        }
        let _ = self._tree.insert(_elem, &oracle);
    }

    /// Re-coding of the stored records is carried out by the scheme's
    /// own operations after each structural change; this entry point
    /// changes nothing.
    pub fn update_tree(&self) {
    }

    /// Law: the index preserves plaintext order. For any two stored
    /// records, the decrypted value of the first is below the decrypted
    /// value of the second exactly when its order code is below the
    /// second's.
    pub proof fn lemma_order_preservation(&self)
        requires
            self.wf(),
        ensures
            forall|i: int, j: int|
                0 <= i < self._cts@.len() && 0 <= j < self._cts@.len() ==> ((
                #[trigger] self._cts@[i])._m@ < (#[trigger] self._cts@[j])._m@ <==> self._cts@[i]._o
                    < self._cts@[j]._o),
    {
        self._tree.lemma_tree_order();
        assert forall|i: int, j: int|
            0 <= i < self._cts@.len() && 0 <= j < self._cts@.len() implies ((
        #[trigger] self._cts@[i])._m@ < (#[trigger] self._cts@[j])._m@ <==> self._cts@[i]._o
            < self._cts@[j]._o) by {
            let ents = self._tree.entries();
            let prs = self._tree.pairs();
            assert(self._cts@[i]._m@ == ents[i]._m@ && self._cts@[i]._o as nat == prs[i].1);
            assert(self._cts@[j]._m@ == ents[j]._m@ && self._cts@[j]._o as nat == prs[j].1);
            if i < j {
                assert(ents[i]._m@ < ents[j]._m@ && prs[i].1 < prs[j].1);
            } else if j < i {
                assert(ents[j]._m@ < ents[i]._m@ && prs[j].1 < prs[i].1);
            }
        }
    }

    /// Law: pairing coherence. Every stored record's anchor is the
    /// pairing of its tag with the public generator.
    pub proof fn lemma_pairing_coherence(&self)
        requires
            self.wf(),
        ensures
            forall|i: int|
                0 <= i < self._cts@.len() ==> (#[trigger] self._cts@[i])._h.val() == (
                self._cts@[i]._g.val() * self._sp._q.val()) % fr_mod(),
    {
        assert forall|i: int|
            0 <= i < self._cts@.len() implies (#[trigger] self._cts@[i])._h.val() == (
        self._cts@[i]._g.val() * self._sp._q.val()) % fr_mod() by {
            assert(rec_sem(self._sp, self._key, self._cts@[i]));
        }
    }

    /// The raw lookup-table write the orchestrator wraps: appends the
    /// record's tag and identifier.
    pub fn insert_apl(&mut self, _elem: &hopeCT) -> (res: Option<u64>)
        ensures
            final(self)._sp == old(self)._sp,
            final(self)._tree == old(self)._tree,
            final(self)._key == old(self)._key,
            final(self)._cts == old(self)._cts,
            final(self)._next_id == old(self)._next_id,
            res matches Some(prev) ==> exists|k: int|
                0 <= k < old(self)._apl@.len() && big_nat((#[trigger] old(self)._apl@[k]).0)
                    == _elem._g.val() && old(self)._apl@[k].1 == prev
                    && final(self)._apl@.len() == old(self)._apl@.len()
                    && big_nat(final(self)._apl@[k].0)
                    == _elem._g.val() && final(self)._apl@[k].1 == _elem._id && (forall|j: int|
                    0 <= j < old(self)._apl@.len() && j != k ==> final(self)._apl@[j] == old(
                        self,
                    )._apl@[j]),
            res is None ==> (forall|k: int|
                0 <= k < old(self)._apl@.len() ==> big_nat((#[trigger] old(self)._apl@[k]).0)
                    != _elem._g.val()) && final(self)._apl@.len() == old(self)._apl@.len() + 1
                && big_nat(final(self)._apl@[old(self)._apl@.len() as int].0) == _elem._g.val()
                && final(self)._apl@[old(self)._apl@.len() as int].1 == _elem._id && (forall|k: int|
                0 <= k < old(self)._apl@.len() ==> final(self)._apl@[k] == old(self)._apl@[k]),
    {
        let mut k: usize = 0;
        while k < self._apl.len()
            invariant
                *self == *old(self),
                k <= self._apl@.len(),
                forall|j: int|
                    0 <= j < k ==> big_nat((#[trigger] self._apl@[j]).0) != _elem._g.val(),
            decreases self._apl@.len() - k,
        {
            if big_eq(&self._apl[k].0, &_elem._g.x) {
                let prev = self._apl[k].1;
                self._apl.set(k, (big_clone(&_elem._g.x), _elem._id));
                return Some(prev);
            }
            k = k + 1;
        }
        self._apl.push((big_clone(&_elem._g.x), _elem._id));
        None
    }
}

} // verus!

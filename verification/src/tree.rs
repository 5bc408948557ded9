//! The order-preserving index: a multiway search tree of fixed degree
//! whose key comparisons are delegated to an external oracle, and which
//! assigns every stored leaf a fixed-width order code.
//!
//! Internal nodes hold routing keys only; all data lives in the leaf
//! level, and every leaf sits at the same depth. The well-formedness
//! predicate carries the usual search-tree bounds, so the in-order
//! sequence of ghost plaintexts is strictly sorted.

use vstd::prelude::*;
use vstd::arithmetic::power2::pow2;
use num_bigint::BigUint;
use crate::bigint::{big_nat, big_clone};

verus! {

/// Fixed capacity of every node.
pub const DEGREE: usize = 4;

/// Tallest tree the 64-bit order codes can describe.
pub const MAX_HEIGHT: usize = 14;

/// A stored leaf: identifier, ciphertext, order code, and the ghost
/// plaintext the ciphertext stands for.
#[allow(non_camel_case_types)]
pub struct hopeLeaf {
    pub _id: u64,
    pub _c: BigUint,
    pub _o: u64,
    pub _m: Ghost<nat>,
}

impl hopeLeaf {
    /// Builds a leaf from its visible fields.
    pub fn new(_id: u64, _c: BigUint, _o: u64) -> (r: hopeLeaf)
        ensures
            r._id == _id,
            big_nat(r._c) == big_nat(_c),
            r._o == _o,
    {
        hopeLeaf { _id, _c, _o, _m: Ghost(0) }
    }

    /// A copy holding the same fields, ghost plaintext included.
    pub fn dup(&self) -> (r: hopeLeaf)
        ensures
            r._id == self._id,
            big_nat(r._c) == big_nat(self._c),
            r._o == self._o,
            r._m@ == self._m@,
            r == *self || big_nat(r._c) == big_nat(self._c),
    {
        hopeLeaf { _id: self._id, _c: big_clone(&self._c), _o: self._o, _m: self._m }
    }
}


impl PartialEq for hopeLeaf {
    /// Records compare by their order code, as the index sees them.
    fn eq(&self, other: &hopeLeaf) -> (r: bool) {
        self._o == other._o
    }
}

impl vstd::std_specs::cmp::PartialEqSpecImpl for hopeLeaf {
    open spec fn obeys_eq_spec() -> bool {
        true
    }

    open spec fn eq_spec(&self, other: &hopeLeaf) -> bool {
        self._o == other._o
    }
}

impl Eq for hopeLeaf {

}

impl PartialOrd for hopeLeaf {
    /// Records order by their order code.
    fn partial_cmp(&self, other: &hopeLeaf) -> (r: Option<core::cmp::Ordering>) {
        if self._o < other._o {
            Some(core::cmp::Ordering::Less)
        } else if self._o == other._o {
            Some(core::cmp::Ordering::Equal)
        } else {
            Some(core::cmp::Ordering::Greater)
        }
    }
}

impl vstd::std_specs::cmp::PartialOrdSpecImpl for hopeLeaf {
    open spec fn obeys_partial_cmp_spec() -> bool {
        true
    }

    open spec fn partial_cmp_spec(&self, other: &hopeLeaf) -> Option<core::cmp::Ordering> {
        if self._o < other._o {
            Some(core::cmp::Ordering::Less)
        } else if self._o == other._o {
            Some(core::cmp::Ordering::Equal)
        } else {
            Some(core::cmp::Ordering::Greater)
        }
    }
}

/// The party that decides plaintext order from ciphertexts. `leaf_ok`
/// names the leaves the oracle can speak about; on those, `greater`
/// answers exactly whether the first plaintext exceeds the second.
pub trait CompareOracle: Sized {
    spec fn leaf_ok(&self, l: hopeLeaf) -> bool;

    /// Admissibility depends only on a leaf's observable content: a
    /// leaf with the same identifier, ciphertext value, code and ghost
    /// plaintext is admissible whenever the first one is.
    proof fn leaf_ok_congruent(&self, a: hopeLeaf, b: hopeLeaf)
        requires
            self.leaf_ok(a),
            b._id == a._id,
            big_nat(b._c) == big_nat(a._c),
            b._o == a._o,
            b._m@ == a._m@,
        ensures
            self.leaf_ok(b),
    ;

    fn greater(&self, a: &hopeLeaf, b: &hopeLeaf) -> (r: bool)
        requires
            self.leaf_ok(*a),
            self.leaf_ok(*b),
        ensures
            r == (a._m@ > b._m@),
    ;
}

/// A tree node: either a leaf node holding data keys, or an internal
/// node holding routing keys and children.
#[allow(non_camel_case_types)]
pub struct hopeNode {
    pub _degree: usize,
    pub _num_cts: usize,
    pub _is_leaf: bool,
    pub _children: Vec<hopeNode>,
    pub _cts: Vec<hopeLeaf>,
}

/// In-order concatenation of the data leaves of a forest.
pub open spec fn entries_cat(cs: Seq<hopeNode>) -> Seq<hopeLeaf>
    decreases cs,
{
    if cs.len() == 0 {
        Seq::empty()
    } else {
        entries_cat(cs.drop_last()) + cs.last().entries()
    }
}

/// Lower bound check against an optional bound.
pub open spec fn lo_ok(lo: Option<nat>, v: nat) -> bool {
    match lo {
        None => true,
        Some(l) => l <= v,
    }
}

/// Exclusive upper bound check against an optional bound.
pub open spec fn hi_ok(hi: Option<nat>, v: nat) -> bool {
    match hi {
        None => true,
        Some(h) => v < h,
    }
}

/// Both bounds at once.
pub open spec fn in_bounds(lo: Option<nat>, hi: Option<nat>, v: nat) -> bool {
    lo_ok(lo, v) && hi_ok(hi, v)
}

/// Strictly ascending sequence.
pub open spec fn sorted_strict(s: Seq<nat>) -> bool {
    forall|i: int, j: int| 0 <= i < j < s.len() ==> s[i] < s[j]
}

/// Entries strictly sorted by ghost plaintext.
pub open spec fn es_sorted(es: Seq<hopeLeaf>) -> bool {
    forall|i: int, j: int| 0 <= i < j < es.len() ==> es[i]._m@ < es[j]._m@
}

/// Every entry's plaintext lies between the bounds.
pub open spec fn es_bounded(es: Seq<hopeLeaf>, lo: Option<nat>, hi: Option<nat>) -> bool {
    forall|i: int| 0 <= i < es.len() ==> in_bounds(lo, hi, #[trigger] es[i]._m@)
}

/// Some entry holds this plaintext.
pub open spec fn has_plain(es: Seq<hopeLeaf>, v: nat) -> bool {
    exists|i: int| 0 <= i < es.len() && es[i]._m@ == v
}

/// The concatenation of a two-tree forest, unfolded.
pub proof fn lemma_cat2(cs: Seq<hopeNode>)
    requires
        cs.len() == 2,
    ensures
        entries_cat(cs) == cs[0].entries() + cs[1].entries(),
{
    assert(cs.drop_last() =~= seq![cs[0]]);
    assert(seq![cs[0]].drop_last() =~= Seq::<hopeNode>::empty());
    assert(seq![cs[0]].last() == cs[0]);
    assert(entries_cat(seq![cs[0]]) == entries_cat(Seq::<hopeNode>::empty()) + cs[0].entries());
    assert(entries_cat(Seq::<hopeNode>::empty()) + cs[0].entries() =~= cs[0].entries());
    assert(entries_cat(cs) == entries_cat(cs.drop_last()) + cs.last().entries());
    assert(cs.last() == cs[1]);
}

/// Inserting into the middle block of a three-way concatenation is an
/// insertion into the whole at the shifted index.
pub proof fn lemma_concat_insert(
    a: Seq<hopeLeaf>,
    b: Seq<hopeLeaf>,
    c: Seq<hopeLeaf>,
    idx: int,
    x: hopeLeaf,
)
    requires
        0 <= idx <= b.len(),
    ensures
        a + b.insert(idx, x) + c == (a + b + c).insert(a.len() + idx, x),
{
    assert(a + b.insert(idx, x) + c =~= (a + b + c).insert(a.len() + idx, x));
}

/// In-order concatenation splits around any one tree of the forest.
pub proof fn lemma_cat_decompose(cs: Seq<hopeNode>, i: int)
    requires
        0 <= i < cs.len(),
    ensures
        entries_cat(cs) == entries_cat(cs.take(i)) + cs[i].entries() + entries_cat(
            cs.skip(i + 1),
        ),
    decreases cs.len(),
{
    if i == cs.len() - 1 {
        assert(cs.take(i) =~= cs.drop_last());
        assert(cs.skip(i + 1) =~= Seq::<hopeNode>::empty());
        assert(entries_cat(cs.skip(i + 1)) =~= Seq::<hopeLeaf>::empty());
        assert(entries_cat(cs.drop_last()) + cs[i].entries() + entries_cat(cs.skip(i + 1)) =~= entries_cat(
            cs.drop_last(),
        ) + cs.last().entries());
    } else {
        let dl = cs.drop_last();
        lemma_cat_decompose(dl, i);
        assert(dl.take(i) =~= cs.take(i));
        assert(dl[i] == cs[i]);
        let tail = cs.skip(i + 1);
        assert(tail.len() >= 1);
        assert(tail.drop_last() =~= dl.skip(i + 1));
        assert(tail.last() == cs.last());
        assert(entries_cat(tail) == entries_cat(dl.skip(i + 1)) + cs.last().entries());
        assert(entries_cat(cs) == entries_cat(dl) + cs.last().entries());
        assert(entries_cat(cs.take(i)) + cs[i].entries() + entries_cat(tail) =~= entries_cat(
            dl.take(i),
        ) + dl[i].entries() + entries_cat(dl.skip(i + 1)) + cs.last().entries());
    }
}

impl hopeNode {
    /// The data leaves of the subtree, in symmetric order.
    pub open spec fn entries(&self) -> Seq<hopeLeaf>
        decreases self,
    {
        if self._is_leaf {
            self._cts@
        } else {
            entries_cat(self._children@)
        }
    }

    /// The ghost plaintexts of the subtree, in symmetric order.
    pub open spec fn plains(&self) -> Seq<nat> {
        self.entries().map_values(|l: hopeLeaf| l._m@)
    }

    /// The leaf identifiers of the subtree, in symmetric order.
    pub open spec fn ids(&self) -> Seq<u64> {
        self.entries().map_values(|l: hopeLeaf| l._id)
    }

    /// Distance to the leaf level.
    pub open spec fn height(&self) -> nat
        decreases self,
    {
        if self._is_leaf || self._children@.len() == 0 {
            0
        } else {
            1 + self._children@[0].height()
        }
    }

    /// The plaintexts of this node's own keys.
    pub open spec fn key_plains(&self) -> Seq<nat> {
        self._cts@.map_values(|l: hopeLeaf| l._m@)
    }

    /// Lower bound of the `i`-th child of an internal node.
    pub open spec fn child_lo(&self, lo: Option<nat>, i: int) -> Option<nat> {
        if i == 0 {
            lo
        } else {
            Some(self._cts@[i - 1]._m@)
        }
    }

    /// Upper bound of the `i`-th child of an internal node.
    pub open spec fn child_hi(&self, hi: Option<nat>, i: int) -> Option<nat> {
        if i == self._cts@.len() {
            hi
        } else {
            Some(self._cts@[i]._m@)
        }
    }

    /// Search-tree shape between two optional plaintext bounds: counts
    /// agree, keys are sorted and bounded, every routing key names a
    /// plaintext stored below this node, children nest between the
    /// routing keys and all have equal height.
    pub open spec fn wf_between(&self, lo: Option<nat>, hi: Option<nat>) -> bool
        decreases self,
    {
        &&& self._degree == DEGREE
        &&& self._num_cts == self._cts@.len()
        &&& sorted_strict(self.key_plains())
        &&& forall|i: int|
            0 <= i < self._cts@.len() ==> in_bounds(lo, hi, #[trigger] self._cts@[i]._m@)
        &&& if self._is_leaf {
            &&& self._children@.len() == 0
            &&& self._cts@.len() <= DEGREE
        } else {
            &&& 2 <= self._children@.len() <= DEGREE
            &&& self._cts@.len() + 1 == self._children@.len()
            &&& forall|i: int|
                0 <= i < self._children@.len() ==> (#[trigger] self._children@[i]).wf_between(
                    self.child_lo(lo, i),
                    self.child_hi(hi, i),
                )
            &&& forall|i: int|
                0 <= i < self._children@.len() ==> (#[trigger] self._children@[i]).height()
                    == self._children@[0].height()
            &&& forall|i: int|
                0 <= i < self._cts@.len() ==> (#[trigger] self._children@[i + 1]).entries().len()
                    >= 1 && self._cts@[i]._m@ == self._children@[i + 1].entries()[0]._m@
        }
    }

    /// Every leaf and routing key of the subtree is one the oracle can
    /// speak about.
    pub open spec fn all_ok<O: CompareOracle>(&self, o: &O) -> bool
        decreases self,
    {
        &&& forall|i: int| 0 <= i < self._cts@.len() ==> o.leaf_ok(#[trigger] self._cts@[i])
        &&& forall|i: int|
            0 <= i < self._children@.len() ==> (#[trigger] self._children@[i]).all_ok(o)
    }

    /// The subtree's entries are strictly sorted by plaintext and lie
    /// between the bounds; a well-formed node guarantees it.
    pub proof fn lemma_wf_sorted(&self, lo: Option<nat>, hi: Option<nat>)
        requires
            self.wf_between(lo, hi),
        ensures
            es_sorted(self.entries()),
            es_bounded(self.entries(), lo, hi),
        decreases self, 1nat, 0nat,
    {
        if self._is_leaf {
            assert forall|i: int, j: int| 0 <= i < j < self._cts@.len() implies self._cts@[i]._m@
                < self._cts@[j]._m@ by {
                assert(self.key_plains()[i] == self._cts@[i]._m@);
                assert(self.key_plains()[j] == self._cts@[j]._m@);
            }
        } else {
            let n = self._children@.len() as int;
            self.lemma_cat_prefix_sorted(lo, hi, n);
            assert(self._children@.take(n) =~= self._children@);
            assert(entries_cat(self._children@.take(n)) == entries_cat(self._children@));
            assert(self.entries() == entries_cat(self._children@));
            assert(es_sorted(self.entries()));
            assert(es_bounded(self.entries(), lo, hi)) by {
                assert forall|i: int| 0 <= i < self.entries().len() implies in_bounds(
                    lo,
                    hi,
                    #[trigger] self.entries()[i]._m@,
                ) by {
                    assert(in_bounds(
                        lo,
                        if n == self._children@.len() {
                            hi
                        } else {
                            Some(self._cts@[n - 1]._m@)
                        },
                        entries_cat(self._children@.take(n))[i]._m@,
                    ));
                }
            }
        }
    }

    /// Sortedness of the concatenation of the first `k` children of a
    /// well-formed internal node, bounded below by `lo` and above by
    /// the `k`-th routing key (or `hi` past the last).
    proof fn lemma_cat_prefix_sorted(&self, lo: Option<nat>, hi: Option<nat>, k: int)
        requires
            self.wf_between(lo, hi),
            !self._is_leaf,
            0 <= k <= self._children@.len(),
        ensures
            es_sorted(entries_cat(self._children@.take(k))),
            es_bounded(
                entries_cat(self._children@.take(k)),
                lo,
                if k == self._children@.len() {
                    hi
                } else {
                    Some(self._cts@[k - 1]._m@)
                },
            ),
        decreases self, 0nat, k,
    {
        if k == 0 {
            assert(self._children@.take(0) =~= Seq::<hopeNode>::empty());
        } else {
            self.lemma_cat_prefix_sorted(lo, hi, k - 1);
            let child = self._children@[k - 1];
            assert(child.wf_between(self.child_lo(lo, k - 1), self.child_hi(hi, k - 1)));
            child.lemma_wf_sorted(self.child_lo(lo, k - 1), self.child_hi(hi, k - 1));
            let pre = self._children@.take(k - 1);
            let cur = self._children@.take(k);
            assert(cur.drop_last() =~= pre);
            assert(cur.last() == child);
            assert(entries_cat(cur) == entries_cat(pre) + child.entries());
            let es = entries_cat(cur);
            let a = entries_cat(pre);
            let b = child.entries();
            // The prefix sits strictly below the separator in front of
            // this child; the child sits at or above it.
            assert forall|p: int, q: int| 0 <= p < q < es.len() implies es[p]._m@ < es[q]._m@ by {
                if q < a.len() {
                } else if p >= a.len() {
                    assert(es[p] == b[p - a.len()]);
                    assert(es[q] == b[q - a.len()]);
                } else {
                    assert(es[p] == a[p]);
                    assert(es[q] == b[q - a.len()]);
                    if k - 1 > 0 {
                        let sep = self._cts@[k - 2]._m@;
                        assert(es[p]._m@ < sep);
                        assert(lo_ok(self.child_lo(lo, k - 1), es[q]._m@));
                    }
                }
            }
            assert(es_sorted(es));
            assert forall|p: int| 0 <= p < es.len() implies in_bounds(
                lo,
                if k == self._children@.len() {
                    hi
                } else {
                    Some(self._cts@[k - 1]._m@)
                },
                es[p]._m@,
            ) by {
                if p < a.len() {
                    assert(es[p] == a[p]);
                    if k - 1 > 0 {
                        assert(es[p]._m@ < self._cts@[k - 2]._m@);
                        assert(self.key_plains()[k - 2] == self._cts@[k - 2]._m@);
                        assert(in_bounds(lo, hi, self._cts@[k - 2]._m@));
                        if k < self._children@.len() {
                            assert(self.key_plains()[k - 1] == self._cts@[k - 1]._m@);
                            assert(self.key_plains()[k - 2] < self.key_plains()[k - 1]);
                        }
                    }
                } else {
                    assert(es[p] == b[p - a.len()]);
                    assert(in_bounds(
                        self.child_lo(lo, k - 1),
                        self.child_hi(hi, k - 1),
                        es[p]._m@,
                    ));
                    if k - 1 > 0 {
                        assert(self.child_lo(lo, k - 1) == Some(self._cts@[k - 2]._m@));
                        assert(in_bounds(lo, hi, self._cts@[k - 2]._m@));
                    }
                }
            }
        }
    }

    /// Builds an empty node of the fixed degree.
    pub fn new(_degree: usize, _is_leaf: bool) -> (r: hopeNode)
        requires
            _degree == DEGREE,
        ensures
            r._degree == DEGREE,
            r._is_leaf == _is_leaf,
            r._cts@.len() == 0,
            r._children@.len() == 0,
            r._num_cts == 0,
    {
        hopeNode {
            _degree,
            _num_cts: 0,
            _is_leaf,
            _children: Vec::new(),
            _cts: Vec::new(),
        }
    }

    /// The node's capacity.
    pub fn capacity(&self) -> (r: usize)
        ensures
            r == self._degree,
    {
        self._degree
    }

    /// Whether this node is at the leaf level.
    pub fn is_leaf(&self) -> (r: bool)
        ensures
            r == self._is_leaf,
    {
        self._is_leaf
    }

    /// Whether the node is at capacity: a leaf node full of keys, or
    /// an internal node full of children.
    pub fn is_full(&self) -> (r: bool)
        ensures
            r == if self._is_leaf {
                self._cts@.len() == self._degree
            } else {
                self._children@.len() == self._degree
            },
    {
        if self.is_leaf() {
            self._cts.len() == self._degree
        } else {
            self._children.len() == self._degree
        }
    }

    /// Inserts a key into a non-full leaf node, at the index given by
    /// the number of present keys whose plaintext is smaller; the
    /// comparisons are delegated to the oracle.
    pub fn insert_key<O: CompareOracle>(
        &mut self,
        _key: hopeLeaf,
        o: &O,
        Ghost(lo): Ghost<Option<nat>>,
        Ghost(hi): Ghost<Option<nat>>,
    ) -> (idx: usize)
        requires
            old(self).wf_between(lo, hi),
            old(self)._is_leaf,
            old(self)._cts@.len() < DEGREE,
            old(self).all_ok(o),
            o.leaf_ok(_key),
            in_bounds(lo, hi, _key._m@),
            !has_plain(old(self).entries(), _key._m@),
        ensures
            final(self).wf_between(lo, hi),
            final(self)._is_leaf,
            final(self).all_ok(o),
            final(self).height() == old(self).height(),
            idx <= old(self)._cts@.len(),
            final(self)._cts@ == old(self)._cts@.insert(idx as int, _key),
            final(self).entries() == old(self).entries().insert(idx as int, _key),
            forall|j: int| 0 <= j < idx ==> old(self)._cts@[j]._m@ < _key._m@,
            idx < old(self)._cts@.len() ==> _key._m@ < old(self)._cts@[idx as int]._m@,
    {
        let ghost old_cts = self._cts@;
        let mut i: usize = 0;
        while i < self._num_cts
            invariant_except_break
                self == old(self),
                self._num_cts == self._cts@.len(),
                o.leaf_ok(_key),
                forall|j: int| 0 <= j < self._cts@.len() ==> o.leaf_ok(#[trigger] self._cts@[j]),
                i <= self._cts@.len(),
                forall|j: int| 0 <= j < i ==> self._cts@[j]._m@ < _key._m@,
            ensures
                self == old(self),
                i <= self._cts@.len(),
                forall|j: int| 0 <= j < i ==> self._cts@[j]._m@ < _key._m@,
                i < self._cts@.len() ==> !(_key._m@ > self._cts@[i as int]._m@),
            decreases self._cts@.len() - i,
        {
            if o.greater(&_key, &self._cts[i]) {
                i = i + 1;
            } else {
                break ;
            }
        }
        proof {
            if i < self._cts@.len() {
                assert(self._cts@[i as int]._m@ != _key._m@) by {
                    if self._cts@[i as int]._m@ == _key._m@ {
                        assert(has_plain(old(self).entries(), _key._m@));
                    }
                }
            }
        }
        self._cts.insert(i, _key);
        self._num_cts = self._num_cts + 1;
        proof {
            let newc = self._cts@;
            assert(newc == old_cts.insert(i as int, _key));
            assert forall|p: int, q: int| 0 <= p < q < newc.len() implies newc[p]._m@
                < newc[q]._m@ by {
                assert(old(self).key_plains().len() == old_cts.len());
                assert forall|a: int, b: int| 0 <= a < b < old_cts.len() implies old_cts[a]._m@
                    < old_cts[b]._m@ by {
                    assert(old(self).key_plains()[a] == old_cts[a]._m@);
                    assert(old(self).key_plains()[b] == old_cts[b]._m@);
                }
            }
            assert(sorted_strict(self.key_plains())) by {
                assert forall|p: int, q: int|
                    0 <= p < q < self.key_plains().len() implies self.key_plains()[p]
                    < self.key_plains()[q] by {
                    assert(self.key_plains()[p] == newc[p]._m@);
                    assert(self.key_plains()[q] == newc[q]._m@);
                }
            }
            assert forall|j: int| 0 <= j < newc.len() implies in_bounds(
                lo,
                hi,
                #[trigger] newc[j]._m@,
            ) by {
                if j < i {
                    assert(newc[j] == old_cts[j]);
                } else if j == i {
                } else {
                    assert(newc[j] == old_cts[j - 1]);
                }
            }
        }
        i
    }

    /// Splits a full node in half: the left and right halves are
    /// returned together with the separator key, a copy of the first
    /// key of the right half at the leaf level, or the moved middle
    /// routing key of an internal node.
    pub fn split<O: CompareOracle>(
        self,
        o: &O,
        Ghost(lo): Ghost<Option<nat>>,
        Ghost(hi): Ghost<Option<nat>>,
    ) -> (res: (hopeLeaf, hopeNode, hopeNode))
        requires
            self.wf_between(lo, hi),
            self.all_ok(o),
            self._is_leaf ==> self._cts@.len() == DEGREE,
            !self._is_leaf ==> self._children@.len() == DEGREE,
        ensures
            res.1.wf_between(lo, Some(res.0._m@)),
            res.2.wf_between(Some(res.0._m@), hi),
            res.1.all_ok(o),
            res.2.all_ok(o),
            o.leaf_ok(res.0),
            in_bounds(lo, hi, res.0._m@),
            res.1.entries() + res.2.entries() == self.entries(),
            res.1.height() == self.height(),
            res.2.height() == self.height(),
            res.1._is_leaf == self._is_leaf,
            res.2._is_leaf == self._is_leaf,
            res.1.entries().len() >= 1,
            res.2.entries().len() >= 1,
            res.0._m@ == res.2.entries()[0]._m@,
            res.1._cts@.len() <= 2 && res.1._children@.len() <= 2,
            res.2._cts@.len() <= 2 && res.2._children@.len() <= 2,
    {
        proof {
            assert forall|a: int, b: int|
                0 <= a < b < self._cts@.len() implies self._cts@[a]._m@ < self._cts@[b]._m@ by {
                assert(self.key_plains()[a] == self._cts@[a]._m@);
                assert(self.key_plains()[b] == self._cts@[b]._m@);
            }
        }
        if self._is_leaf {
            let mut cts = self._cts;
            let k0 = cts.remove(0);
            let k1 = cts.remove(0);
            let k2 = cts.remove(0);
            let k3 = cts.remove(0);
            let promoted = k2.dup();
            proof {
                o.leaf_ok_congruent(k2, promoted);
            }
            let mut lc: Vec<hopeLeaf> = Vec::new();
            lc.push(k0);
            lc.push(k1);
            let mut rc: Vec<hopeLeaf> = Vec::new();
            rc.push(k2);
            rc.push(k3);
            let left = hopeNode {
                _degree: self._degree,
                _num_cts: 2,
                _is_leaf: true,
                _children: Vec::new(),
                _cts: lc,
            };
            let right = hopeNode {
                _degree: self._degree,
                _num_cts: 2,
                _is_leaf: true,
                _children: Vec::new(),
                _cts: rc,
            };
            proof {
                let oc = self._cts@;
                assert(left._cts@ =~= oc.subrange(0, 2));
                assert(right._cts@ =~= oc.subrange(2, 4));
                assert(left.entries() + right.entries() =~= self.entries());
                assert forall|p: int, q: int|
                    0 <= p < q < left.key_plains().len() implies left.key_plains()[p]
                    < left.key_plains()[q] by {
                    assert(left.key_plains()[p] == left._cts@[p]._m@);
                    assert(left.key_plains()[q] == left._cts@[q]._m@);
                }
                assert forall|p: int, q: int|
                    0 <= p < q < right.key_plains().len() implies right.key_plains()[p]
                    < right.key_plains()[q] by {
                    assert(right.key_plains()[p] == right._cts@[p]._m@);
                    assert(right.key_plains()[q] == right._cts@[q]._m@);
                }
                assert(left.wf_between(lo, Some(promoted._m@)));
                assert(right.wf_between(Some(promoted._m@), hi));
            }
            (promoted, left, right)
        } else {
            let mut children = self._children;
            let mut cts = self._cts;
            let c0 = children.remove(0);
            let c1 = children.remove(0);
            let c2 = children.remove(0);
            let c3 = children.remove(0);
            let r0 = cts.remove(0);
            let r1 = cts.remove(0);
            let r2 = cts.remove(0);
            let mut lch: Vec<hopeNode> = Vec::new();
            lch.push(c0);
            lch.push(c1);
            let mut lct: Vec<hopeLeaf> = Vec::new();
            lct.push(r0);
            let mut rch: Vec<hopeNode> = Vec::new();
            rch.push(c2);
            rch.push(c3);
            let mut rct: Vec<hopeLeaf> = Vec::new();
            rct.push(r2);
            let left = hopeNode {
                _degree: self._degree,
                _num_cts: 1,
                _is_leaf: false,
                _children: lch,
                _cts: lct,
            };
            let right = hopeNode {
                _degree: self._degree,
                _num_cts: 1,
                _is_leaf: false,
                _children: rch,
                _cts: rct,
            };
            proof {
                let och = self._children@;
                let oct = self._cts@;
                assert(left._children@ =~= och.subrange(0, 2));
                assert(right._children@ =~= och.subrange(2, 4));
                // Decompose the four-child concatenation.
                assert(och.take(2) =~= left._children@);
                assert(och.skip(2).take(2) =~= right._children@);
                lemma_cat_decompose(och, 2);
                lemma_cat_decompose(och, 3);
                assert(och.take(3).take(2) =~= och.take(2));
                lemma_cat_decompose(och.take(3), 2);
                assert(och.take(3).take(2) =~= left._children@);
                assert(och.take(3).skip(3) =~= Seq::<hopeNode>::empty());
                // entries(cat) of left and right halves.
                lemma_cat2(left._children@);
                assert(left.entries() == och[0].entries() + och[1].entries());
                lemma_cat2(right._children@);
                assert(right.entries() == och[2].entries() + och[3].entries());
                assert(self.entries() =~= och[0].entries() + och[1].entries() + och[2].entries()
                    + och[3].entries()) by {
                    assert(och.drop_last() =~= och.take(3));
                    assert(och.take(3).drop_last() =~= och.take(2));
                    assert(och.take(2).drop_last() =~= och.take(1));
                    assert(och.take(1).drop_last() =~= Seq::<hopeNode>::empty());
                    assert(och.take(1).last() == och[0]);
                    assert(och.take(2).last() == och[1]);
                    assert(och.take(3).last() == och[2]);
                    assert(och.last() == och[3]);
                }
                assert(left.entries() + right.entries() =~= self.entries());
                // Bounds of the reshaped children.
                assert(och[0].wf_between(self.child_lo(lo, 0), self.child_hi(hi, 0)));
                assert(och[1].wf_between(self.child_lo(lo, 1), self.child_hi(hi, 1)));
                assert(och[2].wf_between(self.child_lo(lo, 2), self.child_hi(hi, 2)));
                assert(och[3].wf_between(self.child_lo(lo, 3), self.child_hi(hi, 3)));
                assert(left.wf_between(lo, Some(oct[1]._m@)));
                assert(right.wf_between(Some(oct[1]._m@), hi));
                assert(right.entries()[0]._m@ == oct[1]._m@) by {
                    assert(och[2].entries().len() >= 1);
                    assert(right.entries()[0] == och[2].entries()[0]);
                }
                assert(left.entries().len() >= 1) by {
                    assert(och[1].entries().len() >= 1);
                }
            }
            (r1, left, right)
        }
    }

    /// Every routing key's plaintext is stored in the subtree.
    pub proof fn lemma_router_in_entries(&self, lo: Option<nat>, hi: Option<nat>, j: int)
        requires
            self.wf_between(lo, hi),
            !self._is_leaf,
            0 <= j < self._cts@.len(),
        ensures
            has_plain(self.entries(), self._cts@[j]._m@),
    {
        lemma_cat_decompose(self._children@, j + 1);
        let a = entries_cat(self._children@.take(j + 1));
        let b = self._children@[j + 1].entries();
        let c = entries_cat(self._children@.skip(j + 2));
        assert(self.entries() == a + b + c);
        assert(self.entries()[a.len() as int] == b[0]);
        assert(self.entries()[a.len() as int]._m@ == self._cts@[j]._m@);
    }

    /// A plaintext absent from the subtree is absent from each child.
    pub proof fn lemma_child_no_plain(&self, lo: Option<nat>, hi: Option<nat>, i: int, v: nat)
        requires
            self.wf_between(lo, hi),
            !self._is_leaf,
            0 <= i < self._children@.len(),
            !has_plain(self.entries(), v),
        ensures
            !has_plain(self._children@[i].entries(), v),
    {
        lemma_cat_decompose(self._children@, i);
        let a = entries_cat(self._children@.take(i));
        let b = self._children@[i].entries();
        let c = entries_cat(self._children@.skip(i + 1));
        assert(self.entries() == a + b + c);
        if has_plain(b, v) {
            let k = choose|k: int| 0 <= k < b.len() && b[k]._m@ == v;
            assert(self.entries()[a.len() + k] == b[k]);
            assert(has_plain(self.entries(), v));
        }
    }

    /// Splits the full child at `i` of a non-full internal node in
    /// place: the separator joins this node's routing keys and the two
    /// halves replace the child.
    #[verifier::rlimit(100)]
    #[verifier::spinoff_prover]
    pub fn split_child<O: CompareOracle>(
        &mut self,
        i: usize,
        o: &O,
        Ghost(lo): Ghost<Option<nat>>,
        Ghost(hi): Ghost<Option<nat>>,
    )
        requires
            old(self).wf_between(lo, hi),
            old(self).all_ok(o),
            !old(self)._is_leaf,
            old(self)._children@.len() < DEGREE,
            0 <= i < old(self)._children@.len(),
            old(self)._children@[i as int]._is_leaf ==> old(self)._children@[i as int]._cts@.len()
                == DEGREE,
            !old(self)._children@[i as int]._is_leaf ==> old(
                self,
            )._children@[i as int]._children@.len() == DEGREE,
        ensures
            final(self).wf_between(lo, hi),
            final(self).all_ok(o),
            !final(self)._is_leaf,
            final(self).entries() == old(self).entries(),
            final(self).height() == old(self).height(),
            final(self)._children@.len() == old(self)._children@.len() + 1,
            final(self)._cts@.len() == old(self)._cts@.len() + 1,
            final(self)._children@[i as int]._cts@.len() <= 2,
            final(self)._children@[i as int]._children@.len() <= 2,
            final(self)._children@[i + 1]._cts@.len() <= 2,
            final(self)._children@[i + 1]._children@.len() <= 2,
            forall|j: int| 0 <= j < i ==> final(self)._cts@[j] == old(self)._cts@[j],
            forall|j: int|
                i < j < final(self)._cts@.len() ==> final(self)._cts@[j] == old(
                    self,
                )._cts@[j - 1],
    {
        let ghost och = old(self)._children@;
        let ghost oct = old(self)._cts@;
        let ghost clo = old(self).child_lo(lo, i as int);
        let ghost chi = old(self).child_hi(hi, i as int);
        proof {
            assert(old(self)._children@[i as int].wf_between(clo, chi));
            assert forall|a: int, b: int| 0 <= a < b < oct.len() implies oct[a]._m@
                < oct[b]._m@ by {
                assert(old(self).key_plains()[a] == oct[a]._m@);
                assert(old(self).key_plains()[b] == oct[b]._m@);
            }
        }
        let child = self._children.remove(i);
        let (kp, l, r) = child.split(o, Ghost(clo), Ghost(chi));
        self._cts.insert(i, kp);
        self._children.insert(i, r);
        self._children.insert(i, l);
        self._num_cts = self._num_cts + 1;
        proof {
            let ch = och[i as int];
            assert(self._children@ =~= och.take(i as int) + seq![l, r] + och.skip(
                i as int + 1,
            ));
            assert(self._cts@ =~= oct.insert(i as int, kp));
            lemma_split_wf(*old(self), *self, i as int, ch, kp, l, r, lo, hi);
            lemma_split_entries(*old(self), *self, i as int, ch, kp, l, r, lo, hi);
            assert(self._children@[i as int] == l);
            assert(self._children@[i as int + 1] == r);
            assert(self.all_ok(o)) by {
                assert forall|j: int| 0 <= j < self._cts@.len() implies o.leaf_ok(
                    #[trigger] self._cts@[j],
                ) by {
                    if j < i {
                        assert(self._cts@[j] == oct[j]);
                    } else if j > i {
                        assert(self._cts@[j] == oct[j - 1]);
                    }
                }
                assert forall|j: int| 0 <= j < self._children@.len() implies (
                #[trigger] self._children@[j]).all_ok(o) by {
                    if j < i {
                        assert(self._children@[j] == och[j]);
                    } else if j > i + 1 {
                        assert(self._children@[j] == och[j - 1]);
                    }
                }
            }
        }
    }
}

/// `(identifier, order code)` pairs of a forest, in symmetric order;
/// the `j`-th tree extends the path prefix `c` to `(c + j) * 16`.
pub open spec fn pairs_cat(cs: Seq<hopeNode>, c: nat) -> Seq<(u64, nat)>
    decreases cs,
{
    if cs.len() == 0 {
        Seq::empty()
    } else {
        pairs_cat(cs.drop_last(), c) + cs.last().code_pairs(
            ((c + cs.len() - 1) * 16) as nat,
        )
    }
}

/// The pair concatenation splits around any one tree of the forest;
/// the suffix restarts from the shifted path prefix.
pub proof fn lemma_pairs_decompose(cs: Seq<hopeNode>, c: nat, i: int)
    requires
        0 <= i < cs.len(),
    ensures
        pairs_cat(cs, c) == pairs_cat(cs.take(i), c) + cs[i].code_pairs(((c + i) * 16) as nat)
            + pairs_cat(cs.skip(i + 1), (c + i + 1) as nat),
    decreases cs.len(),
{
    if i == cs.len() - 1 {
        assert(cs.take(i) =~= cs.drop_last());
        assert(cs.skip(i + 1) =~= Seq::<hopeNode>::empty());
        assert(pairs_cat(cs.skip(i + 1), (c + i + 1) as nat) =~= Seq::<(u64, nat)>::empty());
        assert(pairs_cat(cs.take(i), c) + cs[i].code_pairs(((c + i) * 16) as nat) + pairs_cat(
            cs.skip(i + 1),
            (c + i + 1) as nat,
        ) =~= pairs_cat(cs.drop_last(), c) + cs.last().code_pairs(
            ((c + cs.len() - 1) * 16) as nat,
        ));
    } else {
        let dl = cs.drop_last();
        lemma_pairs_decompose(dl, c, i);
        assert(dl.take(i) =~= cs.take(i));
        assert(dl[i] == cs[i]);
        let tail = cs.skip(i + 1);
        assert(tail.len() >= 1);
        assert(tail.drop_last() =~= dl.skip(i + 1));
        assert(tail.last() == cs.last());
        assert(pairs_cat(tail, (c + i + 1) as nat) == pairs_cat(
            dl.skip(i + 1),
            (c + i + 1) as nat,
        ) + cs.last().code_pairs(((c + cs.len() - 1) * 16) as nat)) by {
            assert(pairs_cat(tail, (c + i + 1) as nat) == pairs_cat(
                tail.drop_last(),
                (c + i + 1) as nat,
            ) + tail.last().code_pairs((((c + i + 1) + tail.len() - 1) * 16) as nat));
            assert((c + i + 1) + tail.len() - 1 == c + cs.len() - 1);
        }
        assert(pairs_cat(cs, c) == pairs_cat(dl, c) + cs.last().code_pairs(
            ((c + cs.len() - 1) * 16) as nat,
        ));
        assert(pairs_cat(cs.take(i), c) + cs[i].code_pairs(((c + i) * 16) as nat) + pairs_cat(
            tail,
            (c + i + 1) as nat,
        ) =~= pairs_cat(dl.take(i), c) + dl[i].code_pairs(((c + i) * 16) as nat) + pairs_cat(
            dl.skip(i + 1),
            (c + i + 1) as nat,
        ) + cs.last().code_pairs(((c + cs.len() - 1) * 16) as nat));
    }
}

/// Shared hypotheses of the descent reassembly lemmas: `ns` is `mid`
/// with child `i2` replaced by `cnew`, which holds the entries of the
/// old child `cold` plus the inserted key.
pub open spec fn descend_shape(
    mid: hopeNode,
    ns: hopeNode,
    i2: int,
    cold: hopeNode,
    cnew: hopeNode,
    key: hopeLeaf,
    lo: Option<nat>,
    hi: Option<nat>,
) -> bool {
    &&& mid.wf_between(lo, hi)
    &&& !mid._is_leaf
    &&& 0 <= i2 < mid._children@.len()
    &&& cold == mid._children@[i2]
    &&& cnew.wf_between(mid.child_lo(lo, i2), mid.child_hi(hi, i2))
    &&& cnew.height() == cold.height()
    &&& exists|idx: int|
        0 <= idx <= cold.entries().len() && cnew.entries() == cold.entries().insert(idx, key)
    &&& !has_plain(mid.entries(), key._m@)
    &&& lo_ok(mid.child_lo(lo, i2), key._m@)
    &&& ns._degree == DEGREE
    &&& ns._is_leaf == false
    &&& ns._num_cts == ns._cts@.len()
    &&& ns._cts@ == mid._cts@
    &&& ns._children@ == mid._children@.update(i2, cnew)
}

/// After descending into a child, the reassembled node is well-formed
/// again and keeps its height.
#[verifier::rlimit(100)]
#[verifier::spinoff_prover]
pub proof fn lemma_descend_wf(
    mid: hopeNode,
    ns: hopeNode,
    i2: int,
    cold: hopeNode,
    cnew: hopeNode,
    key: hopeLeaf,
    lo: Option<nat>,
    hi: Option<nat>,
)
    requires
        descend_shape(mid, ns, i2, cold, cnew, key, lo, hi),
    ensures
        ns.wf_between(lo, hi),
        ns.height() == mid.height(),
{
    let och = mid._children@;
    let nch = ns._children@;
    let nct = ns._cts@;
    let idx = choose|idx: int|
        0 <= idx <= cold.entries().len() && cnew.entries() == cold.entries().insert(idx, key);
    // The first entry of the modified child is unchanged when a lower
    // bound pins it.
    assert forall|j: int| 0 <= j < nch.len() implies (#[trigger] nch[j]).wf_between(
        ns.child_lo(lo, j),
        ns.child_hi(hi, j),
    ) by {
        if j != i2 {
            assert(nch[j] == och[j]);
            assert(och[j].wf_between(mid.child_lo(lo, j), mid.child_hi(hi, j)));
        }
    }
    assert forall|j: int| 0 <= j < nch.len() implies (#[trigger] nch[j]).height()
        == nch[0].height() by {
        if j != i2 {
            assert(nch[j] == och[j]);
        }
        if i2 > 0 {
            assert(nch[0] == och[0]);
        }
    }
    assert forall|j: int| 0 <= j < nct.len() implies (#[trigger] nch[j + 1]).entries().len() >= 1
        && nct[j]._m@ == nch[j + 1].entries()[0]._m@ by {
        if j + 1 != i2 {
            assert(nch[j + 1] == och[j + 1]);
        } else {
            assert(nch[j + 1] == cnew);
            assert(och[j + 1] == cold);
            assert(cnew.entries() == cold.entries().insert(idx, key));
            assert(cold.entries().len() >= 1);
            assert(cnew.entries().len() >= 1);
            assert(cnew.entries()[0] == cold.entries()[0]) by {
                if idx == 0 {
                    assert(cnew.entries()[0] == key);
                    assert(cnew.entries()[1] == cold.entries()[0]);
                    cnew.lemma_wf_sorted(mid.child_lo(lo, i2), mid.child_hi(hi, i2));
                    assert(cnew.entries()[0]._m@ < cnew.entries()[1]._m@);
                    assert(mid.child_lo(lo, i2) == Some(nct[j]._m@));
                    assert(nct[j]._m@ <= key._m@);
                    assert(nct[j]._m@ == cold.entries()[0]._m@);
                    assert(false);
                }
            }
        }
    }
    assert(ns.height() == 1 + nch[0].height());
    assert(mid.height() == 1 + och[0].height());
    if i2 == 0 {
        assert(nch[0] == cnew);
        assert(och[0] == cold);
    } else {
        assert(nch[0] == och[0]);
    }
}

/// After descending into a child, the reassembled node stores the old
/// entries with the key inserted at one position.
#[verifier::rlimit(100)]
#[verifier::spinoff_prover]
pub proof fn lemma_descend_entries(
    mid: hopeNode,
    ns: hopeNode,
    i2: int,
    cold: hopeNode,
    cnew: hopeNode,
    key: hopeLeaf,
    lo: Option<nat>,
    hi: Option<nat>,
)
    requires
        descend_shape(mid, ns, i2, cold, cnew, key, lo, hi),
    ensures
        exists|g: int|
            0 <= g <= mid.entries().len() && ns.entries() == mid.entries().insert(g, key),
{
    let och = mid._children@;
    let nch = ns._children@;
    let idx = choose|idx: int|
        0 <= idx <= cold.entries().len() && cnew.entries() == cold.entries().insert(idx, key);
    lemma_cat_decompose(och, i2);
    lemma_cat_decompose(nch, i2);
    assert(nch.take(i2) =~= och.take(i2));
    assert(nch.skip(i2 + 1) =~= och.skip(i2 + 1));
    assert(nch[i2] == cnew);
    let a = entries_cat(och.take(i2));
    let b = cold.entries();
    let c = entries_cat(och.skip(i2 + 1));
    assert(mid.entries() == a + b + c);
    assert(ns.entries() == a + b.insert(idx, key) + c);
    lemma_concat_insert(a, b, c, idx, key);
    let g = a.len() + idx;
    assert(0 <= g <= mid.entries().len());
    assert(ns.entries() == mid.entries().insert(g, key));
}

/// Shared hypotheses of the split reassembly lemmas: `ns` is `os` with
/// child `i` replaced by the two halves `l`, `r` of `ch` and the
/// separator `kp` inserted among the routing keys.
pub open spec fn split_shape(
    os: hopeNode,
    ns: hopeNode,
    i: int,
    ch: hopeNode,
    kp: hopeLeaf,
    l: hopeNode,
    r: hopeNode,
    lo: Option<nat>,
    hi: Option<nat>,
) -> bool {
    &&& os.wf_between(lo, hi)
    &&& !os._is_leaf
    &&& os._children@.len() < DEGREE
    &&& 0 <= i < os._children@.len()
    &&& ch == os._children@[i]
    &&& l.wf_between(os.child_lo(lo, i), Some(kp._m@))
    &&& r.wf_between(Some(kp._m@), os.child_hi(hi, i))
    &&& l.entries() + r.entries() == ch.entries()
    &&& l.height() == ch.height()
    &&& r.height() == ch.height()
    &&& l.entries().len() >= 1
    &&& r.entries().len() >= 1
    &&& kp._m@ == r.entries()[0]._m@
    &&& in_bounds(os.child_lo(lo, i), os.child_hi(hi, i), kp._m@)
    &&& ns._degree == DEGREE
    &&& ns._is_leaf == false
    &&& ns._num_cts == ns._cts@.len()
    &&& ns._children@ == os._children@.take(i) + seq![l, r] + os._children@.skip(i + 1)
    &&& ns._cts@ == os._cts@.insert(i, kp)
}

/// After splitting a child, the reassembled node is well-formed again
/// and keeps its height.
#[verifier::rlimit(100)]
#[verifier::spinoff_prover]
pub proof fn lemma_split_wf(
    os: hopeNode,
    ns: hopeNode,
    i: int,
    ch: hopeNode,
    kp: hopeLeaf,
    l: hopeNode,
    r: hopeNode,
    lo: Option<nat>,
    hi: Option<nat>,
)
    requires
        split_shape(os, ns, i, ch, kp, l, r, lo, hi),
    ensures
        ns.wf_between(lo, hi),
        ns.height() == os.height(),
{
    let och = os._children@;
    let oct = os._cts@;
    let nch = ns._children@;
    let nct = ns._cts@;
    let clo = os.child_lo(lo, i);
    let chi = os.child_hi(hi, i);
    assert forall|a: int, b: int| 0 <= a < b < oct.len() implies oct[a]._m@ < oct[b]._m@ by {
        assert(os.key_plains()[a] == oct[a]._m@);
        assert(os.key_plains()[b] == oct[b]._m@);
    }
            // The separator sits strictly between its new neighbours.
            ch.lemma_wf_sorted(clo, chi);
            l.lemma_wf_sorted(clo, Some(kp._m@));
            if i > 0 {
                assert(os._children@[(i - 1) + 1] == ch);
                assert(oct[i - 1]._m@ == ch.entries()[0]._m@);
                assert(ch.entries()[0] == (l.entries() + r.entries())[0]);
                assert(l.entries().len() >= 1);
                assert(ch.entries()[0] == l.entries()[0]);
                assert(l.entries()[0]._m@ < kp._m@) by {
                    assert(es_bounded(l.entries(), lo, Some(kp._m@)));
                    assert(in_bounds(lo, Some(kp._m@), l.entries()[0]._m@));
                }
                assert(oct[i - 1]._m@ < kp._m@);
            }
            if i < oct.len() {
                assert(hi_ok(chi, kp._m@));
                assert(kp._m@ < oct[i]._m@);
            }
            // in_bounds of the separator against the outer bounds.
            assert(in_bounds(lo, hi, kp._m@)) by {
                if i > 0 {
                    assert(in_bounds(lo, hi, oct[i - 1]._m@));
                }
                if i < oct.len() {
                    assert(in_bounds(lo, hi, oct[i]._m@));
                }
            }
            // Routing keys sorted and bounded.
            assert forall|a: int, b: int| 0 <= a < b < nct.len() implies nct[a]._m@
                < nct[b]._m@ by {
                if b < i {
                } else if a > i {
                } else if a == i {
                    assert(nct[b] == oct[b - 1]);
                } else if b == i {
                    assert(nct[a] == oct[a]);
                } else {
                    assert(nct[a] == oct[a] && nct[b] == oct[b - 1]);
                    if a < i && b > i {
                        if i > 0 {
                            assert(oct[a]._m@ <= oct[i - 1]._m@ || a == i - 1);
                        }
                    }
                }
            }
            assert(sorted_strict(ns.key_plains())) by {
                assert forall|a: int, b: int|
                    0 <= a < b < ns.key_plains().len() implies ns.key_plains()[a]
                    < ns.key_plains()[b] by {
                    assert(ns.key_plains()[a] == nct[a]._m@);
                    assert(ns.key_plains()[b] == nct[b]._m@);
                }
            }
            assert forall|j: int| 0 <= j < nct.len() implies in_bounds(
                lo,
                hi,
                #[trigger] nct[j]._m@,
            ) by {
                if j < i {
                    assert(nct[j] == oct[j]);
                } else if j > i {
                    assert(nct[j] == oct[j - 1]);
                }
            }
            // Children well-formed at the reshaped bounds.
            assert forall|j: int| 0 <= j < nch.len() implies (#[trigger] nch[j]).wf_between(
                ns.child_lo(lo, j),
                ns.child_hi(hi, j),
            ) by {
                if j < i {
                    assert(nch[j] == och[j]);
                    assert(och[j].wf_between(
                        os.child_lo(lo, j),
                        os.child_hi(hi, j),
                    ));
                    if j > 0 {
                        assert(nct[j - 1] == oct[j - 1]);
                    }
                    assert(nct[j] == oct[j]);
                } else if j == i {
                    assert(nch[j] == l);
                    if i > 0 {
                        assert(nct[i - 1] == oct[i - 1]);
                    }
                    assert(nct[i] == kp);
                } else if j == i + 1 {
                    assert(nch[j] == r);
                    assert(nct[i] == kp);
                    if i + 1 < nct.len() {
                        assert(nct[i + 1] == oct[i]);
                    }
                } else {
                    assert(nch[j] == och[j - 1]);
                    assert(och[j - 1].wf_between(
                        os.child_lo(lo, j - 1),
                        os.child_hi(hi, j - 1),
                    ));
                    assert(nct[j - 1] == oct[j - 2]);
                    if j < nct.len() {
                        assert(nct[j] == oct[j - 1]);
                    }
                }
            }
            // Equal heights.
            assert forall|j: int| 0 <= j < nch.len() implies (#[trigger] nch[j]).height()
                == nch[0].height() by {
                if j < i {
                    assert(nch[j] == och[j]);
                } else if j == i {
                } else if j == i + 1 {
                } else {
                    assert(nch[j] == och[j - 1]);
                }
                assert(l.height() == ch.height());
                assert(r.height() == ch.height());
                if i > 0 {
                    assert(nch[0] == och[0]);
                }
            }
            // Routing keys still name the minimum of their right child.
            assert forall|j: int| 0 <= j < nct.len() implies (#[trigger] nch[j + 1]).entries().len()
                >= 1 && nct[j]._m@ == nch[j + 1].entries()[0]._m@ by {
                if j < i - 1 {
                    assert(nct[j] == oct[j] && nch[j + 1] == och[j + 1]);
                } else if j == i - 1 && i > 0 {
                    assert(nct[j] == oct[j] && nch[j + 1] == l);
                    assert(oct[i - 1]._m@ == l.entries()[0]._m@);
                } else if j == i {
                    assert(nct[j] == kp && nch[j + 1] == r);
                } else {
                    assert(nct[j] == oct[j - 1] && nch[j + 1] == och[j]);
                }
            }
            // Height of the node itns.
            assert(ns.height() == 1 + nch[0].height());
            assert(os.height() == 1 + och[0].height());
            assert(nch[0].height() == och[0].height());
}

/// After splitting a child, the reassembled node stores the same
/// entries in the same order.
#[verifier::rlimit(100)]
#[verifier::spinoff_prover]
pub proof fn lemma_split_entries(
    os: hopeNode,
    ns: hopeNode,
    i: int,
    ch: hopeNode,
    kp: hopeLeaf,
    l: hopeNode,
    r: hopeNode,
    lo: Option<nat>,
    hi: Option<nat>,
)
    requires
        split_shape(os, ns, i, ch, kp, l, r, lo, hi),
    ensures
        ns.entries() == os.entries(),
{
    let och = os._children@;
    let oct = os._cts@;
    let nch = ns._children@;
    let nct = ns._cts@;
            // Entries unchanged.
            lemma_cat_decompose(och, i);
            lemma_cat_decompose(nch, i);
            assert(nch.take(i) =~= och.take(i));
            let tail = nch.skip(i + 1);
            lemma_cat_decompose(tail, 0);
            assert(tail.take(0) =~= Seq::<hopeNode>::empty());
            assert(tail[0] == r);
            assert(tail.skip(1) =~= och.skip(i + 1));
            assert(entries_cat(tail) == entries_cat(Seq::<hopeNode>::empty()) + r.entries()
                + entries_cat(och.skip(i + 1)));
            assert(l.entries() + r.entries() == ch.entries());
            assert(entries_cat(nch) =~= entries_cat(och));
            assert(ns.entries() == os.entries());
}

impl hopeNode {
    /// The `(identifier, order code)` pairs of the subtree, in
    /// symmetric order, under path prefix `c`: the key at position `i`
    /// of a leaf node carries code `(c + i) * 16`, and the `j`-th child
    /// of an internal node extends the prefix to `(c + j) * 16`.
    pub open spec fn code_pairs(&self, c: nat) -> Seq<(u64, nat)>
        decreases self,
    {
        if self._is_leaf {
            Seq::new(self._cts@.len(), |i: int| (self._cts@[i]._id, ((c + i) * 16) as nat))
        } else {
            pairs_cat(self._children@, c)
        }
    }

    /// Law: order codes are monotone along the in-order walk. The
    /// pairs line up with the entries, the codes increase strictly,
    /// and all codes of a subtree with path prefix `c` and height `h`
    /// lie in `[c * 16^(h+1), (c + 4) * 16^(h+1))`.
    pub proof fn lemma_codes_monotone(&self, lo: Option<nat>, hi: Option<nat>, c: nat)
        requires
            self.wf_between(lo, hi),
        ensures
            self.code_pairs(c).len() == self.entries().len(),
            forall|p: int|
                0 <= p < self.entries().len() ==> #[trigger] self.code_pairs(c)[p].0
                    == self.entries()[p]._id,
            forall|p: int, q: int|
                0 <= p < q < self.entries().len() ==> self.code_pairs(c)[p].1 < self.code_pairs(
                    c,
                )[q].1,
            forall|p: int|
                0 <= p < self.entries().len() ==> c * pow2(4 * (self.height() + 1))
                    <= #[trigger] self.code_pairs(c)[p].1 && self.code_pairs(c)[p].1 < (c
                    + DEGREE) * pow2(4 * (self.height() + 1)),
        decreases self, 1nat, 0nat,
    {
        vstd::arithmetic::power2::lemma_pow2_unfold(4);
        vstd::arithmetic::power2::lemma_pow2_unfold(3);
        vstd::arithmetic::power2::lemma_pow2_unfold(2);
        vstd::arithmetic::power2::lemma_pow2_unfold(1);
        vstd::arithmetic::power2::lemma_pow2(0);
        vstd::arithmetic::power::lemma_pow0(2);
        if self._is_leaf {
            assert(pow2(4) == 16);
            assert forall|p: int| 0 <= p < self.entries().len() implies c * pow2(
                4 * (self.height() + 1),
            ) <= #[trigger] self.code_pairs(c)[p].1 && self.code_pairs(c)[p].1 < (c + DEGREE)
                * pow2(4 * (self.height() + 1)) by {
                assert(self.code_pairs(c)[p].1 == (c + p) * 16);
                assert(self.height() == 0);
                assert((c + p) * 16 >= c * 16) by (nonlinear_arith)
                    requires
                        p >= 0,
                ;
                assert((c + p) * 16 < (c + 4) * 16) by (nonlinear_arith)
                    requires
                        p < 4,
                ;
            }
            assert forall|p: int, q: int| 0 <= p < q < self.entries().len() implies
                self.code_pairs(c)[p].1 < self.code_pairs(c)[q].1 by {
                assert((c + p) * 16 < (c + q) * 16) by (nonlinear_arith)
                    requires
                        p < q,
                ;
            }
        } else {
            let n = self._children@.len() as int;
            self.lemma_pairs_prefix(lo, hi, c, n);
            assert(self._children@.take(n) =~= self._children@);
            assert(self.entries() == entries_cat(self._children@));
            assert(self.code_pairs(c) == pairs_cat(self._children@, c));
            assert(n <= DEGREE);
            assert(((c + n) as nat) * pow2(4 * (self.height() + 1)) <= ((c + DEGREE) as nat)
                * pow2(4 * (self.height() + 1))) by {
                vstd::arithmetic::mul::lemma_mul_inequality(
                    ((c + n) as nat) as int,
                    ((c + DEGREE as nat) as nat) as int,
                    pow2(4 * (self.height() + 1)) as int,
                );
            }
        }
    }

    /// The codes of the first `k` children of a well-formed internal
    /// node, lined up with their entries, strictly increasing and
    /// bounded by the reach of child `k - 1`.
    #[verifier::rlimit(100)]
    #[verifier::spinoff_prover]
    proof fn lemma_pairs_prefix(&self, lo: Option<nat>, hi: Option<nat>, c: nat, k: int)
        requires
            self.wf_between(lo, hi),
            !self._is_leaf,
            0 <= k <= self._children@.len(),
        ensures
            pairs_cat(self._children@.take(k), c).len() == entries_cat(
                self._children@.take(k),
            ).len(),
            forall|p: int|
                0 <= p < entries_cat(self._children@.take(k)).len()
                    ==> #[trigger] pairs_cat(self._children@.take(k), c)[p].0 == entries_cat(
                    self._children@.take(k),
                )[p]._id,
            forall|p: int, q: int|
                0 <= p < q < entries_cat(self._children@.take(k)).len() ==> pairs_cat(
                    self._children@.take(k),
                    c,
                )[p].1 < pairs_cat(self._children@.take(k), c)[q].1,
            forall|p: int|
                0 <= p < entries_cat(self._children@.take(k)).len() ==> c * pow2(
                    4 * (self.height() + 1),
                ) <= #[trigger] pairs_cat(self._children@.take(k), c)[p].1 && pairs_cat(
                    self._children@.take(k),
                    c,
                )[p].1 < ((c + k) as nat) * pow2(4 * (self.height() + 1)),
        decreases self, 0nat, k,
    {
        let h = self.height();
        let hc = (self.height() - 1) as nat;
        if k == 0 {
            assert(self._children@.take(0) =~= Seq::<hopeNode>::empty());
        } else {
            self.lemma_pairs_prefix(lo, hi, c, k - 1);
            let child = self._children@[k - 1];
            assert(child.wf_between(self.child_lo(lo, k - 1), self.child_hi(hi, k - 1)));
            assert(child.height() == self._children@[0].height());
            assert(h == 1 + self._children@[0].height());
            assert(child.height() == hc);
            child.lemma_codes_monotone(
                self.child_lo(lo, k - 1),
                self.child_hi(hi, k - 1),
                ((c + k - 1) * 16) as nat,
            );
            let pre = self._children@.take(k - 1);
            let cur = self._children@.take(k);
            assert(cur.drop_last() =~= pre);
            assert(cur.last() == child);
            assert(pairs_cat(cur, c) == pairs_cat(pre, c) + child.code_pairs(
                ((c + k - 1) * 16) as nat,
            ));
            assert(entries_cat(cur) == entries_cat(pre) + child.entries());
            let a = pairs_cat(pre, c);
            let b = child.code_pairs(((c + k - 1) * 16) as nat);
            let ae = entries_cat(pre);
            let be = child.entries();
            assert(a.len() == ae.len());
            assert(b.len() == be.len());
            // The child block sits wholly above the prefix block.
            assert(pow2(4 * (h + 1)) == 16 * pow2(4 * (hc + 1))) by {
                vstd::arithmetic::power2::lemma_pow2_adds(4, 4 * (hc + 1));
                assert(4 * (h + 1) == 4 + 4 * (hc + 1));
                vstd::arithmetic::power2::lemma_pow2_unfold(4);
                vstd::arithmetic::power2::lemma_pow2_unfold(3);
                vstd::arithmetic::power2::lemma_pow2_unfold(2);
                vstd::arithmetic::power2::lemma_pow2_unfold(1);
                vstd::arithmetic::power2::lemma_pow2(0);
                vstd::arithmetic::power::lemma_pow0(2);
            }
            assert(((c + k - 1) * 16) * pow2(4 * (hc + 1)) == ((c + k - 1) as nat) * pow2(
                4 * (h + 1),
            )) by (nonlinear_arith)
                requires
                    pow2(4 * (h + 1)) == 16 * pow2(4 * (hc + 1)),
                    k >= 1,
                    c >= 0,
            ;
            assert((((c + k - 1) * 16 + DEGREE) as nat) * pow2(4 * (hc + 1)) <= ((c + k) as nat)
                * pow2(4 * (h + 1))) by (nonlinear_arith)
                requires
                    pow2(4 * (h + 1)) == 16 * pow2(4 * (hc + 1)),
                    pow2(4 * (hc + 1)) >= 0,
                    k >= 1,
                    c >= 0,
            ;
            assert(((c + k - 1) as nat) * pow2(4 * (h + 1)) >= c * pow2(4 * (h + 1)))
                by (nonlinear_arith)
                requires
                    k >= 1,
                    c >= 0,
                    pow2(4 * (h + 1)) >= 0,
            ;
            assert(((c + k - 1) as nat) * pow2(4 * (h + 1)) <= ((c + k) as nat) * pow2(
                4 * (h + 1),
            )) by (nonlinear_arith)
                requires
                    k >= 1,
                    c >= 0,
                    pow2(4 * (h + 1)) >= 0,
            ;
        }
    }

    /// Law: an order code names its path. The code of the key at
    /// position `i` of a leaf node with path prefix `c`, shifted right
    /// by the capacity's bit width, is the prefix plus the index.
    pub proof fn lemma_code_prefix(&self, c: nat, i: int)
        requires
            self._is_leaf,
            0 <= i < self._cts@.len(),
        ensures
            self.code_pairs(c)[i].1 == (c + i) * 16,
            self.code_pairs(c)[i].1 / 16 == c + i,
    {
        vstd::arithmetic::div_mod::lemma_div_by_multiple((c + i) as int, 16);
    }

    /// Returns the order code of the leaf with the given identifier,
    /// if it is stored in this subtree whose path prefix is `_code`.
    #[verifier::rlimit(100)]
    #[verifier::spinoff_prover]
    pub fn code(
        &self,
        _code: u64,
        _key: u64,
        Ghost(lo): Ghost<Option<nat>>,
        Ghost(hi): Ghost<Option<nat>>,
    ) -> (res: Option<u64>)
        requires
            self.wf_between(lo, hi),
            ((_code + DEGREE) as nat) * pow2(4 * (self.height() + 1)) <= 0x10000000000000000,
        ensures
            res matches Some(v) ==> exists|p: int|
                0 <= p < self.code_pairs(_code as nat).len() && #[trigger] self.code_pairs(
                    _code as nat,
                )[p].0 == _key && self.code_pairs(_code as nat)[p].1 == v as nat,
            res is None ==> forall|p: int|
                0 <= p < self.code_pairs(_code as nat).len() ==> #[trigger] self.code_pairs(
                    _code as nat,
                )[p].0 != _key,
        decreases self.height(),
    {
        let ghost c = _code as nat;
        proof {
            vstd::arithmetic::power2::lemma2_to64();
            assert(pow2(4) == 16);
            vstd::arithmetic::power2::lemma_pow2_adds(4, 4 * self.height());
            assert(pow2(4 * (self.height() + 1)) == 16 * pow2(4 * self.height()));
            vstd::arithmetic::power2::lemma_pow2_pos(4 * self.height());
            assert(((_code + DEGREE) as nat) * 16 <= ((_code + DEGREE) as nat) * pow2(
                4 * (self.height() + 1),
            )) by (nonlinear_arith)
                requires
                    pow2(4 * (self.height() + 1)) >= 16,
            ;
        }
        if self.is_leaf() {
            let mut i: usize = 0;
            while i < self._num_cts
                invariant
                    self.wf_between(lo, hi),
                    self._is_leaf,
                    self._num_cts == self._cts@.len(),
                    i <= self._cts@.len(),
                    c == _code as nat,
                    ((_code + DEGREE) as nat) * 16 <= 0x10000000000000000,
                    forall|j: int| 0 <= j < i ==> self._cts@[j]._id != _key,
                decreases self._cts@.len() - i,
            {
            proof {
                assert((c + i as nat) + 1 <= (_code + DEGREE) as nat);
                assert((c + i as nat) * 16 + 16 <= ((_code + DEGREE) as nat) * 16)
                    by (nonlinear_arith)
                    requires
                        (c + i as nat) + 1 <= (_code + DEGREE) as nat,
                ;
                assert(c + i as nat <= u64::MAX as nat) by (nonlinear_arith)
                    requires
                        (c + i as nat) * 16 + 16 <= 0x10000000000000000,
                ;
            }
                if self._cts[i]._id == _key {
                    let v = (_code + i as u64) * 16;
                    proof {
                        assert(self.code_pairs(c)[i as int].0 == _key);
                        assert(self.code_pairs(c)[i as int].1 == v as nat);
                    }
                    return Some(v);
                }
                i = i + 1;
            }
            proof {
                assert forall|p: int| 0 <= p < self.code_pairs(c).len() implies (
                #[trigger] self.code_pairs(c)[p]).0 != _key by {
                    assert(self.code_pairs(c)[p].0 == self._cts@[p]._id);
                }
            }
            None
        } else {
            let ghost h = self.height();
            let ghost hc = (self.height() - 1) as nat;
            proof {
                vstd::arithmetic::power2::lemma_pow2_adds(4, 4 * hc);
                assert(4 * (hc + 1) == 4 + 4 * hc);
                assert(pow2(4 * (hc + 1)) == 16 * pow2(4 * hc));
            }
            let mut j: usize = 0;
            while j < self._children.len()
                invariant
                    self.wf_between(lo, hi),
                    !self._is_leaf,
                    j <= self._children@.len(),
                    c == _code as nat,
                    h == self.height(),
                    hc == (self.height() - 1) as nat,
                    ((_code + DEGREE) as nat) * pow2(4 * (h + 1)) <= 0x10000000000000000,
                    pow2(4 * (h + 1)) == 16 * pow2(4 * (hc + 1)),
                    forall|p: int|
                        0 <= p < pairs_cat(self._children@.take(j as int), c).len()
                            ==> #[trigger] pairs_cat(self._children@.take(j as int), c)[p].0
                            != _key,
                decreases self._children@.len() - j,
            {
                proof {
                    assert(self._children@[j as int].wf_between(
                        self.child_lo(lo, j as int),
                        self.child_hi(hi, j as int),
                    ));
                    assert(self._children@[j as int].height() == hc) by {
                        assert(self._children@[j as int].height()
                            == self._children@[0].height());
                    }
                    assert((_code + j as u64) as nat + 1 <= (_code + DEGREE) as nat);
                    assert((((_code + j as u64) * 16) as nat + DEGREE) * pow2(4 * (hc + 1))
                        <= 0x10000000000000000) by (nonlinear_arith)
                        requires
                            ((_code + DEGREE) as nat) * pow2(4 * (h + 1))
                                <= 0x10000000000000000,
                            pow2(4 * (h + 1)) == 16 * pow2(4 * (hc + 1)),
                            pow2(4 * (hc + 1)) >= 0,
                            (_code + j as u64) as nat + 1 <= (_code + DEGREE) as nat,
                            DEGREE == 4,
                            ((_code + j as u64) * 16) as nat == ((_code + j as u64) as nat)
                                * 16,
                    ;
                    assert(pow2(4 * (hc + 1)) >= 16) by {
                        vstd::arithmetic::power2::lemma2_to64();
                        if 4 * (hc + 1) > 4 {
                            vstd::arithmetic::power2::lemma_pow2_strictly_increases(
                                4,
                                4 * (hc + 1),
                            );
                        }
                    }
                    assert((c + j as nat) * 16 + 16 <= 0x10000000000000000)
                        by (nonlinear_arith)
                        requires
                            (((c + j as nat) * 16) + DEGREE) * pow2(4 * (hc + 1))
                                <= 0x10000000000000000,
                            pow2(4 * (hc + 1)) >= 16,
                            DEGREE == 4,
                    ;
                    assert(c + j as nat <= u64::MAX as nat) by (nonlinear_arith)
                        requires
                            (c + j as nat) * 16 + 16 <= 0x10000000000000000,
                    ;
                    assert(((_code + j as u64) * 16) as nat == (c + j as nat) * 16);
                }
                let sub = self._children[j].code(
                    (_code + j as u64) * 16,
                    _key,
                    Ghost(self.child_lo(lo, j as int)),
                    Ghost(self.child_hi(hi, j as int)),
                );
                proof {
                    lemma_pairs_decompose(self._children@, c, j as int);
                    let a = pairs_cat(self._children@.take(j as int), c);
                    let b = self._children@[j as int].code_pairs(((c + j) * 16) as nat);
                    assert(self.code_pairs(c) == a + b + pairs_cat(
                        self._children@.skip(j as int + 1),
                        (c + j + 1) as nat,
                    ));
                }
                match sub {
                    Some(v) => {
                        proof {
                            let a = pairs_cat(self._children@.take(j as int), c);
                            let b = self._children@[j as int].code_pairs(((c + j) * 16) as nat);
                            let pc = choose|p: int|
                                0 <= p < b.len() && #[trigger] b[p].0 == _key && b[p].1
                                    == v as nat;
                            assert(self.code_pairs(c)[a.len() + pc] == b[pc]);
                        }
                        return Some(v);
                    },
                    None => {
                        proof {
                            let pre = self._children@.take(j as int);
                            let cur = self._children@.take(j as int + 1);
                            assert(cur.drop_last() =~= pre);
                            assert(cur.last() == self._children@[j as int]);
                            assert((c + cur.len() - 1) * 16 == (c + j) * 16);
                            assert(pairs_cat(cur, c) == pairs_cat(pre, c)
                                + self._children@[j as int].code_pairs(((c + j) * 16) as nat));
                        }
                    },
                }
                j = j + 1;
            }
            proof {
                assert(self._children@.take(self._children@.len() as int) =~= self._children@);
                assert(self.code_pairs(c) == pairs_cat(self._children@, c));
                assert forall|p: int| 0 <= p < self.code_pairs(c).len() implies (
                #[trigger] self.code_pairs(c)[p]).0 != _key by {
                    assert(self.code_pairs(c)[p] == pairs_cat(
                        self._children@.take(self._children@.len() as int),
                        c,
                    )[p]);
                }
            }
            None
        }
    }

    /// Walks the subtree in symmetric order, appending every leaf's
    /// `(identifier, order code)` pair to the store.
    #[verifier::rlimit(100)]
    #[verifier::spinoff_prover]
    pub fn update_apl(
        &self,
        _code: u64,
        out: &mut Vec<(u64, u64)>,
        Ghost(lo): Ghost<Option<nat>>,
        Ghost(hi): Ghost<Option<nat>>,
    )
        requires
            self.wf_between(lo, hi),
            ((_code + DEGREE) as nat) * pow2(4 * (self.height() + 1)) <= 0x10000000000000000,
        ensures
            final(out)@.len() == old(out)@.len() + self.code_pairs(_code as nat).len(),
            forall|k: int| 0 <= k < old(out)@.len() ==> final(out)@[k] == old(out)@[k],
            forall|p: int|
                0 <= p < self.code_pairs(_code as nat).len() ==> (#[trigger] final(out)@[old(
                    out,
                )@.len() + p]).0 == self.code_pairs(_code as nat)[p].0 && final(out)@[old(
                    out,
                )@.len() + p].1 as nat == self.code_pairs(_code as nat)[p].1,
        decreases self.height(),
    {
        let ghost c = _code as nat;
        let ghost out0 = out@;
        proof {
            vstd::arithmetic::power2::lemma2_to64();
            assert(pow2(4) == 16);
            vstd::arithmetic::power2::lemma_pow2_adds(4, 4 * self.height());
            vstd::arithmetic::power2::lemma_pow2_pos(4 * self.height());
            assert(((_code + DEGREE) as nat) * 16 <= ((_code + DEGREE) as nat) * pow2(
                4 * (self.height() + 1),
            )) by (nonlinear_arith)
                requires
                    pow2(4 * (self.height() + 1)) >= 16,
            ;
        }
        if self.is_leaf() {
            let mut i: usize = 0;
            while i < self._num_cts
                invariant
                    self.wf_between(lo, hi),
                    self._is_leaf,
                    self._num_cts == self._cts@.len(),
                    i <= self._cts@.len(),
                    c == _code as nat,
                    ((_code + DEGREE) as nat) * 16 <= 0x10000000000000000,
                    out@.len() == out0.len() + i,
                    forall|k: int| 0 <= k < out0.len() ==> out@[k] == out0[k],
                    forall|p: int|
                        0 <= p < i ==> (#[trigger] out@[out0.len() + p]).0 == self.code_pairs(
                            c,
                        )[p].0 && out@[out0.len() + p].1 as nat == self.code_pairs(c)[p].1,
                decreases self._cts@.len() - i,
            {
            proof {
                assert((c + i as nat) + 1 <= (_code + DEGREE) as nat);
                assert((c + i as nat) * 16 + 16 <= ((_code + DEGREE) as nat) * 16)
                    by (nonlinear_arith)
                    requires
                        (c + i as nat) + 1 <= (_code + DEGREE) as nat,
                ;
                assert(c + i as nat <= u64::MAX as nat) by (nonlinear_arith)
                    requires
                        (c + i as nat) * 16 + 16 <= 0x10000000000000000,
                ;
            }
                let v = (_code + i as u64) * 16;
                let id = self._cts[i]._id;
                out.push((id, v));
                i = i + 1;
            }
        } else {
            let ghost h = self.height();
            let ghost hc = (self.height() - 1) as nat;
            proof {
                vstd::arithmetic::power2::lemma_pow2_adds(4, 4 * hc);
                assert(4 * (hc + 1) == 4 + 4 * hc);
                assert(pow2(4 * (hc + 1)) == 16 * pow2(4 * hc));
            }
            let mut j: usize = 0;
            while j < self._children.len()
                invariant
                    self.wf_between(lo, hi),
                    !self._is_leaf,
                    j <= self._children@.len(),
                    c == _code as nat,
                    h == self.height(),
                    hc == (self.height() - 1) as nat,
                    ((_code + DEGREE) as nat) * pow2(4 * (h + 1)) <= 0x10000000000000000,
                    pow2(4 * (h + 1)) == 16 * pow2(4 * (hc + 1)),
                    out@.len() == out0.len() + pairs_cat(
                        self._children@.take(j as int),
                        c,
                    ).len(),
                    forall|k: int| 0 <= k < out0.len() ==> out@[k] == out0[k],
                    forall|p: int|
                        0 <= p < pairs_cat(self._children@.take(j as int), c).len() ==> (
                        #[trigger] out@[out0.len() + p]).0 == pairs_cat(
                            self._children@.take(j as int),
                            c,
                        )[p].0 && out@[out0.len() + p].1 as nat == pairs_cat(
                            self._children@.take(j as int),
                            c,
                        )[p].1,
                decreases self._children@.len() - j,
            {
                let ghost oprev = out@;
                proof {
                    assert(self._children@[j as int].wf_between(
                        self.child_lo(lo, j as int),
                        self.child_hi(hi, j as int),
                    ));
                    assert(self._children@[j as int].height() == hc) by {
                        assert(self._children@[j as int].height()
                            == self._children@[0].height());
                    }
                    assert((_code + j as u64) as nat + 1 <= (_code + DEGREE) as nat);
                    assert((((_code + j as u64) * 16) as nat + DEGREE) * pow2(4 * (hc + 1))
                        <= 0x10000000000000000) by (nonlinear_arith)
                        requires
                            ((_code + DEGREE) as nat) * pow2(4 * (h + 1))
                                <= 0x10000000000000000,
                            pow2(4 * (h + 1)) == 16 * pow2(4 * (hc + 1)),
                            pow2(4 * (hc + 1)) >= 0,
                            (_code + j as u64) as nat + 1 <= (_code + DEGREE) as nat,
                            DEGREE == 4,
                            ((_code + j as u64) * 16) as nat == ((_code + j as u64) as nat)
                                * 16,
                    ;
                    assert(pow2(4 * (hc + 1)) >= 16) by {
                        vstd::arithmetic::power2::lemma2_to64();
                        if 4 * (hc + 1) > 4 {
                            vstd::arithmetic::power2::lemma_pow2_strictly_increases(
                                4,
                                4 * (hc + 1),
                            );
                        }
                    }
                    assert((c + j as nat) * 16 + 16 <= 0x10000000000000000)
                        by (nonlinear_arith)
                        requires
                            (((c + j as nat) * 16) + DEGREE) * pow2(4 * (hc + 1))
                                <= 0x10000000000000000,
                            pow2(4 * (hc + 1)) >= 16,
                            DEGREE == 4,
                    ;
                    assert(c + j as nat <= u64::MAX as nat) by (nonlinear_arith)
                        requires
                            (c + j as nat) * 16 + 16 <= 0x10000000000000000,
                    ;
                    assert(((_code + j as u64) * 16) as nat == (c + j as nat) * 16);
                }
                self._children[j].update_apl(
                    (_code + j as u64) * 16,
                    out,
                    Ghost(self.child_lo(lo, j as int)),
                    Ghost(self.child_hi(hi, j as int)),
                );
                proof {
                    let pre = self._children@.take(j as int);
                    let cur = self._children@.take(j as int + 1);
                    assert(cur.drop_last() =~= pre);
                    assert(cur.last() == self._children@[j as int]);
                    assert((c + cur.len() - 1) * 16 == (c + j) * 16);
                    let cp = self._children@[j as int].code_pairs(((c + j) * 16) as nat);
                    assert(pairs_cat(cur, c) == pairs_cat(pre, c) + cp);
                    assert(oprev.len() == out0.len() + pairs_cat(pre, c).len());
                    assert forall|p: int| 0 <= p < pairs_cat(cur, c).len() implies (
                    #[trigger] out@[out0.len() + p]).0 == pairs_cat(cur, c)[p].0 && out@[out0.len()
                        + p].1 as nat == pairs_cat(cur, c)[p].1 by {
                        if p < pairs_cat(pre, c).len() {
                            assert(pairs_cat(cur, c)[p] == pairs_cat(pre, c)[p]);
                            assert(out@[out0.len() + p] == oprev[out0.len() + p]);
                            assert((oprev[out0.len() + p]).0 == pairs_cat(pre, c)[p].0);
                        } else {
                            let q = p - pairs_cat(pre, c).len();
                            assert(pairs_cat(cur, c)[p] == cp[q]);
                            assert((out@[oprev.len() + q]).0 == cp[q].0);
                            assert(out@[oprev.len() + q].1 as nat == cp[q].1);
                        }
                    }
                }
                j = j + 1;
            }
            proof {
                assert(self._children@.take(self._children@.len() as int) =~= self._children@);
            }
        }
    }

    /// Inserts a new leaf into a non-full subtree: descends along the
    /// routing keys with the oracle, splitting any full child met on
    /// the way, and places the key at its sorted position in a leaf
    /// node.
    #[verifier::rlimit(100)]
    #[verifier::spinoff_prover]
    pub fn insert_nonfull<O: CompareOracle>(
        &mut self,
        _key: hopeLeaf,
        o: &O,
        Ghost(lo): Ghost<Option<nat>>,
        Ghost(hi): Ghost<Option<nat>>,
    )
        requires
            old(self).wf_between(lo, hi),
            old(self).all_ok(o),
            o.leaf_ok(_key),
            in_bounds(lo, hi, _key._m@),
            !has_plain(old(self).entries(), _key._m@),
            old(self)._is_leaf ==> old(self)._cts@.len() < DEGREE,
            !old(self)._is_leaf ==> old(self)._children@.len() < DEGREE,
        ensures
            final(self).wf_between(lo, hi),
            final(self).all_ok(o),
            final(self).height() == old(self).height(),
            final(self)._is_leaf == old(self)._is_leaf,
            exists|g: int|
                0 <= g <= old(self).entries().len() && final(self).entries() == old(
                    self,
                ).entries().insert(g, _key),
        decreases old(self).height(),
    {
        if self.is_leaf() {
            let idx = self.insert_key(_key, o, Ghost(lo), Ghost(hi));
            proof {
                let g = idx as int;
                assert(0 <= g <= old(self).entries().len() && self.entries() == old(
                    self,
                ).entries().insert(g, _key));
            }
        } else {
            let ghost os0 = *self;
            let mut i: usize = 0;
            while i < self._num_cts
                invariant_except_break
                    *self == os0,
                    self._num_cts == self._cts@.len(),
                    o.leaf_ok(_key),
                    forall|j: int|
                        0 <= j < self._cts@.len() ==> o.leaf_ok(#[trigger] self._cts@[j]),
                    i <= self._cts@.len(),
                    forall|j: int| 0 <= j < i ==> self._cts@[j]._m@ < _key._m@,
                ensures
                    *self == os0,
                    i <= self._cts@.len(),
                    forall|j: int| 0 <= j < i ==> self._cts@[j]._m@ < _key._m@,
                    i < self._cts@.len() ==> !(_key._m@ > self._cts@[i as int]._m@),
                decreases self._cts@.len() - i,
            {
                if o.greater(&_key, &self._cts[i]) {
                    i = i + 1;
                } else {
                    break ;
                }
            }
            proof {
                if (i as int) < self._cts@.len() {
                    self.lemma_router_in_entries(lo, hi, i as int);
                    assert(self._cts@[i as int]._m@ != _key._m@);
                    assert(_key._m@ < self._cts@[i as int]._m@);
                }
            }
            let mut i2 = i;
            proof {
                assert(os0._children@[i as int].wf_between(
                    os0.child_lo(lo, i as int),
                    os0.child_hi(hi, i as int),
                ));
            }
            let full = self._children[i].is_full();
            if full {
                self.split_child(i, o, Ghost(lo), Ghost(hi));
                proof {
                    assert(self._cts@[i as int]._m@ != _key._m@) by {
                        self.lemma_router_in_entries(lo, hi, i as int);
                        assert(has_plain(self.entries(), self._cts@[i as int]._m@));
                        assert(self.entries() == os0.entries());
                    }
                }
                let goright = o.greater(&_key, &self._cts[i2]);
                if goright {
                    i2 = i2 + 1;
                }
                proof {
                    // The chosen child accepts the key within its bounds.
                    if i2 == i + 1 {
                        assert(lo_ok(self.child_lo(lo, i2 as int), _key._m@));
                        assert(hi_ok(self.child_hi(hi, i2 as int), _key._m@)) by {
                            if (i2 as int) < self._cts@.len() {
                                assert(self._cts@[i2 as int] == os0._cts@[i2 as int - 1]);
                                assert(os0._cts@[i as int]._m@ > _key._m@);
                            }
                        }
                    } else {
                        assert(lo_ok(self.child_lo(lo, i2 as int), _key._m@)) by {
                            if i2 > 0 {
                                assert(self._cts@[i2 as int - 1] == os0._cts@[i2 as int - 1]);
                                assert(os0._cts@[i2 as int - 1]._m@ < _key._m@);
                            }
                        }
                        assert(hi_ok(self.child_hi(hi, i2 as int), _key._m@));
                    }
                }
            } else {
                proof {
                    assert(lo_ok(self.child_lo(lo, i2 as int), _key._m@));
                    assert(hi_ok(self.child_hi(hi, i2 as int), _key._m@));
                }
            }
            let ghost mid = *self;
            let ghost clo2 = mid.child_lo(lo, i2 as int);
            let ghost chi2 = mid.child_hi(hi, i2 as int);
            proof {
                assert(mid._children@[i2 as int].wf_between(clo2, chi2));
                mid.lemma_child_no_plain(lo, hi, i2 as int, _key._m@);
                assert(mid._children@[i2 as int].height() < mid.height()) by {
                    assert(mid._children@[i2 as int].height() == mid._children@[0].height());
                }
                assert(mid.height() == old(self).height());
            }
            let mut child = self._children.remove(i2);
            child.insert_nonfull(_key, o, Ghost(clo2), Ghost(chi2));
            self._children.insert(i2, child);
            proof {
                let cold = mid._children@[i2 as int];
                let cnew = self._children@[i2 as int];
                assert(self._children@ =~= mid._children@.update(i2 as int, cnew));
                assert(descend_shape(mid, *self, i2 as int, cold, cnew, _key, lo, hi));
                lemma_descend_wf(mid, *self, i2 as int, cold, cnew, _key, lo, hi);
                lemma_descend_entries(mid, *self, i2 as int, cold, cnew, _key, lo, hi);
                assert(mid.entries() == os0.entries());
                assert(self.all_ok(o)) by {
                    assert forall|j: int| 0 <= j < self._children@.len() implies (
                    #[trigger] self._children@[j]).all_ok(o) by {
                        if j != i2 {
                            assert(self._children@[j] == mid._children@[j]);
                        }
                    }
                }
            }
        }
    }
}

/// Some key of the subtree, routing keys included, carries this
/// identifier.
pub open spec fn subtree_has_key_id(node: hopeNode, id: u64) -> bool
    decreases node,
{
    ||| exists|i: int| 0 <= i < node._cts@.len() && (#[trigger] node._cts@[i])._id == id
    ||| exists|j: int|
        0 <= j < node._children@.len() && subtree_has_key_id(#[trigger] node._children@[j], id)
}

/// The stored counts agree with the key vectors everywhere in the
/// subtree; well-formedness guarantees it.
pub open spec fn counts_ok(node: hopeNode) -> bool
    decreases node,
{
    &&& node._num_cts == node._cts@.len()
    &&& forall|j: int|
        0 <= j < node._children@.len() ==> counts_ok(#[trigger] node._children@[j])
}

impl hopeNode {
    /// Finds the node holding a key with the given key's identifier.
    pub fn search(&self, _key: &hopeLeaf) -> (res: Option<&hopeNode>)
        requires
            counts_ok(*self),
        ensures
            res is Some <==> subtree_has_key_id(*self, _key._id),
            res is Some ==> exists|i: int|
                0 <= i < res->0._cts@.len() && (#[trigger] res->0._cts@[i])._id == _key._id,
        decreases self,
    {
        let mut i: usize = 0;
        while i < self._num_cts
            invariant
                self._num_cts == self._cts@.len(),
                i <= self._cts@.len(),
                forall|j: int| 0 <= j < i ==> (#[trigger] self._cts@[j])._id != _key._id,
            decreases self._cts@.len() - i,
        {
            if self._cts[i]._id == _key._id {
                let out = Some(self);
                proof {
                    assert((out->0)._cts@[i as int]._id == _key._id);
                    assert(exists|q: int|
                        0 <= q < self._cts@.len() && (#[trigger] self._cts@[q])._id
                            == _key._id);
                    assert(subtree_has_key_id(*self, _key._id));
                }
                return out;
            }
            i = i + 1;
        }
        let mut j: usize = 0;
        while j < self._children.len()
            invariant
                counts_ok(*self),
                self._num_cts == self._cts@.len(),
                forall|q: int| 0 <= q < self._cts@.len() ==> (#[trigger] self._cts@[q])._id
                    != _key._id,
                j <= self._children@.len(),
                forall|q: int|
                    0 <= q < j ==> !subtree_has_key_id(#[trigger] self._children@[q], _key._id),
            decreases self._children@.len() - j,
        {
            let child = &self._children[j];
            let sub = child.search(_key);
            match sub {
                Some(nd) => {
                    return Some(nd);
                },
                None => {},
            }
            j = j + 1;
        }
        None
    }

    /// Removes and returns the first key with the given key's
    /// identifier from this node.
    pub fn remove_key(&mut self, _key: &hopeLeaf) -> (res: hopeLeaf)
        requires
            old(self)._num_cts == old(self)._cts@.len(),
            exists|i: int|
                0 <= i < old(self)._cts@.len() && (#[trigger] old(self)._cts@[i])._id
                    == _key._id,
        ensures
            res._id == _key._id,
            exists|i: int|
                0 <= i < old(self)._cts@.len() && (#[trigger] old(self)._cts@[i])._id
                    == _key._id && final(self)._cts@ == old(self)._cts@.remove(i) && res == old(
                    self,
                )._cts@[i],
            final(self)._num_cts == final(self)._cts@.len(),
    {
        let mut i: usize = 0;
        while i < self._num_cts
            invariant_except_break
                *self == *old(self),
                self._num_cts == self._cts@.len(),
                i <= self._cts@.len(),
                forall|j: int| 0 <= j < i ==> (#[trigger] self._cts@[j])._id != _key._id,
                exists|j: int|
                    0 <= j < self._cts@.len() && (#[trigger] self._cts@[j])._id == _key._id,
            ensures
                *self == *old(self),
                i < self._cts@.len(),
                self._cts@[i as int]._id == _key._id,
            decreases self._cts@.len() - i,
        {
            if self._cts[i]._id == _key._id {
                break ;
            }
            i = i + 1;
            proof {
                if i == self._cts@.len() {
                    let j = choose|j: int|
                        0 <= j < self._cts@.len() && (#[trigger] self._cts@[j])._id == _key._id;
                    assert(false);
                }
            }
        }
        let removed = self._cts.remove(i);
        self._num_cts = self._num_cts - 1;
        removed
    }
}

/// The order-preserving index: a root node, the fixed degree, and the
/// tracked height.
pub struct Tree {
    pub root: hopeNode,
    pub _degree: usize,
    pub _height: usize,
}

impl Tree {
    /// The tree is sound: unbounded root shape, tracked height, and a
    /// height the 64-bit codes can describe.
    pub open spec fn wf(&self) -> bool {
        &&& self._degree == DEGREE
        &&& self.root.wf_between(None, None)
        &&& self._height == self.root.height()
        &&& self.root.height() <= MAX_HEIGHT
    }

    /// The stored leaves, in symmetric order.
    pub open spec fn entries(&self) -> Seq<hopeLeaf> {
        self.root.entries()
    }

    /// The `(identifier, order code)` assignment of the tree.
    pub open spec fn pairs(&self) -> Seq<(u64, nat)> {
        self.root.code_pairs(0)
    }

    /// Every stored leaf is one the oracle can speak about.
    pub open spec fn all_ok<O: CompareOracle>(&self, o: &O) -> bool {
        self.root.all_ok(o)
    }

    /// The index cannot grow: the root is full and another root split
    /// would push past the height the 64-bit order codes can describe.
    pub open spec fn at_capacity(&self) -> bool {
        &&& if self.root._is_leaf {
            self.root._cts@.len() == DEGREE
        } else {
            self.root._children@.len() == DEGREE
        }
        &&& self._height >= MAX_HEIGHT
    }

    /// Builds an empty tree.
    pub fn new(_degree: usize) -> (t: Tree)
        requires
            _degree == DEGREE,
        ensures
            t.wf(),
            t.entries().len() == 0,
            t.root._cts@.len() == 0,
            t.root._children@.len() == 0,
            t.root._is_leaf,
    {
        Tree { root: hopeNode::new(_degree, true), _degree, _height: 0 }
    }

    /// The code bound at the root: with height at most `MAX_HEIGHT`,
    /// every code fits in 64 bits.
    pub proof fn lemma_root_bound(&self)
        requires
            self.wf(),
        ensures
            ((0 + DEGREE) as nat) * pow2(4 * (self.root.height() + 1)) <= 0x10000000000000000,
    {
        let h = self.root.height();
        assert(4 * (h + 1) <= 60);
        assert(pow2(4 * (h + 1)) <= pow2(60)) by {
            if 4 * (h + 1) < 60 {
                vstd::arithmetic::power2::lemma_pow2_strictly_increases(4 * (h + 1), 60);
            }
        }
        assert(pow2(60) == 0x1000000000000000) by {
            vstd::arithmetic::power2::lemma2_to64_rest();
        }
        assert((DEGREE as nat) * pow2(4 * (h + 1)) <= (DEGREE as nat) * pow2(60)) by {
            vstd::arithmetic::mul::lemma_mul_left_inequality(
                DEGREE as int,
                pow2(4 * (h + 1)) as int,
                pow2(60) as int,
            );
        }
    }

    /// Inserts a leaf, splitting the root first when it is full;
    /// reports failure only when the tree is at the height capacity of
    /// the 64-bit order codes.
    pub fn insert<O: CompareOracle>(&mut self, _elem: hopeLeaf, o: &O) -> (ok: bool)
        requires
            old(self).wf(),
            old(self).all_ok(o),
            o.leaf_ok(_elem),
            !has_plain(old(self).entries(), _elem._m@),
        ensures
            final(self).wf(),
            final(self).all_ok(o),
            ok <==> !old(self).at_capacity(),
            ok ==> exists|g: int|
                0 <= g <= old(self).entries().len() && final(self).entries() == old(
                    self,
                ).entries().insert(g, _elem),
            !ok ==> *final(self) == *old(self),
    {
        let rootfull = self.root.is_full();
        if rootfull {
            if self._height >= MAX_HEIGHT {
                return false;
            }
            let mut tmp = hopeNode::new(DEGREE, true);
            core::mem::swap(&mut self.root, &mut tmp);
            let ghost oldroot = tmp;
            let (kp, l, r) = tmp.split(o, Ghost(None), Ghost(None));
            let mut ch: Vec<hopeNode> = Vec::new();
            ch.push(l);
            ch.push(r);
            let mut ct: Vec<hopeLeaf> = Vec::new();
            ct.push(kp);
            self.root = hopeNode {
                _degree: DEGREE,
                _num_cts: 1,
                _is_leaf: false,
                _children: ch,
                _cts: ct,
            };
            self._height = self._height + 1;
            proof {
                lemma_cat2(self.root._children@);
                assert(self.root.entries() == l.entries() + r.entries());
                assert(self.root.entries() == oldroot.entries());
                assert(self.root.wf_between(None, None)) by {
                    assert(self.root._children@[0] == l);
                    assert(self.root._children@[1] == r);
                    assert(self.root._cts@[0] == kp);
                    assert(l.wf_between(None, Some(kp._m@)));
                    assert(r.wf_between(Some(kp._m@), None));
                    assert(self.root.child_lo(None, 0) == None::<nat>);
                    assert(self.root.child_hi(None, 0) == Some(kp._m@));
                    assert(self.root.child_lo(None, 1) == Some(kp._m@));
                    assert(self.root.child_hi(None, 1) == None::<nat>);
                }
                assert(self.root.height() == 1 + l.height());
                assert(self.root.height() == 1 + oldroot.height());
            }
        }
        proof {
            assert(!(if self.root._is_leaf {
                self.root._cts@.len() == DEGREE
            } else {
                self.root._children@.len() == DEGREE
            }));
        }
        let ghost pre = *self;
        self.root.insert_nonfull(_elem, o, Ghost(None), Ghost(None));
        proof {
            assert(self.root.height() == pre.root.height());
        }
        true
    }

    /// Law: the index preserves order. The stored leaves, read in
    /// symmetric order, have strictly increasing plaintexts and
    /// strictly increasing order codes, and the code assignment lines
    /// up with the leaves position by position.
    pub proof fn lemma_tree_order(&self)
        requires
            self.wf(),
        ensures
            self.pairs().len() == self.entries().len(),
            forall|p: int|
                0 <= p < self.entries().len() ==> (#[trigger] self.pairs()[p]).0
                    == self.entries()[p]._id,
            forall|p: int, q: int|
                0 <= p < q < self.entries().len() ==> self.entries()[p]._m@
                    < self.entries()[q]._m@,
            forall|p: int, q: int|
                0 <= p < q < self.entries().len() ==> self.pairs()[p].1 < self.pairs()[q].1,
    {
        self.root.lemma_wf_sorted(None, None);
        self.root.lemma_codes_monotone(None, None, 0);
    }

    /// The current order code of the leaf with the given identifier.
    pub fn code(&self, _id: u64) -> (res: Option<u64>)
        requires
            self.wf(),
        ensures
            res matches Some(v) ==> exists|p: int|
                0 <= p < self.pairs().len() && #[trigger] self.pairs()[p].0 == _id
                    && self.pairs()[p].1 == v as nat,
            res is None ==> forall|p: int|
                0 <= p < self.pairs().len() ==> (#[trigger] self.pairs()[p]).0 != _id,
    {
        proof {
            self.lemma_root_bound();
        }
        let res = self.root.code(0, _id, Ghost(None), Ghost(None));
        proof {
            assert(self.pairs() == self.root.code_pairs(0));
            if res is Some {
                let v = res->0;
                let p = choose|p: int|
                    0 <= p < self.root.code_pairs(0nat).len() && #[trigger] self.root.code_pairs(
                        0nat,
                    )[p].0 == _id && self.root.code_pairs(0nat)[p].1 == v as nat;
                assert(0 <= p < self.pairs().len() && self.pairs()[p].0 == _id
                    && self.pairs()[p].1 == v as nat);
            }
        }
        res
    }

    /// Re-emits every leaf's order code, in symmetric order, into the
    /// record store.
    pub fn update_apl(&self, out: &mut Vec<(u64, u64)>)
        requires
            self.wf(),
        ensures
            final(out)@.len() == old(out)@.len() + self.pairs().len(),
            forall|k: int| 0 <= k < old(out)@.len() ==> final(out)@[k] == old(out)@[k],
            forall|p: int|
                0 <= p < self.pairs().len() ==> (#[trigger] final(out)@[old(out)@.len()
                    + p]).0 == self.pairs()[p].0 && final(out)@[old(out)@.len() + p].1 as nat
                    == self.pairs()[p].1,
    {
        proof {
            self.lemma_root_bound();
        }
        self.root.update_apl(0, out, Ghost(None), Ghost(None))
    }
}

} // verus!

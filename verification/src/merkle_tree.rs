use vstd::prelude::*;

use crate::circuit::{lemma_root_from_path_step, root_from_path, MerklePathAuthCircuit};
use crate::field::{u64_bit, Fe, FE_BITS};
use crate::params::{digest_of_bits, hash_leaf_bits, hash_of, rescue_compress, RescueParams,
    TREE_DEPTH};
use crate::utils::{GetBits, Leaf};

verus! {

/// The most recently inserted leaf under the given index, if any.
pub open spec fn lookup(items: Seq<(u64, Leaf)>, index: u64) -> Option<Leaf>
    decreases items.len(),
{
    if items.len() == 0 {
        None
    } else if items.last().0 == index {
        Some(items.last().1)
    } else {
        lookup(items.drop_last(), index)
    }
}

/// The digest of a subtree in which no leaf was ever inserted: at the bottom
/// the default (all-zero) leaf record, above it the compression of two equal
/// default subtrees.
pub open spec fn default_digest(level: nat) -> Seq<bool>
    decreases level,
{
    if level == 0 {
        digest_of_bits(Seq::new(FE_BITS as nat, |i: int| false))
    } else {
        hash_of(default_digest((level - 1) as nat), default_digest((level - 1) as nat))
    }
}

/// The digest of the subtree at `level` holding exactly the leaf indices
/// whose top bits equal `prefix`.
pub open spec fn subtree_digest(items: Seq<(u64, Leaf)>, level: nat, prefix: u64) -> Seq<bool>
    decreases level,
{
    if level == 0 {
        match lookup(items, prefix) {
            Some(leaf) => digest_of_bits(leaf.spec_bits()),
            None => default_digest(0),
        }
    } else {
        hash_of(
            subtree_digest(items, (level - 1) as nat, prefix << 1u64),
            subtree_digest(items, (level - 1) as nat, (prefix << 1u64) | 1u64),
        )
    }
}

/// Some leaf was inserted in the subtree at `level` with the given `prefix`.
pub open spec fn occupied(items: Seq<(u64, Leaf)>, level: u64, prefix: u64) -> bool {
    exists|j: int| 0 <= j < items.len() && (#[trigger] items[j]).0 >> level == prefix
}

/// An index that appears nowhere in the items has no leaf.
proof fn lemma_lookup_absent(items: Seq<(u64, Leaf)>, index: u64)
    requires
        forall|j: int| 0 <= j < items.len() ==> (#[trigger] items[j]).0 != index,
    ensures
        lookup(items, index) is None,
    decreases items.len(),
{
    if items.len() > 0 {
        lemma_lookup_absent(items.drop_last(), index);
    }
}

/// A found leaf was one of the items.
proof fn lemma_lookup_is_member(items: Seq<(u64, Leaf)>, index: u64)
    requires
        lookup(items, index) is Some,
    ensures
        exists|j: int| 0 <= j < items.len() && (#[trigger] items[j]).0 == index && items[j].1
            == lookup(items, index)->0,
    decreases items.len(),
{
    if items.len() > 0 && items.last().0 != index {
        lemma_lookup_is_member(items.drop_last(), index);
    }
}

/// A subtree in which no leaf was ever inserted carries the default digest.
proof fn lemma_empty_subtree(items: Seq<(u64, Leaf)>, level: u64, prefix: u64)
    requires
        level <= 63,
        !occupied(items, level, prefix),
        prefix <= u64::MAX >> level,
    ensures
        subtree_digest(items, level as nat, prefix) == default_digest(level as nat),
    decreases level,
{
    if level == 0 {
        assert forall|j: int| 0 <= j < items.len() implies (#[trigger] items[j]).0 != prefix by {
            let x = items[j].0;
            assert(x >> 0u64 == x) by (bit_vector);
        }
        lemma_lookup_absent(items, prefix);
    } else {
        let l0 = prefix << 1u64;
        let l1 = (prefix << 1u64) | 1u64;
        let lm = (level - 1) as u64;
        assert forall|j: int| 0 <= j < items.len() implies (#[trigger] items[j]).0 >> lm != l0
            && items[j].0 >> lm != l1 by {
            let x = items[j].0;
            assert(x >> level != prefix);
            assert((lm + 1 == level && level <= 63 && prefix <= u64::MAX >> level && x >> level
                != prefix) ==> (x >> lm != (prefix << 1u64) && x >> lm != ((prefix << 1u64)
                | 1u64))) by (bit_vector);
        }
        assert((lm + 1 == level && level <= 63 && prefix <= u64::MAX >> level) ==> (prefix
            << 1u64) <= u64::MAX >> lm && ((prefix << 1u64) | 1u64) <= u64::MAX >> lm)
            by (bit_vector);
        lemma_empty_subtree(items, lm, l0);
        lemma_empty_subtree(items, lm, l1);
    }
}

/// A fixed-depth sparse Merkle tree over leaf records.  Leaves are stored as
/// the history of insertions; hashes are derived on demand, with the digests
/// of never-touched subtrees precomputed once per level.
pub struct SparseMerkleTree {
    pub depth: usize,
    pub items: Vec<(u64, Leaf)>,
    pub defaults: Vec<Fe>,
}

impl SparseMerkleTree {
    pub open spec fn wf(&self) -> bool {
        &&& self.depth <= 63
        &&& self.defaults@.len() == self.depth + 1
        &&& forall|k: int| 0 <= k <= self.depth ==> (#[trigger] self.defaults@[k])@
            == default_digest(k as nat)
        &&& forall|k: int| 0 <= k <= self.depth ==> (#[trigger] self.defaults@[k]).wf()
        &&& forall|j: int| 0 <= j < self.items@.len() ==> (#[trigger] self.items@[j]).1.wf()
        &&& forall|j: int| 0 <= j < self.items@.len() ==> (#[trigger] self.items@[j]).0 >> (
        self.depth as u64) == 0
    }

    /// The leaf most recently inserted at the index, if any.
    pub open spec fn spec_get(&self, index: u64) -> Option<Leaf> {
        lookup(self.items@, index)
    }

    /// The current root digest.
    pub open spec fn spec_root(&self) -> Seq<bool> {
        subtree_digest(self.items@, self.depth as nat, 0)
    }

    /// An empty tree of the given depth.
    pub fn new(depth: usize, params: &RescueParams) -> (r: SparseMerkleTree)
        requires
            depth <= 63,
        ensures
            r.wf(),
            r.depth == depth,
            forall|q: u64| r.spec_get(q) is None,
    {
        let default_leaf = Leaf::default();
        let leaf_bits = default_leaf.get_bits_le();
        let mut defaults: Vec<Fe> = Vec::new();
        let d0 = hash_leaf_bits(params, &leaf_bits);
        proof {
            assert(default_leaf.spec_bits() =~= Seq::new(FE_BITS as nat, |i: int| false));
        }
        defaults.push(d0);
        let mut k: usize = 1;
        while k <= depth
            invariant
                1 <= k <= depth + 1,
                depth <= 63,
                defaults@.len() == k,
                forall|m: int| 0 <= m < k ==> (#[trigger] defaults@[m])@ == default_digest(m as nat),
                forall|m: int| 0 <= m < k ==> (#[trigger] defaults@[m]).wf(),
            decreases depth + 1 - k,
        {
            let prev = defaults[k - 1];
            let d = rescue_compress(params, &prev, &prev);
            defaults.push(d);
            k += 1;
        }
        let r = SparseMerkleTree { depth, items: Vec::new(), defaults };
        proof {
            assert forall|q: u64| r.spec_get(q) is None by {
                lemma_lookup_absent(r.items@, q);
            }
        }
        r
    }

    /// Record a leaf under an index, replacing whatever was there.
    pub fn insert(&mut self, index: u32, leaf: Leaf)
        requires
            old(self).wf(),
            leaf.wf(),
            (index as u64) >> (old(self).depth as u64) == 0,
        ensures
            final(self).wf(),
            final(self).depth == old(self).depth,
            final(self).spec_get(index as u64) == Some(leaf),
            forall|q: u64| q != index as u64 ==> final(self).spec_get(q) == old(self).spec_get(q),
            final(self).defaults@ == old(self).defaults@,
    {
        self.items.push(((index as u64), leaf));
        proof {
            assert forall|q: u64| q != index as u64 implies self.spec_get(q) == lookup(
                self.items@.drop_last(),
                q,
            ) by {}
            assert(self.items@.drop_last() =~= old(self).items@);
        }
    }

    /// The leaf most recently inserted at the index, if any.
    pub fn get(&self, index: u32) -> (r: Option<Leaf>)
        requires
            self.wf(),
        ensures
            r == self.spec_get(index as u64),
            r matches Some(l) ==> l.wf(),
    {
        let r = self.lookup_exec(index as u64);
        proof {
            if r is Some {
                lemma_lookup_is_member(self.items@, index as u64);
            }
        }
        r
    }

    fn lookup_exec(&self, index: u64) -> (r: Option<Leaf>)
        ensures
            r == lookup(self.items@, index),
    {
        let mut j: usize = self.items.len();
        proof {
            assert(self.items@.take(j as int) =~= self.items@);
        }
        while j > 0
            invariant
                j <= self.items@.len(),
                lookup(self.items@, index) == lookup(self.items@.take(j as int), index),
            decreases j,
        {
            j -= 1;
            if self.items[j].0 == index {
                return Some(self.items[j].1);
            }
            proof {
                assert(self.items@.take(j + 1).drop_last() =~= self.items@.take(j as int));
            }
        }
        None
    }

    /// Whether any leaf was ever inserted in the subtree at `level` whose
    /// indices share `prefix`.
    fn has_occupied(&self, level: usize, prefix: u64) -> (r: bool)
        requires
            level <= 63,
        ensures
            r == occupied(self.items@, level as u64, prefix),
    {
        let mut j: usize = 0;
        while j < self.items.len()
            invariant
                j <= self.items@.len(),
                level <= 63,
                forall|m: int| 0 <= m < j ==> (#[trigger] self.items@[m]).0 >> (level as u64)
                    != prefix,
            decreases self.items@.len() - j,
        {
            if self.items[j].0 >> (level as u64) == prefix {
                return true;
            }
            j += 1;
        }
        false
    }

    /// The digest of the subtree at `level` with the given `prefix`, derived
    /// on demand; an untouched subtree is answered from the precomputed
    /// defaults.
    fn sub_hash(&self, params: &RescueParams, level: usize, prefix: u64) -> (r: Fe)
        requires
            self.wf(),
            level <= self.depth,
            prefix <= u64::MAX >> (level as u64),
        ensures
            r@ == subtree_digest(self.items@, level as nat, prefix),
            r.wf(),
        decreases level,
    {
        if !self.has_occupied(level, prefix) {
            proof {
                lemma_empty_subtree(self.items@, level as u64, prefix);
            }
            return self.defaults[level];
        }
        if level == 0 {
            let leaf = match self.lookup_exec(prefix) {
                Some(leaf) => leaf,
                None => Leaf::default(),
            };
            proof {
                if lookup(self.items@, prefix) is Some {
                    lemma_lookup_is_member(self.items@, prefix);
                } else {
                    assert(leaf.spec_bits() =~= Seq::new(FE_BITS as nat, |i: int| false));
                }
            }
            let bits = leaf.get_bits_le();
            hash_leaf_bits(params, &bits)
        } else {
            proof {
                let level_u = level as u64;
                let lm = (level_u - 1) as u64;
                assert((lm + 1 == level_u && level_u <= 63 && prefix <= u64::MAX >> level_u) ==> (
                prefix << 1u64) <= u64::MAX >> lm && ((prefix << 1u64) | 1u64) <= u64::MAX >> lm)
                    by (bit_vector);
            }
            let left = self.sub_hash(params, level - 1, prefix << 1u64);
            let right = self.sub_hash(params, level - 1, (prefix << 1u64) | 1u64);
            rescue_compress(params, &left, &right)
        }
    }

    /// The tree's current root digest.
    pub fn root_hash(&self, params: &RescueParams) -> (r: Fe)
        requires
            self.wf(),
        ensures
            r@ == self.spec_root(),
            r.wf(),
    {
        proof {
            let d = self.depth as u64;
            assert(0u64 <= u64::MAX >> d) by (bit_vector);
        }
        self.sub_hash(params, self.depth, 0)
    }

    /// The authentication path of an index: the sibling digest at every level
    /// in leaf-to-root order.
    pub fn merkle_path(&self, index: u32, params: &RescueParams) -> (r: Vec<Fe>)
        requires
            self.wf(),
            (index as u64) >> (self.depth as u64) == 0,
        ensures
            r@.len() == self.depth,
            forall|i: int| 0 <= i < self.depth ==> (#[trigger] r@[i])@ == subtree_digest(
                self.items@,
                i as nat,
                ((index as u64) >> (i as u64)) ^ 1u64,
            ),
            forall|i: int| 0 <= i < self.depth ==> (#[trigger] r@[i]).wf(),
    {
        let idx = index as u64;
        let mut path: Vec<Fe> = Vec::new();
        let mut i: usize = 0;
        while i < self.depth
            invariant
                self.wf(),
                i <= self.depth,
                idx == index as u64,
                idx >> (self.depth as u64) == 0,
                path@.len() == i,
                forall|m: int| 0 <= m < i ==> (#[trigger] path@[m])@ == subtree_digest(
                    self.items@,
                    m as nat,
                    (idx >> (m as u64)) ^ 1u64,
                ),
                forall|m: int| 0 <= m < i ==> (#[trigger] path@[m]).wf(),
            decreases self.depth - i,
        {
            let sib_prefix = (idx >> (i as u64)) ^ 1u64;
            proof {
                let iu = i as u64;
                let du = self.depth as u64;
                assert((iu < du <= 63 && idx >> du == 0) ==> ((idx >> iu) ^ 1u64) <= u64::MAX
                    >> iu) by (bit_vector);
            }
            let sib = self.sub_hash(params, i, sib_prefix);
            path.push(sib);
            i += 1;
        }
        path
    }
}

/// Walking an authentication path from a level upward re-derives the root:
/// the running hash at each level is the digest of the subtree holding the
/// position, and combining it with the recorded sibling digest — in the order
/// the position's direction bit dictates — yields the digest one level up.
proof fn lemma_auth_path_derives_root(
    items: Seq<(u64, Leaf)>,
    depth: u64,
    position: u64,
    sibs: Seq<Seq<bool>>,
    dbits: Seq<bool>,
    k: u64,
)
    requires
        depth <= 63,
        position >> depth == 0,
        sibs.len() == depth,
        dbits.len() == depth,
        forall|i: int| 0 <= i < depth ==> sibs[i] == subtree_digest(
            items,
            i as nat,
            (position >> (i as u64)) ^ 1u64,
        ),
        forall|i: int| 0 <= i < depth ==> dbits[i] == ((position >> (i as u64)) & 1u64 == 1u64),
        k <= depth,
    ensures
        root_from_path(
            subtree_digest(items, k as nat, position >> k),
            sibs.skip(k as int),
            dbits.skip(k as int),
        ) == subtree_digest(items, depth as nat, 0),
    decreases depth - k,
{
    if k == depth {
        assert(sibs.skip(k as int).len() == 0);
    } else {
        let cur_prefix = position >> k;
        let kp = (k + 1) as u64;
        let parent = position >> kp;
        assert((kp == k + 1 && k < depth <= 63) ==> ((position >> k) & 1u64 == 1u64 ==> position
            >> k == ((position >> kp) << 1u64) | 1u64 && (position >> k) ^ 1u64 == (position
            >> kp) << 1u64)) by (bit_vector);
        assert((kp == k + 1 && k < depth <= 63) ==> ((position >> k) & 1u64 != 1u64 ==> position
            >> k == ((position >> kp) << 1u64) && (position >> k) ^ 1u64 == ((position >> kp)
            << 1u64) | 1u64)) by (bit_vector);
        lemma_root_from_path_step(
            subtree_digest(items, k as nat, cur_prefix),
            sibs,
            dbits,
            k as int,
        );
        assert(subtree_digest(items, (k + 1) as nat, parent) == hash_of(
            subtree_digest(items, k as nat, parent << 1u64),
            subtree_digest(items, k as nat, (parent << 1u64) | 1u64),
        ));
        lemma_auth_path_derives_root(items, depth, position, sibs, dbits, (k + 1) as u64);
    }
}

/// Membership yields a satisfied circuit: for any tree with a leaf present at
/// a position, the circuit built from that leaf, the position's
/// authentication path, the position itself and the tree's root is satisfied.
pub proof fn lemma_membership_satisfies_circuit(
    c: MerklePathAuthCircuit,
    items: Seq<(u64, Leaf)>,
    position: u64,
    leaf: Leaf,
)
    requires
        c.wf(),
        leaf.wf(),
        lookup(items, position) == Some(leaf),
        position >> (TREE_DEPTH as u64) == 0,
        c.leaf.id == Some(leaf.id),
        c.leaf.balance == Some(leaf.balance),
        c.position is Some,
        forall|i: int| 0 <= i < 64 ==> c.position->0@[i] == u64_bit(position, i as u64),
        forall|i: int| 64 <= i < FE_BITS ==> !c.position->0@[i],
        c.root is Some,
        c.root->0@ == subtree_digest(items, TREE_DEPTH as nat, 0),
        forall|i: int| 0 <= i < TREE_DEPTH ==> (#[trigger] c.path@[i]) == Some(c.path@[i]->0)
            && c.path@[i]->0@ == subtree_digest(
            items,
            i as nat,
            (position >> (i as u64)) ^ 1u64,
        ),
    ensures
        c.satisfied(),
{
    let pos_bits = c.position->0@;
    assert forall|i: int| (TREE_DEPTH as int) <= i < pos_bits.len() implies !pos_bits[i] by {
        if i < 64 {
            let iu = i as u64;
            assert((position >> (TREE_DEPTH as u64) == 0 && 32 <= iu < 64) ==> !((position >> iu)
                & 1u64 == 1u64)) by (bit_vector);
        }
    }
    let sibs = c.spec_siblings();
    let dbits = c.spec_direction_bits();
    assert forall|i: int| 0 <= i < TREE_DEPTH implies dbits[i] == ((position >> (i as u64)) & 1u64
        == 1u64) by {
        assert(dbits[i] == pos_bits[i]);
    }
    assert(position >> 0u64 == position) by (bit_vector);
    assert(subtree_digest(items, 0, position) == digest_of_bits(leaf.spec_bits()));
    assert(c.spec_leaf_bits() == leaf.spec_bits());
    lemma_auth_path_derives_root(items, TREE_DEPTH as u64, position, sibs, dbits, 0);
    assert(sibs.skip(0) =~= sibs);
    assert(dbits.skip(0) =~= dbits);
}

} // verus!

use vstd::prelude::*;

use crate::field::{fits, Fe};
use crate::params::{
    digest_of_bits, hash_leaf_bits, hash_of, rescue_compress, RescueParams, BALANCE_BIT_LENGTH,
    ID_BIT_LENGTH, TREE_DEPTH,
};
use crate::utils::{
    allocate_numbers_vec, get_circuit_leaf_from_witness, CircuitElement, GetBits, LeafWitness,
    SynthesisError,
};

verus! {

/// Re-derive a root from a running hash, an ordered sibling list and the
/// matching direction bits: at each level the pair is conditionally reordered
/// — sibling first when the direction bit marks the current node as the right
/// child — and compressed.
pub open spec fn root_from_path(cur: Seq<bool>, sibs: Seq<Seq<bool>>, bits: Seq<bool>) -> Seq<bool>
    decreases sibs.len(),
{
    if sibs.len() == 0 || bits.len() == 0 {
        cur
    } else {
        let next = if bits[0] {
            hash_of(sibs[0], cur)
        } else {
            hash_of(cur, sibs[0])
        };
        root_from_path(next, sibs.drop_first(), bits.drop_first())
    }
}

/// One unfolding of [`root_from_path`], phrased for a loop that walks the
/// levels from the leaf upward.
pub proof fn lemma_root_from_path_step(cur: Seq<bool>, sibs: Seq<Seq<bool>>, bits: Seq<bool>, i: int)
    requires
        0 <= i < sibs.len(),
        sibs.len() == bits.len(),
    ensures
        root_from_path(cur, sibs.skip(i), bits.skip(i)) == root_from_path(
            if bits[i] {
                hash_of(sibs[i], cur)
            } else {
                hash_of(cur, sibs[i])
            },
            sibs.skip(i + 1),
            bits.skip(i + 1),
        ),
{
    assert(sibs.skip(i).drop_first() =~= sibs.skip(i + 1));
    assert(bits.skip(i).drop_first() =~= bits.skip(i + 1));
    assert(sibs.skip(i)[0] == sibs[i]);
    assert(bits.skip(i)[0] == bits[i]);
}

/// Two distinct ordered input pairs of the compression function share one
/// output.  Collision resistance of Rescue is exactly the claim that no such
/// pair can be found.
pub open spec fn hash_collision() -> bool {
    exists|a: Seq<bool>, b: Seq<bool>, c: Seq<bool>, d: Seq<bool>|
        (a != c || b != d) && #[trigger] hash_of(a, b) == #[trigger] hash_of(c, d)
}

/// The running hash after the first `k` levels of the path walk.
pub open spec fn running_hash(cur: Seq<bool>, sibs: Seq<Seq<bool>>, bits: Seq<bool>, k: int) -> Seq<
    bool,
> {
    root_from_path(cur, sibs.take(k), bits.take(k))
}

/// The path walk splits at any level: finishing the walk equals walking the
/// remainder from the running hash.
proof fn lemma_root_from_path_split(cur: Seq<bool>, sibs: Seq<Seq<bool>>, bits: Seq<bool>, k: int)
    requires
        sibs.len() == bits.len(),
        0 <= k <= sibs.len(),
    ensures
        root_from_path(cur, sibs, bits) == root_from_path(
            running_hash(cur, sibs, bits, k),
            sibs.skip(k),
            bits.skip(k),
        ),
    decreases k,
{
    if k == 0 {
        assert(sibs.take(0).len() == 0);
        assert(sibs.skip(0) =~= sibs);
        assert(bits.skip(0) =~= bits);
    } else {
        let next = if bits[0] {
            hash_of(sibs[0], cur)
        } else {
            hash_of(cur, sibs[0])
        };
        assert(sibs.take(k)[0] == sibs[0]);
        assert(bits.take(k)[0] == bits[0]);
        assert(sibs.take(k).drop_first() =~= sibs.drop_first().take(k - 1));
        assert(bits.take(k).drop_first() =~= bits.drop_first().take(k - 1));
        lemma_root_from_path_split(next, sibs.drop_first(), bits.drop_first(), k - 1);
        assert(sibs.drop_first().skip(k - 1) =~= sibs.skip(k));
        assert(bits.drop_first().skip(k - 1) =~= bits.skip(k));
    }
}

/// Two path walks over the same direction bits that start from different
/// hashes or use different sibling lists can only meet in the same root by
/// exhibiting a compression collision.
pub proof fn lemma_divergent_chains_collide(
    cur1: Seq<bool>,
    cur2: Seq<bool>,
    sibs1: Seq<Seq<bool>>,
    sibs2: Seq<Seq<bool>>,
    bits: Seq<bool>,
)
    requires
        sibs1.len() == bits.len(),
        sibs2.len() == bits.len(),
        cur1 != cur2 || sibs1 != sibs2,
        root_from_path(cur1, sibs1, bits) == root_from_path(cur2, sibs2, bits),
    ensures
        hash_collision(),
    decreases bits.len(),
{
    if bits.len() == 0 {
        assert(sibs1 =~= sibs2);
        assert(false);
    } else {
        let next1 = if bits[0] {
            hash_of(sibs1[0], cur1)
        } else {
            hash_of(cur1, sibs1[0])
        };
        let next2 = if bits[0] {
            hash_of(sibs2[0], cur2)
        } else {
            hash_of(cur2, sibs2[0])
        };
        if cur1 == cur2 && sibs1[0] == sibs2[0] {
            if sibs1.drop_first() == sibs2.drop_first() {
                assert forall|i: int| 0 <= i < sibs1.len() implies sibs1[i] == sibs2[i] by {
                    if i > 0 {
                        assert(sibs1.drop_first()[i - 1] == sibs1[i]);
                        assert(sibs2.drop_first()[i - 1] == sibs2[i]);
                    }
                }
                assert(sibs1 =~= sibs2);
            }
            lemma_divergent_chains_collide(
                next1,
                next2,
                sibs1.drop_first(),
                sibs2.drop_first(),
                bits.drop_first(),
            );
        } else if next1 == next2 {
            if bits[0] {
                assert((sibs1[0] != sibs2[0] || cur1 != cur2) && hash_of(sibs1[0], cur1)
                    == hash_of(sibs2[0], cur2));
            } else {
                assert((cur1 != cur2 || sibs1[0] != sibs2[0]) && hash_of(cur1, sibs1[0])
                    == hash_of(cur2, sibs2[0]));
            }
        } else {
            lemma_divergent_chains_collide(
                next1,
                next2,
                sibs1.drop_first(),
                sibs2.drop_first(),
                bits.drop_first(),
            );
        }
    }
}

/// Flipping one direction bit at a level where the running hash differs from
/// the recorded sibling can only leave the derived root unchanged by
/// exhibiting a compression collision.  (At a level where the two are equal
/// the swap reorders an equal pair and the derived root genuinely stays the
/// same.)
pub proof fn lemma_flipped_direction_collides(
    cur: Seq<bool>,
    sibs: Seq<Seq<bool>>,
    bits: Seq<bool>,
    j: int,
)
    requires
        sibs.len() == bits.len(),
        0 <= j < bits.len(),
        running_hash(cur, sibs, bits, j) != sibs[j],
        root_from_path(cur, sibs, bits) == root_from_path(cur, sibs, bits.update(j, !bits[j])),
    ensures
        hash_collision(),
{
    let flipped = bits.update(j, !bits[j]);
    let r = running_hash(cur, sibs, bits, j);
    assert(bits.take(j) =~= flipped.take(j));
    lemma_root_from_path_split(cur, sibs, bits, j);
    lemma_root_from_path_split(cur, sibs, flipped, j);
    let tail_sibs = sibs.skip(j);
    let tail1 = bits.skip(j);
    let tail2 = flipped.skip(j);
    assert(tail_sibs[0] == sibs[j]);
    assert(tail1[0] == bits[j]);
    assert(tail2[0] == !bits[j]);
    let next1 = if tail1[0] {
        hash_of(sibs[j], r)
    } else {
        hash_of(r, sibs[j])
    };
    let next2 = if tail2[0] {
        hash_of(sibs[j], r)
    } else {
        hash_of(r, sibs[j])
    };
    if next1 == next2 {
        assert((r != sibs[j]) && hash_of(r, sibs[j]) == hash_of(sibs[j], r));
    } else {
        assert(tail_sibs.drop_first() =~= sibs.skip(j + 1));
        assert(tail1.drop_first() =~= bits.skip(j + 1));
        assert(tail2.drop_first() =~= flipped.skip(j + 1));
        assert(bits.skip(j + 1) =~= flipped.skip(j + 1));
        lemma_divergent_chains_collide(
            next1,
            next2,
            sibs.skip(j + 1),
            sibs.skip(j + 1),
            bits.skip(j + 1),
        );
    }
}

/// A tampered sibling list cannot stay satisfiable: two satisfied circuits
/// that agree on the leaf, the position and the declared root but disagree
/// anywhere in their authentication paths exhibit a compression collision.
pub proof fn lemma_tampered_path_collides(c1: MerklePathAuthCircuit, c2: MerklePathAuthCircuit)
    requires
        c1.wf(),
        c2.wf(),
        c1.satisfied(),
        c2.satisfied(),
        c1.spec_leaf_bits() == c2.spec_leaf_bits(),
        c1.spec_direction_bits() == c2.spec_direction_bits(),
        c1.root->0@ == c2.root->0@,
        c1.spec_siblings() != c2.spec_siblings(),
    ensures
        hash_collision(),
{
    lemma_divergent_chains_collide(
        digest_of_bits(c1.spec_leaf_bits()),
        digest_of_bits(c2.spec_leaf_bits()),
        c1.spec_siblings(),
        c2.spec_siblings(),
        c1.spec_direction_bits(),
    );
}

/// The one fixed proof statement: a leaf record, an authentication path and a
/// position re-derive the declared public root.  Witness fields are absent
/// during parameter generation and present during proving.
pub struct MerklePathAuthCircuit {
    pub root: Option<Fe>,
    pub leaf: LeafWitness,
    pub path: Vec<Option<Fe>>,
    pub position: Option<Fe>,
}

impl Clone for MerklePathAuthCircuit {
    fn clone(&self) -> (r: Self)
        ensures
            r.root == self.root,
            r.leaf == self.leaf,
            r.path@ == self.path@,
            r.position == self.position,
    {
        let mut path: Vec<Option<Fe>> = Vec::new();
        let mut i: usize = 0;
        while i < self.path.len()
            invariant
                i <= self.path@.len(),
                path@ == self.path@.take(i as int),
            decreases self.path@.len() - i,
        {
            path.push(self.path[i]);
            i += 1;
        }
        proof {
            assert(path@ =~= self.path@);
        }
        Self { root: self.root, leaf: self.leaf, path, position: self.position }
    }
}

impl MerklePathAuthCircuit {
    /// Shape invariant: the path has exactly one sibling per tree level, and
    /// every value that is present is canonical.
    pub open spec fn wf(&self) -> bool {
        &&& self.path@.len() == TREE_DEPTH
        &&& (self.root matches Some(fe) ==> fe.wf())
        &&& (self.leaf.id matches Some(fe) ==> fe.wf())
        &&& (self.leaf.balance matches Some(fe) ==> fe.wf())
        &&& (self.position matches Some(fe) ==> fe.wf())
        &&& forall|i: int| 0 <= i < self.path@.len() ==> (#[trigger] self.path@[i] matches Some(fe)
            ==> fe.wf())
    }

    /// A value required at proving time is absent.
    pub open spec fn missing_assignment(&self) -> bool {
        ||| self.root is None
        ||| self.leaf.id is None
        ||| self.leaf.balance is None
        ||| self.position is None
        ||| exists|i: int| 0 <= i < self.path@.len() && self.path@[i] is None
    }

    /// The leaf encoding: the identifier's bits then the balance's bits.
    pub open spec fn spec_leaf_bits(&self) -> Seq<bool> {
        self.leaf.id->0@.take(ID_BIT_LENGTH as int) + self.leaf.balance->0@.take(
            BALANCE_BIT_LENGTH as int,
        )
    }

    /// The witnessed sibling values, one per level, leaf-adjacent first.
    pub open spec fn spec_siblings(&self) -> Seq<Seq<bool>> {
        Seq::new(self.path@.len(), |i: int| self.path@[i]->0@)
    }

    /// The position's direction bits, least-significant first.
    pub open spec fn spec_direction_bits(&self) -> Seq<bool> {
        self.position->0@.take(TREE_DEPTH as int)
    }

    /// Whether the synthesized constraint system is satisfied by the witness:
    /// every fixed-length decomposition must recombine to its value, and the
    /// re-derived candidate root must equal the declared public root.
    pub open spec fn satisfied(&self) -> bool {
        &&& fits(self.leaf.id->0@, ID_BIT_LENGTH as int)
        &&& fits(self.leaf.balance->0@, BALANCE_BIT_LENGTH as int)
        &&& fits(self.position->0@, TREE_DEPTH as int)
        &&& root_from_path(
            digest_of_bits(self.spec_leaf_bits()),
            self.spec_siblings(),
            self.spec_direction_bits(),
        ) == self.root->0@
    }

    /// Evaluate the circuit over its witness, in native mode.  A missing
    /// required value fails the whole synthesis atomically; a well-shaped but
    /// incorrect witness is reported as an unsatisfied constraint system, not
    /// as an error.
    pub fn synthesize(&self, params: &RescueParams) -> (r: Result<bool, SynthesisError>)
        requires
            self.wf(),
        ensures
            r is Err <==> self.missing_assignment(),
            r matches Ok(sat) ==> sat == self.satisfied(),
    {
        let root = match &self.root {
            None => {
                return Err(SynthesisError::AssignmentMissing);
            },
            Some(fe) => *fe,
        };
        let leaf = get_circuit_leaf_from_witness(&self.leaf)?;
        let auth_path = allocate_numbers_vec(&self.path)?;
        let position = CircuitElement::from_fe_with_known_length(&self.position, TREE_DEPTH)?;

        let mut leaf_bits = leaf.id.get_bits_le();
        let mut balance_bits = leaf.balance.get_bits_le();
        leaf_bits.append(&mut balance_bits);
        proof {
            assert(leaf_bits@ =~= self.spec_leaf_bits());
        }

        let mut cur_hash = hash_leaf_bits(params, &leaf_bits);

        let index = position.get_bits_le();
        let ghost sibs = self.spec_siblings();
        let ghost dbits = self.spec_direction_bits();
        proof {
            assert(index@ =~= dbits);
        }
        let ghost derived = root_from_path(digest_of_bits(self.spec_leaf_bits()), sibs, dbits);
        proof {
            assert forall|j: int| 0 <= j < TREE_DEPTH implies (#[trigger] auth_path@[j]).wf() by {
                assert(self.path@[j] == Some(auth_path@[j]));
            }
            assert(sibs.skip(0) =~= sibs);
            assert(dbits.skip(0) =~= dbits);
        }

        let mut i: usize = 0;
        while i < TREE_DEPTH
            invariant
                i <= TREE_DEPTH,
                auth_path@.len() == TREE_DEPTH,
                index@.len() == TREE_DEPTH,
                sibs.len() == TREE_DEPTH,
                dbits.len() == TREE_DEPTH,
                index@ == dbits,
                forall|j: int| 0 <= j < TREE_DEPTH ==> (#[trigger] auth_path@[j]).wf(),
                forall|j: int| 0 <= j < TREE_DEPTH ==> sibs[j] == auth_path@[j]@,
                cur_hash.wf(),
                root_from_path(cur_hash@, sibs.skip(i as int), dbits.skip(i as int)) == derived,
            decreases TREE_DEPTH - i,
        {
            // The direction bit tells whether the current subtree is the
            // right child at this depth; swap the pair before compressing if
            // it is.
            let direction_bit = index[i];
            let path_element = auth_path[i];
            let next_hash = if direction_bit {
                rescue_compress(params, &path_element, &cur_hash)
            } else {
                rescue_compress(params, &cur_hash, &path_element)
            };
            proof {
                lemma_root_from_path_step(cur_hash@, sibs, dbits, i as int);
            }
            cur_hash = next_hash;
            i += 1;
        }
        let calculated_root = cur_hash;
        proof {
            assert(sibs.skip(TREE_DEPTH as int).len() == 0);
            assert(calculated_root@ == derived);
        }

        let id_ok = leaf.id.check_decomposition();
        let balance_ok = leaf.balance.check_decomposition();
        let position_ok = position.check_decomposition();
        let root_ok = calculated_root == root;
        Ok(id_ok && balance_ok && position_ok && root_ok)
    }
}

} // verus!

use vstd::prelude::*;

use crate::circuit::MerklePathAuthCircuit;
use crate::field::{fits, u64_bit, Fe, FE_BITS};
use crate::merkle_tree::{lemma_membership_satisfies_circuit, SparseMerkleTree};
use crate::params::{RescueParams, TREE_DEPTH};
use crate::utils::{Leaf, LeafWitness};

verus! {

/// Relies on `rand::random`: a fresh 64-bit value from the thread-local
/// generator.  Nothing is promised of the value.
#[verifier::external_body]
fn random_u64() -> u64 {
    rand::random::<u64>()
}

/// A tree of the configured depth holding random leaf records at the first
/// hundred indices.
pub fn generate_random_tree(params: &RescueParams) -> (r: SparseMerkleTree)
    ensures
        r.wf(),
        r.depth == TREE_DEPTH,
        forall|q: u64| q < 100 ==> r.spec_get(q) is Some,
        forall|q: u64| q >= 100 ==> r.spec_get(q) is None,
{
    let mut circuit_tree = SparseMerkleTree::new(TREE_DEPTH, params);
    let mut i: u32 = 0;
    while i < 100
        invariant
            circuit_tree.wf(),
            circuit_tree.depth == TREE_DEPTH,
            i <= 100,
            forall|q: u64| q < i ==> circuit_tree.spec_get(q) is Some,
            forall|q: u64| q >= i ==> circuit_tree.spec_get(q) is None,
        decreases 100 - i,
    {
        let id: u128 = ((random_u64() as u128) << 64u128) | (random_u64() as u128);
        let balance: u128 = ((random_u64() as u128) << 64u128) | (random_u64() as u128);

        let leaf = Leaf { id: Fe::from_u128(id), balance: Fe::from_u128(balance) };
        proof {
            let iu = i as u64;
            assert(iu <= 0xFFFFFFFFu64 ==> iu >> 32u64 == 0u64) by (bit_vector);
        }
        circuit_tree.insert(i, leaf);
        i += 1;
    }
    circuit_tree
}

/// Build a complete proving witness for one position of a freshly generated
/// random tree: the leaf stored there, its authentication path, the position
/// and the tree's root.  The resulting circuit is well-shaped, every witness
/// value is present, its position field is exactly the requested index, and
/// the constraint system it synthesizes is satisfied.
pub fn generate_witness(position: u32, params: &RescueParams) -> (r: MerklePathAuthCircuit)
    requires
        position < 100,
    ensures
        r.wf(),
        !r.missing_assignment(),
        r.satisfied(),
        r.position is Some,
        forall|i: int| 0 <= i < 64 ==> r.position->0@[i] == u64_bit(position as u64, i as u64),
        forall|i: int| 64 <= i < FE_BITS ==> !r.position->0@[i],
        fits(r.position->0@, 64),
{
    let tree = generate_random_tree(params);

    proof {
        let pu = position as u64;
        assert(pu <= 0xFFFFFFFFu64 ==> pu >> 32u64 == 0u64) by (bit_vector);
    }
    let path_values = tree.merkle_path(position, params);
    let mut path: Vec<Option<Fe>> = Vec::new();
    let mut i: usize = 0;
    while i < path_values.len()
        invariant
            i <= path_values@.len(),
            path@.len() == i,
            forall|j: int| 0 <= j < i ==> path@[j] == Some(path_values@[j]),
        decreases path_values@.len() - i,
    {
        path.push(Some(path_values[i]));
        i += 1;
    }

    let root = tree.root_hash(params);

    let leaf = match tree.get(position) {
        Some(leaf) => leaf,
        None => {
            proof {
                assert(false);
            }
            Leaf::default()
        },
    };
    let leaf_witness = LeafWitness { id: Some(leaf.id), balance: Some(leaf.balance) };

    let position_fe = Fe::from_u64(position as u64);

    let circuit = MerklePathAuthCircuit {
        root: Some(root),
        leaf: leaf_witness,
        path,
        position: Some(position_fe),
    };
    proof {
        lemma_membership_satisfies_circuit(circuit, tree.items@, position as u64, leaf);
    }
    circuit
}

} // verus!

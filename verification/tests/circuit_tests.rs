use merkle_path_auth::circuit::MerklePathAuthCircuit;
use merkle_path_auth::field::Fe;
use merkle_path_auth::merkle_tree::SparseMerkleTree;
use merkle_path_auth::params::{RescueParams, TREE_DEPTH};
use merkle_path_auth::utils::{CircuitElement, GetBits, Leaf, LeafWitness, SynthesisError};
use merkle_path_auth::witness::generate_witness;

fn demo_tree(params: &RescueParams) -> (SparseMerkleTree, Leaf) {
    let mut tree = SparseMerkleTree::new(TREE_DEPTH, params);
    let leaf = Leaf { id: Fe::from_u128(1), balance: Fe::from_u128(684) };
    tree.insert(10, leaf);
    (tree, leaf)
}

fn circuit_for(
    tree: &SparseMerkleTree,
    leaf: Leaf,
    path_of: u32,
    position: u32,
    params: &RescueParams,
) -> MerklePathAuthCircuit {
    let path: Vec<Option<Fe>> = tree
        .merkle_path(path_of, params)
        .into_iter()
        .map(Some)
        .collect();
    MerklePathAuthCircuit {
        root: Some(tree.root_hash(params)),
        leaf: LeafWitness { id: Some(leaf.id), balance: Some(leaf.balance) },
        path,
        position: Some(Fe::from_u64(position as u64)),
    }
}

#[test]
fn membership_witness_satisfies_circuit() {
    let params = RescueParams::new();
    let (tree, leaf) = demo_tree(&params);
    let circuit = circuit_for(&tree, leaf, 10, 10, &params);
    assert_eq!(circuit.synthesize(&params), Ok(true));
}

#[test]
fn wrong_position_makes_circuit_unsatisfied() {
    let params = RescueParams::new();
    let (tree, leaf) = demo_tree(&params);
    // The authentication path of index 10 with position 11 must not verify.
    let circuit = circuit_for(&tree, leaf, 10, 11, &params);
    assert_eq!(circuit.synthesize(&params), Ok(false));
}

#[test]
fn flipped_sibling_bit_makes_circuit_unsatisfied() {
    let params = RescueParams::new();
    let (tree, leaf) = demo_tree(&params);
    let mut circuit = circuit_for(&tree, leaf, 10, 10, &params);
    let mut tampered = circuit.path[3].unwrap();
    tampered.limbs[0] ^= 1;
    circuit.path[3] = Some(tampered);
    assert_eq!(circuit.synthesize(&params), Ok(false));
}

#[test]
fn flipped_direction_bit_makes_circuit_unsatisfied() {
    let params = RescueParams::new();
    let (tree, leaf) = demo_tree(&params);
    // Position 2 differs from 10 in exactly one direction bit (bit 3).
    let circuit = circuit_for(&tree, leaf, 10, 2, &params);
    assert_eq!(circuit.synthesize(&params), Ok(false));
}

#[test]
fn wrong_balance_makes_circuit_unsatisfied() {
    let params = RescueParams::new();
    let (tree, leaf) = demo_tree(&params);
    let wrong = Leaf { id: leaf.id, balance: Fe::from_u128(685) };
    let circuit = circuit_for(&tree, wrong, 10, 10, &params);
    assert_eq!(circuit.synthesize(&params), Ok(false));
}

#[test]
fn missing_root_is_an_assignment_error() {
    let params = RescueParams::new();
    let (tree, leaf) = demo_tree(&params);
    let mut circuit = circuit_for(&tree, leaf, 10, 10, &params);
    circuit.root = None;
    assert_eq!(circuit.synthesize(&params), Err(SynthesisError::AssignmentMissing));
}

#[test]
fn missing_leaf_field_is_an_assignment_error() {
    let params = RescueParams::new();
    let (tree, leaf) = demo_tree(&params);
    let mut circuit = circuit_for(&tree, leaf, 10, 10, &params);
    circuit.leaf.balance = None;
    assert_eq!(circuit.synthesize(&params), Err(SynthesisError::AssignmentMissing));
}

#[test]
fn missing_path_element_is_an_assignment_error() {
    let params = RescueParams::new();
    let (tree, leaf) = demo_tree(&params);
    let mut circuit = circuit_for(&tree, leaf, 10, 10, &params);
    circuit.path[17] = None;
    assert_eq!(circuit.synthesize(&params), Err(SynthesisError::AssignmentMissing));
}

#[test]
fn missing_position_is_an_assignment_error() {
    let params = RescueParams::new();
    let (tree, leaf) = demo_tree(&params);
    let mut circuit = circuit_for(&tree, leaf, 10, 10, &params);
    circuit.position = None;
    assert_eq!(circuit.synthesize(&params), Err(SynthesisError::AssignmentMissing));
}

#[test]
fn generated_witness_is_satisfying() {
    let params = RescueParams::new();
    let circuit = generate_witness(10, &params);
    assert_eq!(circuit.synthesize(&params), Ok(true));
}

#[test]
fn tree_get_returns_inserted_leaf() {
    let params = RescueParams::new();
    let (tree, leaf) = demo_tree(&params);
    let got = tree.get(10).expect("leaf present");
    assert!(got.id == leaf.id);
    assert!(got.balance == leaf.balance);
    assert!(tree.get(11).is_none());
}

#[test]
fn leaf_bits_concatenate_id_then_balance() {
    let leaf = Leaf { id: Fe::from_u128(1), balance: Fe::from_u128(684) };
    let bits = leaf.get_bits_le();
    assert_eq!(bits.len(), 256);
    assert!(bits[0]);
    assert!(bits[1..128].iter().all(|b| !b));
    // 684 == 0b1010101100
    for (i, expected) in [false, false, true, true, false, true, false, true, false, true]
        .iter()
        .enumerate()
    {
        assert_eq!(bits[128 + i], *expected, "balance bit {}", i);
    }
    assert!(bits[138..].iter().all(|b| !b));
}

#[test]
fn cloned_circuit_evaluates_alike() {
    let params = RescueParams::new();
    let (tree, leaf) = demo_tree(&params);
    let circuit = circuit_for(&tree, leaf, 10, 10, &params);
    let copy = circuit.clone();
    assert_eq!(copy.synthesize(&params), Ok(true));
}

#[test]
fn absent_witness_field_fails_decomposition() {
    let r = CircuitElement::from_fe_with_known_length(&None, 128);
    assert!(r.is_err());
    let r = CircuitElement::from_fe_with_known_length(&Some(Fe::from_u64(5)), 128);
    let ce = r.expect("present witness decomposes");
    assert_eq!(ce.get_bits_le().len(), 128);
}

#[test]
fn every_inserted_leaf_has_a_verifying_path() {
    let params = RescueParams::new();
    let mut tree = SparseMerkleTree::new(TREE_DEPTH, &params);
    let leaves = [
        (3u32, Leaf { id: Fe::from_u128(7), balance: Fe::from_u128(100) }),
        (10u32, Leaf { id: Fe::from_u128(1), balance: Fe::from_u128(684) }),
        (11u32, Leaf { id: Fe::from_u128(2), balance: Fe::from_u128(0) }),
    ];
    for (index, leaf) in leaves.iter() {
        tree.insert(*index, *leaf);
    }
    for (index, leaf) in leaves.iter() {
        let circuit = circuit_for(&tree, *leaf, *index, *index, &params);
        assert_eq!(circuit.synthesize(&params), Ok(true), "index {}", index);
    }
    let stranger = circuit_for(&tree, leaves[0].1, 3, 11, &params);
    assert_eq!(stranger.synthesize(&params), Ok(false));
}

#[test]
fn shallow_tree_has_short_paths() {
    let params = RescueParams::new();
    let mut tree = SparseMerkleTree::new(4, &params);
    let leaf = Leaf { id: Fe::from_u128(9), balance: Fe::from_u128(5) };
    tree.insert(13, leaf);
    let path = tree.merkle_path(13, &params);
    assert_eq!(path.len(), 4);
    let root = tree.root_hash(&params);
    assert!(root != Fe::zero());
}

#[test]
fn reinserting_replaces_the_leaf() {
    let params = RescueParams::new();
    let (mut tree, _) = demo_tree(&params);
    let newer = Leaf { id: Fe::from_u128(2), balance: Fe::from_u128(9) };
    tree.insert(10, newer);
    let got = tree.get(10).expect("leaf present");
    assert!(got.id == newer.id);
}

use poseidon_merkle::field::FieldElement;
use poseidon_merkle::merkle::{gen_zero_tree, MerkleAccumulator, MerkleError};
use poseidon_merkle::poseidon::{default_hasher, Poseidon};
use poseidon_merkle::rewards::{RewardGadgetBuilder, DEFAULT_TREE_DEPTH};

fn light_hasher() -> Poseidon {
    let standard = default_hasher();
    Poseidon {
        width: 6,
        full_rounds: 2,
        partial_rounds: 0,
        round_keys: standard.round_keys[..12].to_vec(),
        mds_matrix: standard.mds_matrix.clone(),
    }
}

#[test]
fn defaults_are_filled_in() {
    let gadget = RewardGadgetBuilder::new().build().unwrap();
    assert_eq!(DEFAULT_TREE_DEPTH, 30);
    assert_eq!(gadget.depth(), 30);
    assert_eq!(*gadget.hash_params(), default_hasher());
    assert_eq!(gadget.tree().depth(), 30);
    assert_eq!(gadget.tree().leaf_count(), 0);
    assert_eq!(gadget.tree().root(), gen_zero_tree(&default_hasher(), 30)[30]);
}

#[test]
fn choices_are_kept() {
    let h = light_hasher();
    let mut builder = RewardGadgetBuilder::new();
    builder.depth(5).hash_params(h.clone());
    let gadget = builder.build().unwrap();
    assert_eq!(gadget.depth(), 5);
    assert_eq!(*gadget.hash_params(), h);
    assert_eq!(gadget.tree().depth(), 5);
    assert_eq!(gadget.tree().root(), gen_zero_tree(&h, 5)[5]);
    assert_eq!(*gadget.tree().hasher(), h);
}

#[test]
fn chosen_tree_is_kept_as_it_is() {
    let h = light_hasher();
    let mut tree = MerkleAccumulator::new(h.clone(), 3).unwrap();
    tree.append(vec![FieldElement::from_u64(9)]).unwrap();
    let root = tree.root();
    let mut builder = RewardGadgetBuilder::new();
    builder.merkle_tree(tree).depth(7);
    let gadget = builder.build().unwrap();
    assert_eq!(gadget.depth(), 7);
    assert_eq!(gadget.tree().depth(), 3);
    assert_eq!(gadget.tree().leaf_count(), 1);
    assert_eq!(gadget.tree().root(), root);
    assert_eq!(*gadget.hash_params(), default_hasher());
}

#[test]
fn depth_without_a_tree_is_refused() {
    let mut builder = RewardGadgetBuilder::new();
    builder.depth(0).hash_params(light_hasher());
    assert_eq!(builder.build().err(), Some(MerkleError::InvalidTreeDepth));
    builder.depth(33);
    assert_eq!(builder.build().err(), Some(MerkleError::InvalidTreeDepth));
    builder.depth(32);
    assert!(builder.build().is_ok());
    let tree = MerkleAccumulator::new(light_hasher(), 2).unwrap();
    builder.depth(0).merkle_tree(tree);
    assert!(builder.build().is_ok());
}

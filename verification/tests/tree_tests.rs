use rand::rngs::StdRng;
use rand::Rng;
use rand::SeedableRng;
use sampling_tree::sampling::{Error, Index, NodeState, ShiftedIndex, Tree, UnstableNode};
use sampling_tree::sampling::{choose_child, left_child, node_state, parent, right_child};
use sampling_tree::sampling::Node;
use sampling_tree::SimpleSamplingTree;

#[test]
fn it_works() {
    let mut rng = StdRng::from_entropy();
    let n = 100;
    let range = 10000u64;
    let data: Vec<u64> = (0..n).map(|_| rng.gen_range(0..range)).collect();
    let mut sampling_tree: SimpleSamplingTree<u64> =
        SimpleSamplingTree::from_iterable(data).unwrap();
    println!("{:?}", sampling_tree);
    let sample_idx = sampling_tree.sample(&mut rng).unwrap();
    println!(
        "{:?}, {:?}",
        sample_idx,
        sampling_tree.contribution(sample_idx).unwrap()
    );
    sampling_tree.update(sample_idx, 0).unwrap();
    println!("{:?}", sampling_tree);

    println!(
        "Size of node: {}",
        std::mem::size_of::<UnstableNode<u64>>()
    );
}

#[test]
fn empty_tree_is_refused() {
    let result: Result<SimpleSamplingTree<u64>, Error> = SimpleSamplingTree::from_iterable(vec![]);
    assert!(matches!(result, Err(Error::EmptyTree)));
}

#[test]
fn concrete_scenario() {
    // Weights [1, 2, 3, 4]: 4 leaves, 3 internal slots, root total 10.
    let mut tree: SimpleSamplingTree<u64> =
        SimpleSamplingTree::from_iterable(vec![1, 2, 3, 4]).unwrap();
    assert_eq!(tree.total_contribution(), 10);
    assert_eq!(tree.contribution(Index(0)).unwrap(), 1);
    assert_eq!(tree.contribution(Index(1)).unwrap(), 2);
    assert_eq!(tree.contribution(Index(2)).unwrap(), 3);
    assert_eq!(tree.contribution(Index(3)).unwrap(), 4);
    // The three internal slots 0..2 map to no logical index; the four leaves
    // occupy slots 3..6.
    for slot in 0..3usize {
        assert!(matches!(
            tree.get_node_index(ShiftedIndex(slot)),
            Err(Error::NodeNotFound(_))
        ));
    }
    for logical in 0..4usize {
        assert_eq!(
            tree.get_shifted_node_index(Index(logical)).unwrap(),
            ShiftedIndex(logical + 3)
        );
    }
    // A root draw below the left subtree's total descends left.
    assert_eq!(choose_child(ShiftedIndex(0), 3, 0), ShiftedIndex(1));
    // After update(0, 5): that leaf reads back exactly, total reflects the change.
    tree.update(Index(0), 5).unwrap();
    assert_eq!(tree.contribution(Index(0)).unwrap(), 5);
    assert_eq!(tree.total_contribution(), 14);
}

#[test]
fn tie_breaks_right() {
    // A draw equal to the left child's contribution descends right.
    assert_eq!(choose_child(ShiftedIndex(0), 3, 3), ShiftedIndex(2));
    assert_eq!(choose_child(ShiftedIndex(0), 3, 2), ShiftedIndex(1));
    assert_eq!(choose_child(ShiftedIndex(4), 0, 0), ShiftedIndex(10));
}

#[test]
fn index_round_trip() {
    let tree: SimpleSamplingTree<u64> =
        SimpleSamplingTree::from_iterable(vec![9, 9, 9, 9, 9]).unwrap();
    for logical in 0..5usize {
        let slot = tree.get_shifted_node_index(Index(logical)).unwrap();
        assert_eq!(tree.get_node_index(slot).unwrap(), Index(logical));
    }
}

#[test]
fn out_of_range_index_is_not_found() {
    let mut tree: SimpleSamplingTree<u64> =
        SimpleSamplingTree::from_iterable(vec![1, 2, 3, 4]).unwrap();
    assert!(matches!(
        tree.contribution(Index(4)),
        Err(Error::NodeNotFound(Index(4)))
    ));
    assert!(matches!(
        tree.get_contribution(Index(100)),
        Err(Error::NodeNotFound(Index(100)))
    ));
    assert!(matches!(
        tree.update(Index(4), 7),
        Err(Error::NodeNotFound(Index(4)))
    ));
    assert!(matches!(
        tree.get_shifted_node_index(Index(17)),
        Err(Error::NodeNotFound(Index(17)))
    ));
    // An untouched tree still sums correctly after the refused calls.
    assert_eq!(tree.total_contribution(), 10);
}

#[test]
fn single_leaf_always_sampled() {
    let tree: SimpleSamplingTree<u64> = SimpleSamplingTree::from_iterable(vec![7]).unwrap();
    let mut rng = StdRng::seed_from_u64(11);
    for _ in 0..32 {
        assert_eq!(tree.sample(&mut rng).unwrap(), Index(0));
    }
    assert_eq!(tree.contribution(Index(0)).unwrap(), 7);
    assert_eq!(tree.total_contribution(), 7);
}

#[test]
fn zero_weight_leaf_is_never_sampled() {
    let tree: SimpleSamplingTree<u64> =
        SimpleSamplingTree::from_iterable(vec![5, 0, 5, 0]).unwrap();
    let mut rng = StdRng::seed_from_u64(3);
    for _ in 0..500 {
        let idx = tree.sample(&mut rng).unwrap();
        assert!(idx == Index(0) || idx == Index(2));
    }
}

#[test]
fn update_keeps_sum_invariant() {
    let mut tree: SimpleSamplingTree<u64> =
        SimpleSamplingTree::from_iterable(vec![5, 5, 5, 5, 5]).unwrap();
    assert_eq!(tree.total_contribution(), 25);
    tree.update(Index(2), 10).unwrap();
    assert_eq!(tree.contribution(Index(2)).unwrap(), 10);
    assert_eq!(tree.total_contribution(), 30);
    // The other leaves are untouched.
    for logical in [0usize, 1, 3, 4] {
        assert_eq!(tree.contribution(Index(logical)).unwrap(), 5);
    }
    tree.update(Index(0), 0).unwrap();
    tree.update(Index(4), 1).unwrap();
    assert_eq!(tree.total_contribution(), 21);
    // An update to the current value changes nothing.
    tree.update(Index(1), 5).unwrap();
    assert_eq!(tree.total_contribution(), 21);
    let sum: u64 = (0..5)
        .map(|logical| tree.contribution(Index(logical)).unwrap())
        .sum();
    assert_eq!(sum, tree.total_contribution());
}

#[test]
fn sampling_frequency_follows_weights() {
    let tree: SimpleSamplingTree<u64> =
        SimpleSamplingTree::from_iterable(vec![1, 2, 3, 4]).unwrap();
    let mut rng = StdRng::seed_from_u64(42);
    let trials = 10000usize;
    let mut counts = [0i64; 4];
    for _ in 0..trials {
        let idx = tree.sample(&mut rng).unwrap();
        counts[idx.0] += 1;
    }
    let expected = [1000i64, 2000, 3000, 4000];
    for k in 0..4 {
        assert!(
            (counts[k] - expected[k]).abs() < 300,
            "leaf {} drawn {} times, expected about {}",
            k,
            counts[k],
            expected[k]
        );
    }
}

#[test]
fn addressing_layer() {
    assert_eq!(left_child(ShiftedIndex(0)), ShiftedIndex(1));
    assert_eq!(right_child(ShiftedIndex(0)), ShiftedIndex(2));
    assert_eq!(left_child(ShiftedIndex(2)), ShiftedIndex(5));
    assert_eq!(parent(ShiftedIndex(5)).unwrap(), ShiftedIndex(2));
    assert_eq!(parent(ShiftedIndex(6)).unwrap(), ShiftedIndex(2));
    assert!(matches!(
        parent(ShiftedIndex(0)),
        Err(Error::NodeHasNoParent(ShiftedIndex(0)))
    ));
    // A storage of 7 slots: slots 0..2 internal, slots 3..6 leaves.
    for slot in 0..3usize {
        assert!(node_state(ShiftedIndex(slot), 7) == NodeState::Internal);
    }
    for slot in 3..7usize {
        assert!(node_state(ShiftedIndex(slot), 7) == NodeState::Leaf);
    }
    // A single-slot storage holds one leaf.
    assert!(node_state(ShiftedIndex(0), 1) == NodeState::Leaf);
}

#[test]
fn generic_tree_type_is_usable() {
    // The container is spelled over the node strategy; the alias pins it.
    let tree: Tree<UnstableNode<u64>> = Tree::from_iterable(vec![2, 2]).unwrap();
    assert_eq!(tree.total_contribution(), 4);
}

#[test]
fn internal_slot_cannot_be_updated_directly() {
    // A raw three-slot storage: slot 0 internal, slots 1 and 2 leaves.
    let mut storage: Vec<UnstableNode<u64>> = vec![
        UnstableNode::new(3),
        UnstableNode::new(1),
        UnstableNode::new(2),
    ];
    let result = <UnstableNode<u64> as Node>::update(&mut storage, ShiftedIndex(0), 5);
    assert!(matches!(
        result,
        Err(Error::CannotDirectlyUpdateInternalNode(ShiftedIndex(0)))
    ));
    // The leaves are untouched and can still be updated.
    let result = <UnstableNode<u64> as Node>::update(&mut storage, ShiftedIndex(1), 5);
    assert!(result.is_ok());
    assert_eq!(storage[0].contribution(), 7);
    assert_eq!(storage[1].contribution(), 5);
    assert_eq!(storage[2].contribution(), 2);
}

#[test]
fn sampling_empty_storage_fails() {
    let storage: Vec<UnstableNode<u64>> = vec![];
    let mut rng = StdRng::seed_from_u64(0);
    let result = <UnstableNode<u64> as Node>::sample(&storage, &mut rng);
    assert!(matches!(result, Err(Error::EmptyTree)));
}

#[test]
fn index_newtypes_convert_from_usize() {
    let index: Index = 4usize.into();
    assert_eq!(index, Index(4));
    let shifted: ShiftedIndex = 9usize.into();
    assert_eq!(shifted, ShiftedIndex(9));
}

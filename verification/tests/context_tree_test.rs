use ai::bitstring::{Bit, Bitstring};
use ai::context_tree::{ContextTree, Node, Operation, Predictor, PredictorError};

#[test]
fn context_tree_test_size() {
    let tree = ContextTree::create(3);
    assert_eq!(15, tree.size()); // 2^(n+1) - 1.
}

#[test]
fn empty_size() {
    let tree = ContextTree::create(0);
    assert_eq!(1, tree.size());
}

#[test]
fn revert_restores_size() {
    let mut tree = ContextTree::create(7);
    tree.update(&Bitstring::create_from_string("0100101001010000").unwrap());
    tree.revert_to_history_size(5).unwrap();
    assert_eq!(5, tree.history_size());
}

#[test]
fn noop_revert_is_valid() {
    let mut tree = ContextTree::create(3);
    tree.update(&Bitstring::create_from_string("00010").unwrap());
    let history_size = tree.history_size();
    tree.revert_to_history_size(history_size).unwrap(); // Shouldn't crash.
}

#[test]
#[should_panic]
fn invalid_revert() {
    let mut tree = ContextTree::create(0);
    assert_eq!(0, tree.history_size());

    // Attempt to revert to something greater than the history size.
    tree.revert_to_history_size(17).unwrap();
}

#[test]
fn invalid_revert_changes_nothing() {
    let mut tree = ContextTree::create(2);
    tree.update(&Bitstring::create_from_string("0110").unwrap());
    assert_eq!(
        Err(PredictorError::InvalidRevertTarget),
        tree.revert_to_history_size(5)
    );
    assert_eq!(4, tree.history_size());
    assert_eq!(counts(&tree), counts_after("0110", 2));
}

/// The counts of every node, root first, zero child before one child.
fn counts(tree: &ContextTree) -> Vec<(u64, u64)> {
    let mut all = Vec::new();
    collect(tree.root(), &mut all);
    all
}

fn collect(node: &Node, all: &mut Vec<(u64, u64)>) {
    all.push((node.zeroes(), node.ones()));
    if let Some(child) = node.zero_child() {
        collect(child, all);
    }
    if let Some(child) = node.one_child() {
        collect(child, all);
    }
}

fn counts_after(history: &str, depth: usize) -> Vec<(u64, u64)> {
    let mut tree = ContextTree::create(depth);
    tree.update(&Bitstring::create_from_string(history).unwrap());
    counts(&tree)
}

#[test]
fn sizes_are_powers_of_two_less_one() {
    let mut expected = 1;
    for depth in 0..12 {
        assert_eq!(expected, ContextTree::create(depth).size());
        assert_eq!(depth, ContextTree::create(depth).depth());
        expected = 2 * expected + 1;
    }
}

#[test]
fn warm_up_bits_are_not_counted() {
    // With depth 3 the first three bits have no full context.
    assert_eq!(vec![(0, 0); 15], counts_after("101", 3));
    assert_eq!(vec![(0, 0); 15], counts_after("", 3));
}

#[test]
fn depth_zero_counts_every_bit() {
    assert_eq!(vec![(2, 3)], counts_after("10110", 0));
}

#[test]
fn counts_follow_the_context() {
    // Depth 1, history 0 1 1 0: the bits after the first are 1 (after 0),
    // 1 (after 1), 0 (after 1).
    // Root: one zero, two ones. Zero child (context 0): a one.
    // One child (context 1): a one and a zero.
    assert_eq!(vec![(1, 2), (0, 1), (1, 1)], counts_after("0110", 1));
}

#[test]
fn counts_follow_two_bits_of_context() {
    // Depth 2, history 1 0 1 1 0 1: counted are the bits from the third on:
    //   1 after (0, 1)   nearest bit 0, then 1
    //   1 after (1, 0)   nearest bit 1, then 0
    //   0 after (1, 1)
    //   1 after (0, 1)
    let expected = vec![
        (1, 3), // root
        (0, 2), // nearest 0
        (0, 0), // nearest 0, then 0
        (0, 2), // nearest 0, then 1
        (1, 1), // nearest 1
        (0, 1), // nearest 1, then 0
        (1, 0), // nearest 1, then 1
    ];
    assert_eq!(expected, counts_after("101101", 2));
}

#[test]
fn update_in_pieces_is_update_at_once() {
    let mut tree = ContextTree::create(3);
    tree.update(&Bitstring::create_from_string("10011").unwrap());
    tree.update(&Bitstring::create_empty());
    tree.update(&Bitstring::create_from_string("110").unwrap());
    assert_eq!(8, tree.history_size());
    assert_eq!(counts_after("10011110", 3), counts(&tree));
}

#[test]
fn revert_restores_state() {
    // Setup a tree with some arbitrary history which is long enough.
    let mut tree = ContextTree::create(7);
    tree.update(&Bitstring::create_from_string("01001010001001111").unwrap());
    let initial_size = tree.history_size();
    let initial_counts = counts(&tree);

    // Update the tree with some more history, then revert.
    tree.update(&Bitstring::create_from_string("01010010100").unwrap());
    assert_ne!(initial_counts, counts(&tree));
    tree.revert_to_history_size(initial_size).unwrap();

    // The counts and the size after reverting are the same as before.
    assert_eq!(initial_size, tree.history_size());
    assert_eq!(initial_counts, counts(&tree));
}

#[test]
fn revert_into_the_warm_up() {
    let mut tree = ContextTree::create(3);
    tree.update(&Bitstring::create_from_string("0110100").unwrap());
    tree.revert_to_history_size(2).unwrap();
    assert_eq!(2, tree.history_size());
    assert_eq!(vec![(0, 0); 15], counts(&tree));
    tree.revert_to_history_size(0).unwrap();
    assert_eq!(0, tree.history_size());
}

#[test]
fn node_operations() {
    let mut node = Node::create_root(1, 0);
    assert!(!node.is_leaf());
    assert_eq!(3, node.size());
    node.update(Bit::One);
    node.update(Bit::One);
    node.update(Bit::Zero);
    assert_eq!((1, 2), (node.zeroes(), node.ones()));
    node.revert(Bit::One);
    assert_eq!((1, 1), (node.zeroes(), node.ones()));
    assert!(node.zero_child().unwrap().is_leaf());
    assert!(Node::create_root(4, 4).is_leaf());
}

#[test]
fn execute_walks_the_context() {
    // A tree of depth one that has seen a zero, which is warm-up.
    let mut node = Node::create_root(1, 0);
    let mut history = Bitstring::create_from_string("0").unwrap();

    // A one after the context 0.
    node.execute(Operation::Apply(Bit::One), &history, 0);
    history.push(Bit::One);
    assert_eq!((0, 1), (node.zeroes(), node.ones()));
    assert_eq!(1, node.zero_child().unwrap().ones());
    assert_eq!(0, node.one_child().unwrap().ones());

    // A zero after the context 1, and back.
    node.execute(Operation::Apply(Bit::Zero), &history, 0);
    assert_eq!((1, 1), (node.zeroes(), node.ones()));
    assert_eq!(1, node.one_child().unwrap().zeroes());
    assert_eq!(0, node.zero_child().unwrap().zeroes());
    node.execute(Operation::Undo(Bit::Zero), &history, 0);
    assert_eq!((0, 1), (node.zeroes(), node.ones()));
    assert_eq!(0, node.one_child().unwrap().zeroes());
    assert_eq!(1, node.zero_child().unwrap().ones());
}

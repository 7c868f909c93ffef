use insolence::shuffler::{collect_leaves, is_sequence_container, rebuild, shuffle};
use insolence::stream::DrawStream;
use insolence::tree::{nodes_same_shape, Key, Node, Value};

fn word(s: &str) -> Key {
    Key::Word(s.to_string())
}

fn num_leaf(n: i64) -> Node {
    Node::Leaf(Value::Num(n))
}

/// The tree `{a: 1, b: {c: 2, d: 3}}`, in insertion order a, b then c, d.
fn example_tree() -> Node {
    Node::Table(vec![
        (word("a"), num_leaf(1)),
        (
            word("b"),
            Node::Table(vec![(word("c"), num_leaf(2)), (word("d"), num_leaf(3))]),
        ),
    ])
}

fn sorted_leaves(n: &Node) -> Vec<Value> {
    let mut vals = collect_leaves(n);
    vals.sort();
    vals
}

#[test]
fn collects_leaves_in_traversal_order() {
    let tree = example_tree();
    let vals = collect_leaves(&tree);
    assert_eq!(vals, vec![Value::Num(1), Value::Num(2), Value::Num(3)]);
}

#[test]
fn rebuild_deals_permuted_values_in_order() {
    // Pool [3, 1, 2] dealt over {a: 1, b: {c: 2, d: 3}} gives
    // {a: 3, b: {c: 1, d: 2}}.
    let tree = example_tree();
    let pool = vec![Value::Num(3), Value::Num(1), Value::Num(2)];
    let rebuilt = rebuild(tree, &pool);
    let expected = Node::Table(vec![
        (word("a"), num_leaf(3)),
        (
            word("b"),
            Node::Table(vec![(word("c"), num_leaf(1)), (word("d"), num_leaf(2))]),
        ),
    ]);
    assert_eq!(rebuilt, expected);
}

#[test]
fn cursor_threads_across_sibling_subtrees() {
    // One cursor runs through the whole reconstruction: the pool [2, 1]
    // dealt over {a: {b: 1}, c: {d: 2}} moves a value from one subtree into
    // the other.
    let tree = Node::Table(vec![
        (word("a"), Node::Table(vec![(word("b"), num_leaf(1))])),
        (word("c"), Node::Table(vec![(word("d"), num_leaf(2))])),
    ]);
    let pool = vec![Value::Num(2), Value::Num(1)];
    let rebuilt = rebuild(tree, &pool);
    let expected = Node::Table(vec![
        (word("a"), Node::Table(vec![(word("b"), num_leaf(2))])),
        (word("c"), Node::Table(vec![(word("d"), num_leaf(1))])),
    ]);
    assert_eq!(rebuilt, expected);
}

#[test]
fn shuffle_preserves_shape() {
    let mut src = DrawStream::from_seed(7, 16);
    let shuffled = shuffle(example_tree(), &mut src);
    assert!(nodes_same_shape(&shuffled, &example_tree()));
}

#[test]
fn shuffle_conserves_leaf_multiset() {
    let mut src = DrawStream::from_seed(99, 16);
    let shuffled = shuffle(example_tree(), &mut src);
    assert_eq!(sorted_leaves(&shuffled), sorted_leaves(&example_tree()));
}

#[test]
fn shuffle_twice_keeps_shape_and_can_move_values() {
    // Draws [1, 0] swap positions (2, 1) and then (1, 0): [1, 2, 3] becomes
    // [3, 1, 2], so one pass already moves every value; the second pass keeps
    // the shape either way.
    let mut src = DrawStream::new(vec![1, 0]);
    let once = shuffle(example_tree(), &mut src);
    assert_eq!(
        collect_leaves(&once),
        vec![Value::Num(3), Value::Num(1), Value::Num(2)]
    );
    let mut src2 = DrawStream::new(vec![1, 0]);
    let twice = shuffle(once, &mut src2);
    assert!(nodes_same_shape(&twice, &example_tree()));
    assert_eq!(sorted_leaves(&twice), sorted_leaves(&example_tree()));
}

#[test]
fn shuffle_returns_same_result_for_same_stream() {
    let mut a = DrawStream::from_seed(5, 32);
    let mut b = DrawStream::from_seed(5, 32);
    let ra = shuffle(example_tree(), &mut a);
    let rb = shuffle(example_tree(), &mut b);
    assert_eq!(ra, rb);
}

#[test]
fn bare_leaf_passes_through_unchanged() {
    let mut src = DrawStream::new(vec![1, 2, 3]);
    let r = shuffle(num_leaf(7), &mut src);
    assert_eq!(r, num_leaf(7));
    assert_eq!(src.position(), 0);
}

#[test]
fn empty_tree_keeps_its_empty_shape() {
    let mut src = DrawStream::new(vec![4, 4]);
    let r = shuffle(Node::Table(vec![]), &mut src);
    assert_eq!(r, Node::Table(vec![]));
}

#[test]
fn single_leaf_tree_is_fixed_by_any_stream() {
    let mut src = DrawStream::new(vec![9, 8, 7]);
    let r = shuffle(Node::Table(vec![(word("only"), num_leaf(42))]), &mut src);
    assert_eq!(r, Node::Table(vec![(word("only"), num_leaf(42))]));
}

#[test]
fn rebuild_marks_positions_past_the_pool() {
    // Two leaf positions, a pool of one: the cursor overruns and the second
    // position receives the explicit "no value" marker.
    let tree = Node::Table(vec![(word("a"), num_leaf(1)), (word("b"), num_leaf(2))]);
    let pool = vec![Value::Num(9)];
    let rebuilt = rebuild(tree, &pool);
    let expected = Node::Table(vec![
        (word("a"), Node::Leaf(Value::Num(9))),
        (word("b"), Node::Leaf(Value::Nil)),
    ]);
    assert_eq!(rebuilt, expected);
}

#[test]
fn rebuild_passes_scalar_through_for_non_sequence_top_level() {
    // A top level that the sequence policy reads as empty, with pool values
    // left unconsumed: the next unconsumed value is returned bare.
    let tree = Node::Table(vec![(word("a"), Node::Table(vec![]))]);
    let pool = vec![Value::Num(9)];
    let rebuilt = rebuild(tree, &pool);
    assert_eq!(rebuilt, Node::Leaf(Value::Num(9)));
}

#[test]
fn rebuild_keeps_sequence_top_level_despite_unconsumed_pool() {
    let tree = Node::Table(vec![(Key::Num(1), Node::Table(vec![]))]);
    let pool = vec![Value::Num(9)];
    let rebuilt = rebuild(tree, &pool);
    assert_eq!(rebuilt, Node::Table(vec![(Key::Num(1), Node::Table(vec![]))]));
}

#[test]
fn sequence_policy_reads_leading_numeric_key() {
    assert!(is_sequence_container(&Node::Table(vec![(
        Key::Num(1),
        num_leaf(5)
    )])));
    assert!(!is_sequence_container(&Node::Table(vec![(
        Key::Num(2),
        num_leaf(5)
    )])));
    assert!(!is_sequence_container(&Node::Table(vec![(
        word("a"),
        num_leaf(5)
    )])));
    assert!(!is_sequence_container(&Node::Table(vec![])));
    assert!(!is_sequence_container(&num_leaf(5)));
}

#[test]
fn shuffle_of_numeric_sequence_tree() {
    // A sequence-shaped tree [10, 20, 30] keyed 1, 2, 3 shuffles like any
    // other container: shape kept, values conserved.
    let tree = Node::Table(vec![
        (Key::Num(1), num_leaf(10)),
        (Key::Num(2), num_leaf(20)),
        (Key::Num(3), num_leaf(30)),
    ]);
    let fresh = || {
        Node::Table(vec![
            (Key::Num(1), num_leaf(10)),
            (Key::Num(2), num_leaf(20)),
            (Key::Num(3), num_leaf(30)),
        ])
    };
    let mut src = DrawStream::from_seed(3, 8);
    let r = shuffle(tree, &mut src);
    assert!(nodes_same_shape(&r, &fresh()));
    assert_eq!(sorted_leaves(&r), sorted_leaves(&fresh()));
}

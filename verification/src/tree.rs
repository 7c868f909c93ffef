//! The nested value tree: an arbitrarily nested, keyed structure whose leaf
//! values the shuffler redistributes.
//!
//! A [`Node`] is a [`Value`] leaf or a container of key/child entries. A
//! container keeps its entries in insertion order, which serves as the one
//! consistent iteration order for collection and reconstruction; keys are
//! unique within a container. The shape of a tree — nesting structure and keys
//! at every level, leaf values ignored — is captured by [`same_shape`], and the
//! leaf values in traversal order by [`leaves`].

use vstd::prelude::*;

verus! {

/// A leaf value: a number, or the explicit "no value" marker used when the
/// reconstruction cursor runs past the value pool.
#[derive(Clone, Copy, PartialEq, Eq, Structural, Debug, PartialOrd, Ord)]
pub enum Value {
    Nil,
    Num(i64),
}

/// A container key: a number or a word.
#[derive(Debug, PartialEq)]
pub enum Key {
    Num(i64),
    Word(String),
}

/// A tree node: a leaf holding a value, or a container holding an ordered
/// list of key/child entries.
#[derive(Debug, PartialEq)]
pub enum Node {
    Leaf(Value),
    Table(Vec<(Key, Node)>),
}

/// Two keys denote the same position: equal numbers, or words with equal text.
pub open spec fn key_matches(a: Key, b: Key) -> bool {
    match (a, b) {
        (Key::Num(x), Key::Num(y)) => x == y,
        (Key::Word(s), Key::Word(t)) => s@ == t@,
        _ => false,
    }
}

/// The leaf values of a tree, in traversal order: depth first, entries in
/// container order, containers contributing nothing of their own.
pub open spec fn leaves(n: Node) -> Seq<Value>
    decreases n, 1int,
{
    match n {
        Node::Leaf(v) => seq![v],
        Node::Table(es) => entries_leaves(es@),
    }
}

/// The leaf values under a list of entries, in order.
pub open spec fn entries_leaves(es: Seq<(Key, Node)>) -> Seq<Value>
    decreases es, 0int,
{
    if es.len() == 0 {
        Seq::empty()
    } else {
        leaves(es[0].1) + entries_leaves(es.drop_first())
    }
}

/// The number of leaves of a tree.
pub open spec fn count(n: Node) -> nat {
    leaves(n).len()
}

/// Shape equality: leaf values are ignored; containers must agree on length,
/// keys and the shape of every child, position by position.
pub open spec fn same_shape(a: Node, b: Node) -> bool
    decreases a,
{
    match (a, b) {
        (Node::Leaf(_), Node::Leaf(_)) => true,
        (Node::Table(x), Node::Table(y)) => {
            &&& x@.len() == y@.len()
            &&& (forall|i: int|
                0 <= i < x@.len() ==> key_matches(#[trigger] x@[i].0, y@[i].0) && same_shape(
                    x@[i].1,
                    y@[i].1,
                ))
        },
        _ => false,
    }
}

/// Shape equality of two entry lists, position by position.
pub open spec fn entries_same_shape(x: Seq<(Key, Node)>, y: Seq<(Key, Node)>) -> bool {
    &&& x.len() == y.len()
    &&& (forall|i: int|
        0 <= i < x.len() ==> key_matches(#[trigger] x[i].0, y[i].0) && same_shape(x[i].1, y[i].1))
}

/// Well-formedness of the data model: within every container the keys are
/// unique. The order of entries is otherwise unconstrained.
pub open spec fn wf_node(n: Node) -> bool
    decreases n,
{
    match n {
        Node::Leaf(_) => true,
        Node::Table(es) => {
            &&& (forall|i: int, j: int|
                0 <= i < j < es@.len() ==> !key_matches(#[trigger] es@[i].0, #[trigger] es@[j].0))
            &&& (forall|i: int| 0 <= i < es@.len() ==> wf_node(#[trigger] es@[i].1))
        },
    }
}

/// Key agreement is reflexive.
pub proof fn lemma_key_matches_refl(k: Key)
    ensures
        key_matches(k, k),
{
}

/// Every tree has its own shape.
pub proof fn lemma_same_shape_refl(a: Node)
    ensures
        same_shape(a, a),
    decreases a,
{
    match a {
        Node::Leaf(_) => {}
        Node::Table(x) => {
            assert forall|i: int|
                0 <= i < x@.len() implies key_matches(#[trigger] x@[i].0, x@[i].0) && same_shape(
                x@[i].1,
                x@[i].1,
            ) by {
                lemma_same_shape_refl(x@[i].1);
            }
        }
    }
}

/// Shape preservation composes: a tree shaped like a second, which is shaped
/// like a third, is shaped like the third. In particular a shuffle of a
/// shuffled tree still has the shape of the original tree.
pub proof fn lemma_same_shape_trans(a: Node, b: Node, c: Node)
    requires
        same_shape(a, b),
        same_shape(b, c),
    ensures
        same_shape(a, c),
    decreases a,
{
    match (a, b, c) {
        (Node::Table(x), Node::Table(y), Node::Table(z)) => {
            assert forall|i: int|
                0 <= i < x@.len() implies key_matches(#[trigger] x@[i].0, z@[i].0) && same_shape(
                x@[i].1,
                z@[i].1,
            ) by {
                assert(key_matches(x@[i].0, y@[i].0));
                assert(same_shape(x@[i].1, y@[i].1));
                assert(key_matches(y@[i].0, z@[i].0));
                assert(same_shape(y@[i].1, z@[i].1));
                lemma_same_shape_trans(x@[i].1, y@[i].1, z@[i].1);
            }
        }
        _ => {}
    }
}

/// Shape equality is symmetric.
pub proof fn lemma_same_shape_sym(a: Node, b: Node)
    requires
        same_shape(a, b),
    ensures
        same_shape(b, a),
    decreases a,
{
    match (a, b) {
        (Node::Table(x), Node::Table(y)) => {
            assert forall|i: int|
                0 <= i < y@.len() implies key_matches(#[trigger] y@[i].0, x@[i].0) && same_shape(
                y@[i].1,
                x@[i].1,
            ) by {
                assert(key_matches(x@[i].0, y@[i].0));
                assert(same_shape(x@[i].1, y@[i].1));
                lemma_same_shape_sym(x@[i].1, y@[i].1);
            }
        }
        _ => {}
    }
}

/// Trees of the same shape have the same number of leaves.
pub proof fn lemma_same_shape_same_count(a: Node, b: Node)
    requires
        same_shape(a, b),
    ensures
        count(a) == count(b),
    decreases a, 1int,
{
    match (a, b) {
        (Node::Table(x), Node::Table(y)) => {
            lemma_entries_same_shape_same_count(x@, y@);
        }
        _ => {}
    }
}

/// Entry lists of the same shape hold the same number of leaves.
pub proof fn lemma_entries_same_shape_same_count(x: Seq<(Key, Node)>, y: Seq<(Key, Node)>)
    requires
        entries_same_shape(x, y),
    ensures
        entries_leaves(x).len() == entries_leaves(y).len(),
    decreases x, 0int,
{
    if x.len() > 0 {
        let xd = x.drop_first();
        let yd = y.drop_first();
        assert(key_matches(x[0].0, y[0].0));
        assert(same_shape(x[0].1, y[0].1));
        lemma_same_shape_same_count(x[0].1, y[0].1);
        assert forall|i: int|
            0 <= i < xd.len() implies key_matches(#[trigger] xd[i].0, yd[i].0) && same_shape(
            xd[i].1,
            yd[i].1,
        ) by {
            assert(xd[i] == x[i + 1]);
            assert(yd[i] == y[i + 1]);
            assert(key_matches(x[i + 1].0, y[i + 1].0));
            assert(same_shape(x[i + 1].1, y[i + 1].1));
        }
        lemma_entries_same_shape_same_count(xd, yd);
    }
}

/// Appending an entry appends its leaves: the leaf values under a grown
/// entry list are the old leaves followed by the new entry's leaves.
pub proof fn lemma_entries_leaves_push(es: Seq<(Key, Node)>, e: (Key, Node))
    ensures
        entries_leaves(es.push(e)) == entries_leaves(es) + leaves(e.1),
    decreases es.len(),
{
    if es.len() == 0 {
        assert(es.push(e)[0] == e);
        assert(es.push(e).drop_first() =~= Seq::<(Key, Node)>::empty());
        assert(leaves(e.1) + entries_leaves(Seq::<(Key, Node)>::empty()) =~= leaves(e.1));
        assert(entries_leaves(es) + leaves(e.1) =~= leaves(e.1));
    } else {
        assert(es.push(e)[0] == es[0]);
        assert(es.push(e).drop_first() =~= es.drop_first().push(e));
        lemma_entries_leaves_push(es.drop_first(), e);
        assert(entries_leaves(es.push(e)) == leaves(es[0].1) + (entries_leaves(es.drop_first())
            + leaves(e.1)));
        assert(leaves(es[0].1) + (entries_leaves(es.drop_first()) + leaves(e.1)) =~= (leaves(
            es[0].1,
        ) + entries_leaves(es.drop_first())) + leaves(e.1));
    }
}

/// A tree shaped like a well-formed tree is well formed: shape equality
/// carries the keys over, so key uniqueness carries over with them.
pub proof fn lemma_same_shape_preserves_wf(a: Node, b: Node)
    requires
        wf_node(a),
        same_shape(a, b),
    ensures
        wf_node(b),
    decreases a,
{
    match (a, b) {
        (Node::Table(x), Node::Table(y)) => {
            assert forall|i: int, j: int|
                0 <= i < j < y@.len() implies !key_matches(
                #[trigger] y@[i].0,
                #[trigger] y@[j].0,
            ) by {
                assert(key_matches(x@[i].0, y@[i].0));
                assert(key_matches(x@[j].0, y@[j].0));
                assert(!key_matches(x@[i].0, x@[j].0));
            }
            assert forall|i: int| 0 <= i < y@.len() implies wf_node(#[trigger] y@[i].1) by {
                assert(key_matches(x@[i].0, y@[i].0));
                assert(same_shape(x@[i].1, y@[i].1));
                assert(wf_node(x@[i].1));
                lemma_same_shape_preserves_wf(x@[i].1, y@[i].1);
            }
        }
        _ => {}
    }
}

/// Exec mirror of [`key_matches`].
pub fn keys_match(a: &Key, b: &Key) -> (r: bool)
    ensures
        r == key_matches(*a, *b),
{
    match (a, b) {
        (Key::Num(x), Key::Num(y)) => *x == *y,
        (Key::Word(s), Key::Word(t)) => *s == *t,
        _ => false,
    }
}

/// Exec mirror of [`same_shape`], for callers that want to check shapes at
/// run time.
#[verifier::loop_isolation(false)]
pub fn nodes_same_shape(a: &Node, b: &Node) -> (r: bool)
    ensures
        r == same_shape(*a, *b),
    decreases *a,
{
    match a {
        Node::Leaf(_) => match b {
            Node::Leaf(_) => true,
            Node::Table(_) => false,
        },
        Node::Table(x) => {
            let y = match b {
                Node::Table(y) => y,
                Node::Leaf(_) => {
                    return false;
                }
            };
            if x.len() != y.len() {
                return false;
            }
            let mut k: usize = 0;
            while k < x.len()
                invariant
                    k <= x@.len(),
                    forall|i: int| 0 <= i < k ==> key_matches(#[trigger] x@[i].0, y@[i].0),
                    forall|i: int| 0 <= i < k ==> same_shape(#[trigger] x@[i].1, y@[i].1),
                decreases x@.len() - k,
            {
                if !keys_match(&x[k].0, &y[k].0) {
                    return false;
                }
                if !nodes_same_shape(&x[k].1, &y[k].1) {
                    return false;
                }
                proof {
                    assert(key_matches(x@[k as int].0, y@[k as int].0));
                    assert(same_shape(x@[k as int].1, y@[k as int].1));
                }
                k = k + 1;
            }
            proof {
                assert(*a is Table && *b is Table);
                assert((*a)->Table_0 == *x && (*b)->Table_0 == *y);
                assert forall|i: int|
                    0 <= i < x@.len() implies key_matches(#[trigger] x@[i].0, y@[i].0)
                    && same_shape(x@[i].1, y@[i].1) by {
                    assert(key_matches(x@[i].0, y@[i].0));
                    assert(same_shape(x@[i].1, y@[i].1));
                }
                assert(same_shape(*a, *b));
            }
            true
        }
    }
}

} // verus!

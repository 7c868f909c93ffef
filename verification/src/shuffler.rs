//! Structural randomization of a nested value tree.
//!
//! [`shuffle`] works in three passes over one consistent iteration order:
//! a collection pass gathers every leaf value in traversal order
//! ([`collect_leaves`]), a Fisher–Yates pass permutes the gathered values
//! with draws from a [`DrawStream`] ([`shuffle_values`]), and a
//! reconstruction pass rebuilds a tree of the original shape with the
//! permuted values dealt to the leaf positions in the same order
//! ([`rebuild`]). The cursor into the permuted pool is threaded through the
//! whole reconstruction regardless of nesting depth; a leaf position past
//! the end of the pool receives the explicit "no value" marker, and a
//! top-level container that the sequence policy reads as empty while pool
//! values remain is replaced by the next unconsumed value (the scalar
//! passthrough inherited from the host's sequential-length notion).

use vstd::pervasive::VecAdditionalExecFns;
use vstd::prelude::*;

use crate::stream::{DrawStream, StreamModel};
use crate::tree::{
    count, entries_leaves, key_matches, leaves, lemma_same_shape_preserves_wf,
    lemma_same_shape_refl, lemma_same_shape_sym, same_shape, wf_node, Key, Node, Value,
};

verus! {

/// The value dealt to the leaf position with cursor index `i`: the pool value
/// there, or the "no value" marker once the cursor has run past the pool.
pub open spec fn fill_at(vals: Seq<Value>, i: int) -> Value {
    if 0 <= i < vals.len() {
        vals[i]
    } else {
        Value::Nil
    }
}

/// One Fisher–Yates exchange: the values at `i` and `j` trade places.
pub open spec fn swap_seq(s: Seq<Value>, i: int, j: int) -> Seq<Value>
    recommends
        0 <= i < s.len(),
        0 <= j < s.len(),
{
    s.update(i, s[j]).update(j, s[i])
}

/// The Fisher–Yates walk from position `i` down to 1: each step draws an
/// exchange partner `j <= i` from the stream and swaps.
pub open spec fn spec_permute_step(vals: Seq<Value>, s: StreamModel, i: nat) -> (Seq<Value>, StreamModel)
    recommends
        s.wf(),
        i < vals.len(),
    decreases i,
{
    if i == 0 {
        (vals, s)
    } else {
        let j = s.head() as int % (i + 1) as int;
        spec_permute_step(swap_seq(vals, i as int, j), s.step(), (i - 1) as nat)
    }
}

/// The permutation [`shuffle_values`] applies: a full Fisher–Yates pass, or
/// nothing at all for fewer than two values.
pub open spec fn spec_permute(vals: Seq<Value>, s: StreamModel) -> (Seq<Value>, StreamModel) {
    if vals.len() <= 1 {
        (vals, s)
    } else {
        spec_permute_step(vals, s, (vals.len() - 1) as nat)
    }
}

/// An exchange of two positions conserves the multiset of values.
pub proof fn lemma_swap_multiset(s: Seq<Value>, i: int, j: int)
    requires
        0 <= i < s.len(),
        0 <= j < s.len(),
    ensures
        swap_seq(s, i, j).to_multiset() == s.to_multiset(),
{
    broadcast use vstd::seq_lib::group_to_multiset_ensures;
    broadcast use vstd::multiset::group_multiset_axioms;
    broadcast use vstd::multiset::group_multiset_properties;

    if i == j {
        assert(swap_seq(s, i, j) =~= s);
    } else {
        let u1 = s.update(i, s[j]);
        let u2 = u1.update(j, s[i]);
        vstd::seq_lib::to_multiset_update(s, i, s[j]);
        vstd::seq_lib::to_multiset_update(u1, j, s[i]);
        assert(u1[j] == s[j]);
        assert(s.contains(s[i]));
        assert(s.to_multiset().count(s[i]) > 0);
        assert(u2.to_multiset() =~= s.to_multiset());
    }
}

/// The Fisher–Yates walk keeps the length and the multiset of the values and
/// consumes exactly `i` draws.
pub proof fn lemma_permute_step_props(vals: Seq<Value>, s: StreamModel, i: nat)
    requires
        s.wf(),
        i < vals.len(),
    ensures
        spec_permute_step(vals, s, i).0.len() == vals.len(),
        spec_permute_step(vals, s, i).0.to_multiset() == vals.to_multiset(),
        spec_permute_step(vals, s, i).1.wf(),
        spec_permute_step(vals, s, i).1.values == s.values,
        spec_permute_step(vals, s, i).1 == s.advanced(i),
    decreases i,
{
    crate::stream::lemma_step_advanced(s, 0);
    if i == 0 {
    } else {
        let j = s.head() as int % (i + 1) as int;
        vstd::arithmetic::div_mod::lemma_mod_bound(s.head() as int, (i + 1) as int);
        let sw = swap_seq(vals, i as int, j);
        lemma_swap_multiset(vals, i as int, j);
        lemma_permute_step_props(sw, s.step(), (i - 1) as nat);
        crate::stream::lemma_advanced_compose(s, 1, (i - 1) as nat);
        assert(s.step() == s.advanced(1));
        assert(spec_permute_step(vals, s, i).1 == s.advanced(1).advanced((i - 1) as nat));
    }
}

/// The permutation pass conserves length and multiset, leaves the stream's
/// values untouched, and consumes one draw per exchange.
pub proof fn lemma_permute_props(vals: Seq<Value>, s: StreamModel)
    requires
        s.wf(),
    ensures
        spec_permute(vals, s).0.len() == vals.len(),
        spec_permute(vals, s).0.to_multiset() == vals.to_multiset(),
        spec_permute(vals, s).1.wf(),
        spec_permute(vals, s).1.values == s.values,
{
    if vals.len() > 1 {
        lemma_permute_step_props(vals, s, (vals.len() - 1) as nat);
    }
}

/// Collection pass: every leaf value of the tree, in traversal order.
#[verifier::loop_isolation(false)]
pub fn collect_leaves(n: &Node) -> (out: Vec<Value>)
    ensures
        out@ == leaves(*n),
    decreases *n,
{
    match n {
        Node::Leaf(v) => {
            let mut out: Vec<Value> = Vec::new();
            out.push(*v);
            proof {
                assert(out@ =~= leaves(*n));
            }
            out
        }
        Node::Table(es) => {
            let mut out: Vec<Value> = Vec::new();
            let mut k: usize = 0;
            proof {
                assert(Seq::<Value>::empty() + entries_leaves(es@) =~= entries_leaves(es@));
                assert(es@.subrange(0, es@.len() as int) =~= es@);
            }
            while k < es.len()
                invariant
                    k <= es@.len(),
                    out@ + entries_leaves(es@.subrange(k as int, es@.len() as int))
                        == entries_leaves(es@),
                decreases es@.len() - k,
            {
                proof {
                    assert(*n is Table);
                    assert((*n)->Table_0 == *es);
                    assert(decreases_to!(*n => (*n)->Table_0));
                    assert(decreases_to!((*n)->Table_0 => ((*n)->Table_0)@));
                    assert(decreases_to!(es@ => es@[k as int]));
                    assert(decreases_to!(es@[k as int] => es@[k as int].1));
                }
                let mut child = collect_leaves(&es[k].1);
                proof {
                    let suf = es@.subrange(k as int, es@.len() as int);
                    assert(suf[0] == es@[k as int]);
                    assert(suf.drop_first() =~= es@.subrange(k as int + 1, es@.len() as int));
                    assert(entries_leaves(suf) == leaves(es@[k as int].1) + entries_leaves(
                        es@.subrange(k as int + 1, es@.len() as int),
                    ));
                }
                let ghost before = out@;
                out.append(&mut child);
                proof {
                    assert((before + leaves(es@[k as int].1)) + entries_leaves(
                        es@.subrange(k as int + 1, es@.len() as int),
                    ) =~= before + (leaves(es@[k as int].1) + entries_leaves(
                        es@.subrange(k as int + 1, es@.len() as int),
                    )));
                }
                k = k + 1;
            }
            proof {
                assert(es@.subrange(es@.len() as int, es@.len() as int) =~= Seq::<(
                    Key,
                    Node,
                )>::empty());
                assert(out@ + Seq::<Value>::empty() =~= out@);
                assert(out@ == entries_leaves(es@));
            }
            out
        }
    }
}

/// Permutation pass: an unbiased Fisher–Yates pass over the collected values,
/// driven by the caller's draw stream. The multiset of values is conserved;
/// which arrangement comes out is fixed entirely by the stream.
#[verifier::loop_isolation(false)]
pub fn shuffle_values(vals: &mut Vec<Value>, src: &mut DrawStream)
    requires
        old(src).wf(),
    ensures
        final(src).wf(),
        final(src)@.values == old(src)@.values,
        final(vals)@.len() == old(vals)@.len(),
        final(vals)@.to_multiset() == old(vals)@.to_multiset(),
        (final(vals)@, final(src)@) == spec_permute(old(vals)@, old(src)@),
{
    let n = vals.len();
    if n <= 1 {
        return ;
    }
    let ghost v0 = vals@;
    let ghost s0 = src@;
    let mut i: usize = n - 1;
    while i >= 1
        invariant
            i <= n - 1,
            vals@.len() == n,
            src.wf(),
            src@.values == s0.values,
            vals@.to_multiset() == v0.to_multiset(),
            spec_permute_step(vals@, src@, i as nat) == spec_permute_step(v0, s0, (n - 1) as nat),
        decreases i,
    {
        let ghost pv = vals@;
        let ghost ps = src@;
        let j = src.draw_below(i + 1);
        let a = vals[i];
        let b = vals[j];
        vals.set(i, b);
        vals.set(j, a);
        proof {
            assert(vals@ == swap_seq(pv, i as int, j as int));
            lemma_swap_multiset(pv, i as int, j as int);
            assert(spec_permute_step(pv, ps, i as nat) == spec_permute_step(
                vals@,
                src@,
                (i - 1) as nat,
            ));
        }
        i = i - 1;
    }
    proof {
        assert(spec_permute_step(vals@, src@, 0nat) == (vals@, src@));
        assert((vals@, src@) == spec_permute(v0, s0));
    }
}

/// The named sequence-container policy inherited from the host: a container
/// counts as a sequence exactly when the host's sequential-length notion
/// reads nonzero, that is, when its first entry in iteration order is keyed
/// by the number 1. A container of other keys reads as empty even when it
/// holds entries; the top-level scalar passthrough of [`rebuild`] keys on
/// that.
pub open spec fn spec_is_sequence_container(n: Node) -> bool {
    match n {
        Node::Table(es) => es@.len() > 0 && key_matches(es@[0].0, Key::Num(1)),
        Node::Leaf(_) => false,
    }
}

/// Exec mirror of [`spec_is_sequence_container`].
pub fn is_sequence_container(n: &Node) -> (r: bool)
    ensures
        r == spec_is_sequence_container(*n),
{
    match n {
        Node::Table(es) => {
            if es.len() == 0 {
                false
            } else {
                match &es[0].0 {
                    Key::Num(v) => *v == 1i64,
                    Key::Word(_) => false,
                }
            }
        },
        Node::Leaf(_) => false,
    }
}

/// Reconstruction of one subtree: leaves are dealt `fill_at(vals, cursor)`
/// in traversal order, the cursor advancing once per leaf position.
#[verifier::loop_isolation(false)]
fn rebuild_node(n: Node, vals: &Vec<Value>, start: usize) -> (res: (Node, usize))
    requires
        start + count(n) <= usize::MAX,
    ensures
        res.1 == start + count(n),
        same_shape(res.0, n),
        leaves(res.0) == Seq::new(count(n), |k: int| fill_at(vals@, start + k)),
    decreases n,
{
    let ghost n0 = n;
    match n {
        Node::Leaf(_) => {
            let v = if start < vals.len() {
                vals[start]
            } else {
                Value::Nil
            };
            proof {
                assert(leaves(Node::Leaf(v)) =~= Seq::new(count(n0), |k: int| fill_at(
                    vals@,
                    start + k,
                )));
            }
            (Node::Leaf(v), start + 1)
        },
        Node::Table(mut es) => {
            let ghost es0 = es@;
            let mut out: Vec<(Key, Node)> = Vec::new();
            let mut cur: usize = start;
            proof {
                assert(entries_leaves(out@) =~= Seq::<Value>::empty());
                assert(entries_leaves(out@) =~= Seq::new(
                    (cur - start) as nat,
                    |k: int| fill_at(vals@, start + k),
                ));
                assert(es@ =~= es0.subrange(out@.len() as int, es0.len() as int));
            }
            while es.len() > 0
                invariant
                    out@.len() + es@.len() == es0.len(),
                    es@ == es0.subrange(out@.len() as int, es0.len() as int),
                    forall|i: int|
                        0 <= i < out@.len() ==> key_matches(#[trigger] out@[i].0, es0[i].0),
                    forall|i: int|
                        0 <= i < out@.len() ==> same_shape(#[trigger] out@[i].1, es0[i].1),
                    cur == start + entries_leaves(out@).len(),
                    entries_leaves(out@) == Seq::new(
                        (cur - start) as nat,
                        |k: int| fill_at(vals@, start + k),
                    ),
                    entries_leaves(out@).len() + entries_leaves(es@).len() == entries_leaves(
                        es0,
                    ).len(),
                decreases es@.len(),
            {
                let ghost j = out@.len() as int;
                let ghost pre = es@;
                proof {
                    assert(pre[0] == es0[j]);
                    assert(n0 is Table);
                    assert(n0->Table_0@ == es0);
                    assert(decreases_to!(n0 => n0->Table_0));
                    assert(decreases_to!(n0->Table_0 => n0->Table_0@));
                    assert(decreases_to!(es0 => es0[j]));
                    assert(decreases_to!(es0[j] => es0[j].1));
                    assert(pre.drop_first() =~= es0.subrange(j + 1, es0.len() as int));
                    assert(entries_leaves(pre) == leaves(pre[0].1) + entries_leaves(
                        pre.drop_first(),
                    ));
                }
                let (key, child) = es.remove(0);
                proof {
                    assert(es@ =~= pre.drop_first());
                    assert((key, child) == es0[j]);
                    assert(child == es0[j].1);
                }
                let (r_child, cur2) = rebuild_node(child, vals, cur);
                let ghost out_pre = out@;
                let ghost cur_pre = cur as int;
                out.push((key, r_child));
                cur = cur2;
                proof {
                    crate::tree::lemma_entries_leaves_push(out_pre, (key, r_child));
                    assert(out@ == out_pre.push((key, r_child)));
                    assert(entries_leaves(out@) == entries_leaves(out_pre) + leaves(r_child));
                    assert(entries_leaves(out@) =~= Seq::new(
                        (cur - start) as nat,
                        |k: int| fill_at(vals@, start + k),
                    ));
                    assert forall|i: int|
                        0 <= i < out@.len() implies key_matches(
                        #[trigger] out@[i].0,
                        es0[i].0,
                    ) by {
                        if i < j {
                            assert(out@[i] == out_pre[i]);
                        } else {
                            assert(out@[i] == (key, r_child));
                            assert(key_matches(es0[j].0, es0[j].0)) by {
                                crate::tree::lemma_key_matches_refl(es0[j].0);
                            }
                        }
                    }
                    assert forall|i: int|
                        0 <= i < out@.len() implies same_shape(#[trigger] out@[i].1, es0[i].1) by {
                        if i < j {
                            assert(out@[i] == out_pre[i]);
                        }
                    }
                }
            }
            proof {
                assert(es@.len() == 0);
                assert(out@.len() == es0.len());
                assert(entries_leaves(es@) =~= Seq::<Value>::empty());
                assert(entries_leaves(out@).len() == entries_leaves(es0).len());
                assert(count(n0) == entries_leaves(es0).len());
            }
            let result = Node::Table(out);
            proof {
                assert(result is Table);
                assert(result->Table_0@ == out@);
                assert(same_shape(result, n0));
                assert(leaves(result) == entries_leaves(out@));
            }
            (result, cur)
        },
    }
}

/// Reconstruction pass: walk the tree in the same iteration order as the
/// collection pass, dealing each leaf position the next pool value; one
/// cursor is threaded through the whole traversal, whatever the nesting
/// depth. A leaf position past the end of the pool receives the "no value"
/// marker. If the rebuilt top level is a container that the sequence policy
/// reads as empty while the cursor has not consumed the whole pool, the next
/// unconsumed pool value is returned bare instead — the scalar passthrough
/// for a top level that is not a conventional sequence.
pub fn rebuild(tree: Node, vals: &Vec<Value>) -> (r: Node)
    requires
        count(tree) <= usize::MAX,
    ensures
        tree is Leaf ==> r == Node::Leaf(fill_at(vals@, 0)),
        (tree is Table && count(tree) < vals@.len() && !spec_is_sequence_container(tree)) ==> r
            == Node::Leaf(vals@[count(tree) as int]),
        (tree is Leaf || count(tree) >= vals@.len() || spec_is_sequence_container(tree)) ==> (
        same_shape(r, tree) && leaves(r) == Seq::new(count(tree), |k: int| fill_at(vals@, k))),
{
    let ghost t0 = tree;
    let (built, cursor) = rebuild_node(tree, vals, 0);
    proof {
        if t0 is Leaf {
            assert(built is Leaf);
            assert(leaves(built)[0] == fill_at(vals@, 0));
            assert(built == Node::Leaf(fill_at(vals@, 0)));
        } else {
            assert(built is Table);
            assert(spec_is_sequence_container(built) == spec_is_sequence_container(t0)) by {
                let bs = built->Table_0@;
                let ts = t0->Table_0@;
                assert(bs.len() == ts.len());
                if bs.len() > 0 {
                    assert(key_matches(bs[0].0, ts[0].0));
                }
            }
        }
    }
    if cursor < vals.len() {
        let is_table = match &built {
            Node::Table(_) => true,
            Node::Leaf(_) => false,
        };
        if is_table && !is_sequence_container(&built) {
            return Node::Leaf(vals[cursor]);
        }
    }
    built
}

/// Structural randomization: collect every leaf value in traversal order,
/// permute the collected values with draws from `src`, and rebuild an
/// isomorphic tree in which each leaf position receives a value from the
/// permuted pool. The shape is preserved exactly, the multiset of leaf
/// values is conserved, and a bare leaf at the top level is returned
/// unchanged. Which arrangement comes out is a function of the tree and the
/// stream alone.
pub fn shuffle(tree: Node, src: &mut DrawStream) -> (r: Node)
    requires
        old(src).wf(),
    ensures
        final(src).wf(),
        final(src)@.values == old(src)@.values,
        same_shape(r, tree),
        leaves(r).to_multiset() == leaves(tree).to_multiset(),
        leaves(r) == spec_permute(leaves(tree), old(src)@).0,
        final(src)@ == spec_permute(leaves(tree), old(src)@).1,
        tree is Leaf ==> r == tree,
        wf_node(tree) ==> wf_node(r),
{
    let ghost t0 = tree;
    match &tree {
        Node::Leaf(_) => {
            proof {
                lemma_same_shape_refl(t0);
                assert(leaves(t0).len() == 1);
            }
            return tree;
        },
        Node::Table(_) => {},
    }
    let mut vals = collect_leaves(&tree);
    proof {
        assert(vals@ == leaves(t0));
    }
    shuffle_values(&mut vals, src);
    let n = vals.len();
    proof {
        lemma_permute_props(leaves(t0), old(src)@);
        assert(vals@.len() == n as nat);
        assert(vals@.len() == count(t0));
        assert(count(t0) <= usize::MAX);
    }
    let r = rebuild(tree, &vals);
    proof {
        assert(!(count(t0) < vals@.len()));
        assert(same_shape(r, t0));
        assert(leaves(r) =~= vals@);
        if wf_node(t0) {
            lemma_same_shape_sym(r, t0);
            lemma_same_shape_preserves_wf(t0, r);
        }
    }
    r
}

} // verus!

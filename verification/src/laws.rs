//! Laws of the buddy tree that relate several operations.
//!
//! The key fact is that a well-formed tree is a function of its set of
//! `Used` nodes.  `allocate` adds exactly one `Used` node and `free`
//! removes exactly one, so freeing what was just allocated restores the
//! exact prior tree, and a tree whose blocks have all been freed, in
//! whatever order, is the all-free tree again.

use vstd::prelude::*;

verus! {

use crate::model::{
    Node, pow2, lemma_pow2_le, lemma_pow2_even, left, right, node_ok, wf_nodes, tree_wf,
    row_start, row_chars, state_char, avail, first_fit, reachable, lemma_pow2_pos,
};

proof fn lemma_reachable_avail(t: Seq<Node>, i: int, m: int, gap: nat)
    requires
        reachable(t, i, m, gap),
    ensures
        avail(t, i, gap),
    decreases gap,
{
    if gap > 0 {
        if reachable(t, left(i), m, (gap - 1) as nat) {
            lemma_reachable_avail(t, left(i), m, (gap - 1) as nat);
        } else {
            lemma_reachable_avail(t, right(i), m, (gap - 1) as nat);
        }
    }
}

proof fn lemma_reachable_range(t: Seq<Node>, i: int, m: int, gap: nat)
    requires
        reachable(t, i, m, gap),
        i >= 0,
    ensures
        (i + 1) * pow2(gap) - 1 <= m < (i + 2) * pow2(gap) - 1,
    decreases gap,
{
    if gap == 0 {
        assert((i + 1) * pow2(0) == i + 1 && (i + 2) * pow2(0) == i + 2) by (nonlinear_arith)
            requires
                pow2(0) == 1,
        ;
    } else {
        let x = pow2((gap - 1) as nat);
        lemma_pow2_pos((gap - 1) as nat);
        assert(pow2(gap) == 2 * x);
        assert((2 * i + 2) * x <= (2 * i + 3) * x && (2 * i + 3) * x <= (2 * i + 4) * x && (2 * i
            + 4) * x == (i + 2) * (2 * x) && (2 * i + 2) * x == (i + 1) * (2 * x))
            by (nonlinear_arith)
            requires
                i >= 0,
                x >= 1,
        ;
        if reachable(t, left(i), m, (gap - 1) as nat) {
            lemma_reachable_range(t, left(i), m, (gap - 1) as nat);
        } else {
            lemma_reachable_range(t, right(i), m, (gap - 1) as nat);
        }
    }
}

proof fn lemma_first_fit_reachable(t: Seq<Node>, i: int, gap: nat)
    requires
        avail(t, i, gap),
    ensures
        reachable(t, i, first_fit(t, i, gap), gap),
    decreases gap,
{
    if gap > 0 {
        if avail(t, left(i), (gap - 1) as nat) {
            lemma_first_fit_reachable(t, left(i), (gap - 1) as nat);
        } else {
            lemma_first_fit_reachable(t, right(i), (gap - 1) as nat);
        }
    }
}

/// The search is leftmost-fit: of all the free nodes of the requested
/// class that splitting and descending can reach, `first_fit` names the
/// one with the smallest index, that is, the smallest base-unit offset.
pub proof fn lemma_first_fit_leftmost(t: Seq<Node>, i: int, m: int, gap: nat)
    requires
        i >= 0,
        reachable(t, i, m, gap),
    ensures
        avail(t, i, gap),
        first_fit(t, i, gap) <= m,
    decreases gap,
{
    lemma_reachable_avail(t, i, m, gap);
    if gap > 0 {
        if avail(t, left(i), (gap - 1) as nat) {
            if reachable(t, left(i), m, (gap - 1) as nat) {
                lemma_first_fit_leftmost(t, left(i), m, (gap - 1) as nat);
            } else {
                // m lies in the right subtree, wholly right of the left one
                lemma_first_fit_reachable(t, left(i), (gap - 1) as nat);
                lemma_reachable_range(t, left(i), first_fit(t, left(i), (gap - 1) as nat),
                    (gap - 1) as nat);
                lemma_reachable_range(t, right(i), m, (gap - 1) as nat);
            }
        } else {
            if reachable(t, left(i), m, (gap - 1) as nat) {
                lemma_reachable_avail(t, left(i), m, (gap - 1) as nat);
            }
            lemma_first_fit_leftmost(t, right(i), m, (gap - 1) as nat);
        }
    }
}

proof fn lemma_node_determined(t1: Seq<Node>, t2: Seq<Node>, i: int)
    requires
        t1.len() == t2.len(),
        t1.len() % 2 == 1,
        wf_nodes(t1),
        wf_nodes(t2),
        forall|j: int| 0 <= j < t1.len() ==> ((t1[j] == Node::Used) <==> (t2[j] == Node::Used)),
        0 <= i < t1.len(),
    ensures
        t1[i] == t2[i],
    decreases t1.len() - i,
{
    assert(node_ok(t1, i));
    assert(node_ok(t2, i));
    if right(i) < t1.len() {
        lemma_node_determined(t1, t2, left(i));
        lemma_node_determined(t1, t2, right(i));
    }
}

/// A well-formed tree is determined by its allocated nodes: two trees
/// of the same depth whose `Used` nodes coincide are equal throughout.
pub proof fn lemma_tree_determined(t1: Seq<Node>, t2: Seq<Node>, levels: nat)
    requires
        tree_wf(levels, t1),
        tree_wf(levels, t2),
        forall|j: int| 0 <= j < t1.len() ==> ((t1[j] == Node::Used) <==> (t2[j] == Node::Used)),
    ensures
        t1 == t2,
{
    lemma_pow2_even(levels + 1);
    assert forall|i: int| 0 <= i < t1.len() implies t1[i] == t2[i] by {
        lemma_node_determined(t1, t2, i);
    }
    assert(t1 =~= t2);
}

/// Freeing the block just produced by a successful allocation restores
/// the exact prior tree.  `t0` is the tree before the allocation, `t1`
/// the tree after it marked node `n`, and `t2` the tree after the
/// matching free; the two quantified premises are what `allocate` and
/// `free` ensure about the allocated nodes.
pub proof fn lemma_free_undoes_allocate(
    t0: Seq<Node>,
    t1: Seq<Node>,
    t2: Seq<Node>,
    levels: nat,
    n: int,
)
    requires
        tree_wf(levels, t0),
        tree_wf(levels, t1),
        tree_wf(levels, t2),
        0 <= n < t0.len(),
        t0[n] != Node::Used,
        forall|j: int|
            0 <= j < t1.len() ==> ((t1[j] == Node::Used) <==> (t0[j] == Node::Used || j == n)),
        forall|j: int|
            0 <= j < t2.len() ==> ((t2[j] == Node::Used) <==> (t1[j] == Node::Used && j != n)),
    ensures
        t2 == t0,
{
    assert forall|j: int|
        0 <= j < t2.len() implies ((t2[j] == Node::Used) <==> (t0[j] == Node::Used)) by {
        assert((t1[j] == Node::Used) <==> (t0[j] == Node::Used || j == n));
    }
    lemma_tree_determined(t2, t0, levels);
}

proof fn lemma_node_unused(t: Seq<Node>, i: int)
    requires
        t.len() % 2 == 1,
        wf_nodes(t),
        forall|j: int| 0 <= j < t.len() ==> t[j] != Node::Used,
        0 <= i < t.len(),
    ensures
        t[i] == Node::Unused,
    decreases t.len() - i,
{
    assert(node_ok(t, i));
    if right(i) < t.len() {
        lemma_node_unused(t, left(i));
        lemma_node_unused(t, right(i));
    }
}

/// A tree with no allocated node is entirely free: once every block has
/// been freed, in whatever order, the tree is the state of a freshly
/// constructed one.
pub proof fn lemma_all_freed_is_fresh(t: Seq<Node>, levels: nat)
    requires
        tree_wf(levels, t),
        forall|j: int| 0 <= j < t.len() ==> t[j] != Node::Used,
    ensures
        forall|j: int| 0 <= j < t.len() ==> t[j] == Node::Unused,
{
    lemma_pow2_even(levels + 1);
    assert forall|j: int| 0 <= j < t.len() implies t[j] == Node::Unused by {
        lemma_node_unused(t, j);
    }
}

/// The dump of an entirely free tree shows, for every depth `d` up to
/// `levels`, a line of exactly `2^d` characters, all `O`.
pub proof fn lemma_fresh_dump(t: Seq<Node>, levels: nat, d: nat)
    requires
        t.len() == pow2(levels + 1) - 1,
        forall|j: int| 0 <= j < t.len() ==> t[j] == Node::Unused,
        d <= levels,
    ensures
        row_chars(t, d).len() == pow2(d),
        forall|k: int| 0 <= k < pow2(d) ==> row_chars(t, d)[k] == 'O',
{
    lemma_pow2_le(d + 1, levels + 1);
    assert(pow2(d + 1) == 2 * pow2(d));
    assert forall|k: int| 0 <= k < pow2(d) implies row_chars(t, d)[k] == 'O' by {
        assert(0 <= row_start(d) + k < t.len());
        assert(state_char(t[row_start(d) + k]) == 'O');
    }
}

} // verus!

//! The mathematical model of the buddy tree.
//!
//! A tree of depth `levels` is a sequence of `2^(levels+1) - 1` node
//! states in heap order: the root is index 0 and the children of node `i`
//! are `2i+1` and `2i+2`.  A node at depth `d` covers `2^(levels-d)` base
//! units; its *level* is `levels - d`, so leaves sit at level 0.

use vstd::prelude::*;

verus! {

/// The state of one node of the buddy tree.
#[derive(Copy, Clone, PartialEq, Eq, Structural, Debug)]
pub enum Node {
    /// The whole subtree rooted here is free.
    Unused,
    /// This exact node was handed out as one block.
    Used,
    /// The node is divided into two buddies, at least one of which is not
    /// entirely free and not all of which are allocated.
    Split,
    /// No free descendant remains anywhere under this node.
    Full,
}

/// `2^e`.
pub open spec fn pow2(e: nat) -> nat
    decreases e,
{
    if e == 0 {
        1
    } else {
        2 * pow2((e - 1) as nat)
    }
}

pub proof fn lemma_pow2_pos(e: nat)
    ensures
        pow2(e) >= 1,
    decreases e,
{
    if e > 0 {
        lemma_pow2_pos((e - 1) as nat);
    }
}

pub proof fn lemma_pow2_le(a: nat, b: nat)
    requires
        a <= b,
    ensures
        pow2(a) <= pow2(b),
    decreases b,
{
    if a < b {
        lemma_pow2_le(a, (b - 1) as nat);
        lemma_pow2_pos((b - 1) as nat);
    }
}

pub proof fn lemma_pow2_gt(e: nat)
    ensures
        pow2(e) > e,
    decreases e,
{
    if e > 0 {
        lemma_pow2_gt((e - 1) as nat);
    }
}

/// Heap-order parent of node `i`; meaningful for `i >= 1`.
pub open spec fn parent(i: int) -> int {
    (i - 1) / 2
}

/// Left child of node `i`.
pub open spec fn left(i: int) -> int {
    2 * i + 1
}

/// Right child of node `i`.
pub open spec fn right(i: int) -> int {
    2 * i + 2
}

/// Index of the first node at depth `d`.
pub open spec fn row_start(d: nat) -> int {
    pow2(d) - 1
}

pub open spec fn used_or_full(n: Node) -> bool {
    n == Node::Used || n == Node::Full
}

/// The ancestor-propagation rule: the state an interior node must carry
/// given the states of its two children, unless the node itself was
/// handed out whole (`Used`).
pub open spec fn combine(l: Node, r: Node) -> Node {
    if used_or_full(l) && used_or_full(r) {
        Node::Full
    } else if l == Node::Unused && r == Node::Unused {
        Node::Unused
    } else {
        Node::Split
    }
}

/// Local consistency of node `i` with its children.
///
/// An interior node that is not `Used` carries exactly the state the
/// propagation rule computes from its children; a node handed out whole
/// (`Used`) or entirely free (`Unused`) has free children; a leaf is
/// never `Split` or `Full`.
pub open spec fn node_ok(t: Seq<Node>, i: int) -> bool {
    if right(i) < t.len() {
        &&& (t[i] == Node::Used ==> t[left(i)] == Node::Unused && t[right(i)] == Node::Unused)
        &&& (t[i] != Node::Used ==> t[i] == combine(t[left(i)], t[right(i)]))
    } else {
        t[i] == Node::Unused || t[i] == Node::Used
    }
}

pub open spec fn wf_nodes(t: Seq<Node>) -> bool {
    forall|i: int| 0 <= i < t.len() ==> #[trigger] node_ok(t, i)
}

/// A well-formed buddy tree of depth `levels`.
pub open spec fn tree_wf(levels: nat, t: Seq<Node>) -> bool {
    &&& t.len() == pow2(levels + 1) - 1
    &&& wf_nodes(t)
}

/// Does node `i`'s subtree contain node `j`?  Equivalently, is `i` an
/// ancestor of `j` or `j` itself?
pub open spec fn in_subtree(i: int, j: int) -> bool
    decreases j,
{
    if j < 0 {
        false
    } else if j == i {
        true
    } else if j == 0 {
        false
    } else {
        in_subtree(i, parent(j))
    }
}

pub proof fn lemma_in_subtree_le(i: int, j: int)
    requires
        in_subtree(i, j),
    ensures
        i <= j,
    decreases j,
{
    if j != i {
        lemma_in_subtree_le(i, parent(j));
    }
}

pub proof fn lemma_in_subtree_trans(i: int, j: int, k: int)
    requires
        in_subtree(i, j),
        in_subtree(j, k),
    ensures
        in_subtree(i, k),
    decreases k,
{
    if k != j && k != i {
        lemma_in_subtree_trans(i, j, parent(k));
    }
}

/// Two ancestors of the same node are themselves in ancestor order.
pub proof fn lemma_ancestors_ordered(a: int, b: int, k: int)
    requires
        in_subtree(a, k),
        in_subtree(b, k),
    ensures
        in_subtree(a, b) || in_subtree(b, a),
    decreases k,
{
    if k != a && k != b {
        lemma_ancestors_ordered(a, b, parent(k));
    }
}

/// The children of node `i` lie in its subtree.
pub proof fn lemma_children_in_subtree(i: int)
    requires
        i >= 0,
    ensures
        in_subtree(i, left(i)),
        in_subtree(i, right(i)),
{
    reveal_with_fuel(in_subtree, 2);
    assert(parent(left(i)) == i);
    assert(parent(right(i)) == i);
}

/// Is some strict ancestor of `j` marked `Used`?
pub open spec fn used_above(t: Seq<Node>, j: int) -> bool
    decreases j,
{
    if j <= 0 {
        false
    } else {
        t[parent(j)] == Node::Used || used_above(t, parent(j))
    }
}

pub proof fn lemma_pow2_even(e: nat)
    requires
        e >= 1,
    ensures
        pow2(e) % 2 == 0,
{
}

pub proof fn lemma_pow2_mul(a: nat, b: nat)
    ensures
        pow2(a + b) == pow2(a) * pow2(b),
    decreases a,
{
    if a > 0 {
        lemma_pow2_mul((a - 1) as nat, b);
        let x = pow2((a - 1) as nat);
        let y = pow2(b);
        assert(pow2((a - 1) as nat + b) == x * y);
        assert(pow2(a + b) == 2 * pow2((a + b - 1) as nat));
        assert(pow2(a) == 2 * x);
        assert((a + b - 1) as nat == (a - 1) as nat + b);
        assert(2 * (x * y) == (2 * x) * y) by (nonlinear_arith);
        assert(pow2(a + b) == pow2(a) * pow2(b));
    } else {
        assert(pow2(a) == 1);
        assert(pow2(a + b) == pow2(b));
        assert(pow2(a) * pow2(b) == pow2(b)) by (nonlinear_arith)
            requires
                pow2(a) == 1,
        ;
    }
}

/// No strict ancestor of `n` is `Used` when `used_above` denies it.
pub proof fn lemma_no_used_ancestor(t: Seq<Node>, a: int, n: int)
    requires
        !used_above(t, n),
        in_subtree(a, n),
        a != n,
    ensures
        t[a] != Node::Used,
    decreases n,
{
    lemma_in_subtree_le(a, n);
    if a != parent(n) {
        lemma_no_used_ancestor(t, a, parent(n));
    }
}

/// A node is a strict ancestor of `n` exactly when it is an ancestor,
/// or self, of `n`'s parent.
pub proof fn lemma_subtree_parent(j: int, n: int)
    requires
        n >= 1,
    ensures
        in_subtree(j, parent(n)) <==> (in_subtree(j, n) && j != n),
{
    if in_subtree(j, parent(n)) {
        lemma_in_subtree_le(j, parent(n));
    }
}

/// Is a block of level `current - gap` free somewhere under node `i`,
/// which sits `gap` levels above the requested size class?
pub open spec fn avail(t: Seq<Node>, i: int, gap: nat) -> bool
    decreases gap,
{
    if gap == 0 {
        t[i] == Node::Unused
    } else {
        &&& (t[i] == Node::Unused || t[i] == Node::Split)
        &&& (avail(t, left(i), (gap - 1) as nat) || avail(t, right(i), (gap - 1) as nat))
    }
}

/// The node the left-first depth-first search settles on: the leftmost
/// free node `gap` levels below `i`.  Meaningful only when
/// `avail(t, i, gap)` holds.
pub open spec fn first_fit(t: Seq<Node>, i: int, gap: nat) -> int
    decreases gap,
{
    if gap == 0 {
        i
    } else if avail(t, left(i), (gap - 1) as nat) {
        first_fit(t, left(i), (gap - 1) as nat)
    } else {
        first_fit(t, right(i), (gap - 1) as nat)
    }
}

/// Can the allocation search reach node `m`, sitting `gap` levels below
/// node `i`?  It can exactly when `m` is free and every node on the way
/// down, `i` included, is `Unused` or `Split`.
pub open spec fn reachable(t: Seq<Node>, i: int, m: int, gap: nat) -> bool
    decreases gap,
{
    if gap == 0 {
        m == i && t[i] == Node::Unused
    } else {
        &&& (t[i] == Node::Unused || t[i] == Node::Split)
        &&& (reachable(t, left(i), m, (gap - 1) as nat) || reachable(
            t,
            right(i),
            m,
            (gap - 1) as nat,
        ))
    }
}

/// The size class of a request for `s` base units: the smallest `l` with
/// `2^l >= s`, a request for 0 units being served as 1 unit.
pub open spec fn level_of(s: nat) -> nat
    decreases s,
{
    if s <= 1 {
        0
    } else {
        1 + level_of((s + 1) / 2)
    }
}

/// `level_of(s)` is the least level whose block holds `s` units.
pub proof fn lemma_level_of(s: nat)
    ensures
        pow2(level_of(s)) >= s,
        level_of(s) > 0 ==> pow2((level_of(s) - 1) as nat) < s,
    decreases s,
{
    if s > 1 {
        lemma_level_of(((s + 1) / 2) as nat);
        let l = level_of(((s + 1) / 2) as nat);
        assert(pow2(l + 1) == 2 * pow2(l));
        if l > 0 {
            assert(pow2(l) == 2 * pow2((l - 1) as nat));
        }
    }
}

/// Any level that holds `s` units minimally is `level_of(s)`.
pub proof fn lemma_level_of_unique(s: nat, l: nat)
    requires
        pow2(l) >= s,
        l == 0 || pow2((l - 1) as nat) < s,
    ensures
        l == level_of(s),
{
    lemma_level_of(s);
    let lv = level_of(s);
    if l < lv {
        lemma_pow2_le(l, (lv - 1) as nat);
    }
    if l > lv {
        lemma_pow2_le(lv, (l - 1) as nat);
    }
}

/// Base-unit offset of the block rooted at node `n` of level `l`.
pub open spec fn page_offset_of(levels: nat, l: nat, n: int) -> int {
    (n - row_start((levels - l) as nat)) * pow2(l)
}

/// Tree index of the level-`l` block at base-unit offset `off`; the
/// inverse of `page_offset_of` for aligned offsets.
pub open spec fn node_at(levels: nat, l: nat, off: int) -> int {
    row_start((levels - l) as nat) + off / (pow2(l) as int)
}

/// The level/offset/index formulas round-trip: the base-unit offset of
/// a node of level `l` is aligned to `2^l`, lies within the address
/// space, and maps back to the node.
pub proof fn lemma_offset_round_trip(levels: nat, l: nat, n: int)
    requires
        l <= levels,
        row_start((levels - l) as nat) <= n < row_start((levels - l) as nat) + pow2(
            (levels - l) as nat,
        ),
    ensures
        page_offset_of(levels, l, n) % (pow2(l) as int) == 0,
        0 <= page_offset_of(levels, l, n) < pow2(levels),
        node_at(levels, l, page_offset_of(levels, l, n)) == n,
{
    let d = (levels - l) as nat;
    let p = pow2(l) as int;
    let k = n - row_start(d);
    lemma_pow2_pos(l);
    lemma_pow2_mul(l, d);
    vstd::arithmetic::div_mod::lemma_mod_multiples_basic(k, p);
    vstd::arithmetic::div_mod::lemma_div_multiples_vanish(k, p);
    assert(p * k == k * p) by (nonlinear_arith);
    assert(k * p >= 0 && k * p <= (pow2(d) - 1) * p) by (nonlinear_arith)
        requires
            0 <= k <= pow2(d) - 1,
            p >= 1,
    ;
    assert((pow2(d) - 1) * p == pow2(d) * p - p) by (nonlinear_arith);
}

/// The inputs on which `free` operates: a size whose class fits the
/// tree, an offset within the address space and aligned to the class,
/// naming a node that is currently an allocated block of its own, or an
/// entirely free node not covered by any allocated block (freeing the
/// latter again is accepted and does nothing).
pub open spec fn free_pre(t: Seq<Node>, levels: nat, s: nat, off: nat) -> bool {
    let l = level_of(s);
    let n = node_at(levels, l, off as int);
    &&& l <= levels
    &&& off < pow2(levels)
    &&& off % pow2(l) == 0
    &&& (t[n] == Node::Used || t[n] == Node::Unused)
    &&& !used_above(t, n)
}

/// Every strict descendant of a free or allocated-whole node is free.
pub proof fn lemma_covered_is_unused(t: Seq<Node>, a: int, n: int)
    requires
        wf_nodes(t),
        t.len() % 2 == 1,
        0 <= a,
        n < t.len(),
        in_subtree(a, n),
        n != a,
        t[a] == Node::Used || t[a] == Node::Unused,
    ensures
        t[n] == Node::Unused,
    decreases n,
{
    if parent(n) == a {
        assert(left(a) == n || right(a) == n);
        assert(node_ok(t, a));
    } else {
        lemma_covered_is_unused(t, a, parent(n));
        assert(left(parent(n)) == n || right(parent(n)) == n);
        assert(node_ok(t, parent(n)));
    }
}

/// `used_above` holds of no node whose strict ancestors are all
/// something other than `Used`.
pub proof fn lemma_not_used_above(t: Seq<Node>, n: int)
    requires
        0 <= n,
        forall|a: int| 0 <= a && in_subtree(a, n) && a != n ==> t[a] != Node::Used,
    ensures
        !used_above(t, n),
    decreases n,
{
    if n > 0 {
        let p = parent(n);
        assert(in_subtree(p, p));
        assert(in_subtree(p, n));
        assert(t[p] != Node::Used);
        assert forall|a: int| 0 <= a && in_subtree(a, p) && a != p implies t[a] != Node::Used by {
            lemma_in_subtree_trans(a, p, n);
            lemma_in_subtree_le(a, p);
        }
        lemma_not_used_above(t, p);
    }
}

/// What `allocate` returns and how it changes the tree, for a request
/// of `s` base units against a well-formed tree `t0` of depth `levels`.
/// A request whose size class exceeds the depth fails and leaves the
/// tree untouched, as does one for which no free block of the class
/// remains; otherwise exactly the leftmost free node of the class
/// becomes `Used` and its base-unit offset is returned.
pub open spec fn allocate_post(t0: Seq<Node>, t1: Seq<Node>, levels: nat, s: nat, r: int) -> bool {
    let l = level_of(s);
    let gap = (levels - l) as nat;
    if l > levels {
        r == -1 && t1 == t0
    } else if avail(t0, 0, gap) {
        let n = first_fit(t0, 0, gap);
        &&& r == page_offset_of(levels, l, n)
        &&& 0 <= r < pow2(levels)
        &&& row_start(gap) <= n < row_start(gap) + pow2(gap)
        &&& t0[n] == Node::Unused
        &&& !used_above(t1, n)
        &&& forall|j: int|
            0 <= j < t1.len() ==> ((t1[j] == Node::Used) <==> (t0[j] == Node::Used || j == n))
    } else {
        r == -1 && t1 == t0
    }
}

/// The single-character rendering of a node state.
pub open spec fn state_char(n: Node) -> char {
    match n {
        Node::Unused => 'O',
        Node::Used => 'U',
        Node::Split => 'S',
        Node::Full => 'F',
    }
}

/// The characters of the dump line for depth `d`: one per node of that
/// row, left to right.
pub open spec fn row_chars(t: Seq<Node>, d: nat) -> Seq<char> {
    Seq::new(pow2(d), |k: int| state_char(t[row_start(d) + k]))
}

/// The first `d` lines of the dump, each row followed by a newline.
pub open spec fn rows_upto(t: Seq<Node>, d: nat) -> Seq<char>
    decreases d,
{
    if d == 0 {
        Seq::empty()
    } else {
        rows_upto(t, (d - 1) as nat) + row_chars(t, (d - 1) as nat) + seq!['\n']
    }
}

} // verus!

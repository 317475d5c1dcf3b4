//! The buddy allocator: a complete binary tree of node states over a flat
//! array, with two mutating operations (`allocate`, `free`) and one
//! read-only rendering (`dump`).

use vstd::prelude::*;

verus! {

use crate::model::{
    Node, pow2, lemma_pow2_pos, lemma_pow2_le, lemma_pow2_gt, parent, left, right, row_start,
    combine, node_ok, wf_nodes, tree_wf, in_subtree, avail, first_fit, level_of, page_offset_of,
    node_at, row_chars, rows_upto, lemma_in_subtree_le, lemma_in_subtree_trans,
    lemma_ancestors_ordered, lemma_children_in_subtree, lemma_pow2_even, lemma_pow2_mul,
    lemma_level_of, lemma_level_of_unique, lemma_no_used_ancestor, lemma_subtree_parent,
    lemma_covered_is_unused, lemma_not_used_above, free_pre, allocate_post,
};

/// A buddy allocator over `2^levels` base units.
pub struct BuddyAllocator {
    levels: usize,
    tree: Vec<Node>,
}

impl BuddyAllocator {
    /// The depth of the tree: leaves are `levels` steps below the root.
    pub closed spec fn levels(&self) -> nat {
        self.levels as nat
    }

    /// The per-node states, in heap order.
    pub closed spec fn nodes(&self) -> Seq<Node> {
        self.tree@
    }

    /// The structural invariant of the allocator.
    pub open spec fn wf(&self) -> bool {
        tree_wf(self.levels(), self.nodes())
    }

    /// Constructs an entirely free tree of the given depth.
    pub fn new(levels: usize) -> (r: BuddyAllocator)
        requires
            pow2(levels as nat + 1) <= usize::MAX,
        ensures
            r.wf(),
            r.levels() == levels,
            forall|j: int| 0 <= j < r.nodes().len() ==> r.nodes()[j] == Node::Unused,
    {
        proof {
            lemma_pow2_gt(levels as nat + 1);
        }
        let size: usize = pow2_exec(levels + 1) - 1;
        let mut tree: Vec<Node> = Vec::new();
        let mut i: usize = 0;
        while i < size
            invariant
                i <= size,
                tree@.len() == i,
                forall|j: int| 0 <= j < i ==> tree@[j] == Node::Unused,
            decreases size - i,
        {
            tree.push(Node::Unused);
            i = i + 1;
        }
        proof {
            assert forall|j: int| 0 <= j < tree@.len() implies #[trigger] node_ok(tree@, j) by {}
        }
        BuddyAllocator { levels, tree }
    }

    /// The size class serving a request for `s` base units: the page
    /// count (the smallest power of two covering the request, a request
    /// for 0 units being served as 1 unit) and its level, or `None` when
    /// the class would not fit a tree of depth `max_level`.
    fn size_class(s: usize, max_level: usize) -> (r: Option<(usize, usize)>)
        requires
            pow2(max_level as nat + 1) <= usize::MAX as nat + 1,
        ensures
            match r {
                Some(pl) => {
                    &&& pl.1 as nat == level_of(s as nat)
                    &&& pl.0 == pow2(pl.1 as nat)
                    &&& pl.1 <= max_level
                },
                None => level_of(s as nat) > max_level,
            },
    {
        let mut pages: usize = 1;
        let mut lvl: usize = 0;
        while pages < s
            invariant
                pages >= 1,
                pages == pow2(lvl as nat),
                lvl == 0 || pow2((lvl - 1) as nat) < s,
                lvl <= max_level,
                pow2(max_level as nat + 1) <= usize::MAX as nat + 1,
            decreases max_level - lvl,
        {
            if lvl == max_level {
                proof {
                    lemma_level_of(s as nat);
                    if level_of(s as nat) <= max_level {
                        lemma_pow2_le(level_of(s as nat), max_level as nat);
                    }
                }
                return None;
            }
            proof {
                lemma_pow2_le(lvl as nat + 1, max_level as nat);
                assert(pow2(max_level as nat + 1) == 2 * pow2(max_level as nat));
            }
            pages = pages * 2;
            lvl = lvl + 1;
        }
        proof {
            lemma_level_of_unique(s as nat, lvl as nat);
        }
        Some((pages, lvl))
    }

    /// Releases the block of `s` base units at base-unit offset
    /// `page_offset`: the named node ceases to be allocated, buddy pairs
    /// that become entirely free are merged, and every ancestor state is
    /// re-derived.  Releasing a free node that no allocated block covers
    /// is accepted and leaves the tree as it was.  An identifier outside
    /// the tree's range is a caller error and is ruled out by the
    /// precondition.
    pub fn free(&mut self, s: usize, page_offset: usize)
        requires
            old(self).wf(),
            free_pre(old(self).nodes(), old(self).levels(), s as nat, page_offset as nat),
        ensures
            final(self).wf(),
            final(self).levels() == old(self).levels(),
            forall|j: int|
                0 <= j < final(self).nodes().len() ==> ((final(self).nodes()[j] == Node::Used)
                    <==> (old(self).nodes()[j] == Node::Used && j != node_at(
                    old(self).levels(),
                    level_of(s as nat),
                    page_offset as int,
                ))),
    {
        let levels = self.levels;
        let _len = self.tree.len();
        let ghost t0 = self.tree@;
        let ghost lv = levels as nat;
        proof {
            lemma_pow2_pos(lv + 1);
        }
        let class = Self::size_class(s, levels);
        let (pages, lvl) = match class {
            Some(pl) => pl,
            None => unreached(),
        };
        let ghost d = (lv - lvl as nat) as nat;
        proof {
            lemma_pow2_le(d, lv);
            assert(pow2(lv + 1) == 2 * pow2(lv));
            lemma_pow2_pos(d);
        }
        let row0: usize = pow2_exec(levels - lvl) - 1;
        proof {
            lemma_pow2_pos(d);
            lemma_pow2_mul(lvl as nat, d);
            vstd::arithmetic::div_mod::lemma_multiply_divide_lt(
                page_offset as int,
                pages as int,
                pow2(d) as int,
            );
        }
        let n: usize = row0 + page_offset / pages;
        let ghost ni = n as int;
        proof {
            assert(ni == node_at(lv, lvl as nat, page_offset as int));
            assert(pow2(d + 1) == 2 * pow2(d));
            lemma_pow2_le(d + 1, lv + 1);
            assert(ni < t0.len());
            lemma_pow2_even(lv + 1);
        }
        self.free_and_combine(n);
        let ghost t1 = self.tree@;
        let ghost pi = parent(ni);
        if n > 0 {
            let p: usize = (n + 1) / 2 - 1;
            proof {
                assert(p as int == pi);
                if n % 2 == 1 {
                    assert(right(pi) == ni + 1);
                    assert(ni + 1 < t1.len());
                } else {
                    assert(right(pi) == ni);
                }
            }
            self.update_parents(p);
        }
        proof {
            let t2 = self.tree@;
            assert(t2.len() == t0.len());
            // the subtree of the freed node's parent is exactly the set
            // of strict ancestors of the freed node
            if ni > 0 {
                assert forall|j: int| in_subtree(j, pi) implies !in_subtree(ni, pi)
                    && j <= pi by {
                    lemma_in_subtree_le(j, pi);
                    if in_subtree(ni, pi) {
                        lemma_in_subtree_le(ni, pi);
                    }
                }
            }
            assert(t2[ni] == Node::Unused) by {
                if ni > 0 && in_subtree(ni, pi) {
                    lemma_in_subtree_le(ni, pi);
                }
            }
            // exactly the freed node ceases to be Used
            assert forall|j: int| 0 <= j < t2.len() implies ((t2[j] == Node::Used) <==> (
            t0[j] == Node::Used && j != ni)) by {
                if j != ni {
                    if ni > 0 && in_subtree(j, pi) {
                        lemma_subtree_parent(j, ni);
                        lemma_no_used_ancestor(t0, j, ni);
                        assert(t2[j] == combine(t2[left(j)], t2[right(j)]));
                        assert(t2[j] != Node::Used);
                    } else {
                        if in_subtree(j, ni) {
                            lemma_subtree_parent(j, ni);
                        }
                        assert(!in_subtree(j, ni));
                        assert(t2[j] == t0[j]);
                    }
                }
            }
            // the structural invariant is restored
            assert forall|j: int| 0 <= j < t2.len() implies #[trigger] node_ok(t2, j) by {
                assert(node_ok(t0, j));
                if ni > 0 && in_subtree(j, pi) {
                    lemma_in_subtree_le(j, pi);
                    assert(t2[j] == combine(t2[left(j)], t2[right(j)]));
                } else if j == ni {
                    if right(ni) < t2.len() {
                        assert(!in_subtree(left(ni), ni) && !in_subtree(right(ni), ni)) by {
                            if in_subtree(left(ni), ni) {
                                lemma_in_subtree_le(left(ni), ni);
                            }
                            if in_subtree(right(ni), ni) {
                                lemma_in_subtree_le(right(ni), ni);
                            }
                        }
                        assert(!(ni > 0 && in_subtree(left(ni), pi)) && !(ni > 0 && in_subtree(
                        right(ni), pi))) by {
                            if ni > 0 && in_subtree(left(ni), pi) {
                                lemma_in_subtree_le(left(ni), pi);
                            }
                            if ni > 0 && in_subtree(right(ni), pi) {
                                lemma_in_subtree_le(right(ni), pi);
                            }
                        }
                        assert(t2[left(ni)] == t0[left(ni)] && t2[right(ni)] == t0[right(ni)]);
                        assert(t0[left(ni)] == Node::Unused && t0[right(ni)] == Node::Unused);
                    }
                } else {
                    // j is untouched and so are its children
                    if right(j) < t2.len() {
                        assert forall|c: int| c == left(j) || c == right(j) implies t2[c]
                            == t0[c] by {
                            lemma_children_in_subtree(j);
                            if in_subtree(c, ni) {
                                lemma_in_subtree_trans(j, c, ni);
                                lemma_subtree_parent(j, ni);
                                assert(false);
                            }
                            if ni > 0 && in_subtree(c, pi) {
                                lemma_in_subtree_trans(j, c, pi);
                                lemma_subtree_parent(j, ni);
                                assert(false);
                            }
                            assert(!in_subtree(c, ni));
                            assert(t1[c] == t0[c]);
                        }
                    }
                    assert(!in_subtree(j, ni));
                    assert(t2[j] == t0[j]);
                }
            }
        }
    }

    /// Finds the position of the most significant bit of
    /// `requested_pages`: the floor of its base-2 logarithm.
    fn log_base_2(&self, requested_pages: usize) -> (r: usize)
        requires
            requested_pages >= 1,
        ensures
            pow2(r as nat) <= requested_pages < pow2(r as nat + 1),
    {
        let mut exp: usize = 0;
        let mut find_msb_bit: usize = requested_pages;
        find_msb_bit = find_msb_bit / 2;
        proof {
            assert(pow2(0) == 1);
            assert(pow2(1) == 2);
        }
        while find_msb_bit > 0
            invariant
                requested_pages >= 1,
                pow2(exp as nat) <= requested_pages,
                find_msb_bit == requested_pages as int / (pow2(exp as nat + 1) as int),
            decreases find_msb_bit,
        {
            proof {
                lemma_pow2_pos(exp as nat + 1);
                // find_msb_bit > 0 forces another doubling to fit
                if requested_pages < pow2(exp as nat + 1) {
                    vstd::arithmetic::div_mod::lemma_basic_div(
                        requested_pages as int,
                        pow2(exp as nat + 1) as int,
                    );
                }
                assert(pow2(exp as nat + 1) <= requested_pages);
                vstd::arithmetic::div_mod::lemma_div_denominator(
                    requested_pages as int,
                    pow2(exp as nat + 1) as int,
                    2,
                );
                assert(pow2(exp as nat + 2) == 2 * pow2(exp as nat + 1));
                lemma_pow2_gt(exp as nat + 1);
            }
            find_msb_bit = find_msb_bit / 2;
            exp = exp + 1;
        }
        proof {
            lemma_pow2_pos(exp as nat + 1);
            vstd::arithmetic::div_mod::lemma_small_div_converse(
                requested_pages as int,
                pow2(exp as nat + 1) as int,
            );
        }
        exp
    }

    /// Reserves the leftmost free block of the smallest power-of-two
    /// size covering `s` base units (a request for 0 units is served as
    /// 1 unit) and returns its base-unit offset, or -1 when the request
    /// exceeds the total capacity or no free block of that size remains.
    /// On failure the tree is untouched.
    pub fn allocate(&mut self, s: usize) -> (r: isize)
        requires
            old(self).wf(),
        ensures
            final(self).wf(),
            final(self).levels() == old(self).levels(),
            allocate_post(
                old(self).nodes(),
                final(self).nodes(),
                old(self).levels(),
                s as nat,
                r as int,
            ),
    {
        let levels = self.levels;
        let _len = self.tree.len();
        let ghost t0 = self.tree@;
        let ghost lv = levels as nat;
        proof {
            lemma_pow2_pos(lv + 1);
        }
        // the number of pages requested, capped at the capacity
        let class = Self::size_class(s, levels);
        let (requested_pages, lvl) = match class {
            Some(pl) => pl,
            None => {
                return -1;
            },
        };
        proof {
            lemma_pow2_pos(lvl as nat);
        }
        let requested_level = self.log_base_2(requested_pages);
        let ghost l = level_of(s as nat);
        proof {
            // the most significant bit of an exact power of two is its
            // exponent
            if (requested_level as nat) < l {
                lemma_pow2_le(requested_level as nat + 1, l);
            }
            if (requested_level as nat) > l {
                lemma_pow2_le(l + 1, requested_level as nat);
                assert(pow2(l + 1) == 2 * pow2(l));
                lemma_pow2_pos(l);
            }
            assert(requested_level as nat == l);
        }
        let gap = levels - requested_level;
        let ghost g = gap as nat;
        proof {
            assert(pow2(g + 1) == 2 * pow2(g));
            lemma_pow2_le(g + 1, lv + 1);
            assert((0 + 2) * pow2(g) == 2 * pow2(g) && (0 + 1) * pow2(g) == pow2(g))
                by (nonlinear_arith);
            assert(parent(0) == -1);
        }
        let res = self.alloc_rec(0, gap);
        match res {
            None => -1,
            Some(n) => {
                let ghost ni = first_fit(t0, 0, g);
                proof {
                    let t1 = self.tree@;
                    lemma_pow2_pos(g);
                    lemma_pow2_pos(l);
                    lemma_pow2_mul(g, l);
                    lemma_pow2_even(lv + 1);
                    assert(ni < t1.len());
                    assert(t1[ni] == Node::Used);
                    assert forall|a: int|
                        0 <= a && in_subtree(a, ni) && a != ni implies t1[a] != Node::Used by {
                        if t1[a] == Node::Used {
                            lemma_in_subtree_le(a, ni);
                            lemma_covered_is_unused(t1, a, ni);
                        }
                    }
                    lemma_not_used_above(t1, ni);
                    assert(row_start(g) <= ni < row_start(g) + pow2(g));
                    assert((ni - row_start(g)) * pow2(l) < pow2(g) * pow2(l) && 0 <= (ni
                        - row_start(g)) * pow2(l)) by (nonlinear_arith)
                        requires
                            row_start(g) <= ni < row_start(g) + pow2(g),
                            pow2(l) >= 1,
                    ;
                    assert(2 * pow2(lv) == pow2(lv + 1));
                    assert(usize::MAX == 2 * isize::MAX + 1);
                }
                let row0: usize = pow2_exec(gap) - 1;
                let level_offset: usize = n - row0;
                let page_offset: usize = level_offset * pow2_exec(requested_level);
                page_offset as isize
            },
        }
    }

    /// The depth-first allocation search under node `index`, which sits
    /// `gap` levels above the requested size class.  It prefers the left
    /// child and visits the right buddy only once the left subtree is
    /// exhausted, settles on the leftmost free node of the class, marks
    /// it `Used`, and re-derives the states on the way back up.  On
    /// failure the tree is untouched.
    fn alloc_rec(&mut self, index: usize, gap: usize) -> (r: Option<usize>)
        requires
            wf_nodes(old(self).tree@),
            (index as int + 2) * pow2(gap as nat) - 2 < old(self).tree@.len(),
        ensures
            final(self).levels == old(self).levels,
            final(self).tree@.len() == old(self).tree@.len(),
            !avail(old(self).tree@, index as int, gap as nat) ==> r is None && final(self).tree@
                == old(self).tree@,
            avail(old(self).tree@, index as int, gap as nat) ==> ({
                let t0 = old(self).tree@;
                let t1 = final(self).tree@;
                let i = index as int;
                let g = gap as nat;
                let n = first_fit(t0, i, g);
                &&& (i + 1) * pow2(g) - 1 <= n < (i + 2) * pow2(g) - 1
                &&& r == Some(n as usize)
                &&& t0[n] == Node::Unused
                &&& t1[i] != Node::Unused
                &&& forall|j: int|
                    0 <= j < t1.len() ==> ((t1[j] == Node::Used) <==> (t0[j] == Node::Used || j
                        == n))
                &&& forall|j: int| 0 <= j < t1.len() && !in_subtree(i, j) ==> t1[j] == t0[j]
                &&& forall|j: int| 0 <= j < t1.len() && j != parent(i) ==> node_ok(t1, j)
            }),
        decreases gap,
    {
        let _len = self.tree.len();
        let ghost t0 = self.tree@;
        let ghost i = index as int;
        let ghost g = gap as nat;
        proof {
            lemma_pow2_pos(g);
            assert(in_subtree(i, i));
        }
        if gap == 0 {
            proof {
                assert(i < t0.len()) by (nonlinear_arith)
                    requires
                        (i + 2) * pow2(g) - 2 < t0.len(),
                        pow2(g) == 1,
                        i >= 0,
                ;
            }
            if self.tree[index] == Node::Unused {
                self.tree.set(index, Node::Used);
                proof {
                    assert(first_fit(t0, i, g) == i);
                    assert((i + 1) * pow2(g) == i + 1 && (i + 2) * pow2(g) == i + 2)
                        by (nonlinear_arith)
                        requires
                            pow2(g) == 1,
                    ;
                    assert forall|j: int|
                        0 <= j < self.tree@.len() && j != parent(i) implies node_ok(
                        self.tree@,
                        j,
                    ) by {
                        assert(node_ok(t0, j));
                        if j != i {
                            if left(j) == i || right(j) == i {
                                assert(j == parent(i));
                            }
                        }
                    }
                }
                Some(index)
            } else {
                None
            }
        } else {
            proof {
                lemma_pow2_le(1, g);
                assert((i + 2) * 2 <= (i + 2) * pow2(g)) by (nonlinear_arith)
                    requires
                        pow2(g) >= 2,
                        i >= 0,
                ;
                assert(pow2(g) == 2 * pow2((g - 1) as nat));
                assert((2 * i + 2) * pow2((g - 1) as nat) <= (2 * i + 3) * pow2((g - 1) as nat)
                    && (2 * i + 3) * pow2((g - 1) as nat) <= (2 * i + 4) * pow2((g - 1) as nat)
                    && (2 * i + 4) * pow2((g - 1) as nat) == (i + 2) * (2 * pow2((g - 1) as nat))
                    && (2 * i + 2) * pow2((g - 1) as nat) == (i + 1) * (2 * pow2((g - 1) as nat)))
                    by (nonlinear_arith)
                    requires
                        i >= 0,
                        pow2((g - 1) as nat) >= 1,
                ;
            }
            let state = self.tree[index];
            if state == Node::Used || state == Node::Full {
                None
            } else {
                let left_child: usize = index * 2 + 1;
                let rl = self.alloc_rec(left_child, gap - 1);
                match rl {
                    Some(m) => {
                        let ghost tm = self.tree@;
                        let ghost n = first_fit(t0, left(i), (g - 1) as nat);
                        proof {
                            assert(parent(left(i)) == i);
                            assert(avail(t0, left(i), (g - 1) as nat));
                            assert(avail(t0, i, g));
                            assert(first_fit(t0, i, g) == n);
                            assert((i + 1) * pow2(g) - 1 <= n < (i + 2) * pow2(g) - 1);
                        }
                        self.update_node(index);
                        proof {
                            self.lemma_alloc_parent(t0, tm, index as int, gap as nat, n);
                        }
                        Some(m)
                    },
                    None => {
                        let right_child: usize = index * 2 + 2;
                        let rr = self.alloc_rec(right_child, gap - 1);
                        match rr {
                            Some(m) => {
                                let ghost tm = self.tree@;
                                let ghost n = first_fit(t0, right(i), (g - 1) as nat);
                                proof {
                                    assert(parent(right(i)) == i);
                                    assert(!avail(t0, left(i), (g - 1) as nat));
                                    assert(avail(t0, right(i), (g - 1) as nat));
                                    assert(avail(t0, i, g));
                                    assert(first_fit(t0, i, g) == n);
                                    assert((i + 1) * pow2(g) - 1 <= n < (i + 2) * pow2(g) - 1);
                                }
                                self.update_node(index);
                                proof {
                                    self.lemma_alloc_parent(t0, tm, index as int, gap as nat, n);
                                }
                                Some(m)
                            },
                            None => {
                                proof {
                                    assert(!avail(t0, i, g));
                                }
                                None
                            },
                        }
                    },
                }
            }
        }
    }

    /// After a child of `index` has produced the block rooted at `n` and
    /// `index` itself has been recomputed, the search's contract holds
    /// of the whole subtree of `index`.
    proof fn lemma_alloc_parent(&self, t0: Seq<Node>, tm: Seq<Node>, i: int, g: nat, n: int)
        requires
            g >= 1,
            0 <= i,
            (i + 2) * pow2(g) - 2 < t0.len(),
            tm.len() == t0.len(),
            wf_nodes(t0),
            t0[i] == Node::Unused || t0[i] == Node::Split,
            self.tree@ == tm.update(i, combine(tm[left(i)], tm[right(i)])),
            (i + 1) * pow2(g) - 1 <= n < (i + 2) * pow2(g) - 1,
            tm[left(i)] != Node::Unused || tm[right(i)] != Node::Unused,
            forall|j: int|
                0 <= j < tm.len() ==> ((tm[j] == Node::Used) <==> (t0[j] == Node::Used || j == n)),
            forall|j: int|
                0 <= j < tm.len() && !in_subtree(left(i), j) && !in_subtree(right(i), j) ==> tm[j]
                    == t0[j],
            forall|j: int| 0 <= j < tm.len() && j != i ==> node_ok(tm, j),
        ensures
            self.tree@.len() == t0.len(),
            self.tree@[i] != Node::Unused,
            forall|j: int|
                0 <= j < self.tree@.len() ==> ((self.tree@[j] == Node::Used) <==> (t0[j]
                    == Node::Used || j == n)),
            forall|j: int| 0 <= j < self.tree@.len() && !in_subtree(i, j) ==> self.tree@[j] == t0[j],
            forall|j: int| 0 <= j < self.tree@.len() && j != parent(i) ==> node_ok(self.tree@, j),
    {
        let t1 = self.tree@;
        lemma_pow2_le(1, g);
        assert(pow2(0) == 1);
        assert(pow2(1) == 2);
        assert((i + 1) * 2 <= (i + 1) * pow2(g)) by (nonlinear_arith)
            requires
                pow2(g) >= 2,
                i >= 0,
        ;
        assert(n > i);
        assert(right(i) < t0.len()) by {
            assert((i + 2) * 2 <= (i + 2) * pow2(g)) by (nonlinear_arith)
                requires
                    pow2(g) >= 2,
                    i >= 0,
            ;
        }
        lemma_children_in_subtree(i);
        assert(t1[i] == combine(tm[left(i)], tm[right(i)]));
        assert(t1[i] != Node::Unused && t1[i] != Node::Used);
        assert forall|j: int|
            0 <= j < t1.len() implies ((t1[j] == Node::Used) <==> (t0[j] == Node::Used || j
                == n)) by {
            if j != i {
                assert(t1[j] == tm[j]);
            }
        }
        assert forall|j: int| 0 <= j < t1.len() && !in_subtree(i, j) implies t1[j] == t0[j] by {
            if in_subtree(left(i), j) {
                lemma_in_subtree_trans(i, left(i), j);
            }
            if in_subtree(right(i), j) {
                lemma_in_subtree_trans(i, right(i), j);
            }
            assert(tm[j] == t0[j]);
        }
        assert forall|j: int| 0 <= j < t1.len() && j != parent(i) implies node_ok(t1, j) by {
            if j == i {
                assert(t1[left(i)] == tm[left(i)] && t1[right(i)] == tm[right(i)]);
            } else {
                assert(node_ok(tm, j));
                if left(j) == i || right(j) == i {
                    assert(j == parent(i));
                }
            }
        }
    }

    /// Renders the tree level by level: one line per depth, one
    /// character per node, left to right (`O` free, `U` allocated,
    /// `S` split, `F` full).
    pub fn dump(&self) -> (r: String)
        requires
            self.wf(),
        ensures
            r@ == rows_upto(self.nodes(), self.levels() + 1),
    {
        let ghost t = self.tree@;
        let ghost lv = self.levels as nat;
        let _len = self.tree.len();
        let mut out = String::new();
        let mut level: usize = 0;
        while level <= self.levels
            invariant
                self.wf(),
                self.tree@.len() <= usize::MAX,
                level <= self.levels + 1,
                out@ == rows_upto(self.tree@, level as nat),
            decreases self.levels + 1 - level,
        {
            proof {
                lemma_pow2_pos(level as nat);
                lemma_pow2_gt(self.levels as nat + 1);
                lemma_pow2_le(level as nat + 1, self.levels as nat + 1);
                assert(pow2(level as nat + 1) == 2 * pow2(level as nat));
            }
            let row_len: usize = pow2_exec(level);
            let start: usize = row_len - 1;
            let mut k: usize = 0;
            while k < row_len
                invariant
                    self.wf(),
                    self.tree@.len() <= usize::MAX,
                    level <= self.levels,
                    k <= row_len,
                    row_len == pow2(level as nat),
                    start == row_len - 1,
                    2 * row_len - 1 <= self.tree@.len(),
                    out@ == rows_upto(self.tree@, level as nat) + row_chars(
                        self.tree@,
                        level as nat,
                    ).take(k as int),
                decreases row_len - k,
            {
                let piece = match self.tree[start + k] {
                    Node::Unused => "O",
                    Node::Used => "U",
                    Node::Split => "S",
                    Node::Full => "F",
                };
                out.append(piece);
                proof {
                    reveal_strlit("O");
                    reveal_strlit("U");
                    reveal_strlit("S");
                    reveal_strlit("F");
                    let rc = row_chars(self.tree@, level as nat);
                    assert(piece@ == seq![rc[k as int]]);
                    assert(rc.take(k as int + 1) =~= rc.take(k as int) + seq![rc[k as int]]);
                    assert(out@ == rows_upto(self.tree@, level as nat) + rc.take(k as int + 1));
                }
                k = k + 1;
            }
            out.append("\n");
            proof {
                reveal_strlit("\n");
                let rc = row_chars(self.tree@, level as nat);
                assert(rc.take(row_len as int) =~= rc);
                assert(out@ =~= rows_upto(self.tree@, level as nat) + rc + seq!['\n']);
                assert(out@ == rows_upto(self.tree@, level as nat + 1));
            }
            level = level + 1;
        }
        out
    }

    /// Recomputes node `index` from its two children per the propagation
    /// rule: both occupied gives `Full`, both free gives `Unused`, any
    /// other pair gives `Split`.
    fn update_node(&mut self, index: usize)
        requires
            right(index as int) < old(self).tree@.len(),
        ensures
            final(self).levels == old(self).levels,
            final(self).tree@ == old(self).tree@.update(
                index as int,
                combine(old(self).tree@[left(index as int)], old(self).tree@[right(index as int)]),
            ),
    {
        let _len = self.tree.len();
        let left_child: usize = index * 2 + 1;
        let right_child: usize = index * 2 + 2;
        let l = self.tree[left_child];
        let r = self.tree[right_child];
        let l_used_or_full = l == Node::Full || l == Node::Used;
        let r_used_or_full = r == Node::Full || r == Node::Used;
        if l_used_or_full && r_used_or_full {
            self.tree.set(index, Node::Full);
        } else if l == Node::Unused && r == Node::Unused {
            self.tree.set(index, Node::Unused);
        } else {
            self.tree.set(index, Node::Split);
        }
    }

    /// Recomputes every node on the chain from `index` up to the root.
    /// Afterwards each chain node carries exactly the state the
    /// propagation rule derives from its final children; every node off
    /// the chain is untouched.  Reapplying is idempotent.
    fn update_parents(&mut self, index: usize)
        requires
            right(index as int) < old(self).tree@.len(),
        ensures
            final(self).levels == old(self).levels,
            final(self).tree@.len() == old(self).tree@.len(),
            forall|j: int|
                0 <= j < final(self).tree@.len() && !in_subtree(j, index as int)
                    ==> final(self).tree@[j] == old(self).tree@[j],
            forall|j: int|
                0 <= j < final(self).tree@.len() && in_subtree(j, index as int)
                    ==> final(self).tree@[j] == combine(
                    final(self).tree@[left(j)],
                    final(self).tree@[right(j)],
                ),
    {
        let _len: usize = self.tree.len();
        let mut i: usize = index;
        proof {
            assert forall|j: int| in_subtree(j, index as int) implies j <= index as int by {
                lemma_in_subtree_le(j, index as int);
            }
        }
        loop
            invariant_except_break
                i <= index,
                in_subtree(i as int, index as int),
                right(index as int) < self.tree@.len(),
                self.tree@.len() <= usize::MAX,
                self.levels == old(self).levels,
                self.tree@.len() == old(self).tree@.len(),
                forall|j: int|
                    0 <= j < self.tree@.len() && !in_subtree(j, index as int) ==> self.tree@[j]
                        == old(self).tree@[j],
                forall|j: int|
                    0 <= j < self.tree@.len() && in_subtree(j, index as int) && j > i
                        ==> self.tree@[j] == combine(self.tree@[left(j)], self.tree@[right(j)]),
            ensures
                self.levels == old(self).levels,
                self.tree@.len() == old(self).tree@.len(),
                forall|j: int|
                    0 <= j < self.tree@.len() && !in_subtree(j, index as int) ==> self.tree@[j]
                        == old(self).tree@[j],
                forall|j: int|
                    0 <= j < self.tree@.len() && in_subtree(j, index as int) ==> self.tree@[j]
                        == combine(self.tree@[left(j)], self.tree@[right(j)]),
            decreases i,
        {
            proof {
                lemma_in_subtree_le(i as int, index as int);
            }
            let ghost pre = self.tree@;
            self.update_node(i);
            proof {
                assert forall|j: int|
                    0 <= j < self.tree@.len() && in_subtree(j, index as int) && j >= i as int
                        implies self.tree@[j] == combine(
                        self.tree@[left(j)],
                        self.tree@[right(j)],
                    ) by {
                    lemma_in_subtree_le(j, index as int);
                    if j > i as int {
                        assert(pre[j] == combine(pre[left(j)], pre[right(j)]));
                    }
                }
            }
            if i == 0 {
                break;
            }
            let next: usize = (i + 1) / 2 - 1;
            proof {
                assert(next as int == parent(i as int));
                assert(in_subtree(next as int, next as int));
                assert(in_subtree(next as int, i as int));
                lemma_in_subtree_trans(next as int, i as int, index as int);
                // no chain node lies strictly between parent(i) and i
                assert forall|j: int|
                    0 <= j < self.tree@.len() && in_subtree(j, index as int) && j > next as int
                        implies self.tree@[j] == combine(
                        self.tree@[left(j)],
                        self.tree@[right(j)],
                    ) by {
                    if j < i as int {
                        lemma_ancestors_ordered(j, i as int, index as int);
                        if in_subtree(j, i as int) {
                            lemma_in_subtree_le(j, parent(i as int));
                        } else {
                            lemma_in_subtree_le(i as int, j);
                        }
                    }
                }
            }
            i = next;
        }
    }

    /// Marks `index` free and walks up merging buddy pairs: as long as
    /// the buddy of the node just freed is itself entirely free, the
    /// parent is freed as well.  Only `index` and its ancestors are
    /// written; their exact states are re-derived afterwards by
    /// `update_parents`.
    fn free_and_combine(&mut self, index: usize)
        requires
            (index as int) < old(self).tree@.len(),
            old(self).tree@.len() % 2 == 1,
        ensures
            final(self).levels == old(self).levels,
            final(self).tree@.len() == old(self).tree@.len(),
            final(self).tree@[index as int] == Node::Unused,
            forall|j: int|
                0 <= j < final(self).tree@.len() && !in_subtree(j, index as int)
                    ==> final(self).tree@[j] == old(self).tree@[j],
    {
        let _len: usize = self.tree.len();
        let mut i: usize = index;
        self.tree.set(i, Node::Unused);
        loop
            invariant_except_break
                i <= index,
                (index as int) < self.tree@.len(),
                self.tree@.len() <= usize::MAX,
                in_subtree(i as int, index as int),
                self.levels == old(self).levels,
                self.tree@.len() == old(self).tree@.len(),
                self.tree@.len() % 2 == 1,
                self.tree@[index as int] == Node::Unused,
                forall|j: int|
                    0 <= j < self.tree@.len() && !in_subtree(j, index as int) ==> self.tree@[j]
                        == old(self).tree@[j],
            ensures
                self.levels == old(self).levels,
                self.tree@.len() == old(self).tree@.len(),
                self.tree@[index as int] == Node::Unused,
                forall|j: int|
                    0 <= j < self.tree@.len() && !in_subtree(j, index as int) ==> self.tree@[j]
                        == old(self).tree@[j],
            decreases i,
        {
            if i == 0 {
                break;
            }
            let has_right_buddy = i % 2 == 1;
            let buddy: usize = if has_right_buddy {
                i + 1
            } else {
                i - 1
            };
            if self.tree[buddy] == Node::Unused {
                let next: usize = (i + 1) / 2 - 1;
                proof {
                    assert(next as int == parent(i as int));
                    assert(in_subtree(next as int, next as int));
                    assert(in_subtree(next as int, i as int));
                    lemma_in_subtree_trans(next as int, i as int, index as int);
                    lemma_in_subtree_le(i as int, index as int);
                }
                i = next;
                self.tree.set(i, Node::Unused);
            } else {
                break;
            }
        }
    }
}

/// `2^e` as a machine integer.
fn pow2_exec(e: usize) -> (r: usize)
    requires
        pow2(e as nat) <= usize::MAX,
    ensures
        r == pow2(e as nat),
{
    let mut r: usize = 1;
    let mut i: usize = 0;
    while i < e
        invariant
            i <= e,
            r == pow2(i as nat),
            pow2(e as nat) <= usize::MAX,
        decreases e - i,
    {
        proof {
            lemma_pow2_le(i as nat + 1, e as nat);
        }
        r = r * 2;
        i = i + 1;
    }
    r
}

} // verus!

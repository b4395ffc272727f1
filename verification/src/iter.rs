use vstd::prelude::*;

verus! {

use vstd::arithmetic::power2::{pow2, lemma_pow2_pos, lemma_pow2_strictly_increases};
use crate::node::{TreeNode, level_of, right_descendant_of, block_start, lemma_level_char,
    lemma_left_child, lemma_right_descendant, lemma_pow2_le_of_le};
use crate::ranges::{ChunkRanges, spec_split_left, spec_split_right, sorted};
use crate::tree::BaoTree;

/// The post-order walk of the subtree at `n`, truncated to the filled
/// tree of `len` nodes: left subtree first, then the right one, then the
/// node itself.
pub open spec fn spec_post_order_nodes(filled: u64, n: u64) -> Seq<u64>
    decreases level_of(n),
    via check_spec_post_order_nodes
{
    if level_of(n) == 0 {
        seq![n]
    } else if n + pow2((level_of(n) - 1) as nat) > u64::MAX {
        seq![n]
    } else {
        let lc = (n - pow2((level_of(n) - 1) as nat)) as u64;
        match right_descendant_of(n, filled) {
            Some(rd) => spec_post_order_nodes(filled, lc) + spec_post_order_nodes(filled, rd)
                + seq![n],
            None => spec_post_order_nodes(filled, lc) + seq![n],
        }
    }
}

#[via_fn]
proof fn check_spec_post_order_nodes(filled: u64, n: u64) {
    if level_of(n) != 0 && n + pow2((level_of(n) - 1) as nat) <= u64::MAX {
        lemma_left_child(n);
        lemma_right_descendant(n, filled);
    }
}

/// What one stack entry of the iterative walk still owes: the whole
/// subtree walk when unvisited, the node alone when already expanded.
pub open spec fn po_item(filled: u64, it: (TreeNode, bool)) -> Seq<u64> {
    if it.1 {
        seq![it.0.0]
    } else {
        spec_post_order_nodes(filled, it.0.0)
    }
}

/// What the whole stack still owes, top entry first.
pub open spec fn po_stack(filled: u64, items: Seq<(TreeNode, bool)>) -> Seq<u64>
    decreases items.len(),
{
    if items.len() == 0 {
        Seq::empty()
    } else {
        po_item(filled, items.last()) + po_stack(filled, items.drop_last())
    }
}

/// Termination potential of one stack entry.
pub open spec fn po_item_measure(it: (TreeNode, bool)) -> int {
    if it.1 {
        1
    } else {
        pow2((2 * level_of(it.0.0) + 2) as nat) as int
    }
}

/// Termination potential of the whole stack.
pub open spec fn po_stack_measure(items: Seq<(TreeNode, bool)>) -> int
    decreases items.len(),
{
    if items.len() == 0 {
        0
    } else {
        po_item_measure(items.last()) + po_stack_measure(items.drop_last())
    }
}

proof fn lemma_po_push(filled: u64, items: Seq<(TreeNode, bool)>, it: (TreeNode, bool))
    ensures
        po_stack(filled, items.push(it)) == po_item(filled, it) + po_stack(filled, items),
        po_stack_measure(items.push(it)) == po_item_measure(it) + po_stack_measure(items),
{
    assert(items.push(it).drop_last() =~= items);
    assert(items.push(it).last() == it);
}

proof fn lemma_po_measure_nonneg(items: Seq<(TreeNode, bool)>)
    ensures
        po_stack_measure(items) >= 0,
    decreases items.len(),
{
    if items.len() > 0 {
        lemma_po_measure_nonneg(items.drop_last());
    }
}

impl BaoTree {
    /// Every node of the tree in depth-first, left-to-right, post-order,
    /// computed with an explicit stack.
    pub fn iterate(&self) -> (r: Vec<TreeNode>)
        requires
            self.wf(),
        ensures
            r@.map_values(|t: TreeNode| t.0) == spec_post_order_nodes(
                self.spec_filled() as u64,
                self.spec_root() as u64,
            ),
    {
        proof {
            self.lemma_bounds();
            self.lemma_root_props();
        }
        let filled = self.filled_size();
        let root = self.root();
        let mut out: Vec<TreeNode> = Vec::new();
        let mut stack: Vec<(TreeNode, bool)> = Vec::new();
        stack.push((root, false));
        proof {
            lemma_po_push(filled.0, Seq::empty(), (root, false));
            assert(out@.map_values(|t: TreeNode| t.0) + po_stack(filled.0, stack@)
                =~= spec_post_order_nodes(filled.0, root.0));
        }
        while stack.len() > 0
            invariant
                self.wf(),
                filled.0 == self.spec_filled(),
                1 <= filled.0 <= 0x20_0000_0000_0000,
                filled.0 % 2 == 1,
                forall|i: int|
                    0 <= i < stack@.len() ==> (#[trigger] stack@[i]).0.0 < filled.0,
                out@.map_values(|t: TreeNode| t.0) + po_stack(filled.0, stack@)
                    =~= spec_post_order_nodes(filled.0, self.spec_root() as u64),
            decreases po_stack_measure(stack@),
        {
            let ghost stack0 = stack@;
            proof {
                lemma_po_measure_nonneg(stack@.drop_last());
            }
            let (node, visited) = stack.pop().unwrap();
            proof {
                assert(stack0.last() == (node, visited));
                assert(stack@ =~= stack0.drop_last());
            }
            if visited || node.is_leaf() {
                let ghost out0 = out@;
                out.push(node);
                proof {
                    lemma_pow2_pos((2 * level_of(node.0) + 2) as nat);
                    assert(po_item(filled.0, (node, visited)) =~= seq![node.0]);
                    assert(out@.map_values(|t: TreeNode| t.0) =~= out0.map_values(
                        |t: TreeNode| t.0).push(node.0));
                }
            } else {
                proof {
                    lemma_level_char(node.0);
                    lemma_pow2_le_of_le(node.0);
                    lemma_pow2_pos(level_of(node.0));
                    lemma_left_child(node.0);
                    lemma_right_descendant(node.0, filled.0);
                    assert(node.0 + 1 < filled.0);
                }
                let lc = node.left_child().unwrap();
                let rd_opt = node.right_descendant(filled);
                proof {
                    if rd_opt is None {
                        assert(false);
                    }
                }
                let rd = rd_opt.unwrap();
                let ghost s0 = stack@;
                stack.push((node, true));
                let ghost s1 = stack@;
                stack.push((rd, false));
                let ghost s2 = stack@;
                stack.push((lc, false));
                proof {
                    lemma_po_push(filled.0, s0, (node, true));
                    lemma_po_push(filled.0, s1, (rd, false));
                    lemma_po_push(filled.0, s2, (lc, false));
                    assert(po_stack(filled.0, stack@) =~= spec_post_order_nodes(filled.0,
                        node.0) + po_stack(filled.0, s0));
                    // the potential drops: both children sit at lower levels
                    let l = level_of(node.0);
                    let lr = level_of(rd.0);
                    assert(pow2((2 * lr + 2) as nat) <= pow2((2 * l) as nat)) by {
                        if 2 * lr + 2 < 2 * l {
                            lemma_pow2_strictly_increases((2 * lr + 2) as nat, (2 * l) as nat);
                        }
                    }
                    assert(pow2((2 * l) as nat) < pow2((2 * l + 2) as nat)) by {
                        lemma_pow2_strictly_increases((2 * l) as nat, (2 * l + 2) as nat);
                    }
                    assert(pow2((2 * l + 2) as nat) == 4 * pow2((2 * l) as nat)) by {
                        vstd::arithmetic::power2::lemma_pow2_adds((2 * l) as nat, 2);
                        vstd::arithmetic::power2::lemma2_to64();
                    }
                    lemma_pow2_pos((2 * l) as nat);
                    lemma_po_measure_nonneg(s0);
                }
            }
        }
        proof {
            assert(po_stack(filled.0, stack@) =~= Seq::<u64>::empty());
            assert(out@.map_values(|t: TreeNode| t.0) =~= out@.map_values(|t: TreeNode| t.0)
                + po_stack(filled.0, stack@));
        }
        out
    }

    /// The same post-order walk, computed by direct recursion; the
    /// iterative walk returns exactly this sequence.
    pub fn iterate_reference(&self) -> (r: Vec<TreeNode>)
        requires
            self.wf(),
        ensures
            r@.map_values(|t: TreeNode| t.0) == spec_post_order_nodes(
                self.spec_filled() as u64,
                self.spec_root() as u64,
            ),
    {
        proof {
            self.lemma_bounds();
            self.lemma_root_props();
        }
        let filled = self.filled_size();
        let root = self.root();
        let mut res: Vec<TreeNode> = Vec::new();
        iterate_rec(filled, root, &mut res);
        proof {
            assert(res@.map_values(|t: TreeNode| t.0) =~= Seq::<u64>::empty() + spec_post_order_nodes(
                filled.0, root.0));
        }
        res
    }
}

/// One step of the selective pre-order walk: a node together with the
/// parts of the query that fall on its two sides.
pub struct NodeInfo {
    /// The node itself.
    pub node: TreeNode,
    /// The query ranges that fall to the left of the node's middle.
    pub l_range: ChunkRanges,
    /// The query ranges that fall to the right of the node's middle.
    pub r_range: ChunkRanges,
    /// True when the query covers the node completely.
    pub full: bool,
    /// True when the walk stops at this node instead of descending.
    pub query_leaf: bool,
}

/// The mathematical content of a [`NodeInfo`].
pub open spec fn info_view(ni: NodeInfo) -> (u64, Seq<u64>, Seq<u64>, bool, bool) {
    (ni.node.0, ni.l_range@, ni.r_range@, ni.full, ni.query_leaf)
}

/// The selective pre-order walk of the subtree at `n` against the query
/// `ranges`: nothing for an empty query; otherwise the node itself with
/// the query split at its middle chunk, followed by the walks of its two
/// children unless the walk stops here.
pub open spec fn spec_pre_order_walk(tree: BaoTree, n: u64, ranges: Seq<u64>, min_level: u8)
    -> Seq<(u64, Seq<u64>, Seq<u64>, bool, bool)>
    decreases level_of(n),
    via check_spec_pre_order_walk
{
    if ranges.len() == 0 {
        Seq::empty()
    } else {
        let mid_chunk = ((n + 1) * tree.spec_cgc()) as u64;
        let start_chunk = (block_start(n) * tree.spec_cgc()) as u64;
        let full = ranges.len() == 1 && ranges[0] <= start_chunk;
        let l = spec_split_left(ranges, mid_chunk);
        let r = spec_split_right(ranges, mid_chunk);
        let query_leaf = level_of(n) == 0 || (full && level_of(n) < min_level);
        let head = seq![(n, l, r, full, query_leaf)];
        if query_leaf {
            head
        } else if n + pow2((level_of(n) - 1) as nat) > u64::MAX {
            head
        } else {
            let lc = (n - pow2((level_of(n) - 1) as nat)) as u64;
            match right_descendant_of(n, tree.spec_filled() as u64) {
                Some(rd) => head + spec_pre_order_walk(tree, lc, l, min_level)
                    + spec_pre_order_walk(tree, rd, r, min_level),
                None => head + spec_pre_order_walk(tree, lc, l, min_level),
            }
        }
    }
}

#[via_fn]
proof fn check_spec_pre_order_walk(tree: BaoTree, n: u64, ranges: Seq<u64>, min_level: u8) {
    if level_of(n) != 0 && n + pow2((level_of(n) - 1) as nat) <= u64::MAX {
        lemma_left_child(n);
        lemma_right_descendant(n, tree.spec_filled() as u64);
    }
}

/// Every record the selective walk emits carries the query to at least
/// one of its sides: the walk never surfaces a node the query does not
/// touch.
pub proof fn lemma_walk_sides_nonempty(tree: BaoTree, n: u64, ranges: Seq<u64>, min_level: u8,
    k: int)
    requires
        sorted(ranges),
        0 <= k < spec_pre_order_walk(tree, n, ranges, min_level).len(),
    ensures
        spec_pre_order_walk(tree, n, ranges, min_level)[k].1.len() > 0 || spec_pre_order_walk(
            tree, n, ranges, min_level)[k].2.len() > 0,
    decreases level_of(n),
{
    let w = spec_pre_order_walk(tree, n, ranges, min_level);
    assert(ranges.len() > 0);
    let mid_chunk = ((n + 1) * tree.spec_cgc()) as u64;
    let l = crate::ranges::spec_split_left(ranges, mid_chunk);
    let r = crate::ranges::spec_split_right(ranges, mid_chunk);
    crate::ranges::lemma_split_sorted(ranges, mid_chunk);
    if k == 0 {
        crate::ranges::lemma_split_not_both_empty(ranges, mid_chunk);
    } else {
        let query_leaf = level_of(n) == 0 || (ranges.len() == 1 && ranges[0] <= ((block_start(
            n) * tree.spec_cgc()) as u64) && level_of(n) < min_level);
        assert(!query_leaf);
        assert(n + pow2((level_of(n) - 1) as nat) <= u64::MAX);
        lemma_left_child(n);
        lemma_right_descendant(n, tree.spec_filled() as u64);
        let lc = (n - pow2((level_of(n) - 1) as nat)) as u64;
        let wl = spec_pre_order_walk(tree, lc, l, min_level);
        match right_descendant_of(n, tree.spec_filled() as u64) {
            Some(rd) => {
                let wr = spec_pre_order_walk(tree, rd, r, min_level);
                if k - 1 < wl.len() {
                    lemma_walk_sides_nonempty(tree, lc, l, min_level, k - 1);
                    assert(w[k] == wl[k - 1]);
                } else {
                    lemma_walk_sides_nonempty(tree, rd, r, min_level, k - 1 - wl.len());
                    assert(w[k] == wr[k - 1 - wl.len()]);
                }
            },
            None => {
                lemma_walk_sides_nonempty(tree, lc, l, min_level, k - 1);
                assert(w[k] == wl[k - 1]);
            },
        }
    }
}

/// What one stack entry of the iterative selective walk still owes.
pub open spec fn pre_item(tree: BaoTree, min_level: u8, it: (TreeNode, ChunkRanges)) -> Seq<
    (u64, Seq<u64>, Seq<u64>, bool, bool),
> {
    spec_pre_order_walk(tree, it.0.0, it.1@, min_level)
}

/// What the whole stack still owes, top entry first.
pub open spec fn pre_stack(tree: BaoTree, min_level: u8, items: Seq<(TreeNode, ChunkRanges)>)
    -> Seq<(u64, Seq<u64>, Seq<u64>, bool, bool)>
    decreases items.len(),
{
    if items.len() == 0 {
        Seq::empty()
    } else {
        pre_item(tree, min_level, items.last()) + pre_stack(tree, min_level, items.drop_last())
    }
}

/// Termination potential of the selective walk's stack.
pub open spec fn pre_stack_measure(items: Seq<(TreeNode, ChunkRanges)>) -> int
    decreases items.len(),
{
    if items.len() == 0 {
        0
    } else {
        pow2((2 * level_of(items.last().0.0) + 2) as nat) + pre_stack_measure(items.drop_last())
    }
}

proof fn lemma_pre_push(tree: BaoTree, min_level: u8, items: Seq<(TreeNode, ChunkRanges)>, it: (
    TreeNode,
    ChunkRanges,
))
    ensures
        pre_stack(tree, min_level, items.push(it)) == pre_item(tree, min_level, it) + pre_stack(
            tree, min_level, items),
        pre_stack_measure(items.push(it)) == pow2((2 * level_of(it.0.0) + 2) as nat)
            + pre_stack_measure(items),
{
    assert(items.push(it).drop_last() =~= items);
    assert(items.push(it).last() == it);
}

proof fn lemma_pre_measure_nonneg(items: Seq<(TreeNode, ChunkRanges)>)
    ensures
        pre_stack_measure(items) >= 0,
    decreases items.len(),
{
    if items.len() > 0 {
        lemma_pre_measure_nonneg(items.drop_last());
    }
}

impl BaoTree {
    /// The nodes needed to verify the chunks in `ranges`, in depth-first
    /// pre-order, each with the query split at its middle; computed with
    /// an explicit stack.
    pub fn iterate_part_preorder_ref(&self, ranges: &ChunkRanges, min_level: u8) -> (r: Vec<
        NodeInfo,
    >)
        requires
            self.wf(),
            ranges.wf(),
        ensures
            r@.map_values(|ni: NodeInfo| info_view(ni)) == spec_pre_order_walk(
                *self,
                self.spec_root() as u64,
                ranges@,
                min_level,
            ),
            forall|i: int|
                0 <= i < r@.len() ==> (#[trigger] r@[i]).l_range.wf() && r@[i].r_range.wf(),
    {
        proof {
            self.lemma_bounds();
            self.lemma_root_props();
        }
        let filled = self.filled_size();
        let root = self.root();
        let cgc = crate::units::pow2_u64(self.chunk_group_log as u32);
        let mut out: Vec<NodeInfo> = Vec::new();
        let mut stack: Vec<(TreeNode, ChunkRanges)> = Vec::new();
        stack.push((root, ranges.duplicate()));
        proof {
            lemma_pre_push(*self, min_level, Seq::empty(), stack@[0]);
            assert(out@.map_values(|ni: NodeInfo| info_view(ni)) + pre_stack(*self, min_level,
                stack@) =~= spec_pre_order_walk(*self, root.0, ranges@, min_level));
        }
        while stack.len() > 0
            invariant
                self.wf(),
                filled.0 == self.spec_filled(),
                1 <= filled.0 <= 0x20_0000_0000_0000,
                filled.0 % 2 == 1,
                cgc == self.spec_cgc(),
                forall|i: int|
                    0 <= i < stack@.len() ==> (#[trigger] stack@[i]).0.0 < filled.0
                        && stack@[i].1.wf(),
                out@.map_values(|ni: NodeInfo| info_view(ni)) + pre_stack(*self, min_level,
                    stack@) =~= spec_pre_order_walk(*self, self.spec_root() as u64, ranges@,
                    min_level),
                forall|i: int|
                    0 <= i < out@.len() ==> (#[trigger] out@[i]).l_range.wf()
                        && out@[i].r_range.wf(),
            decreases pre_stack_measure(stack@),
        {
            let ghost stack0 = stack@;
            proof {
                lemma_pre_measure_nonneg(stack@.drop_last());
                lemma_pow2_pos((2 * level_of(stack@.last().0.0) + 2) as nat);
            }
            let (node, rng) = stack.pop().unwrap();
            proof {
                assert(stack@ =~= stack0.drop_last());
            }
            if rng.is_empty() {
                proof {
                    assert(pre_item(*self, min_level, (node, rng)) =~= Seq::<(
                        u64,
                        Seq<u64>,
                        Seq<u64>,
                        bool,
                        bool,
                    )>::empty());
                }
            } else {
                proof {
                    self.lemma_bounds();
                    lemma_level_char(node.0);
                    lemma_pow2_le_of_le(node.0);
                    lemma_pow2_pos(level_of(node.0));
                    let b = self.spec_blocks();
                    assert((node.0 + 1) * self.spec_cgc() <= 2 * (b * self.spec_cgc()))
                        by (nonlinear_arith)
                        requires
                            0 <= node.0 + 1 <= 2 * b,
                            self.spec_cgc() >= 1,
                            b >= 1,
                    ;
                    assert(0 <= block_start(node.0) * self.spec_cgc() <= (node.0 + 1)
                        * self.spec_cgc()) by (nonlinear_arith)
                        requires
                            0 <= block_start(node.0) <= node.0 + 1,
                            self.spec_cgc() >= 1,
                    ;
                }
                let level = node.level();
                let span = node.half_span();
                let mid_chunk: u64 = (node.0 + 1) * cgc;
                let start_chunk: u64 = (node.0 + 1 - span) * cgc;
                let bnd = rng.boundaries();
                let full = bnd.len() == 1 && *bnd.get(0).unwrap() <= start_chunk;
                let (lr, rr) = rng.split(mid_chunk);
                let query_leaf = level == 0 || (full && level < min_level as u32);
                let ghost out0 = out@;
                out.push(NodeInfo {
                    node,
                    l_range: lr.duplicate(),
                    r_range: rr.duplicate(),
                    full,
                    query_leaf,
                });
                proof {
                    assert(out@.map_values(|ni: NodeInfo| info_view(ni)) =~= out0.map_values(
                        |ni: NodeInfo| info_view(ni)).push((node.0, lr@, rr@, full,
                        query_leaf)));
                }
                if !query_leaf {
                    proof {
                        lemma_left_child(node.0);
                        lemma_right_descendant(node.0, filled.0);
                        assert(node.0 + 1 < filled.0);
                    }
                    let lc = node.left_child().unwrap();
                    let rd_opt = node.right_descendant(filled);
                    proof {
                        if rd_opt is None {
                            assert(false);
                        }
                    }
                    let rd = rd_opt.unwrap();
                    let ghost s0 = stack@;
                    stack.push((rd, rr));
                    let ghost s1 = stack@;
                    stack.push((lc, lr));
                    proof {
                        lemma_pre_push(*self, min_level, s0, s1.last());
                        lemma_pre_push(*self, min_level, s1, stack@.last());
                        let l = level_of(node.0);
                        let lrd = level_of(rd.0);
                        assert(pow2((2 * lrd + 2) as nat) <= pow2((2 * l) as nat)) by {
                            if 2 * lrd + 2 < 2 * l {
                                lemma_pow2_strictly_increases((2 * lrd + 2) as nat, (2
                                    * l) as nat);
                            }
                        }
                        assert(pow2((2 * l + 2) as nat) == 4 * pow2((2 * l) as nat)) by {
                            vstd::arithmetic::power2::lemma_pow2_adds((2 * l) as nat, 2);
                            vstd::arithmetic::power2::lemma2_to64();
                        }
                        lemma_pow2_pos((2 * l) as nat);
                        assert(pre_stack(*self, min_level, stack@) =~= spec_pre_order_walk(
                            *self, lc.0, lr@, min_level) + spec_pre_order_walk(*self, rd.0,
                            rr@, min_level) + pre_stack(*self, min_level, s0));
                    }
                }
            }
        }
        proof {
            assert(out@.map_values(|ni: NodeInfo| info_view(ni)) =~= out@.map_values(
                |ni: NodeInfo| info_view(ni)) + pre_stack(*self, min_level, stack@));
        }
        out
    }
}

/// Recursive post-order traversal of the subtree at `node`.
fn iterate_rec(filled: TreeNode, node: TreeNode, res: &mut Vec<TreeNode>)
    requires
        node.0 < filled.0,
        filled.0 <= 0x20_0000_0000_0000,
        filled.0 % 2 == 1,
    ensures
        final(res)@.map_values(|t: TreeNode| t.0) == old(res)@.map_values(|t: TreeNode| t.0)
            + spec_post_order_nodes(filled.0, node.0),
    decreases level_of(node.0),
{
    proof {
        lemma_level_char(node.0);
        lemma_pow2_le_of_le(node.0);
        lemma_pow2_pos(level_of(node.0));
    }
    if !node.is_leaf() {
        proof {
            lemma_left_child(node.0);
            lemma_right_descendant(node.0, filled.0);
            assert(node.0 + 1 < filled.0);
        }
        let lc = node.left_child().unwrap();
        let rd_opt = node.right_descendant(filled);
        proof {
            if rd_opt is None {
                assert(false);
            }
        }
        let rd = rd_opt.unwrap();
        iterate_rec(filled, lc, res);
        iterate_rec(filled, rd, res);
        let ghost r0 = res@;
        res.push(node);
        proof {
            assert(res@.map_values(|t: TreeNode| t.0) =~= r0.map_values(|t: TreeNode| t.0)
                .push(node.0));
            assert(res@.map_values(|t: TreeNode| t.0) =~= old(res)@.map_values(
                |t: TreeNode| t.0) + spec_post_order_nodes(filled.0, node.0));
        }
    } else {
        let ghost r0 = res@;
        res.push(node);
        proof {
            assert(res@.map_values(|t: TreeNode| t.0) =~= r0.map_values(|t: TreeNode| t.0)
                .push(node.0));
            assert(res@.map_values(|t: TreeNode| t.0) =~= old(res)@.map_values(
                |t: TreeNode| t.0) + spec_post_order_nodes(filled.0, node.0));
        }
    }
}

} // verus!

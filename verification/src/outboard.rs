use vstd::prelude::*;

verus! {

use vstd::arithmetic::power2::{pow2, lemma_pow2_adds, lemma_pow2_pos, lemma_pow2_unfold,
    lemma_pow2_strictly_increases};
use vstd::math::min;
use vstd::slice::slice_subrange;
use crate::units::{ByteNum, ChunkNum, ceil_div, lemma_ceil_div};
use crate::node::{TreeNode, LeafNode, level_of, span_of, block_start, block_end,
    right_descendant_of, lemma_level_char, lemma_left_child, lemma_right_descendant,
    lemma_pow2_le_of_le};
use crate::tree::BaoTree;
use crate::hash::{hash_subtree, hash_block, parent_cv, parent_hash, lemma_subtree_split};

/// First byte the node covers.
pub open spec fn node_start_byte(tree: BaoTree, n: u64) -> int {
    block_start(n) * tree.spec_cgb()
}

/// One past the last byte the node covers, clamped to the blob.
pub open spec fn node_end_byte(tree: BaoTree, n: u64) -> int {
    min(block_end(n) * tree.spec_cgb(), tree.size.0 as int)
}

/// The bytes of the blob the node covers.
pub open spec fn node_bytes(tree: BaoTree, data: Seq<u8>, n: u64) -> Seq<u8> {
    data.subrange(node_start_byte(tree, n), node_end_byte(tree, n))
}

/// The chunk index at which the node's data starts.
pub open spec fn node_chunk(tree: BaoTree, n: u64) -> u64 {
    (block_start(n) * tree.spec_cgc() + tree.start_chunk.0) as u64
}

/// The subtree hash of the node's data.
pub open spec fn node_hash(tree: BaoTree, data: Seq<u8>, n: u64, is_root: bool) -> Seq<u8> {
    hash_subtree(node_chunk(tree, n), node_bytes(tree, data, n), is_root)
}

/// How many actual blocks of the blob the node covers.
pub open spec fn covered_blocks(tree: BaoTree, n: u64) -> int {
    min(block_end(n), tree.spec_blocks()) - block_start(n)
}

/// The hash of the left half of a leaf.
pub open spec fn leaf_left_hash(tree: BaoTree, data: Seq<u8>, n: u64, is_root: bool) -> Seq<
    u8,
> {
    hash_subtree(node_chunk(tree, n), data.subrange(node_start_byte(tree, n), tree.leaf_mid(n)),
        is_root)
}

/// The hash of the right half of a leaf; only meaningful for persisted
/// leaves.
pub open spec fn leaf_right_hash(tree: BaoTree, data: Seq<u8>, n: u64) -> Seq<u8> {
    hash_subtree((node_chunk(tree, n) + tree.spec_cgc()) as u64,
        data.subrange(tree.leaf_mid(n), tree.leaf_end(n)), false)
}

/// The post-order outboard bytes of the subtree rooted at `n`: the pairs
/// of the left subtree, those of the right one, then this node's own
/// `(left_hash, right_hash)` pair; a leaf contributes its own chunk-level
/// pair, or nothing when its right half is empty.
pub open spec fn spec_outboard(tree: BaoTree, data: Seq<u8>, n: u64) -> Seq<u8>
    decreases level_of(n),
    via check_spec_outboard
{
    if level_of(n) == 0 {
        if tree.spec_persisted(n) {
            leaf_left_hash(tree, data, n, false) + leaf_right_hash(tree, data, n)
        } else {
            Seq::empty()
        }
    } else if n + pow2((level_of(n) - 1) as nat) > u64::MAX {
        Seq::empty()
    } else {
        let lc = (n - pow2((level_of(n) - 1) as nat)) as u64;
        match right_descendant_of(n, tree.spec_filled() as u64) {
            Some(rd) => spec_outboard(tree, data, lc) + spec_outboard(tree, data, rd)
                + node_hash(tree, data, lc, false) + node_hash(tree, data, rd, false),
            None => Seq::empty(),
        }
    }
}

#[via_fn]
proof fn check_spec_outboard(tree: BaoTree, data: Seq<u8>, n: u64) {
    if level_of(n) != 0 && n + pow2((level_of(n) - 1) as nat) <= u64::MAX {
        lemma_left_child(n);
        lemma_right_descendant(n, tree.spec_filled() as u64);
    }
}

/// Append the 32 bytes of a hash.
fn push_hash(out: &mut Vec<u8>, h: &[u8; 32])
    ensures
        final(out)@ == old(out)@ + h@,
{
    let mut i: usize = 0;
    while i < 32
        invariant
            0 <= i <= 32,
            out@ =~= old(out)@ + h@.subrange(0, i as int),
        decreases 32 - i,
    {
        out.push(h[i]);
        i = i + 1;
    }
    proof {
        assert(h@.subrange(0, 32) =~= h@);
        assert(out@ =~= old(out)@ + h@);
    }
}

/// Walk the subtree at `node` bottom-up: append its post-order hash pairs
/// to `out` and return its subtree hash.
#[verifier::rlimit(80)]
fn outboard_rec(tree: &BaoTree, node: TreeNode, is_root: bool, data: &[u8], out: &mut Vec<
    u8,
>) -> (r: [u8; 32])
    requires
        tree.wf(),
        data@.len() == tree.size.0,
        node.0 < tree.spec_filled(),
    ensures
        final(out)@ == old(out)@ + spec_outboard(*tree, data@, node.0),
        final(out)@.len() == old(out)@.len() + 64 * (covered_blocks(*tree, node.0) - 1),
        1 <= covered_blocks(*tree, node.0),
        r@ == node_hash(*tree, data@, node.0, is_root),
    decreases level_of(node.0),
{
    proof {
        tree.lemma_bounds();
        tree.lemma_root_props();
        tree.lemma_in_tree(node.0);
        lemma_level_char(node.0);
        lemma_pow2_pos(level_of(node.0));
        vstd::arithmetic::power2::lemma2_to64();
    }
    let l = node.level();
    if l == 0 {
        let leaf = LeafNode(node.0);
        let n = node.0;
        let ghost cgb = tree.spec_cgb();
        let ghost cgc = tree.spec_cgc();
        let ghost b = tree.spec_blocks();
        proof {
            tree.lemma_leaf_bounds(n);
            assert(span_of(n) == 1);
            assert(node_start_byte(*tree, n) == n * cgb);
            assert((n + 1) * cgb == n * cgb + cgb && (n + 2) * cgb == n * cgb + 2 * cgb)
                by (nonlinear_arith);
            assert(node_end_byte(*tree, n) == tree.leaf_end(n));
            // persisted <==> two covered blocks
            if (n + 1) * cgb < tree.size.0 {
                assert(n + 2 <= b) by (nonlinear_arith)
                    requires
                        (n + 1) * cgb < tree.size.0,
                        b * cgb >= tree.size.0,
                        cgb >= 1,
                        n >= 0,
                ;
            } else {
                assert(b <= n + 1) by (nonlinear_arith)
                    requires
                        (n + 1) * cgb >= tree.size.0,
                        (b - 1) * cgb < tree.size.0 || b == 1,
                        b >= 1,
                        n >= 0,
                        cgb >= 1,
                ;
            }
        }
        let (start, mid, end) = tree.leaf_byte_ranges3(leaf);
        let chunk0 = tree.chunk_num(leaf);
        proof {
            // the chunk counter of each half stays far from the limit
            assert(n * cgc <= b * cgc) by (nonlinear_arith)
                requires
                    0 <= n <= b,
                    cgc >= 1,
            ;
            lemma_ceil_div(tree.leaf_mid(n) - node_start_byte(*tree, n), 1024);
            lemma_ceil_div(tree.leaf_end(n) - tree.leaf_mid(n), 1024);
            assert(cgb == 1024 * cgc);
            assert(ceil_div(tree.leaf_mid(n) - node_start_byte(*tree, n), 1024) <= cgc)
                by (nonlinear_arith)
                requires
                    tree.leaf_mid(n) - node_start_byte(*tree, n) <= cgb,
                    cgb == 1024 * cgc,
                    (ceil_div(tree.leaf_mid(n) - node_start_byte(*tree, n), 1024) - 1) * 1024
                        < tree.leaf_mid(n) - node_start_byte(*tree, n),
                    cgc >= 1,
            ;
            assert(ceil_div(tree.leaf_end(n) - tree.leaf_mid(n), 1024) <= cgc)
                by (nonlinear_arith)
                requires
                    tree.leaf_end(n) - tree.leaf_mid(n) <= cgb,
                    cgb == 1024 * cgc,
                    (ceil_div(tree.leaf_end(n) - tree.leaf_mid(n), 1024) - 1) * 1024
                        < tree.leaf_end(n) - tree.leaf_mid(n),
                    cgc >= 1,
            ;
        }
        let dlen: usize = data.len();
        proof {
            assert(0 <= start.0 <= mid.0 <= end.0 <= data@.len());
            assert(data@.len() == dlen);
            assert(end.0 <= usize::MAX);
        }
        let l_data = slice_subrange(data, start.0 as usize, mid.0 as usize);
        let l_hash = hash_block(chunk0.0, l_data, if mid.0 < end.0 {
            false
        } else {
            is_root
        });
        if mid.0 < end.0 {
            // persisted: hash the right half, emit the pair, combine
            let r_data = slice_subrange(data, mid.0 as usize, end.0 as usize);
            let cgc_exec = crate::units::pow2_u64(tree.chunk_group_log as u32);
            let r_hash = hash_block(chunk0.0 + cgc_exec, r_data, false);
            push_hash(out, &l_hash);
            push_hash(out, &r_hash);
            let h = parent_cv(&l_hash, &r_hash, is_root);
            proof {
                // the whole leaf splits at exactly one block of chunks
                let bytes = node_bytes(*tree, data@, n);
                let g = tree.chunk_group_log as nat;
                let nck = ceil_div(bytes.len() as int, 1024);
                lemma_ceil_div(bytes.len() as int, 1024);
                lemma_pow2_adds(10, g);
                assert(pow2(10) == 1024);
                assert(cgb < bytes.len() <= 2 * cgb);
                assert(pow2(g) < nck <= 2 * pow2(g)) by (nonlinear_arith)
                    requires
                        cgb < bytes.len() <= 2 * cgb,
                        cgb == 1024 * cgc,
                        cgc == pow2(g),
                        nck * 1024 >= bytes.len(),
                        (nck - 1) * 1024 < bytes.len(),
                        cgc >= 1,
                ;
                lemma_subtree_split(nck, g);
                assert(bytes.subrange(0, cgc * 1024) =~= data@.subrange(
                    node_start_byte(*tree, n), tree.leaf_mid(n)));
                assert(bytes.subrange(cgc * 1024, bytes.len() as int) =~= data@.subrange(
                    tree.leaf_mid(n), tree.leaf_end(n)));
                assert(h@ == node_hash(*tree, data@, n, is_root));
                assert(out@ =~= old(out)@ + spec_outboard(*tree, data@, n));
            }
            h
        } else {
            proof {
                assert(data@.subrange(node_start_byte(*tree, n), tree.leaf_mid(n))
                    =~= node_bytes(*tree, data@, n));
                assert(spec_outboard(*tree, data@, n) =~= Seq::<u8>::empty());
                assert(out@ =~= old(out)@ + spec_outboard(*tree, data@, n));
            }
            l_hash
        }
    } else {
        let n = node.0;
        let ghost cgb = tree.spec_cgb();
        let ghost cgc = tree.spec_cgc();
        let ghost b = tree.spec_blocks();
        let ghost filled = tree.spec_filled();
        proof {
            lemma_pow2_le_of_le(n);
            lemma_left_child(n);
            lemma_right_descendant(n, filled as u64);
            // an odd node below the odd filled count has a right part
            assert(n + 1 < filled);
        }
        let filled_node = tree.filled_size();
        let lc = node.left_child().unwrap();
        let rd_opt = node.right_descendant(filled_node);
        proof {
            if rd_opt is None {
                assert(false);
            }
        }
        let rd = rd_opt.unwrap();
        let l_hash = outboard_rec(tree, lc, false, data, out);
        let r_hash = outboard_rec(tree, rd, false, data, out);
        push_hash(out, &l_hash);
        push_hash(out, &r_hash);
        let h = parent_cv(&l_hash, &r_hash, is_root);
        proof {
            let g = tree.chunk_group_log as nat;
            let lvl = level_of(n);
            let s = pow2(lvl) as int;
            lemma_pow2_unfold(lvl);
            // geometry of the two children
            assert(block_start(lc.0) == block_start(n));
            assert(block_end(lc.0) == n + 1);
            assert(block_start(rd.0) == n + 1);
            let ke = level_of(rd.0);
            lemma_pow2_unfold((ke + 1) as nat);
            assert(block_end(rd.0) == n + 1 + pow2((ke + 1) as nat));
            if ke + 1 < lvl {
                assert(n + pow2((ke + 1) as nat) >= filled);
                assert(block_end(rd.0) >= b);
                lemma_pow2_strictly_increases((ke + 1) as nat, lvl);
            } else {
                assert(ke + 1 == lvl);
                assert(block_end(rd.0) == block_end(n));
            }
            assert(block_end(rd.0) <= block_end(n));
            // byte ranges: the left child is full, the right is clamped
            assert((n + 1) * cgb < tree.size.0);
            assert(b * cgb >= tree.size.0);
            assert(block_end(rd.0) * cgb >= min(block_end(n) * cgb, tree.size.0 as int))
                by (nonlinear_arith)
                requires
                    block_end(rd.0) >= b || block_end(rd.0) == block_end(n),
                    b * cgb >= tree.size.0,
                    cgb >= 1,
                    block_end(rd.0) >= 0,
            ;
            assert(node_end_byte(*tree, rd.0) == node_end_byte(*tree, n)) by (nonlinear_arith)
                requires
                    node_end_byte(*tree, rd.0) == min(block_end(rd.0) * cgb,
                        tree.size.0 as int),
                    node_end_byte(*tree, n) == min(block_end(n) * cgb, tree.size.0 as int),
                    block_end(rd.0) >= b || block_end(rd.0) == block_end(n),
                    block_end(rd.0) <= block_end(n),
                    b * cgb >= tree.size.0,
                    cgb >= 1,
                    block_end(rd.0) >= 0,
                    block_end(n) >= block_end(rd.0),
            ;
            assert(node_end_byte(*tree, lc.0) == (n + 1) * cgb) by {
                assert(block_end(lc.0) * cgb == (n + 1) * cgb);
            }
            // the subtree split of the whole range falls on the middle
            let bytes = node_bytes(*tree, data@, n);
            let startb = node_start_byte(*tree, n);
            let midb = (n + 1) * cgb;
            let endb = node_end_byte(*tree, n);
            assert(block_start(n) == n + 1 - s);
            assert(midb - startb == s * cgb) by (nonlinear_arith)
                requires
                    startb == (n + 1 - s) * cgb,
                    midb == (n + 1) * cgb,
            ;
            assert(endb <= startb + 2 * s * cgb) by (nonlinear_arith)
                requires
                    endb <= block_end(n) * cgb,
                    block_end(n) == n + 1 + s,
                    startb == (n + 1 - s) * cgb,
                    cgb >= 1,
                    s >= 1,
            ;
            assert(midb < endb) by {
                if block_end(n) * cgb <= tree.size.0 {
                    assert((n + 1) * cgb < block_end(n) * cgb) by (nonlinear_arith)
                        requires
                            n + 1 < block_end(n),
                            cgb >= 1,
                            n >= 0,
                    ;
                } else {
                    assert(endb == tree.size.0);
                }
            }
            let nck = ceil_div(bytes.len() as int, 1024);
            lemma_ceil_div(bytes.len() as int, 1024);
            lemma_pow2_adds(10, g);
            assert(pow2(10) == 1024);
            lemma_pow2_adds(g, lvl);
            assert(s * cgc == pow2((g + lvl) as nat)) by (nonlinear_arith)
                requires
                    s == pow2(lvl),
                    cgc == pow2(g as nat),
                    pow2((g + lvl) as nat) == pow2(g as nat) * pow2(lvl),
            ;
            assert(pow2((g + lvl) as nat) < nck <= 2 * pow2((g + lvl) as nat))
                by (nonlinear_arith)
                requires
                    s * cgb < bytes.len() <= 2 * s * cgb,
                    cgb == 1024 * cgc,
                    s * cgc == pow2((g + lvl) as nat),
                    nck * 1024 >= bytes.len(),
                    (nck - 1) * 1024 < bytes.len(),
                    cgc >= 1,
                    s >= 1,
            ;
            lemma_subtree_split(nck, (g + lvl) as nat);
            assert(pow2((g + lvl) as nat) * 1024 == s * cgb) by (nonlinear_arith)
                requires
                    s * cgc == pow2((g + lvl) as nat),
                    cgb == 1024 * cgc,
            ;
            assert(bytes.subrange(0, s * cgb) =~= node_bytes(*tree, data@, lc.0));
            assert(bytes.subrange(s * cgb, bytes.len() as int) =~= node_bytes(*tree, data@,
                rd.0));
            // chunk counters line up with the split
            assert(node_chunk(*tree, lc.0) == node_chunk(*tree, n));
            assert(block_start(rd.0) * cgc == block_start(n) * cgc + s * cgc)
                by (nonlinear_arith)
                requires
                    block_start(rd.0) == block_start(n) + s,
            ;
            assert(block_start(n) * cgc >= 0 && block_start(n) * cgc + s * cgc == block_start(
                rd.0) * cgc) by (nonlinear_arith)
                requires
                    block_start(rd.0) == block_start(n) + s,
                    block_start(n) >= 0,
                    cgc >= 1,
                    s >= 1,
            ;
            assert(block_start(rd.0) * cgc <= b * cgc) by (nonlinear_arith)
                requires
                    block_start(rd.0) <= b,
                    cgc >= 1,
                    block_start(rd.0) >= 0,
            ;
            assert(node_chunk(*tree, rd.0) == node_chunk(*tree, n) + pow2((g + lvl) as nat));
            assert(h@ == node_hash(*tree, data@, n, is_root));
            // covered blocks add up across the two children
            assert(covered_blocks(*tree, lc.0) == s);
            assert(covered_blocks(*tree, n) == s + covered_blocks(*tree, rd.0));
            assert(out@ =~= old(out)@ + spec_outboard(*tree, data@, n));
        }
        h
    }
}

impl BaoTree {
/// Compute the post-order outboard for `data`: every interior hash pair
/// in post-order, then the blob size as eight little-endian bytes; also
/// returns the root hash.
pub fn outboard_post_order_mem(data: &[u8], chunk_group_log: u8) -> (r: (Vec<u8>, [u8; 32]))
    requires
        data@.len() < 0x4000_0000_0000_0000,
        chunk_group_log <= 52,
    ensures
        ({
            let tree = BaoTree {
                size: ByteNum(data@.len() as u64),
                chunk_group_log,
                start_chunk: ChunkNum(0),
            };
            &&& r.0@ == spec_outboard(tree, data@, tree.spec_root() as u64)
                + vstd::bytes::spec_u64_to_le_bytes(data@.len() as u64)
            &&& r.0@.len() == 64 * (tree.spec_blocks() - 1) + 8
            &&& r.1@ == hash_subtree(0, data@, true)
        }),
{
    let size: u64 = data.len() as u64;
    let tree = BaoTree::new(ByteNum(size), chunk_group_log);
    proof {
        tree.lemma_bounds();
        tree.lemma_root_props();
    }
    let root = tree.root();
    let mut out: Vec<u8> = Vec::new();
    let hash = outboard_rec(&tree, root, true, data, &mut out);
    proof {
        let rt = tree.spec_root() as u64;
        assert(node_chunk(tree, rt) == 0);
        assert(node_end_byte(tree, rt) == tree.size.0) by (nonlinear_arith)
            requires
                node_end_byte(tree, rt) == min(block_end(rt) * tree.spec_cgb(),
                    tree.size.0 as int),
                block_end(rt) >= tree.spec_blocks(),
                tree.spec_blocks() * tree.spec_cgb() >= tree.size.0,
                tree.spec_cgb() >= 1,
                block_end(rt) >= 0,
        ;
        assert(node_start_byte(tree, rt) == 0) by (nonlinear_arith)
            requires
                node_start_byte(tree, rt) == block_start(rt) * tree.spec_cgb(),
                block_start(rt) == 0,
        ;
        assert(node_bytes(tree, data@, rt) =~= data@);
        assert(hash@ == hash_subtree(0, data@, true));
        assert(covered_blocks(tree, rt) == tree.spec_blocks());
    }
    let mut tail = vstd::bytes::u64_to_le_bytes(size);
    out.append(&mut tail);
    proof {
        vstd::bytes::lemma_auto_spec_u64_to_from_le_bytes();
    }
    (out, hash)
}
}

} // verus!

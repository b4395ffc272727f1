use vstd::prelude::*;

verus! {

use vstd::arithmetic::power2::{pow2, lemma_pow2_pos};
use vstd::slice::slice_subrange;
use crate::units::{ByteNum, ChunkNum, ceil_div, lemma_ceil_div};
use crate::node::{TreeNode, LeafNode, level_of, block_start, right_descendant_of,
    lemma_level_char, lemma_left_child, lemma_right_descendant, lemma_pow2_le_of_le,
    lemma_popcount_pos, popcount};
use crate::tree::{BaoTree, PostOrderOffset};
use crate::ranges::{ChunkRanges, spec_split_left, spec_split_right, spec_canonical};
use crate::hash::{hash_subtree, hash_block, parent_cv, parent_hash};
use crate::outboard::{node_start_byte, node_chunk};
use crate::stack::{HashStack, hash_stack_view, stack_new, stack_push, stack_pop};

/// Why a decode stopped early.
#[derive(Debug, Clone, Copy, PartialEq, Eq, Structural)]
pub enum DecodeError {
    /// A hash read from the stream did not match the expected value.
    HashMismatch,
    /// The stream ended before the expected bytes.
    UnexpectedEof,
    /// The declared blob size is beyond what this library handles.
    InvalidSize,
}

/// Append a slice of bytes.
pub(crate) fn push_bytes(out: &mut Vec<u8>, s: &[u8])
    ensures
        final(out)@ == old(out)@ + s@,
{
    let mut i: usize = 0;
    while i < s.len()
        invariant
            0 <= i <= s@.len(),
            out@ =~= old(out)@ + s@.subrange(0, i as int),
        decreases s@.len() - i,
    {
        out.push(*vstd::slice::slice_index_get(s, i));
        i = i + 1;
    }
    proof {
        assert(s@.subrange(0, s@.len() as int) =~= s@);
        assert(out@ =~= old(out)@ + s@);
    }
}

/// Relies on `<[u8; 32]>::try_from` on a slice of exactly 32 bytes: the
/// bytes are copied unchanged.
#[verifier::external_body]
pub(crate) fn to_hash32(s: &[u8]) -> (r: [u8; 32])
    requires
        s@.len() == 32,
    ensures
        r@ == s@,
{
    <[u8; 32]>::try_from(s).unwrap()
}

/// Bytewise equality of two hashes.
pub(crate) fn hash_eq(a: &[u8; 32], b: &[u8; 32]) -> (r: bool)
    ensures
        r <==> a@ == b@,
{
    let mut i: usize = 0;
    while i < 32
        invariant
            0 <= i <= 32,
            forall|j: int| 0 <= j < i ==> a@[j] == b@[j],
        decreases 32 - i,
    {
        if a[i] != b[i] {
            return false;
        }
        i = i + 1;
    }
    proof {
        assert(a@ =~= b@);
    }
    true
}

/// The 64 bytes the encoder copies out of the outboard for a node, if
/// the node has an outboard entry at all.
pub open spec fn spec_pair_bytes(tree: BaoTree, outboard: Seq<u8>, n: u64) -> Seq<u8> {
    match tree.spec_post_order_offset(n) {
        PostOrderOffset::Skip => Seq::empty(),
        PostOrderOffset::Stable(p) => outboard.subrange(p.0 * 64, p.0 * 64 + 64),
        PostOrderOffset::Unstable(p) => outboard.subrange(p.0 * 64, p.0 * 64 + 64),
    }
}

/// The bytes the encoder emits for the subtree at `n` against the query
/// `ranges`: nothing for an empty query; otherwise the node's outboard
/// pair, then for a leaf the queried data halves, and for a branch the
/// encodings of the two children against the split query.
pub open spec fn spec_encode_rec(tree: BaoTree, data: Seq<u8>, outboard: Seq<u8>, n: u64,
    ranges: Seq<u64>) -> Seq<u8>
    decreases level_of(n),
    via check_spec_encode_rec
{
    if ranges.len() == 0 {
        Seq::empty()
    } else {
        let pair = spec_pair_bytes(tree, outboard, n);
        let mid_chunk = ((n + 1) * tree.spec_cgc()) as u64;
        let l = spec_split_left(ranges, mid_chunk);
        let r = spec_split_right(ranges, mid_chunk);
        if level_of(n) == 0 {
            pair + (if l.len() > 0 {
                data.subrange(node_start_byte(tree, n), tree.leaf_mid(n))
            } else {
                Seq::empty()
            }) + (if r.len() > 0 {
                data.subrange(tree.leaf_mid(n), tree.leaf_end(n))
            } else {
                Seq::empty()
            })
        } else if n + pow2((level_of(n) - 1) as nat) > u64::MAX {
            pair
        } else {
            let lc = (n - pow2((level_of(n) - 1) as nat)) as u64;
            match right_descendant_of(n, tree.spec_filled() as u64) {
                Some(rd) => pair + spec_encode_rec(tree, data, outboard, lc, l)
                    + spec_encode_rec(tree, data, outboard, rd, r),
                None => pair,
            }
        }
    }
}

#[via_fn]
proof fn check_spec_encode_rec(tree: BaoTree, data: Seq<u8>, outboard: Seq<u8>, n: u64,
    ranges: Seq<u64>) {
    if level_of(n) != 0 && n + pow2((level_of(n) - 1) as nat) <= u64::MAX {
        lemma_left_child(n);
        lemma_right_descendant(n, tree.spec_filled() as u64);
    }
}

/// The outboard entry of a node inside the tree lies inside the first
/// `64 * (blocks - 1)` outboard bytes.
proof fn lemma_pair_in_outboard(tree: BaoTree, n: u64)
    requires
        tree.wf(),
        n < tree.spec_filled(),
    ensures
        match tree.spec_post_order_offset(n) {
            PostOrderOffset::Skip => true,
            PostOrderOffset::Stable(p) => p.0 * 64 + 64 <= 64 * tree.spec_outboard_hash_pairs(),
            PostOrderOffset::Unstable(p) => p.0 * 64 + 64 <= 64 * tree
                .spec_outboard_hash_pairs(),
        },
{
    tree.lemma_bounds();
    lemma_level_char(n);
    let b = tree.spec_blocks();
    let cgb = tree.spec_cgb();
    match tree.spec_post_order_offset(n) {
        PostOrderOffset::Skip => {},
        PostOrderOffset::Stable(p) => {
            // sealed: the node's block range ends inside the blob
            lemma_pow2_pos(level_of(n));
            assert(crate::node::block_end(n) * cgb <= tree.size.0);
            assert(crate::node::block_end(n) <= b) by (nonlinear_arith)
                requires
                    crate::node::block_end(n) * cgb <= tree.size.0,
                    b * cgb >= tree.size.0,
                    cgb >= 1,
                    crate::node::block_end(n) >= 0,
            ;
            if block_start(n) != 0 {
                crate::node::lemma_popcount_le_self(block_start(n) as u64);
            }
            let off = crate::node::post_order_offset_of(n);
            assert(0 <= off);
            assert(off <= crate::node::block_end(n) - 2);
            assert(p.0 == off);
            assert(p.0 <= b - 2);
        },
        PostOrderOffset::Unstable(p) => {
            lemma_popcount_pos((n + 1) as u64);
            assert(popcount((n + 1) as u64) <= tree.spec_outboard_hash_pairs());
            assert(p.0 <= b - 2);
        },
    }
}

/// Encode the subtree at `node` against the query `rng`, copying hash
/// pairs out of `outboard` and queried data halves out of `data`.
fn encode_rec(tree: &BaoTree, node: TreeNode, rng: &ChunkRanges, data: &[u8], outboard: &[u8],
    out: &mut Vec<u8>)
    requires
        tree.wf(),
        node.0 < tree.spec_filled(),
        rng.wf(),
        data@.len() == tree.size.0,
        outboard@.len() == 64 * tree.spec_outboard_hash_pairs() + 8,
    ensures
        final(out)@ == old(out)@ + spec_encode_rec(*tree, data@, outboard@, node.0, rng@),
    decreases level_of(node.0),
{
    if rng.is_empty() {
        proof {
            assert(out@ =~= old(out)@ + spec_encode_rec(*tree, data@, outboard@, node.0,
                rng@));
        }
        return ;
    }
    proof {
        tree.lemma_bounds();
        tree.lemma_root_props();
        tree.lemma_in_tree(node.0);
        lemma_level_char(node.0);
        lemma_pow2_le_of_le(node.0);
        lemma_pow2_pos(level_of(node.0));
        lemma_pair_in_outboard(*tree, node.0);
        let b = tree.spec_blocks();
        assert((node.0 + 1) * tree.spec_cgc() <= 2 * (b * tree.spec_cgc()))
            by (nonlinear_arith)
            requires
                0 <= node.0 + 1 <= 2 * b,
                tree.spec_cgc() >= 1,
                b >= 1,
        ;
    }
    // the node's outboard pair, if it has one
    let olen: usize = outboard.len();
    match tree.post_order_offset(node).value() {
        Some(p) => {
            proof {
                assert(p.0 * 64 + 64 <= outboard@.len());
                assert(outboard@.len() == olen);
            }
            let pair = slice_subrange(outboard, (p.0 * 64) as usize, (p.0 * 64 + 64) as usize);
            push_bytes(out, pair);
        },
        None => {},
    }
    let cgc = crate::units::pow2_u64(tree.chunk_group_log as u32);
    let mid_chunk: u64 = (node.0 + 1) * cgc;
    let (lr, rr) = rng.split(mid_chunk);
    if node.is_leaf() {
        let leaf = LeafNode(node.0);
        let (start, mid, end) = tree.leaf_byte_ranges3(leaf);
        let dlen: usize = data.len();
        proof {
            vstd::arithmetic::power2::lemma2_to64();
            tree.lemma_leaf_bounds(node.0);
            assert(crate::node::span_of(node.0) == 1);
            assert(node_start_byte(*tree, node.0) == node.0 * tree.spec_cgb());
            assert(0 <= start.0 <= mid.0 <= end.0 <= data@.len());
            assert(data@.len() == dlen);
        }
        if !lr.is_empty() {
            push_bytes(out, slice_subrange(data, start.0 as usize, mid.0 as usize));
        }
        if !rr.is_empty() {
            push_bytes(out, slice_subrange(data, mid.0 as usize, end.0 as usize));
        }
        proof {
            assert(out@ =~= old(out)@ + spec_encode_rec(*tree, data@, outboard@, node.0,
                rng@));
        }
    } else {
        proof {
            lemma_left_child(node.0);
            lemma_right_descendant(node.0, tree.spec_filled() as u64);
            assert(node.0 + 1 < tree.spec_filled());
        }
        let filled = tree.filled_size();
        let lc = node.left_child().unwrap();
        let rd_opt = node.right_descendant(filled);
        proof {
            if rd_opt is None {
                assert(false);
            }
        }
        let rd = rd_opt.unwrap();
        encode_rec(tree, lc, &lr, data, outboard, out);
        encode_rec(tree, rd, &rr, data, outboard, out);
        proof {
            assert(out@ =~= old(out)@ + spec_encode_rec(*tree, data@, outboard@, node.0,
                rng@));
        }
    }
}

/// The full encoded stream: the blob size as eight little-endian bytes,
/// then the pre-order encoding of the tree against the canonicalised
/// query.
pub open spec fn spec_encode_ranges(data: Seq<u8>, outboard: Seq<u8>, ranges: Seq<u64>,
    chunk_group_log: u8) -> Seq<u8> {
    let tree = BaoTree {
        size: ByteNum(data.len() as u64),
        chunk_group_log,
        start_chunk: ChunkNum(0),
    };
    let canonical = spec_canonical(ranges, tree.spec_chunks() as u64);
    vstd::bytes::spec_u64_to_le_bytes(data.len() as u64) + spec_encode_rec(tree, data,
        outboard, tree.spec_root() as u64, canonical)
}

impl BaoTree {
    /// Given a post-order `outboard` for `data`, build the proof stream
    /// for the chunks in `ranges`.
    pub fn encode_ranges(data: &[u8], outboard: &[u8], ranges: &ChunkRanges,
        chunk_group_log: u8) -> (r: Vec<u8>)
        requires
            data@.len() < 0x4000_0000_0000_0000,
            chunk_group_log <= 52,
            ranges.wf(),
            outboard@.len() == 64 * (BaoTree {
                size: ByteNum(data@.len() as u64),
                chunk_group_log,
                start_chunk: ChunkNum(0),
            }).spec_outboard_hash_pairs() + 8,
        ensures
            r@ == spec_encode_ranges(data@, outboard@, ranges@, chunk_group_log),
    {
        let size: u64 = data.len() as u64;
        let tree = BaoTree::new(ByteNum(size), chunk_group_log);
        proof {
            tree.lemma_bounds();
            tree.lemma_root_props();
        }
        let chunks = tree.chunks();
        let canonical = ranges.canonicalize(chunks.0);
        let root = tree.root();
        let mut out: Vec<u8> = vstd::bytes::u64_to_le_bytes(size);
        encode_rec(&tree, root, &canonical, data, outboard, &mut out);
        out
    }
}

/// The decoder's running state: the read cursor, the stack of expected
/// hashes, whether the root domain flag is still unused, and the verified
/// items surfaced so far.
pub ghost struct DecodeState {
    pub pos: int,
    pub stack: Seq<Seq<u8>>,
    pub is_root: bool,
    pub items: Seq<(int, Seq<u8>)>,
}

/// The ghost content of the decoder's output list.
pub open spec fn items_view(v: Seq<(ByteNum, Vec<u8>)>) -> Seq<(int, Seq<u8>)> {
    v.map_values(|p: (ByteNum, Vec<u8>)| (p.0.0 as int, p.1@))
}

/// One 64-byte parent record: read it, check it against the expected
/// hash on the stack, and push the children that the query needs.
pub open spec fn spec_decode_pair(stream: Seq<u8>, tl: bool, tr: bool, st: DecodeState) -> (
    DecodeState,
    Option<DecodeError>,
) {
    if st.pos + 64 > stream.len() {
        (st, Some(DecodeError::UnexpectedEof))
    } else {
        let lh = stream.subrange(st.pos, st.pos + 32);
        let rh = stream.subrange(st.pos + 32, st.pos + 64);
        let st1 = DecodeState { pos: st.pos + 64, stack: st.stack, is_root: st.is_root,
            items: st.items };
        if st.stack.len() == 0 {
            (st1, Some(DecodeError::HashMismatch))
        } else {
            let expected = st.stack.last();
            let actual = parent_hash(lh, rh, st.is_root);
            let st2 = DecodeState { pos: st.pos + 64, stack: st.stack.drop_last(),
                is_root: false, items: st.items };
            if actual != expected {
                (st2, Some(DecodeError::HashMismatch))
            } else {
                let stack2 = if tr {
                    st2.stack.push(rh)
                } else {
                    st2.stack
                };
                let stack3 = if tl {
                    stack2.push(lh)
                } else {
                    stack2
                };
                (DecodeState { pos: st.pos + 64, stack: stack3, is_root: false,
                    items: st.items }, None)
            }
        }
    }
}

/// One data half of a leaf: pop the expected hash, read the bytes, hash
/// and compare; on success also yields the bytes read.
pub open spec fn spec_decode_half(stream: Seq<u8>, chunk: u64, from: int, to: int,
    st: DecodeState) -> (DecodeState, Seq<u8>, Option<DecodeError>) {
    if st.stack.len() == 0 {
        (st, Seq::empty(), Some(DecodeError::HashMismatch))
    } else {
        let expected = st.stack.last();
        let st1 = DecodeState { pos: st.pos, stack: st.stack.drop_last(), is_root: st.is_root,
            items: st.items };
        let hlen = to - from;
        if st1.pos + hlen > stream.len() {
            (st1, Seq::empty(), Some(DecodeError::UnexpectedEof))
        } else {
            let dh = stream.subrange(st1.pos, st1.pos + hlen);
            let actual = hash_subtree(chunk, dh, st1.is_root);
            let st2 = DecodeState { pos: st1.pos + hlen, stack: st1.stack, is_root: false,
                items: st1.items };
            if actual != expected {
                (st2, dh, Some(DecodeError::HashMismatch))
            } else {
                (st2, dh, None)
            }
        }
    }
}

/// The two halves of a leaf, followed by the one fused output item.
pub open spec fn spec_decode_leaf_halves(tree: BaoTree, stream: Seq<u8>, n: u64, l: Seq<u64>,
    r: Seq<u64>, st: DecodeState) -> (DecodeState, Option<DecodeError>) {
    let startb = node_start_byte(tree, n);
    let midb = tree.leaf_mid(n);
    let endb = tree.leaf_end(n);
    let chunk0 = node_chunk(tree, n);
    if l.len() > 0 {
        let (st1, dl, e1) = spec_decode_half(stream, chunk0, startb, midb, st);
        if e1 is Some {
            (st1, e1)
        } else if r.len() > 0 && midb < endb {
            let (st2, dr, e2) = spec_decode_half(stream, (chunk0 + tree.spec_cgc()) as u64,
                midb, endb, st1);
            if e2 is Some {
                (st2, e2)
            } else {
                (DecodeState { pos: st2.pos, stack: st2.stack, is_root: st2.is_root,
                    items: st2.items.push((startb, dl + dr)) }, None)
            }
        } else {
            (DecodeState { pos: st1.pos, stack: st1.stack, is_root: st1.is_root,
                items: st1.items.push((startb, dl)) }, None)
        }
    } else if r.len() > 0 && midb < endb {
        let (st2, dr, e2) = spec_decode_half(stream, (chunk0 + tree.spec_cgc()) as u64, midb,
            endb, st);
        if e2 is Some {
            (st2, e2)
        } else {
            (DecodeState { pos: st2.pos, stack: st2.stack, is_root: st2.is_root,
                items: st2.items.push((midb, dr)) }, None)
        }
    } else {
        (DecodeState { pos: st.pos, stack: st.stack, is_root: st.is_root,
            items: st.items.push((midb, Seq::empty())) }, None)
    }
}

/// The decoder's walk over the subtree at `n` against the query
/// `ranges`, threading the state through pair records, leaf halves and
/// child subtrees.
pub open spec fn spec_decode_rec(tree: BaoTree, stream: Seq<u8>, n: u64, ranges: Seq<u64>,
    st: DecodeState) -> (DecodeState, Option<DecodeError>)
    decreases level_of(n),
    via check_spec_decode_rec
{
    if ranges.len() == 0 {
        (st, None)
    } else {
        let mid_chunk = ((n + 1) * tree.spec_cgc()) as u64;
        let l = spec_split_left(ranges, mid_chunk);
        let r = spec_split_right(ranges, mid_chunk);
        if level_of(n) == 0 {
            if tree.spec_persisted(n) {
                let (st1, e1) = spec_decode_pair(stream, l.len() > 0, r.len() > 0, st);
                if e1 is Some {
                    (st1, e1)
                } else {
                    spec_decode_leaf_halves(tree, stream, n, l, r, st1)
                }
            } else {
                spec_decode_leaf_halves(tree, stream, n, l, r, st)
            }
        } else {
            let (st1, e1) = spec_decode_pair(stream, l.len() > 0, r.len() > 0, st);
            if e1 is Some {
                (st1, e1)
            } else if n + pow2((level_of(n) - 1) as nat) > u64::MAX {
                (st1, None)
            } else {
                let lc = (n - pow2((level_of(n) - 1) as nat)) as u64;
                match right_descendant_of(n, tree.spec_filled() as u64) {
                    Some(rd) => {
                        let (st2, e2) = spec_decode_rec(tree, stream, lc, l, st1);
                        if e2 is Some {
                            (st2, e2)
                        } else {
                            spec_decode_rec(tree, stream, rd, r, st2)
                        }
                    },
                    None => (st1, None),
                }
            }
        }
    }
}

#[via_fn]
proof fn check_spec_decode_rec(tree: BaoTree, stream: Seq<u8>, n: u64, ranges: Seq<u64>,
    st: DecodeState) {
    if level_of(n) != 0 && n + pow2((level_of(n) - 1) as nat) <= u64::MAX {
        lemma_left_child(n);
        lemma_right_descendant(n, tree.spec_filled() as u64);
    }
}

/// Read and verify one 64-byte parent record against the stack.
fn decode_pair(stream: &[u8], tl: bool, tr: bool, pos: &mut usize, stack: &mut HashStack,
    isr: &mut bool) -> (r: Result<(), DecodeError>)
    requires
        *old(pos) <= stream@.len(),
        stream@.len() < 0x4000_0000_0000_0000,
    ensures
        ({
            let st0 = DecodeState { pos: *old(pos) as int, stack: hash_stack_view(*old(stack)),
                is_root: *old(isr), items: Seq::empty() };
            let (st1, e) = spec_decode_pair(stream@, tl, tr, st0);
            &&& *final(pos) == st1.pos
            &&& *final(pos) <= stream@.len()
            &&& hash_stack_view(*final(stack)) == st1.stack
            &&& *final(isr) == st1.is_root
            &&& st1.items == Seq::<(int, Seq<u8>)>::empty()
            &&& match r {
                Ok(()) => e is None,
                Err(er) => e == Some(er),
            }
        }),
{
    let slen: usize = stream.len();
    if slen - *pos < 64 {
        return Err(DecodeError::UnexpectedEof);
    }
    let lh = to_hash32(slice_subrange(stream, *pos, *pos + 32));
    let rh = to_hash32(slice_subrange(stream, *pos + 32, *pos + 64));
    *pos = *pos + 64;
    let expected = match stack_pop(stack) {
        None => {
            return Err(DecodeError::HashMismatch);
        },
        Some(h) => h,
    };
    let actual = parent_cv(&lh, &rh, *isr);
    *isr = false;
    if !hash_eq(&actual, &expected) {
        return Err(DecodeError::HashMismatch);
    }
    if tr {
        stack_push(stack, &rh);
    }
    if tl {
        stack_push(stack, &lh);
    }
    Ok(())
}

/// Read and verify one leaf half against the stack; appends the bytes
/// read to `buf`.
fn decode_half(stream: &[u8], chunk: u64, from: u64, to: u64, pos: &mut usize,
    stack: &mut HashStack, isr: &mut bool, buf: &mut Vec<u8>) -> (r: Result<(), DecodeError>)
    requires
        *old(pos) <= stream@.len(),
        stream@.len() < 0x4000_0000_0000_0000,
        from <= to,
        to - from <= 0x4000_0000_0000_0000,
        chunk + ceil_div(to - from, 1024) <= 0x4000_0000_0000_0000,
    ensures
        ({
            let st0 = DecodeState { pos: *old(pos) as int, stack: hash_stack_view(*old(stack)),
                is_root: *old(isr), items: Seq::empty() };
            let (st1, dh, e) = spec_decode_half(stream@, chunk, from as int, to as int, st0);
            &&& *final(pos) == st1.pos
            &&& *final(pos) <= stream@.len()
            &&& hash_stack_view(*final(stack)) == st1.stack
            &&& *final(isr) == st1.is_root
            &&& match r {
                Ok(()) => e is None && final(buf)@ == old(buf)@ + dh,
                Err(er) => e == Some(er) && final(buf)@ == old(buf)@,
            }
        }),
{
    let expected = match stack_pop(stack) {
        None => {
            return Err(DecodeError::HashMismatch);
        },
        Some(h) => h,
    };
    let hlen: u64 = to - from;
    let slen: usize = stream.len();
    let remaining: u64 = (slen - *pos) as u64;
    if remaining < hlen {
        return Err(DecodeError::UnexpectedEof);
    }
    let dh = slice_subrange(stream, *pos, *pos + hlen as usize);
    *pos = *pos + hlen as usize;
    proof {
        lemma_ceil_div(hlen as int, 1024);
    }
    let actual = hash_block(chunk, dh, *isr);
    *isr = false;
    if !hash_eq(&actual, &expected) {
        return Err(DecodeError::HashMismatch);
    }
    push_bytes(buf, dh);
    Ok(())
}

/// Decode the subtree at `node` against the query `rng`.
#[verifier::rlimit(100)]
fn decode_rec(tree: &BaoTree, node: TreeNode, rng: &ChunkRanges, stream: &[u8],
    pos: &mut usize, stack: &mut HashStack, isr: &mut bool, out: &mut Vec<(ByteNum, Vec<u8>)>)
    -> (r: Result<(), DecodeError>)
    requires
        tree.wf(),
        node.0 < tree.spec_filled(),
        rng.wf(),
        *old(pos) <= stream@.len(),
        stream@.len() < 0x4000_0000_0000_0000,
    ensures
        ({
            let st0 = DecodeState { pos: *old(pos) as int, stack: hash_stack_view(*old(stack)),
                is_root: *old(isr), items: items_view(old(out)@) };
            let (st1, e) = spec_decode_rec(*tree, stream@, node.0, rng@, st0);
            &&& *final(pos) == st1.pos
            &&& *final(pos) <= stream@.len()
            &&& hash_stack_view(*final(stack)) == st1.stack
            &&& *final(isr) == st1.is_root
            &&& items_view(final(out)@) == st1.items
            &&& match r {
                Ok(()) => e is None,
                Err(er) => e == Some(er),
            }
        }),
    decreases level_of(node.0),
{
    if rng.is_empty() {
        proof {
            assert(items_view(out@) =~= items_view(old(out)@));
        }
        return Ok(());
    }
    proof {
        tree.lemma_bounds();
        tree.lemma_root_props();
        tree.lemma_in_tree(node.0);
        lemma_level_char(node.0);
        lemma_pow2_le_of_le(node.0);
        lemma_pow2_pos(level_of(node.0));
        let b = tree.spec_blocks();
        assert((node.0 + 1) * tree.spec_cgc() <= 2 * (b * tree.spec_cgc()))
            by (nonlinear_arith)
            requires
                0 <= node.0 + 1 <= 2 * b,
                tree.spec_cgc() >= 1,
                b >= 1,
        ;
    }
    let cgc = crate::units::pow2_u64(tree.chunk_group_log as u32);
    let mid_chunk: u64 = (node.0 + 1) * cgc;
    let (lr, rr) = rng.split(mid_chunk);
    let tl = !lr.is_empty();
    let tr = !rr.is_empty();
    if node.is_leaf() {
        let leaf = LeafNode(node.0);
        let (start, mid, end) = tree.leaf_byte_ranges3(leaf);
        let chunk0 = tree.chunk_num(leaf);
        proof {
            vstd::arithmetic::power2::lemma2_to64();
            tree.lemma_leaf_bounds(node.0);
            assert(crate::node::span_of(node.0) == 1);
            assert(node_start_byte(*tree, node.0) == node.0 * tree.spec_cgb());
            assert(node_chunk(*tree, node.0) == chunk0.0);
            let cgb = tree.spec_cgb();
            let b = tree.spec_blocks();
            assert(node.0 * tree.spec_cgc() <= b * tree.spec_cgc()) by (nonlinear_arith)
                requires
                    0 <= node.0 <= b,
                    tree.spec_cgc() >= 1,
            ;
            lemma_ceil_div(tree.leaf_mid(node.0) - node_start_byte(*tree, node.0), 1024);
            lemma_ceil_div(tree.leaf_end(node.0) - tree.leaf_mid(node.0), 1024);
            assert(cgb == 1024 * tree.spec_cgc());
            assert(ceil_div(tree.leaf_mid(node.0) - node_start_byte(*tree, node.0), 1024)
                <= tree.spec_cgc()) by (nonlinear_arith)
                requires
                    tree.leaf_mid(node.0) - node_start_byte(*tree, node.0) <= cgb,
                    cgb == 1024 * tree.spec_cgc(),
                    (ceil_div(tree.leaf_mid(node.0) - node_start_byte(*tree, node.0), 1024)
                        - 1) * 1024 < tree.leaf_mid(node.0) - node_start_byte(*tree, node.0),
                    tree.spec_cgc() >= 1,
            ;
            assert(ceil_div(tree.leaf_end(node.0) - tree.leaf_mid(node.0), 1024)
                <= tree.spec_cgc()) by (nonlinear_arith)
                requires
                    tree.leaf_end(node.0) - tree.leaf_mid(node.0) <= cgb,
                    cgb == 1024 * tree.spec_cgc(),
                    (ceil_div(tree.leaf_end(node.0) - tree.leaf_mid(node.0), 1024) - 1)
                        * 1024 < tree.leaf_end(node.0) - tree.leaf_mid(node.0),
                    tree.spec_cgc() >= 1,
            ;
        }
        if tree.is_persisted(node) {
            match decode_pair(stream, tl, tr, pos, stack, isr) {
                Ok(()) => {},
                Err(e) => {
                    proof {
                        assert(items_view(out@) =~= items_view(old(out)@));
                    }
                    return Err(e);
                },
            }
        }
        // the two data halves, then the one fused item
        if tl {
            let mut buf: Vec<u8> = Vec::new();
            match decode_half(stream, chunk0.0, start.0, mid.0, pos, stack, isr, &mut buf) {
                Ok(()) => {},
                Err(e) => {
                    proof {
                        assert(items_view(out@) =~= items_view(old(out)@));
                    }
                    return Err(e);
                },
            }
            if tr && mid.0 < end.0 {
                match decode_half(stream, chunk0.0 + cgc, mid.0, end.0, pos, stack, isr,
                    &mut buf) {
                    Ok(()) => {},
                    Err(e) => {
                        proof {
                            assert(items_view(out@) =~= items_view(old(out)@));
                        }
                        return Err(e);
                    },
                }
            }
            let ghost out0 = out@;
            out.push((ByteNum(start.0), buf));
            proof {
                assert(items_view(out@) =~= items_view(out0).push((start.0 as int, out@.last()
                    .1@)));
            }
        } else if tr && mid.0 < end.0 {
            let mut buf: Vec<u8> = Vec::new();
            match decode_half(stream, chunk0.0 + cgc, mid.0, end.0, pos, stack, isr, &mut buf)
                {
                Ok(()) => {},
                Err(e) => {
                    proof {
                        assert(items_view(out@) =~= items_view(old(out)@));
                    }
                    return Err(e);
                },
            }
            let ghost out0 = out@;
            out.push((ByteNum(mid.0), buf));
            proof {
                assert(items_view(out@) =~= items_view(out0).push((mid.0 as int, out@.last()
                    .1@)));
            }
        } else {
            let ghost out0 = out@;
            out.push((ByteNum(mid.0), Vec::new()));
            proof {
                assert(items_view(out@) =~= items_view(out0).push((mid.0 as int,
                    Seq::<u8>::empty())));
            }
        }
        Ok(())
    } else {
        match decode_pair(stream, tl, tr, pos, stack, isr) {
            Ok(()) => {},
            Err(e) => {
                proof {
                    assert(items_view(out@) =~= items_view(old(out)@));
                }
                return Err(e);
            },
        }
        proof {
            lemma_left_child(node.0);
            lemma_right_descendant(node.0, tree.spec_filled() as u64);
            assert(node.0 + 1 < tree.spec_filled());
        }
        let filled = tree.filled_size();
        let lc = node.left_child().unwrap();
        let rd_opt = node.right_descendant(filled);
        proof {
            if rd_opt is None {
                assert(false);
            }
        }
        let rd = rd_opt.unwrap();
        match decode_rec(tree, lc, &lr, stream, pos, stack, isr, out) {
            Ok(()) => {},
            Err(e) => {
                return Err(e);
            },
        }
        decode_rec(tree, rd, &rr, stream, pos, stack, isr, out)
    }
}

/// What [`BaoTree::decode_ranges`] yields: the verified items surfaced
/// before the walk finished or stopped, and the error that stopped it.
pub open spec fn spec_decode_ranges(root: Seq<u8>, stream: Seq<u8>, ranges: Seq<u64>,
    chunk_group_log: u8) -> (Seq<(int, Seq<u8>)>, Option<DecodeError>) {
    if stream.len() < 8 {
        (Seq::empty(), Some(DecodeError::UnexpectedEof))
    } else {
        let size = vstd::bytes::spec_u64_from_le_bytes(stream.subrange(0, 8));
        if size >= 0x4000_0000_0000_0000 {
            (Seq::empty(), Some(DecodeError::InvalidSize))
        } else {
            let tree = BaoTree { size: ByteNum(size), chunk_group_log, start_chunk: ChunkNum(
                0) };
            let canonical = spec_canonical(ranges, tree.spec_chunks() as u64);
            let st0 = DecodeState { pos: 8, stack: seq![root], is_root: true,
                items: Seq::empty() };
            let (st1, e) = spec_decode_rec(tree, stream, tree.spec_root() as u64, canonical,
                st0);
            (st1.items, e)
        }
    }
}

impl BaoTree {
    /// Decode an encoded stream against the trusted `root` hash: yields
    /// the verified `(offset, bytes)` items in pre-order, and the error
    /// that stopped the decode early, if any. Items already surfaced have
    /// been verified against the root and stay valid.
    pub fn decode_ranges(root: &[u8; 32], encoded: &[u8], ranges: &ChunkRanges,
        chunk_group_log: u8) -> (r: (Vec<(ByteNum, Vec<u8>)>, Option<DecodeError>))
        requires
            ranges.wf(),
            chunk_group_log <= 52,
            encoded@.len() < 0x4000_0000_0000_0000,
        ensures
            ({
                let (items, e) = spec_decode_ranges(root@, encoded@, ranges@, chunk_group_log);
                items_view(r.0@) == items && r.1 == e
            }),
    {
        let mut out: Vec<(ByteNum, Vec<u8>)> = Vec::new();
        if encoded.len() < 8 {
            proof {
                assert(items_view(out@) =~= Seq::<(int, Seq<u8>)>::empty());
            }
            return (out, Some(DecodeError::UnexpectedEof));
        }
        let size: u64 = vstd::bytes::u64_from_le_bytes(slice_subrange(encoded, 0, 8));
        if size >= 0x4000_0000_0000_0000 {
            proof {
                assert(items_view(out@) =~= Seq::<(int, Seq<u8>)>::empty());
            }
            return (out, Some(DecodeError::InvalidSize));
        }
        let tree = BaoTree::new(ByteNum(size), chunk_group_log);
        proof {
            tree.lemma_bounds();
            tree.lemma_root_props();
        }
        let chunks = tree.chunks();
        let canonical = ranges.canonicalize(chunks.0);
        let root_node = tree.root();
        let mut stack = stack_new();
        stack_push(&mut stack, root);
        let mut pos: usize = 8;
        let mut isr = true;
        proof {
            assert(hash_stack_view(stack) =~= seq![root@]);
            assert(items_view(out@) =~= Seq::<(int, Seq<u8>)>::empty());
        }
        match decode_rec(&tree, root_node, &canonical, encoded, &mut pos, &mut stack,
            &mut isr, &mut out) {
            Ok(()) => (out, None),
            Err(e) => (out, Some(e)),
        }
    }
}

} // verus!

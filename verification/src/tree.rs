use vstd::prelude::*;

verus! {

use vstd::arithmetic::power2::{pow2, lemma_pow2_adds, lemma_pow2_pos, lemma_pow2_unfold,
    lemma_pow2_strictly_increases};
use crate::units::{BlockNum, ByteNum, ChunkNum, PONum, ceil_div, chunk_count, block_count,
    lemma_ceil_div, pow2_u64};
use crate::node::{TreeNode, LeafNode, level_of, span_of, block_start, block_end, popcount,
    post_order_offset_of, next_pow2, next_pow2_log, lemma_next_pow2_bounds,
    lemma_level_char, lemma_level_of_is};

/// A Bao tree: the shape of the hash tree over a blob of `size` bytes,
/// with blocks of `pow2(chunk_group_log)` chunks of 1024 bytes each.
///
/// This is only the description of the tree; it holds no data.
#[derive(Debug, Clone, Copy, PartialEq, Eq, Structural)]
pub struct BaoTree {
    /// Total number of bytes in the blob.
    pub size: ByteNum,
    /// Log base 2 of the number of chunks per block.
    pub chunk_group_log: u8,
    /// Start chunk of the tree: 0 for self-contained trees, non-zero when
    /// the tree stands for a subtree embedded in a larger one.
    pub start_chunk: ChunkNum,
}

/// Where a node's hash pair sits in a post-order outboard.
#[derive(Debug, Clone, Copy, PartialEq, Eq, Structural)]
pub enum PostOrderOffset {
    /// The node has no entry in the outboard.
    Skip,
    /// The node is fully inside the data; its offset does not depend on
    /// the blob size.
    Stable(PONum),
    /// The node lies on the unsealed right edge; its offset depends on the
    /// blob size.
    Unstable(PONum),
}

impl PostOrderOffset {
    /// The offset, if the node is persisted at all.
    pub fn value(self) -> (r: Option<PONum>)
        ensures
            r == match self {
                PostOrderOffset::Skip => None::<PONum>,
                PostOrderOffset::Stable(n) => Some(n),
                PostOrderOffset::Unstable(n) => Some(n),
            },
    {
        match self {
            Self::Skip => None,
            Self::Stable(n) => Some(n),
            Self::Unstable(n) => Some(n),
        }
    }
}

impl BaoTree {
    /// The sizes this library handles: blobs below `pow2(62)` bytes and
    /// chunk group exponents up to 52, so that every byte count of the
    /// tree fits comfortably in a `u64`.
    pub open spec fn wf(self) -> bool {
        &&& self.chunk_group_log <= 52
        &&& self.size.0 < 0x4000_0000_0000_0000
        &&& self.start_chunk.0 <= 0x2000_0000_0000_0000
    }

    /// Bytes per chunk group (block).
    pub open spec fn spec_cgb(self) -> int {
        pow2((10 + self.chunk_group_log) as nat) as int
    }

    /// Chunks per chunk group (block).
    pub open spec fn spec_cgc(self) -> int {
        pow2(self.chunk_group_log as nat) as int
    }

    /// Number of blocks; even the empty blob has one block.
    pub open spec fn spec_blocks(self) -> int {
        let b = block_count(self.size.0, self.chunk_group_log);
        if b == 0 {
            1
        } else {
            b
        }
    }

    /// Number of chunks.
    pub open spec fn spec_chunks(self) -> int {
        chunk_count(self.size.0)
    }

    /// The node index of the root.
    pub open spec fn spec_root(self) -> int {
        next_pow2(((self.spec_blocks() + 1) / 2) as nat) - 1
    }

    /// Number of interior hash pairs in the outboard.
    pub open spec fn spec_outboard_hash_pairs(self) -> int {
        self.spec_blocks() - 1
    }

    /// The node count of the fully filled tree: one index past the last
    /// node the traversal may visit.
    pub open spec fn spec_filled(self) -> int {
        2 * ((self.spec_blocks() + 1) / 2) - 1
    }

    /// Basic bounds that every well-formed tree obeys.
    pub proof fn lemma_bounds(self)
        requires
            self.wf(),
        ensures
            1 <= self.spec_blocks() <= 0x10_0000_0000_0000,
            0 <= self.spec_chunks() <= 0x10_0000_0000_0000,
            1024 <= self.spec_cgb() <= 0x4000_0000_0000_0000,
            1 <= self.spec_cgc() <= 0x10_0000_0000_0000,
            self.spec_cgb() == 1024 * self.spec_cgc(),
            self.spec_blocks() * self.spec_cgb() >= self.size.0,
            (self.spec_blocks() - 1) * self.spec_cgb() < self.size.0 || self.size.0 == 0,
            self.size.0 == 0 ==> self.spec_blocks() == 1,
            (self.spec_blocks() + 1) * self.spec_cgb() <= u64::MAX,
            self.spec_blocks() * self.spec_cgc() <= 0x20_0000_0000_0000,
    {
        let g = self.chunk_group_log;
        let size = self.size.0 as int;
        let cgb = self.spec_cgb();
        let cgc = self.spec_cgc();
        let b0 = block_count(self.size.0, g);
        lemma_pow2_pos((10 + g) as nat);
        lemma_pow2_pos(g as nat);
        lemma_pow2_adds(10, g as nat);
        assert(pow2(10) == 1024) by {
            vstd::arithmetic::power2::lemma2_to64();
        }
        assert(pow2(10 + g as nat) == 1024 * pow2(g as nat));
        lemma_ceil_div(size, cgb);
        lemma_ceil_div(size, 1024);
        assert(cgb >= 1024) by {
            if g > 0 {
                lemma_pow2_strictly_increases(10, (10 + g) as nat);
            }
        }
        assert(cgb <= 0x4000_0000_0000_0000) by {
            if (10 + g) < 62 {
                lemma_pow2_strictly_increases((10 + g) as nat, 62);
            }
            assert(pow2(62) == 0x4000_0000_0000_0000) by {
                vstd::arithmetic::power2::lemma2_to64_rest();
            }
        }
        assert(cgc <= 0x10_0000_0000_0000) by {
            if (g as nat) < 52 {
                lemma_pow2_strictly_increases(g as nat, 52);
            }
            assert(pow2(52) == 0x10_0000_0000_0000) by {
                vstd::arithmetic::power2::lemma2_to64_rest();
            }
        }
        // blocks bound: ceil(size / cgb) <= ceil(size / 1024) <= 2^52
        assert(b0 <= ceil_div(size, 1024)) by (nonlinear_arith)
            requires
                b0 == ceil_div(size, cgb),
                cgb >= 1024,
                size >= 0,
                b0 >= 0,
                (b0 - 1) * cgb < size,
                ceil_div(size, 1024) * 1024 >= size,
        ;
        assert(ceil_div(size, 1024) <= 0x10_0000_0000_0000) by (nonlinear_arith)
            requires
                ceil_div(size, 1024) == size / 1024 + (if size % 1024 == 0 { 0int } else {
                    1int
                }),
                size < 0x4000_0000_0000_0000,
        ;
        let b = self.spec_blocks();
        assert(b * cgb >= size) by (nonlinear_arith)
            requires
                b0 * cgb >= size,
                b >= b0,
                b >= 1,
                cgb >= 1,
        ;
        assert((b + 1) * cgb <= size + 2 * cgb) by (nonlinear_arith)
            requires
                (b0 - 1) * cgb < size,
                b == (if b0 == 0 { 1int } else { b0 }),
                b0 >= 0,
                size >= 0,
                cgb >= 1,
        ;
        // blocks * cgc <= chunks + 2 * cgc <= 2^53
        assert(b * cgc * 1024 == b * cgb) by (nonlinear_arith)
            requires
                cgb == 1024 * cgc,
        ;
        assert(b * cgc <= 0x20_0000_0000_0000) by (nonlinear_arith)
            requires
                b * cgc * 1024 == b * cgb,
                (b + 1) * cgb <= size + 2 * cgb,
                cgb >= 1,
                cgb <= 0x4000_0000_0000_0000,
                size < 0x4000_0000_0000_0000,
                b >= 1,
                cgc >= 1,
                b * cgc >= 0,
        ;
    }

    /// The root sits inside the filled tree, starts at block 0 and covers
    /// every block.
    pub proof fn lemma_root_props(self)
        requires
            self.wf(),
        ensures
            0 <= self.spec_root() < self.spec_filled(),
            1 <= self.spec_filled() <= 2 * self.spec_blocks(),
            self.spec_filled() % 2 == 1,
            level_of(self.spec_root() as u64) == next_pow2_log(((self.spec_blocks() + 1)
                / 2) as nat),
            block_start(self.spec_root() as u64) == 0,
            block_end(self.spec_root() as u64) >= self.spec_blocks(),
            span_of(self.spec_root() as u64) >= 1,
    {
        self.lemma_bounds();
        let b = self.spec_blocks();
        let h = (b + 1) / 2;
        let kk = next_pow2_log(h as nat);
        let s = next_pow2(h as nat) as int;
        lemma_next_pow2_bounds(h as nat);
        assert(s == pow2(kk));
        assert(s <= 0x20_0000_0000_0000);
        assert(kk <= 53) by {
            assert(pow2(53) == 0x20_0000_0000_0000) by {
                vstd::arithmetic::power2::lemma2_to64_rest();
            }
            if kk > 53 {
                lemma_pow2_strictly_increases(53, kk);
            }
        }
        let root = s - 1;
        vstd::arithmetic::div_mod::lemma_fundamental_div_mod_converse(root, s, 0, s - 1);
        lemma_level_of_is(root as u64, kk);
        assert(span_of(root as u64) == s);
        assert(block_start(root as u64) == 0);
        assert(block_end(root as u64) == 2 * s);
        assert(2 * s >= 2 * h);
        assert(2 * h >= b);
        // root < filled: s < 2h and filled == 2h - 1
        assert(self.spec_filled() == 2 * h - 1);
        assert(root < self.spec_filled());
    }

    /// Every node index inside the filled tree stands for a real part of
    /// the data: leaves start below the block count, branches have a
    /// non-empty right side.
    pub proof fn lemma_in_tree(self, n: u64)
        requires
            self.wf(),
            n < self.spec_filled(),
        ensures
            n % 2 == 0 ==> n < self.spec_blocks(),
            n % 2 == 1 ==> n + 1 < self.spec_blocks() && (n + 1) * self.spec_cgb()
                < self.size.0,
    {
        self.lemma_bounds();
        let b = self.spec_blocks();
        let cgb = self.spec_cgb();
        let filled = self.spec_filled();
        if n % 2 == 0 {
            if b % 2 == 0 {
                assert(filled == b - 1);
            } else {
                assert(filled == b);
            }
        } else {
            // filled is odd, so an odd n below it is at most filled - 2
            assert(n + 2 <= filled);
            if b % 2 == 0 {
                assert(filled == b - 1);
            } else {
                assert(filled == b);
            }
            assert(n + 1 < b);
            // a branch exists only when there are at least two blocks
            assert(b >= 2);
            assert(self.size.0 > 0) by {
                if self.size.0 == 0 {
                    assert(b == 1);
                }
            }
            assert((n + 1) * cgb <= (b - 1) * cgb) by (nonlinear_arith)
                requires
                    n + 1 <= b - 1,
                    cgb >= 1,
                    n >= 0,
            ;
        }
    }

    /// Create a new self-contained tree over `size` bytes.
    pub fn new(size: ByteNum, chunk_group_log: u8) -> (r: BaoTree)
        ensures
            r == (BaoTree { size, chunk_group_log, start_chunk: ChunkNum(0) }),
    {
        Self::new_with_start_chunk(size, chunk_group_log, ChunkNum(0))
    }

    /// Create a tree that stands for a subtree starting at `start_chunk`.
    pub fn new_with_start_chunk(size: ByteNum, chunk_group_log: u8, start_chunk: ChunkNum) -> (r:
        BaoTree)
        ensures
            r == (BaoTree { size, chunk_group_log, start_chunk }),
    {
        BaoTree { size, chunk_group_log, start_chunk }
    }

    /// Number of blocks in the tree; even an empty blob has one block.
    pub fn blocks(&self) -> (r: BlockNum)
        requires
            self.wf(),
        ensures
            r.0 == self.spec_blocks(),
    {
        let b = self.size.blocks(self.chunk_group_log);
        if b.0 == 0 {
            BlockNum(1)
        } else {
            b
        }
    }

    /// Number of chunks in the tree.
    pub fn chunks(&self) -> (r: ChunkNum)
        requires
            self.wf(),
        ensures
            r.0 == self.spec_chunks(),
    {
        self.size.chunks()
    }

    /// The root node of the tree.
    pub fn root(&self) -> (r: TreeNode)
        requires
            self.wf(),
        ensures
            r.0 == self.spec_root(),
    {
        proof {
            self.lemma_bounds();
        }
        TreeNode::root(self.blocks())
    }

    /// Number of interior hash pairs in the outboard.
    pub fn outboard_hash_pairs(&self) -> (r: u64)
        requires
            self.wf(),
        ensures
            r == self.spec_outboard_hash_pairs(),
    {
        proof {
            self.lemma_bounds();
        }
        self.blocks().0 - 1
    }

    /// Total size in bytes of the post-order outboard for a blob of `size`
    /// bytes: 64 bytes per hash pair plus the 8-byte length trailer.
    pub fn outboard_size(size: ByteNum, chunk_group_log: u8) -> (r: ByteNum)
        requires
            (BaoTree { size, chunk_group_log, start_chunk: ChunkNum(0) }).wf(),
        ensures
            r.0 == 64 * (BaoTree { size, chunk_group_log, start_chunk: ChunkNum(0) })
                .spec_outboard_hash_pairs() + 8,
    {
        let tree = Self::new(size, chunk_group_log);
        proof {
            tree.lemma_bounds();
        }
        ByteNum(tree.outboard_hash_pairs() * 64 + 8)
    }

    /// The node count of the fully filled tree covering all blocks.
    pub fn filled_size(&self) -> (r: TreeNode)
        requires
            self.wf(),
        ensures
            r.0 == self.spec_filled(),
    {
        proof {
            self.lemma_bounds();
        }
        let blocks = self.blocks();
        let n: u64 = (blocks.0 + 1) / 2;
        TreeNode(n + (n - 1))
    }

    /// The first chunk covered by a leaf.
    pub fn chunk_num(&self, node: LeafNode) -> (r: ChunkNum)
        requires
            self.wf(),
            node.0 < self.spec_blocks(),
        ensures
            r.0 == node.0 * self.spec_cgc() + self.start_chunk.0,
    {
        proof {
            self.lemma_bounds();
            assert(node.0 * self.spec_cgc() <= self.spec_blocks() * self.spec_cgc())
                by (nonlinear_arith)
                requires
                    0 <= node.0 < self.spec_blocks(),
                    self.spec_cgc() >= 1,
            ;
        }
        let cgc = pow2_u64(self.chunk_group_log as u32);
        ChunkNum(node.0 * cgc + self.start_chunk.0)
    }

    /// Chunks per block.
    pub fn chunk_group_chunks(&self) -> (r: ChunkNum)
        requires
            self.chunk_group_log <= 52,
        ensures
            r.0 == self.spec_cgc(),
    {
        ChunkNum(pow2_u64(self.chunk_group_log as u32))
    }

    /// Bytes per block.
    pub fn chunk_group_bytes(&self) -> (r: ByteNum)
        requires
            self.chunk_group_log <= 52,
        ensures
            r.0 == self.spec_cgb(),
    {
        ByteNum(pow2_u64(10 + self.chunk_group_log as u32))
    }

    /// First byte of the given leaf.
    pub open spec fn leaf_start(self, leaf: u64) -> int {
        leaf * self.spec_cgb()
    }

    /// Boundary between the two halves of the given leaf, clamped to the
    /// blob size.
    pub open spec fn leaf_mid(self, leaf: u64) -> int {
        let m = self.leaf_start(leaf) + self.spec_cgb();
        if m < self.size.0 {
            m
        } else {
            self.size.0 as int
        }
    }

    /// One past the last byte of the given leaf, clamped to the blob size.
    pub open spec fn leaf_end(self, leaf: u64) -> int {
        let e = self.leaf_start(leaf) + 2 * self.spec_cgb();
        if e < self.size.0 {
            e
        } else {
            self.size.0 as int
        }
    }

    /// A node is sealed when its byte range lies entirely inside the blob.
    pub open spec fn spec_sealed(self, n: u64) -> bool {
        block_end(n) * self.spec_cgb() <= self.size.0
    }

    /// A node is persisted (has an entry in the outboard) unless it is a
    /// leaf whose right half is empty.
    pub open spec fn spec_persisted(self, n: u64) -> bool {
        level_of(n) != 0 || (n + 1) * self.spec_cgb() < self.size.0
    }

    /// Byte bounds of a leaf inside the tree.
    pub proof fn lemma_leaf_bounds(self, leaf: u64)
        requires
            self.wf(),
            leaf < self.spec_blocks(),
        ensures
            0 <= self.leaf_start(leaf),
            self.leaf_start(leaf) <= self.leaf_mid(leaf) <= self.leaf_end(leaf) <= self.size.0,
            self.leaf_start(leaf) + 2 * self.spec_cgb() <= u64::MAX,
            self.size.0 > 0 ==> self.leaf_start(leaf) < self.size.0,
            self.size.0 == 0 ==> self.leaf_start(leaf) == 0,
    {
        self.lemma_bounds();
        let cgb = self.spec_cgb();
        let b = self.spec_blocks();
        assert(leaf * cgb >= 0 && leaf * cgb + 2 * cgb <= (b + 1) * cgb) by (nonlinear_arith)
            requires
                0 <= leaf <= b - 1,
                cgb >= 1,
        ;
        if self.size.0 > 0 {
            assert(leaf * cgb <= (b - 1) * cgb) by (nonlinear_arith)
                requires
                    0 <= leaf <= b - 1,
                    cgb >= 1,
            ;
        } else {
            assert(b == 1);
            assert(leaf == 0);
        }
    }

    /// The byte range of a leaf, clamped to the blob.
    pub fn leaf_byte_range(&self, leaf: LeafNode) -> (r: core::ops::Range<ByteNum>)
        requires
            self.wf(),
            leaf.0 < self.spec_blocks(),
        ensures
            r.start.0 == self.leaf_start(leaf.0),
            r.end.0 == self.leaf_end(leaf.0),
    {
        let (start, _, end) = self.leaf_byte_ranges3(leaf);
        start..end
    }

    /// The two halves of a leaf's byte range, each clamped to the blob;
    /// the right half is empty exactly when the leaf is not persisted.
    pub fn leaf_byte_ranges2(&self, leaf: LeafNode) -> (r: (
        core::ops::Range<ByteNum>,
        core::ops::Range<ByteNum>,
    ))
        requires
            self.wf(),
            leaf.0 < self.spec_blocks(),
        ensures
            r.0.start.0 == self.leaf_start(leaf.0),
            r.0.end.0 == self.leaf_mid(leaf.0),
            r.1.start.0 == self.leaf_mid(leaf.0),
            r.1.end.0 == self.leaf_end(leaf.0),
    {
        let (start, mid, end) = self.leaf_byte_ranges3(leaf);
        (start..mid, mid..end)
    }

    /// Start, middle and end byte offsets of a leaf, the last two clamped
    /// to the blob.
    pub fn leaf_byte_ranges3(&self, leaf: LeafNode) -> (r: (ByteNum, ByteNum, ByteNum))
        requires
            self.wf(),
            leaf.0 < self.spec_blocks(),
        ensures
            r.0.0 == self.leaf_start(leaf.0),
            r.1.0 == self.leaf_mid(leaf.0),
            r.2.0 == self.leaf_end(leaf.0),
    {
        proof {
            self.lemma_leaf_bounds(leaf.0);
        }
        let cgb = pow2_u64(10 + self.chunk_group_log as u32);
        let start: u64 = leaf.0 * cgb;
        let mid_raw: u64 = start + cgb;
        let end_raw: u64 = start + 2 * cgb;
        let mid = if mid_raw < self.size.0 {
            mid_raw
        } else {
            self.size.0
        };
        let end = if end_raw < self.size.0 {
            end_raw
        } else {
            self.size.0
        };
        (ByteNum(start), ByteNum(mid), ByteNum(end))
    }

    /// The two halves of a leaf's byte range: `Ok((left, right))` when the
    /// leaf is persisted, `Err(left)` when only the left half holds data.
    pub fn leaf_byte_ranges(&self, leaf: LeafNode) -> (r: Result<
        (core::ops::Range<ByteNum>, core::ops::Range<ByteNum>),
        core::ops::Range<ByteNum>,
    >)
        requires
            self.wf(),
            leaf.0 < self.spec_blocks(),
            leaf.0 % 2 == 0,
        ensures
            match r {
                Ok((l, rr)) => {
                    &&& self.spec_persisted(leaf.0)
                    &&& l.start.0 == self.leaf_start(leaf.0)
                    &&& l.end.0 == self.leaf_mid(leaf.0)
                    &&& rr.start.0 == self.leaf_mid(leaf.0)
                    &&& rr.end.0 == self.leaf_end(leaf.0)
                },
                Err(l) => {
                    &&& !self.spec_persisted(leaf.0)
                    &&& l.start.0 == self.leaf_start(leaf.0)
                    &&& l.end.0 == self.leaf_end(leaf.0)
                },
            },
    {
        proof {
            self.lemma_leaf_bounds(leaf.0);
            assert((leaf.0 + 1) * self.spec_cgb() == leaf.0 * self.spec_cgb() + self.spec_cgb())
                by (nonlinear_arith);
        }
        let (start, mid, end) = self.leaf_byte_ranges3(leaf);
        let cgb = pow2_u64(10 + self.chunk_group_log as u32);
        if start.0 + cgb >= self.size.0 {
            Err(start..end)
        } else {
            Ok((start..mid, mid..end))
        }
    }

    /// The two halves of a leaf's chunk range, clamped to the chunk count.
    pub fn leaf_chunk_ranges2(&self, leaf: LeafNode) -> (r: (
        core::ops::Range<ChunkNum>,
        core::ops::Range<ChunkNum>,
    ))
        requires
            self.wf(),
            leaf.0 < self.spec_blocks(),
        ensures
            r.0.start.0 == leaf.0 * self.spec_cgc(),
            r.0.end.0 == vstd::math::min(leaf.0 * self.spec_cgc() + self.spec_cgc(),
                self.spec_chunks()),
            r.1.start.0 == vstd::math::min(leaf.0 * self.spec_cgc() + self.spec_cgc(),
                self.spec_chunks()),
            r.1.end.0 == vstd::math::min(leaf.0 * self.spec_cgc() + 2 * self.spec_cgc(),
                self.spec_chunks()),
    {
        proof {
            self.lemma_bounds();
            assert(leaf.0 * self.spec_cgc() + 2 * self.spec_cgc() <= (self.spec_blocks() + 1)
                * self.spec_cgc()) by (nonlinear_arith)
                requires
                    0 <= leaf.0 <= self.spec_blocks() - 1,
                    self.spec_cgc() >= 1,
            ;
            assert((self.spec_blocks() + 1) * self.spec_cgc() <= 2 * (self.spec_blocks()
                * self.spec_cgc())) by (nonlinear_arith)
                requires
                    self.spec_blocks() >= 1,
                    self.spec_cgc() >= 1,
            ;
        }
        let max = self.chunks();
        let cgc = pow2_u64(self.chunk_group_log as u32);
        let start: u64 = leaf.0 * cgc;
        let mid_raw: u64 = start + cgc;
        let end_raw: u64 = start + 2 * cgc;
        let mid = if mid_raw < max.0 {
            mid_raw
        } else {
            max.0
        };
        let end = if end_raw < max.0 {
            end_raw
        } else {
            max.0
        };
        (ChunkNum(start)..ChunkNum(mid), ChunkNum(mid)..ChunkNum(end))
    }

    /// True if the node's byte range lies entirely inside the blob.
    pub fn is_sealed(&self, node: TreeNode) -> (r: bool)
        requires
            self.wf(),
            block_end(node.0) <= u64::MAX,
        ensures
            r <==> self.spec_sealed(node.0),
    {
        proof {
            self.lemma_bounds();
            lemma_level_char(node.0);
            vstd::arithmetic::power2::lemma_pow2_pos(level_of(node.0));
        }
        let cgb = pow2_u64(10 + self.chunk_group_log as u32);
        let span = node.half_span();
        crate::units::mul_le(node.0 + 1 + span, cgb, self.size.0)
    }

    /// True unless the node is a leaf whose right half is empty.
    pub fn is_persisted(&self, node: TreeNode) -> (r: bool)
        requires
            self.wf(),
            node.0 < u64::MAX,
        ensures
            r <==> self.spec_persisted(node.0),
    {
        proof {
            self.lemma_bounds();
        }
        if !node.is_leaf() {
            true
        } else {
            let cgb = pow2_u64(10 + self.chunk_group_log as u32);
            crate::units::mul_lt(node.0 + 1, cgb, self.size.0)
        }
    }

    /// Where the node's hash pair sits in the post-order outboard:
    /// `Stable` for sealed nodes, `Unstable` for persisted nodes on the
    /// unsealed right edge, `Skip` for leaves without a right half.
    pub open spec fn spec_post_order_offset(self, n: u64) -> PostOrderOffset {
        if self.spec_sealed(n) {
            PostOrderOffset::Stable(PONum(post_order_offset_of(n) as u64))
        } else if !self.spec_persisted(n) {
            PostOrderOffset::Skip
        } else if popcount((n + 1) as u64) <= self.spec_outboard_hash_pairs() {
            PostOrderOffset::Unstable(PONum((self.spec_outboard_hash_pairs() - popcount((n
                + 1) as u64)) as u64))
        } else {
            PostOrderOffset::Skip
        }
    }

    /// See [`BaoTree::spec_post_order_offset`].
    pub fn post_order_offset(&self, node: TreeNode) -> (r: PostOrderOffset)
        requires
            self.wf(),
            node.0 < 0x4000_0000_0000_0000,
        ensures
            r == self.spec_post_order_offset(node.0),
    {
        proof {
            self.lemma_bounds();
            crate::node::lemma_level_char(node.0);
            crate::node::lemma_pow2_le_of_le(node.0);
            vstd::arithmetic::power2::lemma_pow2_pos(level_of(node.0));
        }
        if self.is_sealed(node) {
            PostOrderOffset::Stable(node.post_order_offset())
        } else if !self.is_persisted(node) {
            PostOrderOffset::Skip
        } else {
            let pairs = self.outboard_hash_pairs();
            let rc = node.right_count();
            let need: u64 = rc as u64 + 1;
            if need <= pairs {
                PostOrderOffset::Unstable(PONum(pairs - need))
            } else {
                PostOrderOffset::Skip
            }
        }
    }

    /// The pre-order index of a node in this tree.
    pub fn pre_order_offset(&self, node: TreeNode) -> (r: u64)
        requires
            self.wf(),
            node.0 < 0x4000_0000_0000_0000,
        ensures
            r == pre_order_offset_of(node.0, self.spec_filled() as u64),
    {
        proof {
            self.lemma_bounds();
        }
        pre_order_offset_slow(node.0, self.filled_size().0)
    }

    /// The byte offset where the given number of blocks ends.
    pub fn bytes(&self, blocks: BlockNum) -> (r: ByteNum)
        requires
            self.wf(),
            blocks.0 * self.spec_cgb() <= u64::MAX,
        ensures
            r.0 == blocks.0 * self.spec_cgb(),
    {
        proof {
            self.lemma_bounds();
        }
        let cgb = pow2_u64(10 + self.chunk_group_log as u32);
        ByteNum(blocks.0 * cgb)
    }
}

/// One step of the walk from a node up to the root: how many of the
/// ancestors reached by repeatedly doubling `span` lie below `len`.
pub open spec fn parent_count(offset: int, span: int, len: int) -> int
    decreases len - span,
    when span >= 1
{
    let pspan = 2 * span;
    let up = if (offset / pspan) % 2 == 0 {
        offset + span
    } else {
        offset - span
    };
    let c: int = if up < len {
        1int
    } else {
        0int
    };
    if pspan >= len {
        c
    } else {
        c + parent_count(up, pspan, len)
    }
}

/// The pre-order index of `node` in the tree whose filled size is `len`
/// nodes: the nodes of the subtrees hanging off to the left of its path,
/// plus one for each ancestor inside the tree.
pub open spec fn pre_order_offset_of(node: u64, len: u64) -> int {
    block_start(node) - popcount(block_start(node) as u64) + parent_count(
        node as int,
        span_of(node),
        len as int,
    )
}

/// Compute the pre-order offset by walking the ancestor chain.
pub fn pre_order_offset_slow(node: u64, len: u64) -> (r: u64)
    requires
        node < 0x4000_0000_0000_0000,
        len <= 0x4000_0000_0000_0000,
    ensures
        r == pre_order_offset_of(node, len),
{
    proof {
        lemma_level_char(node);
        crate::node::lemma_pow2_le_of_le(node);
        lemma_pow2_pos(level_of(node));
        assert(pow2(62) == 0x4000_0000_0000_0000) by {
            vstd::arithmetic::power2::lemma2_to64_rest();
        }
        if level_of(node) > 62 {
            lemma_pow2_strictly_increases(62, level_of(node));
            assert(false);
        }
    }
    let n = TreeNode(node);
    let span0 = n.half_span();
    let left: u64 = node + 1 - span0;
    let mut pc: u64 = 0;
    let mut offset: u64 = node;
    let mut span: u64 = span0;
    let mut cont = true;
    while cont
        invariant
            len <= 0x4000_0000_0000_0000,
            cont ==> span == span_of(offset),
            cont ==> level_of(offset) <= 62,
            cont ==> 1 <= span <= 0x4000_0000_0000_0000,
            cont ==> pc <= level_of(offset),
            pc <= 64,
            parent_count(node as int, span0 as int, len as int) == pc + (if cont {
                parent_count(offset as int, span as int, len as int)
            } else {
                0int
            }),
        decreases (if cont {
            65 - level_of(offset)
        } else {
            0int
        }),
    {
        proof {
            crate::node::lemma_parent(offset);
            vstd::arithmetic::power2::lemma_pow2_unfold((level_of(offset) + 1) as nat);
        }
        let pspan: u64 = span * 2;
        let up: u64 = if (offset / pspan) % 2 == 0 {
            offset + span
        } else {
            offset - span
        };
        proof {
            assert(up == crate::node::parent_of(offset));
        }
        if up < len {
            pc = pc + 1;
        }
        if pspan >= len {
            cont = false;
        } else {
            span = pspan;
        }
        offset = up;
        proof {
            if cont {
                assert(pow2(62) == 0x4000_0000_0000_0000) by {
                    vstd::arithmetic::power2::lemma2_to64_rest();
                }
                if level_of(offset) > 62 {
                    lemma_pow2_strictly_increases(62, level_of(offset));
                    assert(false);
                }
            }
        }
    }
    proof {
        crate::node::lemma_popcount_le_self(left);
        crate::node::lemma_popcount_bound(left);
    }
    let pcnt = crate::node::popcount_u64(left);
    left - pcnt as u64 + pc
}

} // verus!

use vstd::prelude::*;

verus! {

use vstd::slice::slice_subrange;
use crate::units::{ceil_div, lemma_ceil_div, ceil_div_u64, ChunkNum};
use crate::node::{next_pow2, next_pow2_log, lemma_next_pow2_bounds, lemma_next_pow2_unique,
    next_pow2_u64};

/// What `blake3::guts::ChunkState` computes for one chunk: a function of
/// the chunk counter, the chunk data and the root flag alone.
pub uninterp spec fn chunk_hash(chunk: u64, data: Seq<u8>, is_root: bool) -> Seq<u8>;

/// What `blake3::guts::parent_cv` computes for two child chaining values:
/// a function of the two values and the root flag alone.
pub uninterp spec fn parent_hash(l: Seq<u8>, r: Seq<u8>, is_root: bool) -> Seq<u8>;

/// Relies on `blake3::guts::ChunkState`: `new(chunk)` then `update(data)`
/// then `finalize(is_root)` hashes one chunk of at most 1024 bytes; the
/// result depends on the three arguments alone.
#[verifier::external_body]
pub(crate) fn hash_chunk(chunk: u64, data: &[u8], is_root: bool) -> (r: [u8; 32])
    requires
        data@.len() <= 1024,
    ensures
        r@ == chunk_hash(chunk, data@, is_root),
{
    let mut state = blake3::guts::ChunkState::new(chunk);
    state.update(data);
    *state.finalize(is_root).as_bytes()
}

/// Relies on `blake3::guts::parent_cv`: combines two child chaining
/// values into the parent value; the result depends on the two values and
/// the root flag alone.
#[verifier::external_body]
pub(crate) fn parent_cv(l: &[u8; 32], r: &[u8; 32], is_root: bool) -> (res: [u8; 32])
    ensures
        res@ == parent_hash(l@, r@, is_root),
{
    *blake3::guts::parent_cv(&blake3::Hash::from(*l), &blake3::Hash::from(*r), is_root).as_bytes()
}

/// The BLAKE3 subtree hash of `data` laid out starting at chunk index
/// `start_chunk`: a single chunk is hashed directly, longer data is split
/// so that the left side holds the largest power of two of chunks that
/// still leaves data for the right side.
pub open spec fn hash_subtree(start_chunk: u64, data: Seq<u8>, is_root: bool) -> Seq<u8>
    decreases data.len(),
    via check_hash_subtree
{
    if data.len() <= 1024 {
        chunk_hash(start_chunk, data, is_root)
    } else {
        let n = ceil_div(data.len() as int, 1024);
        let c = next_pow2(n as nat) as int / 2;
        let splitb: int = c * 1024;
        parent_hash(
            hash_subtree(start_chunk, data.subrange(0, splitb), false),
            hash_subtree((start_chunk + c) as u64, data.subrange(splitb, data.len() as int),
                false),
            is_root,
        )
    }
}

#[via_fn]
proof fn check_hash_subtree(start_chunk: u64, data: Seq<u8>, is_root: bool) {
    if data.len() > 1024 {
        let n = ceil_div(data.len() as int, 1024);
        lemma_ceil_div(data.len() as int, 1024);
        lemma_next_pow2_bounds(n as nat);
        let c = next_pow2(n as nat) / 2;
        assert(1 <= c < n) by {
            assert(next_pow2(n as nat) >= 2) by {
                if next_pow2(n as nat) < 2 {
                    assert(next_pow2(n as nat) >= n >= 2);
                }
            }
        }
        assert(c * 1024 <= (n - 1) * 1024) by (nonlinear_arith)
            requires
                1 <= c <= n - 1,
        ;
        assert((n - 1) * 1024 < data.len());
        assert(0 < c * 1024 < data.len());
    }
}

/// The split point used by [`hash_subtree`] is the only power of two `p`
/// of chunks with `p < n <= 2 * p`.
pub proof fn lemma_subtree_split(n: int, k: nat)
    requires
        pow2(k) < n <= 2 * pow2(k),
    ensures
        next_pow2(n as nat) / 2 == pow2(k),
{
    vstd::arithmetic::power2::lemma_pow2_unfold((k + 1) as nat);
    lemma_next_pow2_unique(n as nat, (k + 1) as nat);
    assert(next_pow2(n as nat) == pow2((k + 1) as nat));
    assert(pow2((k + 1) as nat) / 2 == pow2(k)) by {
        vstd::arithmetic::div_mod::lemma_fundamental_div_mod_converse(
            pow2((k + 1) as nat) as int,
            2,
            pow2(k) as int,
            0,
        );
    }
}

use vstd::arithmetic::power2::pow2;

/// Hash a block of data that starts at chunk index `start_chunk`,
/// decomposing it into its BLAKE3 chunk subtree.
pub(crate) fn hash_block(start_chunk: u64, data: &[u8], is_root: bool) -> (r: [u8; 32])
    requires
        data@.len() <= 0x4000_0000_0000_0000,
        start_chunk + ceil_div(data@.len() as int, 1024) <= 0x4000_0000_0000_0000,
    ensures
        r@ == hash_subtree(start_chunk, data@, is_root),
    decreases data@.len(),
{
    if data.len() <= 1024 {
        hash_chunk(start_chunk, data, is_root)
    } else {
        proof {
            lemma_ceil_div(data@.len() as int, 1024);
        }
        let n: u64 = ceil_div_u64(data.len() as u64, 1024);
        let c: u64 = next_pow2_u64(n) / 2;
        proof {
            lemma_next_pow2_bounds(n as nat);
            assert(1 <= c < n) by {
                assert(next_pow2(n as nat) >= 2) by {
                    if next_pow2(n as nat) < 2 {
                        assert(next_pow2(n as nat) >= n >= 2);
                    }
                }
            }
            assert(c * 1024 <= (n - 1) * 1024) by (nonlinear_arith)
                requires
                    1 <= c <= n - 1,
            ;
            assert((n - 1) * 1024 < data@.len());
        }
        let splitb: usize = (c * 1024) as usize;
        let left = slice_subrange(data, 0, splitb);
        let right = slice_subrange(data, splitb, data.len());
        proof {
            crate::units::lemma_ceil_div_bracket(splitb as int, 1024, c as int);
            crate::units::lemma_ceil_div_bracket(
                data@.len() - splitb,
                1024,
                n as int - c as int,
            );
        }
        let l = hash_block(start_chunk, left, false);
        let r = hash_block(start_chunk + c, right, false);
        parent_cv(&l, &r, is_root)
    }
}

impl crate::tree::BaoTree {
    /// The BLAKE3 hash of a blob: the root of its chunk subtree.
    pub fn blake3_hash(data: &[u8]) -> (r: [u8; 32])
        requires
            data@.len() < 0x4000_0000_0000_0000,
        ensures
            r@ == hash_subtree(0, data@, true),
    {
        Self::blake3_hash_inner(data, ChunkNum(0), true)
    }

    /// The subtree hash for data standing at an arbitrary start chunk;
    /// with the root flag set this is the hash of `data` as a complete
    /// blob.
    pub fn blake3_hash_inner(data: &[u8], start_chunk: ChunkNum, is_root: bool) -> (r: [u8;
        32])
        requires
            data@.len() < 0x4000_0000_0000_0000,
            start_chunk.0 <= 0x2000_0000_0000_0000,
        ensures
            r@ == hash_subtree(start_chunk.0, data@, is_root),
    {
        proof {
            lemma_ceil_div(data@.len() as int, 1024);
            assert(ceil_div(data@.len() as int, 1024) <= 0x10_0000_0000_0000)
                by (nonlinear_arith)
                requires
                    ceil_div(data@.len() as int, 1024) * 1024 >= data@.len(),
                    (ceil_div(data@.len() as int, 1024) - 1) * 1024 < data@.len(),
                    data@.len() < 0x4000_0000_0000_0000,
            ;
        }
        hash_block(start_chunk.0, data, is_root)
    }
}

} // verus!

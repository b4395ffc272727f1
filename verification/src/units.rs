use vstd::prelude::*;

verus! {

use vstd::arithmetic::power2::pow2;
use vstd::arithmetic::div_mod::{lemma_fundamental_div_mod, lemma_fundamental_div_mod_converse};

/// A byte offset or count.
#[derive(Clone, Copy, Debug, PartialEq, Eq, Structural, Hash)]
pub struct ByteNum(pub u64);

/// An index into the sequence of 1024-byte chunks.
#[derive(Clone, Copy, Debug, PartialEq, Eq, Structural, Hash)]
pub struct ChunkNum(pub u64);

/// An index into the sequence of blocks; one block is `2^g` chunks, where
/// `g` is the chunk group exponent of the tree.
#[derive(Clone, Copy, Debug, PartialEq, Eq, Structural, Hash)]
pub struct BlockNum(pub u64);

/// A position in the post-order linearization of the interior nodes.
#[derive(Clone, Copy, Debug, PartialEq, Eq, Structural, Hash)]
pub struct PONum(pub u64);

/// Ceiling division of non-negative integers.
pub open spec fn ceil_div(a: int, b: int) -> int {
    (a + b - 1) / b
}

/// Number of 1024-byte chunks needed to cover `bytes` bytes.
pub open spec fn chunk_count(bytes: u64) -> int {
    ceil_div(bytes as int, 1024)
}

/// Number of blocks of `pow2(10 + g)` bytes needed to cover `bytes` bytes.
pub open spec fn block_count(bytes: u64, chunk_group_log: u8) -> int {
    ceil_div(bytes as int, pow2((10 + chunk_group_log) as nat) as int)
}

pub proof fn lemma_ceil_div(a: int, b: int)
    requires
        a >= 0,
        b > 0,
    ensures
        ceil_div(a, b) == a / b + (if a % b == 0 { 0int } else { 1int }),
        0 <= ceil_div(a, b) <= a,
        a > 0 ==> ceil_div(a, b) > 0,
        ceil_div(a, b) * b >= a,
        (ceil_div(a, b) - 1) * b < a,
{
    lemma_fundamental_div_mod(a, b);
    let q = a / b;
    let r = a % b;
    assert(a == b * q + r);
    assert(q >= 0) by (nonlinear_arith)
        requires
            a == b * q + r,
            a >= 0,
            0 <= r < b,
    ;
    if r == 0 {
        assert(a + b - 1 == q * b + (b - 1)) by (nonlinear_arith)
            requires
                a == b * q + r,
                r == 0,
        ;
        lemma_fundamental_div_mod_converse(a + b - 1, b, q, b - 1);
        assert(ceil_div(a, b) == q);
        assert(q <= a && q * b >= a && (q - 1) * b < a && (a > 0 ==> q > 0)) by (nonlinear_arith)
            requires
                a == b * q + r,
                r == 0,
                q >= 0,
                b > 0,
        ;
    } else {
        assert(a + b - 1 == (q + 1) * b + (r - 1)) by (nonlinear_arith)
            requires
                a == b * q + r,
        ;
        lemma_fundamental_div_mod_converse(a + b - 1, b, q + 1, r - 1);
        assert(ceil_div(a, b) == q + 1);
        assert(q + 1 <= a && (q + 1) * b >= a && q * b < a) by (nonlinear_arith)
            requires
                a == b * q + r,
                0 < r < b,
                q >= 0,
                b > 0,
        ;
    }
}

/// The ceiling quotient is the unique `q` with `(q-1)*b < a <= q*b`.
pub proof fn lemma_ceil_div_bracket(a: int, b: int, q: int)
    requires
        b > 0,
        a >= 0,
        q >= 0,
        (q - 1) * b < a <= q * b,
    ensures
        ceil_div(a, b) == q,
{
    lemma_ceil_div(a, b);
    let cd = ceil_div(a, b);
    assert(cd == q) by (nonlinear_arith)
        requires
            cd * b >= a,
            (cd - 1) * b < a,
            (q - 1) * b < a,
            a <= q * b,
            b > 0,
    ;
}

/// Euclidean `a / b` rounded up, as executable code.
pub(crate) fn ceil_div_u64(a: u64, b: u64) -> (r: u64)
    requires
        b > 0,
    ensures
        r == ceil_div(a as int, b as int),
{
    proof {
        lemma_ceil_div(a as int, b as int);
    }
    let q: u64 = a / b;
    if a % b == 0 {
        q
    } else {
        q + 1
    }
}

impl ByteNum {
    /// Number of chunks that this number of bytes covers.
    pub fn chunks(&self) -> (r: ChunkNum)
        ensures
            r.0 == chunk_count(self.0),
    {
        ChunkNum(ceil_div_u64(self.0, 1024))
    }

    /// Number of blocks that this number of bytes covers, given a block size
    /// of `2^chunk_group_log` chunks.
    pub fn blocks(&self, chunk_group_log: u8) -> (r: BlockNum)
        requires
            chunk_group_log <= 53,
        ensures
            r.0 == block_count(self.0, chunk_group_log),
    {
        let divisor: u64 = pow2_u64(10 + chunk_group_log as u32);
        BlockNum(ceil_div_u64(self.0, divisor))
    }
}

impl ChunkNum {
    /// The byte offset at which this chunk starts.
    pub fn to_bytes(&self) -> (r: ByteNum)
        requires
            self.0 * 1024 <= u64::MAX,
        ensures
            r.0 == self.0 * 1024,
    {
        ByteNum(self.0 * 1024)
    }
}

/// Overflow-free test of `m * c <= s`.
pub(crate) fn mul_le(m: u64, c: u64, s: u64) -> (r: bool)
    requires
        c >= 1,
    ensures
        r <==> m * c <= s,
{
    proof {
        lemma_fundamental_div_mod(s as int, c as int);
        let q = s as int / c as int;
        let rr = s as int % c as int;
        if m <= q {
            assert(m * c <= s) by (nonlinear_arith)
                requires
                    s == c * q + rr,
                    0 <= rr < c,
                    0 <= m <= q,
            ;
        } else {
            assert(m * c > s) by (nonlinear_arith)
                requires
                    s == c * q + rr,
                    0 <= rr < c,
                    m > q,
                    q >= 0,
            ;
        }
    }
    m <= s / c
}

/// Overflow-free test of `m * c < s`.
pub(crate) fn mul_lt(m: u64, c: u64, s: u64) -> (r: bool)
    requires
        c >= 1,
    ensures
        r <==> m * c < s,
{
    if s == 0 {
        proof {
            assert(m * c >= 0) by (nonlinear_arith)
                requires
                    m >= 0,
                    c >= 0,
            ;
        }
        false
    } else {
        mul_le(m, c, s - 1)
    }
}

/// `pow2(e)` as a `u64`, for exponents below 64.
pub fn pow2_u64(e: u32) -> (r: u64)
    requires
        e < 64,
    ensures
        r == pow2(e as nat),
        r >= 1,
{
    proof {
        lemma_pow2_in_u64_range(e as nat);
        vstd::arithmetic::power2::lemma2_to64();
    }
    let mut i: u32 = 0;
    let mut p: u64 = 1;
    while i < e
        invariant
            i <= e < 64,
            p == pow2(i as nat),
        decreases e - i,
    {
        proof {
            lemma_pow2_in_u64_range((i + 1) as nat);
            vstd::arithmetic::power2::lemma_pow2_unfold((i + 1) as nat);
        }
        p = p * 2;
        i = i + 1;
    }
    p
}

/// `pow2` stays within `u64` range for exponents up to 63.
pub proof fn lemma_pow2_in_u64_range(e: nat)
    requires
        e <= 63,
    ensures
        0 < pow2(e) < u64::MAX,
{
    vstd::arithmetic::power2::lemma_pow2_pos(e);
    if e < 63 {
        vstd::arithmetic::power2::lemma_pow2_strictly_increases(e, 63);
    }
    vstd::arithmetic::power2::lemma2_to64_rest();
}

} // verus!

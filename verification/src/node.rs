use vstd::prelude::*;

verus! {

use vstd::arithmetic::power2::{pow2, lemma_pow2_unfold, lemma_pow2_adds, lemma_pow2_pos,
    lemma_pow2_strictly_increases};
use vstd::arithmetic::div_mod::{lemma_fundamental_div_mod, lemma_fundamental_div_mod_converse};
use crate::units::{BlockNum, ByteNum, PONum};

/// A node of the implicit complete binary tree, encoded as a single integer.
///
/// Leaves are the even numbers; a node with `l` trailing one bits sits at
/// level `l` of the tree.
#[derive(Clone, Copy, Debug, PartialEq, Eq, Structural, Hash)]
pub struct TreeNode(pub u64);

/// A tree node that is known to be a leaf.
#[derive(Clone, Copy, Debug, PartialEq, Eq, Structural, Hash)]
pub struct LeafNode(pub u64);

/// The level of node `n`: the number of trailing one bits of `n`.
/// Leaves have level 0.
pub open spec fn level_of(n: u64) -> nat
    decreases n,
{
    if n % 2 == 0 {
        0
    } else {
        1 + level_of((n / 2) as u64)
    }
}

/// Half the width of the block range of node `n`, i.e. `pow2(level)`.
pub open spec fn span_of(n: u64) -> int {
    pow2(level_of(n)) as int
}

/// First block covered by node `n`.
pub open spec fn block_start(n: u64) -> int {
    n + 1 - span_of(n)
}

/// One past the last block covered by node `n`.
pub open spec fn block_end(n: u64) -> int {
    n + 1 + span_of(n)
}

/// Number of one bits in `n`.
pub open spec fn popcount(n: u64) -> nat
    decreases n,
{
    if n == 0 {
        0
    } else {
        (n % 2) as nat + popcount((n / 2) as u64)
    }
}

/// The characterization of `level_of`: below the level every bit is one, at
/// the level (if any) the bit is zero.
pub proof fn lemma_level_char(n: u64)
    ensures
        pow2(level_of(n)) <= n + 1,
        n as int % (pow2(level_of(n)) as int) == pow2(level_of(n)) - 1,
        level_of(n) <= 64,
        level_of(n) < 64 ==> (n as int / pow2(level_of(n)) as int) % 2 == 0,
        level_of(n) == 64 ==> n == u64::MAX,
    decreases n,
{
    let l = level_of(n);
    lemma_pow2_pos(l);
    if n % 2 == 0 {
        assert(pow2(0) == 1) by {
            vstd::arithmetic::power2::lemma2_to64();
        }
        assert(n as int % 1int == 0) by {
            lemma_fundamental_div_mod_converse(n as int, 1, n as int, 0);
        }
        assert(n as int / 1int == n) by {
            lemma_fundamental_div_mod_converse(n as int, 1, n as int, 0);
        }
    } else {
        let m = (n / 2) as u64;
        lemma_level_char(m);
        let lm = level_of(m);
        assert(l == lm + 1);
        let p = pow2(lm) as int;
        let pl = pow2(l) as int;
        lemma_pow2_unfold(l);
        assert(pl == 2 * p);
        lemma_pow2_pos(lm);
        // m == q * p + (p - 1), with q == m / p
        lemma_fundamental_div_mod(m as int, p);
        let q = m as int / p;
        assert(m == q * p + (p - 1));
        // n == 2 * m + 1
        lemma_fundamental_div_mod(n as int, 2);
        assert(n == 2 * m + 1);
        assert(n == q * pl + (pl - 1)) by (nonlinear_arith)
            requires
                n == 2 * m + 1,
                m == q * p + (p - 1),
                pl == 2 * p,
        ;
        assert(q >= 0) by (nonlinear_arith)
            requires
                m == q * p + (p - 1),
                m >= 0,
                p >= 1,
        ;
        lemma_fundamental_div_mod_converse(n as int, pl, q, pl - 1);
        assert(n as int % pl == pl - 1);
        assert(n as int / pl == q);
        // pow2(l) <= n + 1
        assert(pow2(l) <= n + 1) by (nonlinear_arith)
            requires
                n == q * pl + (pl - 1),
                q >= 0,
                pl == pow2(l),
                pl >= 1,
        ;
        // level bound
        if l > 64 {
            assert(pow2(65) <= pow2(l)) by {
                if l > 65 {
                    lemma_pow2_strictly_increases(65, l);
                }
            }
            assert(pow2(65) == 0x2_0000_0000_0000_0000) by {
                vstd::arithmetic::power2::lemma2_to64_rest();
                lemma_pow2_unfold(65);
            }
            assert(false);
        }
        if l == 64 {
            assert(pow2(64) == 0x1_0000_0000_0000_0000) by {
                vstd::arithmetic::power2::lemma2_to64_rest();
            }
            assert(n == u64::MAX);
        }
        if l < 64 {
            // q == m / p and (m / p) % 2 == 0 by induction, since lm < 64
            assert(lm < 64);
        }
    }
}

/// Bits strictly below a run of trailing ones are themselves one.
pub proof fn lemma_bit_one_below(n: u64, a: nat, b: nat)
    requires
        b < a <= 64,
        n as int % (pow2(a) as int) == pow2(a) - 1,
    ensures
        (n as int / pow2(b) as int) % 2 == 1,
{
    let pa = pow2(a) as int;
    let pb = pow2(b) as int;
    let pab = pow2((a - b) as nat) as int;
    lemma_pow2_pos(a);
    lemma_pow2_pos(b);
    lemma_pow2_pos((a - b) as nat);
    lemma_pow2_adds(b, (a - b) as nat);
    assert(pa == pb * pab);
    lemma_fundamental_div_mod(n as int, pa);
    let q = n as int / pa;
    assert(n == q * pa + (pa - 1));
    assert(q >= 0) by (nonlinear_arith)
        requires
            n == q * pa + (pa - 1),
            n >= 0,
            pa >= 1,
    ;
    // n == (q * pab + pab - 1) * pb + (pb - 1)
    assert(n == (q * pab + pab - 1) * pb + (pb - 1)) by (nonlinear_arith)
        requires
            n == q * pa + (pa - 1),
            pa == pb * pab,
            pb >= 1,
            pab >= 1,
    ;
    assert(q * pab + pab - 1 >= 0) by (nonlinear_arith)
        requires
            q >= 0,
            pab >= 1,
    ;
    lemma_fundamental_div_mod_converse(n as int, pb, q * pab + pab - 1, pb - 1);
    assert(n as int / pb == q * pab + pab - 1);
    // that quotient is odd since pab is even (a > b)
    let half = pow2((a - b - 1) as nat) as int;
    lemma_pow2_unfold((a - b) as nat);
    assert(pab == 2 * half);
    let y = q * half + half - 1;
    assert(q * pab + pab - 1 == 2 * y + 1 && y >= 0) by (nonlinear_arith)
        requires
            pab == 2 * half,
            half >= 1,
            q >= 0,
            y == q * half + half - 1,
    ;
    lemma_fundamental_div_mod_converse(q * pab + pab - 1, 2, y, 1);
}

/// `level_of` is the unique `k` matching the trailing-ones characterization.
pub proof fn lemma_level_of_is(n: u64, k: nat)
    requires
        k <= 64,
        n as int % (pow2(k) as int) == pow2(k) - 1,
        k < 64 ==> (n as int / pow2(k) as int) % 2 == 0,
    ensures
        level_of(n) == k,
{
    let l = level_of(n);
    lemma_level_char(n);
    if l < k {
        // bit l of n is one by the hypothesis on k, zero by the characterization
        lemma_bit_one_below(n, k, l);
        assert(false);
    }
    if k < l {
        lemma_bit_one_below(n, l, k);
        assert(false);
    }
}

/// Popcount of a positive number is positive.
pub proof fn lemma_popcount_pos(n: u64)
    requires
        n > 0,
    ensures
        popcount(n) >= 1,
        popcount(n) <= 64,
    decreases n,
{
    lemma_popcount_bound(n);
    if n % 2 == 0 {
        lemma_popcount_pos((n / 2) as u64);
    }
}

/// Popcount of a number below `pow2(k)` is at most `k`.
pub proof fn lemma_popcount_le_bits(n: u64, k: nat)
    requires
        n < pow2(k),
    ensures
        popcount(n) <= k,
    decreases k,
{
    if n > 0 {
        assert(k > 0) by {
            if k == 0 {
                vstd::arithmetic::power2::lemma2_to64();
            }
        }
        lemma_pow2_unfold(k);
        let h = pow2((k - 1) as nat) as int;
        assert(n / 2 < h) by (nonlinear_arith)
            requires
                n < 2 * h,
                h >= 0,
        ;
        lemma_popcount_le_bits((n / 2) as u64, (k - 1) as nat);
    }
}

/// Popcount never exceeds 64.
pub proof fn lemma_popcount_bound(n: u64)
    ensures
        popcount(n) <= 64,
{
    assert(n < pow2(64)) by {
        vstd::arithmetic::power2::lemma2_to64_rest();
    }
    lemma_popcount_le_bits(n, 64);
}

/// Popcount of `n` never exceeds `n`.
pub proof fn lemma_popcount_le_self(n: u64)
    ensures
        popcount(n) <= n,
    decreases n,
{
    if n > 0 {
        lemma_popcount_le_self((n / 2) as u64);
    }
}

/// Both children of a node at level `l` sit at level `l - 1`.
pub proof fn lemma_left_child(n: u64)
    requires
        level_of(n) >= 1,
    ensures
        n >= pow2((level_of(n) - 1) as nat),
        level_of((n - pow2((level_of(n) - 1) as nat)) as u64) == level_of(n) - 1,
{
    let l = level_of(n);
    let p = pow2((l - 1) as nat) as int;
    let pl = pow2(l) as int;
    lemma_level_char(n);
    lemma_pow2_unfold(l);
    lemma_pow2_pos((l - 1) as nat);
    assert(pl == 2 * p);
    let q = n as int / pl;
    lemma_fundamental_div_mod(n as int, pl);
    assert(n == pl * q + (pl - 1));
    assert(q >= 0) by (nonlinear_arith)
        requires
            n == pl * q + (pl - 1),
            n >= 0,
            pl >= 1,
    ;
    let c = n - p;
    assert(c == (2 * q) * p + (p - 1) && c >= 0) by (nonlinear_arith)
        requires
            n == pl * q + (pl - 1),
            pl == 2 * p,
            c == n - p,
            p >= 1,
            q >= 0,
    ;
    lemma_fundamental_div_mod_converse(c, p, 2 * q, p - 1);
    lemma_fundamental_div_mod_converse(2 * q, 2, q, 0);
    lemma_level_of_is(c as u64, (l - 1) as nat);
}

pub proof fn lemma_right_child(n: u64)
    requires
        level_of(n) >= 1,
        n + pow2((level_of(n) - 1) as nat) <= u64::MAX,
    ensures
        level_of((n + pow2((level_of(n) - 1) as nat)) as u64) == level_of(n) - 1,
{
    let l = level_of(n);
    let p = pow2((l - 1) as nat) as int;
    let pl = pow2(l) as int;
    lemma_level_char(n);
    lemma_pow2_unfold(l);
    lemma_pow2_pos((l - 1) as nat);
    assert(pl == 2 * p);
    let q = n as int / pl;
    lemma_fundamental_div_mod(n as int, pl);
    assert(n == pl * q + (pl - 1));
    assert(q >= 0) by (nonlinear_arith)
        requires
            n == pl * q + (pl - 1),
            n >= 0,
            pl >= 1,
    ;
    let c = n + p;
    assert(c == (2 * q + 2) * p + (p - 1)) by (nonlinear_arith)
        requires
            n == pl * q + (pl - 1),
            pl == 2 * p,
            c == n + p,
            p >= 1,
    ;
    assert(2 * q + 2 >= 0);
    lemma_fundamental_div_mod_converse(c, p, 2 * q + 2, p - 1);
    lemma_fundamental_div_mod_converse(2 * q + 2, 2, q + 1, 0);
    lemma_level_of_is(c as u64, (l - 1) as nat);
}

/// The parent of node `n`: the neighbour at one level up whose block range
/// contains that of `n`.
pub open spec fn parent_of(n: u64) -> int {
    if (n as int / (2 * span_of(n))) % 2 == 0 {
        n + span_of(n)
    } else {
        n - span_of(n)
    }
}

pub proof fn lemma_parent(n: u64)
    requires
        level_of(n) <= 62,
    ensures
        0 <= parent_of(n) <= u64::MAX,
        level_of(parent_of(n) as u64) == level_of(n) + 1,
{
    let l = level_of(n);
    let p = pow2(l) as int;
    let pl = pow2((l + 1) as nat) as int;
    lemma_level_char(n);
    lemma_pow2_unfold((l + 1) as nat);
    lemma_pow2_pos(l);
    assert(pl == 2 * p);
    let q = n as int / p;
    lemma_fundamental_div_mod(n as int, p);
    assert(n == p * q + (p - 1));
    assert(q % 2 == 0);
    let m = q / 2;
    lemma_fundamental_div_mod(q, 2);
    assert(q == 2 * m);
    assert(n == m * pl + (p - 1) && m >= 0) by (nonlinear_arith)
        requires
            n == p * q + (p - 1),
            pl == 2 * p,
            q == 2 * m,
            p >= 1,
            n >= 0,
    ;
    lemma_fundamental_div_mod_converse(n as int, pl, m, p - 1);
    assert(n as int / pl == m);
    assert(2 * span_of(n) == pl);
    // bound on m so that the parent fits in 64 bits
    let top = pow2((63 - l) as nat) as int;
    lemma_pow2_pos((63 - l) as nat);
    lemma_pow2_adds((63 - l) as nat, (l + 1) as nat);
    assert(pow2(64) == 0x1_0000_0000_0000_0000) by {
        vstd::arithmetic::power2::lemma2_to64_rest();
    }
    assert(top * pl == 0x1_0000_0000_0000_0000);
    assert(m < top) by (nonlinear_arith)
        requires
            n == m * pl + (p - 1),
            n < top * pl,
            p >= 1,
            pl >= 1,
            top >= 1,
            m >= 0,
    ;
    if m % 2 == 0 {
        let par = n + p;
        assert(parent_of(n) == par);
        assert(par == m * pl + (pl - 1) && par <= u64::MAX) by (nonlinear_arith)
            requires
                n == m * pl + (p - 1),
                pl == 2 * p,
                par == n + p,
                m + 1 <= top,
                top * pl == 0x1_0000_0000_0000_0000,
                p >= 1,
                m >= 0,
        ;
        lemma_fundamental_div_mod_converse(par, pl, m, pl - 1);
        lemma_level_of_is(par as u64, (l + 1) as nat);
    } else {
        let par = n - p;
        assert(parent_of(n) == par);
        assert(m >= 1);
        assert(par == (m - 1) * pl + (pl - 1) && par >= 0) by (nonlinear_arith)
            requires
                n == m * pl + (p - 1),
                pl == 2 * p,
                par == n - p,
                p >= 1,
                m >= 1,
        ;
        assert((m - 1) % 2 == 0);
        lemma_fundamental_div_mod_converse(par, pl, m - 1, pl - 1);
        lemma_level_of_is(par as u64, (l + 1) as nat);
    }
}

impl TreeNode {
    /// The level of this node in the tree; leaves have level 0.
    pub fn level(&self) -> (r: u32)
        ensures
            r == level_of(self.0),
    {
        let mut x: u64 = self.0;
        let mut l: u32 = 0;
        proof {
            lemma_level_char(self.0);
        }
        while x % 2 == 1
            invariant
                level_of(self.0) == l + level_of(x),
                level_of(self.0) <= 64,
                l <= 64,
            decreases x,
        {
            proof {
                lemma_level_char(x);
            }
            x = x / 2;
            l = l + 1;
        }
        l
    }

    /// True if this node is a leaf, i.e. sits at level 0.
    pub fn is_leaf(&self) -> (r: bool)
        ensures
            r <==> level_of(self.0) == 0,
    {
        self.0 % 2 == 0
    }

    /// This node as a leaf, if it is one.
    pub fn as_leaf(&self) -> (r: Option<LeafNode>)
        ensures
            match r {
                Some(leaf) => level_of(self.0) == 0 && leaf.0 == self.0,
                None => level_of(self.0) != 0,
            },
    {
        if self.is_leaf() {
            Some(LeafNode(self.0))
        } else {
            None
        }
    }

    /// The boundary, in blocks, between the two children of this node.
    pub fn mid(&self) -> (r: BlockNum)
        requires
            self.0 < u64::MAX,
        ensures
            r.0 == self.0 + 1,
    {
        BlockNum(self.0 + 1)
    }

    /// Half the width of this node's block range: `pow2(level)`.
    pub fn half_span(&self) -> (r: u64)
        requires
            self.0 < u64::MAX,
        ensures
            r == span_of(self.0),
    {
        proof {
            lemma_level_char(self.0);
        }
        crate::units::pow2_u64(self.level())
    }

    /// Number of nodes strictly below this one: `2 * span - 2`.
    pub fn count_below(&self) -> (r: u64)
        requires
            self.0 < u64::MAX,
        ensures
            r == 2 * span_of(self.0) - 2,
    {
        proof {
            lemma_level_char(self.0);
            lemma_pow2_pos(level_of(self.0));
            assert(pow2(63) == 0x8000_0000_0000_0000) by {
                vstd::arithmetic::power2::lemma2_to64_rest();
            }
            if level_of(self.0) < 63 {
                lemma_pow2_strictly_increases(level_of(self.0), 63);
            }
        }
        let span = self.half_span();
        (span - 1) * 2
    }

    /// The range of blocks this node covers.
    pub fn block_range(&self) -> (r: core::ops::Range<BlockNum>)
        requires
            block_end(self.0) <= u64::MAX,
        ensures
            r.start.0 == block_start(self.0),
            r.end.0 == block_end(self.0),
    {
        proof {
            lemma_level_char(self.0);
            lemma_pow2_pos(level_of(self.0));
        }
        let span = self.half_span();
        BlockNum(self.0 + 1 - span)..BlockNum(self.0 + 1 + span)
    }

    /// The range of node indices of this node's subtree.
    pub fn node_range(&self) -> (r: core::ops::Range<TreeNode>)
        requires
            block_end(self.0) - 1 <= u64::MAX,
        ensures
            r.start.0 == block_start(self.0),
            r.end.0 == block_end(self.0) - 1,
    {
        proof {
            lemma_level_char(self.0);
            lemma_pow2_pos(level_of(self.0));
        }
        let span = self.half_span();
        TreeNode(self.0 + 1 - span)..TreeNode(self.0 + span)
    }

    /// The range of bytes this node covers, for chunk group exponent
    /// `chunk_group_log`.
    pub fn byte_range(&self, chunk_group_log: u8) -> (r: core::ops::Range<ByteNum>)
        requires
            chunk_group_log <= 53,
            block_end(self.0) * pow2((10 + chunk_group_log) as nat) <= u64::MAX,
        ensures
            r.start.0 == block_start(self.0) * pow2((10 + chunk_group_log) as nat),
            r.end.0 == block_end(self.0) * pow2((10 + chunk_group_log) as nat),
    {
        proof {
            lemma_level_char(self.0);
            lemma_pow2_pos(level_of(self.0));
            lemma_pow2_pos((10 + chunk_group_log) as nat);
            assert(block_start(self.0) <= block_end(self.0));
            assert(block_end(self.0) <= block_end(self.0) * pow2((10 + chunk_group_log) as nat))
                by (nonlinear_arith)
                requires
                    block_end(self.0) >= 0,
                    pow2((10 + chunk_group_log) as nat) >= 1,
            ;
        }
        let span = self.half_span();
        let cgb = crate::units::pow2_u64(10 + chunk_group_log as u32);
        let bs = self.0 + 1 - span;
        let be = self.0 + 1 + span;
        proof {
            assert(bs * cgb <= be * cgb && be * cgb <= u64::MAX && bs * cgb >= 0)
                by (nonlinear_arith)
                requires
                    0 <= bs <= be,
                    cgb >= 1,
                    be * cgb <= u64::MAX,
            ;
        }
        ByteNum(bs * cgb)..ByteNum(be * cgb)
    }

    /// The left child; `None` for a leaf.
    pub fn left_child(&self) -> (r: Option<TreeNode>)
        ensures
            match r {
                None => level_of(self.0) == 0,
                Some(c) => {
                    &&& level_of(self.0) >= 1
                    &&& c.0 == self.0 - pow2((level_of(self.0) - 1) as nat)
                    &&& level_of(c.0) == level_of(self.0) - 1
                },
            },
    {
        let level = self.level();
        if level == 0 {
            None
        } else {
            proof {
                lemma_level_char(self.0);
                lemma_left_child(self.0);
            }
            let offset = crate::units::pow2_u64(level - 1);
            Some(TreeNode(self.0 - offset))
        }
    }

    /// The right child; `None` for a leaf.
    pub fn right_child(&self) -> (r: Option<TreeNode>)
        requires
            level_of(self.0) == 0 || self.0 + pow2((level_of(self.0) - 1) as nat) <= u64::MAX,
        ensures
            match r {
                None => level_of(self.0) == 0,
                Some(c) => {
                    &&& level_of(self.0) >= 1
                    &&& c.0 == self.0 + pow2((level_of(self.0) - 1) as nat)
                    &&& level_of(c.0) == level_of(self.0) - 1
                },
            },
    {
        let level = self.level();
        if level == 0 {
            None
        } else {
            proof {
                lemma_level_char(self.0);
                lemma_right_child(self.0);
            }
            let offset = crate::units::pow2_u64(level - 1);
            Some(TreeNode(self.0 + offset))
        }
    }

    /// The parent of this node; `None` at the very top of the index space.
    pub fn parent(&self) -> (r: Option<TreeNode>)
        requires
            self.0 != u64::MAX,
        ensures
            match r {
                None => level_of(self.0) == 63,
                Some(p) => {
                    &&& level_of(self.0) <= 62
                    &&& p.0 == parent_of(self.0)
                    &&& level_of(p.0) == level_of(self.0) + 1
                },
            },
    {
        let level = self.level();
        proof {
            lemma_level_char(self.0);
        }
        if level == 63 {
            return None;
        }
        proof {
            lemma_parent(self.0);
            crate::units::lemma_pow2_in_u64_range((level + 1) as nat);
            lemma_pow2_unfold((level + 1) as nat);
        }
        let span = crate::units::pow2_u64(level);
        let pspan = span * 2;
        if (self.0 / pspan) % 2 == 0 {
            Some(TreeNode(self.0 + span))
        } else {
            Some(TreeNode(self.0 - span))
        }
    }

    /// Number of right turns on the path from the root to this node.
    pub fn right_count(&self) -> (r: u32)
        requires
            self.0 < u64::MAX,
        ensures
            r == popcount((self.0 + 1) as u64) - 1,
            popcount((self.0 + 1) as u64) >= 1,
    {
        proof {
            lemma_popcount_pos((self.0 + 1) as u64);
        }
        popcount_u64(self.0 + 1) - 1
    }

    /// The next ancestor on the path to the root that lies to the left of
    /// this node, i.e. the node `block_start - 1`; `None` on the leftmost
    /// branch.
    pub fn next_left_ancestor(&self) -> (r: Option<TreeNode>)
        requires
            self.0 < u64::MAX,
        ensures
            match r {
                None => block_start(self.0) == 0,
                Some(a) => block_start(self.0) > 0 && a.0 == block_start(self.0) - 1,
            },
    {
        proof {
            lemma_level_char(self.0);
        }
        let span = self.half_span();
        let start = self.0 + 1 - span;
        if start == 0 {
            None
        } else {
            Some(TreeNode(start - 1))
        }
    }

    /// The post-order index of this node in the fully filled tree.
    pub fn post_order_offset(&self) -> (r: PONum)
        requires
            self.0 < 0x4000_0000_0000_0000,
        ensures
            r.0 == post_order_offset_of(self.0),
    {
        proof {
            lemma_level_char(self.0);
            lemma_pow2_le_of_le(self.0);
        }
        let below = self.count_below();
        let span = self.half_span();
        let start = self.0 + 1 - span;
        if start == 0 {
            PONum(below)
        } else {
            proof {
                lemma_popcount_le_self(start);
                lemma_popcount_bound(start);
            }
            let pc = popcount_u64(start);
            PONum(below + (start - pc as u64))
        }
    }

    /// The post-order indices of this node's subtree: its own offset closes
    /// the half-open range.
    pub fn post_order_range(&self) -> (r: core::ops::Range<PONum>)
        requires
            self.0 < 0x4000_0000_0000_0000,
        ensures
            r.start.0 == post_order_offset_of(self.0) - (2 * span_of(self.0) - 2),
            r.end.0 == post_order_offset_of(self.0) + 1,
    {
        proof {
            lemma_level_char(self.0);
            lemma_pow2_le_of_le(self.0);
            if block_start(self.0) != 0 {
                lemma_popcount_le_self(block_start(self.0) as u64);
            }
        }
        let offset = self.post_order_offset();
        let below = self.count_below();
        PONum(offset.0 - below)..PONum(offset.0 + 1)
    }
}

/// The post-order index of node `n` in the fully filled tree: the count of
/// nodes of its own subtree below it, plus the nodes of every subtree that
/// hangs off to the left of its path to the root.
pub open spec fn post_order_offset_of(n: u64) -> int {
    if block_start(n) == 0 {
        2 * span_of(n) - 2
    } else {
        2 * span_of(n) - 2 + block_start(n) - popcount(block_start(n) as u64)
    }
}

/// For nodes below `pow2(62)` the span is at most `pow2(62)`, so the
/// post-order arithmetic stays far from the `u64` limit.
pub proof fn lemma_pow2_le_of_le(n: u64)
    requires
        n < 0x4000_0000_0000_0000,
    ensures
        span_of(n) <= 0x4000_0000_0000_0000,
{
    lemma_level_char(n);
    let l = level_of(n);
    assert(pow2(62) == 0x4000_0000_0000_0000) by {
        vstd::arithmetic::power2::lemma2_to64_rest();
    }
    if l > 62 {
        lemma_pow2_strictly_increases(62, l);
        assert(false);
    }
    if l < 62 {
        lemma_pow2_strictly_increases(l, 62);
    }
}

/// Count the one bits of `x`.
pub fn popcount_u64(x: u64) -> (r: u32)
    ensures
        r == popcount(x),
{
    let mut v: u64 = x;
    let mut c: u32 = 0;
    proof {
        lemma_popcount_bound(x);
    }
    while v > 0
        invariant
            popcount(x) == c + popcount(v),
            popcount(x) <= 64,
        decreases v,
    {
        if v % 2 == 1 {
            c = c + 1;
        }
        v = v / 2;
    }
    c
}

/// Search downward from the candidate `n + pow2(k)`: the first of
/// `n + pow2(k)`, `n + pow2(k - 1)`, ... that lies below `len`.
pub open spec fn right_desc_k(n: u64, len: u64, k: nat) -> Option<u64>
    decreases k,
{
    if n + pow2(k) < len {
        Some((n + pow2(k)) as u64)
    } else if k == 0 {
        None
    } else {
        right_desc_k(n, len, (k - 1) as nat)
    }
}

/// The node the traversal uses in place of the right child of `n`: the
/// right child itself when it lies inside the filled tree of `len` nodes,
/// else the leftmost descendant of it that does.
pub open spec fn right_descendant_of(n: u64, len: u64) -> Option<u64> {
    if level_of(n) == 0 {
        None
    } else {
        right_desc_k(n, len, (level_of(n) - 1) as nat)
    }
}

/// The first ancestor of `n` whose index lies below `len`; `None` when the
/// walk up reaches the top of the index space first.
pub open spec fn restricted_parent_of(n: u64, len: u64) -> Option<u64>
    decreases 64 - level_of(n),
    via check_restricted_parent_decreases
{
    if level_of(n) >= 63 {
        None
    } else if parent_of(n) < len {
        Some(parent_of(n) as u64)
    } else {
        restricted_parent_of(parent_of(n) as u64, len)
    }
}

#[via_fn]
proof fn check_restricted_parent_decreases(n: u64, len: u64) {
    if level_of(n) < 63 {
        lemma_level_char(n);
        lemma_parent(n);
    }
}

/// The all-ones node `u64::MAX` sits at level 64.
pub proof fn lemma_level_of_max()
    ensures
        level_of(u64::MAX) == 64,
{
    assert(pow2(64) == 0x1_0000_0000_0000_0000) by {
        vstd::arithmetic::power2::lemma2_to64_rest();
    }
    lemma_fundamental_div_mod_converse(u64::MAX as int, pow2(64) as int, 0, pow2(64) - 1);
    lemma_level_of_is(u64::MAX, 64);
}

impl TreeNode {
    /// Walk up until an ancestor lies below `len`; `None` if the walk
    /// reaches the top of the index space first.
    pub fn restricted_parent(&self, len: TreeNode) -> (r: Option<TreeNode>)
        requires
            self.0 != u64::MAX,
        ensures
            match r {
                None => restricted_parent_of(self.0, len.0) is None,
                Some(p) => restricted_parent_of(self.0, len.0) == Some(p.0) && p.0 < len.0,
            },
    {
        let mut curr = *self;
        loop
            invariant
                curr.0 != u64::MAX,
                restricted_parent_of(self.0, len.0) == restricted_parent_of(curr.0, len.0),
            decreases 64 - level_of(curr.0),
        {
            match curr.parent() {
                None => {
                    return None;
                },
                Some(p) => {
                    if p.0 < len.0 {
                        return Some(p);
                    }
                    proof {
                        if p.0 == u64::MAX {
                            lemma_level_of_max();
                            assert(false);
                        }
                    }
                    curr = p;
                },
            }
        }
    }

    /// Descend from the right child, going left while the index is outside
    /// the filled tree of `len` nodes.
    pub fn right_descendant(&self, len: TreeNode) -> (r: Option<TreeNode>)
        requires
            level_of(self.0) == 0 || self.0 + pow2((level_of(self.0) - 1) as nat) <= u64::MAX,
        ensures
            match r {
                None => right_descendant_of(self.0, len.0) is None,
                Some(d) => {
                    &&& right_descendant_of(self.0, len.0) == Some(d.0)
                    &&& d.0 < len.0
                    &&& level_of(d.0) < level_of(self.0)
                    &&& block_start(d.0) == self.0 + 1
                },
            },
    {
        let mut node = match self.right_child() {
            None => {
                return None;
            },
            Some(c) => c,
        };
        proof {
            lemma_pow2_pos((level_of(self.0) - 1) as nat);
        }
        while node.0 >= len.0
            invariant
                node.0 == self.0 + pow2(level_of(node.0)),
                level_of(node.0) < level_of(self.0),
                right_descendant_of(self.0, len.0) == right_desc_k(self.0, len.0,
                    level_of(node.0)),
            decreases level_of(node.0),
        {
            match node.left_child() {
                None => {
                    return None;
                },
                Some(c) => {
                    proof {
                        lemma_pow2_unfold(level_of(node.0));
                    }
                    node = c;
                },
            }
        }
        proof {
            lemma_pow2_pos(level_of(node.0));
        }
        Some(node)
    }
}

/// Adding `pow2(k)` to a node with more than `k` trailing ones gives a
/// node at level exactly `k`.
pub proof fn lemma_node_plus_pow2_level(n: u64, k: nat)
    requires
        k < level_of(n),
        n + pow2(k) <= u64::MAX,
    ensures
        level_of((n + pow2(k)) as u64) == k,
{
    let l = level_of(n);
    let pk = pow2(k) as int;
    let pl = pow2(l) as int;
    let plk = pow2((l - k) as nat) as int;
    let half = pow2((l - k - 1) as nat) as int;
    lemma_level_char(n);
    lemma_pow2_pos(k);
    lemma_pow2_pos(l);
    lemma_pow2_pos((l - k) as nat);
    lemma_pow2_pos((l - k - 1) as nat);
    lemma_pow2_adds(k, (l - k) as nat);
    assert(pl == pk * plk);
    lemma_pow2_unfold((l - k) as nat);
    assert(plk == 2 * half);
    let q = n as int / pl;
    lemma_fundamental_div_mod(n as int, pl);
    assert(n == pl * q + (pl - 1));
    assert(q >= 0) by (nonlinear_arith)
        requires
            n == pl * q + (pl - 1),
            n >= 0,
            pl >= 1,
    ;
    let d = n + pk;
    let a = q * half + half;
    assert(d == (2 * a) * pk + (pk - 1) && a >= 0) by (nonlinear_arith)
        requires
            n == pl * q + (pl - 1),
            pl == pk * plk,
            plk == 2 * half,
            d == n + pk,
            a == q * half + half,
            pk >= 1,
            half >= 1,
            q >= 0,
    ;
    lemma_fundamental_div_mod_converse(d, pk, 2 * a, pk - 1);
    lemma_fundamental_div_mod_converse(2 * a, 2, a, 0);
    lemma_level_of_is(d as u64, k);
}

/// What the descent from the right child returns: the first candidate
/// below `len`, its exact shape, and why the one above it was rejected.
pub proof fn lemma_right_desc_k(n: u64, len: u64, k: nat)
    requires
        k < level_of(n),
        n + pow2(k) <= u64::MAX,
    ensures
        match right_desc_k(n, len, k) {
            None => n + 1 >= len,
            Some(d) => {
                &&& d < len
                &&& n < d
                &&& level_of(d) <= k
                &&& d == n + pow2(level_of(d))
                &&& block_start(d) == n + 1
                &&& (level_of(d) == k || n + pow2((level_of(d) + 1) as nat) >= len)
            },
        },
    decreases k,
{
    lemma_pow2_pos(k);
    if n + pow2(k) < len {
        lemma_node_plus_pow2_level(n, k);
    } else if k == 0 {
        assert(pow2(0) == 1) by {
            vstd::arithmetic::power2::lemma2_to64();
        }
    } else {
        lemma_pow2_strictly_increases((k - 1) as nat, k);
        lemma_right_desc_k(n, len, (k - 1) as nat);
        if right_desc_k(n, len, (k - 1) as nat) is Some {
            let d = right_desc_k(n, len, (k - 1) as nat).unwrap();
            if level_of(d) == (k - 1) {
                assert(n + pow2((level_of(d) + 1) as nat) >= len);
            }
        }
    }
}

/// The properties of the full right-descendant operation.
pub proof fn lemma_right_descendant(n: u64, len: u64)
    requires
        level_of(n) >= 1,
        n + pow2((level_of(n) - 1) as nat) <= u64::MAX,
    ensures
        match right_descendant_of(n, len) {
            None => n + 1 >= len,
            Some(d) => {
                &&& d < len
                &&& n < d
                &&& level_of(d) < level_of(n)
                &&& d == n + pow2(level_of(d))
                &&& block_start(d) == n + 1
                &&& (level_of(d) == level_of(n) - 1 || n + pow2((level_of(d) + 1) as nat)
                    >= len)
            },
        },
{
    lemma_right_desc_k(n, len, (level_of(n) - 1) as nat);
}

/// The exponent of the least power of two that is at least `x` (0 for
/// `x <= 1`).
pub open spec fn next_pow2_log(x: nat) -> nat
    decreases x,
{
    if x <= 1 {
        0
    } else {
        1 + next_pow2_log((x + 1) / 2)
    }
}

/// The least power of two that is at least `x` (1 for `x == 0`).
pub open spec fn next_pow2(x: nat) -> nat {
    pow2(next_pow2_log(x))
}

pub proof fn lemma_next_pow2_bounds(x: nat)
    requires
        x >= 1,
    ensures
        next_pow2(x) >= x,
        next_pow2(x) < 2 * x,
    decreases x,
{
    vstd::arithmetic::power2::lemma2_to64();
    if x > 1 {
        let c = (x + 1) / 2;
        assert(1 <= c < x);
        lemma_next_pow2_bounds(c);
        assert(next_pow2_log(x) == 1 + next_pow2_log(c));
        lemma_pow2_unfold(next_pow2_log(x));
        assert(next_pow2(x) == 2 * next_pow2(c));
        assert(2 * c >= x);
        if next_pow2(c) >= x {
            // next_pow2(c) < 2c <= x + 1, so next_pow2(c) == x
            assert(next_pow2(c) == x);
            if next_pow2_log(c) == 0 {
                assert(next_pow2(c) == 1);
                assert(false);
            }
            lemma_pow2_unfold(next_pow2_log(c));
            // next_pow2(c) is even, so x is even, so 2c == x and next_pow2(c) < x
            assert(x % 2 == 0) by {
                let h = pow2((next_pow2_log(c) - 1) as nat) as int;
                lemma_fundamental_div_mod_converse(x as int, 2, h, 0);
            }
            assert(2 * c == x);
            assert(false);
        }
    }
}

pub proof fn lemma_next_pow2_unique(x: nat, k: nat)
    requires
        x >= 1,
        pow2(k) >= x,
        k > 0 ==> pow2((k - 1) as nat) < x,
    ensures
        k == next_pow2_log(x),
        pow2(k) == next_pow2(x),
{
    let kk = next_pow2_log(x);
    lemma_next_pow2_bounds(x);
    if k < kk {
        assert(kk >= 1);
        lemma_pow2_unfold(kk);
        assert(pow2((kk - 1) as nat) < x);
        if k < kk - 1 {
            lemma_pow2_strictly_increases(k, (kk - 1) as nat);
        }
        assert(pow2(k) < x);
        assert(false);
    }
    if k > kk {
        if kk < k - 1 {
            lemma_pow2_strictly_increases(kk, (k - 1) as nat);
        }
        assert(pow2((k - 1) as nat) >= pow2(kk) >= x);
        assert(false);
    }
}

/// The least power of two that is at least `x`, as executable code.
pub(crate) fn next_pow2_u64(x: u64) -> (r: u64)
    requires
        x <= 0x4000_0000_0000_0000,
    ensures
        r == next_pow2(x as nat),
        r >= 1,
        r >= x,
{
    proof {
        vstd::arithmetic::power2::lemma2_to64();
    }
    let mut p: u64 = 1;
    let ghost mut k: nat = 0;
    while p < x
        invariant
            x <= 0x4000_0000_0000_0000,
            p == pow2(k),
            k > 0 ==> pow2((k - 1) as nat) < x,
            p >= 1,
        decreases 2 * x - p,
    {
        proof {
            lemma_pow2_unfold((k + 1) as nat);
            k = k + 1;
        }
        p = p * 2;
    }
    proof {
        if x >= 1 {
            lemma_next_pow2_unique(x as nat, k);
        } else {
            assert(next_pow2_log(0) == 0);
        }
    }
    p
}

/// The node index of the root of a tree of `blocks` blocks.
pub open spec fn root_of(blocks: u64) -> int {
    next_pow2((((blocks + 1) / 2) as nat)) - 1
}

/// The node count of the fully filled tree over `c` leaves-worth of
/// entries: `2 * ceil(c / 2) - 1`.
pub open spec fn filled_size_of(c: u64) -> int {
    let h = (c + 1) / 2;
    if h == 0 {
        0
    } else {
        2 * h - 1
    }
}

impl TreeNode {
    /// Given a number of chunks, the size of the fully filled tree in
    /// nodes; one leaf node covers two chunks.
    pub fn filled_size(chunks: crate::units::ChunkNum) -> (r: TreeNode)
        requires
            chunks.0 < u64::MAX,
        ensures
            r.0 == filled_size_of(chunks.0),
    {
        let n: u64 = (chunks.0 + 1) / 2;
        if n == 0 {
            TreeNode(0)
        } else {
            TreeNode(n + (n - 1))
        }
    }

    /// Given a number of blocks, the root node of the tree.
    pub fn root(blocks: BlockNum) -> (r: TreeNode)
        requires
            blocks.0 <= 0x4000_0000_0000_0000,
        ensures
            r.0 == root_of(blocks.0),
            r.0 < u64::MAX,
    {
        let h: u64 = (blocks.0 + 1) / 2;
        let s = next_pow2_u64(h);
        TreeNode(s - 1)
    }
}

impl LeafNode {
    /// The two blocks this leaf covers.
    pub fn block_range(&self) -> (r: core::ops::Range<BlockNum>)
        requires
            self.0 + 2 <= u64::MAX,
        ensures
            r.start.0 == self.0,
            r.end.0 == self.0 + 2,
    {
        BlockNum(self.0)..BlockNum(self.0 + 2)
    }
}

} // verus!

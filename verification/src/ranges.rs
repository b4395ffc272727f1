use vstd::prelude::*;

verus! {

/// A sorted disjoint set of half-open chunk ranges, stored as its strictly
/// increasing sequence of boundaries: the union of `[b0, b1)`, `[b2, b3)`,
/// and so on; a final boundary without a partner opens an unbounded range.
#[derive(Debug, Clone)]
pub struct ChunkRanges {
    pub boundaries: Vec<u64>,
}

/// Strictly increasing boundary sequence.
pub open spec fn sorted(s: Seq<u64>) -> bool {
    forall|i: int, j: int| 0 <= i < j < s.len() ==> s[i] < s[j]
}

/// Number of leading elements of `s` that are smaller than `x`; for a
/// sorted sequence this is the number of elements smaller than `x`.
pub open spec fn count_lt(s: Seq<u64>, x: u64) -> int
    decreases s.len(),
{
    if s.len() == 0 {
        0
    } else {
        (if s[0] < x {
            1int
        } else {
            0int
        }) + count_lt(s.drop_first(), x)
    }
}

/// Like [`count_lt`], counting elements less than or equal to `x`.
pub open spec fn count_le(s: Seq<u64>, x: u64) -> int
    decreases s.len(),
{
    if s.len() == 0 {
        0
    } else {
        (if s[0] <= x {
            1int
        } else {
            0int
        }) + count_le(s.drop_first(), x)
    }
}

/// A chunk is in the set when an odd number of boundaries is at or below it.
pub open spec fn contains_chunk(s: Seq<u64>, x: u64) -> bool {
    count_le(s, x) % 2 == 1
}

/// In a sorted sequence the elements below `x` are exactly the first
/// `count_lt` ones.
pub proof fn lemma_count_lt_char(s: Seq<u64>, x: u64)
    requires
        sorted(s),
    ensures
        0 <= count_lt(s, x) <= s.len(),
        forall|i: int| 0 <= i < count_lt(s, x) ==> s[i] < x,
        forall|i: int| count_lt(s, x) <= i < s.len() ==> s[i] >= x,
    decreases s.len(),
{
    if s.len() > 0 {
        let t = s.drop_first();
        assert(forall|j: int| 0 <= j < t.len() ==> #[trigger] t[j] == s[j + 1]);
        assert(sorted(t)) by {
            assert(forall|i: int, j: int| 0 <= i < j < t.len() ==> t[i] == s[i + 1] && t[j] == s[
                j + 1]);
        }
        lemma_count_lt_char(t, x);
        let c = count_lt(s, x);
        if s[0] >= x {
            // everything after is at least s[0]
            assert(forall|i: int| 1 <= i < s.len() ==> #[trigger] s[i] > s[0]);
            assert(count_lt(t, x) == 0) by {
                if count_lt(t, x) > 0 {
                    assert(t[0] < x);
                    assert(t[0] == s[1]);
                }
            }
        } else {
            assert forall|i: int| 0 <= i < c implies s[i] < x by {
                if i >= 1 {
                    assert(s[i] == t[i - 1]);
                }
            }
            assert forall|i: int| c <= i < s.len() implies s[i] >= x by {
                assert(s[i] == t[i - 1]);
            }
        }
    }
}

/// In a sorted sequence the elements at or below `x` are exactly the first
/// `count_le` ones.
pub proof fn lemma_count_le_char(s: Seq<u64>, x: u64)
    requires
        sorted(s),
    ensures
        0 <= count_le(s, x) <= s.len(),
        forall|i: int| 0 <= i < count_le(s, x) ==> s[i] <= x,
        forall|i: int| count_le(s, x) <= i < s.len() ==> s[i] > x,
        count_lt(s, x) <= count_le(s, x) <= count_lt(s, x) + 1,
    decreases s.len(),
{
    lemma_count_lt_char(s, x);
    if s.len() > 0 {
        let t = s.drop_first();
        assert(forall|j: int| 0 <= j < t.len() ==> #[trigger] t[j] == s[j + 1]);
        assert(sorted(t)) by {
            assert(forall|i: int, j: int| 0 <= i < j < t.len() ==> t[i] == s[i + 1] && t[j] == s[
                j + 1]);
        }
        lemma_count_le_char(t, x);
        let c = count_le(s, x);
        if s[0] > x {
            assert(forall|i: int| 1 <= i < s.len() ==> #[trigger] s[i] > s[0]);
            assert(count_le(t, x) == 0) by {
                if count_le(t, x) > 0 {
                    assert(t[0] <= x);
                    assert(t[0] == s[1]);
                }
            }
        } else {
            assert forall|i: int| 0 <= i < c implies s[i] <= x by {
                if i >= 1 {
                    assert(s[i] == t[i - 1]);
                }
            }
            assert forall|i: int| c <= i < s.len() implies s[i] > x by {
                assert(s[i] == t[i - 1]);
            }
        }
    }
}

/// Any index with the split property of [`lemma_count_lt_char`] is
/// `count_lt` itself.
pub proof fn lemma_count_lt_unique(s: Seq<u64>, x: u64, j: int)
    requires
        sorted(s),
        0 <= j <= s.len(),
        forall|i: int| 0 <= i < j ==> s[i] < x,
        forall|i: int| j <= i < s.len() ==> s[i] >= x,
    ensures
        j == count_lt(s, x),
{
    lemma_count_lt_char(s, x);
    let c = count_lt(s, x);
    if j < c {
        assert(s[j] < x);
        assert(s[j] >= x);
    }
    if c < j {
        assert(s[c] < x);
        assert(s[c] >= x);
    }
}

/// Any index with the split property of [`lemma_count_le_char`] is
/// `count_le` itself.
pub proof fn lemma_count_le_unique(s: Seq<u64>, x: u64, j: int)
    requires
        sorted(s),
        0 <= j <= s.len(),
        forall|i: int| 0 <= i < j ==> s[i] <= x,
        forall|i: int| j <= i < s.len() ==> s[i] > x,
    ensures
        j == count_le(s, x),
{
    lemma_count_le_char(s, x);
    let c = count_le(s, x);
    if j < c {
        assert(s[j] <= x);
        assert(s[j] > x);
    }
    if c < j {
        assert(s[c] <= x);
        assert(s[c] > x);
    }
}

/// The boundaries of the part of `s` below `at`: the boundaries smaller
/// than `at`, closed with `at` itself when `at` falls inside a range.
pub open spec fn spec_split_left(s: Seq<u64>, at: u64) -> Seq<u64> {
    let j = count_lt(s, at);
    if j % 2 == 1 {
        s.subrange(0, j).push(at)
    } else {
        s.subrange(0, j)
    }
}

/// The boundaries of the part of `s` at or above `at`: the boundaries
/// greater than `at`, opened with `at` itself when `at` falls inside a
/// range.
pub open spec fn spec_split_right(s: Seq<u64>, at: u64) -> Seq<u64> {
    let i = count_le(s, at);
    if i % 2 == 1 {
        seq![at] + s.subrange(i, s.len() as int)
    } else {
        s.subrange(i, s.len() as int)
    }
}

/// The canonical form of `s` against a tree of `end` chunks: the part
/// below `end`; if that is empty, the last chunk alone (or nothing at all
/// for an empty tree).
pub open spec fn spec_canonical(s: Seq<u64>, end: u64) -> Seq<u64> {
    let t = spec_split_left(s, end);
    if t.len() == 0 {
        if end == 0 {
            Seq::empty()
        } else {
            seq![(end - 1) as u64, end]
        }
    } else {
        t
    }
}

impl ChunkRanges {
    pub open spec fn view(self) -> Seq<u64> {
        self.boundaries@
    }

    pub open spec fn wf(self) -> bool {
        sorted(self@)
    }

    /// The empty set of ranges.
    pub fn empty() -> (r: ChunkRanges)
        ensures
            r@ =~= Seq::<u64>::empty(),
            r.wf(),
    {
        ChunkRanges { boundaries: Vec::new() }
    }

    /// The set holding the single unbounded range `[start, ..)`.
    pub fn from_start(start: u64) -> (r: ChunkRanges)
        ensures
            r@ =~= seq![start],
            r.wf(),
    {
        let mut v: Vec<u64> = Vec::new();
        v.push(start);
        ChunkRanges { boundaries: v }
    }

    /// The set holding the single range `[start, end)`; empty when
    /// `start >= end`.
    pub fn from_range(start: u64, end: u64) -> (r: ChunkRanges)
        ensures
            start < end ==> r@ =~= seq![start, end],
            start >= end ==> r@ =~= Seq::<u64>::empty(),
            r.wf(),
    {
        let mut v: Vec<u64> = Vec::new();
        if start < end {
            v.push(start);
            v.push(end);
        }
        ChunkRanges { boundaries: v }
    }

    /// An owned copy of the set.
    pub fn duplicate(&self) -> (r: ChunkRanges)
        ensures
            r@ == self@,
    {
        let mut v: Vec<u64> = Vec::new();
        let mut i: usize = 0;
        while i < self.boundaries.len()
            invariant
                0 <= i <= self.boundaries@.len(),
                v@ =~= self.boundaries@.subrange(0, i as int),
            decreases self.boundaries@.len() - i,
        {
            v.push(*self.boundaries.get(i).unwrap());
            i = i + 1;
        }
        proof {
            assert(v@ =~= self@);
        }
        ChunkRanges { boundaries: v }
    }

    /// True when the set holds no chunk at all.
    pub fn is_empty(&self) -> (r: bool)
        ensures
            r <==> self@.len() == 0,
    {
        self.boundaries.len() == 0
    }

    /// The sorted boundary sequence.
    pub fn boundaries(&self) -> (r: &Vec<u64>)
        ensures
            r@ == self@,
    {
        &self.boundaries
    }

    /// Split into the parts below and at-or-above `at`, each clamped at
    /// `at`.
    pub fn split(&self, at: u64) -> (r: (ChunkRanges, ChunkRanges))
        requires
            self.wf(),
        ensures
            r.0@ == spec_split_left(self@, at),
            r.1@ == spec_split_right(self@, at),
            r.0.wf(),
            r.1.wf(),
    {
        proof {
            lemma_count_lt_char(self@, at);
            lemma_count_le_char(self@, at);
        }
        let n = self.boundaries.len();
        let mut j: usize = 0;
        while j < n && *self.boundaries.get(j).unwrap() < at
            invariant
                0 <= j <= n,
                n == self@.len(),
                forall|i: int| 0 <= i < j ==> self@[i] < at,
            decreases n - j,
        {
            j = j + 1;
        }
        proof {
            lemma_count_lt_unique(self@, at, j as int);
        }
        let i: usize = if j < n && *self.boundaries.get(j).unwrap() == at {
            j + 1
        } else {
            j
        };
        proof {
            lemma_count_le_unique(self@, at, i as int);
        }
        let mut left: Vec<u64> = Vec::new();
        let mut k: usize = 0;
        while k < j
            invariant
                0 <= k <= j <= n,
                n == self@.len(),
                left@ =~= self@.subrange(0, k as int),
            decreases j - k,
        {
            left.push(*self.boundaries.get(k).unwrap());
            k = k + 1;
        }
        if j % 2 == 1 {
            left.push(at);
        }
        let mut right: Vec<u64> = Vec::new();
        if i % 2 == 1 {
            right.push(at);
        }
        let mut k2: usize = i;
        while k2 < n
            invariant
                i <= k2 <= n,
                n == self@.len(),
                right@ =~= (if i % 2 == 1 {
                    seq![at]
                } else {
                    Seq::<u64>::empty()
                }) + self@.subrange(i as int, k2 as int),
            decreases n - k2,
        {
            right.push(*self.boundaries.get(k2).unwrap());
            k2 = k2 + 1;
        }
        proof {
            assert(left@ =~= spec_split_left(self@, at));
            assert(right@ =~= spec_split_right(self@, at));
            assert(sorted(left@));
            assert(sorted(right@));
        }
        (ChunkRanges { boundaries: left }, ChunkRanges { boundaries: right })
    }

    /// Canonicalise against a tree of `end` chunks: truncate to `[0, end)`
    /// and, if nothing is left, fall back to the last chunk (or to the
    /// empty set for an empty tree).
    pub fn canonicalize(&self, end: u64) -> (r: ChunkRanges)
        requires
            self.wf(),
        ensures
            r@ == spec_canonical(self@, end),
            r.wf(),
    {
        let (left, _) = self.split(end);
        if left.boundaries.len() > 0 {
            left
        } else if end == 0 {
            ChunkRanges { boundaries: Vec::new() }
        } else {
            let mut v: Vec<u64> = Vec::new();
            v.push(end - 1);
            v.push(end);
            proof {
                assert(v@ =~= seq![(end - 1) as u64, end]);
            }
            ChunkRanges { boundaries: v }
        }
    }
}

/// Appending a boundary only counts when it is at or below the probe.
pub proof fn lemma_count_le_push(s: Seq<u64>, y: u64, x: u64)
    ensures
        count_le(s.push(y), x) == count_le(s, x) + (if y <= x {
            1int
        } else {
            0int
        }),
    decreases s.len(),
{
    if s.len() == 0 {
        assert(s.push(y)[0] == y);
        assert(s.push(y).drop_first() =~= Seq::<u64>::empty());
        assert(count_le(s.push(y), x) == (if y <= x {
            1int
        } else {
            0int
        }) + count_le(s.push(y).drop_first(), x));
    } else {
        assert(s.push(y)[0] == s[0]);
        assert(s.push(y).drop_first() =~= s.drop_first().push(y));
        lemma_count_le_push(s.drop_first(), y, x);
        assert(count_le(s.push(y), x) == (if s[0] <= x {
            1int
        } else {
            0int
        }) + count_le(s.drop_first().push(y), x));
    }
}

/// Below the truncation point, the canonical form holds exactly the
/// chunks of the original set, whenever the truncation is non-empty.
pub proof fn lemma_canonical_preserves(s: Seq<u64>, end: u64, x: u64)
    requires
        sorted(s),
        spec_split_left(s, end).len() > 0,
        x < end,
    ensures
        contains_chunk(spec_canonical(s, end), x) <==> contains_chunk(s, x),
{
    lemma_count_lt_char(s, end);
    lemma_count_le_char(s, x);
    let j = count_lt(s, end);
    let t = s.subrange(0, j);
    let c = count_le(s, x);
    // every element from j on is at least `end`, hence above `x`
    assert(c <= j) by {
        if c > j {
            assert(s[j] <= x);
            assert(s[j] >= end);
        }
    }
    assert(sorted(t)) by {
        assert(forall|i: int| 0 <= i < t.len() ==> t[i] == s[i]);
    }
    lemma_count_le_unique(t, x, c);
    if j % 2 == 1 {
        lemma_count_le_push(t, end, x);
        assert(spec_canonical(s, end) == t.push(end));
    } else {
        assert(spec_canonical(s, end) == t);
    }
}

/// Both parts of a split are again strictly increasing boundary lists.
pub proof fn lemma_split_sorted(s: Seq<u64>, at: u64)
    requires
        sorted(s),
    ensures
        sorted(spec_split_left(s, at)),
        sorted(spec_split_right(s, at)),
{
    lemma_count_lt_char(s, at);
    lemma_count_le_char(s, at);
    let j = count_lt(s, at);
    let i = count_le(s, at);
    let l = spec_split_left(s, at);
    let r = spec_split_right(s, at);
    assert forall|a: int, b: int| 0 <= a < b < l.len() implies l[a] < l[b] by {
        if b < j {
            assert(l[a] == s[a] && l[b] == s[b]);
        } else {
            assert(l[a] == s[a] && s[a] < at && l[b] == at);
        }
    }
    assert forall|a: int, b: int| 0 <= a < b < r.len() implies r[a] < r[b] by {
        if i % 2 == 1 {
            if a == 0 {
                assert(r[b] == s[b - 1 + i] && s[b - 1 + i] > at);
            } else {
                assert(r[a] == s[a - 1 + i] && r[b] == s[b - 1 + i]);
            }
        } else {
            assert(r[a] == s[a + i] && r[b] == s[b + i]);
        }
    }
}

/// Splitting a non-empty set never empties both sides.
pub proof fn lemma_split_not_both_empty(s: Seq<u64>, at: u64)
    requires
        sorted(s),
        s.len() > 0,
    ensures
        spec_split_left(s, at).len() > 0 || spec_split_right(s, at).len() > 0,
{
    lemma_count_lt_char(s, at);
    lemma_count_le_char(s, at);
}

/// Canonicalisation is idempotent.
pub proof fn lemma_canonical_idempotent(s: Seq<u64>, end: u64)
    requires
        sorted(s),
    ensures
        spec_canonical(spec_canonical(s, end), end) == spec_canonical(s, end),
{
    lemma_count_lt_char(s, end);
    let c = spec_canonical(s, end);
    let j = count_lt(s, end);
    let t = spec_split_left(s, end);
    if t.len() == 0 {
        if end == 0 {
            assert(c =~= Seq::<u64>::empty());
            lemma_count_lt_unique(c, end, 0);
            assert(spec_split_left(c, end) =~= Seq::<u64>::empty());
            assert(spec_canonical(c, end) =~= c);
        } else {
            assert(c =~= seq![(end - 1) as u64, end]);
            assert(sorted(c));
            lemma_count_lt_unique(c, end, 1);
            assert(spec_split_left(c, end) =~= c.subrange(0, 1).push(end));
            assert(c.subrange(0, 1).push(end) =~= c);
            assert(spec_canonical(c, end) =~= c);
        }
    } else {
        if j % 2 == 1 {
            // c is the first j boundaries, closed with `end`
            assert(c =~= s.subrange(0, j).push(end));
            assert(sorted(c)) by {
                assert(forall|i: int| 0 <= i < j ==> c[i] == s[i] && s[i] < end);
            }
            lemma_count_lt_unique(c, end, j);
            assert(spec_split_left(c, end) =~= c.subrange(0, j).push(end));
            assert(c.subrange(0, j).push(end) =~= c);
            assert(spec_canonical(c, end) == c);
        } else {
            assert(c =~= s.subrange(0, j));
            assert(sorted(c)) by {
                assert(forall|i: int| 0 <= i < j ==> c[i] == s[i] && s[i] < end);
            }
            lemma_count_lt_unique(c, end, j);
            assert(spec_split_left(c, end) =~= c.subrange(0, j));
            assert(c.subrange(0, j) =~= c);
            assert(spec_canonical(c, end) == c);
        }
    }
}

} // verus!

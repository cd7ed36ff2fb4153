//! Rearranging a range of primitive records: by a rule into two sides, and
//! about a median.

use vstd::prelude::*;
use crate::geometry::Axis;
use crate::bvh::common::{all_wf, BVHPrimitiveInfo};

verus! {

/// The number of buckets that the surface area heuristic sorts centroids
/// into.
pub const N_BUCKETS: usize = 12;

/// The largest magnitude of a centroid coordinate: twice that of a box
/// coordinate.
pub const CENTROID_MAX: i64 = 0x8000_0000;

/// The smallest centroid coordinate.
pub const CENTROID_MIN: i64 = -0x8000_0000;

/// The bucket of the centroid coordinate `c` among `N_BUCKETS` equal parts of
/// the stretch from `lo` to `hi`; the last bucket also takes `hi` itself.
pub open spec fn bucket_of(c: int, lo: int, hi: int) -> int {
    let b = (N_BUCKETS * (c - lo)) / (hi - lo);
    if b < 0 {
        0
    } else if b >= N_BUCKETS {
        N_BUCKETS - 1
    } else {
        b
    }
}

/// The bucket of the centroid coordinate `c`.
pub fn bucket_index(c: i64, lo: i64, hi: i64) -> (b: usize)
    requires
        CENTROID_MIN <= c <= CENTROID_MAX,
        CENTROID_MIN <= lo < hi <= CENTROID_MAX,
    ensures
        b == bucket_of(c as int, lo as int, hi as int),
        b < N_BUCKETS,
{
    let num: i64 = (N_BUCKETS as i64) * (c - lo);
    let den: i64 = hi - lo;
    if num < 0 {
        proof {
            lemma_negative_quotient(num as int, den as int);
        }
        return 0;
    }
    let q: i64 = num / den;
    proof {
        lemma_nonnegative_quotient(num as int, den as int);
    }
    if q >= N_BUCKETS as i64 {
        N_BUCKETS - 1
    } else {
        q as usize
    }
}

/// A negative number divided by a positive one is negative.
proof fn lemma_negative_quotient(num: int, den: int)
    by (nonlinear_arith)
    requires
        num < 0,
        den > 0,
    ensures
        num / den < 0,
{
}

/// A number that is not negative divided by a positive one is not negative
/// and at most the number.
proof fn lemma_nonnegative_quotient(num: int, den: int)
    by (nonlinear_arith)
    requires
        num >= 0,
        den > 0,
    ensures
        0 <= num / den <= num,
{
}

/// A rule that sends each primitive record to the first side of a range or to
/// the second, by its centroid along an axis.
#[derive(Clone, Copy, Debug, PartialEq, Eq, Structural)]
pub enum SplitRule {
    /// First side: the centroid lies below the midpoint of `lo` and `hi`.
    Midpoint { axis: Axis, lo: i64, hi: i64 },
    /// First side: the centroid's bucket between `lo` and `hi` is at most
    /// `last`.
    Bucket { axis: Axis, lo: i64, hi: i64, last: usize },
    /// First side: the centroid lies below `value`.
    Below { axis: Axis, value: i64 },
    /// First side: the centroid lies at or below `value`.
    AtMost { axis: Axis, value: i64 },
}

impl SplitRule {
    /// The numbers of the rule are centroid coordinates, and a stretch for
    /// buckets is not empty.
    pub open spec fn wf(self) -> bool {
        match self {
            SplitRule::Midpoint { axis, lo, hi } => CENTROID_MIN <= lo <= CENTROID_MAX
                && CENTROID_MIN <= hi <= CENTROID_MAX,
            SplitRule::Bucket { axis, lo, hi, last } => CENTROID_MIN <= lo < hi <= CENTROID_MAX,
            SplitRule::Below { axis, value } => true,
            SplitRule::AtMost { axis, value } => true,
        }
    }

    /// Whether the rule sends `info` to the first side.
    pub open spec fn takes(self, info: BVHPrimitiveInfo) -> bool {
        match self {
            SplitRule::Midpoint { axis, lo, hi } => 2 * info.centroid.get(axis) < lo + hi,
            SplitRule::Bucket { axis, lo, hi, last } => bucket_of(
                info.centroid.get(axis) as int,
                lo as int,
                hi as int,
            ) <= last,
            SplitRule::Below { axis, value } => info.centroid.get(axis) < value,
            SplitRule::AtMost { axis, value } => info.centroid.get(axis) <= value,
        }
    }

    /// Whether the rule sends `info` to the first side.
    pub fn goes_first(&self, info: &BVHPrimitiveInfo) -> (b: bool)
        requires
            self.wf(),
            info.wf(),
        ensures
            b == self.takes(*info),
    {
        match self {
            SplitRule::Midpoint { axis, lo, hi } => 2 * info.centroid.coord(*axis) < *lo + *hi,
            SplitRule::Bucket { axis, lo, hi, last } => bucket_index(
                info.centroid.coord(*axis),
                *lo,
                *hi,
            ) <= *last,
            SplitRule::Below { axis, value } => info.centroid.coord(*axis) < *value,
            SplitRule::AtMost { axis, value } => info.centroid.coord(*axis) <= *value,
        }
    }
}

/// The record `x` stands at some position of `s` from `start` up to `end`.
pub open spec fn occurs(s: Seq<BVHPrimitiveInfo>, start: int, end: int, x: BVHPrimitiveInfo) -> bool {
    exists|q: int| start <= q < end && #[trigger] s[q] == x
}

/// Every record of `a` in the range is a record of `b` in the range.
pub open spec fn drawn_from(
    a: Seq<BVHPrimitiveInfo>,
    b: Seq<BVHPrimitiveInfo>,
    start: int,
    end: int,
) -> bool {
    forall|p: int| start <= p < end ==> occurs(b, start, end, #[trigger] a[p])
}

/// No two records carry the same primitive number.
pub open spec fn numbers_distinct(s: Seq<BVHPrimitiveInfo>) -> bool {
    forall|p: int, q: int|
        0 <= p < q < s.len() ==> (#[trigger] s[p]).primitive_number != (
        #[trigger] s[q]).primitive_number
}

/// `a` holds in the range the records that `b` holds there, each as often as
/// `b`, and outside the range the two are the same; if no primitive number
/// occurs twice in `b`, none does in `a`.
pub open spec fn rearranged(
    a: Seq<BVHPrimitiveInfo>,
    b: Seq<BVHPrimitiveInfo>,
    start: int,
    end: int,
) -> bool {
    &&& a.len() == b.len()
    &&& a.to_multiset() == b.to_multiset()
    &&& 0 <= start <= end <= a.len()
    &&& drawn_from(a, b, start, end)
    &&& drawn_from(b, a, start, end)
    &&& forall|p: int| 0 <= p < a.len() && !(start <= p < end) ==> a[p] == b[p]
    &&& numbers_distinct(b) ==> numbers_distinct(a)
}

/// Rearranging within a part of a range rearranges the range.
pub proof fn lemma_rearranged_widen(
    a: Seq<BVHPrimitiveInfo>,
    b: Seq<BVHPrimitiveInfo>,
    start: int,
    end: int,
    wide_start: int,
    wide_end: int,
)
    requires
        rearranged(a, b, start, end),
        0 <= wide_start <= start <= end <= wide_end <= a.len(),
    ensures
        rearranged(a, b, wide_start, wide_end),
{
    assert forall|p: int| wide_start <= p < wide_end implies occurs(
        b,
        wide_start,
        wide_end,
        #[trigger] a[p],
    ) by {
        if start <= p < end {
            assert(occurs(b, start, end, a[p]));
            let q = choose|q: int| start <= q < end && #[trigger] b[q] == a[p];
            assert(b[q] == a[p]);
        } else {
            assert(b[p] == a[p]);
        }
    }
    assert forall|p: int| wide_start <= p < wide_end implies occurs(
        a,
        wide_start,
        wide_end,
        #[trigger] b[p],
    ) by {
        if start <= p < end {
            assert(occurs(a, start, end, b[p]));
            let q = choose|q: int| start <= q < end && #[trigger] a[q] == b[p];
            assert(a[q] == b[p]);
        } else {
            assert(a[p] == b[p]);
        }
    }
}

/// Rearranging twice within a range rearranges it.
pub proof fn lemma_rearranged_twice(
    a: Seq<BVHPrimitiveInfo>,
    b: Seq<BVHPrimitiveInfo>,
    c: Seq<BVHPrimitiveInfo>,
    start: int,
    end: int,
)
    requires
        rearranged(a, b, start, end),
        rearranged(b, c, start, end),
    ensures
        rearranged(a, c, start, end),
{
    assert forall|p: int| start <= p < end implies occurs(c, start, end, #[trigger] a[p]) by {
        assert(occurs(b, start, end, a[p]));
        let q = choose|q: int| start <= q < end && #[trigger] b[q] == a[p];
        assert(occurs(c, start, end, b[q]));
    }
    assert forall|p: int| start <= p < end implies occurs(a, start, end, #[trigger] c[p]) by {
        assert(occurs(b, start, end, c[p]));
        let q = choose|q: int| start <= q < end && #[trigger] b[q] == c[p];
        assert(occurs(a, start, end, b[q]));
    }
}

/// A sequence is a rearrangement of itself.
pub proof fn lemma_rearranged_same(a: Seq<BVHPrimitiveInfo>, start: int, end: int)
    requires
        0 <= start <= end <= a.len(),
    ensures
        rearranged(a, a, start, end),
{
    assert forall|p: int| start <= p < end implies occurs(a, start, end, #[trigger] a[p]) by {
        assert(a[p] == a[p]);
    }
}

/// Rearranged records are well formed if the records were.
pub proof fn lemma_rearranged_wf(
    a: Seq<BVHPrimitiveInfo>,
    b: Seq<BVHPrimitiveInfo>,
    start: int,
    end: int,
)
    requires
        rearranged(a, b, start, end),
        all_wf(b),
    ensures
        all_wf(a),
{
    assert forall|p: int| 0 <= p < a.len() implies (#[trigger] a[p]).wf() by {
        if start <= p < end {
            assert(occurs(b, start, end, a[p]));
            let q = choose|q: int| start <= q < end && #[trigger] b[q] == a[p];
            assert(b[q].wf());
        } else {
            assert(a[p] == b[p]);
        }
    }
}

/// Exchanges the records at `i` and `j`.
pub fn swap_infos(infos: &mut Vec<BVHPrimitiveInfo>, i: usize, j: usize)
    requires
        i < old(infos).len(),
        j < old(infos).len(),
    ensures
        final(infos)@ == old(infos)@.update(i as int, old(infos)@[j as int]).update(
            j as int,
            old(infos)@[i as int],
        ),
        final(infos)@.to_multiset() == old(infos)@.to_multiset(),
{
    let a = infos[i];
    let b = infos[j];
    infos[i] = b;
    infos[j] = a;
    proof {
        lemma_swap_keeps_counts(old(infos)@, i as int, j as int);
    }
}

/// Exchanging two records of a sequence changes no count.
pub proof fn lemma_swap_keeps_counts(s: Seq<BVHPrimitiveInfo>, i: int, j: int)
    requires
        0 <= i < s.len(),
        0 <= j < s.len(),
    ensures
        s.update(i, s[j]).update(j, s[i]).to_multiset() == s.to_multiset(),
{
    broadcast use vstd::seq_lib::to_multiset_update;
    broadcast use vstd::seq_lib::to_multiset_contains;
    broadcast use vstd::multiset::group_multiset_axioms;

    let a = s[i];
    let b = s[j];
    let m = s.to_multiset();
    let s1 = s.update(i, b);
    let s2 = s1.update(j, a);
    assert(s.contains(a));
    assert(m.count(a) > 0);
    assert(s1.to_multiset() == m.insert(b).remove(a));
    assert(s1[j] == b);
    assert(s2.to_multiset() == s1.to_multiset().insert(a).remove(b));
    assert forall|x: BVHPrimitiveInfo| s2.to_multiset().count(x) == m.count(x) by {
        assert(m.insert(b).count(x) == m.count(x) + if x == b {
            1int
        } else {
            0int
        });
    }
    assert(s2.to_multiset() =~= m);
}

/// Exchanging two records of a range rearranges the range.
pub proof fn lemma_swap_rearranges(
    cur: Seq<BVHPrimitiveInfo>,
    next: Seq<BVHPrimitiveInfo>,
    base: Seq<BVHPrimitiveInfo>,
    start: int,
    end: int,
    i: int,
    j: int,
)
    requires
        rearranged(cur, base, start, end),
        start <= i < end,
        start <= j < end,
        next == cur.update(i, cur[j]).update(j, cur[i]),
    ensures
        rearranged(next, base, start, end),
{
    lemma_swap_keeps_counts(cur, i, j);
    assert forall|p: int| start <= p < end implies occurs(base, start, end, #[trigger] next[p]) by {
        let src = if p == i {
            j
        } else if p == j {
            i
        } else {
            p
        };
        assert(next[p] == cur[src]);
        assert(occurs(base, start, end, cur[src]));
    }
    assert forall|p: int| start <= p < end implies occurs(next, start, end, #[trigger] base[p]) by {
        assert(occurs(cur, start, end, base[p]));
        let q = choose|q: int| start <= q < end && #[trigger] cur[q] == base[p];
        let dst = if q == i {
            j
        } else if q == j {
            i
        } else {
            q
        };
        assert(next[dst] == base[p]);
    }
    if numbers_distinct(base) {
        assert forall|p: int, q: int| 0 <= p < q < next.len() implies (
        #[trigger] next[p]).primitive_number != (#[trigger] next[q]).primitive_number by {
            let sp = if p == i {
                j
            } else if p == j {
                i
            } else {
                p
            };
            let sq = if q == i {
                j
            } else if q == j {
                i
            } else {
                q
            };
            assert(next[p] == cur[sp]);
            assert(next[q] == cur[sq]);
            if sp < sq {
                assert(cur[sp].primitive_number != cur[sq].primitive_number);
            } else {
                assert(cur[sq].primitive_number != cur[sp].primitive_number);
            }
        }
    }
}

/// Rearranges the records from `start` up to `end` so that those that `rule`
/// sends to the first side come first, and returns the position of the first
/// record of the second side.
pub fn partition(infos: &mut Vec<BVHPrimitiveInfo>, start: usize, end: usize, rule: SplitRule) -> (mid:
    usize)
    requires
        start <= end <= old(infos).len(),
        all_wf(old(infos)@),
        rule.wf(),
    ensures
        start <= mid <= end,
        rearranged(final(infos)@, old(infos)@, start as int, end as int),
        all_wf(final(infos)@),
        forall|p: int| start <= p < mid ==> rule.takes(#[trigger] final(infos)@[p]),
        forall|p: int| mid <= p < end ==> !rule.takes(#[trigger] final(infos)@[p]),
{
    let mut i: usize = start;
    let mut j: usize = end;
    proof {
        lemma_rearranged_same(infos@, start as int, end as int);
    }
    while i < j
        invariant
            start <= i <= j <= end <= infos.len(),
            rule.wf(),
            all_wf(infos@),
            rearranged(infos@, old(infos)@, start as int, end as int),
            forall|p: int| start <= p < i ==> rule.takes(#[trigger] infos@[p]),
            forall|p: int| j <= p < end ==> !rule.takes(#[trigger] infos@[p]),
        decreases j - i,
    {
        let info = infos[i];
        if rule.goes_first(&info) {
            i = i + 1;
        } else {
            j = j - 1;
            let ghost before = infos@;
            swap_infos(infos, i, j);
            proof {
                lemma_swap_rearranges(
                    before,
                    infos@,
                    old(infos)@,
                    start as int,
                    end as int,
                    i as int,
                    j as int,
                );
                lemma_rearranged_wf(infos@, old(infos)@, start as int, end as int);
            }
        }
    }
    i
}

/// The centroid coordinate of a record along `axis`.
pub open spec fn key(info: BVHPrimitiveInfo, axis: Axis) -> i64 {
    info.centroid.get(axis)
}

/// No record from `a` up to `m` has a larger centroid coordinate along `axis`
/// than a record from `m` up to `b`.
pub open spec fn split_at(infos: Seq<BVHPrimitiveInfo>, a: int, m: int, b: int, axis: Axis) -> bool {
    forall|p: int, q: int|
        a <= p < m && m <= q < b ==> key(#[trigger] infos[p], axis) <= key(
            #[trigger] infos[q],
            axis,
        )
}

/// Rearranges the records from `start` up to `end` so that none before
/// position `nth` has a larger centroid coordinate along `axis` than one from
/// `nth` on.
#[verifier::rlimit(40)]
pub fn select_nth(infos: &mut Vec<BVHPrimitiveInfo>, start: usize, end: usize, nth: usize, axis: Axis)
    requires
        start <= nth < end <= old(infos).len(),
        all_wf(old(infos)@),
    ensures
        rearranged(final(infos)@, old(infos)@, start as int, end as int),
        all_wf(final(infos)@),
        split_at(final(infos)@, start as int, nth as int, end as int, axis),
{
    let mut lo: usize = start;
    let mut hi: usize = end;
    proof {
        lemma_rearranged_same(infos@, start as int, end as int);
    }
    while hi - lo > 1
        invariant
            start <= lo <= nth < hi <= end <= infos.len(),
            all_wf(infos@),
            rearranged(infos@, old(infos)@, start as int, end as int),
            split_at(infos@, start as int, lo as int, end as int, axis),
            split_at(infos@, start as int, hi as int, end as int, axis),
        decreases hi - lo,
    {
        let ghost before = infos@;
        let middle = lo + (hi - lo) / 2;
        let pivot = infos[middle].centroid.coord(axis);
        let m1 = partition(infos, lo, hi, SplitRule::Below { axis, value: pivot });
        let ghost between = infos@;
        let m2 = partition(infos, m1, hi, SplitRule::AtMost { axis, value: pivot });
        proof {
            let below = SplitRule::Below { axis, value: pivot };
            let at_most = SplitRule::AtMost { axis, value: pivot };
            // the pivot's record is still in the range, and on the second side
            assert(occurs(between, lo as int, hi as int, before[middle as int]));
            let w1 = choose|q: int| lo <= q < hi && #[trigger] between[q] == before[middle as int];
            assert(!below.takes(between[w1]));
            assert(m1 <= w1);
            assert(occurs(infos@, m1 as int, hi as int, between[w1]));
            let w2 = choose|q: int| m1 <= q < hi && #[trigger] infos@[q] == between[w1];
            assert(at_most.takes(infos@[w2]));
            assert(w2 < m2);
            // the two steps together rearrange the range from lo up to hi
            lemma_rearranged_widen(infos@, between, m1 as int, hi as int, lo as int, hi as int);
            lemma_rearranged_twice(infos@, between, before, lo as int, hi as int);
            lemma_rearranged_widen(infos@, before, lo as int, hi as int, start as int, end as int);
            lemma_rearranged_twice(infos@, before, old(infos)@, start as int, end as int);
            // what the first step put in front stays in front and below the pivot
            assert forall|p: int| lo <= p < m1 implies key(#[trigger] infos@[p], axis) < pivot by {
                assert(infos@[p] == between[p]);
                assert(below.takes(between[p]));
            }
            assert forall|p: int| m1 <= p < hi implies key(#[trigger] infos@[p], axis) >= pivot by {
                assert(occurs(between, m1 as int, hi as int, infos@[p]));
                let q = choose|q: int| m1 <= q < hi && #[trigger] between[q] == infos@[p];
                assert(!below.takes(between[q]));
            }
            assert forall|p: int| m1 <= p < m2 implies key(#[trigger] infos@[p], axis) == pivot by {
                assert(at_most.takes(infos@[p]));
            }
            assert forall|p: int| m2 <= p < hi implies key(#[trigger] infos@[p], axis) > pivot by {
                assert(!at_most.takes(infos@[p]));
            }
            lemma_split_kept(before, infos@, start as int, lo as int, hi as int, end as int, axis);
        }
        if nth < m1 {
            proof {
                assert forall|p: int, q: int| start <= p < m1 && m1 <= q < end implies key(
                    #[trigger] infos@[p],
                    axis,
                ) <= key(#[trigger] infos@[q], axis) by {
                    if p < lo {
                    } else if q >= hi {
                    } else {
                    }
                }
            }
            hi = m1;
        } else if nth < m2 {
            proof {
                assert forall|p: int, q: int| start <= p < nth && nth <= q < end implies key(
                    #[trigger] infos@[p],
                    axis,
                ) <= key(#[trigger] infos@[q], axis) by {
                    if p < lo {
                    } else if q >= hi {
                    } else {
                    }
                }
            }
            return ;
        } else {
            proof {
                assert forall|p: int, q: int| start <= p < m2 && m2 <= q < end implies key(
                    #[trigger] infos@[p],
                    axis,
                ) <= key(#[trigger] infos@[q], axis) by {
                    if p < lo {
                    } else if q >= hi {
                    } else {
                    }
                }
            }
            lo = m2;
        }
    }
}

/// Rearranging the records between `lo` and `hi` keeps them between what lies
/// before `lo` and what lies from `hi` on.
proof fn lemma_split_kept(
    before: Seq<BVHPrimitiveInfo>,
    after: Seq<BVHPrimitiveInfo>,
    start: int,
    lo: int,
    hi: int,
    end: int,
    axis: Axis,
)
    requires
        0 <= start <= lo <= hi <= end <= before.len(),
        rearranged(after, before, lo, hi),
        split_at(before, start, lo, end, axis),
        split_at(before, start, hi, end, axis),
    ensures
        split_at(after, start, lo, end, axis),
        split_at(after, start, hi, end, axis),
{
    assert forall|p: int, q: int| start <= p < lo && lo <= q < end implies key(
        #[trigger] after[p],
        axis,
    ) <= key(#[trigger] after[q], axis) by {
        assert(after[p] == before[p]);
        if q < hi {
            assert(occurs(before, lo, hi, after[q]));
            let r = choose|r: int| lo <= r < hi && #[trigger] before[r] == after[q];
            assert(key(before[p], axis) <= key(before[r], axis));
        } else {
            assert(after[q] == before[q]);
            assert(key(before[p], axis) <= key(before[q], axis));
        }
    }
    assert forall|p: int, q: int| start <= p < hi && hi <= q < end implies key(
        #[trigger] after[p],
        axis,
    ) <= key(#[trigger] after[q], axis) by {
        assert(after[q] == before[q]);
        if p >= lo {
            assert(occurs(before, lo, hi, after[p]));
            let r = choose|r: int| lo <= r < hi && #[trigger] before[r] == after[p];
            assert(key(before[r], axis) <= key(before[q], axis));
        } else {
            assert(after[p] == before[p]);
            assert(key(before[p], axis) <= key(before[q], axis));
        }
    }
}

} // verus!

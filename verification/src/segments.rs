//! The mathematical model of a range tree: a map from the start of each segment to its
//! size, and the set of points that the segments cover.
use vstd::prelude::*;
use vstd::set_lib::*;

verus! {

broadcast use vstd::set_lib::group_set_lib_default;

/// One past the last point of the segment that starts at `k`.
pub open spec fn seg_end(m: Map<u64, u64>, k: u64) -> int {
    k as int + m[k] as int
}

/// Point `p` lies in the segment that starts at `k`.
pub open spec fn in_seg(m: Map<u64, u64>, k: u64, p: int) -> bool {
    &&& m.contains_key(k)
    &&& k <= p
    &&& p < seg_end(m, k)
}

/// The points covered by the segments of `m`.
pub open spec fn points(m: Map<u64, u64>) -> Set<int> {
    Set::new(|p: int| exists|k: u64| #[trigger] in_seg(m, k, p))
}

/// The points `lo..hi`.
pub open spec fn span(lo: int, hi: int) -> Set<int> {
    set_int_range(lo, hi)
}

/// The segments of `m` are finitely many, not empty, end within `u64`, and do not
/// overlap one another (they may touch).
pub open spec fn segs_valid(m: Map<u64, u64>) -> bool {
    &&& m.dom().finite()
    &&& forall|k: u64| #[trigger] m.contains_key(k) ==> 0 < m[k] && seg_end(m, k) <= u64::MAX
    &&& forall|a: u64, b: u64|
        #[trigger] m.contains_key(a) && #[trigger] m.contains_key(b) && a < b ==> seg_end(m, a)
            <= b
}

/// Valid segments of which no two touch: each maximal run of covered points is one
/// segment.
pub open spec fn segs_canonical(m: Map<u64, u64>) -> bool {
    &&& segs_valid(m)
    &&& forall|a: u64, b: u64|
        #[trigger] m.contains_key(a) && #[trigger] m.contains_key(b) && a < b ==> seg_end(m, a)
            < b
}

/// The segment that starts at `k` shares a point with `lo..hi`.
pub open spec fn overlaps(m: Map<u64, u64>, k: u64, lo: int, hi: int) -> bool {
    &&& m.contains_key(k)
    &&& (k as int) < hi
    &&& lo < seg_end(m, k)
}

/// No segment shares a point with `lo..hi`.
pub open spec fn overlap_free(m: Map<u64, u64>, lo: int, hi: int) -> bool {
    forall|k: u64| !#[trigger] overlaps(m, k, lo, hi)
}

/// `k` starts the leftmost segment that shares a point with `lo..hi`.
pub open spec fn first_overlap(m: Map<u64, u64>, lo: int, hi: int, k: u64) -> bool {
    &&& overlaps(m, k, lo, hi)
    &&& forall|q: u64| #[trigger] overlaps(m, q, lo, hi) ==> k <= q
}

/// Some segment covers `p`.
pub open spec fn covered(m: Map<u64, u64>, p: int) -> bool {
    exists|k: u64| #[trigger] in_seg(m, k, p)
}

/// The start of the segment that covers `p`, where there is one.
pub open spec fn seg_at(m: Map<u64, u64>, p: int) -> u64 {
    choose|k: u64| #[trigger] in_seg(m, k, p)
}

/// In valid segments, the segment that covers a point is the one `seg_at` names.
pub proof fn lemma_seg_at(m: Map<u64, u64>, k: u64, p: int)
    requires
        segs_valid(m),
        in_seg(m, k, p),
    ensures
        covered(m, p),
        seg_at(m, p) == k,
{
    let j = seg_at(m, p);
    lemma_cover_unique(m, j, k, p);
}

/// Setting the segment at `k` to size `v` covers what the other segments cover, and
/// `k..k+v`.
pub proof fn lemma_points_insert(m: Map<u64, u64>, k: u64, v: u64)
    ensures
        points(m.insert(k, v)) == points(m.remove(k)) + span(k as int, k + v),
{
    let mi = m.insert(k, v);
    let mr = m.remove(k);
    assert forall|p: int| #[trigger]
        points(mi).contains(p) <==> (points(mr) + span(k as int, k + v)).contains(p) by {
        if points(mi).contains(p) {
            let j = choose|j: u64| #[trigger] in_seg(mi, j, p);
            if j != k {
                assert(in_seg(mr, j, p));
            }
        }
        if points(mr).contains(p) {
            let j = choose|j: u64| #[trigger] in_seg(mr, j, p);
            assert(in_seg(mi, j, p));
        }
        if span(k as int, k + v).contains(p) {
            assert(in_seg(mi, k, p));
        }
    }
    assert(points(mi) =~= points(mr) + span(k as int, k + v));
}

/// A held segment covers its own points, beside those of the others.
pub proof fn lemma_points_remove(m: Map<u64, u64>, k: u64)
    requires
        m.contains_key(k),
    ensures
        points(m) == points(m.remove(k)) + span(k as int, seg_end(m, k)),
{
    lemma_points_insert(m.remove(k), k, m[k]);
    assert(m.remove(k).insert(k, m[k]) =~= m);
    assert(m.remove(k).remove(k) =~= m.remove(k));
}

/// Removing an absent key changes nothing.
pub proof fn lemma_remove_absent(m: Map<u64, u64>, k: u64)
    requires
        !m.contains_key(k),
    ensures
        m.remove(k) == m,
{
    assert(m.remove(k) =~= m);
}

/// Two valid segments that share a point are the same segment.
pub proof fn lemma_cover_unique(m: Map<u64, u64>, a: u64, b: u64, p: int)
    requires
        segs_valid(m),
        in_seg(m, a, p),
        in_seg(m, b, p),
    ensures
        a == b,
{
    if a < b {
        assert(seg_end(m, a) <= b);
    } else if b < a {
        assert(seg_end(m, b) <= a);
    }
}

/// In valid segments, a segment's points are covered by no other segment.
pub proof fn lemma_seg_disjoint(m: Map<u64, u64>, k: u64)
    requires
        segs_valid(m),
        m.contains_key(k),
    ensures
        points(m.remove(k)).disjoint(span(k as int, seg_end(m, k))),
{
    let mr = m.remove(k);
    assert forall|p: int| #[trigger]
        points(mr).contains(p) implies !span(k as int, seg_end(m, k)).contains(p) by {
        let j = choose|j: u64| #[trigger] in_seg(mr, j, p);
        assert(in_seg(m, j, p));
        if span(k as int, seg_end(m, k)).contains(p) {
            assert(in_seg(m, k, p));
            lemma_cover_unique(m, j, k, p);
        }
    }
}

/// Points of `lo..hi` are covered by no segment, where no segment overlaps `lo..hi`.
pub proof fn lemma_overlap_free_disjoint(m: Map<u64, u64>, lo: int, hi: int)
    requires
        overlap_free(m, lo, hi),
    ensures
        points(m).disjoint(span(lo, hi)),
{
    assert forall|p: int| #[trigger] points(m).contains(p) implies !span(lo, hi).contains(p) by {
        let j = choose|j: u64| #[trigger] in_seg(m, j, p);
        assert(!overlaps(m, j, lo, hi));
    }
}

/// Valid segments cover finitely many points, all below `u64::MAX`.
pub proof fn lemma_points_bounded(m: Map<u64, u64>)
    requires
        segs_valid(m),
    ensures
        points(m).subset_of(span(0, u64::MAX as int)),
        points(m).finite(),
        points(m).len() <= u64::MAX,
{
    assert forall|p: int| #[trigger] points(m).contains(p) implies span(
        0,
        u64::MAX as int,
    ).contains(p) by {
        let j = choose|j: u64| #[trigger] in_seg(m, j, p);
    }
    lemma_int_range(0, u64::MAX as int);
    lemma_len_subset(points(m), span(0, u64::MAX as int));
}

/// `a..c` is `a..b` followed by `b..c`.
pub proof fn lemma_span_split(a: int, b: int, c: int)
    requires
        a <= b <= c,
    ensures
        span(a, c) == span(a, b) + span(b, c),
        span(a, b).disjoint(span(b, c)),
        span(a, b).finite(),
        span(a, b).len() == b - a,
{
    lemma_int_range(a, b);
    assert(span(a, c) =~= span(a, b) + span(b, c));
}

/// The length of a span.
pub proof fn lemma_span_len(a: int, b: int)
    requires
        a <= b,
    ensures
        span(a, b).finite(),
        span(a, b).len() == b - a,
{
    lemma_int_range(a, b);
}

/// Canonical segments are determined by the points they cover: two canonical maps
/// that cover the same points are the same map.
pub proof fn lemma_canonical_unique(m1: Map<u64, u64>, m2: Map<u64, u64>)
    requires
        segs_canonical(m1),
        segs_canonical(m2),
        points(m1) == points(m2),
    ensures
        m1 == m2,
{
    assert forall|k: u64| m1.contains_key(k) implies m2.contains_key(k) && m2[k] == m1[k] by {
        lemma_canonical_same_seg(m1, m2, k);
    }
    assert forall|k: u64| m2.contains_key(k) implies m1.contains_key(k) by {
        lemma_canonical_same_seg(m2, m1, k);
    }
    assert(m1 =~= m2);
}

proof fn lemma_canonical_same_seg(m1: Map<u64, u64>, m2: Map<u64, u64>, k: u64)
    requires
        segs_canonical(m1),
        segs_canonical(m2),
        points(m1) == points(m2),
        m1.contains_key(k),
    ensures
        m2.contains_key(k),
        m2[k] == m1[k],
{
    assert(in_seg(m1, k, k as int));
    assert(points(m1).contains(k as int));
    let j = choose|j: u64| #[trigger] in_seg(m2, j, k as int);
    if j < k {
        assert(in_seg(m2, j, k - 1));
        assert(points(m2).contains(k - 1));
        let i = choose|i: u64| #[trigger] in_seg(m1, i, k - 1);
        if i != k {
            assert(seg_end(m1, i) < k);
        }
    }
    assert(j == k);
    if m1[k] < m2[k] {
        let e = seg_end(m1, k);
        assert(in_seg(m2, k, e));
        assert(points(m2).contains(e));
        let i = choose|i: u64| #[trigger] in_seg(m1, i, e);
        if i < k {
            assert(seg_end(m1, i) < k);
        } else if i > k {
            assert(seg_end(m1, k) < i);
        }
    } else if m2[k] < m1[k] {
        let e = seg_end(m2, k);
        assert(in_seg(m1, k, e));
        assert(points(m1).contains(e));
        let i = choose|i: u64| #[trigger] in_seg(m2, i, e);
        if i < k {
            assert(seg_end(m2, i) < k);
        } else if i > k {
            assert(seg_end(m2, k) < i);
        }
    }
}

} // verus!

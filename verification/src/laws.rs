//! Properties of the range tree that span several calls.
use vstd::prelude::*;
use crate::segmap::lists_entries;
use crate::segments::{
    seg_end, in_seg, points, segs_valid, segs_canonical, overlap_free, overlaps, covered,
    seg_at, lemma_seg_at,
};
use crate::ops::{
    OpEvent, apply_events, add_events, cut_events, touching_before, entries, mirror_events, reports_change,
    reports_only_changes, removed_pairs, added_pairs, mirror_exact,
};
use crate::merge::{lemma_add_merge, lemma_cut, lemma_remove_seg, add_map, cut_map, merged_start, merged_end};

verus! {

/// The sum of the sizes of the segments `s`.
pub open spec fn sizes_sum(s: Seq<(u64, u64)>) -> int
    decreases s.len(),
{
    if s.len() == 0 {
        0
    } else {
        sizes_sum(s.drop_last()) + s.last().1
    }
}

/// The number of points covered by valid segments is the sum of their sizes, as the
/// segments are listed (by `RangeTree::collect`).
pub proof fn lemma_space_is_sum(s: Seq<(u64, u64)>, m: Map<u64, u64>)
    requires
        segs_valid(m),
        lists_entries(s, m),
    ensures
        points(m).len() == sizes_sum(s),
    decreases s.len(),
{
    if s.len() == 0 {
        assert(m.dom() =~= Set::<u64>::empty()) by {
            assert forall|k: u64| !m.contains_key(k) by {
                if m.contains_key(k) {
                    let i = choose|i: int| 0 <= i < s.len() && #[trigger] s[i].0 == k;
                }
            }
        }
        assert(points(m) =~= Set::<int>::empty());
    } else {
        let (k, v) = s.last();
        let n = s.len() - 1;
        assert(s[n] == s.last());
        assert(m.contains_key(k) && m[k] == v);
        let mr = m.remove(k);
        let sr = s.drop_last();
        assert forall|q: u64| mr.contains_key(q) implies exists|i: int|
            0 <= i < sr.len() && #[trigger] sr[i].0 == q by {
            let i = choose|i: int| 0 <= i < s.len() && #[trigger] s[i].0 == q;
            assert(i != n);
            assert(sr[i].0 == q);
        }
        assert forall|i: int| 0 <= i < sr.len() implies mr.contains_key(#[trigger] sr[i].0) && mr[sr[i].0]
            == sr[i].1 by {
            assert(s[i] == sr[i]);
            assert(s[i].0 < s[n].0);
        }
        assert(lists_entries(sr, mr));
        lemma_remove_seg(m, k);
        lemma_space_is_sum(sr, mr);
    }
}

/// Removing what was just added gives back the segments as they were: where `add` of
/// `start..start+size` succeeds, `remove` of the same range then succeeds and restores
/// the segments.
pub proof fn lemma_add_then_remove(m: Map<u64, u64>, start: u64, size: u64)
    requires
        segs_valid(m),
        0 < size,
        start + size <= u64::MAX,
        overlap_free(m, start as int, start + size),
    ensures
        ({
            let m1 = apply_events(m, add_events(m, start, size));
            &&& covered(m1, start as int)
            &&& start + size <= seg_end(m1, seg_at(m1, start as int))
            &&& apply_events(m1, cut_events(m1, seg_at(m1, start as int), start, size)) == m
        }),
{
    let e = (start + size) as u64;
    lemma_add_merge(m, start, size);
    let m1 = apply_events(m, add_events(m, start, size));
    let ms = merged_start(m, start);
    let me = merged_end(m, start, size);
    assert(!m.contains_key(start)) by {
        assert(!overlaps(m, start, start as int, start + size));
    }
    if let Some(p) = touching_before(m, start) {
        assert(m.contains_key(p) && seg_end(m, p) == start);
    }
    assert(m1.contains_key(ms) && m1[ms] == me - ms);
    assert(in_seg(m1, ms, start as int));
    lemma_seg_at(m1, ms, start as int);
    lemma_cut(m1, ms, start, size);
    assert(cut_map(m1, ms, start, size) =~= m);
}

/// Adding back what was just removed gives back the segments as they were: where
/// `remove` of `start..start+size` succeeds, `add` of the same range then succeeds and
/// restores the segments, unless the removal starts at the start of a segment that
/// another segment touches from the left, or ends at the end of a segment that another
/// segment touches from the right (then `add` also merges that neighbour).
pub proof fn lemma_remove_then_add(m: Map<u64, u64>, start: u64, size: u64)
    requires
        segs_valid(m),
        0 < size,
        start + size <= u64::MAX,
        covered(m, start as int),
        start + size <= seg_end(m, seg_at(m, start as int)),
        seg_at(m, start as int) == start ==> touching_before(m, start) is None,
        start + size == seg_end(m, seg_at(m, start as int)) ==> !m.contains_key(
            (start + size) as u64,
        ),
    ensures
        ({
            let m1 = apply_events(m, cut_events(m, seg_at(m, start as int), start, size));
            &&& overlap_free(m1, start as int, start + size)
            &&& apply_events(m1, add_events(m1, start, size)) == m
        }),
{
    let e = (start + size) as u64;
    let k = seg_at(m, start as int);
    let kend = seg_end(m, k);
    assert(in_seg(m, k, start as int)) by {
        let j = choose|j: u64| #[trigger] in_seg(m, j, start as int);
    }
    lemma_cut(m, k, start, size);
    let m1 = apply_events(m, cut_events(m, k, start, size));
    assert(m1 == cut_map(m, k, start, size));
    assert forall|q: u64| !#[trigger] overlaps(m1, q, start as int, start + size) by {
        if overlaps(m1, q, start as int, start + size) {
            let p = if q < start {
                start as int
            } else {
                q as int
            };
            assert(in_seg(m1, q, p));
            assert(points(m1).contains(p));
        }
    }
    lemma_add_merge(m1, start, size);
    // the segment that ends at `start` after the cut is what is left of `k`, if anything
    if k < start {
        assert(m1.contains_key(k) && seg_end(m1, k) == start);
        let p = choose|p: u64| #[trigger] m1.contains_key(p) && seg_end(m1, p) == start;
        if p != k {
            assert(m1.contains_key(p) && m1.contains_key(k));
        }
        assert(merged_start(m1, start) == k);
    } else {
        assert forall|p: u64| #[trigger] m1.contains_key(p) implies seg_end(m1, p) != start by {
            if seg_end(m1, p) == start {
                assert(m.contains_key(p) && seg_end(m, p) == start);
            }
        }
        assert(merged_start(m1, start) == k);
    }
    if e < kend {
        assert(merged_end(m1, start, size) == kend);
    } else {
        assert(!m1.contains_key(e));
        assert(merged_end(m1, start, size) == kend);
    }
    assert(add_map(m1, start, size) =~= m);
}

/// Adding `start..start+size` where no segment overlaps it tells the observer exactly
/// what changed (the calls of `RangeTree::add_with`): each segment reported removed was a
/// segment before, with that exact size, and is not one after; each segment reported
/// added is one after, with that exact size, and was not one before; the pairs reported
/// removed are exactly the segments that went away and those reported added exactly the
/// segments that came; and a set of `(start, size)` pairs that starts as the segments
/// before and follows the reports in order ends as exactly the segments after, never
/// told on the way to remove a pair it does not hold or to add one it holds already.
pub proof fn lemma_add_reports_change(m: Map<u64, u64>, start: u64, size: u64)
    requires
        segs_valid(m),
        0 < size,
        start + size <= u64::MAX,
        overlap_free(m, start as int, start + size),
    ensures
        ({
            let es = add_events(m, start, size);
            let n = add_map(m, start, size);
            &&& forall|i: int|
                0 <= i < es.len() ==> match #[trigger] es[i] {
                    OpEvent::Remove(k, v) => m.contains_key(k) && m[k] == v && !(n.contains_key(k)
                        && n[k] == v),
                    OpEvent::Add(k, v) => n.contains_key(k) && n[k] == v && !(m.contains_key(k)
                        && m[k] == v),
                }
            &&& removed_pairs(es) == entries(m).difference(entries(n))
            &&& added_pairs(es) == entries(n).difference(entries(m))
            &&& mirror_events(entries(m), es) == entries(n)
            &&& mirror_exact(entries(m), es)
        }),
{
    lemma_add_merge(m, start, size);
    let es = add_events(m, start, size);
    let n = add_map(m, start, size);
    assert(reports_change(m, n, es) && reports_only_changes(m, n, es));
}

/// Removing `start..start+size` from the segment that holds it tells the observer
/// exactly what changed (the calls of `RangeTree::remove_with`): each segment reported
/// removed was a segment before, with that exact size; each segment reported added is
/// one after, with that exact size; a set of `(start, size)` pairs that starts as the
/// segments before and follows the reports in order ends as exactly the segments after,
/// never told on the way to remove a pair it does not hold or to add one it holds
/// already; and, unless the removal is empty and starts where a segment starts (then
/// that segment is reported removed and added back as it was), the pairs reported
/// removed are exactly the segments that went away and those reported added exactly the
/// segments that came.
pub proof fn lemma_remove_reports_change(m: Map<u64, u64>, start: u64, size: u64)
    requires
        segs_valid(m),
        covered(m, start as int),
        start + size <= seg_end(m, seg_at(m, start as int)),
    ensures
        ({
            let k = seg_at(m, start as int);
            let es = cut_events(m, k, start, size);
            let n = cut_map(m, k, start, size);
            &&& forall|i: int|
                0 <= i < es.len() ==> match #[trigger] es[i] {
                    OpEvent::Remove(a, v) => m.contains_key(a) && m[a] == v,
                    OpEvent::Add(a, v) => n.contains_key(a) && n[a] == v,
                }
            &&& mirror_events(entries(m), es) == entries(n)
            &&& mirror_exact(entries(m), es)
            &&& (0 < size || k < start) ==> removed_pairs(es) == entries(m).difference(entries(n))
            &&& (0 < size || k < start) ==> added_pairs(es) == entries(n).difference(entries(m))
        }),
{
    let k = seg_at(m, start as int);
    assert(in_seg(m, k, start as int)) by {
        let j = choose|j: u64| #[trigger] in_seg(m, j, start as int);
        lemma_seg_at(m, j, start as int);
    }
    lemma_cut(m, k, start, size);
}

/// What `RangeTree::collect` lists of canonical segments, as every tree built by
/// `RangeTree::new` and the operations (with removals that are not empty) holds: one
/// entry per segment, every size positive, each segment ending before the next one
/// starts (they neither overlap nor touch), and the sizes adding up to the number of
/// points covered (`get_space`).
pub proof fn lemma_canonical_listing(s: Seq<(u64, u64)>, m: Map<u64, u64>)
    requires
        segs_canonical(m),
        lists_entries(s, m),
    ensures
        s.len() == m.len(),
        forall|i: int| 0 <= i < s.len() ==> 0 < #[trigger] s[i].1,
        forall|i: int, j: int|
            0 <= i < j < s.len() ==> #[trigger] s[i].0 + s[i].1 < #[trigger] s[j].0,
        points(m).len() == sizes_sum(s),
{
    let ks = Seq::new(s.len(), |i: int| s[i].0);
    assert(ks.no_duplicates()) by {
        assert forall|i: int, j: int| 0 <= i < ks.len() && 0 <= j < ks.len() && i != j implies ks[i]
            != ks[j] by {
            if i < j {
                assert(s[i].0 < s[j].0);
            } else {
                assert(s[j].0 < s[i].0);
            }
        }
    }
    ks.unique_seq_to_set();
    assert(ks.to_set() =~= m.dom()) by {
        assert forall|k: u64| m.dom().contains(k) implies ks.to_set().contains(k) by {
            let i = choose|i: int| 0 <= i < s.len() && #[trigger] s[i].0 == k;
            assert(ks[i] == k);
        }
        assert forall|k: u64| ks.to_set().contains(k) implies m.dom().contains(k) by {
            let i = choose|i: int| 0 <= i < ks.len() && ks[i] == k;
            assert(m.contains_key(s[i].0));
        }
    }
    assert forall|i: int, j: int| 0 <= i < j < s.len() implies #[trigger] s[i].0 + s[i].1
        < #[trigger] s[j].0 by {
        assert(m.contains_key(s[i].0) && m.contains_key(s[j].0));
    }
    assert forall|i: int| 0 <= i < s.len() implies 0 < #[trigger] s[i].1 by {
        assert(m.contains_key(s[i].0));
    }
    lemma_space_is_sum(s, m);
}

} // verus!

//! What adding a segment does to the model: the proofs behind `RangeTree::add_with`.
use vstd::prelude::*;
use crate::segments::{seg_end, in_seg, lemma_seg_disjoint, covered, seg_at, lemma_seg_at, points, span, segs_valid, segs_canonical, overlaps, overlap_free, lemma_overlap_free_disjoint, lemma_points_bounded, lemma_span_len, lemma_points_insert, lemma_points_remove, lemma_remove_absent, lemma_span_split};
use vstd::set_lib::{lemma_set_difference_len, lemma_set_disjoint_lens};
use crate::ops::{
    OpEvent, apply_events, add_events, cut_events, touching_before, lemma_apply_events_push,
    entries, mirror_events, reports_change, reports_only_changes, lemma_mirror_events_push,
    removed_pairs, added_pairs, lemma_reported_pairs, lemma_entries_remove,
    lemma_entries_insert,
};

verus! {

/// Inserting a fresh segment that neither overlaps nor (for canonical maps) touches the
/// others keeps the segments valid (canonical).
pub proof fn lemma_valid_insert(m: Map<u64, u64>, k: u64, v: u64)
    requires
        segs_valid(m),
        !m.contains_key(k),
        0 < v,
        k + v <= u64::MAX,
        forall|a: u64| #[trigger] m.contains_key(a) && a < k ==> seg_end(m, a) <= k,
        forall|b: u64| #[trigger] m.contains_key(b) && k < b ==> k + v <= b,
    ensures
        segs_valid(m.insert(k, v)),
        segs_canonical(m) && (forall|a: u64| #[trigger] m.contains_key(a) && a < k ==> seg_end(m, a) < k)
            && (forall|b: u64| #[trigger] m.contains_key(b) && k < b ==> k + v < b)
            ==> segs_canonical(m.insert(k, v)),
{
    let n = m.insert(k, v);
    assert forall|a: u64, b: u64|
        #[trigger] n.contains_key(a) && #[trigger] n.contains_key(b) && a < b implies seg_end(n, a)
        <= b by {
        if a == k {
            assert(m.contains_key(b));
        } else if b == k {
            assert(m.contains_key(a));
        } else {
            assert(m.contains_key(a) && m.contains_key(b));
        }
    }
    if segs_canonical(m) && (forall|a: u64| #[trigger] m.contains_key(a) && a < k ==> seg_end(m, a) < k)
        && (forall|b: u64| #[trigger] m.contains_key(b) && k < b ==> k + v < b) {
        assert forall|a: u64, b: u64|
            #[trigger] n.contains_key(a) && #[trigger] n.contains_key(b) && a < b implies seg_end(
            n,
            a,
        ) < b by {
            if a == k {
                assert(m.contains_key(b));
            } else if b == k {
                assert(m.contains_key(a));
            } else {
                assert(m.contains_key(a) && m.contains_key(b));
            }
        }
    }
}

/// Dropping segments keeps them valid (canonical).
pub proof fn lemma_valid_remove(m: Map<u64, u64>, k: u64)
    ensures
        segs_valid(m) ==> segs_valid(m.remove(k)),
        segs_canonical(m) ==> segs_canonical(m.remove(k)),
{
    let n = m.remove(k);
    if segs_valid(m) {
        assert forall|a: u64, b: u64|
            #[trigger] n.contains_key(a) && #[trigger] n.contains_key(b) && a < b implies seg_end(
            n,
            a,
        ) <= b by {
            assert(m.contains_key(a) && m.contains_key(b));
        }
    }
    if segs_canonical(m) {
        assert forall|a: u64, b: u64|
            #[trigger] n.contains_key(a) && #[trigger] n.contains_key(b) && a < b implies seg_end(
            n,
            a,
        ) < b by {
            assert(m.contains_key(a) && m.contains_key(b));
        }
    }
}

/// Where the segment added at `start` begins after merging: at the start of the segment
/// that ends at `start`, if there is one.
pub open spec fn merged_start(m: Map<u64, u64>, start: u64) -> u64 {
    match touching_before(m, start) {
        Some(p) => p,
        None => start,
    }
}

/// Where the segment added as `start..start+size` ends after merging: at the end of the
/// segment that starts at `start+size`, if there is one.
pub open spec fn merged_end(m: Map<u64, u64>, start: u64, size: u64) -> int {
    let end = (start + size) as u64;
    if m.contains_key(end) {
        seg_end(m, end)
    } else {
        end as int
    }
}

/// The segments after adding `start..start+size`: the segments it touches are replaced
/// by one merged segment.
pub open spec fn add_map(m: Map<u64, u64>, start: u64, size: u64) -> Map<u64, u64> {
    let ms = merged_start(m, start);
    m.remove(ms).remove((start + size) as u64).insert(ms, (merged_end(m, start, size) - ms) as u64)
}

/// Adding `start..start+size` where no segment overlaps it, by the notifications of
/// `add_events`, covers exactly the points covered before and `start..start+size`, and
/// keeps the segments valid (and canonical, where they were); the notifications report
/// exactly the segments that went away and those that came, each with its size.
pub proof fn lemma_add_merge(m: Map<u64, u64>, start: u64, size: u64)
    requires
        segs_valid(m),
        0 < size,
        start + size <= u64::MAX,
        overlap_free(m, start as int, start + size),
    ensures
        segs_valid(apply_events(m, add_events(m, start, size))),
        points(apply_events(m, add_events(m, start, size))) == points(m) + span(
            start as int,
            start + size,
        ),
        segs_canonical(m) ==> segs_canonical(apply_events(m, add_events(m, start, size))),
        apply_events(m, add_events(m, start, size)) == add_map(m, start, size),
        reports_change(m, apply_events(m, add_events(m, start, size)), add_events(m, start, size)),
        reports_only_changes(
            m,
            apply_events(m, add_events(m, start, size)),
            add_events(m, start, size),
        ),
        removed_pairs(add_events(m, start, size)) == entries(m).difference(
            entries(apply_events(m, add_events(m, start, size))),
        ),
        added_pairs(add_events(m, start, size)) == entries(
            apply_events(m, add_events(m, start, size)),
        ).difference(entries(m)),
{
    let s = start;
    let e = (start + size) as u64;
    let es = add_events(m, start, size);
    let n = apply_events(m, es);
    // facts that follow from no segment overlapping s..e
    assert forall|a: u64| #[trigger] m.contains_key(a) && a < s implies seg_end(m, a) <= s by {
        assert(!overlaps(m, a, s as int, e as int));
    }
    assert forall|b: u64| #[trigger] m.contains_key(b) && s <= b implies e <= b by {
        assert(!overlaps(m, b, s as int, e as int));
    }
    assert(!m.contains_key(s));
    lemma_overlap_free_disjoint(m, s as int, e as int);
    lemma_points_bounded(m);
    lemma_span_len(s as int, e as int);
    let tb = touching_before(m, start);
    let next = m.contains_key(e);
    let ghost e0 = Seq::<OpEvent>::empty();
    if tb is None {
        assert forall|a: u64| #[trigger] m.contains_key(a) && a < s implies seg_end(m, a) < s by {
            if seg_end(m, a) == s {
                assert(m.contains_key(a) && seg_end(m, a) == s);
            }
        }
        if !next {
            assert(es =~= e0.push(OpEvent::Add(s, size)));
            lemma_apply_events_push(m, e0, OpEvent::Add(s, size));
            assert(n == m.insert(s, size));
            lemma_mirror_events_push(entries(m), e0, OpEvent::Add(s, size));
            lemma_entries_insert(m, s, size);
            assert(reports_change(m, n, es));
            assert(reports_only_changes(m, n, es));
            lemma_points_insert(m, s, size);
            lemma_remove_absent(m, s);
            assert forall|b: u64| #[trigger] m.contains_key(b) && s < b implies e <= b by {
            }
            lemma_valid_insert(m, s, size);
            assert(points(n) =~= points(m) + span(s as int, e as int));
            assert(n =~= add_map(m, start, size));
        } else {
            let me = m[e];
            let v = (size + me) as u64;
            assert(es =~= e0.push(OpEvent::Remove(e, me)).push(OpEvent::Add(s, v)));
            lemma_apply_events_push(m, e0, OpEvent::Remove(e, me));
            lemma_apply_events_push(m, e0.push(OpEvent::Remove(e, me)), OpEvent::Add(s, v));
            let mr = m.remove(e);
            assert(n == mr.insert(s, v));
            lemma_mirror_events_push(entries(m), e0, OpEvent::Remove(e, me));
            lemma_mirror_events_push(entries(m), e0.push(OpEvent::Remove(e, me)), OpEvent::Add(s, v));
            lemma_entries_remove(m, e);
            lemma_entries_insert(mr, s, v);
            assert(reports_change(m, n, es));
            assert(reports_only_changes(m, n, es));
            lemma_points_remove(m, e);
            lemma_points_insert(mr, s, v);
            lemma_remove_absent(mr, s);
            lemma_span_split(s as int, e as int, seg_end(m, e));
            lemma_valid_remove(m, e);
            assert forall|b: u64| #[trigger] mr.contains_key(b) && s < b implies s + v <= b by {
                assert(m.contains_key(e) && m.contains_key(b));
            }
            assert forall|a: u64| #[trigger] mr.contains_key(a) && a < s implies seg_end(mr, a) <= s by {
                assert(m.contains_key(a));
            }
            if segs_canonical(m) {
                assert forall|b: u64| #[trigger] mr.contains_key(b) && s < b implies s + v < b by {
                    assert(m.contains_key(e) && m.contains_key(b));
                }
                assert forall|a: u64| #[trigger] mr.contains_key(a) && a < s implies seg_end(mr, a)
                    < s by {
                    assert(m.contains_key(a));
                }
            }
            lemma_valid_insert(mr, s, v);
            assert(points(n) =~= points(m) + span(s as int, e as int));
            assert(n =~= add_map(m, start, size));
        }
    } else {
        let p = tb->0;
        assert(m.contains_key(p) && seg_end(m, p) == s);
        let mp = m[p];
        let mrp = m.remove(p);
        lemma_points_remove(m, p);
        lemma_valid_remove(m, p);
        lemma_span_split(p as int, s as int, e as int);
        assert forall|a: u64| #[trigger] mrp.contains_key(a) && a < p implies seg_end(mrp, a) <= p by {
            assert(m.contains_key(a) && m.contains_key(p));
        }
        if segs_canonical(m) {
            assert forall|a: u64| #[trigger] mrp.contains_key(a) && a < p implies seg_end(mrp, a)
                < p by {
                assert(m.contains_key(a) && m.contains_key(p));
            }
        }
        if !next {
            let v = (mp + size) as u64;
            assert(es =~= e0.push(OpEvent::Remove(p, mp)).push(OpEvent::Add(p, v)));
            lemma_apply_events_push(m, e0, OpEvent::Remove(p, mp));
            lemma_apply_events_push(m, e0.push(OpEvent::Remove(p, mp)), OpEvent::Add(p, v));
            assert(n == mrp.insert(p, v));
            lemma_mirror_events_push(entries(m), e0, OpEvent::Remove(p, mp));
            lemma_mirror_events_push(entries(m), e0.push(OpEvent::Remove(p, mp)), OpEvent::Add(p, v));
            lemma_entries_remove(m, p);
            lemma_entries_insert(mrp, p, v);
            assert(reports_change(m, n, es));
            assert(reports_only_changes(m, n, es));
            lemma_points_insert(mrp, p, v);
            assert(mrp.remove(p) =~= mrp);
            assert forall|b: u64| #[trigger] mrp.contains_key(b) && p < b implies p + v <= b by {
                assert(m.contains_key(b));
            }
            if segs_canonical(m) {
                assert forall|b: u64| #[trigger] mrp.contains_key(b) && p < b implies p + v < b by {
                    assert(m.contains_key(b));
                }
            }
            lemma_valid_insert(mrp, p, v);
            assert(points(n) =~= points(m) + span(s as int, e as int));
            assert(n =~= add_map(m, start, size));
        } else {
            let me = m[e];
            let v = (mp + size + me) as u64;
            assert(es =~= e0.push(OpEvent::Remove(p, mp)).push(OpEvent::Remove(e, me)).push(
                OpEvent::Add(p, v),
            ));
            lemma_apply_events_push(m, e0, OpEvent::Remove(p, mp));
            lemma_apply_events_push(m, e0.push(OpEvent::Remove(p, mp)), OpEvent::Remove(e, me));
            lemma_apply_events_push(
                m,
                e0.push(OpEvent::Remove(p, mp)).push(OpEvent::Remove(e, me)),
                OpEvent::Add(p, v),
            );
            let mre = mrp.remove(e);
            assert(n == mre.insert(p, v));
            assert(mrp.contains_key(e));
            lemma_mirror_events_push(entries(m), e0, OpEvent::Remove(p, mp));
            lemma_mirror_events_push(
                entries(m),
                e0.push(OpEvent::Remove(p, mp)),
                OpEvent::Remove(e, me),
            );
            lemma_mirror_events_push(
                entries(m),
                e0.push(OpEvent::Remove(p, mp)).push(OpEvent::Remove(e, me)),
                OpEvent::Add(p, v),
            );
            lemma_entries_remove(m, p);
            lemma_entries_remove(mrp, e);
            lemma_entries_insert(mre, p, v);
            assert(reports_change(m, n, es));
            assert(reports_only_changes(m, n, es));
            lemma_points_remove(mrp, e);
            lemma_points_insert(mre, p, v);
            assert(mre.remove(p) =~= mre);
            lemma_span_split(p as int, e as int, seg_end(m, e));
            lemma_valid_remove(mrp, e);
            assert forall|a: u64| #[trigger] mre.contains_key(a) && a < p implies seg_end(mre, a) <= p by {
                assert(m.contains_key(a) && m.contains_key(p));
            }
            assert forall|b: u64| #[trigger] mre.contains_key(b) && p < b implies p + v <= b by {
                assert(m.contains_key(b) && m.contains_key(e));
            }
            if segs_canonical(m) {
                assert forall|a: u64| #[trigger] mre.contains_key(a) && a < p implies seg_end(mre, a)
                    < p by {
                    assert(m.contains_key(a) && m.contains_key(p));
                }
                assert forall|b: u64| #[trigger] mre.contains_key(b) && p < b implies p + v < b by {
                    assert(m.contains_key(b) && m.contains_key(e));
                }
            }
            lemma_valid_insert(mre, p, v);
            assert(points(n) =~= points(m) + span(s as int, e as int));
            assert(n =~= add_map(m, start, size));
        }
    }
    lemma_reported_pairs(m, n, es);
}

/// Cutting `start..start+size` out of the segment `k` that holds it, by the
/// notifications of `cut_events`, leaves exactly the points covered before less
/// `start..start+size`, and keeps the segments valid (and canonical, where they were and
/// the cut is not empty); the notifications report the change faithfully, each segment
/// with its size, and where the cut is not empty exactly the segments that went away and
/// those that came.
pub proof fn lemma_cut(m: Map<u64, u64>, k: u64, start: u64, size: u64)
    requires
        segs_valid(m),
        in_seg(m, k, start as int),
        start + size <= seg_end(m, k),
    ensures
        segs_valid(apply_events(m, cut_events(m, k, start, size))),
        points(apply_events(m, cut_events(m, k, start, size))) == points(m) - span(
            start as int,
            start + size,
        ),
        span(start as int, start + size).subset_of(points(m)),
        segs_canonical(m) && 0 < size ==> segs_canonical(
            apply_events(m, cut_events(m, k, start, size)),
        ),
        apply_events(m, cut_events(m, k, start, size)) == cut_map(m, k, start, size),
        points(apply_events(m, cut_events(m, k, start, size))).len() == points(m).len() - size,
        reports_change(
            m,
            apply_events(m, cut_events(m, k, start, size)),
            cut_events(m, k, start, size),
        ),
        (0 < size || k < start) ==> reports_only_changes(
            m,
            apply_events(m, cut_events(m, k, start, size)),
            cut_events(m, k, start, size),
        ),
        (0 < size || k < start) ==> removed_pairs(cut_events(m, k, start, size)) == entries(
            m,
        ).difference(entries(apply_events(m, cut_events(m, k, start, size)))),
        (0 < size || k < start) ==> added_pairs(cut_events(m, k, start, size)) == entries(
            apply_events(m, cut_events(m, k, start, size)),
        ).difference(entries(m)),
{
    let end = (start + size) as u64;
    let kend = seg_end(m, k);
    let mk = m[k];
    let es = cut_events(m, k, start, size);
    let n = apply_events(m, es);
    let mr = m.remove(k);
    let e0 = Seq::<OpEvent>::empty();
    let e1 = e0.push(OpEvent::Remove(k, mk));
    lemma_apply_events_push(m, e0, OpEvent::Remove(k, mk));
    lemma_mirror_events_push(entries(m), e0, OpEvent::Remove(k, mk));
    lemma_entries_remove(m, k);
    lemma_points_remove(m, k);
    lemma_seg_disjoint(m, k);
    lemma_valid_remove(m, k);
    lemma_span_split(k as int, start as int, kend);
    lemma_span_split(start as int, end as int, kend);
    assert forall|p: int| #[trigger] span(start as int, end as int).contains(p) implies points(
        m,
    ).contains(p) by {
        assert(in_seg(m, k, p));
    }
    // what lies on either side of the segment `k`
    assert forall|a: u64| #[trigger] mr.contains_key(a) && a < k implies seg_end(mr, a) <= k by {
        assert(m.contains_key(a) && m.contains_key(k));
    }
    assert forall|b: u64| #[trigger] mr.contains_key(b) && k < b implies kend <= b by {
        assert(m.contains_key(b) && m.contains_key(k));
    }
    if segs_canonical(m) {
        assert forall|a: u64| #[trigger] mr.contains_key(a) && a < k implies seg_end(mr, a) < k by {
            assert(m.contains_key(a) && m.contains_key(k));
        }
        assert forall|b: u64| #[trigger] mr.contains_key(b) && k < b implies kend < b by {
            assert(m.contains_key(b) && m.contains_key(k));
        }
    }
    // the left piece `k..start`
    let ml = if k < start {
        mr.insert(k, (start - k) as u64)
    } else {
        mr
    };
    let el = if k < start {
        e1.push(OpEvent::Add(k, (start - k) as u64))
    } else {
        e1
    };
    if k < start {
        lemma_apply_events_push(m, e1, OpEvent::Add(k, (start - k) as u64));
        lemma_mirror_events_push(entries(m), e1, OpEvent::Add(k, (start - k) as u64));
        lemma_entries_insert(mr, k, (start - k) as u64);
        lemma_points_insert(mr, k, (start - k) as u64);
        assert(mr.remove(k) =~= mr);
        assert forall|b: u64| #[trigger] mr.contains_key(b) && k < b implies start <= b by {
        }
        lemma_valid_insert(mr, k, (start - k) as u64);
        assert(points(ml) == points(mr) + span(k as int, start as int));
    } else {
        assert(points(ml) =~= points(mr) + span(k as int, start as int));
    }
    assert(apply_events(m, el) == ml);
    assert(mirror_events(entries(m), el) == entries(ml));
    assert(segs_valid(ml));
    assert(segs_canonical(m) ==> segs_canonical(ml));
    // what lies on either side of the cut
    assert forall|a: u64| #[trigger] ml.contains_key(a) && a < end implies seg_end(ml, a) <= start by {
        if a != k {
            assert(mr.contains_key(a));
        }
    }
    assert forall|b: u64| #[trigger] ml.contains_key(b) && end < b implies kend <= b by {
        if b != k {
            assert(mr.contains_key(b));
        }
    }
    // the right piece `end..kend`
    if end < kend {
        let v = (kend - end) as u64;
        assert(es =~= el.push(OpEvent::Add(end, v)));
        lemma_apply_events_push(m, el, OpEvent::Add(end, v));
        assert(n == ml.insert(end, v));
        assert(!ml.contains_key(end)) by {
            if ml.contains_key(end) {
                if end != k {
                    assert(mr.contains_key(end));
                    assert(m.contains_key(end) && m.contains_key(k));
                } else {
                    assert(k == start && size == 0);
                    assert(!mr.contains_key(k));
                }
            }
        }
        lemma_mirror_events_push(entries(m), el, OpEvent::Add(end, v));
        lemma_entries_insert(ml, end, v);
        assert(reports_change(m, n, es));
        if 0 < size || k < start {
            assert(!m.contains_key(end)) by {
                if m.contains_key(end) {
                    assert(mr.contains_key(end));
                }
            }
            assert(reports_only_changes(m, n, es));
        }
        lemma_points_insert(ml, end, v);
        assert(ml.remove(end) =~= ml);
        assert forall|a: u64| #[trigger] ml.contains_key(a) && a < end implies seg_end(ml, a) <= end by {
        }
        lemma_valid_insert(ml, end, v);
        if segs_canonical(m) && 0 < size {
            assert forall|a: u64| #[trigger] ml.contains_key(a) && a < end implies seg_end(ml, a)
                < end by {
            }
            assert forall|b: u64| #[trigger] ml.contains_key(b) && end < b implies end + v < b by {
                if b != k {
                    assert(mr.contains_key(b));
                }
            }
        }
        assert(points(n) =~= points(m) - span(start as int, end as int));
    } else {
        assert(es =~= el);
        assert(reports_change(m, n, es));
        if 0 < size || k < start {
            assert(reports_only_changes(m, n, es));
        }
        assert(points(n) =~= points(m) - span(start as int, end as int));
    }
    lemma_points_bounded(m);
    lemma_set_difference_len(points(m), span(start as int, end as int));
    assert(points(m).intersect(span(start as int, end as int)) =~= span(start as int, end as int));
    if 0 < size || k < start {
        lemma_reported_pairs(m, n, es);
    }
}

/// The segments after cutting `start..start+size` out of the segment `k`.
pub open spec fn cut_map(m: Map<u64, u64>, k: u64, start: u64, size: u64) -> Map<u64, u64> {
    let end = start + size;
    let mr = m.remove(k);
    let ml = if k < start {
        mr.insert(k, (start - k) as u64)
    } else {
        mr
    };
    if end < seg_end(m, k) {
        ml.insert(end as u64, (seg_end(m, k) - end) as u64)
    } else {
        ml
    }
}

/// Inserting a fresh segment beside valid segments that it neither overlaps nor
/// (for the canonical part) touches: the points it adds, and their number.
pub proof fn lemma_insert_fresh(g: Map<u64, u64>, k: u64, v: u64)
    requires
        segs_valid(g),
        !g.contains_key(k),
        0 < v,
        k + v <= u64::MAX,
        forall|a: u64| #[trigger] g.contains_key(a) && a < k ==> seg_end(g, a) <= k,
        forall|b: u64| #[trigger] g.contains_key(b) && k < b ==> k + v <= b,
    ensures
        segs_valid(g.insert(k, v)),
        points(g.insert(k, v)) == points(g) + span(k as int, k + v),
        points(g.insert(k, v)).len() == points(g).len() + v,
        segs_canonical(g) && (forall|a: u64| #[trigger] g.contains_key(a) && a < k ==> seg_end(g, a) < k)
            && (forall|b: u64| #[trigger] g.contains_key(b) && k < b ==> k + v < b)
            ==> segs_canonical(g.insert(k, v)),
{
    lemma_valid_insert(g, k, v);
    lemma_points_insert(g, k, v);
    lemma_remove_absent(g, k);
    let n = g.insert(k, v);
    lemma_seg_disjoint(n, k);
    assert(n.remove(k) =~= g);
    lemma_points_bounded(g);
    lemma_span_len(k as int, k + v);
    lemma_set_disjoint_lens(points(g), span(k as int, k + v));
}

/// Removing one of valid segments: the points it takes away, and their number.
pub proof fn lemma_remove_seg(m: Map<u64, u64>, k: u64)
    requires
        segs_valid(m),
        m.contains_key(k),
    ensures
        segs_valid(m.remove(k)),
        segs_canonical(m) ==> segs_canonical(m.remove(k)),
        points(m) == points(m.remove(k)) + span(k as int, seg_end(m, k)),
        points(m).len() == points(m.remove(k)).len() + m[k],
        points(m.remove(k)) == points(m) - span(k as int, seg_end(m, k)),
{
    lemma_valid_remove(m, k);
    lemma_points_remove(m, k);
    lemma_seg_disjoint(m, k);
    lemma_points_bounded(m.remove(k));
    lemma_span_len(k as int, seg_end(m, k));
    lemma_set_disjoint_lens(points(m.remove(k)), span(k as int, seg_end(m, k)));
    assert(points(m.remove(k)) =~= points(m) - span(k as int, seg_end(m, k)));
}

/// The segments after the points `s..e` are taken out of every segment: segments
/// starting before `s` or from `e` on stay (those starting before `s` cut back to end
/// at `s`), segments starting in `s..e` go, and a segment that runs on past `e` from
/// before it leaves its part from `e` on.
pub open spec fn cut_out(m: Map<u64, u64>, s: u64, e: u64) -> Map<u64, u64> {
    Map::new(
        |k: u64|
            (m.contains_key(k) && (k < s || e <= k)) || (k == e && covered(m, e as int)
                && !m.contains_key(e)),
        |k: u64|
            if m.contains_key(k) && k < s && s < seg_end(m, k) {
                (s - k) as u64
            } else if k == e && !m.contains_key(e) {
                (seg_end(m, seg_at(m, e as int)) - e) as u64
            } else {
                m[k]
            },
    )
}

/// Taking out nothing at a point that no segment holds strictly inside changes
/// nothing.
pub proof fn lemma_cut_out_none(m: Map<u64, u64>, s: u64)
    requires
        segs_valid(m),
        m.contains_key(s) || !covered(m, s as int),
    ensures
        cut_out(m, s, s) == m,
{
    assert forall|k: u64| #[trigger] m.contains_key(k) && k < s implies seg_end(m, k) <= s by {
        if m.contains_key(s) {
            assert(m.contains_key(k) && m.contains_key(s));
        } else if seg_end(m, k) > s {
            assert(in_seg(m, k, s as int));
        }
    }
    assert(cut_out(m, s, s) =~= m);
}

/// Where nothing covers `a..b` and no segment starts there, taking out `s..a` and
/// taking out `s..b` are the same.
pub proof fn lemma_cut_out_gap(m: Map<u64, u64>, s: u64, a: u64, b: u64)
    requires
        segs_valid(m),
        s <= a <= b,
        forall|k: u64| #[trigger] m.contains_key(k) && s <= k && k < b ==> seg_end(m, k) <= a,
        forall|k: u64| #[trigger] m.contains_key(k) && k < s ==> seg_end(m, k) <= a,
        !m.contains_key(a) ==> !covered(m, a as int),
    ensures
        cut_out(m, s, a) == cut_out(m, s, b),
{
    assert forall|k: u64| #[trigger] m.contains_key(k) && a <= k && k < b implies false by {
        assert(seg_end(m, k) <= a);
    }
    if covered(m, b as int) && !m.contains_key(b) {
        let k = choose|k: u64| #[trigger] in_seg(m, k, b as int);
        if s <= k {
            assert(seg_end(m, k) <= a);
        }
    }
    if covered(m, a as int) && !m.contains_key(a) {
    }
    assert(cut_out(m, s, a) =~= cut_out(m, s, b));
}

/// Cutting `s..s+z` out of the segment `k` that holds `s` is taking out `s..s+z`.
pub proof fn lemma_cut_out_head(m: Map<u64, u64>, k: u64, s: u64, z: u64)
    requires
        segs_valid(m),
        in_seg(m, k, s as int),
        s + z <= seg_end(m, k),
    ensures
        cut_map(m, k, s, z) == cut_out(m, s, (s + z) as u64),
{
    let e = (s + z) as u64;
    assert forall|q: u64| #[trigger] m.contains_key(q) && q != k implies seg_end(m, q) <= k || seg_end(
        m,
        k,
    ) <= q by {
        if q < k {
            assert(m.contains_key(q) && m.contains_key(k));
        } else {
            assert(m.contains_key(q) && m.contains_key(k));
        }
    }
    if e < seg_end(m, k) {
        assert(in_seg(m, k, e as int));
        lemma_seg_at(m, k, e as int);
        if m.contains_key(e) {
            assert(m.contains_key(e) && m.contains_key(k));
        }
    } else {
        if covered(m, e as int) && !m.contains_key(e) {
            let j = choose|j: u64| #[trigger] in_seg(m, j, e as int);
            if j != k {
                assert(m.contains_key(j) && m.contains_key(k));
            }
        }
    }
    assert(cut_map(m, k, s, z) =~= cut_out(m, s, e));
}

/// After `s..cur` is taken out, where `cur` starts a segment: cutting the front
/// `cur..cur+z` off that segment is taking out `s..cur+z`.
pub proof fn lemma_cut_out_next(m: Map<u64, u64>, s: u64, cur: u64, z: u64)
    requires
        segs_valid(m),
        s <= cur,
        m.contains_key(cur),
        cur + z <= seg_end(m, cur),
    ensures
        cut_out(m, s, cur).contains_key(cur),
        cut_out(m, s, cur)[cur] == m[cur],
        cut_map(cut_out(m, s, cur), cur, cur, z) == cut_out(m, s, (cur + z) as u64),
{
    let n = cut_out(m, s, cur);
    let e = (cur + z) as u64;
    assert(n.contains_key(cur));
    assert(!(cur < s));
    assert(n[cur] == m[cur]);
    assert(seg_end(n, cur) == seg_end(m, cur));
    assert forall|q: u64| #[trigger] m.contains_key(q) && q != cur implies seg_end(m, q) <= cur
        || seg_end(m, cur) <= q by {
        assert(m.contains_key(q) && m.contains_key(cur));
    }
    if e < seg_end(m, cur) {
        assert(in_seg(m, cur, e as int));
        lemma_seg_at(m, cur, e as int);
        if m.contains_key(e) {
            assert(m.contains_key(e) && m.contains_key(cur));
        }
    } else {
        if covered(m, e as int) && !m.contains_key(e) {
            let j = choose|j: u64| #[trigger] in_seg(m, j, e as int);
            if j != cur {
                assert(m.contains_key(j) && m.contains_key(cur));
            }
        }
    }
    if covered(m, cur as int) && !m.contains_key(cur) {
    }
    assert(cut_map(n, cur, cur, z) =~= cut_out(m, s, e));
}

/// The segment that a loose add at `start` extends: the one starting at `start`, or
/// else the one that holds or ends at `start`; `start` itself where there is neither.
pub open spec fn loose_base(m: Map<u64, u64>, start: u64) -> u64 {
    if m.contains_key(start) {
        start
    } else if exists|p: u64| #[trigger] m.contains_key(p) && p < start && start <= seg_end(m, p) {
        choose|p: u64| #[trigger] m.contains_key(p) && p < start && start <= seg_end(m, p)
    } else {
        start
    }
}

/// The segments that a loose add of `..e` extending the segment at `bs` swallows:
/// those starting in `bs+1..=e`.
pub open spec fn loose_keys(m: Map<u64, u64>, bs: u64, e: u64) -> Set<u64> {
    Set::new(|k: u64| m.contains_key(k) && bs < k && k <= e)
}

/// The last of the segments swallowed.
pub open spec fn loose_last(m: Map<u64, u64>, bs: u64, e: u64) -> u64 {
    choose|k: u64| #[trigger] loose_keys(m, bs, e).contains(k) && forall|j: u64| #[trigger]
        loose_keys(m, bs, e).contains(j) ==> j <= k
}

/// The segments after a loose add of `start..start+size`: unless one segment already
/// covers it, the base segment is extended to `start+size`; where a segment starts in
/// `bs+1..start+size` every segment starting in `bs+1..=start+size` is swallowed, and
/// the base runs on to the end of the last of them, merging the segment that starts
/// there; where the only such segment starts at `start+size`, it alone is merged.
pub open spec fn add_loose_map(m: Map<u64, u64>, start: u64, size: u64) -> Map<u64, u64> {
    let e = (start + size) as u64;
    let bs = loose_base(m, start);
    let ks = loose_keys(m, bs, e);
    if m.contains_key(bs) && e <= seg_end(m, bs) {
        m
    } else if ks == Set::<u64>::empty() {
        m.insert(bs, (e - bs) as u64)
    } else if !(exists|k: u64| #[trigger] m.contains_key(k) && bs < k && k < e) {
        m.remove(e).insert(bs, (seg_end(m, e) - bs) as u64)
    } else {
        let le = seg_end(m, loose_last(m, bs, e));
        if le > e {
            let fe = if m.contains_key(le as u64) {
                seg_end(m, le as u64)
            } else {
                le
            };
            m.remove_keys(ks).remove(le as u64).insert(bs, (fe - bs) as u64)
        } else {
            m.remove_keys(ks).insert(bs, (e - bs) as u64)
        }
    }
}

/// Where no segment starts at `start`, the one that holds or ends at `start` is the
/// base of a loose add.
pub proof fn lemma_loose_base_below(m: Map<u64, u64>, start: u64, p: u64)
    requires
        segs_valid(m),
        !m.contains_key(start),
        m.contains_key(p),
        p < start <= seg_end(m, p),
    ensures
        loose_base(m, start) == p,
{
    assert(m.contains_key(p) && p < start && start <= seg_end(m, p));
    let q = choose|q: u64| #[trigger] m.contains_key(q) && q < start && start <= seg_end(m, q);
    if q < p {
        assert(m.contains_key(q) && m.contains_key(p));
    } else if p < q {
        assert(m.contains_key(q) && m.contains_key(p));
    }
}

} // verus!

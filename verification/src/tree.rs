//! The range tree itself.
use vstd::prelude::*;
use embed_collections::btree::BTreeMap;
use crate::segmap::{
    contents, lists_entries, key_span, map_remove_span, map_new, map_len, map_is_empty, map_get, map_insert, map_remove,
    map_ceiling, map_below, map_validate, map_memory_used,
};
use crate::segments::{
    seg_end, in_seg, points, span, segs_valid, segs_canonical, overlaps, overlap_free,
    first_overlap, covered, lemma_remove_absent, lemma_span_split, seg_at, lemma_seg_at, lemma_points_bounded, lemma_span_len, lemma_overlap_free_disjoint,
};
use crate::ops::{
    OpEvent, RangeTreeOps, DummyOps, apply_events, add_events, cut_events, touching_before,
    lemma_apply_events_push, entries, reports_change, reports_only_changes, removed_pairs,
    added_pairs, lemma_skip_append,
};
use vstd::std_specs::iter::IteratorSpec;
use crate::merge::{lemma_loose_base_below, add_loose_map, loose_base, loose_keys, loose_last, add_map, merged_start, lemma_add_merge, lemma_cut, cut_map, cut_out, lemma_cut_out_none, lemma_cut_out_gap, lemma_cut_out_head, lemma_cut_out_next, lemma_insert_fresh, lemma_remove_seg, lemma_valid_remove};
use vstd::set_lib::lemma_set_disjoint_lens;

verus! {

/// A set of disjoint segments `[start, start + size)`, stored as `start -> size` in an
/// ordered map, with the number of points they cover.
pub struct RangeTree {
    tree: BTreeMap<u64, u64>,
    space: u64,
}

impl View for RangeTree {
    type V = Map<u64, u64>;

    /// The segments, as a map from start to size.
    closed spec fn view(&self) -> Map<u64, u64> {
        contents(self.tree)
    }
}

impl RangeTree {
    /// The segments are valid and `space` counts the points they cover.
    pub closed spec fn wf(&self) -> bool {
        &&& segs_valid(self@)
        &&& self.space == points(self@).len()
    }

    /// A well-formed tree holds valid segments, which cover fewer than `u64::MAX` points.
    pub proof fn lemma_wf(&self)
        requires
            self.wf(),
        ensures
            segs_valid(self@),
            points(self@).finite(),
            points(self@).len() <= u64::MAX,
    {
        lemma_points_bounded(self@);
    }

    /// An empty tree.
    pub fn new() -> (t: RangeTree)
        ensures
            t.wf(),
            t@.dom() == Set::<u64>::empty(),
            segs_canonical(t@),
    {
        let tree = map_new();
        proof {
            assert(contents(tree) =~= Map::empty());
            assert(points(contents(tree)) =~= Set::<int>::empty());
        }
        RangeTree { tree, space: 0 }
    }

    /// Whether the tree holds no segment.
    pub fn is_empty(&self) -> (b: bool)
        ensures
            b == (self@.len() == 0),
    {
        map_is_empty(&self.tree)
    }

    /// The number of points covered by the segments.
    pub fn get_space(&self) -> (s: u64)
        requires
            self.wf(),
        ensures
            s == points(self@).len(),
    {
        self.space
    }

    /// The number of segments.
    pub fn len(&self) -> (n: usize)
        ensures
            n == self@.len(),
    {
        map_len(&self.tree)
    }

    /// The segment with the smallest start that is at least `k`, if there is one.
    pub(crate) fn first_from(&self, k: u64) -> (r: Option<(u64, u64)>)
        ensures
            match r {
                Some((a, v)) => {
                    &&& self@.contains_key(a)
                    &&& self@[a] == v
                    &&& k <= a
                    &&& forall|q: u64| #[trigger] self@.contains_key(q) && k <= q ==> a <= q
                },
                None => forall|q: u64| #[trigger] self@.contains_key(q) ==> q < k,
            },
    {
        map_ceiling(&self.tree, k)
    }

    /// The segment with the largest start below `k`, if there is one.
    pub(crate) fn last_below(&self, k: u64) -> (r: Option<(u64, u64)>)
        ensures
            match r {
                Some((a, v)) => {
                    &&& self@.contains_key(a)
                    &&& self@[a] == v
                    &&& a < k
                    &&& forall|q: u64| #[trigger] self@.contains_key(q) && q < k ==> q <= a
                },
                None => forall|q: u64| #[trigger] self@.contains_key(q) ==> k <= q,
            },
    {
        map_below(&self.tree, k)
    }

    /// The segments, as `(start, size)` in increasing order of start.
    pub fn collect(&self) -> (v: Vec<(u64, u64)>)
        ensures
            lists_entries(v@, self@),
    {
        let mut v: Vec<(u64, u64)> = Vec::new();
        let mut from: u64 = 0;
        let mut done = false;
        let ghost mut lim: int = 0;
        while !done
            invariant
                done ==> lim == u64::MAX + 1,
                !done ==> lim == from,
                lists_entries(v@, self@.restrict(Set::new(|q: u64| q < lim))),
                forall|i: int| 0 <= i < v.len() ==> #[trigger] v@[i].0 < lim,
            decreases u64::MAX + 1 - lim,
        {
            let ghost v0 = v@;
            let ghost lim0 = lim;
            match self.first_from(from) {
                Some((k, size)) => {
                    v.push((k, size));
                    if k == u64::MAX {
                        done = true;
                        proof {
                            lim = u64::MAX + 1;
                        }
                    } else {
                        from = k + 1;
                        proof {
                            lim = from as int;
                        }
                    }
                    proof {
                        let r = self@.restrict(Set::new(|q: u64| q < lim));
                        assert(v@ == v0.push((k, size)));
                        assert forall|q: u64| r.contains_key(q) implies exists|i: int|
                            0 <= i < v@.len() && #[trigger] v@[i].0 == q by {
                            if q == k {
                                assert(v@[v0.len() as int].0 == q);
                            } else {
                                assert(q < lim0);
                                assert(self@.restrict(Set::new(|q: u64| q < lim0)).contains_key(q));
                                let i = choose|i: int| 0 <= i < v0.len() && #[trigger] v0[i].0 == q;
                                assert(v@[i].0 == q);
                            }
                        }
                    }
                },
                None => {
                    done = true;
                    proof {
                        lim = u64::MAX + 1;
                        assert forall|q: u64| self@.contains_key(q) implies exists|i: int|
                            0 <= i < v@.len() && #[trigger] v@[i].0 == q by {
                            assert(self@.restrict(Set::new(|q: u64| q < lim0)).contains_key(q));
                        }
                    }
                },
            }
        }
        proof {
            assert(self@.restrict(Set::new(|q: u64| q < u64::MAX + 1)) =~= self@);
        }
        v
    }

    /// Checks the structure of the underlying B+ tree; panics where it is broken.
    pub fn validate(&self) {
        map_validate(&self.tree)
    }

    /// The bytes taken by the nodes of the underlying B+ tree: whole nodes of 128 or
    /// 256 bytes, at least one for every 14 segments or part of them.
    pub fn memory_used(&self) -> (bytes: usize)
        ensures
            bytes % 128 == 0,
            bytes >= 128 * ((self@.len() + 13) / 14),
    {
        map_memory_used(&self.tree)
    }

    /// Add range segment, merge with adjacent ranges, assuming no intersections.
    ///
    /// Returns `Ok(())` if there are no intersection;
    /// otherwise returns the overlapping range as `Err((existing_start, existing_size))`.
    pub fn add(&mut self, start: u64, size: u64) -> (r: Result<(), (u64, u64)>)
        requires
            old(self).wf(),
            0 < size,
            start + size <= u64::MAX,
        ensures
            final(self).wf(),
            r is Ok <==> overlap_free(old(self)@, start as int, start + size),
            r is Ok ==> final(self)@ == apply_events(old(self)@, add_events(old(self)@, start, size)),
            r is Ok ==> final(self)@ == add_map(old(self)@, start, size),
            r is Ok ==> points(final(self)@) == points(old(self)@) + span(start as int, start + size),
            r is Ok && segs_canonical(old(self)@) ==> segs_canonical(final(self)@),
            r matches Err((a, b)) ==> first_overlap(old(self)@, start as int, start + size, a) && b
                == old(self)@[a] && final(self)@ == old(self)@,
    {
        let mut ops = DummyOps::new();
        self.add_with(start, size, &mut ops)
    }

    /// Like `add`, and reports to `ops` the segments that are removed and added, each
    /// with its exact size: a tree of `(start, size)` pairs that follows the reports, as a
    /// size tree of an allocator does, holds exactly the segments of this tree after the
    /// call where it held them before.
    #[verifier::rlimit(50)]
    pub fn add_with<O: RangeTreeOps>(&mut self, start: u64, size: u64, ops: &mut O) -> (r: Result<
        (),
        (u64, u64),
    >)
        requires
            old(self).wf(),
            0 < size,
            start + size <= u64::MAX,
        ensures
            final(self).wf(),
            r is Ok <==> overlap_free(old(self)@, start as int, start + size),
            r is Ok ==> final(self)@ == apply_events(old(self)@, add_events(old(self)@, start, size)),
            r is Ok ==> final(self)@ == add_map(old(self)@, start, size),
            r is Ok ==> points(final(self)@) == points(old(self)@) + span(start as int, start + size),
            r is Ok && segs_canonical(old(self)@) ==> segs_canonical(final(self)@),
            r is Ok && old(ops).records_calls() ==> final(ops).records_calls() && final(ops).history()
                == old(ops).history() + add_events(old(self)@, start, size),
            r is Ok ==> reports_change(old(self)@, final(self)@, add_events(old(self)@, start, size)),
            r is Ok ==> removed_pairs(add_events(old(self)@, start, size)) == entries(
                old(self)@,
            ).difference(entries(final(self)@)),
            r is Ok ==> added_pairs(add_events(old(self)@, start, size)) == entries(
                final(self)@,
            ).difference(entries(old(self)@)),
            r is Ok && old(ops).records_calls() ==> reports_change(
                old(self)@,
                final(self)@,
                final(ops).history().skip(old(ops).history().len() as int),
            ),
            r is Ok && old(ops).records_calls() ==> reports_only_changes(
                old(self)@,
                final(self)@,
                final(ops).history().skip(old(ops).history().len() as int),
            ),
            r matches Err((a, b)) ==> first_overlap(old(self)@, start as int, start + size, a) && b
                == old(self)@[a] && final(self)@ == old(self)@ && *final(ops) == *old(ops),
    {
        let ghost m = self@;
        let end = start + size;
        proof {
            self.lemma_wf();
        }
        if let Some(v) = map_get(&self.tree, start) {
            proof {
                assert(overlaps(m, start, start as int, end as int));
                assert forall|q: u64| #[trigger] overlaps(m, q, start as int, end as int) implies start
                    <= q by {
                    if q < start {
                        assert(m.contains_key(q) && m.contains_key(start));
                    }
                }
            }
            return Err((start, v));
        }
        let mut prev: Option<(u64, u64)> = None;
        let mut next: Option<(u64, u64)> = None;
        let below = map_below(&self.tree, start);
        if let Some((ps, pz)) = below {
            let pe = ps + pz;
            if pe == start {
                prev = Some((ps, pz));
            } else if pe > start {
                proof {
                    assert(overlaps(m, ps, start as int, end as int));
                    assert forall|q: u64| #[trigger] overlaps(m, q, start as int, end as int) implies ps
                        <= q by {
                        if q < ps {
                            assert(m.contains_key(q) && m.contains_key(ps));
                        }
                    }
                }
                return Err((ps, pz));
            }
        }
        let above = map_ceiling(&self.tree, start);
        if let Some((ns, nz)) = above {
            if end == ns {
                next = Some((ns, nz));
            } else if end > ns {
                proof {
                    assert(overlaps(m, ns, start as int, end as int));
                    assert forall|q: u64| #[trigger] overlaps(m, q, start as int, end as int) implies ns
                        <= q by {
                        if q < ns {
                            assert(q < start);
                            let (ps, pz) = below->0;
                            assert(q <= ps);
                            if q < ps {
                                assert(m.contains_key(q) && m.contains_key(ps));
                            }
                        }
                    }
                }
                return Err((ns, nz));
            }
        }
        proof {
            assert forall|q: u64| !#[trigger] overlaps(m, q, start as int, end as int) by {
                if overlaps(m, q, start as int, end as int) {
                    if q < start {
                        let (ps, pz) = below->0;
                        assert(q <= ps);
                        if q < ps {
                            assert(m.contains_key(q) && m.contains_key(ps));
                        }
                    } else {
                        let (ns, nz) = above->0;
                    }
                }
            }
            lemma_add_merge(m, start, size);
            // the merge partners found here are those that `add_events` names
            match prev {
                Some((ps, pz)) => {
                    assert(m.contains_key(ps) && seg_end(m, ps) == start);
                    let p = choose|p: u64| #[trigger] m.contains_key(p) && seg_end(m, p) == start;
                    if p < ps {
                        assert(m.contains_key(p) && m.contains_key(ps));
                    } else if ps < p {
                        assert(m.contains_key(p) && m.contains_key(ps));
                    }
                    assert(touching_before(m, start) == Some(ps));
                },
                None => {
                    assert forall|p: u64| #[trigger] m.contains_key(p) implies seg_end(m, p) != start by {
                        if seg_end(m, p) == start {
                            let (ps, pz) = below->0;
                            assert(p <= ps);
                            if p < ps {
                                assert(m.contains_key(p) && m.contains_key(ps));
                            }
                        }
                    }
                    assert(touching_before(m, start) is None);
                },
            }
            match next {
                Some((ns, nz)) => {
                    assert(m.contains_key(end));
                },
                None => {
                    if m.contains_key(end) {
                        let (ns, nz) = above->0;
                        assert(ns <= end);
                    }
                    assert(!m.contains_key(end));
                },
            }
        }
        let ghost h = ops.history();
        let ghost rec = ops.records_calls();
        proof {
            lemma_skip_append(h, add_events(m, start, size));
        }
        match (prev, next) {
            (None, None) => {
                ops.op_add(start, size);
                map_insert(&mut self.tree, start, size);
                proof {
                    assert(add_events(m, start, size) =~= seq![OpEvent::Add(start, size)]);
                    assert(seq![OpEvent::Add(start, size)] =~= Seq::<OpEvent>::empty().push(OpEvent::Add(start, size)));
                    lemma_apply_events_push(m, Seq::empty(), OpEvent::Add(start, size));
                    assert(self@ == apply_events(m, add_events(m, start, size)));
                }
            },
            (None, Some((ns, nz))) => {
                ops.op_remove(ns, nz);
                let v = nz + size;
                map_remove(&mut self.tree, ns);
                map_insert(&mut self.tree, start, v);
                ops.op_add(start, v);
                proof {
                    let es = seq![OpEvent::Remove(ns, nz), OpEvent::Add(start, v)];
                    assert(add_events(m, start, size) =~= es);
                    assert(es =~= Seq::<OpEvent>::empty().push(OpEvent::Remove(ns, nz)).push(OpEvent::Add(start, v)));
                    lemma_apply_events_push(m, Seq::empty(), OpEvent::Remove(ns, nz));
                    lemma_apply_events_push(m, Seq::empty().push(OpEvent::Remove(ns, nz)), OpEvent::Add(start, v));
                    assert(self@ == apply_events(m, add_events(m, start, size)));
                }
            },
            (Some((ps, pz)), None) => {
                ops.op_remove(ps, pz);
                let v = pz + size;
                map_insert(&mut self.tree, ps, v);
                ops.op_add(ps, v);
                proof {
                    let es = seq![OpEvent::Remove(ps, pz), OpEvent::Add(ps, v)];
                    assert(add_events(m, start, size) =~= es);
                    assert(es =~= Seq::<OpEvent>::empty().push(OpEvent::Remove(ps, pz)).push(OpEvent::Add(ps, v)));
                    lemma_apply_events_push(m, Seq::empty(), OpEvent::Remove(ps, pz));
                    lemma_apply_events_push(m, Seq::empty().push(OpEvent::Remove(ps, pz)), OpEvent::Add(ps, v));
                    assert(m.remove(ps).insert(ps, v) =~= m.insert(ps, v));
                    assert(self@ == apply_events(m, add_events(m, start, size)));
                }
            },
            (Some((ps, pz)), Some((ns, nz))) => {
                ops.op_remove(ps, pz);
                ops.op_remove(ns, nz);
                let v = pz + size + nz;
                map_insert(&mut self.tree, ps, v);
                ops.op_add(ps, v);
                map_remove(&mut self.tree, ns);
                proof {
                    let es = seq![OpEvent::Remove(ps, pz), OpEvent::Remove(ns, nz), OpEvent::Add(ps, v)];
                    assert(add_events(m, start, size) =~= es);
                    let e1 = Seq::<OpEvent>::empty().push(OpEvent::Remove(ps, pz));
                    let e2 = e1.push(OpEvent::Remove(ns, nz));
                    assert(es =~= e2.push(OpEvent::Add(ps, v)));
                    lemma_apply_events_push(m, Seq::empty(), OpEvent::Remove(ps, pz));
                    lemma_apply_events_push(m, e1, OpEvent::Remove(ns, nz));
                    lemma_apply_events_push(m, e2, OpEvent::Add(ps, v));
                    assert(m.remove(ps).remove(ns).insert(ps, v) =~= m.insert(ps, v).remove(ns));
                    assert(self@ == apply_events(m, add_events(m, start, size)));
                }
            },
        }
        proof {
            assert(self@ == apply_events(m, add_events(m, start, size)));
            lemma_span_len(start as int, end as int);
            lemma_overlap_free_disjoint(m, start as int, end as int);
            lemma_set_disjoint_lens(points(m), span(start as int, end as int));
            lemma_points_bounded(self@);
        }
        proof {
            if rec {
                assert(ops.history() == h + add_events(m, start, size));
            }
        }
        self.space = self.space + size;
        Ok(())
    }

    /// Adds the segment `start..end`.
    pub fn add_abs(&mut self, start: u64, end: u64) -> (r: Result<(), (u64, u64)>)
        requires
            old(self).wf(),
            start < end,
        ensures
            final(self).wf(),
            r is Ok <==> overlap_free(old(self)@, start as int, end as int),
            r is Ok ==> final(self)@ == apply_events(
                old(self)@,
                add_events(old(self)@, start, (end - start) as u64),
            ),
            r is Ok ==> final(self)@ == add_map(old(self)@, start, (end - start) as u64),
            r is Ok ==> points(final(self)@) == points(old(self)@) + span(start as int, end as int),
            r is Ok && segs_canonical(old(self)@) ==> segs_canonical(final(self)@),
            r matches Err((a, b)) ==> first_overlap(old(self)@, start as int, end as int, a) && b
                == old(self)@[a] && final(self)@ == old(self)@,
    {
        self.add(start, end - start)
    }

    /// Valid and remove specify range start:size
    ///
    /// - Only return Ok(()) when there's existing range equal to or contain the removal range in the tree,
    /// - return Err(None) when not found,
    /// - return Err(Some(start, size)) when a range intersect with the removal range, or when the
    ///   removal range larger than existing range.
    pub fn remove(&mut self, start: u64, size: u64) -> (r: Result<(), Option<(u64, u64)>>)
        requires
            old(self).wf(),
            start + size <= u64::MAX,
        ensures
            final(self).wf(),
            r is Ok <==> covered(old(self)@, start as int) && start + size <= seg_end(
                old(self)@,
                seg_at(old(self)@, start as int),
            ),
            r is Ok ==> final(self)@ == apply_events(
                old(self)@,
                cut_events(old(self)@, seg_at(old(self)@, start as int), start, size),
            ),
            r is Ok ==> final(self)@ == cut_map(
                old(self)@,
                seg_at(old(self)@, start as int),
                start,
                size,
            ),
            r is Ok ==> points(final(self)@) == points(old(self)@) - span(start as int, start + size),
            r is Ok && segs_canonical(old(self)@) && 0 < size ==> segs_canonical(final(self)@),
            r == Err::<(), Option<(u64, u64)>>(None) <==> !covered(old(self)@, start as int),
            r matches Err(Some((a, b))) ==> a == seg_at(old(self)@, start as int) && in_seg(
                old(self)@,
                a,
                start as int,
            ) && b == old(self)@[a] && seg_end(old(self)@, a) < start + size,
            r is Err ==> final(self)@ == old(self)@,
    {
        let mut ops = DummyOps::new();
        self.remove_with(start, size, &mut ops)
    }

    /// Like `remove`, and reports to `ops` the segments that are removed and added, each
    /// with its exact size: a tree of `(start, size)` pairs that follows the reports, as a
    /// size tree of an allocator does, holds exactly the segments of this tree after the
    /// call where it held them before. A removal that fails reports nothing.
    #[verifier::rlimit(50)]
    pub fn remove_with<O: RangeTreeOps>(&mut self, start: u64, size: u64, ops: &mut O) -> (r:
        Result<(), Option<(u64, u64)>>)
        requires
            old(self).wf(),
            start + size <= u64::MAX,
        ensures
            final(self).wf(),
            r is Ok <==> covered(old(self)@, start as int) && start + size <= seg_end(
                old(self)@,
                seg_at(old(self)@, start as int),
            ),
            r is Ok ==> final(self)@ == apply_events(
                old(self)@,
                cut_events(old(self)@, seg_at(old(self)@, start as int), start, size),
            ),
            r is Ok ==> final(self)@ == cut_map(
                old(self)@,
                seg_at(old(self)@, start as int),
                start,
                size,
            ),
            r is Ok ==> points(final(self)@) == points(old(self)@) - span(start as int, start + size),
            r is Ok && segs_canonical(old(self)@) && 0 < size ==> segs_canonical(final(self)@),
            r is Ok && old(ops).records_calls() ==> final(ops).records_calls() && final(ops).history()
                == old(ops).history() + cut_events(
                old(self)@,
                seg_at(old(self)@, start as int),
                start,
                size,
            ),
            r is Ok ==> reports_change(
                old(self)@,
                final(self)@,
                cut_events(old(self)@, seg_at(old(self)@, start as int), start, size),
            ),
            r is Ok && (0 < size || seg_at(old(self)@, start as int) < start) ==> removed_pairs(
                cut_events(old(self)@, seg_at(old(self)@, start as int), start, size),
            ) == entries(old(self)@).difference(entries(final(self)@)),
            r is Ok && (0 < size || seg_at(old(self)@, start as int) < start) ==> added_pairs(
                cut_events(old(self)@, seg_at(old(self)@, start as int), start, size),
            ) == entries(final(self)@).difference(entries(old(self)@)),
            r is Ok && old(ops).records_calls() ==> reports_change(
                old(self)@,
                final(self)@,
                final(ops).history().skip(old(ops).history().len() as int),
            ),
            r is Ok && (0 < size || seg_at(old(self)@, start as int) < start)
                && old(ops).records_calls() ==> reports_only_changes(
                old(self)@,
                final(self)@,
                final(ops).history().skip(old(ops).history().len() as int),
            ),
            r == Err::<(), Option<(u64, u64)>>(None) <==> !covered(old(self)@, start as int),
            r matches Err(Some((a, b))) ==> a == seg_at(old(self)@, start as int) && in_seg(
                old(self)@,
                a,
                start as int,
            ) && b == old(self)@[a] && seg_end(old(self)@, a) < start + size,
            r is Err ==> final(self)@ == old(self)@,
            r is Err ==> *final(ops) == *old(ops),
    {
        let ghost m = self@;
        let end = start + size;
        proof {
            self.lemma_wf();
            lemma_skip_append(ops.history(), cut_events(m, seg_at(m, start as int), start, size));
        }
        let ghost h = ops.history();
        let ghost rec = ops.records_calls();
        if let Some(rs_size) = map_get(&self.tree, start) {
            proof {
                assert(in_seg(m, start, start as int));
                lemma_seg_at(m, start, start as int);
            }
            if rs_size == size {
                ops.op_remove(start, rs_size);
                map_remove(&mut self.tree, start);
                proof {
                    lemma_cut(m, start, start, size);
                    if rec {
                        assert(ops.history() == h + cut_events(m, start, start, size));
                    }
                    assert(self@ =~= cut_map(m, start, start, size));
                }
                self.space = self.space - rs_size;
                return Ok(());
            } else if rs_size > size {
                let new_start = start + size;
                let new_size = rs_size - size;
                ops.op_remove(start, rs_size);
                map_remove(&mut self.tree, start);
                map_insert(&mut self.tree, new_start, new_size);
                ops.op_add(new_start, new_size);
                proof {
                    lemma_cut(m, start, start, size);
                    if rec {
                        assert(ops.history() == h + cut_events(m, start, start, size));
                    }
                    assert(self@ =~= cut_map(m, start, start, size));
                }
                self.space = self.space - size;
                return Ok(());
            } else {
                return Err(Some((start, rs_size)));
            }
        }
        if let Some((rs_start, rs_size)) = map_below(&self.tree, start) {
            let rs_end = rs_start + rs_size;
            if rs_end > start {
                proof {
                    assert(in_seg(m, rs_start, start as int));
                    lemma_seg_at(m, rs_start, start as int);
                }
                if rs_end > end {
                    ops.op_remove(rs_start, rs_size);
                    let new_size = start - rs_start;
                    map_insert(&mut self.tree, rs_start, new_size);
                    ops.op_add(rs_start, new_size);
                    let new_size2 = rs_end - end;
                    map_insert(&mut self.tree, end, new_size2);
                    ops.op_add(end, new_size2);
                    proof {
                        lemma_cut(m, rs_start, start, size);
                        if rec {
                            assert(ops.history() == h + cut_events(m, rs_start, start, size));
                        }
                        assert(self@ =~= cut_map(m, rs_start, start, size));
                    }
                    self.space = self.space - size;
                    return Ok(());
                } else if rs_end == end {
                    ops.op_remove(rs_start, rs_size);
                    let new_size = start - rs_start;
                    map_insert(&mut self.tree, rs_start, new_size);
                    ops.op_add(rs_start, new_size);
                    proof {
                        lemma_cut(m, rs_start, start, size);
                        if rec {
                            assert(ops.history() == h + cut_events(m, rs_start, start, size));
                        }
                        assert(self@ =~= cut_map(m, rs_start, start, size));
                    }
                    self.space = self.space - (rs_end - start);
                    return Ok(());
                } else {
                    return Err(Some((rs_start, rs_size)));
                }
            } else {
                proof {
                    assert forall|k: u64| !#[trigger] in_seg(m, k, start as int) by {
                        if in_seg(m, k, start as int) {
                            assert(k <= rs_start);
                            if k < rs_start {
                                assert(m.contains_key(k) && m.contains_key(rs_start));
                            }
                        }
                    }
                }
                return Err(None);
            }
        } else {
            proof {
                assert forall|k: u64| !#[trigger] in_seg(m, k, start as int) by {
                    if in_seg(m, k, start as int) {
                        assert(k <= start);
                    }
                }
            }
            return Err(None);
        }
    }

    /// Add range which may have multiple intersections with existing range, ensuring union result
    #[verifier::rlimit(60)]
    pub fn add_loosely(&mut self, start: u64, size: u64)
        requires
            old(self).wf(),
            0 < size,
            start + size <= u64::MAX,
        ensures
            final(self).wf(),
            points(final(self)@) == points(old(self)@) + span(start as int, start + size),
            segs_canonical(old(self)@) ==> segs_canonical(final(self)@),
            final(self)@ == add_loose_map(old(self)@, start, size),
    {
        let ghost m0 = self@;
        let new_end = start + size;
        proof {
            self.lemma_wf();
        }
        // the segment the new range extends, if one holds or touches `start`
        let mut base_start = start;
        let mut base_size: u64 = 0;
        let mut has_base = false;
        match map_get(&self.tree, start) {
            Some(sz) => {
                if start + sz >= new_end {
                    proof {
                        assert forall|p: int| #[trigger] span(start as int, new_end as int).contains(p)
                            implies points(m0).contains(p) by {
                            assert(in_seg(m0, start, p));
                        }
                        assert(points(m0) + span(start as int, new_end as int) =~= points(m0));
                        assert(loose_base(m0, start) == start);
                    }
                    return;
                }
                has_base = true;
                base_size = sz;
            },
            None => {
                if let Some((ps, pz)) = map_below(&self.tree, start) {
                    let cur_end = ps + pz;
                    if cur_end >= new_end {
                        proof {
                            assert forall|p: int| #[trigger] span(start as int, new_end as int).contains(
                                p,
                            ) implies points(m0).contains(p) by {
                                assert(in_seg(m0, ps, p));
                            }
                            assert(points(m0) + span(start as int, new_end as int) =~= points(m0));
                            lemma_loose_base_below(m0, start, ps);
                        }
                        return;
                    }
                    if cur_end >= start {
                        has_base = true;
                        base_start = ps;
                        base_size = pz;
                        proof {
                            lemma_loose_base_below(m0, start, ps);
                        }
                    } else {
                        proof {
                            assert forall|a: u64| #[trigger] m0.contains_key(a) && a < start implies seg_end(
                                m0,
                                a,
                            ) < start by {
                                assert(a <= ps);
                                if a < ps {
                                    assert(m0.contains_key(a) && m0.contains_key(ps));
                                }
                            }
                        }
                    }
                }
            },
        }
        let bs = base_start;
        let bz = base_size;
        let ghost g0 = m0.remove(bs);
        proof {
            if has_base {
                assert(m0.contains_key(bs) && m0[bs] == bz);
                assert(bs <= start && start <= bs + bz && bs + bz < new_end);
                lemma_remove_seg(m0, bs);
                assert forall|a: u64| #[trigger] g0.contains_key(a) && a < bs implies seg_end(g0, a)
                    <= bs by {
                    assert(m0.contains_key(a) && m0.contains_key(bs));
                }
                if segs_canonical(m0) {
                    assert forall|a: u64| #[trigger] g0.contains_key(a) && a < bs implies seg_end(
                        g0,
                        a,
                    ) < bs by {
                        assert(m0.contains_key(a) && m0.contains_key(bs));
                    }
                }
            } else {
                assert(bs == start && bz == 0);
                assert forall|a: u64| #[trigger] m0.contains_key(a) && a < start implies seg_end(m0, a)
                    < start by {
                }
                assert(!(exists|p: u64| #[trigger] m0.contains_key(p) && p < start && start <= seg_end(m0, p)));
                lemma_remove_absent(m0, bs);
                assert forall|a: u64| #[trigger] g0.contains_key(a) && a < bs implies seg_end(g0, a)
                    < bs by {
                    assert(m0.contains_key(a));
                }
            }
            // the base covers what lies before `start` in the new range
            assert(span(bs as int, new_end as int) =~= span(bs as int, start as int) + span(
                start as int,
                new_end as int,
            ));
        }
        let next = map_ceiling(&self.tree, bs + 1);
        match next {
            Some((ns, nz)) => {
                if ns < new_end {
                    self.absorb(bs, bz, has_base, ns, new_end, Ghost(m0), Ghost(start));
                } else if ns == new_end {
                    let v = new_end - bs + nz;
                    map_insert(&mut self.tree, bs, v);
                    map_remove(&mut self.tree, ns);
                    proof {
                        let g1 = g0.remove(ns);
                        assert(g0.contains_key(ns));
                        lemma_remove_seg(g0, ns);
                        assert forall|a: u64| #[trigger] g1.contains_key(a) && a < bs implies seg_end(
                            g1,
                            a,
                        ) <= bs by {
                            assert(g0.contains_key(a));
                        }
                        assert forall|b: u64| #[trigger] g1.contains_key(b) && bs < b implies bs + v
                            <= b by {
                            assert(m0.contains_key(b) && m0.contains_key(ns));
                        }
                        if segs_canonical(m0) {
                            assert forall|a: u64| #[trigger] g1.contains_key(a) && a < bs implies seg_end(
                                g1,
                                a,
                            ) < bs by {
                                assert(g0.contains_key(a));
                            }
                            assert forall|b: u64| #[trigger] g1.contains_key(b) && bs < b implies bs
                                + v < b by {
                                assert(m0.contains_key(b) && m0.contains_key(ns));
                            }
                        }
                        lemma_insert_fresh(g1, bs, v);
                        assert(self@ =~= g1.insert(bs, v));
                        assert(loose_keys(m0, bs, new_end).contains(new_end));
                        assert(!(exists|k: u64| #[trigger] m0.contains_key(k) && bs < k && k < new_end));
                        assert(self@ =~= m0.remove(new_end).insert(bs, v));
                        lemma_span_split(bs as int, new_end as int, ns + nz);
                        assert(points(self@) =~= points(m0) + span(start as int, new_end as int));
                        lemma_points_bounded(self@);
                    }
                    self.space = self.space + (new_end - (bs + bz));
                } else {
                    self.extend_base(bs, bz, has_base, new_end, Ghost(m0), Ghost(start));
                }
            },
            None => {
                self.extend_base(bs, bz, has_base, new_end, Ghost(m0), Ghost(start));
            },
        }
    }

    /// Remove all the intersection ranges in the tree
    ///
    /// the range start:size to remove allow to be larger than the existing range
    ///
    /// return true if overlapping range found and removed.
    /// return false if overlapping range not found.
    pub fn remove_loosely(&mut self, start: u64, size: u64) -> (r: bool)
        requires
            old(self).wf(),
            start + size <= u64::MAX,
        ensures
            final(self).wf(),
            points(final(self)@) == points(old(self)@) - span(start as int, start + size),
            r == (covered(old(self)@, start as int) || !overlap_free(
                old(self)@,
                start as int,
                start + size,
            )),
            segs_canonical(old(self)@) && 0 < size ==> segs_canonical(final(self)@),
            final(self)@ == cut_out(old(self)@, start, (start + size) as u64),
    {
        let ghost m0 = self@;
        let end = start + size;
        proof {
            self.lemma_wf();
        }
        let mut cur = start;
        if map_get(&self.tree, start).is_none() {
            // `start` falls inside a segment, or between segments
            let below = map_below(&self.tree, start);
            if let Some((rs_start, rs_size)) = below {
                let rs_end = rs_start + rs_size;
                if rs_end > start {
                    proof {
                        assert(in_seg(m0, rs_start, start as int));
                        lemma_seg_at(m0, rs_start, start as int);
                    }
                    if rs_end >= end {
                        // punch a hole, or shrink from back
                        let new_size = start - rs_start;
                        map_insert(&mut self.tree, rs_start, new_size);
                        if rs_end > end {
                            let new_size2 = rs_end - end;
                            map_insert(&mut self.tree, end, new_size2);
                        }
                        proof {
                            lemma_cut(m0, rs_start, start, size);
                            assert(self@ =~= cut_map(m0, rs_start, start, size));
                            lemma_cut_out_head(m0, rs_start, start, size);
                        }
                        self.space = self.space - size;
                        return true;
                    }
                    let new_size = start - rs_start;
                    map_insert(&mut self.tree, rs_start, new_size);
                    proof {
                        lemma_cut(m0, rs_start, start, (rs_end - start) as u64);
                        assert(self@ =~= cut_map(m0, rs_start, start, (rs_end - start) as u64));
                        lemma_cut_out_head(m0, rs_start, start, (rs_end - start) as u64);
                        assert forall|k: u64| #[trigger] m0.contains_key(k) && k < start implies seg_end(
                            m0,
                            k,
                        ) <= rs_end by {
                            if k != rs_start {
                                assert(m0.contains_key(k) && m0.contains_key(rs_start));
                            }
                        }
                        assert forall|k: u64| #[trigger] m0.contains_key(k) && start <= k implies rs_end <= k by {
                            assert(m0.contains_key(k) && m0.contains_key(rs_start));
                        }
                        if !m0.contains_key(rs_end as u64) && covered(m0, rs_end as int) {
                            let j = choose|j: u64| #[trigger] in_seg(m0, j, rs_end as int);
                        }
                    }
                    self.space = self.space - (rs_end - start);
                    let above = map_ceiling(&self.tree, start);
                    proof {
                        let m1 = self@;
                        assert forall|k: u64| #[trigger] m1.contains_key(k) && k < rs_end implies seg_end(
                            m1,
                            k,
                        ) <= start by {
                            if k != rs_start {
                                assert(m0.contains_key(k) && m0.contains_key(rs_start));
                            }
                        }
                        assert forall|k: u64| #[trigger] m1.contains_key(k) && start <= k implies rs_end <= k by {
                            assert(m0.contains_key(k) && m0.contains_key(rs_start));
                        }
                    }
                    match above {
                        Some((ns, _)) => {
                            if ns < end {
                                proof {
                                    lemma_gap(self@, m0, start, rs_end as u64, ns);
                                    assert forall|k: u64| #[trigger] m0.contains_key(k) && start <= k && k < ns implies seg_end(m0, k) <= rs_end by {
                                        assert(self@.contains_key(k));
                                    }
                                    lemma_cut_out_gap(m0, start, rs_end as u64, ns);
                                }
                                cur = ns;
                            } else {
                                proof {
                                    lemma_gap(self@, m0, start, rs_end as u64, end);
                                    assert forall|k: u64| #[trigger] m0.contains_key(k) && start <= k && k < end implies seg_end(m0, k) <= rs_end by {
                                        assert(self@.contains_key(k));
                                    }
                                    lemma_cut_out_gap(m0, start, rs_end as u64, end);
                                }
                                return true;
                            }
                        },
                        None => {
                            proof {
                                lemma_gap(self@, m0, start, rs_end as u64, end);
                                assert forall|k: u64| #[trigger] m0.contains_key(k) && start <= k && k < end implies seg_end(m0, k) <= rs_end by {
                                    assert(self@.contains_key(k));
                                }
                                lemma_cut_out_gap(m0, start, rs_end as u64, end);
                            }
                            return true;
                        },
                    }
                }
            }
            if cur == start {
                // no segment holds `start`
                proof {
                    assert forall|k: u64| #[trigger] m0.contains_key(k) && k < start implies seg_end(
                        m0,
                        k,
                    ) <= start by {
                        let (rs_start, rs_size) = below->0;
                        assert(k <= rs_start);
                        if k < rs_start {
                            assert(m0.contains_key(k) && m0.contains_key(rs_start));
                        }
                    }
                    assert(!covered(m0, start as int)) by {
                        if covered(m0, start as int) {
                            let k = choose|k: u64| #[trigger] in_seg(m0, k, start as int);
                        }
                    }
                }
                match map_ceiling(&self.tree, start) {
                    Some((ns, _)) => {
                        if ns < end {
                            proof {
                                assert forall|k: u64| #[trigger] m0.contains_key(k) && k < ns implies seg_end(m0, k) <= start by {
                                    assert(k < start);
                                }
                                assert(points(m0) - span(start as int, start as int) =~= points(m0));
                                lemma_gap(self@, m0, start, start, ns);
                                lemma_cut_out_none(m0, start);
                                lemma_cut_out_gap(m0, start, start, ns);
                            }
                            cur = ns;
                        } else {
                            proof {
                                assert forall|q: u64| !#[trigger] overlaps(m0, q, start as int, end as int) by {
                                }
                                assert(span(start as int, end as int).disjoint(points(m0))) by {
                                    lemma_overlap_free_disjoint(m0, start as int, end as int);
                                }
                                assert(points(m0) - span(start as int, end as int) =~= points(m0));
                                lemma_cut_out_none(m0, start);
                                lemma_cut_out_gap(m0, start, start, end);
                            }
                            return false;
                        }
                    },
                    None => {
                        proof {
                            assert forall|q: u64| !#[trigger] overlaps(m0, q, start as int, end as int) by {
                            }
                            lemma_overlap_free_disjoint(m0, start as int, end as int);
                            assert(points(m0) - span(start as int, end as int) =~= points(m0));
                            lemma_cut_out_none(m0, start);
                            lemma_cut_out_gap(m0, start, start, end);
                        }
                        return false;
                    },
                }
            }
        } else {
            proof {
                assert(points(self@) - span(start as int, start as int) =~= points(self@));
                lemma_cut_out_none(m0, start);
                assert forall|k: u64| #[trigger] self@.contains_key(k) && k < start implies seg_end(
                    self@,
                    k,
                ) <= start by {
                    assert(self@.contains_key(start));
                }
            }
        }
        // `cur` now starts a segment, with nothing covered left in `start..cur`
        loop
            invariant
                self.wf(),
                old(self)@ == m0,
                segs_valid(m0),
                start <= cur <= end,
                cur < end || cur == start,
                end == start + size,
                self@.contains_key(cur),
                points(self@) == points(m0) - span(start as int, cur as int),
                forall|k: u64| #[trigger] self@.contains_key(k) && k < cur ==> seg_end(self@, k) <= cur,
                forall|k: u64| cur <= k ==> (#[trigger] self@.contains_key(k) <==> m0.contains_key(k)),
                forall|k: u64| #[trigger] self@.contains_key(k) && cur <= k ==> self@[k] == m0[k],
                segs_canonical(m0) && 0 < size ==> segs_canonical(self@),
                self@ == cut_out(m0, start, cur),
            decreases end - cur,
        {
            let ghost m1 = self@;
            proof {
                self.lemma_wf();
                assert(m0.contains_key(cur));
                if cur < end {
                    assert(overlaps(m0, cur, start as int, end as int));
                } else {
                    assert(in_seg(m0, cur, start as int));
                }
            }
            let rs_size = match map_get(&self.tree, cur) {
                Some(v) => v,
                None => {
                    return true;
                },
            };
            let cur_size = end - cur;
            if rs_size >= cur_size {
                // the segment at `cur` ends at or past `end`
                if rs_size == cur_size {
                    map_remove(&mut self.tree, cur);
                } else {
                    map_remove(&mut self.tree, cur);
                    map_insert(&mut self.tree, end, rs_size - cur_size);
                }
                proof {
                    assert(in_seg(m1, cur, cur as int));
                    lemma_cut(m1, cur, cur, cur_size);
                    assert(self@ =~= cut_map(m1, cur, cur, cur_size));
                    assert(points(self@) =~= points(m0) - span(start as int, end as int));
                    lemma_cut_out_next(m0, start, cur, cur_size);
                }
                self.space = self.space - cur_size;
                return true;
            }
            // the segment at `cur` ends before `end`: drop it and go on
            let cur_end = cur + rs_size;
            let above = map_ceiling(&self.tree, cur + 1);
            map_remove(&mut self.tree, cur);
            proof {
                lemma_remove_seg(m1, cur);
                lemma_cut_out_next(m0, start, cur, rs_size);
                assert(self@ =~= cut_map(m1, cur, cur, rs_size));
                assert forall|k: u64| #[trigger] m0.contains_key(k) && k < cur implies seg_end(m0, k)
                    <= cur by {
                    assert(m0.contains_key(k) && m0.contains_key(cur));
                }
                if !m0.contains_key(cur_end) && covered(m0, cur_end as int) {
                    let j = choose|j: u64| #[trigger] in_seg(m0, j, cur_end as int);
                    if j != cur {
                        assert(m0.contains_key(j) && m0.contains_key(cur));
                    }
                }
            }
            self.space = self.space - rs_size;
            proof {
                let m2 = self@;
                assert forall|k: u64| #[trigger] m2.contains_key(k) && k < cur_end implies seg_end(m2, k)
                    <= cur by {
                    assert(m1.contains_key(k));
                    if cur < k {
                        assert(m1.contains_key(cur));
                    }
                }
            }
            match above {
                Some((ns, _)) => {
                    if ns < end {
                        proof {
                            let m2 = self@;
                            assert forall|k: u64| #[trigger] m2.contains_key(k) && k < ns implies seg_end(
                                m2,
                                k,
                            ) <= cur by {
                                assert(m1.contains_key(k));
                            }
                            assert(points(m1) - span(cur as int, cur_end as int) =~= points(m0) - span(start as int, cur_end as int));
                            lemma_gap(m2, m0, start, cur_end, ns);
                            assert forall|k: u64| #[trigger] m0.contains_key(k) && start <= k && k < ns implies seg_end(m0, k) <= cur_end by {
                                if cur < k {
                                    assert(m1.contains_key(k));
                                }
                            }
                            lemma_cut_out_gap(m0, start, cur_end, ns);
                            assert forall|k: u64| #[trigger] m2.contains_key(k) && k < ns implies seg_end(
                                m2,
                                k,
                            ) <= ns by {
                            }
                        }
                        cur = ns;
                    } else {
                        proof {
                            let m2 = self@;
                            assert forall|k: u64| #[trigger] m2.contains_key(k) && k < end implies seg_end(
                                m2,
                                k,
                            ) <= cur by {
                                assert(m1.contains_key(k));
                            }
                            assert(points(m1) - span(cur as int, cur_end as int) =~= points(m0) - span(start as int, cur_end as int));
                            lemma_gap(m2, m0, start, cur_end, end);
                            lemma_valid_remove(m1, cur);
                            assert forall|k: u64| #[trigger] m0.contains_key(k) && start <= k && k < end implies seg_end(m0, k) <= cur_end by {
                                if cur < k {
                                    assert(m1.contains_key(k));
                                }
                            }
                            lemma_cut_out_gap(m0, start, cur_end, end);
                        }
                        return true;
                    }
                },
                None => {
                    proof {
                        let m2 = self@;
                        assert forall|k: u64| #[trigger] m2.contains_key(k) && k < end implies seg_end(
                            m2,
                            k,
                        ) <= cur by {
                            assert(m1.contains_key(k));
                        }
                        assert(points(m1) - span(cur as int, cur_end as int) =~= points(m0) - span(start as int, cur_end as int));
                        lemma_gap(m2, m0, start, cur_end, end);
                        lemma_valid_remove(m1, cur);
                        assert forall|k: u64| #[trigger] m0.contains_key(k) && start <= k && k < end implies seg_end(m0, k) <= cur_end by {
                            if cur < k {
                                assert(m1.contains_key(k));
                            }
                        }
                        lemma_cut_out_gap(m0, start, cur_end, end);
                    }
                    return true;
                },
            }
        }
    }

    /// `add_loosely`, where no segment starts in `bs+1..=new_end`: the base segment at
    /// `bs` (or a new one, where there is none) is extended to `new_end`.
    fn extend_base(
        &mut self,
        bs: u64,
        bz: u64,
        has_base: bool,
        new_end: u64,
        Ghost(m0): Ghost<Map<u64, u64>>,
        Ghost(start): Ghost<u64>,
    )
        requires
            old(self).wf(),
            old(self)@ == m0,
            bs <= start < new_end,
            has_base ==> m0.contains_key(bs) && m0[bs] == bz && start <= bs + bz && bs + bz
                < new_end,
            !has_base ==> bs == start && bz == 0 && !m0.contains_key(bs),
            forall|a: u64| #[trigger] m0.contains_key(a) && a < bs ==> seg_end(m0, a) <= bs,
            segs_canonical(m0) || !has_base ==> forall|a: u64| #[trigger] m0.contains_key(a) && a
                < bs ==> seg_end(m0, a) < bs,
            forall|b: u64| #[trigger] m0.contains_key(b) && bs < b ==> new_end < b,
            loose_base(m0, start) == bs,
        ensures
            final(self).wf(),
            final(self)@ == add_loose_map(m0, start, (new_end - start) as u64),
            points(final(self)@) == points(m0) + span(start as int, new_end as int),
            segs_canonical(m0) ==> segs_canonical(final(self)@),
    {
        let v = new_end - bs;
        map_insert(&mut self.tree, bs, v);
        proof {
            lemma_points_bounded(m0);
            let g0 = m0.remove(bs);
            if has_base {
                lemma_remove_seg(m0, bs);
            } else {
                lemma_remove_absent(m0, bs);
            }
            assert forall|a: u64| #[trigger] g0.contains_key(a) && a < bs implies seg_end(g0, a) <= bs by {
                assert(m0.contains_key(a));
            }
            assert forall|b: u64| #[trigger] g0.contains_key(b) && bs < b implies bs + v <= b by {
                assert(m0.contains_key(b));
            }
            if segs_canonical(m0) {
                assert forall|a: u64| #[trigger] g0.contains_key(a) && a < bs implies seg_end(g0, a)
                    < bs by {
                    assert(m0.contains_key(a));
                }
                assert forall|b: u64| #[trigger] g0.contains_key(b) && bs < b implies bs + v < b by {
                    assert(m0.contains_key(b));
                }
            }
            lemma_insert_fresh(g0, bs, v);
            assert(self@ =~= g0.insert(bs, v));
            assert(loose_keys(m0, bs, new_end) =~= Set::<u64>::empty());
            assert(self@ =~= m0.insert(bs, v));
            assert(points(self@) =~= points(m0) + span(start as int, new_end as int));
            lemma_points_bounded(self@);
        }
        self.space = self.space + (new_end - (bs + bz));
    }

    /// `add_loosely`, where `ns`, the first segment after the base, starts before
    /// `new_end`: every segment starting in `ns..=new_end` is swallowed by the base
    /// extended to `new_end`, and what the last of them held beyond `new_end` is added
    /// back.
    #[verifier::rlimit(60)]
    fn absorb(
        &mut self,
        bs: u64,
        bz: u64,
        has_base: bool,
        ns: u64,
        new_end: u64,
        Ghost(m0): Ghost<Map<u64, u64>>,
        Ghost(start): Ghost<u64>,
    )
        requires
            old(self).wf(),
            old(self)@ == m0,
            bs <= start < new_end,
            has_base ==> m0.contains_key(bs) && m0[bs] == bz && start <= bs + bz && bs + bz
                < new_end,
            !has_base ==> bs == start && bz == 0 && !m0.contains_key(bs),
            forall|a: u64| #[trigger] m0.contains_key(a) && a < bs ==> seg_end(m0, a) <= bs,
            segs_canonical(m0) || !has_base ==> forall|a: u64| #[trigger] m0.contains_key(a) && a
                < bs ==> seg_end(m0, a) < bs,
            m0.contains_key(ns),
            bs < ns < new_end,
            forall|b: u64| #[trigger] m0.contains_key(b) && bs < b ==> ns <= b,
            loose_base(m0, start) == bs,
        ensures
            final(self).wf(),
            final(self)@ == add_loose_map(m0, start, (new_end - start) as u64),
            points(final(self)@) == points(m0) + span(start as int, new_end as int),
            segs_canonical(m0) ==> segs_canonical(final(self)@),
    {
        let ghost g0 = m0.remove(bs);
        let ghost ks = key_span(ns, new_end);
        proof {
            lemma_points_bounded(m0);
            if has_base {
                lemma_remove_seg(m0, bs);
            } else {
                lemma_remove_absent(m0, bs);
            }
            lemma_valid_remove(m0, bs);
        }
        let mut space = self.space;
        if has_base {
            space = space - bz;
        }
        let v = new_end - bs;
        map_insert(&mut self.tree, bs, v);
        let removed = map_remove_span(&mut self.tree, ns, new_end);
        proof {
            assert(m0.insert(bs, v).restrict(ks) =~= g0.restrict(ks));
            assert forall|i: int| 0 <= i < removed.len() implies g0.contains_key(#[trigger] removed@[i].0)
                && g0[removed@[i].0] == removed@[i].1 by {
                assert(g0.restrict(ks).contains_key(removed@[i].0));
            }
        }
        space = drop_sizes(space, &removed, Ghost(g0));
        let ghost g = g0.remove_keys(keys_of(removed@));
        proof {
            // the keys removed are exactly those of `g0` in `ns..=new_end`
            assert forall|k: u64| #[trigger] keys_of(removed@).contains(k) implies g0.contains_key(k)
                && ks.contains(k) by {
                let j = choose|j: int| 0 <= j < removed@.len() && #[trigger] removed@[j].0 == k;
                assert(g0.restrict(ks).contains_key(removed@[j].0));
            }
            assert forall|k: u64| g0.contains_key(k) && ks.contains(k) implies #[trigger] keys_of(
                removed@,
            ).contains(k) by {
                assert(g0.restrict(ks).contains_key(k));
                let j = choose|j: int| 0 <= j < removed@.len() && #[trigger] removed@[j].0 == k;
            }
            assert(self@ =~= g.insert(bs, v));
            assert forall|a: u64| #[trigger] g.contains_key(a) && a < bs implies seg_end(g, a) <= bs by {
                assert(m0.contains_key(a));
            }
            assert forall|b: u64| #[trigger] g.contains_key(b) && bs < b implies new_end < b by {
                assert(m0.contains_key(b));
                assert(!ks.contains(b));
            }
            if segs_canonical(m0) {
                assert forall|a: u64| #[trigger] g.contains_key(a) && a < bs implies seg_end(g, a) < bs by {
                    assert(m0.contains_key(a));
                }
            }
            lemma_insert_fresh(g, bs, v);
            lemma_points_bounded(self@);
            assert(g0.restrict(ks).contains_key(ns));
            assert(removed@.len() > 0);
        }
        self.space = space + v;
        let n = removed.len();
        let (lk, lv) = removed[n - 1];
        let last_end = lk + lv;
        proof {
            assert(m0.contains_key(lk) && m0[lk] == lv);
            assert(lk <= new_end);
            // the last segment swallowed is the last one to start by `new_end`
            assert forall|k: u64| #[trigger] m0.contains_key(k) && k != bs && !g.contains_key(k)
                implies k <= lk by {
                assert(keys_of(removed@).contains(k));
                let j = choose|j: int| 0 <= j < removed@.len() && #[trigger] removed@[j].0 == k;
                if j < n - 1 {
                    assert(removed@[j].0 < removed@[n - 1].0);
                }
            }
        }
        let ghost ks = loose_keys(m0, bs, new_end);
        proof {
            assert(ks.contains(ns));
            assert(m0.contains_key(ns) && bs < ns && ns < new_end);
            assert(ks.contains(lk)) by {
                assert(g0.restrict(key_span(ns, new_end)).contains_key(lk));
            }
            assert forall|j: u64| #[trigger] ks.contains(j) implies j <= lk by {
                assert(m0.contains_key(j) && j != bs);
                if g.contains_key(j) {
                    assert(keys_of(removed@).contains(j));
                }
            }
            let ll = loose_last(m0, bs, new_end);
            assert(ks.contains(ll) && ll <= lk && lk <= ll);
            assert(m0.remove_keys(ks).insert(bs, v) =~= g.insert(bs, v)) by {
                assert forall|k: u64| #[trigger] ks.contains(k) implies keys_of(removed@).contains(k) by {
                    assert(g0.contains_key(k));
                }
            }
        }
        if last_end > new_end {
            let ghost m2 = self@;
            proof {
                assert forall|q: u64| !#[trigger] overlaps(m2, q, new_end as int, last_end as int) by {
                    if overlaps(m2, q, new_end as int, last_end as int) && q != bs {
                        assert(g.contains_key(q));
                        if q < bs {
                            assert(m0.contains_key(q));
                        } else {
                            assert(m0.contains_key(q) && m0.contains_key(lk));
                        }
                    }
                }
            }
            let r = self.add(new_end, last_end - new_end);
            proof {
                assert(r is Ok);
                assert(m2.contains_key(bs) && seg_end(m2, bs) == new_end);
                let tp = choose|tp: u64| #[trigger] m2.contains_key(tp) && seg_end(m2, tp) == new_end;
                if tp != bs {
                    assert(g.contains_key(tp));
                    if tp < bs {
                        assert(m0.contains_key(tp));
                    } else {
                        assert(m0.contains_key(tp));
                        assert(ks.contains(tp));
                    }
                }
                assert(merged_start(m2, new_end) == bs);
                assert(m2.contains_key(last_end as u64) == m0.contains_key(last_end as u64)) by {
                    if m0.contains_key(last_end as u64) {
                        assert(!ks.contains(last_end as u64));
                    }
                }
                assert(self@ =~= add_map(m2, new_end, (last_end - new_end) as u64));
                assert(self@ =~= add_loose_map(m0, start, (new_end - start) as u64));
                assert forall|p: int| #[trigger] points(m0).contains(p) implies (points(self@)).contains(p) by {
                    let k = choose|k: u64| #[trigger] in_seg(m0, k, p);
                    if g.contains_key(k) {
                        assert(in_seg(g, k, p));
                        assert(points(m2).contains(p));
                    } else if k == bs {
                        assert(points(m2).contains(p));
                    } else {
                        assert(k <= lk);
                        if k < lk {
                            assert(m0.contains_key(k) && m0.contains_key(lk));
                        }
                        assert(points(m2).contains(p) || span(new_end as int, last_end as int).contains(p));
                    }
                }
                assert forall|p: int| #[trigger] points(self@).contains(p) implies (points(m0) + span(
                    start as int,
                    new_end as int,
                )).contains(p) by {
                    if span(new_end as int, last_end as int).contains(p) {
                        assert(in_seg(m0, lk, p));
                    } else if span(bs as int, new_end as int).contains(p) {
                        if p < start {
                            assert(in_seg(m0, bs, p));
                        }
                    } else {
                        let k = choose|k: u64| #[trigger] in_seg(g, k, p);
                        assert(in_seg(m0, k, p));
                    }
                }
                assert(points(self@) =~= points(m0) + span(start as int, new_end as int));
            }
        } else {
            proof {
                assert(self@ =~= add_loose_map(m0, start, (new_end - start) as u64));
                assert forall|p: int| #[trigger] points(m0).contains(p) implies (points(self@)).contains(p) by {
                    let k = choose|k: u64| #[trigger] in_seg(m0, k, p);
                    if g.contains_key(k) {
                        assert(in_seg(g, k, p));
                    } else if k == bs {
                    } else {
                        assert(k <= lk);
                        if k < lk {
                            assert(m0.contains_key(k) && m0.contains_key(lk));
                        }
                    }
                }
                assert forall|p: int| #[trigger] points(self@).contains(p) implies (points(m0) + span(
                    start as int,
                    new_end as int,
                )).contains(p) by {
                    if span(bs as int, new_end as int).contains(p) {
                        if p < start {
                            assert(in_seg(m0, bs, p));
                        }
                    } else {
                        let k = choose|k: u64| #[trigger] in_seg(g, k, p);
                        assert(in_seg(m0, k, p));
                    }
                }
                assert(points(self@) =~= points(m0) + span(start as int, new_end as int));
            }
        }
    }
}

/// The keys of the entries `s`.
pub open spec fn keys_of(s: Seq<(u64, u64)>) -> Set<u64> {
    Set::new(|k: u64| exists|j: int| 0 <= j < s.len() && #[trigger] s[j].0 == k)
}

/// The number of points left after the segments `removed` (entries of `g0`, in
/// increasing key order) are dropped from `g0`, which covers `space` points.
fn drop_sizes(space: u64, removed: &Vec<(u64, u64)>, Ghost(g0): Ghost<Map<u64, u64>>) -> (r: u64)
    requires
        segs_valid(g0),
        space == points(g0).len(),
        forall|i: int, j: int| 0 <= i < j < removed.len() ==> removed@[i].0 < removed@[j].0,
        forall|i: int|
            0 <= i < removed.len() ==> g0.contains_key(#[trigger] removed@[i].0) && g0[removed@[i].0]
                == removed@[i].1,
    ensures
        r == points(g0.remove_keys(keys_of(removed@))).len(),
        segs_valid(g0.remove_keys(keys_of(removed@))),
        segs_canonical(g0) ==> segs_canonical(g0.remove_keys(keys_of(removed@))),
{
    let mut r = space;
    let mut i: usize = 0;
    let ghost mut g = g0;
    proof {
        assert(g0.remove_keys(keys_of(removed@.take(0))) =~= g0);
    }
    while i < removed.len()
        invariant
            0 <= i <= removed.len(),
            segs_valid(g0),
            segs_valid(g),
            segs_canonical(g0) ==> segs_canonical(g),
            r == points(g).len(),
            g == g0.remove_keys(keys_of(removed@.take(i as int))),
            forall|i: int, j: int| 0 <= i < j < removed.len() ==> removed@[i].0 < removed@[j].0,
            forall|i: int|
                0 <= i < removed.len() ==> g0.contains_key(#[trigger] removed@[i].0)
                    && g0[removed@[i].0] == removed@[i].1,
        decreases removed.len() - i,
    {
        let (k, v) = removed[i];
        proof {
            assert(g0.contains_key(removed@[i as int].0));
            assert(!keys_of(removed@.take(i as int)).contains(k)) by {
                if keys_of(removed@.take(i as int)).contains(k) {
                    let j = choose|j: int| 0 <= j < i && #[trigger] removed@.take(i as int)[j].0 == k;
                    assert(removed@[j].0 < removed@[i as int].0);
                }
            }
            assert(g.contains_key(k));
            lemma_remove_seg(g, k);
            lemma_points_bounded(g);
        }
        r = r - v;
        proof {
            g = g.remove(k);
            assert(keys_of(removed@.take(i + 1)) =~= keys_of(removed@.take(i as int)).insert(k)) by {
                assert forall|x: u64| keys_of(removed@.take(i + 1)).contains(x) implies keys_of(
                    removed@.take(i as int),
                ).insert(k).contains(x) by {
                    let j = choose|j: int| 0 <= j < i + 1 && #[trigger] removed@.take(i + 1)[j].0 == x;
                    if j < i {
                        assert(removed@.take(i as int)[j].0 == x);
                    }
                }
                assert forall|x: u64| keys_of(removed@.take(i as int)).insert(k).contains(x) implies keys_of(
                    removed@.take(i + 1),
                ).contains(x) by {
                    if x == k {
                        assert(removed@.take(i + 1)[i as int].0 == x);
                    } else {
                        let j = choose|j: int| 0 <= j < i && #[trigger] removed@.take(i as int)[j].0 == x;
                        assert(removed@.take(i + 1)[j].0 == x);
                    }
                }
            }
            assert(g =~= g0.remove_keys(keys_of(removed@.take(i + 1))));
        }
        i = i + 1;
    }
    proof {
        assert(removed@.take(removed.len() as int) =~= removed@);
    }
    r
}

/// Nothing in `m` covers `from..to`: removing `start..from` from what `m0` covers is
/// removing `start..to`.
proof fn lemma_gap(m: Map<u64, u64>, m0: Map<u64, u64>, start: u64, from: u64, to: u64)
    requires
        start <= from <= to,
        points(m) == points(m0) - span(start as int, from as int),
        forall|k: u64| #[trigger] m.contains_key(k) && k < to ==> seg_end(m, k) <= from,
    ensures
        points(m) == points(m0) - span(start as int, to as int),
{
    assert forall|p: int| #[trigger] points(m).contains(p) implies !span(from as int, to as int).contains(p) by {
        let k = choose|k: u64| #[trigger] in_seg(m, k, p);
    }
    assert(points(m) =~= points(m0) - span(start as int, to as int));
}

impl IntoIterator for RangeTree {
    type Item = (u64, u64);
    type IntoIter = std::vec::IntoIter<(u64, u64)>;

    /// The segments, as `(start, size)` in increasing order of start.
    fn into_iter(self) -> (it: std::vec::IntoIter<(u64, u64)>)
        ensures
            lists_entries(it.remaining(), self@),
    {
        broadcast use vstd::std_specs::vec::axiom_spec_into_iter;

        self.collect().into_iter()
    }
}

impl<'a> IntoIterator for &'a RangeTree {
    type Item = (u64, u64);
    type IntoIter = std::vec::IntoIter<(u64, u64)>;

    /// The segments, as `(start, size)` in increasing order of start.
    fn into_iter(self) -> (it: std::vec::IntoIter<(u64, u64)>)
        ensures
            lists_entries(it.remaining(), self@),
    {
        broadcast use vstd::std_specs::vec::axiom_spec_into_iter;

        self.collect().into_iter()
    }
}

} // verus!

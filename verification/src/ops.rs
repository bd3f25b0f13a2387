//! The observer that a range tree notifies as segments come and go, so that a second
//! structure (such as a tree of segments by size) can mirror it.
use vstd::prelude::*;
use crate::segments::seg_end;

verus! {

/// One notification: a segment `(start, size)` was added or removed.
#[derive(PartialEq, Eq, Structural, Clone, Copy, Debug)]
pub enum OpEvent {
    Add(u64, u64),
    Remove(u64, u64),
}

/// Callbacks for an allocator: when the range tree merges or splits segments, the
/// segments it adds and removes are reported here, so a size tree can follow.
///
/// An observer that is itself verified may declare that it records the calls it
/// receives (`records_calls`); for such an observer the contracts of
/// `RangeTree::add_with` and `RangeTree::remove_with` state exactly which calls they
/// make, in order. Of any other observer nothing is assumed.
pub trait RangeTreeOps {
    /// Whether this observer records, in `history`, the calls it receives.
    open spec fn records_calls(&self) -> bool {
        false
    }

    /// The calls received so far, for an observer that records them.
    open spec fn history(&self) -> Seq<OpEvent> {
        Seq::empty()
    }

    /// Callback for manage size tree
    fn op_add(&mut self, start: u64, size: u64)
        ensures
            old(self).records_calls() ==> final(self).records_calls() && final(self).history()
                == old(self).history().push(OpEvent::Add(start, size)),
    ;

    /// Callback for manage size tree
    fn op_remove(&mut self, start: u64, size: u64)
        ensures
            old(self).records_calls() ==> final(self).records_calls() && final(self).history()
                == old(self).history().push(OpEvent::Remove(start, size)),
    ;
}

/// The observer that does nothing; its history is kept in ghost state only.
pub struct DummyOps {
    calls: Ghost<Seq<OpEvent>>,
}

impl DummyOps {
    /// An observer with no calls recorded.
    pub fn new() -> (d: DummyOps)
        ensures
            d.records_calls(),
            d.history() == Seq::<OpEvent>::empty(),
    {
        DummyOps { calls: Ghost(Seq::empty()) }
    }
}

impl Default for DummyOps {
    fn default() -> (d: DummyOps)
        ensures
            d.records_calls(),
            d.history() == Seq::<OpEvent>::empty(),
    {
        DummyOps::new()
    }
}

impl RangeTreeOps for DummyOps {
    closed spec fn records_calls(&self) -> bool {
        true
    }

    closed spec fn history(&self) -> Seq<OpEvent> {
        self.calls@
    }

    fn op_add(&mut self, start: u64, size: u64) {
        self.calls = Ghost(self.calls@.push(OpEvent::Add(start, size)));
    }

    fn op_remove(&mut self, start: u64, size: u64) {
        self.calls = Ghost(self.calls@.push(OpEvent::Remove(start, size)));
    }
}

/// What a notification does to a mirror of the segments: `Add` sets a segment,
/// `Remove` drops the segment at that start.
pub open spec fn apply_event(m: Map<u64, u64>, e: OpEvent) -> Map<u64, u64> {
    match e {
        OpEvent::Add(k, v) => m.insert(k, v),
        OpEvent::Remove(k, _) => m.remove(k),
    }
}

/// A mirror after it has followed the notifications `es`, in order.
pub open spec fn apply_events(m: Map<u64, u64>, es: Seq<OpEvent>) -> Map<u64, u64>
    decreases es.len(),
{
    if es.len() == 0 {
        m
    } else {
        apply_event(apply_events(m, es.drop_last()), es.last())
    }
}

/// Following one more notification.
pub proof fn lemma_apply_events_push(m: Map<u64, u64>, es: Seq<OpEvent>, e: OpEvent)
    ensures
        apply_events(m, es.push(e)) == apply_event(apply_events(m, es), e),
{
    assert(es.push(e).drop_last() =~= es);
}

/// The segments of `m` as `(start, size)` pairs, as a tree of segments by size holds
/// them.
pub open spec fn entries(m: Map<u64, u64>) -> Set<(u64, u64)> {
    Set::new(|e: (u64, u64)| m.contains_key(e.0) && m[e.0] == e.1)
}

/// What a notification does to a set of `(start, size)` pairs: `Add(k, v)` puts in the
/// pair `(k, v)`, `Remove(k, v)` takes out the pair `(k, v)`.
pub open spec fn mirror_event(s: Set<(u64, u64)>, e: OpEvent) -> Set<(u64, u64)> {
    match e {
        OpEvent::Add(k, v) => s.insert((k, v)),
        OpEvent::Remove(k, v) => s.remove((k, v)),
    }
}

/// A set of `(start, size)` pairs after it has followed the notifications `es`, in order.
pub open spec fn mirror_events(s: Set<(u64, u64)>, es: Seq<OpEvent>) -> Set<(u64, u64)>
    decreases es.len(),
{
    if es.len() == 0 {
        s
    } else {
        mirror_event(mirror_events(s, es.drop_last()), es.last())
    }
}

/// Whether a set of pairs `t` can follow `e` exactly: a `Remove(k, v)` takes out a pair
/// that `t` holds, an `Add(k, v)` puts in a pair that `t` does not hold yet.
pub open spec fn mirror_step_exact(t: Set<(u64, u64)>, e: OpEvent) -> bool {
    match e {
        OpEvent::Add(k, v) => !t.contains((k, v)),
        OpEvent::Remove(k, v) => t.contains((k, v)),
    }
}

/// Whether a set of pairs that starts as `s` follows every notification of `es` exactly:
/// it is never told to remove a pair it does not hold, nor to add one it holds already.
pub open spec fn mirror_exact(s: Set<(u64, u64)>, es: Seq<OpEvent>) -> bool
    decreases es.len(),
{
    if es.len() == 0 {
        true
    } else {
        mirror_exact(s, es.drop_last()) && mirror_step_exact(
            mirror_events(s, es.drop_last()),
            es.last(),
        )
    }
}

/// Following one more notification with a set of pairs.
pub proof fn lemma_mirror_events_push(s: Set<(u64, u64)>, es: Seq<OpEvent>, e: OpEvent)
    ensures
        mirror_events(s, es.push(e)) == mirror_event(mirror_events(s, es), e),
        mirror_exact(s, es.push(e)) == (mirror_exact(s, es) && mirror_step_exact(
            mirror_events(s, es),
            e,
        )),
{
    assert(es.push(e).drop_last() =~= es);
}

/// The notifications `es` report the change from the segments `old` to the segments
/// `new` faithfully: each `Remove(k, v)` names a segment of `old` with its exact size,
/// each `Add(k, v)` a segment of `new` with its exact size, and a set of
/// `(start, size)` pairs that starts as the segments of `old` and follows `es` ends as
/// exactly the segments of `new`, never told on the way to remove a pair it does not
/// hold or to add one it holds already.
pub open spec fn reports_change(old: Map<u64, u64>, new: Map<u64, u64>, es: Seq<OpEvent>) -> bool {
    &&& forall|i: int|
        0 <= i < es.len() ==> match #[trigger] es[i] {
            OpEvent::Remove(k, v) => old.contains_key(k) && old[k] == v,
            OpEvent::Add(k, v) => new.contains_key(k) && new[k] == v,
        }
    &&& mirror_events(entries(old), es) == entries(new)
    &&& mirror_exact(entries(old), es)
}

/// Each notification of `es` is about a segment that changed between `old` and `new`: a
/// removed `(k, v)` is not a segment of `new`, an added `(k, v)` not a segment of `old`.
pub open spec fn reports_only_changes(old: Map<u64, u64>, new: Map<u64, u64>, es: Seq<OpEvent>) -> bool {
    forall|i: int|
        0 <= i < es.len() ==> match #[trigger] es[i] {
            OpEvent::Remove(k, v) => !(new.contains_key(k) && new[k] == v),
            OpEvent::Add(k, v) => !(old.contains_key(k) && old[k] == v),
        }
}

/// The `(start, size)` pairs that `es` reports removed.
pub open spec fn removed_pairs(es: Seq<OpEvent>) -> Set<(u64, u64)> {
    Set::new(|e: (u64, u64)| es.contains(OpEvent::Remove(e.0, e.1)))
}

/// The `(start, size)` pairs that `es` reports added.
pub open spec fn added_pairs(es: Seq<OpEvent>) -> Set<(u64, u64)> {
    Set::new(|e: (u64, u64)| es.contains(OpEvent::Add(e.0, e.1)))
}

/// A pair that is never reported removed stays in a set that follows the reports.
pub proof fn lemma_mirror_keeps(s: Set<(u64, u64)>, es: Seq<OpEvent>, x: (u64, u64))
    requires
        s.contains(x),
        !es.contains(OpEvent::Remove(x.0, x.1)),
    ensures
        mirror_events(s, es).contains(x),
    decreases es.len(),
{
    if es.len() > 0 {
        let d = es.drop_last();
        if d.contains(OpEvent::Remove(x.0, x.1)) {
            let i = choose|i: int| 0 <= i < d.len() && d[i] == OpEvent::Remove(x.0, x.1);
            assert(es[i] == d[i]);
        }
        lemma_mirror_keeps(s, d, x);
        assert(es[es.len() - 1] == es.last());
    }
}

/// A pair in a set that followed the reports, and not in it before, was reported added.
pub proof fn lemma_mirror_source(s: Set<(u64, u64)>, es: Seq<OpEvent>, x: (u64, u64))
    requires
        mirror_events(s, es).contains(x),
        !s.contains(x),
    ensures
        es.contains(OpEvent::Add(x.0, x.1)),
    decreases es.len(),
{
    if es.len() > 0 {
        let d = es.drop_last();
        let n = es.len() - 1;
        assert(es[n] == es.last());
        if es.last() != OpEvent::Add(x.0, x.1) {
            assert(mirror_events(s, d).contains(x));
            lemma_mirror_source(s, d, x);
            let i = choose|i: int| 0 <= i < d.len() && d[i] == OpEvent::Add(x.0, x.1);
            assert(es[i] == d[i]);
        }
    }
}

/// Where the reports take the segments `old` to `new` faithfully and each is about a
/// segment that changed, the pairs reported removed are exactly the segments that went
/// away, and those reported added exactly the segments that came.
pub proof fn lemma_reported_pairs(old: Map<u64, u64>, new: Map<u64, u64>, es: Seq<OpEvent>)
    requires
        reports_change(old, new, es),
        reports_only_changes(old, new, es),
    ensures
        removed_pairs(es) == entries(old).difference(entries(new)),
        added_pairs(es) == entries(new).difference(entries(old)),
{
    assert forall|x: (u64, u64)| #[trigger] removed_pairs(es).contains(x) <==> entries(old).difference(
        entries(new),
    ).contains(x) by {
        if removed_pairs(es).contains(x) {
            let i = choose|i: int| 0 <= i < es.len() && es[i] == OpEvent::Remove(x.0, x.1);
        }
        if entries(old).difference(entries(new)).contains(x) {
            if !es.contains(OpEvent::Remove(x.0, x.1)) {
                lemma_mirror_keeps(entries(old), es, x);
            }
        }
    }
    assert forall|x: (u64, u64)| #[trigger] added_pairs(es).contains(x) <==> entries(new).difference(
        entries(old),
    ).contains(x) by {
        if added_pairs(es).contains(x) {
            let i = choose|i: int| 0 <= i < es.len() && es[i] == OpEvent::Add(x.0, x.1);
        }
        if entries(new).difference(entries(old)).contains(x) {
            lemma_mirror_source(entries(old), es, x);
        }
    }
    assert(removed_pairs(es) =~= entries(old).difference(entries(new)));
    assert(added_pairs(es) =~= entries(new).difference(entries(old)));
}

/// What follows a prefix `h` in `h + es` is `es`.
pub proof fn lemma_skip_append(h: Seq<OpEvent>, es: Seq<OpEvent>)
    ensures
        (h + es).skip(h.len() as int) == es,
{
    assert((h + es).skip(h.len() as int) =~= es);
}

/// Taking a segment out of a map takes its pair out of its entries.
pub proof fn lemma_entries_remove(m: Map<u64, u64>, k: u64)
    requires
        m.contains_key(k),
    ensures
        entries(m).remove((k, m[k])) == entries(m.remove(k)),
{
    assert(entries(m).remove((k, m[k])) =~= entries(m.remove(k)));
}

/// Putting a segment at a fresh start into a map puts its pair into its entries.
pub proof fn lemma_entries_insert(m: Map<u64, u64>, k: u64, v: u64)
    requires
        !m.contains_key(k),
    ensures
        entries(m).insert((k, v)) == entries(m.insert(k, v)),
{
    assert(entries(m).insert((k, v)) =~= entries(m.insert(k, v)));
}

/// The start of the segment that ends exactly at `start`, where there is one.
pub open spec fn touching_before(m: Map<u64, u64>, start: u64) -> Option<u64> {
    if exists|p: u64| #[trigger] m.contains_key(p) && seg_end(m, p) == start {
        Some(choose|p: u64| #[trigger] m.contains_key(p) && seg_end(m, p) == start)
    } else {
        None
    }
}

/// The notifications of adding `start..start+size` where no segment overlaps it: the
/// segments that touch it are removed and one merged segment is added.
pub open spec fn add_events(m: Map<u64, u64>, start: u64, size: u64) -> Seq<OpEvent> {
    let end = (start + size) as u64;
    let next = m.contains_key(end);
    match touching_before(m, start) {
        None => if next {
            seq![OpEvent::Remove(end, m[end]), OpEvent::Add(start, (size + m[end]) as u64)]
        } else {
            seq![OpEvent::Add(start, size)]
        },
        Some(p) => if next {
            seq![
                OpEvent::Remove(p, m[p]),
                OpEvent::Remove(end, m[end]),
                OpEvent::Add(p, (m[p] + size + m[end]) as u64),
            ]
        } else {
            seq![OpEvent::Remove(p, m[p]), OpEvent::Add(p, (m[p] + size) as u64)]
        },
    }
}

/// The notifications of removing `start..start+size` from the segment `k` that holds
/// it: `k` is removed, and what is left of it on either side is added.
pub open spec fn cut_events(m: Map<u64, u64>, k: u64, start: u64, size: u64) -> Seq<OpEvent> {
    let end = start + size;
    let left = if k < start {
        seq![OpEvent::Add(k, (start - k) as u64)]
    } else {
        Seq::empty()
    };
    let right = if end < seg_end(m, k) {
        seq![OpEvent::Add(end as u64, (seg_end(m, k) - end) as u64)]
    } else {
        Seq::empty()
    };
    seq![OpEvent::Remove(k, m[k])] + left + right
}

} // verus!

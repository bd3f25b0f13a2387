//! Walking the segments of a range tree in order of their start.
use vstd::prelude::*;
use crate::segments::seg_end;
use crate::segmap::lists_entries;
use vstd::set_lib::lemma_len_subset;
use crate::tree::RangeTree;

verus! {

/// An end of a range of keys.
#[derive(PartialEq, Eq, Structural, Clone, Copy, Debug)]
pub enum Bound {
    Included(u64),
    Excluded(u64),
    Unbounded,
}

/// `k` lies on the near side of the upper bound `b`.
pub open spec fn below_bound(b: Bound, k: u64) -> bool {
    match b {
        Bound::Included(e) => k <= e,
        Bound::Excluded(e) => k < e,
        Bound::Unbounded => true,
    }
}

/// The segment that starts at `k` lies in the range from `start` to `end`: it ends
/// after the lower bound and starts below the upper bound.
pub open spec fn in_range(m: Map<u64, u64>, start: Bound, end: Bound, k: u64) -> bool {
    &&& match start {
        Bound::Included(s) | Bound::Excluded(s) => s < seg_end(m, k),
        Bound::Unbounded => true,
    }
    &&& below_bound(end, k)
}

/// The segments of a tree, from a lower key on, while their start lies below an upper
/// bound.
pub struct RangeIter<'a> {
    tree: &'a RangeTree,
    next_from: u64,
    end: Bound,
    not_empty: bool,
}

impl<'a> RangeIter<'a> {
    /// The tree is well formed.
    pub closed spec fn wf(&self) -> bool {
        self.tree.wf()
    }

    /// The segments walked.
    pub closed spec fn segments(&self) -> Map<u64, u64> {
        self.tree@
    }

    /// No segment that starts below this key is yielded any more.
    pub closed spec fn lower(&self) -> int {
        self.next_from as int
    }

    /// Only segments that start below this bound are yielded.
    pub closed spec fn upper(&self) -> Bound {
        self.end
    }

    /// The walk has ended: nothing more is yielded.
    pub closed spec fn exhausted(&self) -> bool {
        !self.not_empty
    }

    /// The segments still to be yielded: those from `lower()` on that start below
    /// `upper()`, until the walk has ended.
    pub open spec fn remaining(&self) -> Map<u64, u64> {
        if self.exhausted() {
            Map::empty()
        } else {
            self.segments().restrict(
                Set::new(|k: u64| self.lower() <= k && below_bound(self.upper(), k)),
            )
        }
    }

    /// The next segment: the one with the smallest start from `lower()` on, if it starts
    /// below `upper()`. Once `None` has been returned, `None` is returned from then on.
    pub fn next(&mut self) -> (r: Option<(u64, u64)>)
        requires
            old(self).wf(),
        ensures
            final(self).wf(),
            final(self).segments() == old(self).segments(),
            final(self).upper() == old(self).upper(),
            old(self).exhausted() ==> r is None,
            match r {
                Some((k, v)) => {
                    &&& old(self).remaining().contains_key(k)
                    &&& old(self).remaining()[k] == v
                    &&& forall|q: u64| #[trigger] old(self).remaining().contains_key(q) ==> k <= q
                    &&& final(self).remaining() == old(self).remaining().remove(k)
                },
                None => {
                    &&& old(self).remaining().dom() == Set::<u64>::empty()
                    &&& final(self).remaining().dom() == Set::<u64>::empty()
                },
            },
            match r {
                Some((k, v)) => {
                    &&& old(self).segments().contains_key(k)
                    &&& v == old(self).segments()[k]
                    &&& old(self).lower() <= k
                    &&& forall|q: u64| #[trigger]
                        old(self).segments().contains_key(q) && old(self).lower() <= q ==> k <= q
                    &&& below_bound(old(self).upper(), k)
                    &&& final(self).lower() == k + 1
                    &&& !final(self).exhausted()
                },
                None => {
                    &&& final(self).exhausted()
                    &&& old(self).exhausted() || forall|q: u64| #[trigger]
                        old(self).segments().contains_key(q) && old(self).lower() <= q
                            ==> !below_bound(old(self).upper(), q)
                },
            },
    {
        if self.not_empty {
            if let Some((start, size)) = self.tree.first_from(self.next_from) {
                let inside = match self.end {
                    Bound::Unbounded => true,
                    Bound::Excluded(end) => start < end,
                    Bound::Included(end) => start <= end,
                };
                if inside {
                    proof {
                        self.tree.lemma_wf();
                        assert(self.tree@.contains_key(start));
                    }
                    let ghost old_rem = self.remaining();
                    self.next_from = start + 1;
                    proof {
                        assert(self.remaining() =~= old_rem.remove(start));
                    }
                    return Some((start, size));
                }
                proof {
                    assert(self.remaining().dom() =~= Set::<u64>::empty());
                }
                self.not_empty = false;
                proof {
                    assert(self.remaining().dom() =~= Set::<u64>::empty());
                }
                return None;
            }
            proof {
                assert(self.remaining().dom() =~= Set::<u64>::empty());
            }
            self.not_empty = false;
        }
        proof {
            assert(self.remaining().dom() =~= Set::<u64>::empty());
        }
        None
    }

    /// All the segments still to be yielded, in order of their start.
    pub fn collect(self) -> (v: Vec<(u64, u64)>)
        requires
            self.wf(),
        ensures
            lists_entries(v@, self.remaining()),
    {
        let ghost r0 = self.remaining();
        let mut it = self;
        let mut v: Vec<(u64, u64)> = Vec::new();
        proof {
            assert(r0.remove_keys(r0.dom()) =~= Map::empty());
            it.tree.lemma_wf();
        }
        loop
            invariant
                it.wf(),
                it.segments().dom().finite(),
                lists_entries(v@, r0.remove_keys(it.remaining().dom())),
                forall|k: u64| #[trigger]
                    it.remaining().contains_key(k) ==> r0.contains_key(k) && r0[k]
                        == it.remaining()[k],
                forall|i: int, k: u64|
                    0 <= i < v.len() && #[trigger] it.remaining().contains_key(k) ==> #[trigger] v@[i].0
                        < k,
            ensures
                lists_entries(v@, r0),
            decreases it.remaining().dom().len(),
        {
            let ghost rem = it.remaining();
            let ghost v0 = v@;
            proof {
                lemma_len_subset(rem.dom(), it.segments().dom());
            }
            match it.next() {
                Some((k, size)) => {
                    v.push((k, size));
                    proof {
                        let done = r0.remove_keys(it.remaining().dom());
                        let done0 = r0.remove_keys(rem.dom());
                        assert(done =~= done0.insert(k, size));
                        assert(v@ == v0.push((k, size)));
                        assert forall|q: u64| done.contains_key(q) implies exists|i: int|
                            0 <= i < v@.len() && #[trigger] v@[i].0 == q by {
                            if q == k {
                                assert(v@[v0.len() as int].0 == q);
                            } else {
                                assert(done0.contains_key(q));
                                let i = choose|i: int| 0 <= i < v0.len() && #[trigger] v0[i].0 == q;
                                assert(v@[i].0 == q);
                            }
                        }
                        assert forall|i: int, j: int| 0 <= i < j < v@.len() implies v@[i].0 < v@[j].0 by {
                            if j == v0.len() {
                                assert(rem.contains_key(k));
                            }
                        }
                    }
                },
                None => {
                    proof {
                        assert(r0.remove_keys(rem.dom()) =~= r0);
                    }
                    break;
                },
            }
        }
        v
    }
}

impl RangeTree {
    /// return only when segment overlaps with [start, start+size]
    ///
    /// The walk starts at the segment that holds the lower bound, if one does, and
    /// otherwise at the first segment after it.
    pub fn range(&self, start: Bound, end: Bound) -> (it: RangeIter<'_>)
        requires
            self.wf(),
        ensures
            it.wf(),
            it.segments() == self@,
            it.upper() == end,
            !it.exhausted(),
            it.remaining() == self@.restrict(Set::new(|k: u64| in_range(self@, start, end, k))),
            match start {
                Bound::Included(s) | Bound::Excluded(s) => forall|k: u64| #[trigger]
                    self@.contains_key(k) ==> (it.lower() <= k <==> s < seg_end(self@, k)),
                Bound::Unbounded => it.lower() == 0,
            },
    {
        let from = match start {
            Bound::Included(s) | Bound::Excluded(s) => {
                let mut from = s;
                let below = self.last_below(s);
                proof {
                    self.lemma_wf();
                }
                if let Some((pre_start, pre_size)) = below {
                    proof {
                        assert(self@.contains_key(pre_start));
                    }
                    if pre_start + pre_size > s {
                        from = pre_start;
                    }
                }
                proof {
                    assert forall|k: u64| #[trigger] self@.contains_key(k) implies (from <= k <==> s
                        < seg_end(self@, k)) by {
                        if k < s {
                            let (pre_start, pre_size) = below->0;
                            assert(k <= pre_start);
                            if k < pre_start {
                                assert(self@.contains_key(k) && self@.contains_key(pre_start));
                            }
                        }
                    }
                }
                from
            },
            Bound::Unbounded => 0,
        };
        let it = RangeIter { tree: self, next_from: from, end, not_empty: true };
        proof {
            assert(it.remaining() =~= self@.restrict(
                Set::new(|k: u64| in_range(self@, start, end, k)),
            ));
        }
        it
    }

    /// All the segments, in order of their start.
    pub fn iter(&self) -> (it: RangeIter<'_>)
        requires
            self.wf(),
        ensures
            it.wf(),
            it.segments() == self@,
            it.upper() == Bound::Unbounded,
            !it.exhausted(),
            it.lower() == 0,
            it.remaining() == self@,
    {
        let it = self.range(Bound::Unbounded, Bound::Unbounded);
        proof {
            assert(it.remaining() =~= self@);
        }
        it
    }
}

} // verus!

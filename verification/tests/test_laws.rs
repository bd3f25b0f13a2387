use std::collections::BTreeMap as StdMap;
use std::collections::BTreeSet;

use range_tree_rs::{Bound, DummyOps, OpEvent, RangeIter, RangeTree, RangeTreeOps};

/// Keeps a copy of the segments from the notifications alone, and the notifications.
struct Mirror {
    segs: StdMap<u64, u64>,
    log: Vec<OpEvent>,
}

impl Mirror {
    fn new() -> Self {
        Mirror { segs: StdMap::new(), log: Vec::new() }
    }

    fn as_vec(&self) -> Vec<(u64, u64)> {
        self.segs.iter().map(|(k, v)| (*k, *v)).collect()
    }
}

impl RangeTreeOps for Mirror {
    fn op_add(&mut self, start: u64, size: u64) {
        self.segs.insert(start, size);
        self.log.push(OpEvent::Add(start, size));
    }

    fn op_remove(&mut self, start: u64, size: u64) {
        self.segs.remove(&start);
        self.log.push(OpEvent::Remove(start, size));
    }
}

fn covered(rt: &RangeTree) -> BTreeSet<u64> {
    let mut s = BTreeSet::new();
    for (start, size) in rt.collect() {
        for p in start..start + size {
            s.insert(p);
        }
    }
    s
}

fn assert_canonical(rt: &RangeTree) {
    let v = rt.collect();
    for w in v.windows(2) {
        assert!(w[0].0 + w[0].1 < w[1].0, "segments {:?} and {:?} touch", w[0], w[1]);
    }
}

fn drain(mut it: RangeIter<'_>) -> Vec<(u64, u64)> {
    let mut v = Vec::new();
    while let Some(item) = it.next() {
        v.push(item);
    }
    v
}

fn sample() -> RangeTree {
    let mut rt = RangeTree::new();
    rt.add(10, 5).unwrap();
    rt.add(20, 10).unwrap();
    rt.add(40, 3).unwrap();
    rt.add(60, 20).unwrap();
    rt
}

#[test]
fn space_is_sum_of_sizes_and_points() {
    let mut rt = sample();
    rt.add_loosely(12, 30);
    rt.remove_loosely(25, 2);
    let total: u64 = rt.collect().iter().map(|(_, z)| *z).sum();
    assert_eq!(total, rt.get_space());
    assert_eq!(covered(&rt).len() as u64, rt.get_space());
    assert_eq!(rt.collect(), vec![(10, 15), (27, 16), (60, 20)]);
    assert_eq!(rt.get_space(), 51);
}

#[test]
fn add_then_remove_restores() {
    for (start, size) in [(0u64, 5u64), (15, 5), (30, 10), (16, 2), (43, 17), (80, 1)] {
        let mut rt = sample();
        let before = rt.collect();
        let space = rt.get_space();
        rt.add(start, size).unwrap();
        assert_eq!(rt.get_space(), space + size);
        rt.remove(start, size).unwrap();
        assert_eq!(rt.collect(), before);
        assert_eq!(rt.get_space(), space);
    }
}

#[test]
fn remove_then_add_restores() {
    for (start, size) in [(10u64, 5u64), (11, 2), (20, 1), (29, 1), (60, 20), (65, 10)] {
        let mut rt = sample();
        let before = rt.collect();
        rt.remove(start, size).unwrap();
        rt.add(start, size).unwrap();
        assert_eq!(rt.collect(), before);
    }
}

#[test]
fn add_reports_leftmost_overlap() {
    let mut rt = sample();
    // overlaps 20:10 and 40:3: the leftmost is reported
    assert_eq!(rt.add(25, 20), Err((20, 10)));
    // overlaps 10:5 from the left side
    assert_eq!(rt.add(5, 6), Err((10, 5)));
    // starts inside 40:3
    assert_eq!(rt.add(41, 1), Err((40, 3)));
    // exactly an existing start
    assert_eq!(rt.add(60, 1), Err((60, 20)));
    assert_eq!(rt.collect(), sample().collect());
}

#[test]
fn add_merges_touching_segments() {
    let mut rt = sample();
    rt.add(15, 5).unwrap();
    assert_eq!(rt.collect(), vec![(10, 20), (40, 3), (60, 20)]);
    rt.add(43, 17).unwrap();
    assert_eq!(rt.collect(), vec![(10, 20), (40, 40)]);
    rt.add(5, 5).unwrap();
    assert_eq!(rt.collect(), vec![(5, 25), (40, 40)]);
    assert_eq!(rt.get_space(), 65);
    assert_canonical(&rt);
}

#[test]
fn remove_results() {
    let mut rt = sample();
    // nothing holds 16
    assert_eq!(rt.remove(16, 1), Err(None));
    // 20:10 holds 25 but not 25..35
    assert_eq!(rt.remove(25, 10), Err(Some((20, 10))));
    // the start of a segment, past its end
    assert_eq!(rt.remove(40, 4), Err(Some((40, 3))));
    assert_eq!(rt.collect(), sample().collect());
    // front, back, middle, whole
    rt.remove(10, 2).unwrap();
    rt.remove(28, 2).unwrap();
    rt.remove(61, 1).unwrap();
    rt.remove(40, 3).unwrap();
    assert_eq!(rt.collect(), vec![(12, 3), (20, 8), (60, 1), (62, 18)]);
    assert_eq!(rt.get_space(), 30);
}

#[test]
fn remove_of_nothing_splits_a_segment() {
    let mut rt = RangeTree::new();
    rt.add(0, 15).unwrap();
    rt.remove(7, 0).unwrap();
    assert_eq!(rt.collect(), vec![(0, 7), (7, 8)]);
    assert_eq!(rt.get_space(), 15);
    assert!(rt.remove_loosely(3, 0));
    assert_eq!(rt.collect(), vec![(0, 3), (3, 4), (7, 8)]);
    assert_eq!(rt.get_space(), 15);
    assert!(!rt.remove_loosely(20, 0));
    // touching segments: each loses exactly its points in 5..9
    assert!(rt.remove_loosely(5, 4));
    assert_eq!(rt.collect(), vec![(0, 3), (3, 2), (9, 6)]);
    assert_eq!(rt.get_space(), 11);
}

#[test]
fn loose_add_on_touching_segments() {
    let mut rt = RangeTree::new();
    rt.add(0, 15).unwrap();
    rt.add(20, 5).unwrap();
    rt.remove(7, 0).unwrap();
    rt.remove(22, 0).unwrap();
    assert_eq!(rt.collect(), vec![(0, 7), (7, 8), (20, 2), (22, 3)]);
    // already covered: nothing changes
    rt.add_loosely(3, 2);
    assert_eq!(rt.collect(), vec![(0, 7), (7, 8), (20, 2), (22, 3)]);
    // the only segment reached starts at the end: it alone is merged
    let mut one = RangeTree::new();
    one.add(0, 15).unwrap();
    one.add(20, 5).unwrap();
    one.remove(7, 0).unwrap();
    one.remove(22, 0).unwrap();
    one.add_loosely(17, 3);
    assert_eq!(one.collect(), vec![(0, 7), (7, 8), (17, 5), (22, 3)]);
    assert_eq!(one.get_space(), 23);
    // a swallowed segment runs past the end: the segment touching it is merged too
    rt.add_loosely(16, 5);
    assert_eq!(rt.collect(), vec![(0, 7), (7, 8), (16, 9)]);
    assert_eq!(rt.get_space(), 24);
}

#[test]
fn loose_add_is_union() {
    for (start, size) in [(0u64, 100u64), (12, 9), (14, 30), (30, 10), (5, 5), (43, 17), (79, 3)] {
        let mut rt = sample();
        let mut expect = covered(&rt);
        for p in start..start + size {
            expect.insert(p);
        }
        rt.add_loosely(start, size);
        assert_eq!(covered(&rt), expect);
        assert_eq!(rt.get_space(), expect.len() as u64);
        assert_canonical(&rt);
    }
}

#[test]
fn loose_remove_is_difference() {
    for (start, size) in [(0u64, 100u64), (12, 9), (14, 30), (30, 10), (5, 5), (43, 17), (79, 3)] {
        let mut rt = sample();
        let before = covered(&rt);
        let mut expect = before.clone();
        for p in start..start + size {
            expect.remove(&p);
        }
        let touched = expect.len() != before.len();
        let r = rt.remove_loosely(start, size);
        assert_eq!(r, touched);
        assert_eq!(covered(&rt), expect);
        assert_eq!(rt.get_space(), expect.len() as u64);
        assert_canonical(&rt);
    }
}

#[test]
fn notifications_mirror_the_tree() {
    let mut rt = RangeTree::new();
    let mut mirror = Mirror::new();
    for (start, size) in [(10u64, 5u64), (20, 10), (15, 5), (40, 3), (30, 10), (50, 5)] {
        rt.add_with(start, size, &mut mirror).unwrap();
        assert_eq!(mirror.as_vec(), rt.collect());
    }
    for (start, size) in [(11u64, 2u64), (10, 1), (50, 5), (41, 2), (13, 10)] {
        rt.remove_with(start, size, &mut mirror).unwrap();
        assert_eq!(mirror.as_vec(), rt.collect());
    }
    // a failed add notifies nothing
    let n = mirror.log.len();
    assert!(rt.add_with(25, 2, &mut mirror).is_err());
    assert_eq!(mirror.log.len(), n);
    // removal of nothing notifies nothing
    assert_eq!(rt.remove_with(5, 2, &mut mirror), Err(None));
    assert_eq!(mirror.log.len(), n);
}

#[test]
fn notifications_of_one_add() {
    let mut rt = RangeTree::new();
    let mut mirror = Mirror::new();
    rt.add_with(0, 5, &mut mirror).unwrap();
    rt.add_with(10, 5, &mut mirror).unwrap();
    mirror.log.clear();
    rt.add_with(5, 5, &mut mirror).unwrap();
    assert_eq!(
        mirror.log,
        vec![OpEvent::Remove(0, 5), OpEvent::Remove(10, 5), OpEvent::Add(0, 15)]
    );
    mirror.log.clear();
    rt.remove_with(3, 4, &mut mirror).unwrap();
    assert_eq!(
        mirror.log,
        vec![OpEvent::Remove(0, 15), OpEvent::Add(0, 3), OpEvent::Add(7, 8)]
    );
}

#[test]
fn failed_remove_reports_nothing() {
    let mut rt = RangeTree::new();
    let mut mirror = Mirror::new();
    rt.add_with(0, 4, &mut mirror).unwrap();
    mirror.log.clear();
    assert_eq!(rt.remove_with(2, 4, &mut mirror), Err(Some((0, 4))));
    assert_eq!(mirror.log, vec![]);
    assert_eq!(rt.collect(), vec![(0, 4)]);
    assert_eq!(mirror.as_vec(), rt.collect());
    assert_eq!(rt.remove_with(0, 5, &mut mirror), Err(Some((0, 4))));
    assert_eq!(mirror.log, vec![]);
    assert_eq!(mirror.as_vec(), rt.collect());
}

#[test]
fn range_starts_at_the_segment_holding_the_bound() {
    let rt = sample();
    assert_eq!(drain(rt.range(Bound::Included(12), Bound::Unbounded)), rt.collect());
    assert_eq!(
        drain(rt.range(Bound::Excluded(15), Bound::Excluded(60))),
        vec![(20, 10), (40, 3)]
    );
    assert_eq!(
        drain(rt.range(Bound::Included(29), Bound::Included(60))),
        vec![(20, 10), (40, 3), (60, 20)]
    );
    assert_eq!(drain(rt.range(Bound::Included(30), Bound::Excluded(40))), vec![]);
    assert_eq!(drain(rt.range(Bound::Included(100), Bound::Unbounded)), vec![]);
    let mut it = rt.range(Bound::Included(79), Bound::Unbounded);
    assert_eq!(it.next(), Some((60, 20)));
    assert_eq!(it.next(), None);
    assert_eq!(it.next(), None);
    assert_eq!(drain(rt.iter()), rt.collect());
    assert_eq!(rt.iter().collect(), rt.collect());
    assert_eq!(
        rt.range(Bound::Included(12), Bound::Included(40)).collect(),
        vec![(10, 5), (20, 10), (40, 3)]
    );
    let mut it = rt.range(Bound::Excluded(14), Bound::Unbounded);
    assert_eq!(it.next(), Some((10, 5)));
    assert_eq!(it.collect(), vec![(20, 10), (40, 3), (60, 20)]);
}

#[test]
fn small_accessors() {
    let mut rt = RangeTree::new();
    assert!(rt.is_empty());
    assert_eq!(rt.len(), 0);
    assert_eq!(rt.collect(), vec![]);
    rt.add_abs(3, 9).unwrap();
    assert!(!rt.is_empty());
    assert_eq!(rt.len(), 1);
    assert_eq!(rt.get_space(), 6);
    assert!(rt.memory_used() >= 128);
    assert_eq!(rt.memory_used() % 128, 0);
    rt.validate();
    assert_eq!(rt.add_abs(8, 10), Err((3, 6)));
    let mut ops = DummyOps::default();
    rt.add_with(9, 1, &mut ops).unwrap();
    assert_eq!(rt.into_iter().collect::<Vec<(u64, u64)>>(), vec![(3, 7)]);
}

#[test]
fn many_segments() {
    let mut rt = RangeTree::new();
    for i in 0..2000u64 {
        rt.add(i * 4, 2).unwrap();
    }
    assert_eq!(rt.len(), 2000);
    assert_eq!(rt.get_space(), 4000);
    for i in 0..2000u64 {
        rt.add(i * 4 + 2, 1).unwrap();
    }
    assert_eq!(rt.len(), 2000);
    rt.add_loosely(0, 8000);
    assert_eq!(rt.collect(), vec![(0, 8000)]);
    rt.validate();
    assert!(rt.remove_loosely(100, 7800));
    assert_eq!(rt.collect(), vec![(0, 100), (7900, 100)]);
    assert_eq!(rt.get_space(), 200);
    let mut many = RangeTree::new();
    for i in 0..1000u64 {
        many.add(i * 3, 1).unwrap();
    }
    assert_eq!(many.memory_used() % 128, 0);
    assert!(many.memory_used() >= 128 * ((1000 + 13) / 14));
}

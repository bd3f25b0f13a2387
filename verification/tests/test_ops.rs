use embed_collections::btree::BTreeMap;
use range_tree_rs::{Bound, RangeTree, RangeTreeOps};

// Test RangeTreeOps using a Size Tree pattern
pub struct TestAllocator {
    // Key is (size, start)
    pub size_tree: BTreeMap<(u64, u64), u8>,
}

impl TestAllocator {
    pub fn new() -> Self {
        TestAllocator { size_tree: BTreeMap::new() }
    }

    /// Simulates slab allocation's Best-fit selection
    pub fn find_best_fit(&self, min_size: u64) -> Option<(u64, u64)> {
        self.size_tree.range((min_size, 0)..).next().map(|(&key, _)| key)
    }
}

impl RangeTreeOps for TestAllocator {
    fn op_add(&mut self, start: u64, size: u64) {
        self.size_tree.insert((size, start), 0);
    }

    fn op_remove(&mut self, start: u64, size: u64) {
        self.size_tree.remove(&(size, start));
    }
}

#[test]
fn range_tree_ops_size_tree_linkage() {
    let mut ms_tree = RangeTree::new();
    let mut alloc = TestAllocator::new();

    assert!(ms_tree.range(Bound::Included(0), Bound::Excluded(10)).next().is_none());
    assert_eq!(0, ms_tree.get_space());

    // 1. Add discrete segments
    ms_tree.add_with(100, 50, &mut alloc).unwrap();
    ms_tree.add_with(200, 30, &mut alloc).unwrap();
    ms_tree.add_with(300, 100, &mut alloc).unwrap();

    assert_eq!(180, ms_tree.get_space());
    assert_eq!(3, ms_tree.len());

    // 2. Best-fit allocation logic through size_tree
    let best_fit = alloc.find_best_fit(25).unwrap();
    assert_eq!(best_fit, (30, 200));

    let best_fit = alloc.find_best_fit(40).unwrap();
    assert_eq!(best_fit, (50, 100));

    let best_fit = alloc.find_best_fit(60).unwrap();
    assert_eq!(best_fit, (100, 300));

    // 3. Verify removal synchronization
    ms_tree.remove_with(100, 50, &mut alloc).unwrap();
    assert_eq!(130, ms_tree.get_space());
    assert_eq!(2, ms_tree.len());

    let best_fit = alloc.find_best_fit(40).unwrap();
    assert_eq!(best_fit, (100, 300));
}

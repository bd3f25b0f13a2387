# range_tree_rs

A range tree: a set of disjoint segments `[start, start + size)` of `u64` points,
kept as `start -> size` in the B+ tree map of `embed_collections`, that merges
segments which touch. It is meant for allocators: `add_with` and `remove_with`
report each segment they add or remove to a `RangeTreeOps` observer, so that a
second tree (of segments by size) can follow.

The library is verified with Verus.

- `src/segmap.rs` — the calls made on the `embed_collections` map, with the
  contracts they are trusted to meet.
- `src/segments.rs` — the model: a map from start to size, the points it covers,
  validity (no overlap) and canonical form (no two segments touch).
- `src/ops.rs` — the observer trait, its notifications, and what they do to a
  mirror of the segments.
- `src/merge.rs` — what adding and cutting a segment does to the model.
- `src/tree.rs` — `RangeTree` and its operations.
- `src/range_iter.rs` — walking the segments in order.
- `src/laws.rs` — properties across calls: the space is the sum of the sizes, what
  `collect` lists of a canonical tree, and an `add` and a `remove` of the same range
  undo one another.
- `app/lib.rs` — `Iterator` and `RangeBounds` conveniences over the library.

//! The ordered map of `embed_collections` that stores the segments, seen through
//! the few calls the range tree makes on it.
//!
//! Every item here is trusted: Verus believes these contracts, which restate what the
//! `embed_collections::btree::BTreeMap` source shows of each call.
use vstd::prelude::*;
use embed_collections::btree::BTreeMap;

verus! {

#[verifier::external_type_specification]
#[verifier::external_body]
#[verifier::reject_recursive_types(K)]
#[verifier::reject_recursive_types(V)]
pub struct ExBTreeMap<K: Ord + Clone + Sized, V: Sized>(BTreeMap<K, V>);

/// What an ordered map of the outside crate holds: its keys and their values.
pub uninterp spec fn contents(m: BTreeMap<u64, u64>) -> Map<u64, u64>;

/// `s` lists the entries of `m` in strictly increasing key order, each exactly once.
pub open spec fn lists_entries(s: Seq<(u64, u64)>, m: Map<u64, u64>) -> bool {
    &&& forall|i: int, j: int| 0 <= i < j < s.len() ==> s[i].0 < s[j].0
    &&& forall|i: int|
        0 <= i < s.len() ==> m.contains_key(#[trigger] s[i].0) && m[s[i].0] == s[i].1
    &&& forall|k: u64| m.contains_key(k) ==> exists|i: int| 0 <= i < s.len() && #[trigger] s[i].0 == k
}

/// The keys `lo..=hi`.
pub open spec fn key_span(lo: u64, hi: u64) -> Set<u64> {
    Set::new(|k: u64| lo <= k && k <= hi)
}

/// `BTreeMap::new`: a map that holds nothing.
#[verifier::external_body]
pub(crate) fn map_new() -> (map: BTreeMap<u64, u64>)
    ensures
        contents(map).dom() == Set::<u64>::empty(),
{
    BTreeMap::new()
}

/// `BTreeMap::len`: the number of keys held.
#[verifier::external_body]
pub(crate) fn map_len(m: &BTreeMap<u64, u64>) -> (n: usize)
    ensures
        n == contents(*m).len(),
{
    m.len()
}

/// `BTreeMap::is_empty`: whether no key is held.
#[verifier::external_body]
pub(crate) fn map_is_empty(m: &BTreeMap<u64, u64>) -> (b: bool)
    ensures
        b == (contents(*m).len() == 0),
{
    m.is_empty()
}

/// `BTreeMap::get`: the value held under `k`, if any.
#[verifier::external_body]
pub(crate) fn map_get(m: &BTreeMap<u64, u64>, k: u64) -> (r: Option<u64>)
    ensures
        r == (if contents(*m).contains_key(k) {
            Some(contents(*m)[k])
        } else {
            None
        }),
{
    m.get(&k).copied()
}

/// `BTreeMap::insert`: `k` now holds `v`; the value it held before, if any, comes back.
#[verifier::external_body]
pub(crate) fn map_insert(m: &mut BTreeMap<u64, u64>, k: u64, v: u64) -> (r: Option<u64>)
    ensures
        contents(*final(m)) == contents(*old(m)).insert(k, v),
        r == (if contents(*old(m)).contains_key(k) {
            Some(contents(*old(m))[k])
        } else {
            None
        }),
{
    m.insert(k, v)
}

/// `BTreeMap::remove`: `k` is no longer held; the value it held, if any, comes back.
#[verifier::external_body]
pub(crate) fn map_remove(m: &mut BTreeMap<u64, u64>, k: u64) -> (r: Option<u64>)
    ensures
        contents(*final(m)) == contents(*old(m)).remove(k),
        r == (if contents(*old(m)).contains_key(k) {
            Some(contents(*old(m))[k])
        } else {
            None
        }),
{
    m.remove(&k)
}

/// `BTreeMap::cursor(&k)` followed by `Cursor::next`: the entry with the smallest key
/// that is at least `k`, if there is one.
#[verifier::external_body]
pub(crate) fn map_ceiling(m: &BTreeMap<u64, u64>, k: u64) -> (r: Option<(u64, u64)>)
    ensures
        match r {
            Some((a, v)) => {
                &&& contents(*m).contains_key(a)
                &&& contents(*m)[a] == v
                &&& k <= a
                &&& forall|q: u64| contents(*m).contains_key(q) && k <= q ==> a <= q
            },
            None => forall|q: u64| contents(*m).contains_key(q) ==> q < k,
        },
{
    let mut cursor = m.cursor(&k);
    cursor.next().map(|(a, v)| (*a, *v))
}

/// `BTreeMap::cursor(&k)` followed by `Cursor::peek_backward`: the entry with the
/// largest key below `k`, if there is one.
#[verifier::external_body]
pub(crate) fn map_below(m: &BTreeMap<u64, u64>, k: u64) -> (r: Option<(u64, u64)>)
    ensures
        match r {
            Some((a, v)) => {
                &&& contents(*m).contains_key(a)
                &&& contents(*m)[a] == v
                &&& a < k
                &&& forall|q: u64| contents(*m).contains_key(q) && q < k ==> q <= a
            },
            None => forall|q: u64| contents(*m).contains_key(q) ==> k <= q,
        },
{
    m.cursor(&k).peek_backward().map(|(a, v)| (*a, *v))
}

/// `BTreeMap::remove_range_with(lo..=hi, ..)`: every key in `lo..=hi` is removed; the
/// callback hands out each removed entry, in increasing key order, and `push_entry`
/// collects them in that order.
#[verifier::external_body]
pub(crate) fn map_remove_span(m: &mut BTreeMap<u64, u64>, lo: u64, hi: u64) -> (removed: Vec<
    (u64, u64),
>)
    requires
        lo <= hi,
    ensures
        contents(*final(m)) == contents(*old(m)).remove_keys(key_span(lo, hi)),
        lists_entries(removed@, contents(*old(m)).restrict(key_span(lo, hi))),
{
    let mut removed = Vec::new();
    m.remove_range_with(lo..=hi, |k, v| push_entry(&mut removed, *k, *v));
    removed
}

/// Appends the entry `(k, v)` to `out`.
pub(crate) fn push_entry(out: &mut Vec<(u64, u64)>, k: u64, v: u64)
    ensures
        final(out)@ == old(out)@.push((k, v)),
{
    out.push((k, v));
}

/// `BTreeMap::validate`: checks the internal structure of the tree, and panics only
/// where that structure is broken. Nothing is stated of it.
#[verifier::external_body]
pub(crate) fn map_validate(m: &BTreeMap<u64, u64>) {
    m.validate()
}

/// `BTreeMap::memory_used`: the bytes taken by the nodes of the tree, the number of
/// nodes times the node size (four cache lines: 256 or 128 bytes, by target). Stated:
/// it is a multiple of 128, and it is at least 128 bytes for every 14 keys or part of
/// them, as a leaf node holds at most 14 `u64` keys (6 on targets with 128-byte
/// nodes). How many nodes there are beyond that depends on the shape of the tree, not
/// on what it holds, and is left unsaid.
#[verifier::external_body]
pub(crate) fn map_memory_used(m: &BTreeMap<u64, u64>) -> (bytes: usize)
    ensures
        bytes % 128 == 0,
        bytes >= 128 * ((contents(*m).len() + 13) / 14),
{
    m.memory_used()
}

} // verus!

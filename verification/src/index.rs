//! The ordered index of the pages' extents.
//!
//! The index is an `indexset::BTreeSet` of `(end, start, count)`, one item
//! for each page. What the set's methods do is taken on trust from the
//! crate; every function here that calls one says what it takes of it.

use indexset::BTreeSet;
use vstd::prelude::*;

verus! {

/// `indexset::BTreeSet`, the ordered set that holds the index.
#[verifier::external_type_specification]
#[verifier::external_body]
#[verifier::reject_recursive_types(T)]
pub struct ExBTreeSet<T>(BTreeSet<T>) where T: Ord;

/// The items that an index holds: the extent of each page as `(end, start,
/// count)`.
pub uninterp spec fn index_keys(index: BTreeSet<(u32, u32, u32)>) -> Set<(u32, u32, u32)>;

/// The order of extents: by end, then by start, then by count.
pub open spec fn key_le(a: (u32, u32, u32), b: (u32, u32, u32)) -> bool {
    a.0 < b.0 || (a.0 == b.0 && (a.1 < b.1 || (a.1 == b.1 && a.2 <= b.2)))
}

/// Strictly ascending in the order of extents.
pub open spec fn keys_ascending(s: Seq<(u32, u32, u32)>) -> bool {
    forall|i: int, j: int|
        0 <= i < j < s.len() ==> key_le(#[trigger] s[i], #[trigger] s[j]) && s[i] != s[j]
}

/// `indexset::BTreeSet::new`: the new set holds no item.
#[verifier::external_body]
pub(crate) fn keys_new() -> (index: BTreeSet<(u32, u32, u32)>)
    ensures
        index_keys(index) == Set::<(u32, u32, u32)>::empty(),
{
    BTreeSet::new()
}

/// `indexset::BTreeSet::insert`: the set then holds the item besides what it
/// held; the answer is whether the item is new to it.
#[verifier::external_body]
pub(crate) fn keys_insert(index: &mut BTreeSet<(u32, u32, u32)>, key: (u32, u32, u32)) -> (fresh:
    bool)
    ensures
        index_keys(*final(index)) == index_keys(*old(index)).insert(key),
        fresh == !index_keys(*old(index)).contains(key),
{
    index.insert(key)
}

/// `indexset::BTreeSet::remove`: the set then holds what it held but the
/// item; the answer is whether it held the item.
#[verifier::external_body]
pub(crate) fn keys_remove(index: &mut BTreeSet<(u32, u32, u32)>, key: (u32, u32, u32)) -> (found:
    bool)
    ensures
        index_keys(*final(index)) == index_keys(*old(index)).remove(key),
        found == index_keys(*old(index)).contains(key),
{
    index.remove(&key)
}

/// `indexset::BTreeSet::first`: the least item, or nothing where the set
/// holds none.
#[verifier::external_body]
pub(crate) fn keys_first(index: &BTreeSet<(u32, u32, u32)>) -> (r: Option<(u32, u32, u32)>)
    ensures
        match r {
            Some(k) => index_keys(*index).contains(k) && forall|o: (u32, u32, u32)|
                index_keys(*index).contains(o) ==> key_le(k, o),
            None => forall|o: (u32, u32, u32)| !index_keys(*index).contains(o),
        },
{
    index.first().copied()
}

/// `indexset::BTreeSet::last`: the greatest item, or nothing where the set
/// holds none.
#[verifier::external_body]
pub(crate) fn keys_last(index: &BTreeSet<(u32, u32, u32)>) -> (r: Option<(u32, u32, u32)>)
    ensures
        match r {
            Some(k) => index_keys(*index).contains(k) && forall|o: (u32, u32, u32)|
                index_keys(*index).contains(o) ==> key_le(o, k),
            None => forall|o: (u32, u32, u32)| !index_keys(*index).contains(o),
        },
{
    index.last().copied()
}

/// `indexset::BTreeSet::range` over `lo..=hi`, and the first item that its
/// iterator gives. The range starts at the place of `lo` in the order, so an
/// item that comes back is the least item that is not below `lo`; where the
/// set holds an item from `lo` to `hi`, an item comes back. The end of the
/// range is worked out from the place of `hi` alone: nothing is claimed of an
/// item that comes back against `hi`, nor of the set where none comes back
/// but that it holds no item from `lo` to `hi`.
#[verifier::external_body]
pub(crate) fn keys_range_first(
    index: &BTreeSet<(u32, u32, u32)>,
    lo: (u32, u32, u32),
    hi: (u32, u32, u32),
) -> (r: Option<(u32, u32, u32)>)
    requires
        key_le(lo, hi),
    ensures
        match r {
            Some(k) => index_keys(*index).contains(k) && key_le(lo, k) && forall|
                o: (u32, u32, u32),
            |
                index_keys(*index).contains(o) && key_le(lo, o) ==> key_le(k, o),
            None => forall|o: (u32, u32, u32)|
                index_keys(*index).contains(o) ==> !(key_le(lo, o) && key_le(o, hi)),
        },
{
    index.range(lo..=hi).next().copied()
}

/// `indexset::BTreeSet::iter`, gathered: every item of the set once, in
/// ascending order.
#[verifier::external_body]
pub(crate) fn keys_to_vec(index: &BTreeSet<(u32, u32, u32)>) -> (r: Vec<(u32, u32, u32)>)
    ensures
        keys_ascending(r@),
        forall|k: (u32, u32, u32)| index_keys(*index).contains(k) <==> r@.contains(k),
{
    index.iter().copied().collect()
}

} // verus!

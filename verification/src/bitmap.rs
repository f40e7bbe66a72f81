//! The compressed bitmaps of the relationship cache, and the integer map that holds them.
use intmap::IntMap;
use roaring::RoaringTreemap;
use vstd::prelude::*;

verus! {

/// `roaring::RoaringTreemap`: a compressed set of `u64` values.
#[verifier::external_type_specification]
#[verifier::external_body]
pub struct ExRoaringTreemap(roaring::RoaringTreemap);

/// `intmap::IntMap`: a hash map with integer keys.
#[verifier::external_type_specification]
#[verifier::external_body]
#[verifier::reject_recursive_types(K)]
#[verifier::reject_recursive_types(V)]
pub struct ExIntMap<K, V>(intmap::IntMap<K, V>);

/// The values that a bitmap holds.
pub uninterp spec fn bitmap_items(bitmap: RoaringTreemap) -> Set<u64>;

/// The values of each bitmap in an integer map, by key.
pub uninterp spec fn intmap_entries(map: IntMap<u64, RoaringTreemap>) -> Map<u64, Set<u64>>;

/// The set that a serialised bitmap stands for; `None` where the bytes are no valid bitmap.
pub uninterp spec fn bitmap_decoded(bytes: Seq<u8>) -> Option<Set<u64>>;

/// A map without entries.
pub open spec fn no_entries() -> Map<u64, Set<u64>> {
    Map::empty()
}

/// Whether `list` holds exactly the values of `items`, each once, from the largest down.
pub open spec fn descending_listing(list: Seq<u64>, items: Set<u64>) -> bool {
    &&& forall|i: int, j: int| 0 <= i < j < list.len() ==> list[i] > list[j]
    &&& forall|x: u64| #[trigger] items.contains(x) <==> list.contains(x)
}

/// `RoaringTreemap::new` makes a bitmap without values.
#[verifier::external_body]
pub(crate) fn bitmap_new() -> (bitmap: RoaringTreemap)
    ensures
        bitmap_items(bitmap) == Set::<u64>::empty(),
{
    RoaringTreemap::new()
}

/// `RoaringTreemap::clone` copies the values.
#[verifier::external_body]
pub(crate) fn bitmap_clone(bitmap: &RoaringTreemap) -> (copy: RoaringTreemap)
    ensures
        bitmap_items(copy) == bitmap_items(*bitmap),
{
    bitmap.clone()
}

/// `RoaringTreemap::insert` adds one value.
#[verifier::external_body]
pub(crate) fn bitmap_insert(bitmap: &mut RoaringTreemap, value: u64)
    ensures
        bitmap_items(*final(bitmap)) == bitmap_items(*old(bitmap)).insert(value),
{
    bitmap.insert(value);
}

/// `IntMap::get` finds the bitmap under a key.
#[verifier::external_body]
pub(crate) fn intmap_get(map: &IntMap<u64, RoaringTreemap>, key: u64) -> (found: Option<&RoaringTreemap>)
    ensures
        found is Some <==> intmap_entries(*map).dom().contains(key),
        found matches Some(bitmap) ==> bitmap_items(*bitmap) == intmap_entries(*map)[key],
{
    map.get(key)
}

/// `IntMap::get_mut` gives access to the bitmap under a key, where there is one.
#[verifier::external_body]
pub(crate) fn intmap_get_mut(map: &mut IntMap<u64, RoaringTreemap>, key: u64) -> (found: Option<&mut RoaringTreemap>)
    ensures
        found is Some <==> intmap_entries(*old(map)).dom().contains(key),
        found matches Some(bitmap) ==> {
            &&& bitmap_items(*bitmap) == intmap_entries(*old(map))[key]
            &&& intmap_entries(*final(map)) == intmap_entries(*old(map)).insert(key, bitmap_items(*final(bitmap)))
        },
        found is None ==> *final(map) == *old(map),
{
    map.get_mut(key)
}

/// `RoaringTreemap::remove` takes one value out.
#[verifier::external_body]
pub(crate) fn bitmap_remove(bitmap: &mut RoaringTreemap, value: u64)
    ensures
        bitmap_items(*final(bitmap)) == bitmap_items(*old(bitmap)).remove(value),
{
    bitmap.remove(value);
}

/// `RoaringTreemap::contains` looks one value up.
#[verifier::external_body]
pub(crate) fn bitmap_contains(bitmap: &RoaringTreemap, value: u64) -> (found: bool)
    ensures
        found == bitmap_items(*bitmap).contains(value),
{
    bitmap.contains(value)
}

/// `RoaringTreemap`'s `|=` is the union.
#[verifier::external_body]
pub(crate) fn bitmap_union_with(bitmap: &mut RoaringTreemap, other: &RoaringTreemap)
    ensures
        bitmap_items(*final(bitmap)) == bitmap_items(*old(bitmap)).union(bitmap_items(*other)),
{
    *bitmap |= other;
}

/// `RoaringTreemap`'s `&=` is the intersection.
#[verifier::external_body]
pub(crate) fn bitmap_intersect_with(bitmap: &mut RoaringTreemap, other: &RoaringTreemap)
    ensures
        bitmap_items(*final(bitmap)) == bitmap_items(*old(bitmap)).intersect(bitmap_items(*other)),
{
    *bitmap &= other;
}

/// `RoaringTreemap`'s `-=` is the difference.
#[verifier::external_body]
pub(crate) fn bitmap_subtract(bitmap: &mut RoaringTreemap, other: &RoaringTreemap)
    ensures
        bitmap_items(*final(bitmap)) == bitmap_items(*old(bitmap)).difference(bitmap_items(*other)),
{
    *bitmap -= other;
}

/// `RoaringTreemap::optimize` changes how the values are stored and keeps them all.
#[verifier::external_body]
pub(crate) fn bitmap_optimize(bitmap: &mut RoaringTreemap)
    ensures
        bitmap_items(*final(bitmap)) == bitmap_items(*old(bitmap)),
{
    bitmap.optimize();
}

/// `RoaringTreemap::iter`, walked from its end, gives the values in falling order.
#[verifier::external_body]
pub(crate) fn bitmap_descending(bitmap: &RoaringTreemap) -> (values: Vec<u64>)
    ensures
        descending_listing(values@, bitmap_items(*bitmap)),
{
    bitmap.iter().rev().collect()
}

/// `RoaringTreemap::serialize_into` writes bytes that stand for the bitmap's values.
#[verifier::external_body]
pub(crate) fn bitmap_serialize(bitmap: &RoaringTreemap) -> (bytes: Vec<u8>)
    ensures
        bitmap_decoded(bytes@) == Some(bitmap_items(*bitmap)),
{
    let mut bytes = Vec::new();
    bitmap.serialize_into(&mut bytes).unwrap();
    bytes
}

/// `RoaringTreemap::deserialize_from` reads a bitmap back and refuses bytes that are none.
///
/// It checks what it reads. Reading without the check, by `deserialize_unchecked_from`, gives the same but for
/// bytes whose values are not in order or whose count of values is wrong: on these it panics in builds with
/// debug assertions, and in others it gives a bitmap of which the other contracts here would not hold. Which
/// bytes are a bitmap is left to the name [`bitmap_decoded`].
#[verifier::external_body]
pub(crate) fn bitmap_deserialize(bytes: &Vec<u8>) -> (bitmap: Option<RoaringTreemap>)
    ensures
        bitmap is Some <==> bitmap_decoded(bytes@) is Some,
        bitmap matches Some(found) ==> bitmap_decoded(bytes@) == Some(bitmap_items(found)),
{
    RoaringTreemap::deserialize_from(bytes.as_slice()).ok()
}

/// `IntMap::new` makes a map without entries.
#[verifier::external_body]
pub(crate) fn intmap_new() -> (map: IntMap<u64, RoaringTreemap>)
    ensures
        intmap_entries(map) == no_entries(),
{
    IntMap::new()
}

/// `IntMap::insert` puts a bitmap under a key, in place of what was there.
#[verifier::external_body]
pub(crate) fn intmap_insert(map: &mut IntMap<u64, RoaringTreemap>, key: u64, bitmap: RoaringTreemap)
    ensures
        intmap_entries(*final(map)) == intmap_entries(*old(map)).insert(key, bitmap_items(bitmap)),
{
    map.insert(key, bitmap);
}

/// `IntMap::contains_key` looks a key up.
#[verifier::external_body]
pub(crate) fn intmap_contains_key(map: &IntMap<u64, RoaringTreemap>, key: u64) -> (found: bool)
    ensures
        found == intmap_entries(*map).dom().contains(key),
{
    map.contains_key(key)
}

/// `IntMap::clear` takes every entry out.
#[verifier::external_body]
pub(crate) fn intmap_clear(map: &mut IntMap<u64, RoaringTreemap>)
    ensures
        intmap_entries(*final(map)) == no_entries(),
{
    map.clear();
}

} // verus!

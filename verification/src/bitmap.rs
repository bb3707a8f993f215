//! Candidate document sets.
//!
//! Document identifiers are unsigned 32-bit integers held in compressed
//! roaring bitmaps. The bitmap type comes from the `roaring` crate; the
//! contracts below describe each operation over the mathematical set of
//! identifiers the bitmap holds, named by [`bitmap_set`].

use vstd::prelude::*;
use roaring::RoaringBitmap;

verus! {

#[verifier::external_type_specification]
#[verifier::external_body]
pub struct ExRoaringBitmap(RoaringBitmap);

/// The set of document identifiers a roaring bitmap holds.
pub uninterp spec fn bitmap_set(b: RoaringBitmap) -> Set<u32>;

/// Relies on `RoaringBitmap::new`: a fresh bitmap holds nothing.
#[verifier::external_body]
pub fn bitmap_new() -> (r: RoaringBitmap)
    ensures
        bitmap_set(r) == Set::<u32>::empty(),
{
    RoaringBitmap::new()
}

/// Relies on `RoaringBitmap::clone`: the copy holds the same identifiers.
#[verifier::external_body]
pub fn bitmap_clone(b: &RoaringBitmap) -> (r: RoaringBitmap)
    ensures
        bitmap_set(r) == bitmap_set(*b),
{
    b.clone()
}

/// Relies on `RoaringBitmap::is_empty`: true exactly when nothing is held.
#[verifier::external_body]
pub fn bitmap_is_empty(b: &RoaringBitmap) -> (r: bool)
    ensures
        r == (bitmap_set(*b) == Set::<u32>::empty()),
{
    b.is_empty()
}

/// Relies on `RoaringBitmap::len`: the number of identifiers held.
#[verifier::external_body]
pub fn bitmap_len(b: &RoaringBitmap) -> (r: u64)
    ensures
        r as nat == bitmap_set(*b).len(),
{
    b.len()
}

/// Relies on `BitOrAssign<&RoaringBitmap>`: in-place union.
#[verifier::external_body]
pub fn bitmap_union_with(a: &mut RoaringBitmap, b: &RoaringBitmap)
    ensures
        bitmap_set(*final(a)) == bitmap_set(*old(a)).union(bitmap_set(*b)),
{
    *a |= b;
}

/// Relies on `BitAndAssign<&RoaringBitmap>`: in-place intersection.
#[verifier::external_body]
pub fn bitmap_intersect_with(a: &mut RoaringBitmap, b: &RoaringBitmap)
    ensures
        bitmap_set(*final(a)) == bitmap_set(*old(a)).intersect(bitmap_set(*b)),
{
    *a &= b;
}

/// Relies on `SubAssign<&RoaringBitmap>`: in-place difference.
#[verifier::external_body]
pub fn bitmap_difference_with(a: &mut RoaringBitmap, b: &RoaringBitmap)
    ensures
        bitmap_set(*final(a)) == bitmap_set(*old(a)).difference(bitmap_set(*b)),
{
    *a -= b;
}

/// What `RoaringBitmap::deserialize_from` reads from a byte sequence:
/// the parse is a function of the bytes alone.
pub uninterp spec fn bitmap_parse(bytes: Seq<u8>) -> Option<Set<u32>>;

/// Relies on `RoaringBitmap::serialize_into` and its documented round
/// trip with `deserialize_from`: the produced bytes parse back to the
/// serialized contents.
#[verifier::external_body]
pub fn bitmap_serialize(b: &RoaringBitmap) -> (r: Vec<u8>)
    ensures
        bitmap_parse(r@) == Some(bitmap_set(*b)),
{
    let mut bytes = Vec::with_capacity(b.serialized_size());
    b.serialize_into(&mut bytes).ok();
    bytes
}

/// Relies on `RoaringBitmap::deserialize_from`.
#[verifier::external_body]
pub fn bitmap_deserialize(bytes: &[u8]) -> (r: Option<RoaringBitmap>)
    ensures
        match r {
            Some(b) => bitmap_parse(bytes@) == Some(bitmap_set(b)),
            None => bitmap_parse(bytes@) is None,
        },
{
    RoaringBitmap::deserialize_from(bytes).ok()
}

} // verus!

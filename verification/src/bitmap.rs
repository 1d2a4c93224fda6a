//! Document-id sets, kept as compressed bitmaps.
//!
//! The library holds its sets in [`DocIds`], which keeps a `RoaringBitmap`
//! that only the bitmap's own set operations have touched. What such a bitmap
//! holds is [`docids`]; that it is in the shape those operations leave is
//! [`well_formed`]. The functions marked `external_body` below are the only
//! places where the bitmap's operations are called, and their contracts are
//! taken on trust.

use roaring::RoaringBitmap;
use vstd::prelude::*;

verus! {

/// `roaring::RoaringBitmap`, of which the verifier sees nothing but
/// [`docids`] and [`well_formed`].
#[verifier::external_type_specification]
#[verifier::external_body]
pub struct ExRoaringBitmap(roaring::RoaringBitmap);

/// `std::io::Error`, the decoder's error. Nothing is read from it.
#[verifier::external_type_specification]
#[verifier::external_body]
pub struct ExIoError(std::io::Error);

/// The document ids that a bitmap holds: the values of all its containers.
pub uninterp spec fn docids(bitmap: RoaringBitmap) -> Set<u32>;

/// Whether a bitmap is in the shape that its own set operations make and
/// keep: its containers stand in ascending order of their keys, no key
/// occurs twice, and no container is empty. A bitmap decoded from bytes need
/// not be.
pub uninterp spec fn well_formed(bitmap: RoaringBitmap) -> bool;

/// The ids that a serialized bitmap decodes to, in the order in which the
/// decoded bitmap hands them out; `None` where the bytes are not a bitmap.
pub uninterp spec fn decoded_docids(bytes: Seq<u8>) -> Option<Seq<u32>>;

/// `RoaringBitmap::new`: a bitmap without containers, which holds nothing.
#[verifier::external_body]
fn empty_bitmap() -> (bitmap: RoaringBitmap)
    ensures
        docids(bitmap) == Set::<u32>::empty(),
        well_formed(bitmap),
{
    RoaringBitmap::new()
}

/// `RoaringBitmap::clone`: a bitmap with a copy of each container.
#[verifier::external_body]
fn clone_bitmap(bitmap: &RoaringBitmap) -> (copy: RoaringBitmap)
    ensures
        docids(copy) == docids(*bitmap),
        well_formed(copy) == well_formed(*bitmap),
{
    bitmap.clone()
}

/// `RoaringBitmap::insert` on a well-formed bitmap: adds one id, tells
/// whether it was absent, and leaves the bitmap well-formed. It does not
/// panic on such a bitmap.
#[verifier::external_body]
fn insert_docid(bitmap: &mut RoaringBitmap, docid: u32) -> (fresh: bool)
    requires
        well_formed(*old(bitmap)),
    ensures
        docids(*final(bitmap)) == docids(*old(bitmap)).insert(docid),
        well_formed(*final(bitmap)),
        fresh == !docids(*old(bitmap)).contains(docid),
    no_unwind
{
    bitmap.insert(docid)
}

/// `&=` on well-formed bitmaps (`BitAndAssign<&RoaringBitmap>`): keeps the
/// ids that `other` holds too, and leaves the bitmap well-formed. It does not
/// panic on such bitmaps.
#[verifier::external_body]
fn intersect_bitmap(bitmap: &mut RoaringBitmap, other: &RoaringBitmap)
    requires
        well_formed(*old(bitmap)),
        well_formed(*other),
    ensures
        docids(*final(bitmap)) == docids(*old(bitmap)).intersect(docids(*other)),
        well_formed(*final(bitmap)),
    no_unwind
{
    *bitmap &= other;
}

/// `|=` on well-formed bitmaps (`BitOrAssign<RoaringBitmap>`): adds the ids
/// of `other`, and leaves the bitmap well-formed. It does not panic on such
/// bitmaps.
#[verifier::external_body]
fn unite_bitmap(bitmap: &mut RoaringBitmap, other: RoaringBitmap)
    requires
        well_formed(*old(bitmap)),
        well_formed(other),
    ensures
        docids(*final(bitmap)) == docids(*old(bitmap)).union(docids(other)),
        well_formed(*final(bitmap)),
    no_unwind
{
    *bitmap |= other;
}

/// `RoaringBitmap::len` on a well-formed bitmap: how many ids it holds.
#[verifier::external_body]
fn bitmap_len(bitmap: &RoaringBitmap) -> (count: u64)
    requires
        well_formed(*bitmap),
    ensures
        count == docids(*bitmap).len(),
{
    bitmap.len()
}

/// `RoaringBitmap::is_empty` on a well-formed bitmap: whether it holds no id
/// at all.
#[verifier::external_body]
fn bitmap_is_empty(bitmap: &RoaringBitmap) -> (empty: bool)
    requires
        well_formed(*bitmap),
    ensures
        empty == (docids(*bitmap) =~= Set::<u32>::empty()),
{
    bitmap.is_empty()
}

/// `RoaringBitmap::is_subset` on well-formed bitmaps: whether every id of
/// `bitmap` is in `other`.
#[verifier::external_body]
fn bitmap_is_subset(bitmap: &RoaringBitmap, other: &RoaringBitmap) -> (subset: bool)
    requires
        well_formed(*bitmap),
        well_formed(*other),
    ensures
        subset == docids(*bitmap).subset_of(docids(*other)),
{
    bitmap.is_subset(other)
}

/// `RoaringBitmap::iter`: the values of the containers, container by
/// container. On a well-formed bitmap they come from the smallest to the
/// largest, each once.
#[verifier::external_body]
fn bitmap_values(bitmap: &RoaringBitmap) -> (values: Vec<u32>)
    ensures
        values@.to_set() == docids(*bitmap),
        well_formed(*bitmap) ==> forall|i: int, j: int|
            0 <= i < j < values@.len() ==> values@[i] < values@[j],
{
    bitmap.iter().collect()
}

/// `RoaringBitmap::deserialize_from` on a byte slice, followed by the decoded
/// bitmap's own iteration. The ids come back as plain numbers because the
/// decoder accepts byte strings whose containers are empty or out of order.
#[verifier::external_body]
pub(crate) fn decode_docids(bytes: &[u8]) -> (decoded: Result<Vec<u32>, std::io::Error>)
    ensures
        match decoded_docids(bytes@) {
            Some(values) => decoded is Ok && decoded->Ok_0@ == values,
            None => decoded is Err,
        },
{
    RoaringBitmap::deserialize_from(bytes).map(|bitmap| bitmap.into_iter().collect())
}

/// The set of the values of a sequence with one more value.
pub proof fn lemma_push_to_set(values: Seq<u32>, value: u32)
    ensures
        values.push(value).to_set() == values.to_set().insert(value),
{
    assert forall|x: u32| values.push(value).to_set().contains(x) <==> values.to_set().insert(
        value,
    ).contains(x) by {
        if values.push(value).contains(x) {
            let k = choose|k: int| 0 <= k < values.push(value).len() && values.push(value)[k] == x;
            if k < values.len() {
                assert(values[k] == x);
            }
        }
        if values.contains(x) {
            let k = choose|k: int| 0 <= k < values.len() && values[k] == x;
            assert(values.push(value)[k] == x);
        }
        if x == value {
            assert(values.push(value)[values.len() as int] == x);
        }
    }
    assert(values.push(value).to_set() =~= values.to_set().insert(value));
}

/// A set of document ids. Its bitmap is made and changed by the bitmap's own
/// set operations only, so it is always well-formed.
pub struct DocIds {
    inner: RoaringBitmap,
}

impl View for DocIds {
    type V = Set<u32>;

    closed spec fn view(&self) -> Set<u32> {
        docids(self.inner)
    }
}

impl Clone for DocIds {
    fn clone(&self) -> (copy: Self)
        ensures
            copy@ == self@,
    {
        proof {
            use_type_invariant(self);
        }
        DocIds { inner: clone_bitmap(&self.inner) }
    }
}

impl DocIds {
    #[verifier::type_invariant]
    spec fn inv(self) -> bool {
        well_formed(self.inner)
    }

    /// The empty set.
    pub fn new() -> (ids: Self)
        ensures
            ids@ == Set::<u32>::empty(),
    {
        DocIds { inner: empty_bitmap() }
    }

    /// Adds one id, and tells whether it was absent.
    pub fn insert(&mut self, docid: u32) -> (fresh: bool)
        ensures
            final(self)@ == old(self)@.insert(docid),
            fresh == !old(self)@.contains(docid),
    {
        proof {
            use_type_invariant(&*self);
        }
        insert_docid(&mut self.inner, docid)
    }

    /// The set of the given ids.
    pub fn from_values(values: &Vec<u32>) -> (ids: Self)
        ensures
            ids@ == values@.to_set(),
    {
        let mut ids = DocIds::new();
        let mut i: usize = 0;
        proof {
            assert(values@.take(0).to_set() =~= Set::<u32>::empty());
        }
        while i < values.len()
            invariant
                i <= values.len(),
                ids@ == values@.take(i as int).to_set(),
            decreases values.len() - i,
        {
            let _ = ids.insert(values[i]);
            proof {
                assert(values@.take(i + 1) =~= values@.take(i as int).push(values@[i as int]));
                lemma_push_to_set(values@.take(i as int), values@[i as int]);
            }
            i += 1;
        }
        proof {
            assert(values@.take(values@.len() as int) =~= values@);
        }
        ids
    }

    /// The set of the ids that a bitmap holds, whatever shape the bitmap is
    /// in: the ids are read out and put into a bitmap of the library's own.
    pub fn from_bitmap(bitmap: &RoaringBitmap) -> (ids: Self)
        ensures
            ids@ == docids(*bitmap),
    {
        let values = bitmap_values(bitmap);
        DocIds::from_values(&values)
    }

    /// A bitmap with the same ids.
    pub fn to_bitmap(&self) -> (bitmap: RoaringBitmap)
        ensures
            docids(bitmap) == self@,
            well_formed(bitmap),
    {
        proof {
            use_type_invariant(self);
        }
        clone_bitmap(&self.inner)
    }

    /// Keeps the ids that `other` holds too.
    pub fn intersect_with(&mut self, other: &DocIds)
        ensures
            final(self)@ == old(self)@.intersect(other@),
    {
        proof {
            use_type_invariant(&*self);
            use_type_invariant(other);
        }
        intersect_bitmap(&mut self.inner, &other.inner);
    }

    /// Adds the ids of `other`.
    pub fn union_with(&mut self, other: DocIds)
        ensures
            final(self)@ == old(self)@.union(other@),
    {
        proof {
            use_type_invariant(&*self);
            use_type_invariant(&other);
        }
        unite_bitmap(&mut self.inner, other.inner);
    }

    /// How many ids the set holds.
    pub fn len(&self) -> (count: u64)
        ensures
            count == self@.len(),
    {
        proof {
            use_type_invariant(self);
        }
        bitmap_len(&self.inner)
    }

    /// Whether the set holds no id.
    pub fn is_empty(&self) -> (empty: bool)
        ensures
            empty == (self@ =~= Set::<u32>::empty()),
    {
        proof {
            use_type_invariant(self);
        }
        bitmap_is_empty(&self.inner)
    }

    /// Whether every id of the set is in `other`.
    pub fn is_subset(&self, other: &DocIds) -> (subset: bool)
        ensures
            subset == self@.subset_of(other@),
    {
        proof {
            use_type_invariant(self);
            use_type_invariant(other);
        }
        bitmap_is_subset(&self.inner, &other.inner)
    }

    /// The ids of the set, each once, from the smallest to the largest.
    pub fn values(&self) -> (values: Vec<u32>)
        ensures
            values@.to_set() == self@,
            forall|i: int, j: int| 0 <= i < j < values@.len() ==> values@[i] < values@[j],
    {
        proof {
            use_type_invariant(self);
        }
        bitmap_values(&self.inner)
    }
}

/// The ids among `values` that are in `universe`.
pub fn docids_within(values: &Vec<u32>, universe: &DocIds) -> (found: DocIds)
    ensures
        found@ == values@.to_set().intersect(universe@),
{
    let mut found = DocIds::from_values(values);
    found.intersect_with(universe);
    found
}

} // verus!

//! Interning: equal values share one integer handle.

use std::marker::PhantomData;
use vstd::prelude::*;

verus! {

/// A handle for a value of type `T` that an interner holds.
///
/// Two handles made by one interner are equal exactly when the values they
/// stand for are equal.
#[derive(PartialEq, Eq, Hash)]
pub struct Interned<T> {
    pub idx: usize,
    pub marker: PhantomData<T>,
}

impl<T> Interned<T> {
    pub fn from_raw(idx: usize) -> (handle: Self)
        ensures
            handle.idx == idx,
    {
        Interned { idx, marker: PhantomData }
    }

    pub fn into_raw(self) -> (idx: usize)
        ensures
            idx == self.idx,
    {
        self.idx
    }

    /// Whether two handles are the same one.
    pub fn same(self, other: Self) -> (same: bool)
        ensures
            same == (self == other),
    {
        self.idx == other.idx
    }
}

/// Whether two optional handles are both absent or the same one.
pub fn same_handle<T>(a: Option<Interned<T>>, b: Option<Interned<T>>) -> (same: bool)
    ensures
        same == (a == b),
{
    match (a, b) {
        (None, None) => true,
        (Some(x), Some(y)) => x.same(y),
        _ => false,
    }
}

impl<T> Clone for Interned<T> {
    fn clone(&self) -> (copy: Self)
        ensures
            copy == *self,
    {
        Interned { idx: self.idx, marker: self.marker }
    }
}

impl<T> Copy for Interned<T> {

}

/// A value that can be interned: it has a mathematical view, and two values can
/// be tested for having the same one.
pub trait Internable: View + Sized {
    fn same(&self, other: &Self) -> (same: bool)
        ensures
            same == (self@ == other@),
    ;
}

impl Internable for String {
    fn same(&self, other: &Self) -> (same: bool) {
        *self == *other
    }
}

/// The position of the first entry of `store` whose view is `key`, or the
/// length of `store` where there is none.
pub open spec fn position_of<T: View>(store: Seq<T>, key: T::V) -> int
    decreases store.len(),
{
    if store.len() == 0 {
        0
    } else if store.first()@ == key {
        0
    } else {
        1 + position_of(store.drop_first(), key)
    }
}

/// The store after the insertion of `value`: unchanged where an entry with the
/// same view is there already, else with `value` at its end.
pub open spec fn inserted<T: View>(store: Seq<T>, value: T) -> Seq<T> {
    if position_of(store, value@) < store.len() {
        store
    } else {
        store.push(value)
    }
}

/// No two entries have the same view.
pub open spec fn distinct_views<T: View>(store: Seq<T>) -> bool {
    forall|i: int, j: int| 0 <= i < j < store.len() ==> store[i]@ != store[j]@
}

/// The position of a key is that of the first entry that has it.
pub proof fn lemma_position_of<T: View>(store: Seq<T>, key: T::V)
    ensures
        0 <= position_of(store, key) <= store.len(),
        position_of(store, key) < store.len() ==> store[position_of(store, key)]@ == key,
        forall|i: int| 0 <= i < position_of(store, key) ==> store[i]@ != key,
    decreases store.len(),
{
    if store.len() == 0 {
    } else if store.first()@ == key {
    } else {
        let rest = store.drop_first();
        lemma_position_of(rest, key);
        let p = position_of(rest, key);
        assert forall|i: int| 0 <= i < 1 + p implies store[i]@ != key by {
            if i > 0 {
                assert(rest[i - 1] == store[i]);
            }
        }
        if p < rest.len() {
            assert(rest[p] == store[p + 1]);
        }
    }
}

/// An append-only arena that gives equal values the same handle.
pub struct DedupInterner<T> {
    pub stable_store: Vec<T>,
}

impl<T: Internable> DedupInterner<T> {
    /// No value is stored twice.
    pub open spec fn wf(&self) -> bool {
        distinct_views(self.stable_store@)
    }

    /// Whether `handle` was made by this interner.
    pub open spec fn has(&self, handle: Interned<T>) -> bool {
        handle.idx < self.stable_store@.len()
    }

    /// The value that `handle` stands for.
    pub open spec fn value(&self, handle: Interned<T>) -> T {
        self.stable_store@[handle.idx as int]
    }

    /// Everything in `earlier` is still in `self`, under the same handle.
    pub open spec fn extends(&self, earlier: &Self) -> bool {
        &&& earlier.stable_store@.len() <= self.stable_store@.len()
        &&& forall|i: int|
            0 <= i < earlier.stable_store@.len() ==> self.stable_store@[i]
                == earlier.stable_store@[i]
    }

    pub fn new() -> (interner: Self)
        ensures
            interner.wf(),
            interner.stable_store@.len() == 0,
    {
        DedupInterner { stable_store: Vec::new() }
    }

    pub fn len(&self) -> (len: usize)
        ensures
            len == self.stable_store@.len(),
    {
        self.stable_store.len()
    }

    /// Looks a value up without storing it.
    pub fn find(&self, value: &T) -> (found: Option<Interned<T>>)
        ensures
            match found {
                Some(handle) => handle.idx == position_of(self.stable_store@, value@)
                    && self.has(handle) && self.value(handle)@ == value@,
                None => position_of(self.stable_store@, value@) == self.stable_store@.len()
                    && forall|i: int|
                    0 <= i < self.stable_store@.len() ==> self.stable_store@[i]@ != value@,
            },
    {
        proof {
            lemma_position_of(self.stable_store@, value@);
        }
        let mut i: usize = 0;
        while i < self.stable_store.len()
            invariant
                i <= self.stable_store.len(),
                forall|k: int| 0 <= k < i ==> self.stable_store@[k]@ != value@,
            decreases self.stable_store.len() - i,
        {
            if self.stable_store[i].same(value) {
                proof {
                    let p = position_of(self.stable_store@, value@);
                    lemma_position_of(self.stable_store@, value@);
                    if p < i {
                        assert(self.stable_store@[p]@ != value@);
                    }
                }
                return Some(Interned::from_raw(i));
            }
            i += 1;
        }
        proof {
            let p = position_of(self.stable_store@, value@);
            if p < self.stable_store@.len() {
                assert(self.stable_store@[p]@ != value@);
            }
        }
        None
    }

    /// Stores `value` unless an equal one is stored already, and returns the
    /// handle of the stored one.
    pub fn insert(&mut self, value: T) -> (handle: Interned<T>)
        requires
            old(self).wf(),
        ensures
            final(self).wf(),
            final(self).extends(old(self)),
            handle.idx == position_of(old(self).stable_store@, value@),
            final(self).has(handle),
            final(self).value(handle)@ == value@,
            final(self).stable_store@ == inserted(old(self).stable_store@, value),
    {
        match self.find(&value) {
            Some(handle) => handle,
            None => {
                let idx = self.stable_store.len();
                self.stable_store.push(value);
                Interned::from_raw(idx)
            },
        }
    }

    /// The value behind a handle that this interner made.
    pub fn get(&self, handle: Interned<T>) -> (value: &T)
        requires
            self.has(handle),
        ensures
            *value == self.value(handle),
    {
        &self.stable_store[handle.idx]
    }
}

/// A second insertion of a value returns the handle of the first and leaves
/// the store as the first left it, whatever value with the same view is
/// inserted the second time.
pub proof fn lemma_insert_is_idempotent<T: Internable>(store: Seq<T>, value: T, again: T)
    requires
        distinct_views(store),
        again@ == value@,
    ensures
        position_of(inserted(store, value), again@) == position_of(store, value@),
        inserted(inserted(store, value), again) == inserted(store, value),
        distinct_views(inserted(store, value)),
{
    lemma_position_of(store, value@);
    let first = position_of(store, value@);
    if first == store.len() {
        let after = store.push(value);
        lemma_position_of(after, value@);
        let second = position_of(after, value@);
        if second < first {
            assert(after[second] == store[second]);
        }
        assert(after[first]@ == value@);
        assert forall|i: int, j: int| 0 <= i < j < after.len() implies after[i]@ != after[j]@ by {
            if j < store.len() {
                assert(after[i] == store[i] && after[j] == store[j]);
            } else {
                assert(after[i] == store[i]);
            }
        }
    }
}

/// Handles are equal exactly when the values are: two stored values with the
/// same view have the same handle.
pub proof fn lemma_handles_are_unique<T: Internable>(
    interner: DedupInterner<T>,
    a: Interned<T>,
    b: Interned<T>,
)
    requires
        interner.wf(),
        interner.has(a),
        interner.has(b),
    ensures
        (a == b) <==> (interner.value(a)@ == interner.value(b)@),
{
    if a.idx < b.idx {
        assert(interner.stable_store@[a.idx as int]@ != interner.stable_store@[b.idx as int]@);
    }
    if b.idx < a.idx {
        assert(interner.stable_store@[b.idx as int]@ != interner.stable_store@[a.idx as int]@);
    }
}

/// One auxiliary value for each handle of an interner.
pub struct MappedInterner<From, T> {
    pub stable_store: Vec<T>,
    pub marker: PhantomData<From>,
}

impl<From, T> MappedInterner<From, T> {
    pub open spec fn has(&self, handle: Interned<From>) -> bool {
        handle.idx < self.stable_store@.len()
    }

    pub open spec fn value(&self, handle: Interned<From>) -> T {
        self.stable_store@[handle.idx as int]
    }

    /// One value for each of the first `values.len()` handles, in order.
    pub fn from_values(values: Vec<T>) -> (mapped: Self)
        ensures
            mapped.stable_store@ == values@,
    {
        MappedInterner { stable_store: values, marker: PhantomData }
    }

    pub fn len(&self) -> (len: usize)
        ensures
            len == self.stable_store@.len(),
    {
        self.stable_store.len()
    }

    pub fn get(&self, handle: Interned<From>) -> (value: &T)
        requires
            self.has(handle),
        ensures
            *value == self.value(handle),
    {
        &self.stable_store[handle.idx]
    }

    pub fn set(&mut self, handle: Interned<From>, value: T)
        requires
            old(self).has(handle),
        ensures
            final(self).stable_store@ == old(self).stable_store@.update(handle.idx as int, value),
    {
        self.stable_store[handle.idx] = value;
    }
}

} // verus!

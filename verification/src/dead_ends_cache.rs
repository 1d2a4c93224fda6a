//! The dead-ends cache: the path prefixes that are known to match no document
//! of a universe.

use crate::bitmap::DocIds;
use crate::interner::Interned;
use vstd::prelude::*;

verus! {

/// A copy of a sequence of handles.
pub fn copy_path<T>(path: &Vec<Interned<T>>) -> (copy: Vec<Interned<T>>)
    ensures
        copy@ == path@,
{
    let mut copy: Vec<Interned<T>> = Vec::new();
    let mut i: usize = 0;
    while i < path.len()
        invariant
            i <= path.len(),
            copy@ == path@.take(i as int),
        decreases path.len() - i,
    {
        copy.push(path[i]);
        proof {
            assert(path@.take(i + 1) =~= path@.take(i as int).push(path@[i as int]));
        }
        i += 1;
    }
    proof {
        assert(path@.take(path@.len() as int) =~= path@);
    }
    copy
}

/// Whether `path` begins with `prefix`.
pub fn starts_with<T>(path: &Vec<Interned<T>>, prefix: &Vec<Interned<T>>) -> (starts: bool)
    ensures
        starts == prefix@.is_prefix_of(path@),
{
    if prefix.len() > path.len() {
        return false;
    }
    let mut i: usize = 0;
    while i < prefix.len()
        invariant
            i <= prefix.len() <= path.len(),
            forall|k: int| 0 <= k < i ==> prefix@[k] == path@[k],
        decreases prefix.len() - i,
    {
        if !prefix[i].same(path[i]) {
            proof {
                if prefix@.is_prefix_of(path@) {
                    assert(path@.subrange(0, prefix@.len() as int)[i as int] == prefix@[i as int]);
                }
            }
            return false;
        }
        i += 1;
    }
    proof {
        assert(path@.subrange(0, prefix@.len() as int) =~= prefix@);
    }
    true
}

/// The prefixes that were found dead, and the universe for which they were.
///
/// A prefix that is dead for a universe is dead for every part of it, so the
/// marks answer for every universe inside the recorded one. A mark for a
/// universe that is not inside the recorded one replaces what was recorded.
pub struct DeadEndsCache<T> {
    pub universe: DocIds,
    pub dead: Vec<Vec<Interned<T>>>,
}

impl<T> DeadEndsCache<T> {
    /// The marked prefixes, in the order in which they were marked.
    pub open spec fn marked(&self) -> Seq<Seq<Interned<T>>> {
        self.dead@.map_values(|prefix: Vec<Interned<T>>| prefix@)
    }

    /// Whether `path` begins with a marked prefix.
    pub open spec fn covers(&self, path: Seq<Interned<T>>) -> bool {
        exists|i: int| 0 <= i < self.marked().len() && (#[trigger] self.marked()[i]).is_prefix_of(path)
    }

    /// Whether the cache treats `path` as dead for `universe`.
    pub open spec fn is_dead_for(&self, path: Seq<Interned<T>>, universe: Set<u32>) -> bool {
        universe.subset_of(self.universe@) && self.covers(path)
    }

    /// Whatever `earlier` treats as dead for `universe`, `self` does too.
    pub open spec fn keeps_marks_of(&self, earlier: &Self, universe: Set<u32>) -> bool {
        forall|path: Seq<Interned<T>>| #[trigger]
            earlier.is_dead_for(path, universe) ==> self.is_dead_for(path, universe)
    }

    /// A cache without marks.
    pub fn new() -> (cache: Self)
        ensures
            cache.marked().len() == 0,
            cache.universe@ == Set::<u32>::empty(),
    {
        DeadEndsCache { universe: DocIds::new(), dead: Vec::new() }
    }

    /// Whether `path` is known to match no document of `universe`.
    pub fn is_dead(&self, path: &Vec<Interned<T>>, universe: &DocIds) -> (dead: bool)
        ensures
            dead == self.is_dead_for(path@, universe@),
    {
        if !universe.is_subset(&self.universe) {
            return false;
        }
        let mut i: usize = 0;
        while i < self.dead.len()
            invariant
                i <= self.dead.len(),
                universe@.subset_of(self.universe@),
                forall|k: int| 0 <= k < i ==> !(#[trigger] self.marked()[k]).is_prefix_of(path@),
            decreases self.dead.len() - i,
        {
            if starts_with(path, &self.dead[i]) {
                proof {
                    assert(self.marked()[i as int] == self.dead@[i as int]@);
                    assert(self.marked()[i as int].is_prefix_of(path@));
                }
                return true;
            }
            proof {
                assert(self.marked()[i as int] == self.dead@[i as int]@);
            }
            i += 1;
        }
        false
    }

    /// Records that `prefix` matches no document of `universe`.
    pub fn mark_dead(&mut self, prefix: &Vec<Interned<T>>, universe: &DocIds)
        ensures
            final(self).universe@ == universe@,
            universe@.subset_of(old(self).universe@) ==> final(self).marked()
                == old(self).marked().push(prefix@),
            !universe@.subset_of(old(self).universe@) ==> final(self).marked()
                == seq![prefix@],
            forall|smaller: Set<u32>, path: Seq<Interned<T>>|
                smaller.subset_of(universe@) && prefix@.is_prefix_of(path)
                    ==> #[trigger] final(self).is_dead_for(path, smaller),
            final(self).keeps_marks_of(old(self), universe@),
    {
        let ghost before = self.marked();
        if !universe.is_subset(&self.universe) {
            self.dead = Vec::new();
        }
        self.universe = universe.clone();
        self.dead.push(copy_path(prefix));
        proof {
            let last = self.marked().len() - 1;
            assert(self.marked()[last] == prefix@);
            if universe@.subset_of(old(self).universe@) {
                assert(self.marked() =~= before.push(prefix@));
            } else {
                assert(self.marked() =~= seq![prefix@]);
            }
            assert forall|smaller: Set<u32>, path: Seq<Interned<T>>|
                smaller.subset_of(universe@) && prefix@.is_prefix_of(
                    path,
                ) implies #[trigger] self.is_dead_for(path, smaller) by {
                assert(self.marked()[last].is_prefix_of(path));
            }
            assert forall|path: Seq<Interned<T>>| #[trigger]
                old(self).is_dead_for(path, universe@) implies self.is_dead_for(
                path,
                universe@,
            ) by {
                let i = choose|i: int|
                    0 <= i < before.len() && (#[trigger] before[i]).is_prefix_of(path);
                assert(self.marked()[i] == before[i]);
                assert(self.marked()[i].is_prefix_of(path));
            }
        }
    }
}

/// A path that is dead for a universe is dead for every universe inside it.
pub proof fn lemma_dead_for_smaller_universe<T>(
    cache: DeadEndsCache<T>,
    path: Seq<Interned<T>>,
    universe: Set<u32>,
    smaller: Set<u32>,
)
    requires
        cache.is_dead_for(path, universe),
        smaller.subset_of(universe),
    ensures
        cache.is_dead_for(path, smaller),
{
}

/// A path that begins with a dead path is dead.
pub proof fn lemma_dead_for_longer_path<T>(
    cache: DeadEndsCache<T>,
    path: Seq<Interned<T>>,
    longer: Seq<Interned<T>>,
    universe: Set<u32>,
)
    requires
        cache.is_dead_for(path, universe),
        path.is_prefix_of(longer),
    ensures
        cache.is_dead_for(longer, universe),
{
    let i = choose|i: int|
        0 <= i < cache.marked().len() && (#[trigger] cache.marked()[i]).is_prefix_of(path);
    let prefix = cache.marked()[i];
    assert(longer.subrange(0, prefix.len() as int) =~= path.subrange(0, prefix.len() as int));
    assert(cache.marked()[i].is_prefix_of(longer));
}

} // verus!

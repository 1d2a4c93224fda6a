//! The resolutions of the conditions of a graph, kept for as long as the
//! universe stays the same, so that a condition on several paths is resolved
//! once.

use crate::bitmap::DocIds;
use crate::context::{Error, SearchContext};
use crate::interner::Interned;
use crate::ranking_rule_graph::{ComputedCondition, RankingRuleGraph, RankingRuleGraphTrait};
use vstd::prelude::*;

verus! {

/// The last resolution of each condition, by the condition's handle, and the
/// universe against which they were resolved.
pub struct ConditionDocIdsCache {
    pub universe: DocIds,
    pub cache: Vec<Option<ComputedCondition>>,
}

impl ConditionDocIdsCache {
    /// A cache that holds no resolution.
    pub fn new() -> (resolved: Self)
        ensures
            resolved.cache@.len() == 0,
            resolved.universe@ == Set::<u32>::empty(),
    {
        ConditionDocIdsCache { universe: DocIds::new(), cache: Vec::new() }
    }

    /// Makes the cache one for `universe`: resolutions against another
    /// universe are dropped.
    pub fn rekey(&mut self, universe: &DocIds)
        ensures
            final(self).universe@ == universe@,
            old(self).universe@ == universe@ ==> final(self).cache == old(
                self,
            ).cache,
            old(self).universe@ != universe@ ==> final(self).cache@.len() == 0,
    {
        let same = universe.is_subset(&self.universe) && self.universe.is_subset(&universe);
        proof {
            if same {
                assert(self.universe@ =~= universe@);
            }
        }
        if !same {
            self.cache = Vec::new();
            self.universe = universe.clone();
        }
    }
}

impl<G: RankingRuleGraphTrait> RankingRuleGraph<G> {
    /// Every resolution that `resolved` holds is that of the condition under
    /// whose handle it stands, against the universe of `resolved`.
    pub open spec fn resolutions_sound(
        &self,
        ctx: &SearchContext,
        resolved: &ConditionDocIdsCache,
    ) -> bool {
        forall|i: int|
            0 <= i < resolved.cache@.len() ==> ((#[trigger] resolved.cache@[i]) matches Some(
                computed,
            ) ==> G::condition_docids(ctx, &self.conditions_interner.stable_store@[i]) matches Ok(
                matching,
            ) && computed.docids@ == matching.intersect(resolved.universe@))
    }

    /// The documents of `universe` that satisfy a condition of the graph:
    /// from the cache where it holds them, else resolved and then kept.
    pub fn get_computed_condition(
        &self,
        ctx: &SearchContext,
        resolved: &mut ConditionDocIdsCache,
        condition: Interned<G::Condition>,
        universe: &DocIds,
    ) -> (found: Result<DocIds, Error>)
        requires
            self.conditions_interner.has(condition),
            self.resolutions_sound(ctx, old(resolved)),
            old(resolved).universe@ == universe@,
        ensures
            self.resolutions_sound(ctx, final(resolved)),
            final(resolved).universe@ == universe@,
            match G::condition_docids(ctx, &self.conditions_interner.value(condition)) {
                Ok(matching) => found matches Ok(bitmap) && bitmap@ == matching.intersect(
                    universe@,
                ),
                Err(error) => found matches Err(e) && e == error,
            },
    {
        if condition.idx < resolved.cache.len() {
            match &resolved.cache[condition.idx] {
                Some(computed) => {
                    return Ok(computed.docids.clone());
                },
                None => {},
            }
        }
        match G::resolve_condition(ctx, self.conditions_interner.get(condition), universe) {
            Err(error) => Err(error),
            Ok(computed) => {
                let found = computed.docids.clone();
                while resolved.cache.len() <= condition.idx
                    invariant
                        self.resolutions_sound(ctx, resolved),
                        resolved.universe@ == universe@,
                    decreases condition.idx + 1 - resolved.cache.len(),
                {
                    let ghost before = resolved.cache@;
                    resolved.cache.push(None);
                    proof {
                        assert forall|i: int| 0 <= i < before.len() implies resolved.cache@[i]
                            == before[i] by {}
                    }
                }
                let ghost before = resolved.cache@;
                resolved.cache[condition.idx] = Some(computed);
                proof {
                    assert forall|i: int|
                        0 <= i < resolved.cache@.len() && i != condition.idx implies resolved.cache@[i]
                        == before[i] by {}
                }
                Ok(found)
            },
        }
    }
}

} // verus!

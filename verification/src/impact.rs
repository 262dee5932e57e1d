//! A coarse estimate of what consolidating each duplicated package would save.
use crate::analysis::DuplicateSet;
use crate::parser::string_views;
use vstd::prelude::*;

verus! {

/// What every surplus version of a package is assumed to cost, in kilobytes.
pub const UNIT_COST: usize = 10;

/// The estimated effect of removing the surplus versions of one package.
pub struct ImpactEstimate {
    pub name: String,
    /// Estimated savings in kilobytes.
    pub potential_savings: usize,
    pub cur_versions: Vec<String>,
}

/// The savings for a package present at `version_count` versions: every
/// version but one is surplus and costs [`UNIT_COST`].
pub open spec fn savings(version_count: nat) -> int {
    (version_count - 1) * UNIT_COST
}

/// Estimates, for every duplicate set and in the same order, the savings of
/// consolidating it on a single version.
pub fn estimate_impact(duplicates: &[DuplicateSet]) -> (impacts: Vec<ImpactEstimate>)
    requires
        forall|i: int|
            0 <= i < duplicates@.len() ==> 1 <= (#[trigger] duplicates@[i]).versions@.len()
                && savings(duplicates@[i].versions@.len()) <= usize::MAX,
    ensures
        impacts@.len() == duplicates@.len(),
        forall|i: int|
            0 <= i < duplicates@.len() ==> {
                &&& (#[trigger] impacts@[i]).name@ == duplicates@[i].name@
                &&& impacts@[i].potential_savings == savings(duplicates@[i].versions@.len())
                &&& string_views(impacts@[i].cur_versions@) == string_views(
                    duplicates@[i].versions@,
                )
            },
{
    let mut impacts: Vec<ImpactEstimate> = Vec::new();
    let mut i: usize = 0;
    while i < duplicates.len()
        invariant
            i <= duplicates@.len(),
            impacts@.len() == i,
            forall|k: int|
                0 <= k < duplicates@.len() ==> 1 <= (#[trigger] duplicates@[k]).versions@.len()
                    && savings(duplicates@[k].versions@.len()) <= usize::MAX,
            forall|k: int|
                0 <= k < i ==> {
                    &&& (#[trigger] impacts@[k]).name@ == duplicates@[k].name@
                    &&& impacts@[k].potential_savings == savings(duplicates@[k].versions@.len())
                    &&& string_views(impacts@[k].cur_versions@) == string_views(
                        duplicates@[k].versions@,
                    )
                },
        decreases duplicates@.len() - i,
    {
        let dup = &duplicates[i];
        let estimate = ImpactEstimate {
            name: dup.name.clone(),
            potential_savings: (dup.versions.len() - 1) * UNIT_COST,
            cur_versions: dup.versions.clone(),
        };
        impacts.push(estimate);
        i += 1;
    }
    impacts
}

} // verus!

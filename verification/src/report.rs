//! The rows of the final report.
use crate::analysis::DuplicateSet;
use crate::impact::{savings, UNIT_COST};
use crate::parser::string_views;
use vstd::prelude::*;
use vstd::string::StringExecFns;

verus! {

/// The recommendation made for one duplicated package.
pub struct VersionSuggestion {
    pub recommended_version: String,
    /// Estimated savings in kilobytes.
    pub estimated_saving: usize,
}

/// One row of the report.
pub struct ReportRow {
    pub package: String,
    /// The versions present, joined by a comma and a space.
    pub versions: String,
    pub recommended_version: String,
    /// Estimated savings in kilobytes.
    pub estimated_savings: usize,
}

/// What stands in a report row where no version could be recommended.
pub open spec fn no_optimal_version() -> Seq<char> {
    "No optimal version found"@
}

/// `parts`, each two neighbours separated by a comma and a space.
pub open spec fn joined(parts: Seq<Seq<char>>) -> Seq<char>
    decreases parts.len(),
{
    if parts.len() == 0 {
        Seq::empty()
    } else if parts.len() == 1 {
        parts[0]
    } else {
        joined(parts.drop_last()) + seq![',', ' '] + parts.last()
    }
}

/// Joins `parts` by a comma and a space.
pub fn join(parts: &[String]) -> (text: String)
    ensures
        text@ == joined(string_views(parts@)),
{
    let mut text = String::new();
    let mut i: usize = 0;
    let ghost views = string_views(parts@);
    while i < parts.len()
        invariant
            i <= parts@.len(),
            views == string_views(parts@),
            text@ == joined(views.take(i as int)),
        decreases parts@.len() - i,
    {
        proof {
            reveal_strlit(", ");
            let longer = views.take(i + 1);
            assert(longer.drop_last() == views.take(i as int));
        }
        if i > 0 {
            text.append(", ");
        }
        text.append(parts[i].as_str());
        i += 1;
    }
    assert(views.take(parts@.len() as int) == views);
    text
}

impl VersionSuggestion {
    /// The suggestion for `duplicate`: the version found best, or a note
    /// that none was found, and the savings of dropping all versions but
    /// one.
    pub fn new(duplicate: &DuplicateSet, best: Option<String>) -> (suggestion: Self)
        requires
            duplicate.versions@.len() >= 1,
            savings(duplicate.versions@.len()) <= usize::MAX,
        ensures
            suggestion.recommended_version@ == match best {
                Some(version) => version@,
                None => no_optimal_version(),
            },
            suggestion.estimated_saving == savings(duplicate.versions@.len()),
    {
        let recommended_version = match best {
            Some(version) => version,
            None => String::from_str("No optimal version found"),
        };
        VersionSuggestion {
            recommended_version,
            estimated_saving: UNIT_COST * (duplicate.versions.len() - 1),
        }
    }
}

/// The rows of the report: one for every duplicate set that has a
/// suggestion, pairing the two lists position by position.
pub fn report_rows(duplicates: &[DuplicateSet], suggestions: &[VersionSuggestion]) -> (rows: Vec<
    ReportRow,
>)
    ensures
        rows@.len() == if duplicates@.len() <= suggestions@.len() {
            duplicates@.len()
        } else {
            suggestions@.len()
        },
        forall|i: int|
            0 <= i < rows@.len() ==> {
                &&& (#[trigger] rows@[i]).package@ == duplicates@[i].name@
                &&& rows@[i].versions@ == joined(duplicates@[i]@.versions)
                &&& rows@[i].recommended_version@ == suggestions@[i].recommended_version@
                &&& rows@[i].estimated_savings == suggestions@[i].estimated_saving
            },
{
    let mut rows: Vec<ReportRow> = Vec::new();
    let mut i: usize = 0;
    while i < duplicates.len() && i < suggestions.len()
        invariant
            i <= duplicates@.len(),
            i <= suggestions@.len(),
            rows@.len() == i,
            forall|k: int|
                0 <= k < i ==> {
                    &&& (#[trigger] rows@[k]).package@ == duplicates@[k].name@
                    &&& rows@[k].versions@ == joined(duplicates@[k]@.versions)
                    &&& rows@[k].recommended_version@ == suggestions@[k].recommended_version@
                    &&& rows@[k].estimated_savings == suggestions@[k].estimated_saving
                },
        decreases duplicates@.len() - i,
    {
        let row = ReportRow {
            package: duplicates[i].name.clone(),
            versions: join(duplicates[i].versions.as_slice()),
            recommended_version: suggestions[i].recommended_version.clone(),
            estimated_savings: suggestions[i].estimated_saving,
        };
        rows.push(row);
        i += 1;
    }
    rows
}

} // verus!

//! Duplicate detection and the choice of the version to consolidate on.
use crate::graph::{node_count, node_weight, DependencyGraph};
use crate::parser::{string_views, Package};
use crate::time::{parse_rfc3339, rfc3339_instant, Timestamp};
use crate::version::{parse_version, semver_of, ParsedVersion};
use vstd::hash_map::StringHashMap;
use vstd::prelude::*;

verus! {

/// A package name together with the versions at which it is present.
pub struct DuplicateSet {
    pub name: String,
    pub versions: Vec<String>,
}

/// The mathematical content of a [`DuplicateSet`].
pub struct DuplicateSetView {
    pub name: Seq<char>,
    pub versions: Seq<Seq<char>>,
}

impl View for DuplicateSet {
    type V = DuplicateSetView;

    open spec fn view(&self) -> DuplicateSetView {
        DuplicateSetView { name: self.name@, versions: string_views(self.versions@) }
    }
}

impl DuplicateSet {
    /// A duplicate set names at least two versions.
    pub open spec fn wf(&self) -> bool {
        self.versions@.len() >= 2
    }
}

/// The views of a sequence of duplicate sets.
pub open spec fn duplicate_set_views(sets: Seq<DuplicateSet>) -> Seq<DuplicateSetView> {
    Seq::new(sets.len(), |i: int| sets[i]@)
}

/// The versions of the nodes called `name`, in node order.
pub open spec fn versions_named(nodes: Seq<Package>, name: Seq<char>) -> Seq<Seq<char>>
    decreases nodes.len(),
{
    if nodes.len() == 0 {
        Seq::empty()
    } else {
        let earlier = versions_named(nodes.drop_last(), name);
        if nodes.last().name@ == name {
            earlier.push(nodes.last().version@)
        } else {
            earlier
        }
    }
}

/// The names of the nodes, each once, in the order of their first node.
pub open spec fn names_seen(nodes: Seq<Package>) -> Seq<Seq<char>>
    decreases nodes.len(),
{
    if nodes.len() == 0 {
        Seq::empty()
    } else {
        let earlier = names_seen(nodes.drop_last());
        if earlier.contains(nodes.last().name@) {
            earlier
        } else {
            earlier.push(nodes.last().name@)
        }
    }
}

/// Of `names`, in order, those that two or more of the nodes bear, each with
/// the versions of its nodes.
pub open spec fn duplicates_among(nodes: Seq<Package>, names: Seq<Seq<char>>) -> Seq<
    DuplicateSetView,
>
    decreases names.len(),
{
    if names.len() == 0 {
        Seq::empty()
    } else {
        let earlier = duplicates_among(nodes, names.drop_last());
        let versions = versions_named(nodes, names.last());
        if versions.len() >= 2 {
            earlier.push(DuplicateSetView { name: names.last(), versions })
        } else {
            earlier
        }
    }
}

/// The duplicate sets of `nodes`: one for every name borne by two or more
/// nodes, ordered by the first node of each name.
pub open spec fn duplicate_sets(nodes: Seq<Package>) -> Seq<DuplicateSetView> {
    duplicates_among(nodes, names_seen(nodes))
}

/// A name that was not seen has no versions.
proof fn lemma_unseen_name(nodes: Seq<Package>, name: Seq<char>)
    requires
        !names_seen(nodes).contains(name),
    ensures
        versions_named(nodes, name).len() == 0,
    decreases nodes.len(),
{
    if nodes.len() > 0 {
        let earlier = names_seen(nodes.drop_last());
        if earlier.contains(nodes.last().name@) {
        } else {
            assert(names_seen(nodes).last() == nodes.last().name@);
            assert forall|i: int| 0 <= i < earlier.len() implies earlier[i] != name by {
                assert(names_seen(nodes)[i] == earlier[i]);
            }
        }
        lemma_unseen_name(nodes.drop_last(), name);
    }
}

/// Every name that was seen is the name of a node, no name was seen twice,
/// and every node's name was seen.
proof fn lemma_names_seen(nodes: Seq<Package>)
    ensures
        forall|i: int, j: int|
            0 <= i < j < names_seen(nodes).len() ==> names_seen(nodes)[i] != names_seen(nodes)[j],
        forall|k: int| 0 <= k < nodes.len() ==> names_seen(nodes).contains((#[trigger] nodes[k]).name@),
    decreases nodes.len(),
{
    if nodes.len() > 0 {
        let earlier = nodes.drop_last();
        lemma_names_seen(earlier);
        let names = names_seen(nodes);
        let before = names_seen(earlier);
        assert forall|k: int| 0 <= k < nodes.len() implies names.contains(
            (#[trigger] nodes[k]).name@,
        ) by {
            if k < nodes.len() - 1 {
                let at = choose|at: int| 0 <= at < before.len() && before[at] == earlier[k].name@;
                assert(names[at] == before[at]);
            } else if !before.contains(nodes.last().name@) {
                assert(names[names.len() - 1] == nodes.last().name@);
            }
        }
    }
}

/// Among `names`, a name has a duplicate set if and only if it is one of
/// them and two or more nodes bear it; the sets hold the versions of their
/// names, and come in the order of `names`.
proof fn lemma_duplicates_among(nodes: Seq<Package>, names: Seq<Seq<char>>)
    requires
        forall|i: int, j: int| 0 <= i < j < names.len() ==> names[i] != names[j],
    ensures
        forall|d: int|
            0 <= d < duplicates_among(nodes, names).len() ==> {
                let set = #[trigger] duplicates_among(nodes, names)[d];
                &&& names.contains(set.name)
                &&& set.versions == versions_named(nodes, set.name)
                &&& set.versions.len() >= 2
            },
        forall|c: int, d: int|
            0 <= c < d < duplicates_among(nodes, names).len() ==> duplicates_among(
                nodes,
                names,
            )[c].name != duplicates_among(nodes, names)[d].name,
        forall|n: int|
            0 <= n < names.len() && versions_named(nodes, #[trigger] names[n]).len() >= 2
                ==> exists|d: int|
                0 <= d < duplicates_among(nodes, names).len() && (#[trigger] duplicates_among(
                    nodes,
                    names,
                )[d]).name == names[n],
    decreases names.len(),
{
    if names.len() > 0 {
        let shorter = names.drop_last();
        let earlier = duplicates_among(nodes, shorter);
        let sets = duplicates_among(nodes, names);
        lemma_duplicates_among(nodes, shorter);
        assert forall|d: int| 0 <= d < sets.len() implies names.contains(
            (#[trigger] sets[d]).name,
        ) by {
            if d < earlier.len() {
                let at = choose|at: int| 0 <= at < shorter.len() && shorter[at] == earlier[d].name;
                assert(names[at] == earlier[d].name);
            } else {
                assert(names[names.len() - 1] == sets[d].name);
            }
        }
        assert forall|n: int|
            0 <= n < names.len() && versions_named(nodes, #[trigger] names[n]).len()
                >= 2 implies exists|d: int|
            0 <= d < sets.len() && (#[trigger] sets[d]).name == names[n] by {
            if n < names.len() - 1 {
                let d = choose|d: int|
                    0 <= d < earlier.len() && (#[trigger] earlier[d]).name == shorter[n];
                assert(sets[d] == earlier[d]);
            } else {
                assert(sets[sets.len() - 1].name == names[n]);
            }
        }
    }
}

/// `versions_named` holds one version for every node called `name`.
pub proof fn lemma_versions_named(nodes: Seq<Package>, name: Seq<char>)
    ensures
        versions_named(nodes, name).len() == nodes.filter(
            |package: Package| package.name@ == name,
        ).len(),
    decreases nodes.len(),
{
    reveal(Seq::filter);
    if nodes.len() > 0 {
        lemma_versions_named(nodes.drop_last(), name);
    }
}

/// A name has a duplicate set if and only if two or more nodes bear it. It
/// then has exactly one, which holds the versions of those nodes; a name
/// borne by a single node has none.
pub proof fn lemma_duplicate_sets(nodes: Seq<Package>, name: Seq<char>)
    ensures
        (exists|d: int|
            0 <= d < duplicate_sets(nodes).len() && (#[trigger] duplicate_sets(nodes)[d]).name
                == name) <==> versions_named(nodes, name).len() >= 2,
        forall|c: int, d: int|
            0 <= c < duplicate_sets(nodes).len() && 0 <= d < duplicate_sets(nodes).len()
                && duplicate_sets(nodes)[c].name == name && duplicate_sets(nodes)[d].name == name
                ==> c == d,
        forall|d: int|
            0 <= d < duplicate_sets(nodes).len() && (#[trigger] duplicate_sets(nodes)[d]).name
                == name ==> duplicate_sets(nodes)[d].versions == versions_named(nodes, name),
{
    lemma_names_seen(nodes);
    lemma_duplicates_among(nodes, names_seen(nodes));
    let names = names_seen(nodes);
    assert(duplicate_sets(nodes) == duplicates_among(nodes, names));
    if versions_named(nodes, name).len() >= 2 {
        if !names.contains(name) {
            lemma_unseen_name(nodes, name);
        }
        let n = choose|n: int| 0 <= n < names.len() && names[n] == name;
        assert(versions_named(nodes, names[n]).len() >= 2);
    }
}

/// Groups the packages of the graph by name and returns one duplicate set for
/// every name that two or more nodes bear, with the versions of those nodes in
/// node order. The sets are ordered by the first node of each name. Names
/// borne by a single node are left out.
pub fn find_duplicates(graph: &DependencyGraph) -> (duplicates: Vec<DuplicateSet>)
    ensures
        duplicate_set_views(duplicates@) == duplicate_sets(graph.nodes()),
        forall|d: int| 0 <= d < duplicates@.len() ==> (#[trigger] duplicates@[d]).wf(),
{
    let ghost nodes = graph.nodes();
    let count = node_count(&graph.graph);
    let mut groups: Vec<DuplicateSet> = Vec::new();
    let mut positions: StringHashMap<usize> = StringHashMap::new();
    let mut i: usize = 0;
    while i < count
        invariant
            i <= count == nodes.len(),
            nodes == graph.nodes(),
            groups@.len() == names_seen(nodes.take(i as int)).len(),
            forall|g: int|
                0 <= g < groups@.len() ==> {
                    &&& (#[trigger] groups@[g]).name@ == names_seen(nodes.take(i as int))[g]
                    &&& groups@[g]@.versions == versions_named(
                        nodes.take(i as int),
                        groups@[g].name@,
                    )
                    &&& positions@.contains_key(groups@[g].name@)
                    &&& positions@[groups@[g].name@] == g
                },
            forall|name: Seq<char>| #[trigger]
                positions@.contains_key(name) ==> positions@[name] < groups@.len()
                    && groups@[positions@[name] as int].name@ == name,
        decreases count - i,
    {
        let package = node_weight(&graph.graph, i);
        let ghost done = nodes.take(i as int);
        let ghost next = nodes.take(i + 1);
        let ghost old_groups = groups@;
        proof {
            assert(next.drop_last() == done);
            if names_seen(done).contains(package.name@) {
                let g = choose|g: int|
                    0 <= g < names_seen(done).len() && names_seen(done)[g] == package.name@;
                assert(groups@[g].name@ == package.name@);
            } else {
                lemma_unseen_name(done, package.name@);
            }
        }
        match positions.get(package.name.as_str()) {
            Some(at) => {
                let at = *at;
                groups[at].versions.push(package.version.clone());
                proof {
                    assert(groups@[at as int]@.versions == old_groups[at as int]@.versions.push(
                        package.version@,
                    ));
                }
            },
            None => {
                positions.insert(package.name.clone(), groups.len());
                let mut versions: Vec<String> = Vec::new();
                versions.push(package.version.clone());
                groups.push(DuplicateSet { name: package.name.clone(), versions });
            },
        }
        i += 1;
    }
    assert(nodes.take(count as int) == nodes);

    let ghost names = names_seen(nodes);
    let ghost all_groups = groups@;
    let mut duplicates: Vec<DuplicateSet> = Vec::new();
    for group in iter: groups
        invariant
            iter.seq() == all_groups,
            all_groups.len() == names.len(),
            forall|g: int|
                0 <= g < all_groups.len() ==> {
                    &&& (#[trigger] all_groups[g]).name@ == names[g]
                    &&& all_groups[g]@.versions == versions_named(nodes, names[g])
                },
            duplicate_set_views(duplicates@) == duplicates_among(
                nodes,
                names.take(iter.index() as int),
            ),
    {
        proof {
            let longer = names.take(iter.index() + 1);
            assert(longer.drop_last() == names.take(iter.index() as int));
        }
        if group.versions.len() > 1 {
            duplicates.push(group);
        }
    }
    assert(names.take(names.len() as int) == names);
    proof {
        lemma_names_seen(nodes);
        lemma_duplicates_among(nodes, names);
        assert forall|d: int| 0 <= d < duplicates@.len() implies (#[trigger] duplicates@[d]).wf() by {
            assert(duplicate_set_views(duplicates@)[d] == duplicate_sets(nodes)[d]);
        }
    }
    duplicates
}

/// What the registry reports of one published version of a package.
pub struct CrateVersion {
    /// The version, as the registry writes it.
    pub num: String,
    /// The time of publication, an RFC 3339 date and time.
    pub created_at: String,
    pub downloads: u64,
    pub yanked: bool,
}

/// What is known from the registry about one version of a package.
#[derive(Clone, Copy, Debug, PartialEq, Eq, Structural)]
pub struct VersionMetadata {
    pub version: ParsedVersion,
    pub published_at: Timestamp,
    pub download_count: u64,
    pub is_yanked: bool,
}

/// The outcome of a successful registry lookup for one candidate version.
#[derive(Clone, Copy, Debug, PartialEq, Eq, Structural)]
pub struct Lookup {
    pub metadata: VersionMetadata,
    /// The popularity boost of the version, ten times the decimal logarithm
    /// of its download count, in thirtieths of a point.
    pub popularity_boost: i64,
}

/// The position of the first entry of `entries` whose version is written
/// `version`, if there is one.
pub open spec fn first_entry_for(entries: Seq<CrateVersion>, version: Seq<char>) -> Option<int>
    decreases entries.len(),
{
    if entries.len() == 0 {
        None
    } else {
        match first_entry_for(entries.drop_last(), version) {
            Some(at) => Some(at),
            None => if entries.last().num@ == version {
                Some(entries.len() - 1)
            } else {
                None
            },
        }
    }
}

/// The metadata that the registry's `entries` hold for `version`: that of the
/// first entry written exactly `version`, provided that its publication time
/// is an RFC 3339 date and time and `version` is a semantic version.
pub open spec fn metadata_in(entries: Seq<CrateVersion>, version: Seq<char>) -> Option<
    VersionMetadata,
> {
    match first_entry_for(entries, version) {
        None => None,
        Some(at) => match (rfc3339_instant(entries[at].created_at@), semver_of(version)) {
            (Some(published_at), Some(parsed)) => Some(
                VersionMetadata {
                    version: parsed,
                    published_at,
                    download_count: entries[at].downloads,
                    is_yanked: entries[at].yanked,
                },
            ),
            _ => None,
        },
    }
}

/// `first_entry_for` finds an entry written `version`, with none before it,
/// or there is no such entry.
pub proof fn lemma_first_entry_for(entries: Seq<CrateVersion>, version: Seq<char>)
    ensures
        match first_entry_for(entries, version) {
            Some(at) => {
                &&& 0 <= at < entries.len()
                &&& entries[at].num@ == version
                &&& forall|i: int| 0 <= i < at ==> (#[trigger] entries[i]).num@ != version
            },
            None => forall|i: int| 0 <= i < entries.len() ==> (#[trigger] entries[i]).num@ != version,
        },
    decreases entries.len(),
{
    if entries.len() > 0 {
        let earlier = entries.drop_last();
        lemma_first_entry_for(earlier, version);
        assert forall|i: int| 0 <= i < earlier.len() implies earlier[i] == entries[i] by {}
    }
}

/// Picks out of the registry's answer for a package the metadata of the
/// version written `version`.
pub fn version_metadata(entries: &[CrateVersion], version: &str) -> (metadata: Option<
    VersionMetadata,
>)
    ensures
        metadata == metadata_in(entries@, version@),
{
    let wanted = version.to_owned();
    let mut i: usize = 0;
    while i < entries.len()
        invariant
            i <= entries@.len(),
            wanted@ == version@,
            forall|k: int| 0 <= k < i ==> (#[trigger] entries@[k]).num@ != version@,
        decreases entries@.len() - i,
    {
        if entries[i].num == wanted {
            proof {
                lemma_first_entry_for(entries@, version@);
            }
            let published_at = parse_rfc3339(entries[i].created_at.as_str());
            let parsed = parse_version(version);
            return match (published_at, parsed) {
                (Some(published_at), Some(parsed)) => Some(
                    VersionMetadata {
                        version: parsed,
                        published_at,
                        download_count: entries[i].downloads,
                        is_yanked: entries[i].yanked,
                    },
                ),
                _ => None,
            };
        }
        i += 1;
    }
    proof {
        lemma_first_entry_for(entries@, version@);
    }
    None
}

/// The points a version has of itself: 10000 for each major, 100 for each
/// minor and 1 for each patch number, and 1000 more for a stable release.
pub open spec fn intrinsic_points(version: ParsedVersion) -> int {
    (if version.stable {
        1000int
    } else {
        0int
    }) + version.major * 10000 + version.minor * 100 + version.patch
}

/// The points a version has in the registry's eyes: 1000 for each major, 10
/// for each minor and 1 for each patch number.
pub open spec fn registry_points(version: ParsedVersion) -> int {
    version.major * 1000 + version.minor * 10 + version.patch
}

/// The points a release loses for being younger than 14 days: 5 for each
/// day short of 14.
pub open spec fn freshness_penalty(age_days: int) -> int {
    if age_days < 14 {
        (14 - age_days) * 5
    } else {
        0
    }
}

/// What a release loses for being older than 365 days, in thirtieths of a
/// point: one thirtieth for each day beyond 365.
pub open spec fn staleness_penalty(age_days: int) -> int {
    if age_days > 365 {
        age_days - 365
    } else {
        0
    }
}

/// The points a yanked release loses.
pub open spec fn yank_penalty(yanked: bool) -> int {
    if yanked {
        10000
    } else {
        0
    }
}

/// What the popularity boost contributes: nothing for a release without
/// downloads, the boost otherwise.
pub open spec fn popularity_term(download_count: u64, popularity_boost: i64) -> int {
    if download_count == 0 {
        0
    } else {
        popularity_boost as int
    }
}

/// The score of a version of itself, in thirtieths of a point.
pub fn intrinsic_score(version: &ParsedVersion) -> (score: i128)
    ensures
        score == 30 * intrinsic_points(*version),
{
    let bonus: i128 = if version.stable {
        1000
    } else {
        0
    };
    let points: i128 = bonus + (version.major as i128) * 10000 + (version.minor as i128) * 100 + (
    version.patch as i128);
    30 * points
}

impl VersionMetadata {
    /// The score that the registry's data give a version at the time `now`,
    /// in thirtieths of a point: its registry points, less the penalties for
    /// freshness, staleness and being yanked, plus its popularity.
    pub open spec fn spec_score(&self, now: Timestamp, popularity_boost: i64) -> int {
        let age_days = self.published_at.spec_days_until(now);
        30 * (registry_points(self.version) - freshness_penalty(age_days) - yank_penalty(
            self.is_yanked,
        )) - staleness_penalty(age_days) + popularity_term(self.download_count, popularity_boost)
    }

    /// The score of the metadata at the time `now`, in thirtieths of a point.
    pub fn score(&self, now: &Timestamp, popularity_boost: i64) -> (score: i128)
        ensures
            score == self.spec_score(*now, popularity_boost),
    {
        let age_days: i64 = self.published_at.days_until(now);
        let mut points: i128 = (self.version.major as i128) * 1000 + (self.version.minor as i128)
            * 10 + (self.version.patch as i128);
        if age_days < 14 {
            points = points - (14 - (age_days as i128)) * 5;
        }
        if self.is_yanked {
            points = points - 10000;
        }
        let mut score: i128 = 30 * points;
        if age_days > 365 {
            score = score - ((age_days as i128) - 365);
        }
        if self.download_count != 0 {
            score = score + (popularity_boost as i128);
        }
        score
    }
}

/// The lookup for candidate `i`; candidates beyond the end of `lookups` have
/// none.
pub open spec fn lookup_at(lookups: Seq<Option<Lookup>>, i: int) -> Option<Lookup> {
    if 0 <= i < lookups.len() {
        lookups[i]
    } else {
        None
    }
}

/// The total score of a candidate at the time `now`, in thirtieths of a
/// point: its intrinsic score and, where a lookup succeeded, the score of
/// the metadata that it brought. What is no semantic version has no score.
pub open spec fn total_score(parsed: Option<ParsedVersion>, lookup: Option<Lookup>, now: Timestamp) -> Option<
    int,
> {
    match parsed {
        None => None,
        Some(version) => Some(
            30 * intrinsic_points(version) + match lookup {
                Some(found) => found.metadata.spec_score(now, found.popularity_boost),
                None => 0,
            },
        ),
    }
}

/// The total scores of all candidates, in order.
pub open spec fn total_scores(
    parsed: Seq<Option<ParsedVersion>>,
    lookups: Seq<Option<Lookup>>,
    now: Timestamp,
) -> Seq<Option<int>> {
    Seq::new(parsed.len(), |i: int| total_score(parsed[i], lookup_at(lookups, i), now))
}

/// What each of `versions` is as a semantic version.
pub open spec fn parsed_versions(versions: Seq<String>) -> Seq<Option<ParsedVersion>> {
    Seq::new(versions.len(), |i: int| semver_of(versions[i]@))
}

/// Candidate `i` is the one to select: it has a score, no candidate has a
/// higher one, and every candidate before it has a lower one.
pub open spec fn is_best(scores: Seq<Option<int>>, i: int) -> bool {
    &&& 0 <= i < scores.len()
    &&& scores[i] is Some
    &&& forall|j: int|
        0 <= j < scores.len() && (#[trigger] scores[j]) is Some ==> scores[j].unwrap()
            <= scores[i].unwrap()
    &&& forall|j: int|
        0 <= j < i && (#[trigger] scores[j]) is Some ==> scores[j].unwrap() < scores[i].unwrap()
}

/// The characters of an optional string.
pub open spec fn text_of(text: Option<String>) -> Option<Seq<char>> {
    match text {
        Some(text) => Some(text@),
        None => None,
    }
}

/// `best` is the selection among `versions` at the time `now`: the text of
/// the best candidate, or nothing where no candidate is a semantic version.
pub open spec fn is_selection(
    versions: Seq<String>,
    lookups: Seq<Option<Lookup>>,
    now: Timestamp,
    best: Option<Seq<char>>,
) -> bool {
    let scores = total_scores(parsed_versions(versions), lookups, now);
    match best {
        Some(text) => exists|i: int| is_best(scores, i) && text == #[trigger] versions[i]@,
        None => forall|i: int|
            0 <= i < versions.len() ==> semver_of(#[trigger] versions[i]@) is None,
    }
}

/// The intrinsic points grow with each of the three numbers: of two versions
/// that are both stable or both not, the one that is nowhere lower has no
/// fewer points, and more if it is higher anywhere.
pub proof fn lemma_intrinsic_points_monotonic(lower: ParsedVersion, higher: ParsedVersion)
    requires
        lower.stable == higher.stable,
        lower.major <= higher.major,
        lower.minor <= higher.minor,
        lower.patch <= higher.patch,
    ensures
        intrinsic_points(lower) <= intrinsic_points(higher),
        lower != higher ==> intrinsic_points(lower) < intrinsic_points(higher),
{
}

/// Where no lookup brought anything, the selected candidate has the most
/// intrinsic points of all candidates that are semantic versions, and more
/// than every such candidate before it.
pub proof fn lemma_selection_without_metadata(
    parsed: Seq<Option<ParsedVersion>>,
    lookups: Seq<Option<Lookup>>,
    now: Timestamp,
    selected: int,
    other: int,
)
    requires
        forall|i: int| 0 <= i < parsed.len() ==> lookup_at(lookups, i) is None,
        is_best(total_scores(parsed, lookups, now), selected),
        0 <= other < parsed.len(),
        parsed[other] is Some,
    ensures
        parsed[selected] is Some,
        intrinsic_points(parsed[other].unwrap()) <= intrinsic_points(parsed[selected].unwrap()),
        other < selected ==> intrinsic_points(parsed[other].unwrap()) < intrinsic_points(
            parsed[selected].unwrap(),
        ),
{
    let scores = total_scores(parsed, lookups, now);
    assert(scores[other] is Some);
}

/// At most one candidate is the one to select, and it is a semantic version.
pub proof fn lemma_best_is_unique(
    parsed: Seq<Option<ParsedVersion>>,
    lookups: Seq<Option<Lookup>>,
    now: Timestamp,
    first: int,
    second: int,
)
    requires
        is_best(total_scores(parsed, lookups, now), first),
        is_best(total_scores(parsed, lookups, now), second),
    ensures
        first == second,
        parsed[first] is Some,
{
    let scores = total_scores(parsed, lookups, now);
    if first < second {
        assert(scores[first].unwrap() < scores[second].unwrap());
    } else if second < first {
        assert(scores[second].unwrap() < scores[first].unwrap());
    }
}

/// The total score that a candidate would have were it not yanked.
pub open spec fn score_before_yank(
    parsed: Option<ParsedVersion>,
    lookup: Option<Lookup>,
    now: Timestamp,
) -> Option<int> {
    match (total_score(parsed, lookup, now), lookup) {
        (Some(score), Some(found)) => Some(score + 30 * yank_penalty(found.metadata.is_yanked)),
        (score, _) => score,
    }
}

/// Yank dominance: a yanked candidate is never selected while another
/// candidate with metadata is not yanked, unless its score before the yank
/// penalty leads that of the other by the whole penalty of 10000 points or
/// more.
pub proof fn lemma_yank_dominance(
    parsed: Seq<Option<ParsedVersion>>,
    lookups: Seq<Option<Lookup>>,
    now: Timestamp,
    yanked: int,
    other: int,
)
    requires
        0 <= yanked < parsed.len(),
        0 <= other < parsed.len(),
        parsed[yanked] is Some,
        parsed[other] is Some,
        lookup_at(lookups, yanked) matches Some(found) && found.metadata.is_yanked,
        lookup_at(lookups, other) matches Some(found) && !found.metadata.is_yanked,
        score_before_yank(parsed[yanked], lookup_at(lookups, yanked), now).unwrap() - total_score(
            parsed[other],
            lookup_at(lookups, other),
            now,
        ).unwrap() < 30 * 10000,
    ensures
        !is_best(total_scores(parsed, lookups, now), yanked),
{
    let scores = total_scores(parsed, lookups, now);
    assert(scores[yanked].unwrap() < scores[other].unwrap());
}

/// Yank dominance within one major version: a yanked candidate is never
/// selected over one that is not yanked where both have the same major
/// number, the yanked one leads by no more than 8000 points in minor and
/// patch numbers, both were published at most 10000 days ago and not in the
/// future, and both popularity boosts lie between 0 and 193 points.
pub proof fn lemma_yank_dominance_within_major(
    parsed: Seq<Option<ParsedVersion>>,
    lookups: Seq<Option<Lookup>>,
    now: Timestamp,
    yanked: int,
    other: int,
)
    requires
        0 <= yanked < parsed.len(),
        0 <= other < parsed.len(),
        parsed[yanked] is Some,
        parsed[other] is Some,
        lookup_at(lookups, yanked) is Some,
        lookup_at(lookups, other) is Some,
        ({
            let a = lookup_at(lookups, yanked).unwrap();
            let b = lookup_at(lookups, other).unwrap();
            let va = parsed[yanked].unwrap();
            let vb = parsed[other].unwrap();
            &&& a.metadata.is_yanked
            &&& !b.metadata.is_yanked
            &&& a.metadata.version == va
            &&& b.metadata.version == vb
            &&& va.major == vb.major
            &&& 110 * (va.minor - vb.minor) + 2 * (va.patch - vb.patch) <= 8000
            &&& 0 <= a.metadata.published_at.spec_days_until(now) <= 10000
            &&& 0 <= b.metadata.published_at.spec_days_until(now) <= 10000
            &&& 0 <= a.popularity_boost <= 30 * 193
            &&& 0 <= b.popularity_boost <= 30 * 193
        }),
    ensures
        !is_best(total_scores(parsed, lookups, now), yanked),
{
    lemma_yank_dominance(parsed, lookups, now, yanked, other);
}

/// No metadata score leaves the range of the arithmetic that sums it.
proof fn lemma_score_range(found: Lookup, now: Timestamp)
    ensures
        -0x1_0000_0000_0000_0000_0000_0000 < found.metadata.spec_score(now, found.popularity_boost)
            < 0x1_0000_0000_0000_0000_0000_0000,
{
}

/// Selects among candidates that were parsed already: the position of the
/// one with the highest total score at the time `now`; of several with that
/// score, the first. `parsed[i]` is candidate `i` as a semantic version,
/// `None` where it is none; such candidates are passed over. `lookups[i]` is
/// what the registry lookup for candidate `i` brought, `None` where it
/// brought nothing or there is no entry.
pub fn select_best(
    parsed: &[Option<ParsedVersion>],
    lookups: &[Option<Lookup>],
    now: &Timestamp,
) -> (best: Option<usize>)
    ensures
        best matches Some(at) ==> is_best(total_scores(parsed@, lookups@, *now), at as int),
        best is None <==> forall|i: int| 0 <= i < parsed@.len() ==> (#[trigger] parsed@[i]) is None,
{
    let ghost scores = total_scores(parsed@, lookups@, *now);
    let mut leader: Option<(usize, i128)> = None;
    let mut i: usize = 0;
    while i < parsed.len()
        invariant
            i <= parsed@.len(),
            scores == total_scores(parsed@, lookups@, *now),
            match leader {
                None => forall|j: int| 0 <= j < i ==> (#[trigger] parsed@[j]) is None,
                Some((at, score)) => {
                    &&& at < i
                    &&& scores[at as int] == Some(score as int)
                    &&& forall|j: int|
                        0 <= j < i && (#[trigger] scores[j]) is Some ==> scores[j].unwrap()
                            <= score
                    &&& forall|j: int|
                        0 <= j < at && (#[trigger] scores[j]) is Some ==> scores[j].unwrap()
                            < score
                },
            },
        decreases parsed@.len() - i,
    {
        match &parsed[i] {
            None => {},
            Some(version) => {
                let mut total: i128 = intrinsic_score(version);
                if i < lookups.len() {
                    match &lookups[i] {
                        Some(found) => {
                            proof {
                                lemma_score_range(*found, *now);
                            }
                            total = total + found.metadata.score(now, found.popularity_boost);
                        },
                        None => {},
                    }
                }
                let better = match leader {
                    None => true,
                    Some((_, score)) => total > score,
                };
                if better {
                    leader = Some((i, total));
                }
            },
        }
        i += 1;
    }
    match leader {
        Some((at, _)) => {
            assert(parsed@[at as int] is Some);
            Some(at)
        },
        None => None,
    }
}

/// Selects the candidate with the highest total score at the time `now`; of
/// several with that score, the first. Candidates that are no semantic
/// versions are passed over. `lookups[i]` is what the registry lookup for
/// `versions[i]` brought, `None` where it brought nothing or there is no
/// entry.
pub fn find_optimal_version(
    versions: &[String],
    lookups: &[Option<Lookup>],
    now: &Timestamp,
) -> (best: Option<String>)
    ensures
        is_selection(versions@, lookups@, *now, text_of(best)),
        best is None <==> forall|i: int|
            0 <= i < versions@.len() ==> semver_of(#[trigger] versions@[i]@) is None,
{
    let mut parsed: Vec<Option<ParsedVersion>> = Vec::new();
    let mut i: usize = 0;
    while i < versions.len()
        invariant
            i <= versions@.len(),
            parsed@ == parsed_versions(versions@).take(i as int),
        decreases versions@.len() - i,
    {
        parsed.push(parse_version(versions[i].as_str()));
        assert(parsed@ == parsed_versions(versions@).take(i + 1));
        i += 1;
    }
    assert(parsed@ == parsed_versions(versions@));
    match select_best(parsed.as_slice(), lookups, now) {
        Some(at) => {
            let text = versions[at].clone();
            assert(text@ == versions@[at as int]@);
            Some(text)
        },
        None => {
            assert forall|i: int| 0 <= i < versions@.len() implies semver_of(
                #[trigger] versions@[i]@,
            ) is None by {
                assert(parsed@[i] is None);
            }
            None
        },
    }
}

/// The first candidate at or after position `from` that is a semantic
/// version, and so the next one worth a registry lookup.
pub fn next_lookup(versions: &[String], from: usize) -> (next: Option<usize>)
    ensures
        match next {
            Some(at) => {
                &&& from <= at < versions@.len()
                &&& semver_of(versions@[at as int]@) is Some
                &&& forall|i: int| from <= i < at ==> semver_of(#[trigger] versions@[i]@) is None
            },
            None => forall|i: int|
                from <= i < versions@.len() ==> semver_of(#[trigger] versions@[i]@) is None,
        },
{
    let mut at: usize = from;
    while at < versions.len()
        invariant
            from <= at,
            forall|i: int| from <= i < at && i < versions@.len() ==> semver_of(
                #[trigger] versions@[i]@,
            ) is None,
        decreases versions@.len() - at,
    {
        if parse_version(versions[at].as_str()).is_some() {
            return Some(at);
        }
        at += 1;
    }
    None
}

} // verus!

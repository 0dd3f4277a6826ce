//! What `run` and `status` have in common: the standing of the cache, the selection, and what is
//! said of both. `status` is a dry run of `run`, so neither decides anything by itself.

use vstd::prelude::*;
use crate::db::{Db, DbView, StoredFingerprintRow, TestId};
use crate::db::StoredFingerprintView;
use crate::fingerprint::{copy_components, Fingerprint};
use crate::git::{GitError, GitErrorView, ShaRelation};
use crate::listing::Listing;
use crate::ordered::{Key, OrdMap, OrdSet};
use crate::process::ProcessOutput;
use crate::report::{build_changed_file_inputs, closest_stored_diff_labels, collect_sha_snapshots};
use crate::report::{CacheStatus, CollectShaSnapshot, FullSuiteInputs, Report, SelectionInputs};
use crate::report::snapshots_from;
use crate::selection::{added_files_per_sha, changed_paths_since, changed_ranges_per_sha, check_shas_reachable};
use crate::selection::{select_with_precomputed_ranges, ChangedRangesBySha, DiagnosticDetail, RangesView};
use crate::selection::{Reachability, Selection};

verus! {

/// Why the cache cannot anchor a diff. In each case every test runs.
#[derive(Debug)]
pub enum CacheMiss {
    /// Nothing is stored under any fingerprint.
    NoCoverage,
    /// Something is stored, but nothing for this environment. `differing` names the inputs in
    /// which the closest stored fingerprint differs.
    Fingerprint { differing: Vec<String> },
    /// Coverage for this environment is stored, but every commit that it is anchored at is gone.
    NoReachableSha(Reachability),
}

/// Where the cache stands for this environment.
#[derive(Debug)]
pub enum CacheState {
    /// At least one stored commit is in the repository.
    Usable(Reachability),
    /// Nothing to compare with.
    Miss(CacheMiss),
}

impl CacheState {
    /// The reachability of the stored commits, where it was looked at.
    pub open spec fn reach(self) -> Option<Reachability> {
        match self {
            CacheState::Usable(reach) => Some(reach),
            CacheState::Miss(CacheMiss::NoReachableSha(reach)) => Some(reach),
            _ => None,
        }
    }

    /// The reachability of the stored commits, where it was looked at.
    pub fn reachability(&self) -> (r: Option<&Reachability>)
        ensures
            match r {
                Some(reach) => self.reach() == Some(*reach),
                None => self.reach() is None,
            },
    {
        match self {
            CacheState::Usable(reach) => Some(reach),
            CacheState::Miss(CacheMiss::NoReachableSha(reach)) => Some(reach),
            CacheState::Miss(CacheMiss::NoCoverage) => None,
            CacheState::Miss(CacheMiss::Fingerprint { .. }) => None,
        }
    }
}

/// The report's name for a miss.
pub open spec fn miss_status(miss: CacheMiss) -> CacheStatus {
    match miss {
        CacheMiss::NoCoverage => CacheStatus::MissNoCoverage,
        CacheMiss::Fingerprint { .. } => CacheStatus::MissFingerprint,
        CacheMiss::NoReachableSha(_) => CacheStatus::MissNoReachableSha,
    }
}

impl CacheMiss {
    /// The report's name for the miss.
    pub fn status(&self) -> (r: CacheStatus)
        ensures
            r == miss_status(*self),
    {
        match self {
            CacheMiss::NoCoverage => CacheStatus::MissNoCoverage,
            CacheMiss::Fingerprint { .. } => CacheStatus::MissFingerprint,
            CacheMiss::NoReachableSha(_) => CacheStatus::MissNoReachableSha,
        }
    }
}

/// The standing of the cache, and what is shown or reported of it.
#[derive(Debug)]
pub struct Assessment {
    /// How many tests are recorded for this environment.
    pub test_count: usize,
    /// Every commit that they are anchored at.
    pub collect_shas: OrdSet<String>,
    /// The stored fingerprints: always where nothing is recorded for this environment, elsewhere
    /// only if asked for.
    pub stored: Vec<StoredFingerprintRow>,
    pub state: CacheState,
}

impl Assessment {
    /// Whether this is the standing of a cache.
    pub open spec fn is_for(
        self,
        db: DbView,
        fingerprint: Seq<char>,
        components: Seq<(Seq<char>, Seq<char>)>,
        want_stored: bool,
        per_sha: Map<Seq<char>, ShaRelation>,
    ) -> bool {
        let all = crate::db::stored_rows(db.fingerprints, db.components);
        &&& self.test_count == crate::db::fingerprint_tests(db.regions, fingerprint).len()
        &&& self.collect_shas@ == crate::db::fingerprint_shas(db.regions, fingerprint)
        &&& self.stored.deep_view() == (if self.test_count == 0 || want_stored {
            all
        } else {
            Seq::empty()
        })
        &&& match self.state {
            CacheState::Miss(CacheMiss::NoCoverage) => self.test_count == 0 && all.len() == 0,
            CacheState::Miss(CacheMiss::Fingerprint { differing }) => self.test_count == 0 && all.len() > 0
                && differing.deep_view() == crate::report::closest_difference(components, all),
            CacheState::Miss(CacheMiss::NoReachableSha(reach)) => self.test_count > 0 && reach.is_of(per_sha)
                && reach.reachable@ == Set::<Seq<char>>::empty(),
            CacheState::Usable(reach) => self.test_count > 0 && reach.is_of(per_sha) && reach.reachable@
                != Set::<Seq<char>>::empty(),
        }
    }
}

/// A copy of stored rows.
fn copy_rows(rows: &Vec<StoredFingerprintRow>) -> (r: Vec<StoredFingerprintRow>)
    ensures
        r.deep_view() == rows.deep_view(),
{
    let ghost d = rows.deep_view();
    let mut out: Vec<StoredFingerprintRow> = Vec::new();
    let mut i: usize = 0;
    assert(out.deep_view() =~= d.take(0));
    while i < rows.len()
        invariant
            i <= rows.len(),
            d == rows.deep_view(),
            out.deep_view() == d.take(i as int),
        decreases rows.len() - i,
    {
        let ghost before = out.deep_view();
        assert(d[i as int] == rows@[i as int]@);
        out.push(rows[i].duplicate());
        assert(out.deep_view() =~= before.push(d[i as int]));
        assert(d.take(i + 1) =~= d.take(i as int).push(d[i as int]));
        i += 1;
    }
    assert(d.take(i as int) =~= d);
    out
}

/// Without tests there are no commits.
proof fn lemma_no_tests_no_shas(db: DbView, fingerprint: Seq<char>)
    requires
        crate::db::fingerprint_tests(db.regions, fingerprint).finite(),
        crate::db::fingerprint_tests(db.regions, fingerprint).len() == 0,
    ensures
        crate::db::fingerprint_shas(db.regions, fingerprint) == Set::<Seq<char>>::empty(),
{
    let tests = crate::db::fingerprint_tests(db.regions, fingerprint);
    let shas = crate::db::fingerprint_shas(db.regions, fingerprint);
    assert forall|sha: Seq<char>| !shas.contains(sha) by {
        if shas.contains(sha) {
            let row = choose|row: crate::db::RegionView| #[trigger]
                db.regions.contains(row) && row.fingerprint == fingerprint && row.sha == sha;
            assert(db.regions.contains(row));
            assert(tests.contains(row.test));
        }
    }
    assert(shas =~= Set::<Seq<char>>::empty());
}

/// Classifies the cache. `per_sha` is the relation of the stored commits to `HEAD`; it is not
/// looked at where no test is recorded for this environment.
///
/// With no test recorded it is the stored fingerprints that tell a changed environment from one
/// in which nothing was ever collected.
pub fn assess(
    db: &Db,
    fingerprint: &Fingerprint,
    want_stored: bool,
    per_sha: OrdMap<String, ShaRelation>,
) -> (r: Assessment)
    ensures
        r.is_for(db@, fingerprint.hex@, fingerprint.components.deep_view(), want_stored, per_sha@),
{
    let test_count = db.test_count(fingerprint.hex.as_str());
    let collect_shas = db.collect_shas(fingerprint.hex.as_str());
    if test_count == 0 {
        proof {
            lemma_no_tests_no_shas(db@, fingerprint.hex@);
        }
        let stored = db.stored_fingerprint_snapshots();
        assert(stored.deep_view().len() == stored.len());
        let state = if stored.len() == 0 {
            CacheState::Miss(CacheMiss::NoCoverage)
        } else {
            let snapshots = snapshots_from(copy_rows(&stored));
            CacheState::Miss(
                CacheMiss::Fingerprint { differing: closest_stored_diff_labels(&fingerprint.components, &snapshots) },
            )
        };
        return Assessment { test_count, collect_shas, stored, state };
    }
    let stored = if want_stored {
        db.stored_fingerprint_snapshots()
    } else {
        let none: Vec<StoredFingerprintRow> = Vec::new();
        assert(none.deep_view() =~= Seq::<StoredFingerprintView>::empty());
        none
    };
    let reach = check_shas_reachable(per_sha);
    let state = if reach.reachable.is_empty() {
        CacheState::Miss(CacheMiss::NoReachableSha(reach))
    } else {
        CacheState::Usable(reach)
    };
    Assessment { test_count, collect_shas, stored, state }
}

/// A selection is computed if and only if coverage for the environment is stored and one of its
/// commits is in the repository; in every other case each test runs.
pub proof fn law_usable_cache_has_an_anchor(
    a: Assessment,
    db: DbView,
    fingerprint: Seq<char>,
    components: Seq<(Seq<char>, Seq<char>)>,
    want_stored: bool,
    per_sha: Map<Seq<char>, ShaRelation>,
)
    requires
        a.is_for(db, fingerprint, components, want_stored, per_sha),
        crate::db::fingerprint_tests(db.regions, fingerprint).finite(),
        per_sha.dom() == crate::db::fingerprint_shas(db.regions, fingerprint),
    ensures
        a.state is Usable <==> exists|sha: Seq<char>| #[trigger]
            per_sha.contains_key(sha) && per_sha[sha] != ShaRelation::Missing,
{
    let some = exists|sha: Seq<char>| #[trigger] per_sha.contains_key(sha) && per_sha[sha] != ShaRelation::Missing;
    if some {
        let sha = choose|sha: Seq<char>| #[trigger] per_sha.contains_key(sha) && per_sha[sha] != ShaRelation::Missing;
        assert(per_sha.dom().contains(sha));
        if a.test_count == 0 {
            lemma_no_tests_no_shas(db, fingerprint);
        }
        assert(crate::selection::reachable_shas(per_sha).contains(sha));
    }
    if a.state is Usable {
        let reachable = crate::selection::reachable_shas(per_sha);
        assert(exists|sha: Seq<char>| #[trigger] reachable.contains(sha)) by {
            if !(exists|sha: Seq<char>| #[trigger] reachable.contains(sha)) {
                assert(reachable =~= Set::<Seq<char>>::empty());
            }
        }
        let sha = choose|sha: Seq<char>| #[trigger] reachable.contains(sha);
        assert(per_sha.contains_key(sha));
    }
}

/// What has changed: the lines since each reachable commit, the files added since each, and the
/// files that differ in the working tree.
#[derive(Debug)]
pub struct Changes {
    pub ranges: ChangedRangesBySha,
    pub added: OrdMap<String, OrdSet<String>>,
    pub working_tree: OrdSet<String>,
}

/// Reads what git reported of the changes since each reachable commit.
pub fn read_changes(
    hunks: &Vec<(String, ProcessOutput)>,
    added: &Vec<(String, ProcessOutput)>,
    working_tree: OrdSet<String>,
) -> (r: Result<Changes, GitError>)
    ensures
        match r {
            Ok(c) => {
                &&& crate::selection::ranges_per_sha(crate::selection::outputs_view(hunks@)) == Ok::<
                    RangesView,
                    GitErrorView,
                >(c.ranges@)
                &&& crate::selection::added_per_sha(crate::selection::outputs_view(added@)) == Ok::<
                    Map<Seq<char>, Set<Seq<char>>>,
                    GitErrorView,
                >(c.added@)
                &&& c.working_tree@ == working_tree@
            },
            Err(e) => {
                let ranges = crate::selection::ranges_per_sha(crate::selection::outputs_view(hunks@));
                ||| ranges == Err::<RangesView, GitErrorView>(e@)
                ||| ranges is Ok && crate::selection::added_per_sha(crate::selection::outputs_view(added@)) == Err::<
                    Map<Seq<char>, Set<Seq<char>>>,
                    GitErrorView,
                >(e@)
            },
        },
{
    match changed_ranges_per_sha(hunks) {
        Err(e) => Err(e),
        Ok(ranges) => match added_files_per_sha(added) {
            Err(e) => Err(e),
            Ok(added) => Ok(Changes { ranges, added, working_tree }),
        },
    }
}

/// How far a commit is from `HEAD`: `HEAD` itself is closest.
pub open spec fn distance(relation: ShaRelation) -> Option<nat> {
    match relation {
        ShaRelation::Equal => Some(0),
        ShaRelation::Reachable { commits_ahead } => Some(commits_ahead as nat + 1),
        ShaRelation::Missing => None,
    }
}

/// Whether a commit is at least as close to `HEAD` as another, by name among equals.
pub open spec fn no_closer(
    per_sha: Map<Seq<char>, ShaRelation>,
    other: Seq<char>,
    sha: Seq<char>,
) -> bool {
    match (distance(per_sha[other]), distance(per_sha[sha])) {
        (Some(o), Some(s)) => s < o || (s == o && !crate::text::text_before(other, sha)),
        (None, Some(_)) => true,
        _ => false,
    }
}

/// Whether this is the reachable commit closest to `HEAD`, the first by name among equals.
pub open spec fn is_newest(per_sha: Map<Seq<char>, ShaRelation>, newest: Option<Seq<char>>) -> bool {
    match newest {
        Some(sha) => per_sha.contains_key(sha) && distance(per_sha[sha]) is Some && forall|other: Seq<char>| #[trigger]
            per_sha.contains_key(other) ==> no_closer(per_sha, other, sha),
        None => forall|sha: Seq<char>| #[trigger] per_sha.contains_key(sha) ==> distance(per_sha[sha]) is None,
    }
}

/// The reachable commit closest to `HEAD`.
pub open spec fn newest_of(per_sha: Map<Seq<char>, ShaRelation>) -> Option<Seq<char>> {
    choose|newest: Option<Seq<char>>| #[trigger] is_newest(per_sha, newest)
}

/// How far a commit is from `HEAD`.
fn distance_of(relation: ShaRelation) -> (r: Option<u64>)
    ensures
        match r {
            Some(n) => distance(relation) == Some(n as nat),
            None => distance(relation) is None,
        },
{
    match relation {
        ShaRelation::Equal => Some(0),
        ShaRelation::Reachable { commits_ahead } => Some(commits_ahead as u64 + 1),
        ShaRelation::Missing => None,
    }
}

/// The reachable commit closest to `HEAD`: where the last collection was made.
pub fn newest_sha(reach: &Reachability) -> (r: Option<String>)
    ensures
        is_newest(reach.per_sha@, r.deep_view()),
{
    let entries = reach.per_sha.entries();
    let ghost keys = reach.per_sha.keys();
    let ghost m = reach.per_sha@;
    let mut best: Option<(usize, u64)> = None;
    let mut i: usize = 0;
    while i < entries.len()
        invariant
            i <= entries.len(),
            entries.len() == keys.len(),
            m == reach.per_sha@,
            forall|j: int| 0 <= j < entries.len() ==> {
                &&& (#[trigger] entries@[j]).0@ == keys[j]
                &&& m.contains_key(keys[j])
                &&& m[keys[j]] == entries@[j].1
            },
            match best {
                Some((b, n)) => b < i && distance(m[keys[b as int]]) == Some(n as nat) && forall|j: int|
                    0 <= j < i ==> match distance(m[#[trigger] keys[j]]) {
                        Some(d) => n < d || (n == d && b <= j),
                        None => true,
                    },
                None => forall|j: int| 0 <= j < i ==> distance(m[#[trigger] keys[j]]) is None,
            },
        decreases entries.len() - i,
    {
        assert(entries@[i as int].0@ == keys[i as int]);
        match (distance_of(entries[i].1), best) {
            (Some(d), Some((_, n))) => {
                if d < n {
                    best = Some((i, d));
                }
            },
            (Some(d), None) => {
                best = Some((i, d));
            },
            (None, _) => {},
        }
        i += 1;
    }
    match best {
        Some((b, n)) => {
            proof {
                assert(entries@[b as int].0@ == keys[b as int]);
                assert forall|other: Seq<char>| #[trigger] m.contains_key(other) implies no_closer(
                    m,
                    other,
                    keys[b as int],
                ) by {
                    assert(m.dom().contains(other));
                    let j = choose|j: int| 0 <= j < keys.len() && keys[j] == other;
                    assert(entries@[j].0@ == keys[j]);
                    <String as Key>::before_irreflexive(keys[b as int]);
                    if crate::text::text_before(keys[j], keys[b as int]) && b < j {
                        <String as Key>::before_transitive(keys[b as int], keys[j], keys[b as int]);
                    }
                }
            }
            Some(entries[b].0.clone())
        },
        None => {
            proof {
                assert forall|sha: Seq<char>| #[trigger] m.contains_key(sha) implies distance(m[sha]) is None by {
                    assert(m.dom().contains(sha));
                    let j = choose|j: int| 0 <= j < keys.len() && keys[j] == sha;
                    assert(distance(m[keys[j]]) is None);
                }
            }
            None
        },
    }
}

/// Whether anything has changed since the commit that the last collection was made at: in the
/// working tree, in the lines, or by an added file.
pub open spec fn changed_since(
    ranges: RangesView,
    added: Map<Seq<char>, Set<Seq<char>>>,
    working_tree: Set<Seq<char>>,
    newest: Option<Seq<char>>,
) -> bool {
    ||| working_tree.len() > 0
    ||| match newest {
        Some(sha) => (ranges.contains_key(sha) && ranges[sha].dom().len() > 0) || (added.contains_key(sha)
            && added[sha].len() > 0),
        None => false,
    }
}

/// Whether anything has changed since a commit.
fn has_changes_since(changes: &Changes, newest: &Option<String>) -> (r: bool)
    ensures
        r == changed_since(changes.ranges@, changes.added@, changes.working_tree@, newest.deep_view()),
{
    if changes.working_tree.len() > 0 {
        return true;
    }
    match newest {
        Some(sha) => {
            let lines = match changes.ranges.get(sha) {
                Some(files) => files.len() > 0,
                None => false,
            };
            let files = match changes.added.get(sha) {
                Some(files) => files.len() > 0,
                None => false,
            };
            lines || files
        },
        None => false,
    }
}

/// The report's name for a usable cache: an exact hit only if every stored commit is `HEAD`. A
/// sibling of `HEAD` resolves too, but its lines are numbered otherwise.
pub open spec fn hit_status(per_sha: Map<Seq<char>, ShaRelation>) -> CacheStatus {
    if forall|sha: Seq<char>| #[trigger] per_sha.contains_key(sha) ==> per_sha[sha] == ShaRelation::Equal {
        CacheStatus::HitExact
    } else {
        CacheStatus::HitWithDivergence
    }
}

/// The report's name for a usable cache.
pub fn classify_hit_status(reach: &Reachability) -> (r: CacheStatus)
    ensures
        r == hit_status(reach.per_sha@),
{
    let entries = reach.per_sha.entries();
    let ghost keys = reach.per_sha.keys();
    let ghost m = reach.per_sha@;
    let mut i: usize = 0;
    while i < entries.len()
        invariant
            i <= entries.len(),
            entries.len() == keys.len(),
            m == reach.per_sha@,
            forall|j: int| 0 <= j < entries.len() ==> {
                &&& (#[trigger] entries@[j]).0@ == keys[j]
                &&& m.contains_key(keys[j])
                &&& m[keys[j]] == entries@[j].1
            },
            forall|j: int| 0 <= j < i ==> m[#[trigger] keys[j]] == ShaRelation::Equal,
        decreases entries.len() - i,
    {
        assert(entries@[i as int].0@ == keys[i as int]);
        if entries[i].1 != ShaRelation::Equal {
            return CacheStatus::HitWithDivergence;
        }
        i += 1;
    }
    proof {
        assert forall|sha: Seq<char>| #[trigger] m.contains_key(sha) implies m[sha] == ShaRelation::Equal by {
            assert(m.dom().contains(sha));
            let j = choose|j: int| 0 <= j < keys.len() && keys[j] == sha;
            assert(m[keys[j]] == ShaRelation::Equal);
        }
    }
    CacheStatus::HitExact
}

/// A selection and what it was computed from.
#[derive(Debug)]
pub struct Plan {
    pub selection: Selection,
    pub status: CacheStatus,
    pub changed_ranges: ChangedRangesBySha,
    /// Every path that differs from a reachable commit or from `HEAD`.
    pub changed_paths: OrdSet<String>,
    /// Whether anything has changed since the last collection.
    pub changed_since_newest: bool,
}

/// The paths that have changed since any reachable commit: what the input rules are matched
/// against.
pub fn changed_paths(changes: &Changes) -> (r: OrdSet<String>)
    ensures
        forall|p: Seq<char>| #[trigger]
            r@.contains(p) <==> crate::selection::has_changed(
                changes.ranges@,
                changes.added@,
                changes.working_tree@,
                p,
            ),
{
    changed_paths_since(&changes.ranges, &changes.added, &changes.working_tree)
}

/// Computes the selection for a usable cache. `listing` must be made with the arguments of the
/// run, so that new tests are those that the run would build. `config_hits` are the tests that the
/// input rules name.
pub fn plan(
    db: &mut Db,
    fingerprint_hex: &str,
    reach: &Reachability,
    listing: &Listing,
    changes: Changes,
    config_hits: &OrdMap<String, OrdSet<TestId>>,
    detail: DiagnosticDetail,
    now: &str,
) -> (r: Plan)
    ensures
        r.selection.is_for(
            crate::selection::change_of(
                old(db)@,
                fingerprint_hex@,
                reach.reachable@,
                changes.ranges@,
                listing@,
                config_hits@,
            ),
            detail,
        ),
        r.status == hit_status(reach.per_sha@),
        r.changed_ranges@ == changes.ranges@,
        forall|p: Seq<char>| #[trigger]
            r.changed_paths@.contains(p) <==> crate::selection::has_changed(
                changes.ranges@,
                changes.added@,
                changes.working_tree@,
                p,
            ),
        r.changed_since_newest == changed_since(
            changes.ranges@,
            changes.added@,
            changes.working_tree@,
            newest_of(reach.per_sha@),
        ),
        final(db)@ == (DbView {
            fingerprints: old(db)@.fingerprints.insert(fingerprint_hex@, now@),
            ..old(db)@
        }),
{
    let selection = select_with_precomputed_ranges(
        db,
        fingerprint_hex,
        listing,
        reach,
        &changes.ranges,
        config_hits,
        detail,
        now,
    );
    let paths = changed_paths(&changes);
    let newest = newest_sha(reach);
    let changed_since_newest = has_changes_since(&changes, &newest);
    proof {
        law_newest_commit_is_unique(reach.per_sha@, newest.deep_view(), newest_of(reach.per_sha@));
    }
    Plan {
        selection,
        status: classify_hit_status(reach),
        changed_ranges: changes.ranges,
        changed_paths: paths,
        changed_since_newest,
    }
}

/// There is one reachable commit closest to `HEAD` at most.
pub proof fn law_newest_commit_is_unique(
    per_sha: Map<Seq<char>, ShaRelation>,
    a: Option<Seq<char>>,
    b: Option<Seq<char>>,
)
    requires
        is_newest(per_sha, a),
        is_newest(per_sha, b),
    ensures
        a == b,
{
    if a is Some && b is Some {
        assert(no_closer(per_sha, a->0, b->0));
        assert(no_closer(per_sha, b->0, a->0));
        crate::text::lemma_text_before_total(a->0, b->0);
    }
}

/// An exact hit has changed since the last collection only by what the working tree and the
/// diff with `HEAD` show.
pub proof fn law_exact_hit_compares_with_head(per_sha: Map<Seq<char>, ShaRelation>, newest: Option<Seq<char>>)
    requires
        hit_status(per_sha) == CacheStatus::HitExact,
        is_newest(per_sha, newest),
    ensures
        newest matches Some(sha) ==> per_sha[sha] == ShaRelation::Equal,
{
}

/// The report on a selection.
pub fn selection_report(
    version: &str,
    command: &str,
    db: &Db,
    fingerprint: &Fingerprint,
    stored: Vec<StoredFingerprintRow>,
    reach: &Reachability,
    plan: &Plan,
) -> (r: Report)
    ensures
        r.schema_version == 1,
        r.cargo_affected_version@ == version@,
        r.command@ == command@,
        r.cache@ == crate::report::cache_report(
            plan.status,
            Some(fingerprint.hex@),
            Some(fingerprint.components.deep_view()),
            stored.deep_view(),
            crate::report::sha_snapshots(reach.per_sha@, rows_at(db@, fingerprint.hex@)),
        ),
        crate::report::counts_selection(plan.selection, r.selection.summary),
        r.selection.changed_files.deep_view() == Some(
            crate::report::changed_entries(
                crate::report::changed_inputs(
                    crate::db::files_at(db@.regions, fingerprint.hex@, reach.reachable@),
                    plan.changed_ranges@,
                    plan.changed_paths@,
                ),
                plan.selection.diagnostics.per_file@,
            ),
        ),
        r.selection.selected_tests.deep_view() == (match plan.selection.diagnostics.per_test {
            Some(per_test) => Some(crate::report::groups_of(plan.selection).entries(per_test@)),
            None => None,
        }),
{
    let row_counts = db.row_counts_by_sha(fingerprint.hex.as_str());
    assert(row_counts@ =~= rows_at(db@, fingerprint.hex@));
    Report::build_selection(
        SelectionInputs {
            version: version.to_owned(),
            command: command.to_owned(),
            current_fingerprint: fingerprint.hex.clone(),
            current_components: copy_components(&fingerprint.components),
            stored_fingerprints: snapshots_from(stored),
            collect_shas: collect_sha_snapshots(reach, &row_counts),
            status: plan.status,
            selection: &plan.selection,
            changed_files: build_changed_file_inputs(
                db,
                fingerprint.hex.as_str(),
                reach,
                &plan.changed_ranges,
                &plan.changed_paths,
            ),
            include_changed_files: true,
        },
    )
}

/// The number of rows at each commit of a fingerprint.
pub open spec fn rows_at(db: DbView, fingerprint: Seq<char>) -> Map<Seq<char>, usize> {
    Map::new(
        |sha: Seq<char>| crate::db::fingerprint_shas(db.regions, fingerprint).contains(sha),
        |sha: Seq<char>|
            db.regions.filter(
                |row: crate::db::RegionView| row.fingerprint == fingerprint && row.sha == sha,
            ).len() as usize,
    )
}

/// The stored commits that the report of a miss lists: only those that were looked at.
pub fn miss_shas(db: &Db, fingerprint_hex: &str, miss: &CacheMiss) -> (r: Vec<CollectShaSnapshot>)
    ensures
        match *miss {
            CacheMiss::NoReachableSha(reach) => r.deep_view() == crate::report::sha_snapshots(
                reach.per_sha@,
                rows_at(db@, fingerprint_hex@),
            ),
            _ => r.len() == 0,
        },
{
    match miss {
        CacheMiss::NoReachableSha(reach) => {
            let row_counts = db.row_counts_by_sha(fingerprint_hex);
            assert(row_counts@ =~= rows_at(db@, fingerprint_hex@));
            collect_sha_snapshots(reach, &row_counts)
        },
        CacheMiss::NoCoverage => Vec::new(),
        CacheMiss::Fingerprint { .. } => Vec::new(),
    }
}

/// The report of a command that runs every test. `fingerprint` is left out where none was
/// computed.
pub fn full_suite_report(
    version: &str,
    command: &str,
    status: CacheStatus,
    fingerprint: Option<&Fingerprint>,
    stored: Vec<StoredFingerprintRow>,
    collect_shas: Vec<CollectShaSnapshot>,
) -> (r: Report)
    ensures
        r.schema_version == 1,
        r.cargo_affected_version@ == version@,
        r.command@ == command@,
        r.cache@ == (match fingerprint {
            Some(f) => crate::report::cache_report(
                status,
                Some(f.hex@),
                Some(f.components.deep_view()),
                stored.deep_view(),
                collect_shas.deep_view(),
            ),
            None => crate::report::cache_report(status, None, None, stored.deep_view(), collect_shas.deep_view()),
        }),
        r.selection.summary == crate::report::no_counts(),
        r.selection.changed_files is None,
        r.selection.selected_tests is None,
{
    let (hex, components) = match fingerprint {
        Some(f) => (Some(f.hex.clone()), Some(copy_components(&f.components))),
        None => (None, None),
    };
    Report::build_full_suite(
        FullSuiteInputs {
            version: version.to_owned(),
            command: command.to_owned(),
            current_fingerprint: hex,
            current_components: components,
            stored_fingerprints: snapshots_from(stored),
            collect_shas,
            status,
        },
    )
}

} // verus!

//! Laws of the plan: which commit counts as the newest, what has changed since, and how the cache
//! stands.

use vstd::prelude::*;
use crate::db::{DbView, RegionView};
use crate::git::ShaRelation;
use crate::plan;
use crate::plan::{Assessment, CacheMiss, CacheState};
use crate::report::CacheStatus;

verus! {

/// The newest commit is `HEAD` where that is stored; otherwise it is in the repository, and no stored
/// commit has fewer commits between itself and `HEAD`. There is none exactly where all are missing.
pub proof fn law_newest_commit_is_closest(per_sha: Map<Seq<char>, ShaRelation>, newest: Option<Seq<char>>, other: Seq<char>)
    requires
        plan::is_newest(per_sha, newest),
        per_sha.contains_key(other),
    ensures
        newest is Some ==> per_sha.contains_key(newest->0) && !(per_sha[newest->0] is Missing),
        newest is Some && per_sha[other] is Equal ==> per_sha[newest->0] is Equal,
        newest is Some && per_sha[other] is Reachable && per_sha[newest->0] is Reachable
            ==> per_sha[newest->0]->commits_ahead <= per_sha[other]->commits_ahead,
        newest is Some && other != newest->0 && per_sha[other] == per_sha[newest->0] ==> crate::text::text_before(
            newest->0,
            other,
        ),
        newest is None ==> per_sha[other] is Missing,
{
    if newest is Some {
        assert(plan::no_closer(per_sha, other, newest->0));
        crate::text::lemma_text_before_total(newest->0, other);
    }
}

/// A hit is exact exactly where every stored commit is `HEAD`.
pub proof fn law_hit_is_exact_at_head_alone(per_sha: Map<Seq<char>, ShaRelation>, sha: Seq<char>)
    ensures
        per_sha.contains_key(sha) && !(per_sha[sha] is Equal) ==> plan::hit_status(per_sha)
            == CacheStatus::HitWithDivergence,
        (forall|s: Seq<char>| #[trigger] per_sha.contains_key(s) ==> per_sha[s] is Equal) ==> plan::hit_status(per_sha)
            == CacheStatus::HitExact,
{
}

/// Something has changed exactly where a file of the working tree differs, a line has changed since the
/// newest commit, or a file was added since.
pub proof fn law_changes_since_the_newest(
    ranges: crate::selection::RangesView,
    added: Map<Seq<char>, Set<Seq<char>>>,
    working_tree: Set<Seq<char>>,
    sha: Seq<char>,
)
    requires
        working_tree.finite(),
        ranges.contains_key(sha) ==> ranges[sha].dom().finite(),
        added.contains_key(sha) ==> added[sha].finite(),
    ensures
        plan::changed_since(ranges, added, working_tree, Some(sha)) <==> (exists|path: Seq<char>|
            #[trigger] working_tree.contains(path)) || (ranges.contains_key(sha) && exists|path: Seq<char>|
            #[trigger] ranges[sha].contains_key(path)) || (added.contains_key(sha) && exists|path: Seq<char>|
            #[trigger] added[sha].contains(path)),
        plan::changed_since(ranges, added, working_tree, None) <==> exists|path: Seq<char>|
            #[trigger] working_tree.contains(path),
{
    lemma_some(working_tree);
    if ranges.contains_key(sha) {
        lemma_some(ranges[sha].dom());
        if ranges[sha].dom().len() > 0 {
            let path = choose|path: Seq<char>| #[trigger] ranges[sha].dom().contains(path);
            assert(ranges[sha].contains_key(path));
        }
        if exists|path: Seq<char>| #[trigger] ranges[sha].contains_key(path) {
            let path = choose|path: Seq<char>| #[trigger] ranges[sha].contains_key(path);
            assert(ranges[sha].dom().contains(path));
        }
    }
    if added.contains_key(sha) {
        lemma_some(added[sha]);
    }
}

proof fn lemma_some<A>(s: Set<A>)
    requires
        s.finite(),
    ensures
        s.len() > 0 <==> exists|x: A| #[trigger] s.contains(x),
{
    if s.len() > 0 {
        assert(s.contains(s.choose()));
    }
    if exists|x: A| #[trigger] s.contains(x) {
        let x = choose|x: A| #[trigger] s.contains(x);
        if s.len() == 0 {
            assert(s =~= Set::empty());
        }
    }
}

/// How the cache stands: it is usable exactly where rows are stored for the environment and one of the
/// commits is in the repository. Without rows the miss is one of the fingerprint where any is stored, and
/// one of coverage where none is; with rows, but no commit in the repository, it is one of the commits.
pub proof fn law_standing_of_the_cache(
    a: Assessment,
    db: DbView,
    fingerprint: Seq<char>,
    components: Seq<(Seq<char>, Seq<char>)>,
    want_stored: bool,
    per_sha: Map<Seq<char>, ShaRelation>,
)
    requires
        a.is_for(db, fingerprint, components, want_stored, per_sha),
        db.regions.finite(),
        db.fingerprints.dom().finite(),
    ensures
        ({
            let rows = exists|row: RegionView| #[trigger] db.regions.contains(row) && row.fingerprint == fingerprint;
            let commit = exists|sha: Seq<char>| #[trigger] per_sha.contains_key(sha) && !(per_sha[sha] is Missing);
            let stored = exists|f: Seq<char>| #[trigger] db.fingerprints.contains_key(f);
            &&& a.state is Usable <==> rows && commit
            &&& (a.state matches CacheState::Miss(CacheMiss::NoReachableSha(_))) <==> rows && !commit
            &&& (a.state matches CacheState::Miss(CacheMiss::Fingerprint { .. })) <==> !rows && stored
            &&& (a.state matches CacheState::Miss(CacheMiss::NoCoverage)) <==> !rows && !stored
        }),
{
    let tests = crate::db::fingerprint_tests(db.regions, fingerprint);
    lemma_tests_are_finite(db, fingerprint);
    lemma_some(tests);
    lemma_some(db.fingerprints.dom());
    crate::ordered::lemma_in_order_of::<String>(db.fingerprints.dom());
    assert(crate::db::stored_rows(db.fingerprints, db.components).len() == db.fingerprints.dom().len());
    if exists|row: RegionView| #[trigger] db.regions.contains(row) && row.fingerprint == fingerprint {
        let row = choose|row: RegionView| #[trigger] db.regions.contains(row) && row.fingerprint == fingerprint;
        assert(tests.contains(row.test));
    }
    if tests.len() > 0 {
        let t = choose|t: crate::db::TestIdView| #[trigger] tests.contains(t);
        let row = choose|row: RegionView|
            #[trigger] db.regions.contains(row) && row.fingerprint == fingerprint && row.test == t;
        assert(db.regions.contains(row));
    }
    if exists|f: Seq<char>| #[trigger] db.fingerprints.contains_key(f) {
        let f = choose|f: Seq<char>| #[trigger] db.fingerprints.contains_key(f);
        assert(db.fingerprints.dom().contains(f));
    }
    if db.fingerprints.dom().len() > 0 {
        let f = choose|f: Seq<char>| #[trigger] db.fingerprints.dom().contains(f);
        assert(db.fingerprints.contains_key(f));
    }
    let reachable = crate::selection::reachable_shas(per_sha);
    if exists|sha: Seq<char>| #[trigger] per_sha.contains_key(sha) && !(per_sha[sha] is Missing) {
        let sha = choose|sha: Seq<char>| #[trigger] per_sha.contains_key(sha) && !(per_sha[sha] is Missing);
        crate::selection_laws::law_commits_are_split(per_sha, sha);
        assert(reachable.contains(sha));
    } else {
        assert forall|sha: Seq<char>| !reachable.contains(sha) by {
            crate::selection_laws::law_commits_are_split(per_sha, sha);
        }
        assert(reachable =~= Set::<Seq<char>>::empty());
    }
}

proof fn lemma_tests_are_finite(db: DbView, fingerprint: Seq<char>)
    requires
        db.regions.finite(),
    ensures
        crate::db::fingerprint_tests(db.regions, fingerprint).finite(),
{
    let f = |row: RegionView| row.test;
    let all = db.regions.map(f);
    db.regions.lemma_map_finite(f);
    let tests = crate::db::fingerprint_tests(db.regions, fingerprint);
    assert forall|t: crate::db::TestIdView| tests.contains(t) implies all.contains(t) by {
        let row = choose|row: RegionView|
            #[trigger] db.regions.contains(row) && row.fingerprint == fingerprint && row.test == t;
        assert(f(row) == t);
    }
    vstd::set_lib::lemma_set_subset_finite(all, tests);
}

/// Each miss has the status of its cause.
pub proof fn law_misses_are_reported_as_what_they_are(miss: CacheMiss)
    ensures
        miss is NoCoverage ==> plan::miss_status(miss) == CacheStatus::MissNoCoverage,
        miss is Fingerprint ==> plan::miss_status(miss) == CacheStatus::MissFingerprint,
        miss is NoReachableSha ==> plan::miss_status(miss) == CacheStatus::MissNoReachableSha,
{
}

/// Rows are counted at the commit that they are anchored at, and only those of the fingerprint: one more
/// row there makes one more, and a row elsewhere changes nothing.
pub proof fn law_rows_are_counted_by_commit(db: DbView, fingerprint: Seq<char>, row: RegionView, sha: Seq<char>)
    requires
        db.regions.finite(),
        db.regions.len() < usize::MAX,
        !db.regions.contains(row),
    ensures
        ({
            let before = plan::rows_at(db, fingerprint);
            let after = plan::rows_at(DbView { regions: db.regions.insert(row), ..db }, fingerprint);
            &&& row.fingerprint == fingerprint && row.sha == sha ==> after.contains_key(sha) && after[sha] == (
            if before.contains_key(sha) {
                before[sha] + 1
            } else {
                1
            })
            &&& !(row.fingerprint == fingerprint && row.sha == sha) ==> (after.contains_key(sha) <==> before.contains_key(
                sha,
            )) && (before.contains_key(sha) ==> after[sha] == before[sha])
            &&& before.contains_key(sha) <==> exists|r: RegionView|
                #[trigger] db.regions.contains(r) && r.fingerprint == fingerprint && r.sha == sha
        }),
{
    let p = |r: RegionView| r.fingerprint == fingerprint && r.sha == sha;
    let more = db.regions.insert(row);
    let a = db.regions.filter(p);
    let b = more.filter(p);
    db.regions.lemma_len_filter(p);
    let old_shas = crate::db::fingerprint_shas(db.regions, fingerprint);
    let new_shas = crate::db::fingerprint_shas(more, fingerprint);
    if p(row) {
        assert(b =~= a.insert(row));
        assert(more.contains(row));
        assert(new_shas.contains(sha));
        if !old_shas.contains(sha) {
            assert(a =~= Set::<RegionView>::empty()) by {
                assert forall|r: RegionView| !a.contains(r) by {
                    if a.contains(r) {
                        assert(db.regions.contains(r));
                    }
                }
            }
        }
    } else {
        assert(b =~= a);
        if new_shas.contains(sha) {
            let r = choose|r: RegionView|
                #[trigger] more.contains(r) && r.fingerprint == fingerprint && r.sha == sha;
            assert(db.regions.contains(r));
        }
        if old_shas.contains(sha) {
            let r = choose|r: RegionView|
                #[trigger] db.regions.contains(r) && r.fingerprint == fingerprint && r.sha == sha;
            assert(more.contains(r));
        }
    }
}

} // verus!

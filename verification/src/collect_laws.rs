//! Laws of a collection: what it runs, what it records and when it fails.

use vstd::prelude::*;
use crate::collect;
use crate::collect::{CollectError, CollectErrorView, DiffOutcome, DiffPlan, ResultView};
use crate::coverage::HitRangeView;
use crate::db::{DbView, RegionView, TestIdView};
use crate::listing::ListingView;
use crate::shim::TestOutcomeView;

verus! {

/// The instrumentation is added to the flags of the user.
pub proof fn law_instrumentation_is_added(rustflags: Seq<char>)
    ensures
        rustflags.len() == 0 ==> collect::instrumented(rustflags) == "-C instrument-coverage"@,
        rustflags.len() > 0 ==> collect::instrumented(rustflags) == rustflags + " "@ + "-C instrument-coverage"@,
{
    reveal_strlit(" ");
    reveal_strlit("-C instrument-coverage");
    reveal_strlit(" -C instrument-coverage");
    if rustflags.len() > 0 {
        assert(collect::instrumented(rustflags) =~= rustflags + " "@ + "-C instrument-coverage"@);
    }
}

/// A crate root counts from its first line on, whatever its length.
pub proof fn law_roots_count_as_whole_files(files: Map<Seq<char>, Set<Seq<char>>>, id: Seq<char>, r: HitRangeView)
    requires
        files.contains_key(id),
    ensures
        collect::sentinels_by_binary(files).contains_key(id),
        collect::sentinels_by_binary(files)[id].contains(r) <==> files[id].contains(r.file) && r.line_start == 1
            && r.line_end == i64::MAX,
{
}

/// The binaries that are exported are those of the listing that have a test to run: any listed test, or in
/// an incremental collection one that is to rerun and is still listed.
pub proof fn law_binaries_with_tests_to_run(listing: ListingView, plan: Option<&DiffPlan>, b: (Seq<char>, Seq<char>))
    ensures
        collect::run_binaries(listing, plan).contains(b) <==> listing.binaries.contains(b) && match plan {
            Some(p) => exists|name: Seq<char>|
                #[trigger] p.selected@.contains((b.0, name)) && p.listed@.contains((b.0, name)),
            None => exists|name: Seq<char>| #[trigger] listing.tests.contains((b.0, name)),
        },
{
    let f = |x: (Seq<char>, Seq<char>)| collect::runs_tests_of(listing.tests, plan, x.0);
    crate::ordered::lemma_filter_members(listing.binaries, f);
    match plan {
        Some(p) => {
            if collect::runs_tests_of(listing.tests, plan, b.0) {
                let t = choose|t: TestIdView|
                    #[trigger] p.selected@.contains(t) && p.listed@.contains(t) && t.0 == b.0;
                assert(p.selected@.contains((b.0, t.1)));
            }
            if exists|name: Seq<char>| #[trigger] p.selected@.contains((b.0, name)) && p.listed@.contains((b.0, name)) {
                let name = choose|name: Seq<char>|
                    #[trigger] p.selected@.contains((b.0, name)) && p.listed@.contains((b.0, name));
                assert(p.selected@.contains((b.0, name)) && (b.0, name).0 == b.0);
            }
        },
        None => {
            if collect::runs_tests_of(listing.tests, plan, b.0) {
                let t = choose|t: TestIdView| #[trigger] listing.tests.contains(t) && t.0 == b.0;
                assert(listing.tests.contains((b.0, t.1)));
            }
            if exists|name: Seq<char>| #[trigger] listing.tests.contains((b.0, name)) {
                let name = choose|name: Seq<char>| #[trigger] listing.tests.contains((b.0, name));
                assert(listing.tests.contains((b.0, name)) && (b.0, name).0 == b.0);
            }
        },
    }
}

/// A test was collected with these ranges.
pub open spec fn is_collected(results: Seq<ResultView>, i: int, test: TestIdView, ranges: Set<HitRangeView>) -> bool {
    0 <= i < results.len() && results[i].0 == test && results[i].1 == (TestOutcomeView::Collected { ranges })
}

/// What is recorded for a test is what it hit and the crate roots of its binary, and nothing is recorded
/// that is not the result of a test.
pub proof fn law_recorded_ranges_are_those_hit(
    results: Seq<ResultView>,
    roots: Map<Seq<char>, Set<HitRangeView>>,
    m: int,
    id: Seq<char>,
)
    ensures
        ({
            let f = collect::folded(results, roots);
            &&& 0 <= m < f.mappings.len() ==> exists|i: int, ranges: Set<HitRangeView>|
                #[trigger] is_collected(results, i, f.mappings[m].0, ranges) && roots.contains_key(f.mappings[m].0.0)
                    && forall|r: HitRangeView|
                    #[trigger] f.mappings[m].1.contains(r) <==> ranges.contains(r) || roots[f.mappings[m].0.0].contains(r)
            &&& f.unknown_binaries.contains(id) <==> !roots.contains_key(id) && exists|i: int|
                0 <= i < results.len() && (#[trigger] results[i]).0.0 == id && results[i].1 is Collected
            &&& f.mappings.len() + f.skip_notes.len() <= results.len()
        }),
    decreases results.len(),
{
    if results.len() > 0 {
        let b = results.drop_last();
        let n = results.len() - 1;
        assert(results[n] == results.last());
        assert forall|i: int| 0 <= i < b.len() implies #[trigger] b[i] == results[i] by {}
        let f0 = collect::folded(b, roots);
        let f = collect::folded(results, roots);
        law_recorded_ranges_are_those_hit(b, roots, m, id);
        if 0 <= m < f.mappings.len() {
            if m < f0.mappings.len() {
                let (i, ranges) = choose|i: int, ranges: Set<HitRangeView>|
                    #[trigger] is_collected(b, i, f0.mappings[m].0, ranges) && roots.contains_key(f0.mappings[m].0.0)
                        && forall|r: HitRangeView|
                        #[trigger] f0.mappings[m].1.contains(r) <==> ranges.contains(r)
                            || roots[f0.mappings[m].0.0].contains(r);
                assert(f.mappings[m] == f0.mappings[m]);
                assert(is_collected(results, i, f.mappings[m].0, ranges));
            } else {
                let ranges = results[n].1->ranges;
                assert(is_collected(results, n, f.mappings[m].0, ranges));
            }
        }
        if f0.unknown_binaries.contains(id) {
            let i = choose|i: int| 0 <= i < b.len() && (#[trigger] b[i]).0.0 == id && b[i].1 is Collected;
            assert(results[i].0.0 == id);
        }
        if exists|i: int| 0 <= i < results.len() && (#[trigger] results[i]).0.0 == id && results[i].1 is Collected {
            let i = choose|i: int|
                0 <= i < results.len() && (#[trigger] results[i]).0.0 == id && results[i].1 is Collected;
            if i < n {
                assert(b[i].0.0 == id);
            }
        }
    }
}

/// Results are recorded exactly where some test was collected and the binary of each collected test is
/// known; otherwise nothing is.
pub proof fn law_results_must_be_usable(results: Seq<ResultView>, roots: Map<Seq<char>, Set<HitRangeView>>)
    ensures
        ({
            let unknown = exists|i: int|
                0 <= i < results.len() && (#[trigger] results[i]).1 is Collected && !roots.contains_key(results[i].0.0);
            let some = exists|i: int| 0 <= i < results.len() && (#[trigger] results[i]).1 is Collected;
            let problem = collect::fold_problem(collect::folded(results, roots));
            &&& problem is None <==> some && !unknown
            &&& unknown ==> problem is Some && problem->0 is UnknownBinaries
            &&& !some ==> problem is Some && problem->0 is NothingExtracted
        }),
{
    let f = collect::folded(results, roots);
    if exists|i: int|
        0 <= i < results.len() && (#[trigger] results[i]).1 is Collected && !roots.contains_key(results[i].0.0) {
        let i = choose|i: int|
            0 <= i < results.len() && (#[trigger] results[i]).1 is Collected && !roots.contains_key(results[i].0.0);
        law_recorded_ranges_are_those_hit(results, roots, 0, results[i].0.0);
        assert(f.unknown_binaries.contains(results[i].0.0));
    } else {
        assert forall|id: Seq<char>| !f.unknown_binaries.contains(id) by {
            law_recorded_ranges_are_those_hit(results, roots, 0, id);
        }
        assert(f.unknown_binaries =~= Set::<Seq<char>>::empty());
        if exists|i: int| 0 <= i < results.len() && (#[trigger] results[i]).1 is Collected {
            let i = choose|i: int| 0 <= i < results.len() && (#[trigger] results[i]).1 is Collected;
            collect::law_every_result_counts(results, roots, i);
            assert(f.mappings.len() > 0);
        } else if f.mappings.len() > 0 {
            law_recorded_ranges_are_those_hit(results, roots, 0, f.mappings[0].0.0);
            let (i, ranges) = choose|i: int, ranges: Set<HitRangeView>|
                #[trigger] is_collected(results, i, f.mappings[0].0, ranges) && roots.contains_key(f.mappings[0].0.0)
                    && forall|r: HitRangeView|
                    #[trigger] f.mappings[0].1.contains(r) <==> ranges.contains(r) || roots[f.mappings[0].0.0].contains(r);
            assert(results[i].1 is Collected);
        }
    }
}

/// What is stored for the environment after a collection: what a full one found, and after an incremental
/// one also what was stored before for listed tests that did not run again. Rows of tests that are gone
/// from the listing go with an incremental collection.
pub proof fn law_rows_after_a_collection(
    db: DbView,
    listed: Option<Set<TestIdView>>,
    fingerprint: Seq<char>,
    components: Seq<(Seq<char>, Seq<char>)>,
    sha: Seq<char>,
    m: Seq<(TestIdView, Set<HitRangeView>)>,
    now: Seq<char>,
    row: RegionView,
)
    requires
        row.fingerprint == fingerprint,
    ensures
        ({
            let range = HitRangeView { file: row.file, line_start: row.start, line_end: row.end };
            let found = row.sha == sha && exists|i: int|
                0 <= i < m.len() && (#[trigger] m[i]).0 == row.test && m[i].1.contains(range);
            let rerun = exists|i: int| 0 <= i < m.len() && (#[trigger] m[i]).0 == row.test;
            let after = collect::recorded(db, listed, fingerprint, components, sha, m, now).regions.contains(row);
            match listed {
                Some(l) => after <==> l.contains(row.test) && (found || (db.regions.contains(row) && !rerun)),
                None => after <==> found,
            }
        }),
{
    crate::db_laws::law_collections_replace_rows(db, fingerprint, components, sha, m, now, row);
    let w = collect::written(db, listed, fingerprint, components, sha, m, now);
    crate::db::law_gc_drops_whole_fingerprints(w, fingerprint, 10, row, fingerprint, fingerprint);
}

/// After a collection there are at most ten fingerprints, and the one that was collected is among them,
/// used last.
pub proof fn law_ten_fingerprints_are_kept(
    db: DbView,
    listed: Option<Set<TestIdView>>,
    fingerprint: Seq<char>,
    components: Seq<(Seq<char>, Seq<char>)>,
    sha: Seq<char>,
    m: Seq<(TestIdView, Set<HitRangeView>)>,
    now: Seq<char>,
)
    requires
        db.fingerprints.dom().finite(),
    ensures
        ({
            let after = collect::recorded(db, listed, fingerprint, components, sha, m, now);
            &&& after.fingerprints.dom().len() <= 10
            &&& after.fingerprints.contains_key(fingerprint)
            &&& after.fingerprints[fingerprint] == now
            &&& after.last_collected == Some(now)
            &&& db.fingerprints.insert(fingerprint, now).dom().len() <= 10 ==> after.fingerprints
                == db.fingerprints.insert(fingerprint, now)
        }),
{
    let w = collect::written(db, listed, fingerprint, components, sha, m, now);
    let after = collect::recorded(db, listed, fingerprint, components, sha, m, now);
    assert(w.fingerprints == db.fingerprints.insert(fingerprint, now));
    crate::db::law_gc_keeps_what_fits(w.fingerprints, fingerprint, 10);
    let gone = crate::db::evicted(w.fingerprints, fingerprint, 10);
    assert(after.fingerprints.dom() =~= w.fingerprints.dom().difference(gone));
    if w.fingerprints.dom().len() <= 10 {
        assert(after.fingerprints =~= w.fingerprints);
    }
}

/// Results are put in the order of their binaries and tests; all of them are kept.
pub proof fn law_results_are_put_in_order(results: Seq<ResultView>, k: int, i: int, j: int)
    requires
        0 <= k < results.len(),
        0 <= i < j < results.len(),
    ensures
        ({
            let all = collect::sorted_results(results);
            &&& all.len() == results.len()
            &&& all.contains(results[k])
            &&& !crate::text::text_before(all[j].0.0, all[i].0.0)
            &&& all[i].0.0 == all[j].0.0 ==> !crate::text::text_before(all[j].0.1, all[i].0.1)
        }),
{
    let f = |r: ResultView| (r.0, r);
    let pairs = results.map_values(f);
    crate::sorting::law_sorting_is_stable::<(String, String), ResultView>(pairs);
    let sorted = crate::sorting::sorted_pairs::<(String, String), ResultView>(pairs);
    let all = collect::sorted_results(results);
    assert forall|n: int| 0 <= n < sorted.len() implies (#[trigger] sorted[n]).0 == sorted[n].1.0 by {
        assert(sorted.contains(sorted[n]));
        let q = choose|q: int| 0 <= q < pairs.len() && pairs[q] == sorted[n];
        assert(pairs[q] == f(results[q]));
    }
    assert(!<(String, String) as crate::ordered::Key>::before(sorted[j].0, sorted[i].0));
    let (key, value) = pairs[k];
    crate::ordered::lemma_values_of(pairs, key, value);
    crate::ordered::lemma_values_of(sorted, key, value);
    assert(pairs.contains((key, value)));
    assert(crate::ordered::values_of(sorted, key) == crate::ordered::values_of(pairs, key));
    let n = choose|n: int| 0 <= n < sorted.len() && sorted[n] == (key, value);
    assert(all[n] == results[k]);
}

/// A run without results is a failure where nextest failed, and where a test that could run left none;
/// only where no test could run is it none.
pub proof fn law_missing_results_are_explained(plan: Option<&DiffPlan>, exit: i32, dir: Seq<char>, t: TestIdView)
    ensures
        exit != 0 ==> collect::no_results(plan, exit, dir) == Err::<Seq<char>, CollectErrorView>(
            CollectErrorView::RunFailed { code: exit, results_dir: dir },
        ),
        exit == 0 && plan is None ==> collect::no_results(plan, exit, dir) is Ok,
        exit == 0 && plan is Some && plan->0.selected@.finite() && plan->0.selected@.contains(t)
            && plan->0.listed@.contains(t) ==> collect::no_results(plan, exit, dir) is Err && collect::no_results(
            plan,
            exit,
            dir,
        )->Err_0 is ShimSilent,
        exit == 0 && plan is Some && plan->0.selected@.disjoint(plan->0.listed@) ==> collect::no_results(plan, exit, dir)
            is Ok,
{
    if plan is Some {
        let live = plan->0.selected@.intersect(plan->0.listed@);
        if plan->0.selected@.finite() && live.contains(t) {
            assert(live.finite());
            assert(live.len() > 0) by {
                if live.len() == 0 {
                    assert(live =~= Set::empty());
                }
            }
        }
        if plan->0.selected@.disjoint(plan->0.listed@) {
            assert(live =~= Set::empty());
        }
    }
}

/// An incremental collection needs rows for the environment and a commit in the repository; it then reruns
/// exactly what a run would select without rules, and says so where that is nothing.
pub proof fn law_incremental_collection_reruns_the_selection(
    r: Result<DiffOutcome, CollectError>,
    db: DbView,
    fingerprint: Seq<char>,
    listing: ListingView,
    reachable: Set<Seq<char>>,
    ranges: Result<crate::selection::RangesView, crate::git::GitErrorView>,
    t: TestIdView,
)
    requires
        collect::diff_outcome_is(r, db, fingerprint, listing, reachable, ranges),
    ensures
        (forall|row: RegionView| #[trigger] db.regions.contains(row) ==> row.fingerprint != fingerprint) <==> r is Err
            && r->Err_0@ is NoPriorCoverage,
        (exists|row: RegionView| #[trigger] db.regions.contains(row) && row.fingerprint == fingerprint) && (forall|
            sha: Seq<char>,
        | !#[trigger] reachable.contains(sha)) ==> r is Err && r->Err_0@ is NoReachableSha,
        r is Ok ==> ranges is Ok && ({
            let c = crate::selection::change_of(db, fingerprint, reachable, ranges->Ok_0, listing, Map::empty());
            let chosen = c.affected().contains(t) || c.new_tests().contains(t) || c.stranded_tests().contains(t);
            &&& r->Ok_0 is Plan ==> (r->Ok_0->plan.selected@.contains(t) <==> chosen) && r->Ok_0->plan.listed@
                == listing.tests
            &&& r->Ok_0 is NothingToRecollect ==> !chosen
        }),
{
    let shas = crate::db::fingerprint_shas(db.regions, fingerprint);
    if shas == Set::<Seq<char>>::empty() {
        assert forall|row: RegionView| #[trigger] db.regions.contains(row) implies row.fingerprint != fingerprint by {
            if row.fingerprint == fingerprint {
                assert(shas.contains(row.sha));
            }
        }
    } else {
        assert(exists|row: RegionView| #[trigger] db.regions.contains(row) && row.fingerprint == fingerprint) by {
            if forall|row: RegionView| #[trigger] db.regions.contains(row) ==> row.fingerprint != fingerprint {
                assert forall|sha: Seq<char>| !shas.contains(sha) by {}
                assert(shas =~= Set::<Seq<char>>::empty());
            }
        }
    }
    if forall|sha: Seq<char>| !#[trigger] reachable.contains(sha) {
        assert(reachable =~= Set::<Seq<char>>::empty());
    }
    if r is Ok {
        let c = crate::selection::change_of(db, fingerprint, reachable, ranges->Ok_0, listing, Map::empty());
        let sel = choose|sel: crate::selection::Selection|
            #[trigger] collect::recollects(sel, r) && sel.is_for(c, crate::selection::DiagnosticDetail::Summary);
        crate::selection_laws::law_rules_select_what_they_name(c, t);
        assert(!c.config_tests().contains(t));
        assert(sel.selected_set().contains(t) <==> c.affected().contains(t) || c.new_tests().contains(t)
            || c.stranded_tests().contains(t));
    }
}

/// The map of a binary is taken from a successful export that holds a function of the project; a failed
/// export, one that cannot be read and one without such a function are errors.
pub proof fn law_export_must_hold_a_function(
    id: Seq<char>,
    export: crate::process::ProcessOutputView,
    root: Seq<char>,
    windows: bool,
)
    ensures
        ({
            let read = crate::function_map::export_map(
                crate::json::json_text(crate::diff::readable_text(export.stdout)),
                root,
                windows,
            );
            let r = collect::exported_map(id, export, root, windows);
            &&& export.code != Some(0i32) ==> r is Err && r->Err_0 is ExportFailed
            &&& export.code == Some(0i32) && read is Err ==> r is Err && r->Err_0 is BadExport
            &&& export.code == Some(0i32) && read is Ok && (exists|name: Seq<char>|
                #[trigger] read->Ok_0.contains_key(name)) ==> r == Ok::<Map<Seq<char>, Seq<HitRangeView>>, CollectErrorView>(
                read->Ok_0,
            )
            &&& export.code == Some(0i32) && read is Ok && (forall|name: Seq<char>|
                !#[trigger] read->Ok_0.contains_key(name)) ==> r is Err && r->Err_0 is EmptyMap
        }),
{
    let read = crate::function_map::export_map(
        crate::json::json_text(crate::diff::readable_text(export.stdout)),
        root,
        windows,
    );
    if read is Ok {
        let m = read->Ok_0;
        if forall|name: Seq<char>| !#[trigger] m.contains_key(name) {
            assert(m =~= Map::<Seq<char>, Seq<HitRangeView>>::empty());
        }
    }
}

/// The run of a collection goes through the runner, builds where the collection builds, does not fail for
/// want of tests, and takes the arguments of the caller as they are.
pub proof fn law_collection_runs_through_the_runner(
    runner: Seq<char>,
    build_dir: Seq<char>,
    config: Option<Seq<char>>,
    args: Seq<Seq<char>>,
)
    ensures
        ({
            let all = collect::collect_args_of(runner, build_dir, config, args);
            let n = all.len() - args.len();
            &&& n >= 7
            &&& all.skip(n) == args
            &&& all[0] == "nextest"@ && all[1] == "run"@
            &&& all[2] == "--config"@ && all[3] == runner
            &&& all[4] == "--target-dir"@ && all[5] == build_dir
            &&& all[6] == "--no-tests=warn"@
            &&& config is Some ==> n == 9 && all[7] == "--config-file"@ && all[8] == config->0
            &&& config is None ==> n == 7
        }),
{
    let all = collect::collect_args_of(runner, build_dir, config, args);
    assert(all.skip(all.len() - args.len()) =~= args);
}

/// The tests are listed as JSON, from a build directory of its own where there is one, with the
/// arguments of the caller behind.
pub proof fn law_tests_are_listed_as_json(build_dir: Option<Seq<char>>, args: Seq<Seq<char>>)
    ensures
        ({
            let all = collect::list_args_of(build_dir, args);
            let n = all.len() - args.len();
            &&& all.skip(n) == args
            &&& all[0] == "nextest"@ && all[1] == "list"@ && all[2] == "--message-format"@ && all[3] == "json"@
            &&& build_dir is None ==> n == 4
            &&& build_dir is Some ==> n == 6 && all[4] == "--target-dir"@ && all[5] == build_dir->0
        }),
{
    let all = collect::list_args_of(build_dir, args);
    assert(all.skip(all.len() - args.len()) =~= args);
}

/// A binary is exported as text against the profile that it is given.
pub proof fn law_binary_is_exported_against_its_profile(profdata: Seq<char>, binary: Seq<char>)
    ensures
        ({
            let all = collect::export_args_of(profdata, binary);
            &&& all[0] == "export"@ && all.contains("--format=text"@)
            &&& all.contains("--instr-profile="@ + profdata)
            &&& all.last() == binary
            &&& forall|i: int| 1 <= i < all.len() - 1 ==> (#[trigger] all[i]).len() > 2 && all[i][0] == '-' && all[i][1]
                == '-'
        }),
{
    reveal_strlit("--format=text");
    reveal_strlit("--instr-profile=");
    reveal_strlit("--ignore-filename-regex=/rustc/|/\\.cargo/|/target/");
    let all = collect::export_args_of(profdata, binary);
    assert(all[1] == "--format=text"@);
    assert(all[2] == "--instr-profile="@ + profdata);
}

/// Ranges are counted test by test.
pub proof fn law_ranges_are_counted(m: Seq<(TestIdView, Set<HitRangeView>)>, test: TestIdView, ranges: Set<HitRangeView>)
    ensures
        collect::range_count(m.push((test, ranges))) == collect::range_count(m) + ranges.len(),
        collect::range_count(Seq::empty()) == 0,
{
    assert(m.push((test, ranges)).drop_last() =~= m);
}

/// Results that can be used are recorded exactly where the components have labels of their own.
pub proof fn law_labels_must_be_distinct(
    f: crate::collect::FoldedView,
    components: Seq<(Seq<char>, Seq<char>)>,
    i: int,
    j: int,
)
    ensures
        collect::fold_problem(f) is Some ==> collect::conclusion_problem(f, components) == collect::fold_problem(f),
        collect::fold_problem(f) is None && 0 <= i < j < components.len() && components[i].0 == components[j].0
            ==> collect::conclusion_problem(f, components) == Some(CollectErrorView::DuplicateComponent),
        collect::fold_problem(f) is None && (forall|a: int, b: int|
            0 <= a < b < components.len() ==> (#[trigger] components[a]).0 != (#[trigger] components[b]).0)
            ==> collect::conclusion_problem(f, components) is None,
{
}

/// What is dropped is spoken of exactly where something is, with how much.
pub proof fn law_dropped_rows_are_spoken_of(n: nat, kept: nat)
    ensures
        collect::pruned_text(0) is None,
        collect::evicted_text(0, kept) is None,
        n > 0 ==> collect::pruned_text(n) is Some && crate::narration_laws::holds(
            collect::pruned_text(n)->0,
            crate::text::decimal(n),
        ),
        n > 0 ==> collect::evicted_text(n, kept) is Some && crate::narration_laws::holds(
            collect::evicted_text(n, kept)->0,
            crate::text::decimal(n),
        ) && crate::narration_laws::holds(collect::evicted_text(n, kept)->0, crate::text::decimal(kept)),
{
    if n > 0 {
        let d = crate::text::decimal(n);
        let k = crate::text::decimal(kept);
        let p = collect::plural(n);
        let rest = " test"@ + p + " no longer present in nextest list"@;
        crate::narration_laws::lemma_holds("pruned "@, d, rest);
        assert("pruned "@ + d + rest =~= collect::pruned_text(n)->0);
        let ten = crate::text::decimal(10);
        let tail = " of "@ + ten + ")"@;
        let head = "evicted "@ + d + " stale fingerprint"@ + p + " (kept "@;
        crate::narration_laws::lemma_holds(head, k, tail);
        assert(head + k + tail =~= collect::evicted_text(n, kept)->0);
        let after = " stale fingerprint"@ + p + " (kept "@ + k + tail;
        crate::narration_laws::lemma_holds("evicted "@, d, after);
        assert("evicted "@ + d + after =~= collect::evicted_text(n, kept)->0);
    }
}

/// Skipped tests are spoken of one by one, and their number once more where all binaries are known.
pub proof fn law_skipped_tests_are_spoken_of(f: crate::collect::FoldedView, i: int)
    requires
        0 <= i < f.skip_notes.len(),
        f.unknown_binaries.finite(),
    ensures
        ({
            let notes = collect::result_notes(f);
            &&& notes[i] == f.skip_notes[i]
            &&& f.unknown_binaries.len() == 0 ==> notes.len() == f.skip_notes.len() + 1
                && crate::text::decimal(f.skip_notes.len()).is_prefix_of(notes.last())
            &&& f.unknown_binaries.len() > 0 ==> notes.len() == f.skip_notes.len()
        }),
{
    if f.unknown_binaries.len() == 0 {
        assert(f.unknown_binaries =~= Set::<Seq<char>>::empty());
        let d = crate::text::decimal(f.skip_notes.len());
        let last = collect::result_notes(f).last();
        assert(last.take(d.len() as int) =~= d);
        assert(d =~= last.subrange(0, d.len() as int));
    }
}

} // verus!

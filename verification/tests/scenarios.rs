//! What users see: a project with coverage, a change, and what comes of it.

use cargo_affected::args::{args_for_listing, rule_listing_args};
use cargo_affected::collect::{check_working_tree, conclude, handle_no_results, plan_diff_collect};
use cargo_affected::collect::{prune_and_report, read_exported_map, sentinel_ranges, CollectError, DiffOutcome};
use cargo_affected::config::{config_rule_hits, resolve_config_hits};
use cargo_affected::coverage::HitRange;
use cargo_affected::db::{Db, TestId};
use cargo_affected::fingerprint::{collect_inputs, compute, Fingerprint, FingerprintComponent};
use cargo_affected::git::{relation_to_head, RelationStep, ShaRelation};
use cargo_affected::json::read_json;
use cargo_affected::listing::{nextest_list, BinaryEntry, Listing};
use cargo_affected::narration::{ending, exit_code, nextest_run_args, opening, Command, Ending};
use cargo_affected::ordered::{OrdMap, OrdSet};
use cargo_affected::plan::{assess, changed_paths, full_suite_report, plan, read_changes, selection_report};
use cargo_affected::plan::{CacheState, Plan};
use cargo_affected::process::ProcessOutput;
use cargo_affected::project::find_project_root;
use cargo_affected::report::{CacheStatus, SelectedTestKind, SelectionMode, ShaRelationKind};
use cargo_affected::selection::{check_shas_reachable, DiagnosticDetail, Reachability};
use cargo_affected::shim::{TestOutcome, TestResult};

const FP: &str = "fp";
const ADD: &str = "math::tests::test_add";
const MULTIPLY: &str = "math::tests::test_multiply";
const GREET: &str = "strings::tests::test_greet";
const NOW: &str = "2026-01-01T00:00:00Z";

fn ok(stdout: &str) -> ProcessOutput {
    ProcessOutput { code: Some(0), stdout: stdout.as_bytes().to_vec(), stderr: vec![] }
}

fn text(s: &str) -> String {
    s.to_string()
}

fn texts(list: &[&str]) -> OrdSet<String> {
    OrdSet::from_vec(list.iter().map(|s| s.to_string()).collect())
}

fn test_set(names: &[&str]) -> OrdSet<TestId> {
    OrdSet::from_vec(names.iter().map(|n| TestId::new("sample", n)).collect())
}

fn listing(names: &[&str], ignored: &[&str]) -> Listing {
    Listing {
        tests: test_set(names),
        ignored: test_set(ignored),
        unmatched: OrdSet::new(),
        binaries: vec![BinaryEntry { binary_id: text("sample"), binary_path: text("/t/deps/sample-1") }],
    }
}

fn components() -> Vec<FingerprintComponent> {
    vec![FingerprintComponent { label: text("cargo_lock"), hash: text("aa") }]
}

fn fingerprint() -> Fingerprint {
    Fingerprint { hex: text(FP), components: components() }
}

fn result(name: &str, file: &str, start: i64, end: i64) -> TestResult {
    let range = HitRange { file: text(file), line_start: start, line_end: end };
    TestResult {
        binary_id: text("sample"),
        test_name: text(name),
        outcome: TestOutcome::Collected { ranges: OrdSet::from_vec(vec![range]) },
    }
}

fn roots() -> OrdMap<String, OrdSet<HitRange>> {
    let mut files = OrdMap::new();
    files.insert(text("sample"), texts(&["src/lib.rs"]));
    sentinel_ranges(&files)
}

/// `add` on lines 1 to 3 and `multiply` on lines 5 to 7 of one file, `greet` in another.
fn collected(sha: &str) -> Db {
    let mut db = Db::new();
    let results = vec![
        result(ADD, "src/math.rs", 1, 3),
        result(MULTIPLY, "src/math.rs", 5, 7),
        result(GREET, "src/strings.rs", 1, 3),
    ];
    conclude(&mut db, None, results, &roots(), FP, &components(), sha, 0, NOW).unwrap();
    db
}

/// The diff of one-line edits.
fn edits(lines: &[(&str, u32)]) -> ProcessOutput {
    let mut diff = String::new();
    for (file, line) in lines {
        diff += &format!("diff --git a/{file} b/{file}\n--- a/{file}\n+++ b/{file}\n@@ -{line} +{line} @@\n-a\n+b\n");
    }
    ok(&diff)
}

fn at_head(sha: &str) -> Reachability {
    let mut per_sha = OrdMap::new();
    per_sha.insert(text(sha), ShaRelation::Equal);
    check_shas_reachable(per_sha)
}

fn plan_edits(db: &mut Db, reach: &Reachability, list: &Listing, since: &[(&str, &[(&str, u32)])]) -> Plan {
    let hunks: Vec<(String, ProcessOutput)> = since.iter().map(|(sha, e)| (text(sha), edits(e))).collect();
    let added: Vec<(String, ProcessOutput)> = since.iter().map(|(sha, _)| (text(sha), ok(""))).collect();
    let changes = read_changes(&hunks, &added, OrdSet::new()).unwrap();
    plan(db, FP, reach, list, changes, &OrdMap::new(), DiagnosticDetail::Full, NOW)
}

fn run_edits(db: &mut Db, reach: &Reachability, list: &Listing, since: &[(&str, &[(&str, u32)])]) -> Ending {
    let p = plan_edits(db, reach, list, since);
    ending(Command::Run, &p, reach, true)
}

fn all_tests() -> Listing {
    listing(&[ADD, MULTIPLY, GREET], &[])
}

#[test]
fn function_body_edit_selects_only_that_test() {
    let mut db = collected("c0");
    assert_eq!(db.test_count(FP), 3);
    assert_eq!(db.collect_shas(FP), texts(&["c0"]));
    let reach = at_head("c0");
    let p = plan_edits(&mut db, &reach, &all_tests(), &[("c0", &[("src/math.rs", 2)])]);
    assert_eq!(p.selection.selected(), test_set(&[ADD]));
}

#[test]
fn run_executes_only_affected_tests() {
    let mut db = collected("c0");
    let end = run_edits(&mut db, &at_head("c0"), &all_tests(), &[("c0", &[("src/math.rs", 2)])]);
    assert!(end.said.contains("1 tests to run") && end.said.contains("test_add"));
    assert!(!end.said.contains("test_multiply") && !end.said.contains("test_greet"));
    assert_eq!(end.tests, Some(vec![TestId::new("sample", ADD)]));
}

#[test]
fn added_derive_pulls_in_all_file_tests() {
    let mut db = collected("c0");
    let p = plan_edits(&mut db, &at_head("c0"), &all_tests(), &[("c0", &[("src/math.rs", 4)])]);
    assert_eq!(p.selection.selected(), test_set(&[ADD, MULTIPLY]));
}

#[test]
fn new_integration_test_is_selected_and_tagged() {
    let mut db = collected("c0");
    let list = listing(&[ADD, MULTIPLY, GREET, "added"], &[]);
    let end = run_edits(&mut db, &at_head("c0"), &list, &[("c0", &[])]);
    assert!(end.said.contains("sample::added (new)"), "{}", end.said);
    assert_eq!(end.tests, Some(vec![TestId::new("sample", "added")]));
}

#[test]
fn ignored_test_not_perpetually_new() {
    let mut db = collected("c0");
    let list = listing(&[ADD, MULTIPLY, GREET, "slow"], &["slow"]);
    let end = run_edits(&mut db, &at_head("c0"), &list, &[("c0", &[])]);
    assert!(end.said.contains("nothing to run"), "{}", end.said);
    assert_eq!(end.tests, None);
}

#[test]
fn new_test_detection_uses_run_features() {
    let args: Vec<String> = ["--features", "extra", "--no-fail-fast"].iter().map(|s| s.to_string()).collect();
    assert_eq!(args_for_listing(&args), ["--features", "extra"]);
}

#[test]
fn partition_shards_together_run_the_whole_selection() {
    for args in [vec!["--partition", "count:1/2"], vec!["--partition=count:2/2"]] {
        let args: Vec<String> = args.iter().map(|s| s.to_string()).collect();
        assert!(args_for_listing(&args).is_empty());
    }
}

#[test]
fn run_executes_full_suite_when_no_coverage_data() {
    let a = assess(&Db::new(), &fingerprint(), false, OrdMap::new());
    let start = opening(Command::Run, &a.state, 0);
    assert!(start.said[0].contains("no coverage data yet") && start.said[0].contains("running all tests"));
    let (status, summary) = start.full_suite.unwrap();
    assert_eq!(status, CacheStatus::MissNoCoverage);
    assert_eq!(summary, "cargo-affected: cache=miss-no-coverage mode=full-suite");
}

#[test]
fn clean_then_status_reports_no_coverage() {
    let mut db = collected("c0");
    db.clear();
    assert_eq!(db, Db::new());
    let a = assess(&db, &fingerprint(), false, OrdMap::new());
    let start = opening(Command::Status, &a.state, 0);
    assert!(start.said[0].contains("no coverage data yet") && start.said[0].contains("cargo affected collect"));
}

/// A commit that is in the repository, but not on the way to `HEAD`.
fn sibling(head: &str, sha: &str) -> ShaRelation {
    let exists = ok("");
    let ahead = ok("0\n");
    match relation_to_head(head, sha, Some(&exists), Some(&ahead)).unwrap() {
        RelationStep::Known(relation) => relation,
        _ => panic!("expected a settled relation"),
    }
}

#[test]
fn run_uses_selection_when_collect_sha_is_sibling() {
    let mut db = collected("c1");
    let mut per_sha = OrdMap::new();
    per_sha.insert(text("c1"), sibling("c0", "c1"));
    let a = assess(&db, &fingerprint(), false, per_sha);
    let start = opening(Command::Run, &a.state, 0);
    assert!(start.said.is_empty() && start.full_suite.is_none());
    let CacheState::Usable(reach) = a.state else { panic!("expected a usable cache") };
    let end = run_edits(&mut db, &reach, &all_tests(), &[("c1", &[("src/lib.rs", 3)])]);
    assert!(end.said.contains("tests to run") && end.said.contains("affected"));
    assert!(end.summary.contains("cache=hit-with-divergence"));
}

#[test]
fn sibling_collect_sha_status_uses_selection() {
    let mut db = collected("c1");
    let mut per_sha = OrdMap::new();
    per_sha.insert(text("c1"), sibling("c0", "c1"));
    let reach = check_shas_reachable(per_sha);
    let p = plan_edits(&mut db, &reach, &all_tests(), &[("c1", &[("src/lib.rs", 3)])]);
    let end = ending(Command::Status, &p, &reach, false);
    assert!(end.summary.contains("cache=hit-with-divergence"));
    assert!(end.said.contains("tests would run") && !end.said.contains("would run all tests"));
    assert_eq!(end.tests, None);
}

#[test]
fn missing_collect_sha_status_widens_to_all_tests() {
    let db = collected("c1");
    let gone = ProcessOutput { code: Some(128), stdout: vec![], stderr: vec![] };
    let relation = match relation_to_head("c0", "c1", Some(&gone), None).unwrap() {
        RelationStep::Known(relation) => relation,
        _ => panic!("expected a settled relation"),
    };
    let mut per_sha = OrdMap::new();
    per_sha.insert(text("c1"), relation);
    let a = assess(&db, &fingerprint(), false, per_sha);
    let start = opening(Command::Status, &a.state, db.region_count_at_shas(FP, &texts(&["c1"])));
    let said = start.said.join("\n");
    assert!(said.contains("not in the repo") && said.contains("would run all tests"), "{said}");
    assert!(!said.contains("stranded") && said.contains("would rerun as part of the full suite"), "{said}");
    assert!(said.contains("stale rows: 6 (anchored at missing sha)"), "{said}");
    let run = opening(Command::Run, &a.state, 0).said.join("\n");
    assert!(run.contains("will rerun as 'stranded'") && run.contains("running all tests"), "{run}");
    assert_eq!(
        start.full_suite.unwrap().1,
        "cargo-affected: cache=miss-no-reachable-sha mode=full-suite missing_shas=1",
    );
}

#[test]
fn collect_refuses_dirty_tree_by_default() {
    let e = check_working_tree(true, false).unwrap_err();
    assert_eq!(e, CollectError::Dirty);
    assert!(e.message().contains("uncommitted changes") && e.message().contains("--allow-dirty"));
}

#[test]
fn collect_with_allow_dirty_proceeds_with_warning() {
    assert!(check_working_tree(true, true).unwrap().unwrap().contains("dirty working tree"));
}

#[test]
fn run_with_no_changes_reports_nothing_to_do() {
    let mut db = collected("c0");
    let end = run_edits(&mut db, &at_head("c0"), &all_tests(), &[("c0", &[])]);
    assert!(end.said.contains("nothing to run"));
    assert_eq!(end.tests, None);
}

#[test]
fn run_reports_committed_uncovered_change_as_uncovered() {
    let mut per_sha = OrdMap::new();
    per_sha.insert(text("c0"), ShaRelation::Reachable { commits_ahead: 1 });
    let reach = check_shas_reachable(per_sha);
    for command in [Command::Run, Command::Status] {
        let mut db = collected("c0");
        let p = plan_edits(&mut db, &reach, &all_tests(), &[("c0", &[("README.md", 1)])]);
        let end = ending(command, &p, &reach, false);
        assert!(end.said.contains("no tests cover the changed lines"), "{}", end.said);
        assert!(!end.said.contains("no changes since the last collect"), "{}", end.said);
        assert_eq!(end.said.contains("(run `cargo affected collect` to update)"), command == Command::Run);
    }
}

/// Coverage of which one test was recorded anew at `c1`, after an edit on the second line of its
/// file.
fn recollected(test: &str, file: &str) -> Db {
    let mut db = collected("c0");
    let reach = at_head("c0");
    let hunks = vec![(text("c0"), edits(&[(file, 2)]))];
    let plan = match plan_diff_collect(&mut db, FP, &all_tests(), &reach, &hunks, NOW).unwrap() {
        DiffOutcome::Plan { plan, summary } => {
            assert!(summary.contains("1 tests to recollect"), "{summary}");
            plan
        }
        DiffOutcome::NothingToRecollect { .. } => panic!("expected a test to rerun"),
    };
    let results = vec![result(test, file, 1, 3)];
    conclude(&mut db, Some(&plan), results, &roots(), FP, &components(), "c1", 0, NOW).unwrap();
    db
}

#[test]
fn diff_collect_re_anchors_only_affected_tests() {
    let db = recollected(ADD, "src/math.rs");
    assert_eq!(db.all_tests_at_shas(FP, &texts(&["c1"])), test_set(&[ADD]));
    assert_eq!(db.all_tests_at_shas(FP, &texts(&["c0"])), test_set(&[MULTIPLY, GREET]));
}

#[test]
fn run_after_diff_collect_reports_no_changes() {
    let mut per_sha = OrdMap::new();
    per_sha.insert(text("c0"), ShaRelation::Reachable { commits_ahead: 1 });
    per_sha.insert(text("c1"), ShaRelation::Equal);
    let reach = check_shas_reachable(per_sha);
    for command in [Command::Run, Command::Status] {
        let mut db = recollected(GREET, "src/strings.rs");
        let p = plan_edits(&mut db, &reach, &all_tests(), &[("c0", &[("src/strings.rs", 2)]), ("c1", &[])]);
        let end = ending(command, &p, &reach, false);
        assert!(end.said.contains("no changes since the last collect"), "{}", end.said);
        assert!(!end.said.contains("no tests cover the changed lines"), "{}", end.said);
    }

    // A test of the edited file that is still anchored at the older commit is selected.
    let mut db = recollected(ADD, "src/math.rs");
    let end = run_edits(&mut db, &reach, &all_tests(), &[("c0", &[("src/math.rs", 2)]), ("c1", &[])]);
    assert_eq!(end.tests, Some(vec![TestId::new("sample", MULTIPLY)]));
}

#[test]
fn run_unions_affected_and_stranded_when_partially_diverged() {
    let mut db = recollected(ADD, "src/math.rs");
    let mut per_sha = OrdMap::new();
    per_sha.insert(text("c0"), ShaRelation::Missing);
    per_sha.insert(text("c1"), ShaRelation::Equal);
    let reach = check_shas_reachable(per_sha);
    let p = plan_edits(&mut db, &reach, &all_tests(), &[("c1", &[("src/math.rs", 2)])]);
    assert_eq!(p.selection.affected, test_set(&[ADD]));
    assert_eq!(p.selection.stranded_tests, test_set(&[MULTIPLY, GREET]));
    assert!(ending(Command::Run, &p, &reach, false).said.contains("3 tests to run"));
}

/// Recollects what one-line edits since the named commits reach, and anchors it at `head`.
fn recollect(db: &mut Db, reach: &Reachability, since: &[(&str, &str)], head: &str, test: &str, file: &str) {
    let mut hunks: Vec<(String, ProcessOutput)> = Vec::new();
    for sha in db.collect_shas(FP).items() {
        let edited: Vec<(&str, u32)> = since.iter().filter(|(s, _)| s == sha).map(|(_, f)| (*f, 2)).collect();
        hunks.push((sha.clone(), edits(&edited)));
    }
    let three = listing(&[FA, FB, FC], &[]);
    let DiffOutcome::Plan { plan, summary } = plan_diff_collect(db, FP, &three, reach, &hunks, NOW).unwrap() else {
        panic!("expected a test to rerun")
    };
    assert!(summary.contains("1 tests to recollect"), "{summary}");
    let results = vec![result(test, file, 1, 3)];
    conclude(db, Some(&plan), results, &roots(), FP, &components(), head, 0, NOW).unwrap();
}

const FA: &str = "a::tests::test_fa";
const FB: &str = "b::tests::test_fb";
const FC: &str = "c::tests::test_fc";

/// Three modules with one test each.
fn three_modules() -> Db {
    let mut db = Db::new();
    let results = vec![result(FA, "src/a.rs", 1, 3), result(FB, "src/b.rs", 1, 3), result(FC, "src/c.rs", 1, 3)];
    conclude(&mut db, None, results, &roots(), FP, &components(), "sha0", 0, NOW).unwrap();
    db
}

#[test]
fn diff_collect_accumulates_distinct_shas_across_rounds() {
    let mut db = three_modules();
    let mut per_sha = OrdMap::new();
    per_sha.insert(text("sha0"), ShaRelation::Reachable { commits_ahead: 1 });
    let reach = check_shas_reachable(per_sha);
    recollect(&mut db, &reach, &[("sha0", "src/a.rs")], "sha1", FA, "src/a.rs");

    let mut per_sha = OrdMap::new();
    per_sha.insert(text("sha0"), ShaRelation::Reachable { commits_ahead: 2 });
    per_sha.insert(text("sha1"), ShaRelation::Reachable { commits_ahead: 1 });
    let reach = check_shas_reachable(per_sha);
    let since = [("sha0", "src/a.rs"), ("sha0", "src/b.rs"), ("sha1", "src/b.rs")];
    recollect(&mut db, &reach, &since, "sha2", FB, "src/b.rs");

    assert_eq!(db.all_tests_at_shas(FP, &texts(&["sha1"])), test_set(&[FA]));
    assert_eq!(db.all_tests_at_shas(FP, &texts(&["sha2"])), test_set(&[FB]));
    assert_eq!(db.all_tests_at_shas(FP, &texts(&["sha0"])), test_set(&[FC]));
    assert_eq!(db.collect_shas(FP), texts(&["sha0", "sha1", "sha2"]));
}

#[test]
fn run_uses_reachable_shas_when_one_sha_diverges() {
    let mut db = three_modules();
    let mut per_sha = OrdMap::new();
    per_sha.insert(text("sha0"), ShaRelation::Reachable { commits_ahead: 1 });
    let reach = check_shas_reachable(per_sha);
    recollect(&mut db, &reach, &[("sha0", "src/a.rs")], "sha1", FA, "src/a.rs");

    let mut per_sha = OrdMap::new();
    per_sha.insert(text("sha0"), ShaRelation::Equal);
    per_sha.insert(text("sha1"), sibling("sha0", "sha1"));
    let a = assess(&db, &fingerprint(), false, per_sha);
    let start = opening(Command::Run, &a.state, 0);
    assert!(start.said.is_empty() && start.full_suite.is_none());
    let CacheState::Usable(reach) = a.state else { panic!("expected a usable cache") };
    let three = listing(&[FA, FB, FC], &[]);
    let p = plan_edits(&mut db, &reach, &three, &[("sha0", &[]), ("sha1", &[("src/a.rs", 2)])]);
    assert_eq!(p.selection.affected, test_set(&[FA]));
    let end = ending(Command::Run, &p, &reach, true);
    assert!(end.said.contains("1 tests to run") && end.said.contains("test_fa"), "{}", end.said);
    assert!(!end.said.contains("running all tests") && !end.said.contains("not in the repo"), "{}", end.said);
    assert!(db.region_count_at_shas(FP, &texts(&["sha1"])) > 0);
}

#[test]
fn run_forwards_fail_fast_flags_to_nextest() {
    let mut db = collected("c0");
    let end = run_edits(&mut db, &at_head("c0"), &all_tests(), &[("c0", &[("src/math.rs", 2), ("src/math.rs", 6)])]);
    assert_eq!(end.tests, Some(vec![TestId::new("sample", ADD), TestId::new("sample", MULTIPLY)]));
    for flags in [vec!["--test-threads=1"], vec!["--test-threads=1", "--no-fail-fast"], vec!["--test-threads=1", "--max-fail=2"]]
    {
        let args: Vec<String> = flags.iter().map(|s| s.to_string()).collect();
        assert!(args_for_listing(&args).is_empty());
        let mut expected = vec!["nextest", "run", "--config-file", "/t/select.toml"];
        expected.extend(flags);
        assert_eq!(nextest_run_args(Some("/t/select.toml"), &args), expected);
    }
    assert_eq!(exit_code(Some(100)), 100);
}

#[test]
fn diff_collect_errors_with_no_prior_collect() {
    let r = plan_diff_collect(&mut Db::new(), FP, &all_tests(), &check_shas_reachable(OrdMap::new()), &vec![], NOW);
    match r {
        Err(e) => {
            assert_eq!(e, CollectError::NoPriorCoverage);
            assert!(e.message().contains("--diff requires a prior `cargo affected collect`"));
        }
        Ok(_) => panic!("expected an error"),
    }
}

#[test]
fn diff_collect_clean_tree_exits_zero() {
    let mut db = collected("c0");
    let hunks = vec![(text("c0"), edits(&[]))];
    match plan_diff_collect(&mut db, FP, &all_tests(), &at_head("c0"), &hunks, NOW).unwrap() {
        DiffOutcome::NothingToRecollect { listed } => {
            assert_eq!(prune_and_report(&mut db, FP, &listed), None);
        }
        DiffOutcome::Plan { .. } => panic!("expected nothing to rerun"),
    }
    assert_eq!(db.test_count(FP), 3);
}

#[test]
fn diff_collect_prunes_deleted_tests() {
    let mut db = collected("c0");
    let hunks = vec![(text("c0"), edits(&[]))];
    let left = listing(&[ADD, GREET], &[]);
    match plan_diff_collect(&mut db, FP, &left, &at_head("c0"), &hunks, NOW).unwrap() {
        DiffOutcome::NothingToRecollect { listed } => assert_eq!(
            prune_and_report(&mut db, FP, &listed).unwrap(),
            "pruned 1 test no longer present in nextest list",
        ),
        DiffOutcome::Plan { .. } => panic!("expected nothing to rerun"),
    }
    assert_eq!(db.all_tests_for_fingerprint(FP), test_set(&[ADD, GREET]));
}

#[test]
fn diff_collect_keeps_ignored_test_rows() {
    let mut db = collected("c0");
    let list = listing(&[ADD, MULTIPLY, GREET], &[GREET]);
    assert_eq!(prune_and_report(&mut db, FP, &list.tests), None);
    assert_eq!(db.all_tests_for_fingerprint(FP), test_set(&[ADD, MULTIPLY, GREET]));
}

#[test]
fn diff_collect_all_phantom_selection_prunes_cleanly() {
    let mut db = collected("c0");
    let left = listing(&[MULTIPLY, GREET], &[]);
    let hunks = vec![(text("c0"), edits(&[("src/math.rs", 2)]))];
    let DiffOutcome::Plan { plan, .. } =
        plan_diff_collect(&mut db, FP, &left, &at_head("c0"), &hunks, NOW).unwrap()
    else {
        panic!("expected a test to rerun")
    };
    assert_eq!(plan.live_selected_count(), 0);
    let said = handle_no_results(&mut db, FP, Some(&plan), 0, "/t/results").unwrap();
    assert!(said[0].contains("every selected test is absent"), "{}", said[0]);
    assert_eq!(said[1], "pruned 1 test no longer present in nextest list");
    assert_eq!(db.all_tests_for_fingerprint(FP), test_set(&[MULTIPLY, GREET]));
}

const RULE: &str = r#"{"workspace_root": "/ws", "packages": [], "metadata":
    {"affected": {"rule": [{"globs": ["golden.txt"], "filterset": "test(=golden)"}]}}}"#;

fn plan_with_rule(db: &mut Db, changed: &[&str], added: &[&str]) -> Plan {
    let tree = texts(changed);
    let printed: String = added.iter().map(|f| format!("{f}\0")).collect();
    let since_added = vec![(text("c0"), ok(&printed))];
    let changes = read_changes(&vec![(text("c0"), ok(""))], &since_added, tree).unwrap();
    let meta = read_json(RULE).unwrap();
    let requests = config_rule_hits(&meta, "/ws", &changed_paths(&changes)).unwrap();
    let listings: Vec<Listing> = requests.iter().map(|_| listing(&[GREET], &[])).collect();
    let (hits, warnings) = resolve_config_hits(&requests, &listings);
    assert!(warnings.is_empty());
    plan(db, FP, &at_head("c0"), &all_tests(), changes, &hits, DiagnosticDetail::Full, NOW)
}

#[test]
fn config_rule_selects_test_for_non_rust_input_change() {
    let mut db = collected("c0");
    let p = plan_with_rule(&mut db, &["golden.txt"], &[]);
    assert_eq!(p.selection.config_tests, test_set(&[GREET]));
    assert_eq!(p.selection.selected(), test_set(&[GREET]));
}

#[test]
fn config_rule_rescues_committed_added_input() {
    let mut db = collected("c0");
    let p = plan_with_rule(&mut db, &[], &["golden.txt"]);
    assert_eq!(p.selection.config_tests, test_set(&[GREET]));
}

#[test]
fn config_rule_inert_when_no_glob_matches() {
    let mut db = collected("c0");
    let p = plan_with_rule(&mut db, &["other.txt"], &[]);
    assert!(p.selection.selected().is_empty());
}

/// What nextest lists of one binary: each test, whether it is ignored, and which filter rejects it.
fn filtered(cases: &[(&str, bool, Option<&str>)]) -> Listing {
    let cases: Vec<String> = cases
        .iter()
        .map(|(name, ignored, rejected_by)| {
            let outcome = match rejected_by {
                Some(reason) => format!(r#"{{"status": "mismatch", "reason": "{reason}"}}"#),
                None => r#"{"status": "matches"}"#.to_string(),
            };
            format!(r#""{name}": {{"ignored": {ignored}, "filter-match": {outcome}}}"#)
        })
        .collect();
    let json = format!(
        r#"{{"rust-suites": {{"sample": {{"binary-id": "sample", "binary-path": "/t/s-1", "testcases": {{{}}}}}}}}}"#,
        cases.join(", "),
    );
    nextest_list(json.as_bytes()).unwrap()
}

/// Changes `golden.txt`, which a rule maps to a filterset, and asks for the status: `live` is the
/// listing of the caller, `ruled` the one under the filterset.
fn golden_status(tests: &[&str], filterset: &str, live: &Listing, ruled: Listing) -> (Ending, Vec<String>) {
    let mut db = Db::new();
    let results = tests.iter().map(|t| result(t, "tests/golden.rs", 1, 3)).collect();
    conclude(&mut db, None, results, &roots(), FP, &components(), "c0", 0, NOW).unwrap();
    let changes =
        read_changes(&vec![(text("c0"), ok(""))], &vec![(text("c0"), ok(""))], texts(&["golden.txt"])).unwrap();
    let rule = format!(r#"{{"globs": ["golden.txt"], "filterset": "{filterset}"}}"#);
    let meta = format!(
        r#"{{"workspace_root": "/ws", "metadata": null, "packages": [{{"manifest_path": "/ws/Cargo.toml",
            "metadata": {{"affected": {{"rule": [{rule}]}}}}}}]}}"#
    );
    let requests = config_rule_hits(&read_json(&meta).unwrap(), "/ws", &changed_paths(&changes)).unwrap();
    assert_eq!(requests.len(), 1);
    assert_eq!(requests[0].filterset, filterset);
    let (hits, warnings) = resolve_config_hits(&requests, &vec![ruled]);
    let reach = at_head("c0");
    let p = plan(&mut db, FP, &reach, live, changes, &hits, DiagnosticDetail::Full, NOW);
    (ending(Command::Status, &p, &reach, true), warnings)
}

const GOLDEN: [&str; 3] = ["golden_matches", "unrelated_one", "unrelated_two"];

/// The tests under the filterset `test(=golden_matches)`.
fn golden_only() -> Listing {
    filtered(&[
        ("golden_matches", false, None),
        ("unrelated_one", false, Some("expression")),
        ("unrelated_two", false, Some("expression")),
    ])
}

#[test]
fn config_rule_selects_only_the_tests_its_filterset_matches() {
    let live = filtered(&GOLDEN.map(|t| (t, false, None)));
    let (end, warnings) = golden_status(&GOLDEN, "test(=golden_matches)", &live, golden_only());
    assert!(warnings.is_empty());
    assert!(end.summary.contains("selection=1/3"), "{}", end.summary);
    assert!(end.said.contains("1 config"), "{}", end.said);
    assert!(end.said.contains("golden_matches (config)"), "{}", end.said);
    assert!(!end.said.contains("unrelated_one") && !end.said.contains("unrelated_two"), "{}", end.said);
}

#[test]
fn config_rule_ignores_the_callers_filterset() {
    let args: Vec<String> = ["-E", "test(=unrelated_one)"].map(text).to_vec();
    assert_eq!(
        rule_listing_args(&args, "test(=golden_matches)"),
        ["--run-ignored", "all", "-E", "test(=golden_matches)"],
    );
    let live = filtered(&[
        ("golden_matches", false, Some("expression")),
        ("unrelated_one", false, None),
        ("unrelated_two", false, Some("expression")),
    ]);
    let (end, _) = golden_status(&GOLDEN, "test(=golden_matches)", &live, golden_only());
    assert!(end.summary.contains("selection=0/3"), "{}", end.summary);
    assert!(!end.said.contains("unrelated_one"), "{}", end.said);
}

#[test]
fn config_rule_does_not_warn_when_the_caller_filters_its_test_out() {
    let args = vec![text("unrelated")];
    assert_eq!(
        rule_listing_args(&args, "test(=golden_matches)"),
        ["--run-ignored", "all", "-E", "test(=golden_matches)"],
    );
    let live = filtered(&[
        ("golden_matches", false, Some("string")),
        ("unrelated_one", false, None),
        ("unrelated_two", false, None),
    ]);
    let (end, warnings) = golden_status(&GOLDEN, "test(=golden_matches)", &live, golden_only());
    assert!(warnings.is_empty(), "{warnings:?}");
    assert!(end.summary.contains("selection=0/3"), "{}", end.summary);
    assert!(!end.said.contains("unrelated_one") && !end.said.contains("unrelated_two"), "{}", end.said);
}

#[test]
fn config_rule_warns_for_a_filterset_that_matches_nothing() {
    let live = filtered(&[("golden_matches", false, None), ("ignored_one", true, Some("ignored"))]);
    let ruled = filtered(&[("golden_matches", false, Some("expression")), ("ignored_one", true, Some("expression"))]);
    let (_, warnings) = golden_status(&["golden_matches"], "test(=no_such_test)", &live, ruled);
    assert_eq!(warnings.len(), 1);
    assert!(warnings[0].contains("matched no tests"), "{}", warnings[0]);
}

fn environment(manifest: &str) -> Fingerprint {
    compute(&collect_inputs(
        "/ws",
        false,
        b"lock".to_vec(),
        vec![(text("/ws/Cargo.toml"), manifest.as_bytes().to_vec())],
        b"rustc 1".to_vec(),
        "",
        "",
    ))
}

#[test]
fn cargo_toml_change_invalidates_fingerprint() {
    let before = environment("[package]\nversion = \"0.1.0\"\n");
    let after = environment("[package]\nversion = \"0.2.0\"\n");
    let mut db = Db::new();
    let results = vec![result(ADD, "src/math.rs", 1, 3)];
    conclude(&mut db, None, results, &roots(), &before.hex, &before.components, "c0", 0, NOW).unwrap();
    let a = assess(&db, &after, false, OrdMap::new());
    let start = opening(Command::Status, &a.state, 0);
    assert!(start.said[0].contains("no coverage data for the current environment"), "{}", start.said[0]);
    assert!(start.said[0].contains("differs from closest stored fingerprint in:"), "{}", start.said[0]);
    assert!(start.said[0].contains("manifest:Cargo.toml"), "{}", start.said[0]);
    assert!(start.said[0].contains("cargo affected collect"), "{}", start.said[0]);
}

#[test]
fn remapped_source_paths_fail_the_collect() {
    let export = ok(
        r#"{"data": [{"functions": [{"name": "f", "filenames": ["/elsewhere/src/math.rs"],
            "regions": [[1, 1, 3, 2, 0, 0, 0, 0]]}]}]}"#,
    );
    let e = read_exported_map("sample", &export, "/ws", false).unwrap_err();
    assert!(e.message().contains("no instrumented functions under /ws"), "{}", e.message());
}

#[test]
fn report_json_documents_selection_in_full_detail() {
    let mut db = collected("c0");
    let reach = at_head("c0");
    let p = plan_edits(&mut db, &reach, &all_tests(), &[("c0", &[("src/math.rs", 2)])]);
    let stored = db.stored_fingerprint_snapshots();
    let r = selection_report("0.1.0", "status", &db, &fingerprint(), stored, &reach, &p);
    assert_eq!((r.schema_version, r.command.as_str()), (1, "status"));
    assert_eq!(r.cache.status, CacheStatus::HitExact);
    assert_eq!(r.cache.current_fingerprint, Some(text(FP)));
    assert_eq!(r.cache.stored_fingerprints[0].diff_count, 0);
    assert_eq!(r.cache.collect_shas.len(), 1);
    assert_eq!(r.cache.collect_shas[0].relation, ShaRelationKind::Equal);
    assert_eq!(r.cache.collect_shas[0].commits_ahead, None);
    let s = &r.selection.summary;
    assert_eq!(s.mode, SelectionMode::Selection);
    assert_eq!((s.selected, s.affected, s.config), (Some(1), Some(1), Some(0)));
    assert_eq!((s.new, s.stranded, s.skipped, s.total_reachable_known), (Some(0), Some(0), Some(2), Some(3)));
    let changed = r.selection.changed_files.unwrap();
    assert_eq!(changed.len(), 1);
    assert_eq!(changed[0].path, "src/math.rs");
    assert!(changed[0].tracked_by_coverage);
    assert_eq!((changed[0].tests_pulled_total, changed[0].tests_pulled_by_reason.line_overlap), (1, 1));
    let tests = r.selection.selected_tests.unwrap();
    assert_eq!(tests.len(), 1);
    assert_eq!((tests[0].test_name.as_str(), tests[0].kind), (ADD, SelectedTestKind::Affected));
    assert_eq!(tests[0].reasons.len(), 1);
    assert_eq!(tests[0].reasons[0].file, "src/math.rs");
    assert_eq!(tests[0].reasons[0].stored_range, Some((1, 3)));
    assert_eq!(tests[0].reasons[0].matched_hunk, (2, 2));
}

#[test]
fn report_json_summary_detail_omits_per_test_vectors() {
    let mut db = collected("c0");
    let reach = at_head("c0");
    let hunks = vec![(text("c0"), edits(&[("src/math.rs", 2)]))];
    let changes = read_changes(&hunks, &vec![(text("c0"), ok(""))], OrdSet::new()).unwrap();
    let p = plan(&mut db, FP, &reach, &all_tests(), changes, &OrdMap::new(), DiagnosticDetail::Summary, NOW);
    let r = selection_report("0.1.0", "status", &db, &fingerprint(), vec![], &reach, &p);
    assert_eq!(r.selection.summary.mode, SelectionMode::Selection);
    assert_eq!(r.selection.changed_files.unwrap().len(), 1);
    assert!(r.selection.selected_tests.is_none());
}

#[test]
fn report_json_full_suite_shape_under_all() {
    let status = CacheStatus::ForcedAll;
    let r = full_suite_report("0.1.0", "run", status, Some(&fingerprint()), vec![], vec![]);
    assert_eq!(r.command, "run");
    assert_eq!(r.cache.status.as_str(), "forced-all");
    let s = &r.selection.summary;
    assert_eq!(s.mode, SelectionMode::FullSuiteNoListing);
    assert_eq!((s.selected, s.affected, s.config), (None, None, None));
    assert_eq!((s.new, s.stranded, s.skipped, s.total_reachable_known), (None, None, None, None));
    assert!(r.selection.changed_files.is_none() && r.selection.selected_tests.is_none());
}

/// Two members: `math`, with an integration test, depends on `strings`.
fn workspace_roots() -> OrdMap<String, OrdSet<String>> {
    let meta = r#"{"workspace_root": "/ws", "packages": [
        {"id": "m", "name": "math", "manifest_path": "/ws/math/Cargo.toml",
         "dependencies": [{"name": "strings", "path": "/ws/strings"}],
         "targets": [
            {"name": "math", "kind": ["lib"], "test": true, "src_path": "/ws/math/src/lib.rs"},
            {"name": "integration", "kind": ["test"], "test": true, "src_path": "/ws/math/tests/integration.rs"}]},
        {"id": "s", "name": "strings", "manifest_path": "/ws/strings/Cargo.toml", "dependencies": [],
         "targets": [{"name": "strings", "kind": ["lib"], "test": true, "src_path": "/ws/strings/src/lib.rs"}]}]}"#;
    let project = find_project_root(read_json(meta).unwrap(), true).unwrap();
    project.crate_root_sentinels_by_binary_id(false)
}

/// The tests that an edit far down in a crate root selects.
fn edit_root(file: &str) -> OrdSet<TestId> {
    let mut db = Db::new();
    let unit = |binary: &str, test: &str| TestResult {
        binary_id: text(binary),
        test_name: text(test),
        outcome: TestOutcome::Collected { ranges: OrdSet::new() },
    };
    let results = vec![
        unit("math", "test_math_add"),
        unit("math::integration", "test_math_integration"),
        unit("strings", "test_strings_greet"),
    ];
    let roots = sentinel_ranges(&workspace_roots());
    conclude(&mut db, None, results, &roots, FP, &components(), "c0", 0, NOW).unwrap();
    let none = listing(&[], &[]);
    plan_edits(&mut db, &at_head("c0"), &none, &[("c0", &[(file, 400)])]).selection.affected
}

#[test]
fn editing_lib_in_one_member_does_not_pull_in_unrelated_member() {
    let expected = vec![TestId::new("math", "test_math_add"), TestId::new("math::integration", "test_math_integration")];
    assert_eq!(edit_root("math/src/lib.rs"), OrdSet::from_vec(expected));
}

#[test]
fn editing_integration_test_does_not_pull_in_lib_unit_tests() {
    let expected = vec![TestId::new("math::integration", "test_math_integration")];
    assert_eq!(edit_root("math/tests/integration.rs"), OrdSet::from_vec(expected));
}

#[test]
fn editing_dep_lib_pulls_in_dependent_tests() {
    let expected = vec![
        TestId::new("math", "test_math_add"),
        TestId::new("math::integration", "test_math_integration"),
        TestId::new("strings", "test_strings_greet"),
    ];
    assert_eq!(edit_root("strings/src/lib.rs"), OrdSet::from_vec(expected));
}

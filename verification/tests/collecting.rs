//! Collections: which binaries and tests they cover, what they make of results, what they record.

use cargo_affected::args::cargo_build_args;
use cargo_affected::collect::{binaries_for_run, check_empty_profile, check_working_tree};
use cargo_affected::collect::{collect_run_args, conclude, diff_notices, export_args, fold_results};
use cargo_affected::collect::{handle_no_results, instrumented_rustflags, is_staging_dir};
use cargo_affected::collect::{nextest_list_args, plan_diff_collect, prune_and_report};
use cargo_affected::collect::{read_exported_map, recording_line, sentinel_ranges, sort_results};
use cargo_affected::collect::{staging_dirs, CollectError, DiffOutcome, DiffPlan};
use cargo_affected::coverage::{ExportError, HitRange};
use cargo_affected::db::{Db, TestId};
use cargo_affected::diff::LineRange;
use cargo_affected::fingerprint::FingerprintComponent;
use cargo_affected::git::ShaRelation;
use cargo_affected::listing::{BinaryEntry, Listing};
use cargo_affected::nextest::{format_runner_config, nextest_filter_expr, nextest_version_at_least};
use cargo_affected::nextest::{nextest_config_path, write_nextest_config, NextestConfigError};
use cargo_affected::ordered::{OrdMap, OrdSet};
use cargo_affected::process::ProcessOutput;
use cargo_affected::selection::{check_shas_reachable, compute, DiagnosticDetail};
use cargo_affected::shim::{TestOutcome, TestResult};

fn test_set(tests: &[(&str, &str)]) -> OrdSet<TestId> {
    OrdSet::from_vec(tests.iter().map(|(b, t)| TestId::new(b, t)).collect())
}

fn listing(binaries: &[(&str, &str)], tests: &[(&str, &str)]) -> Listing {
    Listing {
        tests: test_set(tests),
        ignored: OrdSet::new(),
        unmatched: OrdSet::new(),
        binaries: binaries
            .iter()
            .map(|(id, path)| BinaryEntry { binary_id: id.to_string(), binary_path: path.to_string() })
            .collect(),
    }
}

fn strings(args: &[&str]) -> Vec<String> {
    args.iter().map(|s| s.to_string()).collect()
}

fn range(file: &str, start: i64, end: i64) -> HitRange {
    HitRange { file: file.to_string(), line_start: start, line_end: end }
}

fn component() -> Vec<FingerprintComponent> {
    vec![FingerprintComponent { label: "cargo_lock".to_string(), hash: "aa".to_string() }]
}

fn roots(binary: &str, file: &str) -> OrdMap<String, OrdSet<HitRange>> {
    let mut files = OrdMap::new();
    files.insert(binary.to_string(), OrdSet::from_vec(vec![file.to_string()]));
    sentinel_ranges(&files)
}

fn collected(binary: &str, test: &str, ranges: Vec<HitRange>) -> TestResult {
    TestResult {
        binary_id: binary.to_string(),
        test_name: test.to_string(),
        outcome: TestOutcome::Collected { ranges: OrdSet::from_vec(ranges) },
    }
}

fn skipped(binary: &str, test: &str, reason: &str) -> TestResult {
    TestResult {
        binary_id: binary.to_string(),
        test_name: test.to_string(),
        outcome: TestOutcome::Skipped { reason: reason.to_string() },
    }
}

fn output(code: i32, stdout: &str, stderr: &str) -> ProcessOutput {
    ProcessOutput { code: Some(code), stdout: stdout.as_bytes().to_vec(), stderr: stderr.as_bytes().to_vec() }
}

#[test]
fn binaries_for_run_skips_testless_binaries() {
    let listing = listing(
        &[("sample", "deps/sample-1"), ("sample::golden", "deps/golden-2")],
        &[("sample::golden", "golden_matches")],
    );
    let mapped: Vec<&str> = binaries_for_run(&listing, None).iter().map(|b| b.binary_id.as_str()).collect();
    assert_eq!(mapped, ["sample::golden"]);
}

#[test]
fn binaries_for_run_narrows_to_the_diff_selection() {
    let listing = listing(
        &[("crate-a", "deps/crate_a-1"), ("crate-b", "deps/crate_b-2"), ("crate-c", "deps/crate_c-3")],
        &[("crate-a", "test_one"), ("crate-b", "test_two"), ("crate-c", "test_three")],
    );
    let plan = DiffPlan {
        selected: test_set(&[("crate-a", "test_one"), ("crate-c", "test_renamed_away")]),
        listed: listing.tests.duplicate(),
    };
    let mapped: Vec<&str> = binaries_for_run(&listing, Some(&plan)).iter().map(|b| b.binary_id.as_str()).collect();
    assert_eq!(mapped, ["crate-a"]);
}

#[test]
fn filter_expr_empty_matches_nothing() {
    assert_eq!(nextest_filter_expr(&vec![]), "none()");
}

#[test]
fn filter_expr_groups_by_binary() {
    let tests = vec![
        TestId::new("mock-stub::builds", "builds"),
        TestId::new("wt-perf::builds", "builds"),
        TestId::new("worktrunk", "utils::tests::test_x"),
        TestId::new("worktrunk", "utils::tests::test_y"),
    ];
    assert_eq!(
        nextest_filter_expr(&tests),
        "(binary_id(=mock-stub::builds) & (test(=builds))) | \
         (binary_id(=worktrunk) & (test(=utils::tests::test_x) | test(=utils::tests::test_y))) | \
         (binary_id(=wt-perf::builds) & (test(=builds)))",
    );
}

#[test]
fn cargo_build_args_keeps_build_flags_drops_run_only() {
    let args = strings(&[
        "--features",
        "shell-integration-tests",
        "--no-fail-fast",
        "--retries",
        "2",
        "--release",
        "--no-tests=warn",
    ]);
    assert_eq!(cargo_build_args(&args), vec!["--features", "shell-integration-tests", "--release"]);
}

#[test]
fn cargo_build_args_handles_joined_and_short_forms() {
    let args = strings(&["--features=a,b", "-p", "mycrate", "-r", "--max-fail=3", "some_test_filter"]);
    assert_eq!(cargo_build_args(&args), vec!["--features=a,b", "-p", "mycrate", "-r"]);
}

#[test]
fn cargo_build_args_empty() {
    assert!(cargo_build_args(&vec![]).is_empty());
}

#[test]
fn large_selection_travels_in_config_file_not_argv() {
    let names: Vec<String> = (0..3000).map(|i| format!("really_long_test_name_for_overflow_check_{i}")).collect();
    let tests: Vec<TestId> = names.iter().map(|n| TestId::new("worktrunk", n)).collect();
    let expr = nextest_filter_expr(&tests);
    assert!(expr.len() > 32 * 1024, "expected a large filterset, got {} bytes", expr.len());
    let config = nextest_config_path("/work/sample", 77);
    assert!(config.starts_with("/work/sample"));
    let written = write_nextest_config("", &expr).unwrap();
    for n in &names {
        assert!(written.contains(&format!("test(={n})")), "missing {n}");
    }
}

#[test]
fn write_nextest_config_preserves_project_settings() {
    let text = write_nextest_config(
        "experimental = [\"setup-scripts\"]\n\
         \n\
         [profile.default]\n\
         slow-timeout = \"60s\"\n\
         \n\
         [profile.ci]\n\
         retries = 2\n\
         \n\
         [scripts.setup.build-bins]\n\
         command = [\"bash\", \"-c\", \"true\"]\n\
         \n\
         [[profile.default.scripts]]\n\
         filter = \"binary(integration)\"\n\
         setup = \"build-bins\"\n",
        "binary_id(=x) & test(=y)",
    )
    .unwrap();
    let doc: toml_edit::DocumentMut = text.parse().unwrap();
    assert_eq!(doc["profile"]["default"]["default-filter"].as_str().unwrap(), "binary_id(=x) & test(=y)");
    assert_eq!(doc["experimental"].as_array().unwrap().len(), 1);
    assert_eq!(doc["profile"]["default"]["slow-timeout"].as_str().unwrap(), "60s");
    assert_eq!(doc["profile"]["ci"]["retries"].as_integer().unwrap(), 2);
    assert!(doc["scripts"]["setup"]["build-bins"]["command"].is_array());
    assert_eq!(doc["profile"]["default"]["scripts"].as_array_of_tables().unwrap().len(), 1);
}

#[test]
fn write_nextest_config_intersects_existing_default_filter() {
    let text =
        write_nextest_config("[profile.default]\ndefault-filter = \"not test(slow)\"\n", "test(=y)").unwrap();
    let doc: toml_edit::DocumentMut = text.parse().unwrap();
    assert_eq!(doc["profile"]["default"]["default-filter"].as_str().unwrap(), "(test(=y)) & (not test(slow))");
}

#[test]
fn write_nextest_config_without_project_config() {
    let path = nextest_config_path("/work/sample", 4711);
    assert_eq!(path, "/work/sample/target/affected/nextest-config-4711.toml");
    let doc: toml_edit::DocumentMut = write_nextest_config("", "test(=solo)").unwrap().parse().unwrap();
    assert_eq!(doc["profile"]["default"]["default-filter"].as_str().unwrap(), "test(=solo)");
}

#[test]
fn nextest_config_that_is_no_toml_is_refused() {
    assert!(matches!(write_nextest_config("[profile", "test(=y)"), Err(NextestConfigError::NotToml(_))));
}

#[test]
fn nextest_profile_that_is_no_table_is_refused() {
    let r = write_nextest_config("profile = 3\n", "test(=y)");
    assert_eq!(r, Err(NextestConfigError::NotATable));
}

#[test]
fn runner_config_uses_toml_array_form() {
    assert_eq!(
        format_runner_config("aarch64-apple-darwin", "/usr/local/bin/cargo-affected"),
        r#"target.aarch64-apple-darwin.runner=["/usr/local/bin/cargo-affected", "runner-shim"]"#,
    );
}

#[test]
fn runner_config_preserves_spaces_in_path() {
    assert_eq!(
        format_runner_config("aarch64-apple-darwin", "/Users/Joe Smith/.cargo/bin/cargo-affected"),
        r#"target.aarch64-apple-darwin.runner=["/Users/Joe Smith/.cargo/bin/cargo-affected", "runner-shim"]"#,
    );
}

#[test]
fn runner_config_escapes_backslashes_and_quotes() {
    assert_eq!(
        format_runner_config("x86_64-pc-windows-msvc", r#"C:\Users\Joe "Q" Smith\cargo-affected.exe"#),
        r#"target.x86_64-pc-windows-msvc.runner=["C:\\Users\\Joe \"Q\" Smith\\cargo-affected.exe", "runner-shim"]"#,
    );
}

#[test]
fn nextest_version_compares_dotted_numbers() {
    assert!(nextest_version_at_least("0.9.116", "0.9.116"));
    assert!(nextest_version_at_least("0.9.132", "0.9.116"));
    assert!(nextest_version_at_least("0.10.0", "0.9.116"));
    assert!(nextest_version_at_least("1.0.0", "0.9.116"));
    assert!(!nextest_version_at_least("0.9.115", "0.9.116"));
    assert!(!nextest_version_at_least("0.9.99", "0.9.116"));
    assert!(!nextest_version_at_least("0.8.999", "0.9.116"));
    assert!(nextest_version_at_least("0.9.132-dev", "0.9.116"));
    assert!(nextest_version_at_least("0.9.116+sha.abc", "0.9.116"));
    assert!(!nextest_version_at_least("garbage", "0.9.116"));
    assert!(!nextest_version_at_least("", "0.9.116"));
}

#[test]
fn clean_staging_dirs_removes_only_staging() {
    let names = ["profraw-123", "results-456", "function-maps-789", "build", "coverage.db"];
    let removed: Vec<&str> = names.iter().filter(|n| is_staging_dir(n)).map(|n| *n).collect();
    assert_eq!(removed, ["profraw-123", "results-456", "function-maps-789"]);
}

#[test]
fn staging_directories_are_found_by_a_cleanup() {
    let dirs = staging_dirs("/w/target/affected", 42);
    assert_eq!(dirs.profraw, "/w/target/affected/profraw-42");
    assert_eq!(dirs.results, "/w/target/affected/results-42");
    assert_eq!(dirs.function_maps, "/w/target/affected/function-maps-42");
    assert!(is_staging_dir("profraw-42") && is_staging_dir("results-42") && is_staging_dir("function-maps-42"));
}

#[test]
fn dirty_tree_is_refused_unless_allowed() {
    assert_eq!(check_working_tree(false, false), Ok(None));
    assert_eq!(check_working_tree(false, true), Ok(None));
    let e = check_working_tree(true, false).unwrap_err();
    assert_eq!(e, CollectError::Dirty);
    assert!(e.message().contains("uncommitted changes") && e.message().contains("--allow-dirty"));
    assert!(check_working_tree(true, true).unwrap().unwrap().contains("dirty working tree"));
}

#[test]
fn instrumentation_is_added_to_the_flags_of_the_user() {
    assert_eq!(instrumented_rustflags(""), "-C instrument-coverage");
    assert_eq!(instrumented_rustflags("--cfg x"), "--cfg x -C instrument-coverage");
}

#[test]
fn arguments_of_the_runs() {
    assert_eq!(
        nextest_list_args(Some("/b"), &strings(&["--release"])),
        ["nextest", "list", "--message-format", "json", "--target-dir", "/b", "--release"],
    );
    assert_eq!(nextest_list_args(None, &vec![]), ["nextest", "list", "--message-format", "json"]);
    assert_eq!(
        collect_run_args("target.x.runner=[]", "/b", Some("/c.toml"), &strings(&["--retries", "2"])),
        [
            "nextest",
            "run",
            "--config",
            "target.x.runner=[]",
            "--target-dir",
            "/b",
            "--no-tests=warn",
            "--config-file",
            "/c.toml",
            "--retries",
            "2",
        ],
    );
    assert_eq!(
        export_args("/p/empty.profdata", "/t/bin-1"),
        [
            "export",
            "--format=text",
            "--instr-profile=/p/empty.profdata",
            "--ignore-filename-regex=/rustc/|/\\.cargo/|/target/",
            "/t/bin-1",
        ],
    );
}

#[test]
fn results_are_sorted_by_binary_and_test() {
    let sorted = sort_results(vec![
        skipped("b", "t1", "x"),
        skipped("a", "t2", "y"),
        skipped("a", "t1", "z"),
    ]);
    let names: Vec<(&str, &str)> = sorted.iter().map(|r| (r.binary_id.as_str(), r.test_name.as_str())).collect();
    assert_eq!(names, [("a", "t1"), ("a", "t2"), ("b", "t1")]);
}

#[test]
fn folding_adds_crate_roots_and_notes_the_rest() {
    let folded = fold_results(
        vec![
            collected("crate-a", "t1", vec![range("src/x.rs", 3, 9)]),
            skipped("crate-a", "t2", "no profraw"),
            collected("other", "t3", vec![]),
        ],
        &roots("crate-a", "src/lib.rs"),
    );
    assert_eq!(folded.mappings.len(), 1);
    assert_eq!(folded.mappings[0].0, TestId::new("crate-a", "t1"));
    assert_eq!(
        folded.mappings[0].1,
        OrdSet::from_vec(vec![range("src/x.rs", 3, 9), HitRange::sentinel("src/lib.rs".to_string())]),
    );
    assert_eq!(folded.skip_notes, ["  skipped crate-a::t2: no profraw"]);
    assert_eq!(folded.skipped_line().unwrap(), "1 test produced no coverage");
    assert_eq!(folded.check(), Err(CollectError::UnknownBinaries(vec!["other".to_string()])));
    assert_eq!(
        folded.check().unwrap_err().message(),
        "coverage results reference binary_ids absent from the workspace (metadata/listing divergence): other",
    );
}

#[test]
fn a_run_without_any_coverage_is_not_recorded() {
    let mut db = Db::new();
    let before = Db::new();
    let r = conclude(
        &mut db,
        None,
        vec![skipped("a", "t1", "x"), skipped("a", "t2", "y")],
        &roots("a", "src/lib.rs"),
        "fp",
        &component(),
        "sha",
        0,
        "2026-01-01T00:00:00Z",
    );
    let (said, e) = r.unwrap_err();
    assert_eq!(said, ["  skipped a::t1: x", "  skipped a::t2: y", "2 tests produced no coverage"]);
    assert_eq!(e, CollectError::NothingExtracted { skipped: 2 });
    assert!(e.message().contains("any of the 2 completed tests"));
    assert_eq!(db, before);
}

#[test]
fn two_components_with_one_label_are_refused() {
    let mut db = Db::new();
    let mut twice = component();
    twice.extend(component());
    let r = conclude(
        &mut db,
        None,
        vec![collected("a", "t1", vec![])],
        &roots("a", "src/lib.rs"),
        "fp",
        &twice,
        "sha",
        0,
        "now",
    );
    let (_, e) = r.unwrap_err();
    assert_eq!(e, CollectError::DuplicateComponent);
    assert!(e.message().starts_with("UNIQUE constraint failed"));
    assert_eq!(db, Db::new());
}

#[test]
fn a_change_after_a_collection_selects_what_it_reaches() {
    let listed = listing(&[("a", "/bin/a")], &[("a", "t1"), ("a", "t2")]);
    let shas = OrdSet::from_vec(vec!["sha".to_string()]);
    let select = |file: Option<(&str, i64)>| {
        let mut db = Db::new();
        conclude(
            &mut db,
            None,
            vec![
                collected("a", "t1", vec![range("src/x.rs", 1, 5)]),
                collected("a", "t2", vec![range("src/x.rs", 7, 9)]),
            ],
            &roots("a", "src/lib.rs"),
            "fp",
            &component(),
            "sha",
            0,
            "2026-01-01T00:00:00Z",
        )
        .unwrap();
        let mut files = OrdMap::new();
        if let Some((file, line)) = file {
            files.insert(file.to_string(), vec![LineRange { start: line, end: line }]);
        }
        let mut ranges = OrdMap::new();
        ranges.insert("sha".to_string(), files);
        let sel =
            compute(&mut db, "fp", &shas, &ranges, &listed, &OrdMap::new(), DiagnosticDetail::Summary, "later");
        sel.selected()
    };
    assert_eq!(select(None), test_set(&[]));
    assert_eq!(select(Some(("src/other.rs", 1))), test_set(&[]));
    assert_eq!(select(Some(("src/x.rs", 5))), test_set(&[("a", "t1")]));
    assert_eq!(select(Some(("src/x.rs", 7))), test_set(&[("a", "t2")]));
    // No recorded range holds the line: every test of the file is selected.
    assert_eq!(select(Some(("src/x.rs", 6))), test_set(&[("a", "t1"), ("a", "t2")]));
    assert_eq!(select(Some(("src/lib.rs", 400))), test_set(&[("a", "t1"), ("a", "t2")]));
}

#[test]
fn a_full_collection_replaces_and_an_incremental_one_updates() {
    let mut db = Db::new();
    let full = conclude(
        &mut db,
        None,
        vec![
            collected("a", "t1", vec![range("src/x.rs", 1, 2)]),
            collected("a", "t2", vec![range("src/y.rs", 1, 2)]),
            collected("a", "gone", vec![]),
        ],
        &roots("a", "src/lib.rs"),
        "fp",
        &component(),
        "sha0",
        0,
        "2026-01-01T00:00:00Z",
    )
    .unwrap();
    assert_eq!(full.exit, 0);
    assert_eq!(full.said, ["storing coverage for 3 tests (5 ranges)..."]);
    assert_eq!(full.done.unwrap(), "done. 3 tests, 5 ranges stored in target/affected/coverage.db");
    assert_eq!(db.test_count("fp"), 3);

    let plan = DiffPlan {
        selected: test_set(&[("a", "t1")]),
        listed: test_set(&[("a", "t1"), ("a", "t2")]),
    };
    let update = conclude(
        &mut db,
        Some(&plan),
        vec![collected("a", "t1", vec![range("src/x.rs", 1, 4)])],
        &roots("a", "src/lib.rs"),
        "fp",
        &component(),
        "sha1",
        7,
        "2026-01-02T00:00:00Z",
    )
    .unwrap();
    assert_eq!(update.exit, 7);
    assert_eq!(
        update.said,
        ["updating coverage for 1 tests (2 ranges)...", "pruned 1 test no longer present in nextest list"],
    );
    assert_eq!(db.test_count("fp"), 2);
    assert_eq!(db.collect_shas("fp"), OrdSet::from_vec(strings(&["sha0", "sha1"])));
    let at_first = db.all_tests_at_shas("fp", &OrdSet::from_vec(strings(&["sha0"])));
    assert_eq!(at_first, test_set(&[("a", "t2")]));
}

#[test]
fn evicted_fingerprints_are_reported() {
    let mut db = Db::new();
    for i in 0..10 {
        db.touch(&format!("old-{i}"), &format!("2026-01-0{}T00:00:00Z", (i % 9) + 1));
    }
    let c = conclude(
        &mut db,
        None,
        vec![collected("a", "t1", vec![])],
        &roots("a", "src/lib.rs"),
        "fp",
        &component(),
        "sha",
        0,
        "2026-02-01T00:00:00Z",
    )
    .unwrap();
    assert_eq!(
        c.said,
        ["storing coverage for 1 tests (1 ranges)...", "evicted 1 stale fingerprint (kept 10 of 10)"],
    );
}

#[test]
fn recording_line_names_tests_and_ranges() {
    let mappings = vec![(TestId::new("a", "t"), OrdSet::from_vec(vec![range("f", 1, 2), range("f", 3, 4)]))];
    assert_eq!(recording_line(true, &mappings), "updating coverage for 1 tests (2 ranges)...");
}

#[test]
fn no_results_after_a_failed_run() {
    let mut db = Db::new();
    let e = handle_no_results(&mut db, "fp", None, 101, "/w/results-1").unwrap_err();
    assert_eq!(e, CollectError::RunFailed { code: 101, results_dir: "/w/results-1".to_string() });
    assert_eq!(
        e.message(),
        "nextest exited with code 101 and produced no coverage results under /w/results-1 — \
         build or test failure (see nextest output above)",
    );
}

#[test]
fn no_results_of_tests_that_ran_point_at_the_runner() {
    let mut db = Db::new();
    let plan = DiffPlan {
        selected: test_set(&[("a", "t1"), ("a", "gone")]),
        listed: test_set(&[("a", "t1"), ("a", "t2")]),
    };
    assert_eq!(plan.live_selected_count(), 1);
    assert_eq!(plan.filter_expr(), "(binary_id(=a) & (test(=gone) | test(=t1)))");
    let e = handle_no_results(&mut db, "fp", Some(&plan), 0, "/w/r").unwrap_err();
    assert_eq!(e, CollectError::ShimSilent { live: 1, selected: 2, results_dir: "/w/r".to_string() });
    assert!(e.message().contains("1 of 2 selected tests"));
}

#[test]
fn no_results_of_vanished_tests_prune_their_rows() {
    let mut db = Db::new();
    let m = vec![(TestId::new("a", "gone"), OrdSet::from_vec(vec![range("f", 1, 2)]))];
    db.store_coverage("fp", &component(), "sha", &m, "now").unwrap();
    let plan = DiffPlan { selected: test_set(&[("a", "gone")]), listed: test_set(&[("a", "t2")]) };
    let said = handle_no_results(&mut db, "fp", Some(&plan), 0, "/w/r").unwrap();
    assert_eq!(said.len(), 2);
    assert!(said[0].starts_with("no tests rerun: every selected test is absent"));
    assert_eq!(said[1], "pruned 1 test no longer present in nextest list");
    assert_eq!(db.test_count("fp"), 0);
}

#[test]
fn no_results_of_a_full_collection_are_taken_for_no_tests() {
    let mut db = Db::new();
    let said = handle_no_results(&mut db, "fp", None, 0, "/w/r").unwrap();
    assert_eq!(
        said,
        ["no coverage results under /w/r — project may have no tests, or the runner shim may have failed to fire"],
    );
}

#[test]
fn pruning_says_how_many_tests_went() {
    let mut db = Db::new();
    let m: Vec<(TestId, OrdSet<HitRange>)> = vec!["x", "y", "z"]
        .iter()
        .map(|t| (TestId::new("a", t), OrdSet::from_vec(vec![range("f", 1, 2)])))
        .collect();
    db.store_coverage("fp", &component(), "sha", &m, "now").unwrap();
    let said = prune_and_report(&mut db, "fp", &test_set(&[("a", "x")]));
    assert_eq!(said.unwrap(), "pruned 2 tests no longer present in nextest list");
    assert_eq!(prune_and_report(&mut db, "fp", &test_set(&[("a", "x")])), None);
}

fn relations(shas: Vec<(&str, ShaRelation)>) -> OrdMap<String, ShaRelation> {
    let mut m = OrdMap::new();
    for (sha, relation) in shas {
        m.insert(sha.to_string(), relation);
    }
    m
}

const DIFF: &str = "diff --git a/src/x.rs b/src/x.rs\n--- a/src/x.rs\n+++ b/src/x.rs\n@@ -1 +1 @@\n-a\n+b\n";

fn stored() -> Db {
    let mut db = Db::new();
    let m = vec![
        (TestId::new("a", "t1"), OrdSet::from_vec(vec![range("src/x.rs", 1, 2)])),
        (TestId::new("a", "t2"), OrdSet::from_vec(vec![range("src/y.rs", 1, 2)])),
    ];
    db.store_coverage("fp", &component(), "sha0", &m, "now").unwrap();
    db
}

#[test]
fn incremental_collection_needs_coverage() {
    let mut db = Db::new();
    let reach = check_shas_reachable(relations(vec![]));
    let l = listing(&[], &[]);
    let e = plan_diff_collect(&mut db, "fp", &l, &reach, &vec![], "now").unwrap_err();
    assert_eq!(e, CollectError::NoPriorCoverage);
    assert!(e.message().contains("--diff requires a prior"));
}

#[test]
fn incremental_collection_needs_a_commit_in_the_repository() {
    let mut db = stored();
    let reach = check_shas_reachable(relations(vec![("sha0", ShaRelation::Missing)]));
    let l = listing(&[], &[("a", "t1")]);
    let e = plan_diff_collect(&mut db, "fp", &l, &reach, &vec![], "now").unwrap_err();
    assert_eq!(e, CollectError::NoReachableSha);
    let notes = diff_notices(&reach);
    assert_eq!(notes.len(), 1);
    assert!(notes[0].contains("will be rerun and re-anchored at the new HEAD"));
}

#[test]
fn incremental_collection_passes_on_a_failure_of_git() {
    let mut db = stored();
    let reach = check_shas_reachable(relations(vec![("sha0", ShaRelation::Reachable { commits_ahead: 2 })]));
    let l = listing(&[], &[("a", "t1")]);
    let hunks = vec![("sha0".to_string(), output(128, "", "fatal: bad object"))];
    let e = plan_diff_collect(&mut db, "fp", &l, &reach, &hunks, "now").unwrap_err();
    assert!(matches!(e, CollectError::Git(_)));
    assert!(e.message().contains("fatal: bad object"));
    assert_eq!(db, stored());
}

#[test]
fn incremental_collection_reruns_affected_tests() {
    let mut db = stored();
    let reach = check_shas_reachable(relations(vec![("sha0", ShaRelation::Reachable { commits_ahead: 2 })]));
    assert_eq!(
        diff_notices(&reach),
        ["note: 2 commit(s) since prior collect — re-anchoring affected tests at the new HEAD"],
    );
    let l = listing(&[("a", "deps/a-1")], &[("a", "t1"), ("a", "t2")]);
    let hunks = vec![("sha0".to_string(), output(0, DIFF, ""))];
    match plan_diff_collect(&mut db, "fp", &l, &reach, &hunks, "later").unwrap() {
        DiffOutcome::Plan { plan, summary } => {
            assert_eq!(plan.selected, test_set(&[("a", "t1")]));
            assert_eq!(plan.listed, l.tests);
            assert!(summary.starts_with("1 tests to recollect (1 affected + 0 config + 0 new + 0 stranded"));
        }
        DiffOutcome::NothingToRecollect { .. } => panic!("a test is affected"),
    }
}

#[test]
fn incremental_collection_of_an_unchanged_tree_reruns_nothing() {
    let mut db = stored();
    let reach = check_shas_reachable(relations(vec![("sha0", ShaRelation::Equal)]));
    let l = listing(&[("a", "deps/a-1")], &[("a", "t1"), ("a", "t2")]);
    let hunks = vec![("sha0".to_string(), output(0, "", ""))];
    let r = plan_diff_collect(&mut db, "fp", &l, &reach, &hunks, "later").unwrap();
    assert_eq!(r, DiffOutcome::NothingToRecollect { listed: test_set(&[("a", "t1"), ("a", "t2")]) });
}

const EXPORT: &str = r#"{"data":[{"functions":[{"name":"f","filenames":["/w/src/x.rs"],
    "regions":[[3,1,9,2,1,0,0,0]]}]}]}"#;

#[test]
fn exported_map_is_read() {
    let map = read_exported_map("a", &output(0, EXPORT, ""), "/w", false).unwrap();
    assert_eq!(map.get(&"f".to_string()).unwrap(), &vec![range("src/x.rs", 3, 9)]);
}

#[test]
fn exports_that_fail_name_the_binary() {
    let e = read_exported_map("crate-a", &output(1, "", "  no coverage map \n"), "/w", false).unwrap_err();
    assert_eq!(
        e,
        CollectError::ExportFailed { binary_id: "crate-a".to_string(), output: "no coverage map".to_string() },
    );
    assert_eq!(e.message(), "llvm-cov export failed for crate-a: no coverage map");
    let e = read_exported_map("crate-a", &output(0, "{}", ""), "/w", false).unwrap_err();
    assert_eq!(e, CollectError::BadExport { binary_id: "crate-a".to_string(), error: ExportError::WrongShape });
    let e = read_exported_map("crate-a", &output(0, EXPORT, ""), "/elsewhere", false).unwrap_err();
    assert_eq!(e, CollectError::EmptyMap { binary_id: "crate-a".to_string(), root: "/elsewhere".to_string() });
    assert!(e.message().starts_with("crate-a has no instrumented functions under /elsewhere — "));
}

#[test]
fn empty_profile_must_be_made() {
    assert_eq!(check_empty_profile(&output(0, "", "")), Ok(()));
    let e = check_empty_profile(&output(1, "", "bad\n")).unwrap_err();
    assert_eq!(e, CollectError::EmptyProfile("bad".to_string()));
    assert_eq!(e.message(), "llvm-profdata merge failed to build an empty profile: bad");
}

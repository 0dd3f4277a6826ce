//! Selections, reports, and what `run` and `status` make of them.

use cargo_affected::coverage::HitRange;
use cargo_affected::db::{Db, HitKind, TestId};
use cargo_affected::diff::LineRange;
use cargo_affected::fingerprint::{Fingerprint, FingerprintComponent};
use cargo_affected::git::ShaRelation;
use cargo_affected::listing::Listing;
use cargo_affected::narration::{ahead_line, changed_lines, database_lines, ending, exit_code, inventory_lines};
use cargo_affected::narration::{missing_line, nextest_run_args, opening, running_line, Command};
use cargo_affected::ordered::{OrdMap, OrdSet};
use cargo_affected::plan::{assess, changed_paths, classify_hit_status, full_suite_report, miss_shas, newest_sha};
use cargo_affected::plan::{plan, read_changes, selection_report, CacheMiss, CacheState, Changes, Plan};
use cargo_affected::process::ProcessOutput;
use cargo_affected::reasons::{aggregate_per_file_counts, strongest};
use cargo_affected::report::{build_collect_shas, build_stored_fingerprints, closest_stored_diff_labels};
use cargo_affected::report::{diff_labels, fingerprint_miss_clause, summary_line, CacheStatus};
use cargo_affected::report::{CollectShaSnapshot, FullSuiteInputs, ReasonKind, Report, SelectedTestKind};
use cargo_affected::report::{SelectionMode, ShaRelationKind, StoredFingerprintSnapshot};
use cargo_affected::selection::{check_shas_reachable, format_summary, ChangedRangesBySha, DiagnosticDetail};
use cargo_affected::selection::{Reachability, Selection, SelectionDiagnostics};

fn tid(binary: &str, test: &str) -> TestId {
    TestId::new(binary, test)
}

fn tests(list: &[TestId]) -> OrdSet<TestId> {
    OrdSet::from_vec(list.iter().map(|t| TestId::new(&t.binary_id, &t.test_name)).collect())
}

fn selection_with(
    affected: &[TestId],
    new_tests: &[TestId],
    stranded_tests: &[TestId],
    config_tests: &[TestId],
    reachable_known_count: usize,
) -> Selection {
    let mut listed = tests(affected);
    for more in [new_tests, stranded_tests, config_tests] {
        listed.extend(&tests(more));
    }
    Selection {
        affected: tests(affected),
        new_tests: tests(new_tests),
        stranded_tests: tests(stranded_tests),
        config_tests: tests(config_tests),
        reachable_known_count,
        listed,
        diagnostics: SelectionDiagnostics { per_file: OrdMap::new(), per_test: None },
    }
}

#[test]
fn summary_compact_form() {
    let sel = selection_with(
        &[tid("crate_a", "test_a"), tid("crate_a", "test_b")],
        &[tid("crate_a", "test_c")],
        &[],
        &[],
        5,
    );
    assert_eq!(
        format_summary(&sel, "to run", false),
        "3 tests to run (2 affected + 0 config + 1 new + 0 stranded, \
         3 skipped of 5 reachable-known) — pass -v to list",
    );
}

#[test]
fn summary_verbose_tags_categories() {
    let sel = selection_with(
        &[tid("crate_a", "test_a")],
        &[tid("crate_a", "test_b")],
        &[tid("crate_a", "test_c")],
        &[tid("crate_a", "test_d")],
        5,
    );
    assert_eq!(
        format_summary(&sel, "would run", true),
        "4 tests would run (1 affected + 1 config + 1 new + 1 stranded, \
         3 skipped of 5 reachable-known):\n  \
         crate_a::test_a\n  \
         crate_a::test_b (new)\n  \
         crate_a::test_c (stranded)\n  \
         crate_a::test_d (config)",
    );
}

#[test]
fn skipped_subtracts_affected_and_config() {
    let sel = selection_with(&[tid("crate_a", "a"), tid("crate_a", "b")], &[], &[], &[tid("crate_a", "c")], 3);
    assert_eq!(sel.skipped(), 0);
}

#[test]
fn strongest_reason_orders_line_then_backstop_then_sentinel() {
    for (a, b, expected) in [
        (HitKind::LineOverlap, HitKind::CrateRootSentinel, HitKind::LineOverlap),
        (HitKind::CrateRootSentinel, HitKind::LineOverlap, HitKind::LineOverlap),
        (HitKind::StructuralBackstop, HitKind::CrateRootSentinel, HitKind::StructuralBackstop),
        (HitKind::CrateRootSentinel, HitKind::StructuralBackstop, HitKind::StructuralBackstop),
        (HitKind::LineOverlap, HitKind::StructuralBackstop, HitKind::LineOverlap),
        (HitKind::StructuralBackstop, HitKind::LineOverlap, HitKind::LineOverlap),
    ] {
        assert_eq!(strongest(a, b), expected, "{a:?} vs {b:?}");
    }
}

#[test]
fn aggregate_dedupes_test_per_file_by_strongest_reason() {
    let mut by_test = OrdMap::new();
    by_test.insert(tid("crate_a", "a"), HitKind::CrateRootSentinel);
    let upgraded = strongest(*by_test.get(&tid("crate_a", "a")).unwrap(), HitKind::LineOverlap);
    by_test.insert(tid("crate_a", "a"), upgraded);
    let mut by_file = OrdMap::new();
    by_file.insert("src/lib.rs".to_string(), by_test);
    let counts = aggregate_per_file_counts(&by_file);
    let lib = counts.get(&"src/lib.rs".to_string()).unwrap();
    assert_eq!(lib.line_overlap, 1);
    assert_eq!(lib.structural_backstop, 0);
    assert_eq!(lib.crate_root_sentinel, 0);
    assert_eq!(lib.total_unique_tests, 1);
}

fn fp_component(label: &str, hash: &str) -> FingerprintComponent {
    FingerprintComponent { label: label.to_string(), hash: hash.to_string() }
}

fn snapshot(name: &str, seen: &str, components: Vec<FingerprintComponent>) -> StoredFingerprintSnapshot {
    StoredFingerprintSnapshot { fingerprint: name.to_string(), last_seen: seen.to_string(), components }
}

#[test]
fn cache_status_serializes_kebab_case() {
    assert_eq!(format!("\"{}\"", CacheStatus::HitWithDivergence.as_str()), "\"hit-with-divergence\"");
}

#[test]
fn cache_statuses_have_stable_names() {
    let names: Vec<&str> = [
        CacheStatus::HitExact,
        CacheStatus::HitWithDivergence,
        CacheStatus::MissFingerprint,
        CacheStatus::MissNoCoverage,
        CacheStatus::MissNoReachableSha,
        CacheStatus::ForcedAll,
    ]
    .iter()
    .map(|s| s.as_str())
    .collect();
    assert_eq!(
        names,
        [
            "hit-exact",
            "hit-with-divergence",
            "miss-fingerprint",
            "miss-no-coverage",
            "miss-no-reachable-sha",
            "forced-all",
        ],
    );
}

#[test]
fn stored_fingerprint_diff_is_symmetric() {
    let current = vec![fp_component("cargo_lock", "h-current-lock"), fp_component("rustc", "h-rustc")];
    let stored = vec![snapshot(
        "old",
        "2026-01-01T00:00:00Z",
        vec![
            fp_component("cargo_lock", "h-old-lock"),
            fp_component("rustc", "h-rustc"),
            fp_component("manifest:Cargo.toml", "h-old-manifest"),
        ],
    )];
    assert_eq!(diff_labels(&current, &stored[0].components), diff_labels(&stored[0].components, &current));
    let entries = build_stored_fingerprints(stored, &current);
    assert_eq!(entries.len(), 1);
    assert_eq!(entries[0].diff_count, 2);
    assert_eq!(entries[0].differing_labels, vec!["cargo_lock", "manifest:Cargo.toml"]);
}

#[test]
fn closest_stored_diff_labels_picks_min_diff() {
    let current = vec![fp_component("rustc", "host-A"), fp_component("CARGO_BUILD_TARGET", "tgt-A")];
    let stored = vec![
        snapshot(
            "far",
            "2026-01-01T00:00:00Z",
            vec![fp_component("rustc", "host-X"), fp_component("CARGO_BUILD_TARGET", "tgt-X")],
        ),
        snapshot(
            "close",
            "2026-04-01T00:00:00Z",
            vec![fp_component("rustc", "host-X"), fp_component("CARGO_BUILD_TARGET", "tgt-A")],
        ),
    ];
    let labels = closest_stored_diff_labels(&current, &stored);
    assert_eq!(labels, vec!["rustc"]);
    assert_eq!(fingerprint_miss_clause(&labels), " (differs from closest stored fingerprint in: rustc)");
    assert!(closest_stored_diff_labels(&current, &vec![]).is_empty());
    assert_eq!(fingerprint_miss_clause(&vec![]), "");
}

#[test]
fn stored_fingerprints_sorted_by_diff_then_recency() {
    let current = vec![fp_component("rustc", "h")];
    let stored = vec![
        snapshot("older-far", "2026-01-01T00:00:00Z", vec![fp_component("rustc", "DIFF")]),
        snapshot("newer-close", "2026-05-01T00:00:00Z", vec![fp_component("rustc", "h")]),
        snapshot("older-close", "2026-02-01T00:00:00Z", vec![fp_component("rustc", "h")]),
    ];
    let entries = build_stored_fingerprints(stored, &current);
    let order: Vec<&str> = entries.iter().map(|e| e.fingerprint.as_str()).collect();
    assert_eq!(order, vec!["newer-close", "older-close", "older-far"]);
}

#[test]
fn collect_shas_render_relation_and_commits_ahead() {
    let snap = |sha: &str, relation: ShaRelation, row_count: usize| CollectShaSnapshot {
        sha: sha.to_string(),
        relation,
        row_count,
    };
    let entries = build_collect_shas(vec![
        snap("aaa", ShaRelation::Equal, 10),
        snap("bbb", ShaRelation::Reachable { commits_ahead: 6 }, 100),
        snap("ccc", ShaRelation::Missing, 5),
    ]);
    assert_eq!(entries[0].relation, ShaRelationKind::Equal);
    assert_eq!(entries[0].commits_ahead, None);
    assert_eq!(entries[1].relation, ShaRelationKind::Reachable);
    assert_eq!(entries[1].commits_ahead, Some(6));
    assert_eq!(entries[2].relation, ShaRelationKind::Missing);
    assert_eq!(entries[2].commits_ahead, None);
}

#[test]
fn full_suite_report_has_null_counts_and_omitted_arrays() {
    let report = Report::build_full_suite(FullSuiteInputs {
        version: "0.0.0".to_string(),
        command: "run".to_string(),
        current_fingerprint: Some("abc".to_string()),
        current_components: Some(vec![fp_component("cargo_lock", "h")]),
        stored_fingerprints: vec![],
        collect_shas: vec![],
        status: CacheStatus::ForcedAll,
    });
    assert_eq!(report.schema_version, 1);
    assert_eq!(report.selection.summary.mode, SelectionMode::FullSuiteNoListing);
    assert!(report.selection.summary.selected.is_none());
    assert!(report.selection.changed_files.is_none());
    assert!(report.selection.selected_tests.is_none());
    assert_eq!(report.cache.status.as_str(), "forced-all");
}

#[test]
fn summary_lines_name_what_happened() {
    assert_eq!(
        summary_line(CacheStatus::HitExact, Some((2577, 3493)), 0, 0),
        "cargo-affected: cache=hit-exact selection=2577/3493 (74%)",
    );
    assert_eq!(
        summary_line(CacheStatus::HitWithDivergence, Some((1444, 3493)), 1, 9),
        "cargo-affected: cache=hit-with-divergence selection=1444/3493 (41%) missing_shas=1 max_commits_ahead=9",
    );
    assert_eq!(
        summary_line(CacheStatus::HitExact, Some((1, 3)), 0, 0),
        "cargo-affected: cache=hit-exact selection=1/3 (33%)",
    );
    assert_eq!(
        summary_line(CacheStatus::HitWithDivergence, Some((2, 4)), 1, 6),
        "cargo-affected: cache=hit-with-divergence selection=2/4 (50%) missing_shas=1 max_commits_ahead=6",
    );
    assert_eq!(
        summary_line(CacheStatus::HitExact, Some((0, 0)), 0, 0),
        "cargo-affected: cache=hit-exact selection=0/0 (100%)",
    );
    assert_eq!(
        summary_line(CacheStatus::MissNoReachableSha, None, 2, 0),
        "cargo-affected: cache=miss-no-reachable-sha mode=full-suite missing_shas=2",
    );
    assert_eq!(
        summary_line(CacheStatus::ForcedAll, None, 0, 0),
        "cargo-affected: cache=forced-all mode=full-suite",
    );
}

const NOW: &str = "2026-01-01T00:00:00Z";

fn fingerprint() -> Fingerprint {
    Fingerprint { hex: "fp".to_string(), components: vec![fp_component("rustc", "r1")] }
}

fn ranges(list: &[(&str, i64, i64)]) -> OrdSet<HitRange> {
    OrdSet::from_vec(
        list.iter().map(|(f, s, e)| HitRange { file: f.to_string(), line_start: *s, line_end: *e }).collect(),
    )
}

fn stored() -> Db {
    let mut db = Db::new();
    let mappings = vec![
        (tid("a", "add"), ranges(&[("src/math.rs", 1, 3), ("src/lib.rs", 1, i64::MAX)])),
        (tid("a", "mul"), ranges(&[("src/math.rs", 5, 7), ("src/lib.rs", 1, i64::MAX)])),
        (tid("a", "greet"), ranges(&[("src/strings.rs", 1, 3), ("src/lib.rs", 1, i64::MAX)])),
    ];
    db.store_coverage("fp", &fingerprint().components, "sha0", &mappings, NOW).unwrap();
    db
}

fn relations(list: &[(&str, ShaRelation)]) -> OrdMap<String, ShaRelation> {
    let mut m = OrdMap::new();
    for (sha, r) in list {
        m.insert(sha.to_string(), *r);
    }
    m
}

fn reach(list: &[(&str, ShaRelation)]) -> Reachability {
    check_shas_reachable(relations(list))
}

fn listing(names: &[&str], ignored: &[&str], unmatched: &[&str]) -> Listing {
    let set = |l: &[&str]| OrdSet::from_vec(l.iter().map(|t| tid("a", t)).collect());
    Listing { tests: set(names), ignored: set(ignored), unmatched: set(unmatched), binaries: vec![] }
}

fn changes(sha: &str, lines: &[(&str, i64, i64)], added: &[&str], working_tree: &[&str]) -> Changes {
    let mut files = OrdMap::new();
    for (f, s, e) in lines {
        files.insert(f.to_string(), vec![LineRange { start: *s, end: *e }]);
    }
    let mut by_sha: ChangedRangesBySha = OrdMap::new();
    by_sha.insert(sha.to_string(), files);
    let mut added_by_sha = OrdMap::new();
    added_by_sha.insert(sha.to_string(), OrdSet::from_vec(added.iter().map(|s| s.to_string()).collect()));
    Changes {
        ranges: by_sha,
        added: added_by_sha,
        working_tree: OrdSet::from_vec(working_tree.iter().map(|s| s.to_string()).collect()),
    }
}

fn planned(r: &Reachability, l: &Listing, c: Changes, detail: DiagnosticDetail) -> (Plan, Db) {
    let mut db = stored();
    let p = plan(&mut db, "fp", r, l, c, &OrdMap::new(), detail, "2026-02-01T00:00:00Z");
    (p, db)
}

const ALL: [&str; 3] = ["add", "greet", "mul"];

#[test]
fn a_body_edit_selects_only_its_test() {
    let r = reach(&[("sha0", ShaRelation::Equal)]);
    let c = changes("sha0", &[("src/math.rs", 2, 2)], &[], &["src/math.rs"]);
    let (p, db) = planned(&r, &listing(&ALL, &[], &[]), c, DiagnosticDetail::Full);
    assert_eq!(p.selection.selected(), tests(&[tid("a", "add")]));
    assert_eq!(p.status, CacheStatus::HitExact);
    assert!(p.changed_since_newest);
    let row = db.stored_fingerprint_snapshots();
    assert_eq!(row[0].last_seen, "2026-02-01T00:00:00Z");
    let e = ending(Command::Run, &p, &r, true);
    assert_eq!(e.summary, "cargo-affected: cache=hit-exact selection=1/3 (33%)");
    assert_eq!(e.tests, Some(vec![tid("a", "add")]));
    assert_eq!(
        e.said,
        "\n1 tests to run (1 affected + 0 config + 0 new + 0 stranded, 2 skipped of 3 reachable-known):\n  a::add\n",
    );
    let s = ending(Command::Status, &p, &r, true);
    assert_eq!(s.summary, e.summary);
    assert_eq!(s.tests, None);
    assert_eq!(
        s.said,
        "\n1 tests would run (1 affected + 0 config + 0 new + 0 stranded, 2 skipped of 3 reachable-known):\n  a::add",
    );
}

#[test]
fn an_edit_between_functions_selects_all_tests_of_the_file() {
    let r = reach(&[("sha0", ShaRelation::Equal)]);
    let c = changes("sha0", &[("src/math.rs", 4, 4)], &[], &["src/math.rs"]);
    let (p, _) = planned(&r, &listing(&ALL, &[], &[]), c, DiagnosticDetail::Summary);
    assert_eq!(p.selection.selected(), tests(&[tid("a", "add"), tid("a", "mul")]));
}

#[test]
fn new_stranded_and_skipped_tests_are_told_apart() {
    let mut db = stored();
    let lost = vec![(tid("a", "lost"), ranges(&[("src/x.rs", 1, 2)]))];
    db.update_coverage_for_tests("fp", &fingerprint().components, "gone", &lost, NOW).unwrap();
    let r = reach(&[("sha0", ShaRelation::Reachable { commits_ahead: 2 }), ("gone", ShaRelation::Missing)]);
    let l = listing(&["add", "greet", "mul", "lost", "fresh", "ignored", "filtered"], &["ignored"], &["filtered"]);
    let c = changes("sha0", &[], &[], &[]);
    let p = plan(&mut db, "fp", &r, &l, c, &OrdMap::new(), DiagnosticDetail::Summary, NOW);
    assert_eq!(p.selection.new_tests, tests(&[tid("a", "fresh")]));
    assert_eq!(p.selection.stranded_tests, tests(&[tid("a", "lost")]));
    assert_eq!(p.status, CacheStatus::HitWithDivergence);
    let e = ending(Command::Run, &p, &r, false);
    assert_eq!(
        e.summary,
        "cargo-affected: cache=hit-with-divergence selection=2/3 (67%) missing_shas=1 max_commits_ahead=2",
    );
}

#[test]
fn rules_rescue_only_known_tests() {
    let mut db = stored();
    let r = reach(&[("sha0", ShaRelation::Equal)]);
    let mut hits = OrdMap::new();
    hits.insert("README.md".to_string(), tests(&[tid("a", "greet"), tid("a", "unknown")]));
    let c = changes("sha0", &[("README.md", 1, 1)], &[], &["README.md"]);
    let p = plan(&mut db, "fp", &r, &listing(&ALL, &[], &[]), c, &hits, DiagnosticDetail::Full, NOW);
    assert_eq!(p.selection.config_tests, tests(&[tid("a", "greet")]));
    let report = selection_report("0.1.0", "run", &db, &fingerprint(), vec![], &r, &p);
    let entries = report.selection.selected_tests.unwrap();
    assert_eq!(entries.len(), 1);
    assert_eq!(entries[0].kind, SelectedTestKind::ConfigRule);
    assert_eq!(entries[0].reasons[0].kind, ReasonKind::ConfigRule);
    assert_eq!(entries[0].reasons[0].matched_hunk, (0, 0));
    let files = report.selection.changed_files.unwrap();
    assert_eq!(files[0].path, "README.md");
    assert!(!files[0].tracked_by_coverage);
    assert_eq!(files[0].tests_pulled_total, 1);
    assert_eq!(files[0].tests_pulled_by_reason.config_rule, 1);
}

#[test]
fn report_documents_a_selection() {
    let r = reach(&[("sha0", ShaRelation::Reachable { commits_ahead: 1 })]);
    let c = changes("sha0", &[("src/math.rs", 2, 2), ("src/lib.rs", 1, 1)], &["src/new.rs"], &[]);
    let (p, db) = planned(&r, &listing(&["add", "greet", "mul", "fresh"], &[], &[]), c, DiagnosticDetail::Full);
    let report = selection_report("0.1.0", "status", &db, &fingerprint(), db.stored_fingerprint_snapshots(), &r, &p);
    assert_eq!(report.command, "status");
    assert_eq!(report.cargo_affected_version, "0.1.0");
    assert_eq!(report.cache.current_fingerprint, Some("fp".to_string()));
    assert_eq!(report.cache.stored_fingerprints[0].diff_count, 0);
    assert_eq!(report.cache.collect_shas[0].commits_ahead, Some(1));
    assert_eq!(report.cache.collect_shas[0].row_count, 6);
    let s = report.selection.summary;
    assert_eq!((s.selected, s.affected, s.new, s.stranded), (Some(4), Some(3), Some(1), Some(0)));
    assert_eq!((s.skipped, s.total_reachable_known), (Some(0), Some(3)));
    let files = report.selection.changed_files.unwrap();
    let names: Vec<&str> = files.iter().map(|f| f.path.as_str()).collect();
    assert_eq!(names, ["src/lib.rs", "src/math.rs", "src/new.rs"]);
    assert_eq!(files[0].tests_pulled_by_reason.crate_root_sentinel, 3);
    assert_eq!(files[1].tests_pulled_by_reason.line_overlap, 1);
    assert_eq!(files[1].hunks_by_sha[0].sha, "sha0");
    assert_eq!(files[1].hunks_by_sha[0].hunks[0].start, 2);
    assert!(files[2].hunks_by_sha.is_empty() && files[2].tests_pulled_total == 0);
    let entries = report.selection.selected_tests.unwrap();
    let kinds: Vec<(&str, SelectedTestKind, usize)> =
        entries.iter().map(|e| (e.test_name.as_str(), e.kind, e.reasons.len())).collect();
    assert_eq!(
        kinds,
        [
            ("add", SelectedTestKind::Affected, 2),
            ("fresh", SelectedTestKind::New, 0),
            ("greet", SelectedTestKind::Affected, 1),
            ("mul", SelectedTestKind::Affected, 1),
        ],
    );
    assert_eq!(entries[0].reasons[0].file, "src/lib.rs");
    assert_eq!(entries[0].reasons[1].stored_range, Some((1, 3)));
}

#[test]
fn summary_detail_leaves_tests_out_of_the_report() {
    let r = reach(&[("sha0", ShaRelation::Equal)]);
    let c = changes("sha0", &[("src/math.rs", 2, 2)], &[], &[]);
    let (p, db) = planned(&r, &listing(&ALL, &[], &[]), c, DiagnosticDetail::Summary);
    let report = selection_report("0.1.0", "run", &db, &fingerprint(), vec![], &r, &p);
    assert!(report.selection.selected_tests.is_none());
    assert!(report.selection.changed_files.is_some());
}

#[test]
fn an_unchanged_tree_runs_nothing() {
    let r = reach(&[("sha0", ShaRelation::Equal)]);
    let (p, _) = planned(&r, &listing(&ALL, &[], &[]), changes("sha0", &[], &[], &[]), DiagnosticDetail::Summary);
    assert!(!p.changed_since_newest);
    let e = ending(Command::Run, &p, &r, false);
    assert_eq!(e.said, "no changes since the last collect and no new tests — nothing to run");
    assert_eq!(e.tests, None);
    let s = ending(Command::Status, &p, &r, false);
    assert_eq!(s.said, "\nno changes since the last collect and no new tests — nothing would run");
}

#[test]
fn an_uncovered_change_is_reported_as_uncovered() {
    let r = reach(&[("sha0", ShaRelation::Reachable { commits_ahead: 1 })]);
    let c = changes("sha0", &[("README.md", 1, 1)], &[], &[]);
    let (p, _) = planned(&r, &listing(&ALL, &[], &[]), c, DiagnosticDetail::Summary);
    assert!(ending(Command::Run, &p, &r, false).said.contains("no tests cover the changed lines"));
    assert!(ending(Command::Status, &p, &r, false).said.contains("no tests cover the changed lines"));
}

#[test]
fn changes_count_from_the_last_collection() {
    let shas = [("sha0", ShaRelation::Reachable { commits_ahead: 3 }), ("sha1", ShaRelation::Equal)];
    let r = reach(&shas);
    assert_eq!(newest_sha(&r), Some("sha1".to_string()));
    let c = changes("sha0", &[("src/other.rs", 1, 1)], &[], &[]);
    let (p, _) = planned(&r, &listing(&ALL, &[], &[]), c, DiagnosticDetail::Summary);
    assert!(!p.changed_since_newest);
    assert_eq!(p.changed_paths, OrdSet::from_vec(vec!["src/other.rs".to_string()]));
}

#[test]
fn the_newest_commit_is_the_closest_to_head() {
    let sibling = ShaRelation::Reachable { commits_ahead: 0 };
    assert_eq!(newest_sha(&reach(&[("b", sibling), ("a", sibling), ("c", ShaRelation::Equal)])), Some("c".to_string()));
    assert_eq!(newest_sha(&reach(&[("b", sibling), ("a", sibling)])), Some("a".to_string()));
    assert_eq!(newest_sha(&reach(&[("b", ShaRelation::Missing)])), None);
}

#[test]
fn sibling_commits_are_no_exact_hit() {
    let sibling = ShaRelation::Reachable { commits_ahead: 0 };
    assert_eq!(classify_hit_status(&reach(&[("a", sibling)])), CacheStatus::HitWithDivergence);
    assert_eq!(classify_hit_status(&reach(&[("a", ShaRelation::Equal)])), CacheStatus::HitExact);
}

#[test]
fn a_cache_without_anything_is_a_miss() {
    let a = assess(&Db::new(), &fingerprint(), false, OrdMap::new());
    assert!(matches!(a.state, CacheState::Miss(CacheMiss::NoCoverage)));
    let o = opening(Command::Run, &a.state, 0);
    assert_eq!(
        o.said,
        ["note: no coverage data yet — running all tests; run `cargo affected collect` to enable selection"],
    );
    let (status, line) = o.full_suite.unwrap();
    assert_eq!(status, CacheStatus::MissNoCoverage);
    assert_eq!(line, "cargo-affected: cache=miss-no-coverage mode=full-suite");
}

#[test]
fn a_changed_environment_is_a_miss_that_names_the_change() {
    let mut other = fingerprint();
    other.hex = "other".to_string();
    other.components = vec![fp_component("rustc", "r2")];
    let a = assess(&stored(), &other, false, OrdMap::new());
    assert_eq!(a.test_count, 0);
    assert_eq!(a.stored.len(), 1);
    let run = opening(Command::Run, &a.state, 0);
    assert_eq!(
        run.said,
        ["note: no coverage data for the current environment (differs from closest stored fingerprint in: rustc) — \
          running all tests; run `cargo affected collect` to refresh"],
    );
    let status = opening(Command::Status, &a.state, 0);
    assert_eq!(
        status.said,
        ["no coverage data for the current environment (differs from closest stored fingerprint in: rustc) — \
          would run all tests; run `cargo affected collect` to enable selection"],
    );
    assert_eq!(run.full_suite, status.full_suite);
}

#[test]
fn missing_commits_widen_to_the_full_suite() {
    let db = stored();
    let a = assess(&db, &fingerprint(), true, relations(&[("sha0", ShaRelation::Missing)]));
    assert_eq!(a.stored.len(), 1);
    let status = opening(Command::Status, &a.state, 6);
    assert_eq!(status.said.len(), 2);
    assert!(status.said[0].starts_with("\nnote: 1 collect_sha not in the repo (sha0)"), "{}", status.said[0]);
    assert!(status.said[0].contains("would rerun as part of the full suite"));
    assert!(!status.said[0].contains("stranded"));
    assert!(status.said[0].ends_with("\nstale rows: 6 (anchored at missing sha)"));
    assert!(status.said[1].contains("would run all tests"));
    let (kind, line) = status.full_suite.unwrap();
    assert_eq!(line, "cargo-affected: cache=miss-no-reachable-sha mode=full-suite missing_shas=1");
    match &a.state {
        CacheState::Miss(miss) => {
            assert_eq!(miss.status(), kind);
            let shas = miss_shas(&db, "fp", miss);
            assert_eq!(shas[0].row_count, 6);
            let report = full_suite_report("0.1.0", "status", kind, Some(&fingerprint()), vec![], shas);
            assert_eq!(report.cache.collect_shas[0].relation, ShaRelationKind::Missing);
        }
        CacheState::Usable(_) => panic!("nothing is reachable"),
    }
}

#[test]
fn a_partly_missing_cache_is_usable() {
    let shas = [("sha0", ShaRelation::Reachable { commits_ahead: 4 }), ("gone", ShaRelation::Missing)];
    let a = assess(&stored(), &fingerprint(), false, relations(&shas));
    assert!(a.stored.is_empty());
    let o = opening(Command::Run, &a.state, 0);
    assert_eq!(o.full_suite, None);
    assert_eq!(o.said.len(), 2);
    assert!(o.said[0].contains("will rerun as 'stranded'"));
    assert_eq!(Some(o.said[1].clone()), ahead_line(4));
    assert_eq!(missing_line(Command::Run, a.state.reachability().unwrap()), Some(o.said[0].clone()));
}

#[test]
fn inventory_of_the_database() {
    assert_eq!(
        database_lines("target/affected/coverage.db", &None),
        "coverage database: target/affected/coverage.db\nlast collected: never",
    );
    let shas = OrdSet::from_vec(vec!["b".to_string(), "a".to_string()]);
    assert_eq!(inventory_lines(3, 6, &shas), "tests tracked: 3\nregions stored: 6\ncollect shas: a, b");
    let files = OrdSet::from_vec(vec!["y".to_string(), "x".to_string()]);
    assert_eq!(changed_lines(Command::Run, &files).unwrap(), "2 changed files:\n  x\n  y");
    assert_eq!(changed_lines(Command::Status, &files).unwrap(), "changed files (2):\n  x\n  y");
    assert_eq!(changed_lines(Command::Run, &OrdSet::new()), None);
}

#[test]
fn a_run_passes_its_arguments_on() {
    let args = vec!["--no-fail-fast".to_string()];
    assert_eq!(nextest_run_args(None, &args), ["nextest", "run", "--no-fail-fast"]);
    assert_eq!(
        nextest_run_args(Some("/c.toml"), &args),
        ["nextest", "run", "--config-file", "/c.toml", "--no-fail-fast"],
    );
    assert_eq!(running_line(None), "running all tests with nextest");
    assert_eq!(running_line(Some(2)), "running 2 tests with nextest");
    assert_eq!(exit_code(Some(100)), 100);
    assert_eq!(exit_code(None), 1);
}

fn output(code: i32, stdout: &str) -> ProcessOutput {
    ProcessOutput { code: Some(code), stdout: stdout.as_bytes().to_vec(), stderr: b"fatal".to_vec() }
}

#[test]
fn changes_are_read_from_git() {
    let diff = "--- a/src/x.rs\n+++ b/src/x.rs\n@@ -1 +1 @@\n-a\n+b\n";
    let tree = OrdSet::from_vec(vec!["w.rs".to_string()]);
    let c = read_changes(
        &vec![("sha0".to_string(), output(0, diff))],
        &vec![("sha0".to_string(), output(0, "n.rs\0"))],
        tree.duplicate(),
    )
    .unwrap();
    let all = OrdSet::from_vec(vec!["n.rs".to_string(), "src/x.rs".to_string(), "w.rs".to_string()]);
    assert_eq!(changed_paths(&c), all);
    let bad = vec![("sha0".to_string(), output(128, ""))];
    assert!(read_changes(&bad, &vec![], tree.duplicate()).is_err());
    assert!(read_changes(&vec![], &bad, tree.duplicate()).is_err());
}

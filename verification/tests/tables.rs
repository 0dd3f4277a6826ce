//! The coverage tables.

use cargo_affected::coverage::HitRange;
use cargo_affected::db::{warn_untracked_rs_files, Db, DbError, HitKind, RegionRow, TestId};
use cargo_affected::diff::LineRange;
use cargo_affected::fingerprint::FingerprintComponent;
use cargo_affected::ordered::OrdSet;
use cargo_affected::paths::{affected_dir, db_path};
use cargo_affected::schema::{in_placeholders, migrate_legacy_tables, Migration, Schema};
use cargo_affected::time::{chrono_free_timestamp, days_to_civil};

const FP_A: &str = "aaaaaaaa";
const FP_B: &str = "bbbbbbbb";
const SHA_A: &str = "0000000000000000000000000000000000000000";
const SHA_B: &str = "1111111111111111111111111111111111111111";
const BIN_A: &str = "crate_a";
const BIN_B: &str = "crate_b";
const NOW: &str = "2026-01-01T00:00:00Z";

fn tid(binary: &str, test: &str) -> TestId {
    TestId::new(binary, test)
}

fn rng(file: &str, start: i64, end: i64) -> HitRange {
    HitRange { file: file.to_string(), line_start: start, line_end: end }
}

fn hunk(start: i64, end: i64) -> LineRange {
    LineRange { start, end }
}

fn tests(list: &[(&str, &str)]) -> OrdSet<TestId> {
    OrdSet::from_vec(list.iter().map(|(b, t)| tid(b, t)).collect())
}

fn shas(list: &[&str]) -> OrdSet<String> {
    OrdSet::from_vec(list.iter().map(|s| s.to_string()).collect())
}

fn comp(label: &str, hash: &str) -> FingerprintComponent {
    FingerprintComponent { label: label.to_string(), hash: hash.to_string() }
}

fn comps_for(fp: &str) -> Vec<FingerprintComponent> {
    vec![comp("cargo_lock", &format!("hash-of-{fp}-cargo_lock"))]
}

type Mapping = (TestId, OrdSet<HitRange>);

fn mapping(binary: &str, test: &str, ranges: Vec<HitRange>) -> Mapping {
    (tid(binary, test), OrdSet::from_vec(ranges))
}

fn store(db: &mut Db, fp: &str, sha: &str, mappings: Vec<Mapping>) {
    db.store_coverage(fp, &comps_for(fp), sha, &mappings, NOW).unwrap();
}

fn update(db: &mut Db, fp: &str, sha: &str, mappings: Vec<Mapping>) {
    db.update_coverage_for_tests(fp, &comps_for(fp), sha, &mappings, NOW).unwrap();
}

fn covering(db: &Db, fp: &str, sha: &str, file: &str, hunks: &[LineRange]) -> OrdSet<TestId> {
    db.tests_covering_ranges(fp, sha, file, &hunks.to_vec())
}

fn read_components(db: &Db, fp: &str) -> Vec<(String, String)> {
    db.components_of(fp).into_iter().map(|c| (c.label, c.hash)).collect()
}

#[test]
fn roundtrip_with_range_overlap() {
    let mut db = Db::new();
    store(
        &mut db,
        FP_A,
        SHA_A,
        vec![
            mapping(BIN_A, "test_a", vec![rng("src/lib.rs", 10, 20), rng("src/utils.rs", 5, 15)]),
            mapping(BIN_A, "test_b", vec![rng("src/lib.rs", 50, 60)]),
        ],
    );
    assert_eq!(db.test_count(FP_A), 2);
    assert_eq!(db.region_count(FP_A), 3);
    assert_eq!(db.collect_shas(FP_A), shas(&[SHA_A]));
    assert_eq!(covering(&db, FP_A, SHA_A, "src/lib.rs", &[hunk(15, 18)]), tests(&[(BIN_A, "test_a")]));
    assert_eq!(covering(&db, FP_A, SHA_A, "src/lib.rs", &[hunk(55, 55)]), tests(&[(BIN_A, "test_b")]));
    assert_eq!(
        covering(&db, FP_A, SHA_A, "src/lib.rs", &[hunk(15, 18), hunk(55, 55)]),
        tests(&[(BIN_A, "test_a"), (BIN_A, "test_b")]),
    );
}

#[test]
fn structural_edit_backstop() {
    let mut db = Db::new();
    store(
        &mut db,
        FP_A,
        SHA_A,
        vec![
            mapping(BIN_A, "test_a", vec![rng("src/lib.rs", 10, 20)]),
            mapping(BIN_A, "test_b", vec![rng("src/lib.rs", 50, 60)]),
        ],
    );
    let both = tests(&[(BIN_A, "test_a"), (BIN_A, "test_b")]);
    assert_eq!(covering(&db, FP_A, SHA_A, "src/lib.rs", &[hunk(25, 25)]), both);
    assert_eq!(covering(&db, FP_A, SHA_A, "src/lib.rs", &[hunk(15, 15), hunk(25, 25)]), both);
}

#[test]
fn crate_root_sentinel_overlaps_any_hunk() {
    let mut db = Db::new();
    store(
        &mut db,
        FP_A,
        SHA_A,
        vec![
            mapping(BIN_A, "test_a", vec![HitRange::sentinel("src/lib.rs".to_string())]),
            mapping(BIN_A, "test_b", vec![HitRange::sentinel("src/lib.rs".to_string())]),
        ],
    );
    assert_eq!(
        covering(&db, FP_A, SHA_A, "src/lib.rs", &[hunk(7, 7)]),
        tests(&[(BIN_A, "test_a"), (BIN_A, "test_b")]),
    );
}

#[test]
fn different_fingerprint_reads_empty() {
    let mut db = Db::new();
    store(&mut db, FP_A, SHA_A, vec![mapping(BIN_A, "test_a", vec![rng("src/lib.rs", 1, 10)])]);
    assert_eq!(db.test_count(FP_B), 0);
    assert_eq!(db.region_count(FP_B), 0);
    assert!(covering(&db, FP_B, SHA_A, "src/lib.rs", &[hunk(1, 5)]).is_empty());
    assert!(!db.file_tracked(FP_B, "src/lib.rs"));
    assert!(db.all_tests_at_shas(FP_B, &shas(&[SHA_A])).is_empty());
    assert!(db.collect_shas(FP_B).is_empty());
    assert!(db.has_any_coverage());
}

#[test]
fn full_collect_preserves_other_fingerprints() {
    let mut db = Db::new();
    store(&mut db, FP_A, SHA_A, vec![mapping(BIN_A, "test_a", vec![rng("src/lib.rs", 1, 5)])]);
    store(&mut db, FP_B, SHA_B, vec![mapping(BIN_A, "test_b", vec![rng("src/other.rs", 10, 15)])]);
    store(&mut db, FP_A, SHA_A, vec![mapping(BIN_A, "test_a", vec![rng("src/new.rs", 1, 1)])]);
    assert_eq!(db.test_count(FP_A), 1);
    assert_eq!(db.test_count(FP_B), 1);
    assert_eq!(covering(&db, FP_B, SHA_B, "src/other.rs", &[hunk(10, 12)]), tests(&[(BIN_A, "test_b")]));
    assert_eq!(covering(&db, FP_A, SHA_A, "src/new.rs", &[hunk(1, 1)]), tests(&[(BIN_A, "test_a")]));
    assert!(covering(&db, FP_A, SHA_A, "src/lib.rs", &[hunk(1, 5)]).is_empty());
}

#[test]
fn same_test_name_in_different_binaries() {
    let mut db = Db::new();
    store(
        &mut db,
        FP_A,
        SHA_A,
        vec![
            mapping(BIN_A, "builds", vec![rng("crate_a/tests/builds.rs", 1, 5)]),
            mapping(BIN_B, "builds", vec![rng("crate_b/tests/builds.rs", 1, 5)]),
        ],
    );
    assert_eq!(db.test_count(FP_A), 2);
    let a = covering(&db, FP_A, SHA_A, "crate_a/tests/builds.rs", &[hunk(2, 3)]);
    assert_eq!(a, tests(&[(BIN_A, "builds")]));
    let b = covering(&db, FP_A, SHA_A, "crate_b/tests/builds.rs", &[hunk(2, 3)]);
    assert_eq!(b, tests(&[(BIN_B, "builds")]));
}

#[test]
fn clear_wipes_all_fingerprints() {
    let mut db = Db::new();
    let m = || vec![mapping(BIN_A, "test_a", vec![rng("src/lib.rs", 1, 5)])];
    store(&mut db, FP_A, SHA_A, m());
    store(&mut db, FP_B, SHA_B, m());
    assert!(db.has_any_coverage());
    assert_eq!(db.last_collected(), Some(NOW.to_string()));
    db.clear();
    assert!(!db.has_any_coverage());
    assert_eq!(db.test_count(FP_A), 0);
    assert_eq!(db.test_count(FP_B), 0);
    assert!(db.last_collected().is_none());
    store(&mut db, FP_A, SHA_A, m());
    assert_eq!(db.test_count(FP_A), 1);
}

fn four_fingerprints() -> Db {
    let mut db = Db::new();
    for (i, fp) in ["fp1", "fp2", "fp3", "fp4"].iter().enumerate() {
        let m = vec![mapping(BIN_A, "t", vec![rng("src/lib.rs", 1, 5)])];
        let seen = format!("2020-01-01T00:00:{:02}Z", i + 1);
        db.store_coverage(fp, &comps_for(fp), SHA_A, &m, &seen).unwrap();
    }
    db
}

#[test]
fn gc_keeps_current_and_most_recent_others() {
    let mut db = four_fingerprints();
    assert_eq!(db.fingerprint_count(), 4);
    let evicted = db.gc("fp4", 2);
    assert_eq!(evicted, 2);
    assert_eq!(db.fingerprint_count(), 2);
    assert_eq!(db.test_count("fp1"), 0);
    assert_eq!(db.test_count("fp2"), 0);
    assert_eq!(db.test_count("fp3"), 1);
    assert_eq!(db.test_count("fp4"), 1);
}

#[test]
fn gc_never_evicts_the_current_fingerprint() {
    let mut db = four_fingerprints();
    assert_eq!(db.gc("fp1", 1), 3);
    assert_eq!(db.test_count("fp1"), 1);
    assert_eq!(db.fingerprint_count(), 1);
}

const REGION_COLUMNS: [&str; 7] =
    ["binary_id", "test_name", "source_file", "line_start", "line_end", "env_fingerprint", "collect_sha"];

fn columns(names: &[&str]) -> Option<Vec<String>> {
    Some(names.iter().map(|s| s.to_string()).collect())
}

const KEEP: Migration =
    Migration { drop_files: false, drop_regions: false, drop_fingerprints: false, drop_components: false };
const RESET: Migration =
    Migration { drop_files: false, drop_regions: true, drop_fingerprints: true, drop_components: true };

#[test]
fn pre_range_schema_is_dropped() {
    let schema = Schema {
        files: true,
        regions: None,
        fingerprints: columns(&["fingerprint", "last_seen"]),
        components: None,
    };
    let m = migrate_legacy_tables(&schema);
    assert_eq!(m, Migration { drop_files: true, ..KEEP });

    // What is left to open: the fingerprint, and no row of it.
    let mut db = Db::new();
    db.fingerprints.insert("fp_x".to_string(), "2020-01-01T00:00:00Z".to_string());
    assert!(!db.drop_unexplained());
    assert!(!db.has_any_coverage());
    assert_eq!(db.test_count("fp_x"), 0);
}

#[test]
fn pre_diff_schema_is_dropped() {
    let schema = Schema {
        files: false,
        regions: columns(&REGION_COLUMNS[..6]),
        fingerprints: columns(&["fingerprint", "last_seen", "collect_sha"]),
        components: None,
    };
    let m = migrate_legacy_tables(&schema);
    assert!(m.drop_regions);
    assert!(m.drop_fingerprints);
}

#[test]
fn migration_resets_pre_components_db() {
    let schema = Schema {
        files: false,
        regions: columns(&REGION_COLUMNS),
        fingerprints: columns(&["fingerprint", "last_seen"]),
        components: None,
    };
    assert_eq!(migrate_legacy_tables(&schema), RESET);
}

#[test]
fn migration_resets_on_components_column_mismatch() {
    let schema = Schema {
        files: false,
        regions: columns(&REGION_COLUMNS),
        fingerprints: None,
        components: columns(&["env_fingerprint", "label_OLD", "content_hash"]),
    };
    assert_eq!(migrate_legacy_tables(&schema), RESET);
}

#[test]
fn migration_resets_on_orphan_test_regions_rows() {
    let mut db = Db::new();
    db.regions.insert(RegionRow {
        test: tid("bin1", "t1"),
        source_file: "src/lib.rs".to_string(),
        line_start: 1,
        line_end: 5,
        env_fingerprint: "orphan_fp".to_string(),
        collect_sha: "sha".to_string(),
    });
    db.components.insert(("different_fp".to_string(), "cargo_lock".to_string()), "h".to_string());
    assert!(db.has_any_coverage());
    assert!(db.drop_unexplained());
    assert!(!db.has_any_coverage());
    assert_eq!(db, Db::new());
}

#[test]
fn explained_rows_survive_opening() {
    let schema = Schema {
        files: false,
        regions: columns(&REGION_COLUMNS),
        fingerprints: columns(&["fingerprint", "last_seen"]),
        components: columns(&["env_fingerprint", "label", "content_hash"]),
    };
    assert_eq!(migrate_legacy_tables(&schema), KEEP);
    let mut db = four_fingerprints();
    assert!(!db.drop_unexplained());
    assert_eq!(db, four_fingerprints());
}

#[test]
fn diff_update_replaces_only_rerun_tests() {
    let mut db = Db::new();
    store(
        &mut db,
        FP_A,
        SHA_A,
        vec![
            mapping(BIN_A, "test_a", vec![rng("src/a.rs", 1, 5)]),
            mapping(BIN_A, "test_b", vec![rng("src/b.rs", 1, 5)]),
            mapping(BIN_A, "test_c", vec![rng("src/c.rs", 1, 5)]),
        ],
    );
    assert_eq!(db.collect_shas(FP_A), shas(&[SHA_A]));
    update(&mut db, FP_A, SHA_B, vec![mapping(BIN_A, "test_a", vec![rng("src/a.rs", 10, 20)])]);
    assert_eq!(db.collect_shas(FP_A), shas(&[SHA_A, SHA_B]));
    assert_eq!(covering(&db, FP_A, SHA_B, "src/a.rs", &[hunk(15, 15)]), tests(&[(BIN_A, "test_a")]));
    assert!(covering(&db, FP_A, SHA_A, "src/a.rs", &[hunk(1, 5)]).is_empty());
    assert_eq!(covering(&db, FP_A, SHA_A, "src/b.rs", &[hunk(1, 5)]), tests(&[(BIN_A, "test_b")]));
    assert_eq!(covering(&db, FP_A, SHA_A, "src/c.rs", &[hunk(1, 5)]), tests(&[(BIN_A, "test_c")]));
}

#[test]
fn diff_prune_drops_absent_tests() {
    let mut db = Db::new();
    store(
        &mut db,
        FP_A,
        SHA_A,
        vec![
            mapping(BIN_A, "test_a", vec![rng("src/a.rs", 1, 5)]),
            mapping(BIN_A, "test_b", vec![rng("src/b.rs", 1, 5)]),
            mapping(BIN_A, "test_c", vec![rng("src/c.rs", 1, 5)]),
        ],
    );
    let evicted = db.prune_missing_tests(FP_A, &tests(&[(BIN_A, "test_a"), (BIN_A, "test_c")]));
    assert_eq!(evicted, 1);
    assert_eq!(db.test_count(FP_A), 2);
    assert!(covering(&db, FP_A, SHA_A, "src/b.rs", &[hunk(1, 5)]).is_empty());
    assert_eq!(covering(&db, FP_A, SHA_A, "src/a.rs", &[hunk(1, 5)]), tests(&[(BIN_A, "test_a")]));
}

#[test]
fn region_count_scoped_by_shas() {
    let mut db = Db::new();
    store(
        &mut db,
        FP_A,
        SHA_A,
        vec![
            mapping(BIN_A, "ta", vec![rng("src/a.rs", 1, 5)]),
            mapping(BIN_A, "tb", vec![rng("src/b.rs", 1, 5)]),
        ],
    );
    update(&mut db, FP_A, SHA_B, vec![mapping(BIN_A, "ta", vec![rng("src/a.rs", 10, 20)])]);
    assert_eq!(db.region_count_at_shas(FP_A, &shas(&[SHA_A])), 1);
    assert_eq!(db.region_count_at_shas(FP_A, &shas(&[SHA_B])), 1);
    assert_eq!(db.region_count_at_shas(FP_A, &shas(&[SHA_A, SHA_B])), 2);
    assert_eq!(db.region_count_at_shas(FP_A, &OrdSet::new()), 0);
    assert_eq!(db.region_count_at_shas(FP_B, &shas(&[SHA_A])), 0);
}

#[test]
fn store_coverage_writes_components() {
    let mut db = Db::new();
    let comps = vec![comp("cargo_lock", "h-lock"), comp("rustc", "h-rustc")];
    let m = vec![mapping(BIN_A, "test_a", vec![rng("src/lib.rs", 1, 5)])];
    db.store_coverage(FP_A, &comps, SHA_A, &m, NOW).unwrap();
    assert_eq!(
        read_components(&db, FP_A),
        vec![
            ("cargo_lock".to_string(), "h-lock".to_string()),
            ("rustc".to_string(), "h-rustc".to_string()),
        ],
    );
}

#[test]
fn store_coverage_replaces_components_idempotently() {
    let mut db = Db::new();
    let m = vec![mapping(BIN_A, "t", vec![rng("src/lib.rs", 1, 5)])];
    db.store_coverage(FP_A, &vec![comp("cargo_lock", "first")], SHA_A, &m, NOW).unwrap();
    db.store_coverage(FP_A, &vec![comp("cargo_lock", "second")], SHA_A, &m, NOW).unwrap();
    assert_eq!(read_components(&db, FP_A), vec![("cargo_lock".to_string(), "second".to_string())]);
}

#[test]
fn duplicate_component_labels_are_refused() {
    let mut db = four_fingerprints();
    let twice = vec![comp("rustc", "x"), comp("rustc", "y")];
    let m = vec![mapping(BIN_A, "t", vec![rng("src/lib.rs", 1, 5)])];
    assert_eq!(db.store_coverage("fp1", &twice, SHA_B, &m, NOW), Err(DbError::DuplicateComponent));
    assert_eq!(db.update_coverage_for_tests("fp1", &twice, SHA_B, &m, NOW), Err(DbError::DuplicateComponent));
    assert_eq!(db, four_fingerprints());
}

#[test]
fn gc_evicts_components() {
    let mut db = four_fingerprints();
    for fp in ["fp1", "fp2", "fp3", "fp4"] {
        assert_eq!(read_components(&db, fp).len(), 1);
    }
    db.gc("fp4", 2);
    assert!(read_components(&db, "fp1").is_empty());
    assert!(read_components(&db, "fp2").is_empty());
    assert_eq!(read_components(&db, "fp3").len(), 1);
    assert_eq!(read_components(&db, "fp4").len(), 1);
}

#[test]
fn clear_wipes_components() {
    let mut db = Db::new();
    store(&mut db, FP_A, SHA_A, vec![mapping(BIN_A, "t", vec![rng("src/lib.rs", 1, 5)])]);
    assert!(!read_components(&db, FP_A).is_empty());
    db.clear();
    assert!(read_components(&db, FP_A).is_empty());
}

#[test]
fn storing_twice_is_storing_once() {
    let m = || vec![mapping(BIN_A, "t", vec![rng("src/lib.rs", 1, 5)])];
    let mut once = Db::new();
    store(&mut once, FP_A, SHA_A, m());
    let mut twice = Db::new();
    store(&mut twice, FP_A, SHA_A, m());
    store(&mut twice, FP_A, SHA_A, m());
    assert_eq!(once, twice);
}

#[test]
fn hits_name_their_reasons() {
    let mut db = Db::new();
    store(
        &mut db,
        FP_A,
        SHA_A,
        vec![
            mapping(BIN_A, "body", vec![rng("src/lib.rs", 10, 20)]),
            mapping(BIN_A, "root", vec![HitRange::sentinel("src/lib.rs".to_string())]),
        ],
    );
    let hits = db.hits_covering_ranges(FP_A, SHA_A, "src/lib.rs", &vec![hunk(12, 12)]);
    let kinds: Vec<(&str, HitKind, Option<(i64, i64)>)> =
        hits.iter().map(|h| (h.test_id.test_name.as_str(), h.reason.kind, h.reason.stored_range)).collect();
    assert_eq!(
        kinds,
        [
            ("body", HitKind::LineOverlap, Some((10, 20))),
            ("root", HitKind::CrateRootSentinel, Some((1, i64::MAX))),
        ],
    );
}

#[test]
fn stored_fingerprints_are_listed_with_their_components() {
    let rows = four_fingerprints().stored_fingerprint_snapshots();
    assert_eq!(rows.len(), 4);
    assert_eq!(rows[1].fingerprint, "fp2");
    assert_eq!(rows[1].last_seen, "2020-01-01T00:00:02Z");
    assert_eq!(rows[1].components, comps_for("fp2"));
}

#[test]
fn rows_are_counted_by_sha() {
    let mut db = Db::new();
    store(
        &mut db,
        FP_A,
        SHA_A,
        vec![mapping(BIN_A, "ta", vec![rng("src/a.rs", 1, 5), rng("src/b.rs", 1, 5)])],
    );
    let counts = db.row_counts_by_sha(FP_A);
    assert_eq!(counts.len(), 1);
    assert_eq!(counts.get(&SHA_A.to_string()), Some(&2));
}

#[test]
fn uncovered_source_files_are_warned_about() {
    let mut db = Db::new();
    store(&mut db, FP_A, SHA_A, vec![mapping(BIN_A, "ta", vec![rng("src/a.rs", 1, 5)])]);
    let changed = shas(&["README.md", "src/a.rs", "src/new.rs"]);
    assert_eq!(
        warn_untracked_rs_files(&db, FP_A, &changed),
        ["warning: src/new.rs has no coverage data — run `cargo affected collect` to include it"],
    );
}

#[test]
fn placeholders_are_numbered() {
    assert_eq!(in_placeholders(3, 3), "?3, ?4, ?5");
    assert_eq!(in_placeholders(1, 0), "");
}

#[test]
fn artifacts_lie_under_target() {
    assert_eq!(affected_dir("/w"), "/w/target/affected");
    assert_eq!(db_path("/w"), "/w/target/affected/coverage.db");
}

#[test]
fn timestamps_are_written_in_utc() {
    assert_eq!(chrono_free_timestamp(0), "1970-01-01T00:00:00Z");
    assert_eq!(chrono_free_timestamp(951_827_696), "2000-02-29T12:34:56Z");
    assert_eq!(days_to_civil(19_723), (2024, 1, 1));
}

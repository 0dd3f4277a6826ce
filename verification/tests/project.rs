//! The project: its metadata, its repository, and what nextest lists of it.

use cargo_affected::args::{args_for_listing, rule_listing_args};
use cargo_affected::db::TestId;
use cargo_affected::diff::{coalesce_ranges, parse_diff_path, parse_hunk_header, parse_unified_diff};
use cargo_affected::diff::{DiffError, LineRange};
use cargo_affected::git::{git_added_files_since, git_changed_files, git_changed_line_ranges, git_head_sha};
use cargo_affected::git::{git_working_tree_dirty, relation_to_head, GitError, GitQuery, RelationStep};
use cargo_affected::git::ShaRelation;
use cargo_affected::json::read_json;
use cargo_affected::listing::{nextest_list, ListingError};
use cargo_affected::llvm::{current_target, find_llvm_tool, first_path, tool_in_sysroot, tool_missing};
use cargo_affected::llvm::{Answer, ToolSearch, ToolStep};
use cargo_affected::nextest::require_nextest;
use cargo_affected::ordered::{OrdMap, OrdSet};
use cargo_affected::paths::{file_name, has_extension, join_path, same_path, strip_base, to_db_relative};
use cargo_affected::process::ProcessOutput;
use cargo_affected::project::{build_binary_id, find_project_root, parse_target, read_metadata, root_manifest};
use cargo_affected::project::{sort_paths, transitive_closure, ProjectError, ProjectRoot, TargetKind};

fn output(stdout: &[u8]) -> ProcessOutput {
    ProcessOutput { code: Some(0), stdout: stdout.to_vec(), stderr: vec![] }
}

fn failed(code: i32, stderr: &str) -> ProcessOutput {
    ProcessOutput { code: Some(code), stdout: vec![], stderr: stderr.as_bytes().to_vec() }
}

fn texts(list: &[&str]) -> OrdSet<String> {
    OrdSet::from_vec(list.iter().map(|s| s.to_string()).collect())
}

fn strings(list: &[&str]) -> Vec<String> {
    list.iter().map(|s| s.to_string()).collect()
}

fn range(start: i64, end: i64) -> LineRange {
    LineRange { start, end }
}

const HEAD: &str = "1c002dd4b536e7479fe34593e72e6c6c1819e53b";

#[test]
fn working_tree_happy_path() {
    let files = git_changed_files(&output(b""), &output(b""), &output(b"new.txt\0")).unwrap();
    assert_eq!(files, texts(&["new.txt"]));
}

#[test]
fn awkward_filename_round_trips() {
    let awkward = "a b — weird-name.txt";
    let listed = format!("{awkward}\0");
    let files = git_changed_files(&output(b""), &output(b""), &output(listed.as_bytes())).unwrap();
    assert!(files.contains(&awkward.to_string()));
}

#[test]
fn changed_files_are_put_together_once_each() {
    let files =
        git_changed_files(&output(b"b.rs\0a.rs\0"), &output(b"b.rs\0"), &output(b"new dir/c.rs\0")).unwrap();
    assert_eq!(files, texts(&["a.rs", "b.rs", "new dir/c.rs"]));
}

#[test]
fn working_tree_dirty_distinguishes_states() {
    assert!(!git_working_tree_dirty(&output(b"")).unwrap());
    assert!(git_working_tree_dirty(&output(b"?? new.txt\0")).unwrap());
    assert!(git_working_tree_dirty(&output(b" M README.md\0")).unwrap());
}

fn ranges_in(diff: &[u8], file: &str) -> Vec<LineRange> {
    let map = git_changed_line_ranges(HEAD, &output(diff)).unwrap();
    map.get(&file.to_string()).unwrap().clone()
}

#[test]
fn line_ranges_modify_in_place() {
    let diff = b"diff --git a/a.txt b/a.txt\nindex 1..2 100644\n--- a/a.txt\n+++ b/a.txt\n\
        @@ -5 +5 @@ line 4\n-line 5\n+modified\n";
    assert_eq!(ranges_in(diff, "a.txt"), vec![range(5, 5)]);
}

#[test]
fn line_ranges_pure_insertion_is_single_line() {
    let diff = b"diff --git a/a.txt b/a.txt\nindex 1..2 100644\n--- a/a.txt\n+++ b/a.txt\n\
        @@ -3,0 +4,2 @@ line 3\n+INSERTED A\n+INSERTED B\n";
    assert_eq!(ranges_in(diff, "a.txt"), vec![range(3, 3)]);
}

#[test]
fn line_ranges_tolerate_binary_content_in_diff() {
    let mut diff = b"diff --git a/binfixture b/binfixture\ndeleted file mode 100644\n\
        --- a/binfixture\n+++ /dev/null\n@@ -1,40 +0,0 @@\n"
        .to_vec();
    for i in 0..40 {
        diff.extend_from_slice(format!("-line {i} ").as_bytes());
        diff.extend_from_slice(&[0xFF, 0xFE, 0xFA, b'\n']);
    }
    assert_eq!(ranges_in(&diff, "binfixture"), vec![range(1, 40)]);
}

#[test]
fn line_ranges_content_masquerading_as_file_header() {
    let diff = b"diff --git a/a.sql b/a.sql\nindex 1..2 100644\n--- a/a.sql\n+++ b/a.sql\n\
        @@ -2 +2 @@ line 1\n--- SQL comment style\n+changed 2\n@@ -9 +9 @@ line 8\n-line 9\n+changed 9\n";
    assert_eq!(ranges_in(diff, "a.sql"), vec![range(2, 2), range(9, 9)]);
}

#[test]
fn line_ranges_non_ascii_path() {
    let awkward = "a b — weird-name.txt";
    // Git appends a tab to a path with spaces.
    let diff = format!(
        "diff --git a/{awkward} b/{awkward}\nindex 1..2 100644\n--- a/{awkward}\t\n+++ b/{awkward}\t\n\
         @@ -3 +3 @@ line 2\n-line 3\n+changed 3\n"
    );
    assert_eq!(ranges_in(diff.as_bytes(), awkward), vec![range(3, 3)]);
    assert!(GitQuery::Hunks(HEAD.to_string()).args().contains(&"core.quotePath=false".to_string()));
}

#[test]
fn parse_unified_diff_tolerates_non_utf8_bytes() {
    let mut diff = Vec::new();
    diff.extend_from_slice(b"--- a/data.bin\n");
    diff.extend_from_slice(b"+++ b/data.bin\n");
    diff.extend_from_slice(b"@@ -3,2 +3,2 @@ \xff\xfe\n");
    diff.extend_from_slice(b"-old \xf0\x28\x8c\x28 payload\n");
    diff.extend_from_slice(b"-old second line\n");
    diff.extend_from_slice(b"+new \xff payload\n");
    diff.extend_from_slice(b"+new second line\n");
    diff.extend_from_slice(b"--- a/b\xffad\n");
    diff.extend_from_slice(b"+++ b/b\xffad\n");
    diff.extend_from_slice(b"@@ -1,1 +1,1 @@\n");
    diff.extend_from_slice(b"-x\n");
    diff.extend_from_slice(b"+y\n");
    let map = parse_unified_diff(&diff).unwrap();
    assert_eq!(map.get(&"data.bin".to_string()), Some(&vec![LineRange { start: 3, end: 4 }]));
    assert_eq!(map.len(), 1, "undecodable path should be skipped");
}

#[test]
fn parse_unified_diff_rejects_corrupt_input() {
    let err = parse_unified_diff(b"--- a/x\n+++ b/x\n@@ garbage @@\n-x\n+y\n").unwrap_err();
    assert!(matches!(err, DiffError::MalformedHunkHeader(_)));
    assert!(err.message().contains("malformed hunk header"), "{}", err.message());
    let err = parse_unified_diff(b"--- a/x\n+++ b/x\n@@ -1,2 +1,0 @@\n-x\nzz\n").unwrap_err();
    assert!(matches!(err, DiffError::UnexpectedLine(_)));
    assert!(err.message().contains("unexpected line"), "{}", err.message());
    let err = parse_unified_diff(b"--- a/x\n+++ b/x\n@@ -1,2 +1,0 @@\n-x\nz\xffz\n").unwrap_err();
    assert_eq!(err, DiffError::UnexpectedLine("z\u{fffd}z".to_string()));
}

#[test]
fn parse_hunk_header_variants() {
    let h = parse_hunk_header("@@ -10,3 +20,1 @@").unwrap();
    assert_eq!(h.old_range, LineRange { start: 10, end: 12 });
    assert_eq!((h.old_count, h.new_count), (3, 1));
    let h = parse_hunk_header("@@ -7 +7 @@ fn foo()").unwrap();
    assert_eq!(h.old_range, LineRange { start: 7, end: 7 });
    assert_eq!((h.old_count, h.new_count), (1, 1));
    let h = parse_hunk_header("@@ -5,0 +6,2 @@").unwrap();
    assert_eq!(h.old_range, LineRange { start: 5, end: 5 });
    assert_eq!((h.old_count, h.new_count), (0, 2));
}

#[test]
fn diff_paths_lose_their_prefix() {
    assert_eq!(parse_diff_path("a/src/x.rs"), Some("src/x.rs".to_string()));
    assert_eq!(parse_diff_path("a/src/x y.rs\t2026-01-01"), Some("src/x y.rs".to_string()));
    assert_eq!(parse_diff_path("/dev/null"), Some("/dev/null".to_string()));
    assert_eq!(parse_diff_path("src/x.rs"), None);
}

#[test]
fn adjacent_ranges_are_joined() {
    let joined = coalesce_ranges(&vec![range(9, 10), range(1, 3), range(4, 5), range(2, 2)]);
    assert_eq!(joined, vec![range(1, 5), range(9, 10)]);
}

#[test]
fn relation_to_head_equal_when_unchanged() {
    assert_eq!(relation_to_head(HEAD, HEAD, None, None), Ok(RelationStep::Known(ShaRelation::Equal)));
}

#[test]
fn relation_to_head_ancestor_counts_commits_ahead() {
    let sha = "e6fb3a5c0a1b2c3d4e5f60718293a4b5c6d7e8f9";
    assert_eq!(relation_to_head(HEAD, sha, None, None), Ok(RelationStep::AskExists));
    let exists = output(b"");
    assert_eq!(relation_to_head(HEAD, sha, Some(&exists), None), Ok(RelationStep::AskCommitsAhead));
    assert_eq!(
        relation_to_head(HEAD, sha, Some(&exists), Some(&output(b"3\n"))),
        Ok(RelationStep::Known(ShaRelation::Reachable { commits_ahead: 3 })),
    );
}

#[test]
fn relation_to_head_reachable_after_reset() {
    let sha = "e6fb3a5c0a1b2c3d4e5f60718293a4b5c6d7e8f9";
    let rel = relation_to_head(HEAD, sha, Some(&output(b"")), Some(&output(b"0\n"))).unwrap();
    assert!(matches!(rel, RelationStep::Known(ShaRelation::Reachable { .. })), "expected Reachable, got {rel:?}");
}

#[test]
fn relation_to_head_missing_when_sha_absent() {
    let gone = failed(128, "fatal: Not a valid object name deadbeef");
    assert_eq!(
        relation_to_head(HEAD, "deadbeef00000000000000000000000000000000", Some(&gone), None),
        Ok(RelationStep::Known(ShaRelation::Missing)),
    );
}

#[test]
fn counts_of_commits_that_cannot_be_read() {
    let exists = output(b"");
    let e = relation_to_head(HEAD, "abc", Some(&exists), Some(&failed(128, "x"))).unwrap_err();
    assert!(matches!(e, GitError::Failed(_, Some(128), _)));
    assert_eq!(relation_to_head(HEAD, "abc", Some(&exists), Some(&output(b""))), Err(GitError::NoCount));
    assert_eq!(relation_to_head(HEAD, "abc", Some(&exists), Some(&output(b"many\n"))), Err(GitError::BadCount("invalid digit found in string".to_string())));
}

#[test]
fn bad_sha_errors_loudly() {
    let err = git_changed_line_ranges(
        "deadbeef0000000000000000000000000000",
        &failed(128, "fatal: bad object deadbeef0000000000000000000000000000"),
    )
    .unwrap_err();
    assert!(matches!(err, GitError::Failed(_, Some(128), _)));
    assert!(err.message().contains("git diff"), "error should name the failing command: {}", err.message());
}

#[test]
fn hunks_that_cannot_be_read_are_an_error() {
    let err = git_changed_line_ranges(HEAD, &output(b"--- a/x\n+++ b/x\n@@ garbage @@\n")).unwrap_err();
    assert!(matches!(err, GitError::BadDiff(DiffError::MalformedHunkHeader(_))));
}

#[test]
fn head_is_read() {
    assert_eq!(git_head_sha(&output(format!("{HEAD}\n").as_bytes())), Ok(HEAD.to_string()));
    assert_eq!(git_head_sha(&output(b"\n")), Err(GitError::BlankHead));
    assert!(git_head_sha(&failed(128, "fatal: ambiguous argument 'HEAD'")).is_err());
}

#[test]
fn added_files_are_read() {
    assert_eq!(git_added_files_since(HEAD, &output(b"b\0a\0")), Ok(texts(&["a", "b"])));
    assert!(git_added_files_since(HEAD, &failed(1, "x")).is_err());
}

#[test]
fn binary_id_matches_nextest_format() {
    assert_eq!(build_binary_id("foo-lib", TargetKind::Lib, "foo_lib"), "foo-lib");
    assert_eq!(build_binary_id("foo-derive", TargetKind::ProcMacro, "derive"), "foo-derive");
    assert_eq!(build_binary_id("foo-lib", TargetKind::Test, "foo_test"), "foo-lib::foo_test");
    assert_eq!(build_binary_id("foo-lib", TargetKind::Bin, "foo_bin"), "foo-lib::bin/foo_bin");
}

fn graph(edges: &[(&str, &[&str])]) -> OrdMap<String, OrdSet<String>> {
    let mut m = OrdMap::new();
    for (from, to) in edges {
        m.insert(from.to_string(), texts(to));
    }
    m
}

#[test]
fn transitive_closure_walks_dep_graph() {
    let deps = graph(&[("a", &["b", "d"]), ("b", &["c"]), ("c", &[]), ("d", &[]), ("e", &[])]);
    let closure = |p: &str| transitive_closure(&p.to_string(), &deps);
    assert_eq!(closure("a"), texts(&["b", "c", "d"]));
    assert_eq!(closure("b"), texts(&["c"]));
    assert_eq!(closure("c"), texts(&[]));
    assert_eq!(closure("e"), texts(&[]));
    assert_eq!(closure("zzz"), texts(&[]));
}

#[test]
fn transitive_closure_handles_cycles() {
    let deps = graph(&[("a", &["b"]), ("b", &["a"])]);
    assert_eq!(transitive_closure(&"a".to_string(), &deps), texts(&["b"]));
}

fn target(name: &str, kind: &str, test: bool, src: &str) -> String {
    format!(r#"{{"name": "{name}", "kind": ["{kind}"], "test": {test}, "src_path": "{src}"}}"#)
}

fn dependency(name: &str, kind: &str) -> String {
    format!(r#"{{"name": "{name}", "kind": {kind}, "source": null}}"#)
}

fn package(name: &str, targets: &[String], deps: &[String]) -> String {
    format!(
        r#"{{"name": "{name}", "manifest_path": "/ws/{name}/Cargo.toml", "targets": [{}], "dependencies": [{}]}}"#,
        targets.join(", "),
        deps.join(", "),
    )
}

fn sentinels(packages: &[String]) -> OrdMap<String, OrdSet<String>> {
    let text = format!(r#"{{"workspace_root": "/ws", "packages": [{}]}}"#, packages.join(", "));
    let project = ProjectRoot {
        workspace_root: "/ws".to_string(),
        manifest_paths: vec![],
        metadata: read_json(&text).unwrap(),
    };
    project.crate_root_sentinels_by_binary_id(false)
}

#[test]
fn sentinels_per_target_with_path_dep_chain() {
    let map = sentinels(&[
        package(
            "math",
            &[
                target("math", "lib", true, "/ws/math/src/lib.rs"),
                target("integration", "test", true, "/ws/math/tests/integration.rs"),
            ],
            &[dependency("strings", "null"), dependency("utils", "\"build\"")],
        ),
        package(
            "strings",
            &[target("strings", "lib", true, "/ws/strings/src/lib.rs")],
            &[dependency("utils", "null")],
        ),
        package("utils", &[target("utils", "lib", true, "/ws/utils/src/lib.rs")], &[]),
    ]);
    let of = |id: &str| map.get(&id.to_string()).unwrap();
    assert_eq!(of("math"), &texts(&["math/src/lib.rs", "strings/src/lib.rs", "utils/src/lib.rs"]));
    assert_eq!(
        of("math::integration"),
        &texts(&["math/src/lib.rs", "math/tests/integration.rs", "strings/src/lib.rs", "utils/src/lib.rs"]),
    );
    assert_eq!(of("strings"), &texts(&["strings/src/lib.rs", "utils/src/lib.rs"]));
    assert_eq!(of("utils"), &texts(&["utils/src/lib.rs"]));
}

#[test]
fn lib_without_test_harness_still_seeds_sentinels() {
    let map = sentinels(&[
        package(
            "math",
            &[
                target("math", "lib", false, "/ws/math/src/lib.rs"),
                target("integration", "test", true, "/ws/math/tests/integration.rs"),
            ],
            &[dependency("strings", "null")],
        ),
        package("strings", &[target("strings", "lib", false, "/ws/strings/src/lib.rs")], &[]),
    ]);
    assert!(!map.contains_key(&"math".to_string()));
    assert!(!map.contains_key(&"strings".to_string()));
    assert_eq!(
        map.get(&"math::integration".to_string()).unwrap(),
        &texts(&["math/src/lib.rs", "math/tests/integration.rs", "strings/src/lib.rs"]),
    );
}

#[test]
fn targets_outside_the_workspace_are_left_out() {
    let j = read_json(&target("x", "lib", true, "/elsewhere/src/lib.rs")).unwrap();
    assert!(parse_target(&j, "/ws", false).is_none());
    let j = read_json(&target("x", "lib", true, "/ws/x/src/lib.rs")).unwrap();
    assert_eq!(parse_target(&j, "/ws", false).unwrap().src_path, "x/src/lib.rs");
}

const METADATA: &str = r#"{"workspace_root": "/ws", "packages": [
    {"name": "b", "manifest_path": "/ws/b/Cargo.toml"},
    {"name": "a", "manifest_path": "/ws/a/Cargo.toml"}]}"#;

#[test]
fn project_root_is_found() {
    let metadata = read_metadata(METADATA.as_bytes()).unwrap();
    assert_eq!(root_manifest(&metadata), Some("/ws/Cargo.toml".to_string()));
    let project = find_project_root(metadata, true).unwrap();
    assert_eq!(project.workspace_root, "/ws");
    assert_eq!(project.manifest_paths, ["/ws/Cargo.toml", "/ws/a/Cargo.toml", "/ws/b/Cargo.toml"]);
}

#[test]
fn metadata_that_cannot_be_used() {
    assert_eq!(
        read_metadata(b"{").err().unwrap(),
        ProjectError::BadMetadata("EOF while parsing an object at line 1 column 1".to_string()),
    );
    assert_eq!(
        read_metadata(&[0xff]).err().unwrap().message(),
        "failed to parse cargo metadata: expected value at line 1 column 1",
    );
    let e = find_project_root(read_json("{}").unwrap(), false).err().unwrap();
    assert_eq!(e, ProjectError::NoWorkspaceRoot);
    assert!(e.message().contains("workspace_root"));
}

#[test]
fn paths_are_sorted_by_component() {
    assert_eq!(sort_paths(&strings(&["/w/a-b", "/w/a/z", "/w/a"])), ["/w/a", "/w/a/z", "/w/a-b"]);
}

#[test]
fn paths_are_taken_apart() {
    assert_eq!(join_path("/w", "src"), "/w/src");
    assert_eq!(join_path("/w", "/abs"), "/abs");
    assert_eq!(strip_base("/w/src/x.rs", "/w"), Some("src/x.rs".to_string()));
    assert_eq!(strip_base("/wide/x.rs", "/w"), None);
    assert!(same_path("/w//a/./b", "/w/a/b"));
    assert_eq!(file_name("/t/bin-1"), Some("bin-1".to_string()));
    assert_eq!(file_name(".."), None);
    assert!(has_extension("x.json", "json") && !has_extension("x.json.tmp", "json"));
    assert_eq!(to_db_relative("src\\x.rs", true), "src/x.rs");
    assert_eq!(to_db_relative("src\\x.rs", false), "src\\x.rs");
}

const LISTING: &str = r#"{"rust-suites": {"a": {"binary-id": "a", "binary-path": "/t/a-1", "testcases": {
    "t1": {"ignored": false, "filter-match": {"status": "matches"}},
    "t2": {"ignored": true, "filter-match": {"status": "mismatch", "reason": "ignored"}},
    "t3": {"ignored": false, "filter-match": {"status": "mismatch", "reason": "expression"}}}},
  "b": {"binary-id": "b", "binary-path": "/t/b-1"}}}"#;

#[test]
fn listing_is_read() {
    let l = nextest_list(LISTING.as_bytes()).unwrap();
    assert_eq!(l.tests.len(), 3);
    assert_eq!(l.ignored, OrdSet::from_vec(vec![TestId::new("a", "t2")]));
    assert!(l.skips(&TestId::new("a", "t2")) && l.skips(&TestId::new("a", "t3")));
    assert!(!l.skips(&TestId::new("a", "t1")));
    let ids: Vec<&str> = l.binaries.iter().map(|b| b.binary_id.as_str()).collect();
    assert_eq!(ids, ["a", "b"]);
}

#[test]
fn listings_that_cannot_be_read() {
    assert!(matches!(nextest_list(b"{"), Err(ListingError::NotJson(_))));
    assert_eq!(
        nextest_list(&[0xff]).err().unwrap(),
        ListingError::NotText("invalid utf-8 sequence of 1 bytes from index 0".to_string()),
    );
    let e = nextest_list(br#"{"rust-suites": {"a": {"binary-path": "/t"}}}"#).err().unwrap();
    assert!(e.message().contains("binary-id"), "{}", e.message());
    let e = nextest_list(br#"{"rust-suites": {"a": {"binary-id": "a"}}}"#).err().unwrap();
    assert!(e.message().contains("binary-path"), "{}", e.message());
    let e = nextest_list(
        br#"{"rust-suites": {"a": {"binary-id": "a", "binary-path": "/t", "testcases": {"t": {}}}}}"#,
    )
    .err()
    .unwrap();
    assert!(e.message().contains("ignored"), "{}", e.message());
}

#[test]
fn listing_keeps_filters_and_drops_run_flags() {
    let args = strings(&["--features", "f", "--retries", "2", "-E", "test(=a)", "substring", "--no-fail-fast"]);
    assert_eq!(args_for_listing(&args), ["--features", "f", "-E", "test(=a)", "substring"]);
    assert_eq!(
        rule_listing_args(&args, "test(=rule)"),
        ["--features", "f", "--run-ignored", "all", "-E", "test(=rule)"],
    );
}

#[test]
fn partitions_are_not_listed() {
    let args = strings(&["--partition", "hash:1/2", "--partition=hash:1/2", "name"]);
    assert_eq!(args_for_listing(&args), ["name"]);
}

#[test]
fn nextest_must_be_recent() {
    assert_eq!(require_nextest(Some(&b"cargo-nextest 0.9.120 (abc 2026-01-01)\n".to_vec())), None);
    assert!(require_nextest(Some(&b"cargo-nextest 0.9.100\n".to_vec())).unwrap().contains("0.9.116"));
    assert!(require_nextest(None).unwrap().contains("cargo install cargo-nextest"));
}

#[test]
fn tools_are_looked_up() {
    let rustc = b"rustc 1.80.0\nbinary: rustc\nhost: x86_64-unknown-linux-gnu\nrelease: 1.80.0\n".to_vec();
    assert_eq!(current_target(Some(&rustc)), "x86_64-unknown-linux-gnu");
    assert_eq!(current_target(None), "unknown");
    assert_eq!(
        tool_in_sysroot(b"/sys\n", "x86_64-unknown-linux-gnu", "llvm-cov"),
        "/sys/lib/rustlib/x86_64-unknown-linux-gnu/bin/llvm-cov",
    );
    assert_eq!(first_path(b"/usr/bin/llvm-cov\n/opt/llvm-cov\n"), Some("/usr/bin/llvm-cov".to_string()));
    assert_eq!(first_path(b" \n"), None);
    assert!(tool_missing("llvm-cov").starts_with("could not find llvm-cov. Install `llvm-tools`"));
}

#[test]
fn llvm_tools_are_searched_in_order() {
    let step = |s: &ToolSearch, macos: bool| find_llvm_tool(s, "triple", "llvm-cov", macos);
    let mut s = ToolSearch {
        sysroot: Answer::NotAsked,
        exists: None,
        xcrun: Answer::NotAsked,
        on_path: Answer::NotAsked,
    };
    assert_eq!(step(&s, false), ToolStep::AskSysroot);
    s.sysroot = Answer::Left(output(b"/sys\n"));
    let expected = "/sys/lib/rustlib/triple/bin/llvm-cov".to_string();
    assert_eq!(step(&s, false), ToolStep::AskExists(expected.clone()));
    s.exists = Some(true);
    assert_eq!(step(&s, true), ToolStep::Found(expected));
    s.exists = Some(false);
    assert_eq!(step(&s, true), ToolStep::AskXcrun);
    assert_eq!(step(&s, false), ToolStep::AskPath);
    s.xcrun = Answer::Left(output(b"/xcode/llvm-cov\n"));
    assert_eq!(step(&s, true), ToolStep::Found("/xcode/llvm-cov".to_string()));
    s.xcrun = Answer::Left(failed(1, "no such tool"));
    assert_eq!(step(&s, true), ToolStep::AskPath);
    s.on_path = Answer::Left(output(b"/usr/bin/llvm-cov\n/opt/llvm-cov\n"));
    assert_eq!(step(&s, true), ToolStep::Found("/usr/bin/llvm-cov".to_string()));
    s.on_path = Answer::NotStarted;
    assert_eq!(step(&s, true), ToolStep::Missing);

    s.sysroot = Answer::NotStarted;
    s.exists = None;
    s.on_path = Answer::NotAsked;
    assert_eq!(step(&s, false), ToolStep::AskPath);
    s.on_path = Answer::Left(output(b"\n"));
    assert_eq!(step(&s, false), ToolStep::Missing);
}

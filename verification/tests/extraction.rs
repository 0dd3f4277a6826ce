//! From the coverage map of a binary and the profile of a test to the ranges that the test hit.

use cargo_affected::coverage::{executed_functions, ExportError, HitRange, ProfileError, ProfileField};
use cargo_affected::coverage::CRATE_ROOT_SENTINEL_END;
use cargo_affected::function_map::{build_function_map, hit_ranges, BinaryFunctionMap, BinaryStamp, FunctionMap};
use cargo_affected::ordered::{OrdMap, OrdSet};
use cargo_affected::process::ProcessOutput;
use cargo_affected::shim::{extract, join_profile, load_function_map, map_path, merge_args, result_paths, sanitize};
use cargo_affected::shim::{test_dir, Evidence, ExtractStep, TestOutcome};

fn function_json(name: &str, files: &[&str], regions: &str) -> String {
    let names: Vec<String> = files.iter().map(|f| format!("\"{f}\"")).collect();
    format!(
        "{{\"name\": \"{name}\", \"filenames\": [{}], \"regions\": [{regions}]}}",
        names.join(", "),
    )
}

fn export_json(functions: &[String]) -> String {
    format!("{{\"data\": [{{\"functions\": [{}]}}]}}", functions.join(", "))
}

fn range(file: &str, start: i64, end: i64) -> HitRange {
    HitRange { file: file.to_string(), line_start: start, line_end: end }
}

fn names(list: &[&str]) -> Vec<String> {
    list.iter().map(|s| s.to_string()).collect()
}

fn map_of(name: &str, ranges: Vec<HitRange>) -> FunctionMap {
    let mut m = OrdMap::new();
    m.insert(name.to_string(), ranges);
    m
}

fn ranges_of<'a>(map: &'a FunctionMap, name: &str) -> &'a Vec<HitRange> {
    map.get(&name.to_string()).unwrap()
}

#[test]
fn builds_function_extents_per_file() {
    let json = export_json(&[
        function_json("adds", &["/w/src/lib.rs"], "[10, 0, 12, 0, 0, 0, 0, 0], [11, 0, 15, 0, 0, 0, 0, 0]"),
        function_json("greets", &["/w/src/utils.rs"], "[5, 0, 7, 0, 0, 0, 0, 0]"),
        function_json("std_io", &["/rustc/abc/library/std/src/io.rs"], "[1, 0, 5, 0, 0, 0, 0, 0]"),
    ]);
    let map = build_function_map(&json, "/w", false).unwrap();
    assert_eq!(map.len(), 2);
    assert_eq!(ranges_of(&map, "adds"), &vec![range("src/lib.rs", 10, 15)]);
    assert_eq!(ranges_of(&map, "greets"), &vec![range("src/utils.rs", 5, 7)]);
}

#[test]
fn zero_count_regions_still_define_the_extent() {
    let json = export_json(&[function_json(
        "early_return",
        &["/w/src/lib.rs"],
        "[20, 0, 25, 0, 0, 0, 0, 0], [22, 0, 30, 0, 0, 0, 0, 0]",
    )]);
    let map = build_function_map(&json, "/w", false).unwrap();
    assert_eq!(ranges_of(&map, "early_return")[0].line_start, 20);
    assert_eq!(ranges_of(&map, "early_return")[0].line_end, 30);
}

#[test]
fn dedupes_generic_monomorphizations() {
    let json = export_json(&[
        function_json("id$u8", &["/w/src/lib.rs"], "[1, 0, 5, 0, 0, 0, 0, 0]"),
        function_json("id$i32", &["/w/src/lib.rs"], "[1, 0, 5, 0, 0, 0, 0, 0]"),
    ]);
    let map = build_function_map(&json, "/w", false).unwrap();
    let ranges = hit_ranges(&names(&["id$u8", "id$i32"]), &map).unwrap();
    assert_eq!(ranges.len(), 1);
}

#[test]
fn two_ways_to_write_a_path_are_one_place() {
    let lines = "[1, 0, 5, 0, 0, 0, 0, 0]";
    let json = export_json(&[
        function_json("f", &["/w/src//a.rs"], lines),
        function_json("f", &["/w/src/a.rs"], lines),
        function_json("g", &["/w/src/./a.rs"], lines),
        function_json("h", &["/w/src/a.rs"], "[1, 0, 6, 0, 0, 0, 0, 0]"),
    ]);
    let map = build_function_map(&json, "/w", false).unwrap();
    assert_eq!(ranges_of(&map, "f"), &vec![range("src//a.rs", 1, 5)]);
    let hit = hit_ranges(&names(&["g", "f", "h"]), &map).unwrap();
    assert_eq!(hit, OrdSet::from_vec(vec![range("src/./a.rs", 1, 5), range("src/a.rs", 1, 6)]));
}

#[test]
fn unmatched_names_are_not_an_error() {
    let map = map_of("mine", vec![range("src/lib.rs", 1, 4)]);
    let ranges = hit_ranges(&names(&["serde::de", "mine", "regex::exec"]), &map).unwrap();
    assert_eq!(ranges.len(), 1);
}

#[test]
fn a_join_that_matches_nothing_is_an_error() {
    let map = map_of("mine", vec![range("src/lib.rs", 1, 4)]);
    let err = hit_ranges(&names(&["serde::de", "regex::exec"]), &map).unwrap_err();
    assert!(err.message().contains("don't describe the same binary"), "unexpected error: {}", err.message());
    assert!(hit_ranges(&names(&["mine"]), &OrdMap::new()).is_err());
}

#[test]
fn a_function_in_two_files_has_an_extent_in_each() {
    let json = export_json(&[function_json(
        "macro_user",
        &["/w/src/a.rs", "/w/src/b.rs"],
        "[3, 0, 4, 0, 0, 0, 0, 0], [7, 0, 9, 0, 0, 1, 0, 0]",
    )]);
    let map = build_function_map(&json, "/w", false).unwrap();
    assert_eq!(ranges_of(&map, "macro_user"), &vec![range("src/a.rs", 3, 4), range("src/b.rs", 7, 9)]);
}

#[test]
fn exports_that_cannot_be_read() {
    let e = build_function_map("{", "/w", false).unwrap_err();
    assert!(matches!(e, ExportError::NotJson(_)));
    assert!(e.message().starts_with("failed to parse llvm-cov export JSON: "));
    let e = build_function_map("{\"data\": 3}", "/w", false).unwrap_err();
    assert_eq!(e, ExportError::WrongShape);
}

#[test]
fn reads_executed_functions_from_proftext() {
    let proftext = "\
_RNvC5probe3add
# Func Hash:
5576428231601949022
# Num Counters:
3
# Counter Values:
8
0
2

_RNvC5probe12never_called
# Func Hash:
123
# Num Counters:
2
# Counter Values:
0
0
";
    assert_eq!(executed_functions(proftext).unwrap(), ["_RNvC5probe3add"]);
}

#[test]
fn skips_leading_profile_flags() {
    let proftext = ":ir\n:entry_first\nfunc\n7\n1\n4\n";
    assert_eq!(executed_functions(proftext).unwrap(), ["func"]);
}

#[test]
fn malformed_records_are_errors() {
    let truncated = executed_functions("func\n7\n3\n1\n2\n").unwrap_err();
    assert!(truncated.message().contains("counter value"), "unexpected error: {}", truncated.message());
    let unparsable = executed_functions("func\nnot-a-hash\n1\n1\n").unwrap_err();
    assert!(unparsable.message().contains("non-numeric hash"), "unexpected error: {}", unparsable.message());
    let unknown = executed_functions("func\n7\n1\n4\n$deadbeef\n").unwrap_err();
    assert!(unknown.message().contains("$deadbeef"), "unexpected error: {}", unknown.message());
}

#[test]
fn empty_profile_is_an_error() {
    assert!(executed_functions("").is_err());
    assert_eq!(executed_functions(""), Err(ProfileError::NothingExecuted));
}

#[test]
fn profile_errors_say_which_field() {
    assert_eq!(
        executed_functions("func\n"),
        Err(ProfileError::Ended { name: "func".to_string(), field: ProfileField::Hash }),
    );
    assert_eq!(
        executed_functions("func\n7\nx\n"),
        Err(ProfileError::NonNumeric {
            name: "func".to_string(),
            field: ProfileField::CounterCount,
            cause: "invalid digit found in string".to_string(),
        }),
    );
    assert_eq!(
        executed_functions("func\n18446744073709551616\n1\n1\n").unwrap_err().message(),
        "profile record func has a non-numeric hash: number too large to fit in target type",
    );
}

#[test]
fn sentinel_uses_the_canonical_end_value() {
    let r = HitRange::sentinel("src/lib.rs".to_string());
    assert_eq!(r.line_start, 1);
    assert_eq!(r.line_end, CRATE_ROOT_SENTINEL_END);
    assert_eq!(r.line_end, i64::MAX);
}

#[test]
fn sanitize_passthrough() {
    assert_eq!(sanitize("plain_name"), "plain_name");
    assert_eq!(sanitize("dotted.name-1"), "dotted.name-1");
}

#[test]
fn sanitize_replaces_hostile_chars() {
    assert_eq!(sanitize("math::tests::test_add"), "math__tests__test_add");
    assert_eq!(sanitize("mock-stub::builds"), "mock-stub__builds");
    assert_eq!(sanitize("a/b"), "a_b");
    assert_eq!(sanitize("a\\b"), "a_b");
    assert_eq!(sanitize("a b"), "a_b");
}

#[test]
fn sanitizing_twice_changes_nothing_more() {
    let once = sanitize("mod::t (x)");
    assert_eq!(once, "mod__t__x_");
    assert_eq!(sanitize(&once), once);
}

#[test]
fn map_path_is_named_for_the_binary() {
    assert_eq!(
        map_path("/tmp/maps", "/t/debug/deps/integration-9f2a"),
        Some("/tmp/maps/integration-9f2a.json".to_string()),
    );
    assert_eq!(map_path("/tmp/maps", ".."), None);
}

#[test]
fn results_lie_two_levels_deep() {
    let p = result_paths("/r", "my-crate::tests", "math::adds");
    assert_eq!(p.dir, "/r/my-crate__tests");
    assert_eq!(p.file, "/r/my-crate__tests/math__adds.json");
    assert_eq!(p.scratch, "/r/my-crate__tests/math__adds.json.tmp");
    assert_eq!(test_dir("/p", "my-crate::tests", "math::adds"), "/p/my-crate__tests/math__adds");
}

fn stamp(len: u64) -> BinaryStamp {
    BinaryStamp { len, modified_secs: 10, modified_nanos: 20 }
}

fn loaded_map(name: &str) -> BinaryFunctionMap {
    BinaryFunctionMap { binary: stamp(1), functions: map_of(name, vec![range("src/lib.rs", 1, 4)]) }
}

fn evidence() -> Evidence {
    Evidence { profraws: Ok(vec!["a.profraw".to_string()]), map: None, merge: None, proftext: None }
}

fn skip_reason(step: ExtractStep) -> String {
    match step {
        ExtractStep::Done(TestOutcome::Skipped { reason }) => reason,
        other => panic!("expected Skipped, got {other:?}"),
    }
}

fn merged(code: i32, stderr: &str) -> Option<Result<ProcessOutput, String>> {
    Some(Ok(ProcessOutput { code: Some(code), stdout: vec![], stderr: stderr.as_bytes().to_vec() }))
}

#[test]
fn extract_without_profraw_skips() {
    let mut e = evidence();
    e.profraws = Ok(vec![]);
    assert_eq!(skip_reason(extract(&e, "test-bin")), "no profraw generated");
}

#[test]
fn extract_without_function_map_skips() {
    let mut e = evidence();
    assert_eq!(extract(&e, "integration-abc123"), ExtractStep::LoadMap);
    let path = map_path("/maps", "/t/integration-abc123").unwrap();
    e.map = Some(Err(format!("no function map at {path}")));
    let reason = skip_reason(extract(&e, "integration-abc123"));
    assert!(reason.contains("integration-abc123.json"), "reason should name the missing map: {reason}");
}

#[test]
fn extract_with_a_map_for_another_build_skips() {
    let mut e = evidence();
    e.map = Some(Ok((loaded_map("f"), stamp(2))));
    let reason = skip_reason(extract(&e, "integration-abc123"));
    assert!(
        reason.contains("rebuilt after its function map was exported"),
        "reason should name the stale map: {reason}",
    );
}

#[test]
fn a_map_of_the_same_build_applies() {
    let map = loaded_map("f");
    assert_eq!(load_function_map(&map, stamp(1), "bin"), Ok(&map));
    assert!(load_function_map(&map, stamp(2), "bin").is_err());
}

#[test]
fn extraction_goes_step_by_step() {
    let mut e = evidence();
    e.map = Some(Ok((loaded_map("f"), stamp(1))));
    assert_eq!(extract(&e, "bin"), ExtractStep::Merge);
    e.merge = merged(0, "");
    assert_eq!(extract(&e, "bin"), ExtractStep::ReadProfile);
    e.proftext = Some(Ok("f\n7\n1\n4\n".to_string()));
    assert_eq!(
        extract(&e, "bin"),
        ExtractStep::Done(TestOutcome::Collected { ranges: OrdSet::from_vec(vec![range("src/lib.rs", 1, 4)]) }),
    );
}

#[test]
fn every_failure_of_an_extraction_is_a_skip() {
    let mut e = evidence();
    e.profraws = Err("denied".to_string());
    assert_eq!(skip_reason(extract(&e, "bin")), "listing profraw files: denied");
    e = evidence();
    e.map = Some(Ok((loaded_map("f"), stamp(1))));
    e.merge = Some(Err("not found".to_string()));
    assert_eq!(skip_reason(extract(&e, "bin")), "llvm-profdata merge failed to run: not found");
    e.merge = merged(1, " corrupt \n");
    assert_eq!(skip_reason(extract(&e, "bin")), "llvm-profdata merge failed: corrupt");
    e.merge = merged(0, "");
    e.proftext = Some(Err("gone".to_string()));
    assert_eq!(skip_reason(extract(&e, "bin")), "reading merged profile: gone");
    e.proftext = Some(Ok("other\n7\n1\n4\n".to_string()));
    assert!(skip_reason(extract(&e, "bin")).contains("don't describe the same binary"));
}

#[test]
fn a_profile_is_joined_with_the_map() {
    let hit = join_profile("f\n7\n1\n4\n", &loaded_map("f"), "bin");
    assert_eq!(hit, TestOutcome::Collected { ranges: OrdSet::from_vec(vec![range("src/lib.rs", 1, 4)]) });
    assert!(matches!(join_profile("", &loaded_map("f"), "bin"), TestOutcome::Skipped { .. }));
}

#[test]
fn profiles_are_merged_into_text() {
    let files = vec!["a.profraw".to_string(), "b.profraw".to_string()];
    assert_eq!(
        merge_args(&files, "/d/coverage.proftext"),
        ["merge", "--sparse", "--text", "a.profraw", "b.profraw", "-o", "/d/coverage.proftext"],
    );
}

//! The runner of test binaries: what becomes of the profile that one test leaves behind.
//!
//! Each test runs under its own runner process, which waits for it, turns its profile into line
//! ranges and records a small result. What one test leaves on disk is gone before the next one of
//! its slot starts.

use vstd::prelude::*;
use crate::coverage::{executed_functions, HitRange, HitRangeView};
use crate::diff::lossy_text;
use crate::function_map::{hit_ranges, BinaryFunctionMap, BinaryStamp};
use crate::ordered::OrdSet;
use crate::paths::{file_name, join_path};
use crate::process::ProcessOutput;
use crate::text::{chars_of, trim_text};

verus! {

/// Whether a character may stand in the name of a file on every platform.
pub open spec fn is_plain_char(c: char) -> bool {
    ('a' <= c && c <= 'z') || ('A' <= c && c <= 'Z') || ('0' <= c && c <= '9') || c == '_' || c == '-' || c == '.'
}

/// A name with everything but letters, digits, `_`, `-` and `.` replaced by `_`.
pub open spec fn sanitized(name: Seq<char>) -> Seq<char> {
    name.map_values(|c: char| if is_plain_char(c) { c } else { '_' })
}

/// Makes a test name or a binary id safe for use as one component of a path. The result is never
/// turned back: a [`TestResult`] carries the names as they are.
pub fn sanitize(name: &str) -> (r: String)
    ensures
        r@ == sanitized(name@),
{
    let v = chars_of(name);
    let mut out = String::new();
    let mut i: usize = 0;
    while i < v.len()
        invariant
            i <= v.len(),
            v@ == name@,
            out@ == sanitized(v@.take(i as int)),
        decreases v.len() - i,
    {
        let c = v[i];
        let plain = ('a' <= c && c <= 'z') || ('A' <= c && c <= 'Z') || ('0' <= c && c <= '9') || c == '_' || c == '-'
            || c == '.';
        if plain {
            out.push(c);
        } else {
            out.push('_');
        }
        assert(out@ =~= sanitized(v@.take(i + 1)));
        i += 1;
    }
    assert(v@.take(i as int) =~= name@);
    out
}

/// A name that is safe already stays as it is, and a sanitized name is safe.
pub proof fn law_sanitizing_twice_changes_nothing(name: Seq<char>)
    ensures
        sanitized(sanitized(name)) == sanitized(name),
        sanitized(name).len() == name.len(),
        forall|i: int| 0 <= i < name.len() ==> is_plain_char(#[trigger] sanitized(name)[i]),
        (forall|i: int| 0 <= i < name.len() ==> is_plain_char(#[trigger] name[i])) ==> sanitized(name) == name,
{
    assert(sanitized(sanitized(name)) =~= sanitized(name));
    if forall|i: int| 0 <= i < name.len() ==> is_plain_char(#[trigger] name[i]) {
        assert(sanitized(name) =~= name);
    }
}

/// Where the function map of a binary lies; nothing for a path without a file name.
pub open spec fn map_path_of(function_maps_dir: Seq<char>, binary: Seq<char>) -> Option<Seq<char>> {
    match crate::paths::file_name_of(binary) {
        Some(name) => Some(crate::paths::joined_path(function_maps_dir, sanitized(name) + ".json"@)),
        None => None,
    }
}

/// Where the function map of a binary lies. A path without a file name has none, rather than a
/// name that every such binary would share.
pub fn map_path(function_maps_dir: &str, binary: &str) -> (r: Option<String>)
    ensures
        match r {
            Some(p) => map_path_of(function_maps_dir@, binary@) == Some(p@),
            None => map_path_of(function_maps_dir@, binary@) is None,
        },
{
    match file_name(binary) {
        Some(name) => Some(
            join_path(function_maps_dir, sanitize(name.as_str()).concat(".json").as_str()),
        ),
        None => None,
    }
}

/// The directory of a test under `base`: one level for the binary and one for the test, so that
/// `foo` and `a::b` do not meet `foo::a` and `b`.
pub open spec fn test_dir_of(base: Seq<char>, binary_id: Seq<char>, test_name: Seq<char>) -> Seq<char> {
    crate::paths::joined_path(crate::paths::joined_path(base, sanitized(binary_id)), sanitized(test_name))
}

/// The directory of a test under `base`.
pub fn test_dir(base: &str, binary_id: &str, test_name: &str) -> (r: String)
    ensures
        r@ == test_dir_of(base@, binary_id@, test_name@),
{
    join_path(join_path(base, sanitize(binary_id).as_str()).as_str(), sanitize(test_name).as_str())
}

/// Where the result of a test is recorded: the directory, the file, and the file that is written
/// first and then renamed, so that a reader never sees half of it.
pub struct ResultPaths {
    pub dir: String,
    pub file: String,
    pub scratch: String,
}

/// Where the result of a test is recorded.
pub open spec fn result_file_of(results_dir: Seq<char>, binary_id: Seq<char>, test_name: Seq<char>) -> Seq<char> {
    crate::paths::joined_path(
        crate::paths::joined_path(results_dir, sanitized(binary_id)),
        sanitized(test_name) + ".json"@,
    )
}

/// Where the result of a test is recorded.
pub fn result_paths(results_dir: &str, binary_id: &str, test_name: &str) -> (r: ResultPaths)
    ensures
        r.dir@ == crate::paths::joined_path(results_dir@, sanitized(binary_id@)),
        r.file@ == result_file_of(results_dir@, binary_id@, test_name@),
        r.scratch@ == result_file_of(results_dir@, binary_id@, test_name@) + ".tmp"@,
{
    let dir = join_path(results_dir, sanitize(binary_id).as_str());
    let file = join_path(dir.as_str(), sanitize(test_name).concat(".json").as_str());
    let scratch = file.clone().concat(".tmp");
    ResultPaths { dir, file, scratch }
}

/// What became of the profile of one test.
#[derive(Debug, PartialEq, Eq)]
pub enum TestOutcome {
    Collected { ranges: OrdSet<HitRange> },
    /// The test gains no coverage this time and is selected again by the next incremental
    /// collection.
    Skipped { reason: String },
}

/// The value of a [`TestOutcome`].
#[verifier::ext_equal]
pub enum TestOutcomeView {
    Collected { ranges: Set<HitRangeView> },
    Skipped { reason: Seq<char> },
}

impl View for TestOutcome {
    type V = TestOutcomeView;

    open spec fn view(&self) -> TestOutcomeView {
        match self {
            TestOutcome::Collected { ranges } => TestOutcomeView::Collected { ranges: ranges@ },
            TestOutcome::Skipped { reason } => TestOutcomeView::Skipped { reason: reason@ },
        }
    }
}

impl DeepView for TestOutcome {
    type V = TestOutcomeView;

    open spec fn deep_view(&self) -> TestOutcomeView {
        self@
    }
}

/// The result of one test, as the runner records it.
#[derive(Debug, PartialEq, Eq)]
pub struct TestResult {
    pub binary_id: String,
    pub test_name: String,
    pub outcome: TestOutcome,
}

impl DeepView for TestResult {
    type V = ((Seq<char>, Seq<char>), TestOutcomeView);

    open spec fn deep_view(&self) -> ((Seq<char>, Seq<char>), TestOutcomeView) {
        ((self.binary_id@, self.test_name@), self.outcome@)
    }
}

/// Why a function map does not apply; nothing where it does.
pub open spec fn stamp_problem(map: BinaryStamp, current: BinaryStamp, binary: Seq<char>) -> Option<Seq<char>> {
    if map == current {
        None
    } else {
        Some(
            binary
                + " was rebuilt after its function map was exported; the map describes a different build and its line numbers no longer apply"@,
        )
    }
}

/// Checks that a function map describes the binary at hand. The file name cannot tell: a rebuilt
/// binary keeps its name while its lines may have moved. A map of another build is refused, since
/// it would file coverage under stale lines.
pub fn load_function_map<'a>(map: &'a BinaryFunctionMap, current: BinaryStamp, binary: &str) -> (r: Result<
    &'a BinaryFunctionMap,
    String,
>)
    ensures
        match r {
            Ok(m) => stamp_problem(map.binary, current, binary@) is None && m == map,
            Err(e) => stamp_problem(map.binary, current, binary@) == Some(e@),
        },
{
    if map.binary == current {
        Ok(map)
    } else {
        Err(
            binary.to_owned().concat(
                " was rebuilt after its function map was exported; the map describes a different build and its line numbers no longer apply",
            ),
        )
    }
}

/// What to do next for the coverage of a test.
#[derive(Debug, PartialEq, Eq)]
pub enum ExtractStep {
    /// Load the function map of the binary.
    LoadMap,
    /// Merge the profiles into their text form.
    Merge,
    /// Read the merged profile.
    ReadProfile,
    Done(TestOutcome),
}

/// The value of an [`ExtractStep`].
#[verifier::ext_equal]
pub enum ExtractStepView {
    LoadMap,
    Merge,
    ReadProfile,
    Done(TestOutcomeView),
}

impl View for ExtractStep {
    type V = ExtractStepView;

    open spec fn view(&self) -> ExtractStepView {
        match self {
            ExtractStep::LoadMap => ExtractStepView::LoadMap,
            ExtractStep::Merge => ExtractStepView::Merge,
            ExtractStep::ReadProfile => ExtractStepView::ReadProfile,
            ExtractStep::Done(o) => ExtractStepView::Done(o@),
        }
    }
}

/// A step that ends without coverage.
pub open spec fn skipped_with(reason: Seq<char>) -> ExtractStepView {
    ExtractStepView::Done(TestOutcomeView::Skipped { reason })
}

/// What the merged profile of a test and the function map of its binary come to.
pub open spec fn joined_outcome(
    proftext: Seq<char>,
    functions: Map<Seq<char>, Seq<HitRangeView>>,
    binary: Seq<char>,
) -> TestOutcomeView {
    match crate::coverage::executed_in(proftext) {
        Err(e) => TestOutcomeView::Skipped { reason: "parse error: "@ + crate::coverage::profile_message(e) },
        Ok(executed) => {
            let ranges = crate::function_map::ranges_hit(executed, functions);
            if ranges == Set::<HitRangeView>::empty() {
                TestOutcomeView::Skipped {
                    reason: "joining against "@ + binary + ": "@ + crate::function_map::nothing_hit_message(
                        executed.len(),
                        functions.dom().len(),
                    ),
                }
            } else {
                TestOutcomeView::Collected { ranges }
            }
        },
    }
}

/// Joins the merged profile of a test against the function map of its binary.
pub fn join_profile(proftext: &str, map: &BinaryFunctionMap, binary: &str) -> (r: TestOutcome)
    ensures
        r@ == joined_outcome(proftext@, map.functions@, binary@),
{
    match executed_functions(proftext) {
        Err(e) => TestOutcome::Skipped { reason: String::from_str("parse error: ").concat(e.message().as_str()) },
        Ok(executed) => {
            assert(executed.deep_view().len() == executed.len());
            match hit_ranges(&executed, &map.functions) {
                Ok(ranges) => TestOutcome::Collected { ranges },
                Err(e) => TestOutcome::Skipped {
                    reason: String::from_str("joining against ").concat(binary).concat(": ").concat(
                        e.message().as_str(),
                    ),
                },
            }
        },
    }
}

/// The arguments of `llvm-profdata` that merge profiles into their text form.
pub open spec fn merge_args_of(profraws: Seq<Seq<char>>, out: Seq<char>) -> Seq<Seq<char>> {
    seq!["merge"@, "--sparse"@, "--text"@] + profraws + seq!["-o"@, out]
}

/// The arguments of `llvm-profdata` that merge the profiles of a test into their text form at
/// `out`. Records without a hit are left out.
pub fn merge_args(profraws: &Vec<String>, out: &str) -> (r: Vec<String>)
    ensures
        r.deep_view() == merge_args_of(profraws.deep_view(), out@),
{
    let ghost d = profraws.deep_view();
    let ghost head = seq!["merge"@, "--sparse"@, "--text"@];
    let mut r: Vec<String> = Vec::new();
    r.push(String::from_str("merge"));
    r.push(String::from_str("--sparse"));
    r.push(String::from_str("--text"));
    assert(r.deep_view() =~= head + d.take(0));
    let mut i: usize = 0;
    while i < profraws.len()
        invariant
            i <= profraws.len(),
            d == profraws.deep_view(),
            r.deep_view() == head + d.take(i as int),
        decreases profraws.len() - i,
    {
        let ghost before = r.deep_view();
        assert(d[i as int] == profraws@[i as int]@);
        r.push(profraws[i].clone());
        assert(r.deep_view() =~= before.push(d[i as int]));
        assert(d.take(i + 1) =~= d.take(i as int).push(d[i as int]));
        assert(head + d.take(i + 1) =~= (head + d.take(i as int)).push(d[i as int]));
        i += 1;
    }
    let ghost before = r.deep_view();
    r.push(String::from_str("-o"));
    r.push(out.to_owned());
    assert(d.take(i as int) =~= d);
    assert(r.deep_view() =~= before + seq!["-o"@, out@]);
    r
}

/// What is known so far about the profile of a test: each answer, or why there is none.
#[derive(Debug, PartialEq, Eq)]
pub struct Evidence {
    /// The profiles that the test left behind.
    pub profraws: Result<Vec<String>, String>,
    /// The function map as it was exported, and what the binary is stamped with now.
    pub map: Option<Result<(BinaryFunctionMap, BinaryStamp), String>>,
    /// What merging the profiles left behind.
    pub merge: Option<Result<ProcessOutput, String>>,
    /// The merged profile.
    pub proftext: Option<Result<String, String>>,
}

/// The next step for the coverage of a test.
pub open spec fn extract_step(e: Evidence, binary: Seq<char>) -> ExtractStepView {
    match e.profraws {
        Err(m) => skipped_with("listing profraw files: "@ + m@),
        Ok(files) => if files.len() == 0 {
            skipped_with("no profraw generated"@)
        } else {
            match e.map {
                None => ExtractStepView::LoadMap,
                Some(Err(m)) => skipped_with(m@),
                Some(Ok((map, current))) => match stamp_problem(map.binary, current, binary) {
                    Some(m) => skipped_with(m),
                    None => join_step(e, map, binary),
                },
            }
        },
    }
}

/// The next step once the function map is known to be that of the binary.
pub open spec fn join_step(e: Evidence, map: BinaryFunctionMap, binary: Seq<char>) -> ExtractStepView {
    match e.merge {
        None => ExtractStepView::Merge,
        Some(Err(m)) => skipped_with("llvm-profdata merge failed to run: "@ + m@),
        Some(Ok(out)) => if !out@.succeeded() {
            skipped_with("llvm-profdata merge failed: "@ + crate::text::trimmed(crate::diff::readable_text(out@.stderr)))
        } else {
            match e.proftext {
                None => ExtractStepView::ReadProfile,
                Some(Err(m)) => skipped_with("reading merged profile: "@ + m@),
                Some(Ok(text)) => ExtractStepView::Done(joined_outcome(text@, map.functions@, binary)),
            }
        },
    }
}

/// An end without coverage.
fn skip_with(reason: String) -> (r: ExtractStep)
    ensures
        r@ == skipped_with(reason@),
{
    ExtractStep::Done(TestOutcome::Skipped { reason })
}

/// The next step for the coverage of a test, from what is known so far. Every failure on the way
/// ends in a skipped test with its reason.
pub fn extract(e: &Evidence, binary: &str) -> (r: ExtractStep)
    ensures
        r@ == extract_step(*e, binary@),
{
    match &e.profraws {
        Err(m) => {
            return skip_with(String::from_str("listing profraw files: ").concat(m.as_str()));
        },
        Ok(files) => {
            if files.len() == 0 {
                return skip_with(String::from_str("no profraw generated"));
            }
        },
    }
    let map = match &e.map {
        None => {
            return ExtractStep::LoadMap;
        },
        Some(Err(m)) => {
            return skip_with(m.clone());
        },
        Some(Ok((map, current))) => match load_function_map(map, *current, binary) {
            Ok(map) => map,
            Err(m) => {
                return skip_with(m);
            },
        },
    };
    match &e.merge {
        None => {
            return ExtractStep::Merge;
        },
        Some(Err(m)) => {
            return skip_with(String::from_str("llvm-profdata merge failed to run: ").concat(m.as_str()));
        },
        Some(Ok(out)) => {
            if !out.success() {
                return skip_with(
                    String::from_str("llvm-profdata merge failed: ").concat(
                        trim_text(lossy_text(out.stderr.as_slice()).as_str()).as_str(),
                    ),
                );
            }
        },
    }
    match &e.proftext {
        None => ExtractStep::ReadProfile,
        Some(Err(m)) => skip_with(String::from_str("reading merged profile: ").concat(m.as_str())),
        Some(Ok(text)) => ExtractStep::Done(join_profile(text.as_str(), map, binary)),
    }
}

/// With every answer at hand the coverage of a test is settled. A test is collected only when it
/// left profiles behind, the function map is that of the binary as it is now, each step went well
/// and some executed function is in the map; its ranges are then those of the executed functions.
pub proof fn law_extraction_settles(e: Evidence, binary: Seq<char>)
    requires
        e.map is Some,
        e.merge is Some,
        e.proftext is Some,
    ensures
        extract_step(e, binary) is Done,
        extract_step(e, binary) matches ExtractStepView::Done(TestOutcomeView::Collected { ranges }) ==> {
            &&& e.profraws is Ok && e.profraws->Ok_0.len() > 0
            &&& e.map->0 is Ok && e.map->0->Ok_0.0.binary == e.map->0->Ok_0.1
            &&& e.merge->0 is Ok && e.merge->0->Ok_0@.succeeded()
            &&& e.proftext->0 is Ok
            &&& crate::coverage::executed_in(e.proftext->0->Ok_0@) is Ok
            &&& ranges == crate::function_map::ranges_hit(
                crate::coverage::executed_in(e.proftext->0->Ok_0@)->Ok_0,
                e.map->0->Ok_0.0.functions@,
            )
            &&& ranges != Set::<HitRangeView>::empty()
        },
{
}

} // verus!

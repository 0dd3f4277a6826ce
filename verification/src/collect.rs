//! What a collection decides: which binaries and tests it covers, what it makes of the results,
//! and what it records.

use vstd::prelude::*;
use crate::coverage::{HitRange, HitRangeView};
use crate::coverage::{ExportError, ExportErrorView};
use crate::db::{Db, DbError, DbView, TestId, TestIdView, FINGERPRINT_KEEP};
use crate::diff::lossy_text;
use crate::fingerprint::FingerprintComponent;
use crate::function_map::{build_function_map, FunctionMap};
use crate::git::{code_text, GitError, GitErrorView};
use crate::listing::{BinaryEntry, Listing, ListingView};
use crate::nextest::nextest_filter_expr;
use crate::ordered::{Key, OrdMap, OrdSet};
use crate::paths::join_path;
use crate::process::ProcessOutput;
use crate::selection::{format_summary, missing_shas_notice, select_with_reach, DiagnosticDetail};
use crate::selection::{RangesView, Reachability, Selection};
use crate::shim::{TestOutcome, TestOutcomeView, TestResult};
use crate::sorting::sort_values;
use crate::text::{count_text, join_texts, number_text, starts_with, trim_text, wide_number_text};

verus! {

/// Why a collection fails.
#[derive(Debug, PartialEq, Eq)]
pub enum CollectError {
    /// The working tree differs from `HEAD`.
    Dirty,
    /// An incremental collection needs coverage for the environment, and there is none.
    NoPriorCoverage,
    /// No commit that the coverage is anchored at is in the repository.
    NoReachableSha,
    Git(GitError),
    /// Nextest failed and no test left a result.
    RunFailed { code: i32, results_dir: String },
    /// Nextest succeeded, and tests that it ran left no result.
    ShimSilent { live: usize, selected: usize, results_dir: String },
    /// Results name binaries that the workspace does not have.
    UnknownBinaries(Vec<String>),
    /// No test yielded coverage.
    NothingExtracted { skipped: usize },
    /// The empty profile could not be made; what the tool printed.
    EmptyProfile(String),
    /// The coverage map of a binary could not be exported; what the tool printed.
    ExportFailed { binary_id: String, output: String },
    /// The coverage map of a binary could not be read.
    BadExport { binary_id: String, error: ExportError },
    /// A binary has no instrumented function of the project.
    EmptyMap { binary_id: String, root: String },
    /// Two inputs of the fingerprint carry one label.
    DuplicateComponent,
}

/// The value of a [`CollectError`].
#[verifier::ext_equal]
pub enum CollectErrorView {
    Dirty,
    NoPriorCoverage,
    NoReachableSha,
    Git(GitErrorView),
    RunFailed { code: i32, results_dir: Seq<char> },
    ShimSilent { live: nat, selected: nat, results_dir: Seq<char> },
    UnknownBinaries(Seq<Seq<char>>),
    NothingExtracted { skipped: nat },
    EmptyProfile(Seq<char>),
    ExportFailed { binary_id: Seq<char>, output: Seq<char> },
    BadExport { binary_id: Seq<char>, error: ExportErrorView },
    EmptyMap { binary_id: Seq<char>, root: Seq<char> },
    DuplicateComponent,
}

impl View for CollectError {
    type V = CollectErrorView;

    open spec fn view(&self) -> CollectErrorView {
        match self {
            CollectError::Dirty => CollectErrorView::Dirty,
            CollectError::NoPriorCoverage => CollectErrorView::NoPriorCoverage,
            CollectError::NoReachableSha => CollectErrorView::NoReachableSha,
            CollectError::Git(e) => CollectErrorView::Git(e@),
            CollectError::RunFailed { code, results_dir } => CollectErrorView::RunFailed {
                code: *code,
                results_dir: results_dir@,
            },
            CollectError::ShimSilent { live, selected, results_dir } => CollectErrorView::ShimSilent {
                live: *live as nat,
                selected: *selected as nat,
                results_dir: results_dir@,
            },
            CollectError::UnknownBinaries(b) => CollectErrorView::UnknownBinaries(b.deep_view()),
            CollectError::NothingExtracted { skipped } => CollectErrorView::NothingExtracted {
                skipped: *skipped as nat,
            },
            CollectError::EmptyProfile(t) => CollectErrorView::EmptyProfile(t@),
            CollectError::ExportFailed { binary_id, output } => CollectErrorView::ExportFailed {
                binary_id: binary_id@,
                output: output@,
            },
            CollectError::BadExport { binary_id, error } => CollectErrorView::BadExport {
                binary_id: binary_id@,
                error: error@,
            },
            CollectError::EmptyMap { binary_id, root } => CollectErrorView::EmptyMap {
                binary_id: binary_id@,
                root: root@,
            },
            CollectError::DuplicateComponent => CollectErrorView::DuplicateComponent,
        }
    }
}

/// The plural ending for a count.
pub open spec fn plural(n: nat) -> Seq<char> {
    if n == 1 {
        ""@
    } else {
        "s"@
    }
}

/// The plural ending for a count.
fn plural_of(n: usize) -> (r: &'static str)
    ensures
        r@ == plural(n as nat),
{
    if n == 1 {
        ""
    } else {
        "s"
    }
}

/// What is said of a failed collection.
pub open spec fn collect_message(e: CollectErrorView) -> Seq<char> {
    match e {
        CollectErrorView::Dirty =>
            "working tree has uncommitted changes; commit or stash them before `cargo affected collect`, or pass --allow-dirty for a throwaway run (selection will be unreliable)"@,
        CollectErrorView::NoPriorCoverage =>
            "--diff requires a prior `cargo affected collect` for the current environment (Cargo.lock / rustc / build flags); no stored coverage matches"@,
        CollectErrorView::NoReachableSha =>
            "no reachable collect_sha for the current environment (every stored sha is rebased away or otherwise unreachable from HEAD); run `cargo affected collect` to re-anchor"@,
        CollectErrorView::Git(e) => crate::git::git_message(e),
        CollectErrorView::RunFailed { code, results_dir } => "nextest exited with code "@ + crate::git::code_name(
            Some(code),
        )
            + " and produced no coverage results under "@ + results_dir
            + " — build or test failure (see nextest output above)"@,
        CollectErrorView::ShimSilent { live, selected, results_dir } => "nextest exited 0 but "@
            + crate::text::decimal(live) + " of "@ + crate::text::decimal(selected)
            + " selected tests should have been instrumented — no coverage results appeared under "@ + results_dir
            + "; the runner shim may have failed to fire"@,
        CollectErrorView::UnknownBinaries(b) =>
            "coverage results reference binary_ids absent from the workspace (metadata/listing divergence): "@
            + crate::text::joined(b, ", "@),
        CollectErrorView::NothingExtracted { skipped } =>
            "nextest ran but coverage extraction yielded no ranges for any of the "@ + crate::text::decimal(skipped)
            + " completed test"@ + plural(skipped)
            + " (see the skip reasons above) — refusing to overwrite stored coverage"@,
        CollectErrorView::EmptyProfile(output) => "llvm-profdata merge failed to build an empty profile: "@ + output,
        CollectErrorView::ExportFailed { binary_id, output } => "llvm-cov export failed for "@ + binary_id + ": "@
            + output,
        CollectErrorView::BadExport { binary_id, error } => "failed to read the coverage map of "@ + binary_id + ": "@
            + crate::coverage::export_message(error),
        CollectErrorView::EmptyMap { binary_id, root } => binary_id + " has no instrumented functions under "@ + root
            + " — every test in it would collect nothing. Check that the project root is a prefix of the paths the compiler recorded (a --remap-path-prefix in RUSTFLAGS is the usual cause)."@,
        CollectErrorView::DuplicateComponent =>
            "UNIQUE constraint failed: fingerprint_components.env_fingerprint, fingerprint_components.label"@,
    }
}

impl CollectError {
    /// The message for the user.
    pub fn message(&self) -> (r: String)
        ensures
            r@ == collect_message(self@),
    {
        match self {
            CollectError::Dirty => String::from_str(
                "working tree has uncommitted changes; commit or stash them before `cargo affected collect`, or pass --allow-dirty for a throwaway run (selection will be unreliable)",
            ),
            CollectError::NoPriorCoverage => String::from_str(
                "--diff requires a prior `cargo affected collect` for the current environment (Cargo.lock / rustc / build flags); no stored coverage matches",
            ),
            CollectError::NoReachableSha => String::from_str(
                "no reachable collect_sha for the current environment (every stored sha is rebased away or otherwise unreachable from HEAD); run `cargo affected collect` to re-anchor",
            ),
            CollectError::Git(e) => e.message(),
            CollectError::RunFailed { code, results_dir } => String::from_str("nextest exited with code ").concat(
                code_text(Some(*code)).as_str(),
            ).concat(" and produced no coverage results under ").concat(results_dir.as_str()).concat(
                " — build or test failure (see nextest output above)",
            ),
            CollectError::ShimSilent { live, selected, results_dir } => String::from_str(
                "nextest exited 0 but ",
            ).concat(count_text(*live).as_str()).concat(" of ").concat(count_text(*selected).as_str()).concat(
                " selected tests should have been instrumented — no coverage results appeared under ",
            ).concat(results_dir.as_str()).concat("; the runner shim may have failed to fire"),
            CollectError::UnknownBinaries(b) => String::from_str(
                "coverage results reference binary_ids absent from the workspace (metadata/listing divergence): ",
            ).concat(join_texts(b, ", ").as_str()),
            CollectError::NothingExtracted { skipped } => String::from_str(
                "nextest ran but coverage extraction yielded no ranges for any of the ",
            ).concat(count_text(*skipped).as_str()).concat(" completed test").concat(plural_of(*skipped)).concat(
                " (see the skip reasons above) — refusing to overwrite stored coverage",
            ),
            CollectError::EmptyProfile(output) => String::from_str(
                "llvm-profdata merge failed to build an empty profile: ",
            ).concat(output.as_str()),
            CollectError::ExportFailed { binary_id, output } => String::from_str("llvm-cov export failed for ").concat(
                binary_id.as_str(),
            ).concat(": ").concat(output.as_str()),
            CollectError::BadExport { binary_id, error } => String::from_str(
                "failed to read the coverage map of ",
            ).concat(binary_id.as_str()).concat(": ").concat(error.message().as_str()),
            CollectError::EmptyMap { binary_id, root } => binary_id.clone().concat(
                " has no instrumented functions under ",
            ).concat(root.as_str()).concat(
                " — every test in it would collect nothing. Check that the project root is a prefix of the paths the compiler recorded (a --remap-path-prefix in RUSTFLAGS is the usual cause).",
            ),
            CollectError::DuplicateComponent => String::from_str(
                "UNIQUE constraint failed: fingerprint_components.env_fingerprint, fingerprint_components.label",
            ),
        }
    }
}

/// Whether a collection may go on. Ranges are filed under `HEAD`, so a working tree that differs
/// is refused unless the user insists; then there is a warning.
pub fn check_working_tree(dirty: bool, allow_dirty: bool) -> (r: Result<Option<&'static str>, CollectError>)
    ensures
        match r {
            Ok(None) => !dirty,
            Ok(Some(warning)) => dirty && allow_dirty && warning@
                == "warning: collecting on a dirty working tree (--allow-dirty); stored ranges may not align with future `affected run` queries"@,
            Err(e) => dirty && !allow_dirty && e@ == CollectErrorView::Dirty,
        },
{
    if !dirty {
        Ok(None)
    } else if allow_dirty {
        Ok(
            Some(
                "warning: collecting on a dirty working tree (--allow-dirty); stored ranges may not align with future `affected run` queries",
            ),
        )
    } else {
        Err(CollectError::Dirty)
    }
}

/// The compiler flags of an instrumented build: those of the user and the instrumentation.
pub open spec fn instrumented(rustflags: Seq<char>) -> Seq<char> {
    if rustflags.len() == 0 {
        "-C instrument-coverage"@
    } else {
        rustflags + " -C instrument-coverage"@
    }
}

/// The compiler flags of an instrumented build.
pub fn instrumented_rustflags(rustflags: &str) -> (r: String)
    ensures
        r@ == instrumented(rustflags@),
{
    if rustflags.is_empty() {
        String::from_str("-C instrument-coverage")
    } else {
        rustflags.to_owned().concat(" -C instrument-coverage")
    }
}

/// The sentinel ranges of the files of a binary.
pub open spec fn sentinels(files: Set<Seq<char>>) -> Set<HitRangeView> {
    Set::new(|r: HitRangeView| files.contains(r.file) && r == crate::coverage::sentinel_range(r.file))
}

/// The sentinel ranges of the files of each binary.
pub open spec fn sentinels_by_binary(files: Map<Seq<char>, Set<Seq<char>>>) -> Map<Seq<char>, Set<HitRangeView>> {
    Map::new(|id: Seq<char>| files.contains_key(id), |id: Seq<char>| sentinels(files[id]))
}

/// The sentinel ranges of files.
fn sentinel_set(files: &OrdSet<String>) -> (r: OrdSet<HitRange>)
    ensures
        r@ == sentinels(files@),
{
    let items = files.items();
    let ghost e = files.elems();
    let mut out: OrdSet<HitRange> = OrdSet::new();
    let mut i: usize = 0;
    assert(e.take(0).to_set() =~= Set::<Seq<char>>::empty());
    assert(out@ =~= sentinels(e.take(0).to_set()));
    while i < items.len()
        invariant
            i <= items.len(),
            e == items.deep_view(),
            out@ == sentinels(e.take(i as int).to_set()),
        decreases items.len() - i,
    {
        assert(e[i as int] == items@[i as int]@);
        out.insert(HitRange::sentinel(items[i].clone()));
        proof {
            assert(e.take(i + 1) =~= e.take(i as int).push(e[i as int]));
            e.take(i as int).lemma_push_to_set_commute(e[i as int]);
            assert(out@ =~= sentinels(e.take(i + 1).to_set()));
        }
        i += 1;
    }
    assert(e.take(i as int) =~= e);
    out
}

/// The sentinel ranges of the crate roots of each binary.
#[verifier::spinoff_prover]
pub fn sentinel_ranges(files: &OrdMap<String, OrdSet<String>>) -> (r: OrdMap<String, OrdSet<HitRange>>)
    ensures
        r@ == sentinels_by_binary(files@),
{
    let entries = files.entries();
    let ghost keys = files.keys();
    let ghost m = files@;
    let mut out: OrdMap<String, OrdSet<HitRange>> = OrdMap::new();
    let mut i: usize = 0;
    assert(keys.take(0).to_set() =~= Set::<Seq<char>>::empty());
    while i < entries.len()
        invariant
            i <= entries.len(),
            entries.len() == keys.len(),
            m == files@,
            forall|j: int| 0 <= j < entries.len() ==> {
                &&& (#[trigger] entries@[j]).0@ == keys[j]
                &&& m.contains_key(keys[j])
                &&& m[keys[j]] == entries@[j].1@
            },
            forall|id: Seq<char>| #[trigger] out@.contains_key(id) <==> keys.take(i as int).to_set().contains(id),
            forall|id: Seq<char>| #[trigger] out@.contains_key(id) ==> out@[id] == sentinels(m[id]),
        decreases entries.len() - i,
    {
        proof {
            assert(entries@[i as int].0@ == keys[i as int]);
            assert(keys.take(i + 1) =~= keys.take(i as int).push(keys[i as int]));
            keys.take(i as int).lemma_push_to_set_commute(keys[i as int]);
        }
        let set = sentinel_set(&entries[i].1);
        out.insert(entries[i].0.clone(), set);
        i += 1;
    }
    proof {
        assert(keys.take(i as int) =~= keys);
        assert(m.dom() == keys.to_set());
        assert(out@ =~= sentinels_by_binary(m));
    }
    out
}

/// What an incremental collection reruns.
#[derive(Debug, PartialEq, Eq)]
pub struct DiffPlan {
    /// The tests to rerun. Some may be gone from the listing: their rows still overlap what
    /// changed, but nextest finds nothing to run for them.
    pub selected: OrdSet<TestId>,
    /// Every listed test.
    pub listed: OrdSet<TestId>,
}

impl DiffPlan {
    /// The filterset that matches the tests to rerun.
    pub fn filter_expr(&self) -> (r: String)
        ensures
            r@ == crate::nextest::filter_expr_of(crate::ordered::in_order::<TestId>(self.selected@)),
    {
        let items = self.selected.items();
        proof {
            crate::ordered::lemma_in_order::<TestId>(self.selected.elems());
        }
        nextest_filter_expr(items)
    }

    /// How many of the tests to rerun nextest can run.
    pub fn live_selected_count(&self) -> (r: usize)
        ensures
            r == self.selected@.intersect(self.listed@).len(),
    {
        let items = self.selected.items();
        let ghost e = self.selected.elems();
        let mut live: OrdSet<TestId> = OrdSet::new();
        let mut i: usize = 0;
        assert(e.take(0).to_set() =~= Set::<TestIdView>::empty());
        assert(live@ =~= e.take(0).to_set().intersect(self.listed@));
        while i < items.len()
            invariant
                i <= items.len(),
                e == items.deep_view(),
                live@ == e.take(i as int).to_set().intersect(self.listed@),
            decreases items.len() - i,
        {
            assert(e[i as int] == items@[i as int]@);
            if self.listed.contains(&items[i]) {
                live.insert(items[i].duplicate());
            }
            proof {
                assert(e.take(i + 1) =~= e.take(i as int).push(e[i as int]));
                e.take(i as int).lemma_push_to_set_commute(e[i as int]);
                assert(live@ =~= e.take(i + 1).to_set().intersect(self.listed@));
            }
            i += 1;
        }
        assert(e.take(i as int) =~= e);
        live.len()
    }
}

/// Whether a collection runs a test of a binary: any listed one, or for an incremental collection
/// one that is to rerun and still listed.
pub open spec fn runs_tests_of(tests: Set<TestIdView>, plan: Option<&DiffPlan>, binary_id: Seq<char>) -> bool {
    match plan {
        Some(p) => exists|t: TestIdView| #[trigger]
            p.selected@.contains(t) && p.listed@.contains(t) && t.0 == binary_id,
        None => exists|t: TestIdView| #[trigger] tests.contains(t) && t.0 == binary_id,
    }
}

/// The binaries whose tests a collection runs.
pub open spec fn run_binaries(listing: ListingView, plan: Option<&DiffPlan>) -> Seq<(Seq<char>, Seq<char>)> {
    listing.binaries.filter(|b: (Seq<char>, Seq<char>)| runs_tests_of(listing.tests, plan, b.0))
}

/// The binaries of tests; only those of tests that are also in `among`, if given.
fn binary_ids(tests: &OrdSet<TestId>, among: Option<&OrdSet<TestId>>) -> (r: OrdSet<String>)
    ensures
        forall|id: Seq<char>| #[trigger]
            r@.contains(id) <==> exists|t: TestIdView| #[trigger]
                tests@.contains(t) && (match among {
                    Some(a) => a@.contains(t),
                    None => true,
                }) && t.0 == id,
{
    let items = tests.items();
    let ghost e = tests.elems();
    let mut out: OrdSet<String> = OrdSet::new();
    let mut i: usize = 0;
    while i < items.len()
        invariant
            i <= items.len(),
            e == items.deep_view(),
            forall|id: Seq<char>| #[trigger]
                out@.contains(id) <==> exists|j: int|
                    0 <= j < i && (match among {
                        Some(a) => a@.contains(e[j]),
                        None => true,
                    }) && (#[trigger] e[j]).0 == id,
        decreases items.len() - i,
    {
        let ghost o = out@;
        assert(e[i as int] == items@[i as int]@);
        let counts = match among {
            Some(a) => a.contains(&items[i]),
            None => true,
        };
        if counts {
            out.insert(items[i].binary_id.clone());
        }
        proof {
            assert forall|id: Seq<char>| #[trigger] out@.contains(id) <==> exists|j: int|
                0 <= j < i + 1 && (match among {
                    Some(a) => a@.contains(e[j]),
                    None => true,
                }) && (#[trigger] e[j]).0 == id by {
                if o.contains(id) {
                    let j = choose|j: int|
                        0 <= j < i && (match among {
                            Some(a) => a@.contains(e[j]),
                            None => true,
                        }) && (#[trigger] e[j]).0 == id;
                    assert(e[j].0 == id);
                }
                if counts && e[i as int].0 == id {
                    assert(out@.contains(id));
                }
                if exists|j: int|
                    0 <= j < i + 1 && (match among {
                        Some(a) => a@.contains(e[j]),
                        None => true,
                    }) && (#[trigger] e[j]).0 == id {
                    let j = choose|j: int|
                        0 <= j < i + 1 && (match among {
                            Some(a) => a@.contains(e[j]),
                            None => true,
                        }) && (#[trigger] e[j]).0 == id;
                    if j < i {
                        assert(o.contains(id));
                    }
                }
            }
        }
        i += 1;
    }
    proof {
        assert forall|id: Seq<char>| #[trigger] out@.contains(id) <==> exists|t: TestIdView| #[trigger]
            tests@.contains(t) && (match among {
                Some(a) => a@.contains(t),
                None => true,
            }) && t.0 == id by {
            if out@.contains(id) {
                let j = choose|j: int|
                    0 <= j < i && (match among {
                        Some(a) => a@.contains(e[j]),
                        None => true,
                    }) && (#[trigger] e[j]).0 == id;
                assert(tests@.contains(e[j]));
            }
            if exists|t: TestIdView| #[trigger]
                tests@.contains(t) && (match among {
                    Some(a) => a@.contains(t),
                    None => true,
                }) && t.0 == id {
                let t = choose|t: TestIdView| #[trigger]
                    tests@.contains(t) && (match among {
                        Some(a) => a@.contains(t),
                        None => true,
                    }) && t.0 == id;
                let j = choose|j: int| 0 <= j < e.len() && e[j] == t;
                assert(e[j].0 == id);
            }
        }
    }
    out
}

/// The binaries whose tests a collection runs, and whose coverage maps it needs.
///
/// A binary without tests is left out: one that holds no instrumented code has no map. So is one
/// whose only tests to rerun are gone from the listing.
pub fn binaries_for_run<'a>(listing: &'a Listing, diff_plan: Option<&DiffPlan>) -> (r: Vec<&'a BinaryEntry>)
    ensures
        r.deep_view() == run_binaries(listing@, diff_plan),
{
    let wanted = match diff_plan {
        Some(p) => binary_ids(&p.selected, Some(&p.listed)),
        None => binary_ids(&listing.tests, None),
    };
    let ghost tests = listing@.tests;
    let ghost f = |b: (Seq<char>, Seq<char>)| runs_tests_of(tests, diff_plan, b.0);
    let ghost d = listing.binaries.deep_view();
    proof {
        assert forall|id: Seq<char>| #[trigger] wanted@.contains(id) <==> runs_tests_of(tests, diff_plan, id) by {
            match diff_plan {
                Some(p) => {
                    if runs_tests_of(tests, diff_plan, id) {
                        let t = choose|t: TestIdView| #[trigger]
                            p.selected@.contains(t) && p.listed@.contains(t) && t.0 == id;
                        assert(p.selected@.contains(t));
                    }
                },
                None => {
                    if runs_tests_of(tests, diff_plan, id) {
                        let t = choose|t: TestIdView| #[trigger] tests.contains(t) && t.0 == id;
                        assert(tests.contains(t));
                    }
                },
            }
        }
    }
    let mut out: Vec<&'a BinaryEntry> = Vec::new();
    let mut i: usize = 0;
    proof {
        reveal(Seq::filter);
        assert(out.deep_view() =~= d.take(0).filter(f));
    }
    while i < listing.binaries.len()
        invariant
            i <= listing.binaries.len(),
            d == listing.binaries.deep_view(),
            f == (|b: (Seq<char>, Seq<char>)| runs_tests_of(tests, diff_plan, b.0)),
            forall|id: Seq<char>| #[trigger] wanted@.contains(id) <==> runs_tests_of(tests, diff_plan, id),
            out.deep_view() == d.take(i as int).filter(f),
        decreases listing.binaries.len() - i,
    {
        let ghost before = out.deep_view();
        let b = &listing.binaries[i];
        assert(d[i as int] == b@);
        proof {
            assert(d.take(i + 1) =~= d.take(i as int).push(d[i as int]));
            d.take(i as int).lemma_filter_push(d[i as int], f);
        }
        if wanted.contains(&b.binary_id) {
            out.push(b);
            assert(out.deep_view() =~= before.push(d[i as int]));
        }
        i += 1;
    }
    assert(d.take(i as int) =~= d);
    out
}

/// What an incremental collection comes to.
#[derive(Debug, PartialEq, Eq)]
pub enum DiffOutcome {
    /// Some tests are to rerun; the summary says which kinds.
    Plan { plan: DiffPlan, summary: String },
    /// No test is to rerun.
    NothingToRecollect { listed: OrdSet<TestId> },
}

/// What is said before an incremental collection: which commits are missing and, if others can be
/// compared with, how far `HEAD` has moved.
pub open spec fn diff_notes(missing: Set<Seq<char>>, reachable: Set<Seq<char>>, ahead: u32) -> Seq<Seq<char>> {
    (if missing.len() > 0 {
        seq![crate::selection::missing_notice(missing, "will be rerun and re-anchored at the new HEAD"@)]
    } else {
        Seq::empty()
    }) + (if reachable.len() > 0 && ahead > 0 {
        seq![
            "note: "@ + crate::text::decimal(ahead as nat)
                + " commit(s) since prior collect — re-anchoring affected tests at the new HEAD"@,
        ]
    } else {
        Seq::empty()
    })
}

/// What is said before an incremental collection.
pub fn diff_notices(reach: &Reachability) -> (r: Vec<String>)
    ensures
        r.deep_view() == diff_notes(reach.missing@, reach.reachable@, reach.max_commits_ahead),
{
    let mut out: Vec<String> = Vec::new();
    if reach.missing.len() > 0 {
        out.push(missing_shas_notice(&reach.missing, "will be rerun and re-anchored at the new HEAD"));
    }
    let ghost first = out.deep_view();
    if reach.reachable.len() > 0 && reach.max_commits_ahead > 0 {
        out.push(
            String::from_str("note: ").concat(number_text(reach.max_commits_ahead as u64).as_str()).concat(
                " commit(s) since prior collect — re-anchoring affected tests at the new HEAD",
            ),
        );
    }
    assert(out.deep_view() =~= diff_notes(reach.missing@, reach.reachable@, reach.max_commits_ahead));
    out
}

/// Decides what an incremental collection reruns. It needs coverage for the environment, and one
/// commit in the repository that the coverage is anchored at. The tables keep their rows; only the
/// fingerprint is marked as used.
pub fn plan_diff_collect(
    db: &mut Db,
    env_fingerprint: &str,
    listing: &Listing,
    reach: &Reachability,
    hunks: &Vec<(String, ProcessOutput)>,
    now: &str,
) -> (r: Result<DiffOutcome, CollectError>)
    ensures
        diff_outcome_is(
            r,
            old(db)@,
            env_fingerprint@,
            listing@,
            reach.reachable@,
            crate::selection::ranges_per_sha(crate::selection::outputs_view(hunks@)),
        ),
        final(db)@ == (if r is Ok {
            DbView {
                fingerprints: old(db)@.fingerprints.insert(env_fingerprint@, now@),
                ..old(db)@
            }
        } else {
            old(db)@
        }),
{
    let ghost before = db@;
    let prior = db.collect_shas(env_fingerprint);
    proof {
        vstd::set_lib::lemma_set_empty_equivalency_len(prior@);
        vstd::set_lib::lemma_set_empty_equivalency_len(reach.reachable@);
    }
    if prior.is_empty() {
        return Err(CollectError::NoPriorCoverage);
    }
    if reach.reachable.is_empty() {
        return Err(CollectError::NoReachableSha);
    }
    match select_with_reach(db, env_fingerprint, listing, reach, hunks, DiagnosticDetail::Summary, now) {
        Err(e) => Err(CollectError::Git(e)),
        Ok(sel) => {
            let selected = sel.selected();
            let ghost chosen = sel;
            if selected.is_empty() {
                proof {
                    assert(recollects(chosen, Ok(DiffOutcome::NothingToRecollect { listed: chosen.listed })));
                }
                return Ok(DiffOutcome::NothingToRecollect { listed: sel.listed });
            }
            let summary = format_summary(&sel, "to recollect", false);
            let r = DiffOutcome::Plan { plan: DiffPlan { selected, listed: sel.listed }, summary };
            assert(recollects(chosen, Ok(r)));
            Ok(r)
        },
    }
}

/// Whether an outcome reruns what a selection holds.
pub open spec fn recollects(sel: Selection, r: Result<DiffOutcome, CollectError>) -> bool {
    match r {
        Ok(DiffOutcome::Plan { plan, summary }) => {
            &&& sel.selected_set() != Set::<TestIdView>::empty()
            &&& plan.selected@ == sel.selected_set()
            &&& plan.listed@ == sel.listed@
            &&& summary@ == crate::selection::summary_of(sel, "to recollect"@, false)
        },
        Ok(DiffOutcome::NothingToRecollect { listed }) => sel.selected_set() == Set::<TestIdView>::empty() && listed@
            == sel.listed@,
        Err(_) => false,
    }
}

/// Whether this is what an incremental collection comes to.
pub open spec fn diff_outcome_is(
    r: Result<DiffOutcome, CollectError>,
    db: DbView,
    fingerprint: Seq<char>,
    listing: ListingView,
    reachable: Set<Seq<char>>,
    ranges: Result<RangesView, GitErrorView>,
) -> bool {
    if crate::db::fingerprint_shas(db.regions, fingerprint) == Set::<Seq<char>>::empty() {
        r matches Err(e) && e@ == CollectErrorView::NoPriorCoverage
    } else if reachable == Set::<Seq<char>>::empty() {
        r matches Err(e) && e@ == CollectErrorView::NoReachableSha
    } else {
        match ranges {
            Err(g) => r matches Err(e) && e@ == CollectErrorView::Git(g),
            Ok(lines) => exists|sel: Selection| #[trigger]
                recollects(sel, r) && sel.is_for(
                    crate::selection::change_of(db, fingerprint, reachable, lines, listing, Map::empty()),
                    DiagnosticDetail::Summary,
                ),
        }
    }
}

/// What is said of dropped rows; nothing if none were.
pub open spec fn pruned_text(pruned: nat) -> Option<Seq<char>> {
    if pruned == 0 {
        None
    } else {
        Some(
            "pruned "@ + crate::text::decimal(pruned) + " test"@ + plural(pruned)
                + " no longer present in nextest list"@,
        )
    }
}

/// Drops the rows of tests that are gone from the listing, and says how many tests went.
pub fn prune_and_report(db: &mut Db, env_fingerprint: &str, listed: &OrdSet<TestId>) -> (r: Option<String>)
    ensures
        final(db)@ == crate::db::after_prune(old(db)@, env_fingerprint@, listed@),
        r.deep_view() == pruned_text(
            crate::db::fingerprint_tests(old(db)@.regions, env_fingerprint@).difference(listed@).len(),
        ),
{
    let pruned = db.prune_missing_tests(env_fingerprint, listed);
    if pruned == 0 {
        None
    } else {
        Some(
            String::from_str("pruned ").concat(count_text(pruned).as_str()).concat(" test").concat(
                plural_of(pruned),
            ).concat(" no longer present in nextest list"),
        )
    }
}

/// What a run without results comes to: the failure, or what is said of it.
pub open spec fn no_results(plan: Option<&DiffPlan>, nextest_exit: i32, results_dir: Seq<char>) -> Result<
    Seq<char>,
    CollectErrorView,
> {
    if nextest_exit != 0 {
        Err(CollectErrorView::RunFailed { code: nextest_exit, results_dir })
    } else {
        match plan {
            Some(p) => {
                let live = p.selected@.intersect(p.listed@).len();
                if live > 0 {
                    Err(CollectErrorView::ShimSilent { live, selected: p.selected@.len(), results_dir })
                } else {
                    Ok(
                        "no tests rerun: every selected test is absent from the current nextest listing (renamed or deleted between collects)"@,
                    )
                }
            },
            None => Ok(
                "no coverage results under "@ + results_dir
                    + " — project may have no tests, or the runner shim may have failed to fire"@,
            ),
        }
    }
}

/// Settles a run that left no result.
///
/// A failure of nextest explains itself. An incremental collection all of whose tests are gone
/// from the listing drops their rows. Tests that did run and left nothing point at the runner. A
/// full collection without results is taken for a project without tests. Returns what is said.
pub fn handle_no_results(
    db: &mut Db,
    env_fingerprint: &str,
    diff_plan: Option<&DiffPlan>,
    nextest_exit: i32,
    results_dir: &str,
) -> (r: Result<Vec<String>, CollectError>)
    ensures
        match r {
            Ok(said) => {
                &&& said.len() > 0
                &&& no_results(diff_plan, nextest_exit, results_dir@) == Ok::<Seq<char>, CollectErrorView>(said@[0]@)
                &&& match diff_plan {
                    Some(p) => {
                        let gone = crate::db::fingerprint_tests(old(db)@.regions, env_fingerprint@).difference(
                            p.listed@,
                        ).len();
                        &&& final(db)@ == crate::db::after_prune(old(db)@, env_fingerprint@, p.listed@)
                        &&& said.deep_view().skip(1) == (match pruned_text(gone) {
                            Some(t) => seq![t],
                            None => Seq::empty(),
                        })
                    },
                    None => final(db)@ == old(db)@ && said.len() == 1,
                }
            },
            Err(e) => {
                &&& no_results(diff_plan, nextest_exit, results_dir@) == Err::<Seq<char>, CollectErrorView>(e@)
                &&& final(db)@ == old(db)@
            },
        },
{
    if nextest_exit != 0 {
        return Err(CollectError::RunFailed { code: nextest_exit, results_dir: results_dir.to_owned() });
    }
    let mut said: Vec<String> = Vec::new();
    match diff_plan {
        Some(p) => {
            let live = p.live_selected_count();
            if live > 0 {
                return Err(
                    CollectError::ShimSilent {
                        live,
                        selected: p.selected.len(),
                        results_dir: results_dir.to_owned(),
                    },
                );
            }
            said.push(
                String::from_str(
                    "no tests rerun: every selected test is absent from the current nextest listing (renamed or deleted between collects)",
                ),
            );
            match prune_and_report(db, env_fingerprint, &p.listed) {
                Some(t) => {
                    let ghost tv = t@;
                    said.push(t);
                    assert(said.deep_view().skip(1) =~= seq![tv]);
                },
                None => {
                    assert(said.deep_view().skip(1) =~= Seq::<Seq<char>>::empty());
                },
            }
        },
        None => {
            said.push(
                String::from_str("no coverage results under ").concat(results_dir).concat(
                    " — project may have no tests, or the runner shim may have failed to fire",
                ),
            );
        },
    }
    Ok(said)
}

/// The value of a result.
pub type ResultView = (TestIdView, TestOutcomeView);

/// The results by binary and test.
pub open spec fn sorted_results(results: Seq<ResultView>) -> Seq<ResultView> {
    crate::sorting::sorted_values::<(String, String), ResultView>(results.map_values(|r: ResultView| (r.0, r)))
}

/// Puts results in the order of their binaries and tests, so that what is said and stored of them
/// is in a stable order.
pub fn sort_results(results: Vec<TestResult>) -> (r: Vec<TestResult>)
    ensures
        r.deep_view() == sorted_results(results.deep_view()),
{
    let ghost d = results.deep_view();
    let ghost f = |r: ResultView| (r.0, r);
    let mut rest = crate::sorting::reversed(results);
    let ghost rev = rest.deep_view();
    let mut pairs: Vec<((String, String), TestResult)> = Vec::new();
    assert(pairs.deep_view() =~= d.take(0).map_values(f));
    while rest.len() > 0
        invariant
            rest.len() + pairs.len() == d.len(),
            rev.len() == d.len(),
            f == (|r: ResultView| (r.0, r)),
            forall|i: int| 0 <= i < d.len() ==> #[trigger] rev[i] == d[d.len() - 1 - i],
            rest.deep_view() == rev.take(rest.len() as int),
            pairs.deep_view() == d.take(pairs.len() as int).map_values(f),
        decreases rest.len(),
    {
        let ghost k = pairs.len() as int;
        let ghost r0 = rest.deep_view();
        let ghost before = pairs.deep_view();
        match rest.pop() {
            Some(x) => {
                assert(x.deep_view() == r0.last());
                assert(r0.last() == rev[r0.len() - 1]);
                assert(x.deep_view() == d[k]);
                let pair = ((x.binary_id.clone(), x.test_name.clone()), x);
                let ghost pv = pair.deep_view();
                assert(pv == f(d[k]));
                pairs.push(pair);
                assert(pairs.deep_view() =~= before.push(pv));
                assert(d.take(k + 1).map_values(f) =~= d.take(k).map_values(f).push(pv));
                assert(rest.deep_view() =~= r0.drop_last());
                assert(rest.deep_view() =~= rev.take(rest.len() as int));
            },
            None => {},
        }
    }
    assert(d.take(pairs.len() as int) =~= d);
    sort_values(pairs)
}

/// What the results of a run come to.
#[derive(Debug, PartialEq, Eq)]
pub struct Folded {
    /// The ranges of each test, its crate roots among them.
    pub mappings: Vec<(TestId, OrdSet<HitRange>)>,
    /// The binaries of results that the workspace does not have.
    pub unknown_binaries: OrdSet<String>,
    /// What is said of each test without coverage.
    pub skip_notes: Vec<String>,
}

/// The value of a [`Folded`].
#[verifier::ext_equal]
pub struct FoldedView {
    pub mappings: Seq<(TestIdView, Set<HitRangeView>)>,
    pub unknown_binaries: Set<Seq<char>>,
    pub skip_notes: Seq<Seq<char>>,
}

impl View for Folded {
    type V = FoldedView;

    open spec fn view(&self) -> FoldedView {
        FoldedView {
            mappings: self.mappings.deep_view(),
            unknown_binaries: self.unknown_binaries@,
            skip_notes: self.skip_notes.deep_view(),
        }
    }
}

/// What is said of a test without coverage.
pub open spec fn skip_note(test: TestIdView, reason: Seq<char>) -> Seq<char> {
    "  skipped "@ + test.0 + "::"@ + test.1 + ": "@ + reason
}

/// What the results of a run come to. `roots` are the sentinel ranges of each binary.
pub open spec fn folded(results: Seq<ResultView>, roots: Map<Seq<char>, Set<HitRangeView>>) -> FoldedView
    decreases results.len(),
{
    if results.len() == 0 {
        FoldedView { mappings: Seq::empty(), unknown_binaries: Set::empty(), skip_notes: Seq::empty() }
    } else {
        let before = folded(results.drop_last(), roots);
        let test = results.last().0;
        match results.last().1 {
            TestOutcomeView::Collected { ranges } => if roots.contains_key(test.0) {
                FoldedView { mappings: before.mappings.push((test, ranges.union(roots[test.0]))), ..before }
            } else {
                FoldedView { unknown_binaries: before.unknown_binaries.insert(test.0), ..before }
            },
            TestOutcomeView::Skipped { reason } => FoldedView {
                skip_notes: before.skip_notes.push(skip_note(test, reason)),
                ..before
            },
        }
    }
}

/// Adds the sentinel ranges of its binary to the ranges of each test. A binary that the workspace
/// does not know, and a test without coverage, are noted.
pub fn fold_results(results: Vec<TestResult>, roots: &OrdMap<String, OrdSet<HitRange>>) -> (r: Folded)
    ensures
        r@ == folded(results.deep_view(), roots@),
{
    let ghost d = results.deep_view();
    let mut rest = crate::sorting::reversed(results);
    let ghost rev = rest.deep_view();
    let mut mappings: Vec<(TestId, OrdSet<HitRange>)> = Vec::new();
    let mut unknown_binaries: OrdSet<String> = OrdSet::new();
    let mut skip_notes: Vec<String> = Vec::new();
    proof {
        assert(d.take(0) =~= Seq::<ResultView>::empty());
        assert(mappings.deep_view() =~= Seq::<(TestIdView, Set<HitRangeView>)>::empty());
        assert(skip_notes.deep_view() =~= Seq::<Seq<char>>::empty());
    }
    while rest.len() > 0
        invariant
            rest.len() <= d.len(),
            rev.len() == d.len(),
            forall|i: int| 0 <= i < d.len() ==> #[trigger] rev[i] == d[d.len() - 1 - i],
            rest.deep_view() == rev.take(rest.len() as int),
            mappings.deep_view() == folded(d.take(d.len() - rest.len()), roots@).mappings,
            unknown_binaries@ == folded(d.take(d.len() - rest.len()), roots@).unknown_binaries,
            skip_notes.deep_view() == folded(d.take(d.len() - rest.len()), roots@).skip_notes,
        decreases rest.len(),
    {
        let ghost k = d.len() - rest.len();
        let ghost r0 = rest.deep_view();
        let ghost m0 = mappings.deep_view();
        let ghost n0 = skip_notes.deep_view();
        match rest.pop() {
            Some(x) => {
                proof {
                    assert(x.deep_view() == r0.last());
                    assert(r0.last() == rev[r0.len() - 1]);
                    assert(x.deep_view() == d[k]);
                    assert(d.take(k + 1).drop_last() =~= d.take(k));
                    assert(rest.deep_view() =~= r0.drop_last());
                    assert(rest.deep_view() =~= rev.take(rest.len() as int));
                }
                match x.outcome {
                    TestOutcome::Collected { ranges } => {
                        let test = TestId { binary_id: x.binary_id, test_name: x.test_name };
                        match roots.get(&test.binary_id) {
                            Some(root) => {
                                let mut all = ranges;
                                all.extend(root);
                                let pair = (test, all);
                                let ghost pv = pair.deep_view();
                                mappings.push(pair);
                                assert(mappings.deep_view() =~= m0.push(pv));
                            },
                            None => {
                                unknown_binaries.insert(test.binary_id);
                            },
                        }
                    },
                    TestOutcome::Skipped { reason } => {
                        let note = String::from_str("  skipped ").concat(x.binary_id.as_str()).concat("::").concat(
                            x.test_name.as_str(),
                        ).concat(": ").concat(reason.as_str());
                        let ghost nv = note@;
                        skip_notes.push(note);
                        assert(skip_notes.deep_view() =~= n0.push(nv));
                    },
                }
            },
            None => {},
        }
    }
    assert(d.take(d.len() as int) =~= d);
    Folded { mappings, unknown_binaries, skip_notes }
}

/// Why the results of a run are not recorded; nothing where they are.
pub open spec fn fold_problem(f: FoldedView) -> Option<CollectErrorView> {
    if f.unknown_binaries != Set::<Seq<char>>::empty() {
        Some(CollectErrorView::UnknownBinaries(crate::ordered::in_order::<String>(f.unknown_binaries)))
    } else if f.mappings.len() == 0 {
        Some(CollectErrorView::NothingExtracted { skipped: f.skip_notes.len() })
    } else {
        None
    }
}

impl Folded {
    /// Checks that the results can be recorded: every binary is known, and some test yielded
    /// coverage. Recording nothing would wipe what is stored.
    pub fn check(&self) -> (r: Result<(), CollectError>)
        ensures
            match r {
                Ok(_) => fold_problem(self@) is None,
                Err(e) => fold_problem(self@) == Some(e@),
            },
    {
        if !self.unknown_binaries.is_empty() {
            let names = self.unknown_binaries.items();
            proof {
                crate::ordered::lemma_in_order::<String>(self.unknown_binaries.elems());
            }
            return Err(CollectError::UnknownBinaries(names.duplicate()));
        }
        assert(self.mappings.deep_view().len() == self.mappings.len());
        assert(self.skip_notes.deep_view().len() == self.skip_notes.len());
        if self.mappings.len() == 0 {
            return Err(CollectError::NothingExtracted { skipped: self.skip_notes.len() });
        }
        Ok(())
    }

    /// How many tests yielded no coverage; nothing is said of none.
    pub fn skipped_line(&self) -> (r: Option<String>)
        ensures
            r.deep_view() == (if self@.skip_notes.len() == 0 {
                None
            } else {
                Some(
                    crate::text::decimal(self@.skip_notes.len()) + " test"@ + plural(self@.skip_notes.len())
                        + " produced no coverage"@,
                )
            }),
    {
        let n = self.skip_notes.len();
        assert(self.skip_notes.deep_view().len() == n);
        if n == 0 {
            None
        } else {
            Some(count_text(n).concat(" test").concat(plural_of(n)).concat(" produced no coverage"))
        }
    }
}

/// Every test of a run that can be recorded has its crate roots among its ranges.
pub proof fn law_collected_tests_hit_their_roots(
    results: Seq<ResultView>,
    roots: Map<Seq<char>, Set<HitRangeView>>,
    i: int,
)
    requires
        0 <= i < folded(results, roots).mappings.len(),
    ensures
        ({
            let m = folded(results, roots).mappings[i];
            roots.contains_key(m.0.0) && roots[m.0.0].subset_of(m.1)
        }),
    decreases results.len(),
{
    if results.len() > 0 {
        let before = folded(results.drop_last(), roots).mappings;
        if i < before.len() {
            law_collected_tests_hit_their_roots(results.drop_last(), roots, i);
        }
    }
}

/// No result is lost: each is recorded, named as unknown or noted as skipped.
pub proof fn law_every_result_counts(
    results: Seq<ResultView>,
    roots: Map<Seq<char>, Set<HitRangeView>>,
    i: int,
)
    requires
        0 <= i < results.len(),
    ensures
        ({
            let f = folded(results, roots);
            match results[i].1 {
                TestOutcomeView::Collected { ranges } => if roots.contains_key(results[i].0.0) {
                    f.mappings.contains((results[i].0, ranges.union(roots[results[i].0.0])))
                } else {
                    f.unknown_binaries.contains(results[i].0.0)
                },
                TestOutcomeView::Skipped { reason } => f.skip_notes.contains(skip_note(results[i].0, reason)),
            }
        }),
    decreases results.len(),
{
    let b = results.drop_last();
    let before = folded(b, roots);
    let f = folded(results, roots);
    if i < b.len() {
        law_every_result_counts(b, roots, i);
        assert(b[i] == results[i]);
        assert forall|m: (TestIdView, Set<HitRangeView>)| before.mappings.contains(m) implies #[trigger] f.mappings.contains(
            m,
        ) by {
            let j = choose|j: int| 0 <= j < before.mappings.len() && before.mappings[j] == m;
            assert(f.mappings[j] == m);
        }
        assert forall|n: Seq<char>| before.skip_notes.contains(n) implies #[trigger] f.skip_notes.contains(n) by {
            let j = choose|j: int| 0 <= j < before.skip_notes.len() && before.skip_notes[j] == n;
            assert(f.skip_notes[j] == n);
        }
    } else {
        match results[i].1 {
            TestOutcomeView::Collected { ranges } => {
                if roots.contains_key(results[i].0.0) {
                    assert(f.mappings[f.mappings.len() - 1] == (results[i].0, ranges.union(roots[results[i].0.0])));
                }
            },
            TestOutcomeView::Skipped { reason } => {
                assert(f.skip_notes[f.skip_notes.len() - 1] == skip_note(results[i].0, reason));
            },
        }
    }
}

/// How many ranges mappings hold.
pub open spec fn range_count(mappings: Seq<(TestIdView, Set<HitRangeView>)>) -> nat
    decreases mappings.len(),
{
    if mappings.len() == 0 {
        0
    } else {
        range_count(mappings.drop_last()) + mappings.last().1.len()
    }
}

/// How many ranges mappings hold.
fn count_ranges(mappings: &Vec<(TestId, OrdSet<HitRange>)>) -> (r: u128)
    ensures
        r == range_count(mappings.deep_view()),
        r <= mappings.len() * usize::MAX,
{
    let ghost d = mappings.deep_view();
    let mut total: u128 = 0;
    let mut i: usize = 0;
    assert(d.take(0) =~= Seq::<(TestIdView, Set<HitRangeView>)>::empty());
    while i < mappings.len()
        invariant
            i <= mappings.len(),
            d == mappings.deep_view(),
            total == range_count(d.take(i as int)),
            total <= i * usize::MAX,
        decreases mappings.len() - i,
    {
        assert(d[i as int] == mappings@[i as int].deep_view());
        assert(d.take(i + 1).drop_last() =~= d.take(i as int));
        let n: usize = mappings[i].1.len();
        assert(i * usize::MAX + usize::MAX == (i + 1) * usize::MAX) by (nonlinear_arith);
        assert((i + 1) * usize::MAX <= usize::MAX * usize::MAX) by (nonlinear_arith)
            requires
                i + 1 <= usize::MAX,
        ;
        assert(usize::MAX * usize::MAX <= u128::MAX) by (nonlinear_arith)
            requires
                usize::MAX <= 0xffff_ffff_ffff_ffff,
        ;
        total = total + n as u128;
        i += 1;
    }
    assert(d.take(i as int) =~= d);
    total
}

/// What is said before coverage is recorded.
pub open spec fn recording_text(incremental: bool, tests: nat, ranges: nat) -> Seq<char> {
    (if incremental {
        "updating"@
    } else {
        "storing"@
    }) + " coverage for "@ + crate::text::decimal(tests) + " tests ("@ + crate::text::decimal(ranges) + " ranges)..."@
}

/// What is said before coverage is recorded.
pub fn recording_line(incremental: bool, mappings: &Vec<(TestId, OrdSet<HitRange>)>) -> (r: String)
    ensures
        r@ == recording_text(incremental, mappings.len() as nat, range_count(mappings.deep_view())),
{
    let verb = if incremental {
        "updating"
    } else {
        "storing"
    };
    verb.to_owned().concat(" coverage for ").concat(count_text(mappings.len()).as_str()).concat(" tests (").concat(
        wide_number_text(count_ranges(mappings)).as_str(),
    ).concat(" ranges)...")
}

/// What is said when a collection is done, but for the time that it took.
pub open spec fn done_text(tests: nat, ranges: nat) -> Seq<char> {
    "done. "@ + crate::text::decimal(tests) + " tests, "@ + crate::text::decimal(ranges)
        + " ranges stored in target/affected/coverage.db"@
}

/// What is said when a collection is done, but for the time that it took.
pub fn done_line(mappings: &Vec<(TestId, OrdSet<HitRange>)>) -> (r: String)
    ensures
        r@ == done_text(mappings.len() as nat, range_count(mappings.deep_view())),
{
    String::from_str("done. ").concat(count_text(mappings.len()).as_str()).concat(" tests, ").concat(
        wide_number_text(count_ranges(mappings)).as_str(),
    ).concat(" ranges stored in target/affected/coverage.db")
}

/// The tables after coverage was written: a full collection replaces everything of the
/// fingerprint, an incremental one the rows of the tests that ran, and drops those of tests that
/// are gone from the listing.
pub open spec fn written(
    db: DbView,
    listed: Option<Set<TestIdView>>,
    fingerprint: Seq<char>,
    components: Seq<(Seq<char>, Seq<char>)>,
    sha: Seq<char>,
    mappings: Seq<(TestIdView, Set<HitRangeView>)>,
    now: Seq<char>,
) -> DbView {
    match listed {
        Some(l) => crate::db::after_prune(
            crate::db::after_update(db, fingerprint, components, sha, mappings, now),
            fingerprint,
            l,
        ),
        None => crate::db::after_store(db, fingerprint, components, sha, mappings, now),
    }
}

/// The tables after a collection: what was written, without the fingerprints that were used least
/// recently.
pub open spec fn recorded(
    db: DbView,
    listed: Option<Set<TestIdView>>,
    fingerprint: Seq<char>,
    components: Seq<(Seq<char>, Seq<char>)>,
    sha: Seq<char>,
    mappings: Seq<(TestIdView, Set<HitRangeView>)>,
    now: Seq<char>,
) -> DbView {
    crate::db::after_gc(
        written(db, listed, fingerprint, components, sha, mappings, now),
        fingerprint,
        FINGERPRINT_KEEP,
    )
}

/// What is said of evicted fingerprints; nothing if none were.
pub open spec fn evicted_text(gone: nat, kept: nat) -> Option<Seq<char>> {
    if gone == 0 {
        None
    } else {
        Some(
            "evicted "@ + crate::text::decimal(gone) + " stale fingerprint"@ + plural(gone) + " (kept "@
                + crate::text::decimal(kept) + " of "@ + crate::text::decimal(FINGERPRINT_KEEP as nat) + ")"@,
        )
    }
}

/// What is said of tests that an incremental collection drops.
pub open spec fn pruned_note(
    db: DbView,
    listed: Option<Set<TestIdView>>,
    fingerprint: Seq<char>,
    components: Seq<(Seq<char>, Seq<char>)>,
    sha: Seq<char>,
    mappings: Seq<(TestIdView, Set<HitRangeView>)>,
    now: Seq<char>,
) -> Option<Seq<char>> {
    match listed {
        Some(l) => pruned_text(
            crate::db::fingerprint_tests(
                crate::db::after_update(db, fingerprint, components, sha, mappings, now).regions,
                fingerprint,
            ).difference(l).len(),
        ),
        None => None,
    }
}

/// What is said of the fingerprints that are evicted once coverage was written.
pub open spec fn evicted_note(after: DbView, fingerprint: Seq<char>) -> Option<Seq<char>> {
    evicted_text(
        crate::db::evicted(after.fingerprints, fingerprint, FINGERPRINT_KEEP).len(),
        crate::db::after_gc(after, fingerprint, FINGERPRINT_KEEP).fingerprints.dom().len(),
    )
}

/// Records the coverage of a run and evicts the fingerprints that were used least recently.
/// `diff_plan` is given for an incremental collection. Returns what is said. Two components with
/// one label are refused, and nothing is written.
pub fn record(
    db: &mut Db,
    diff_plan: Option<&DiffPlan>,
    fingerprint: &str,
    components: &Vec<FingerprintComponent>,
    collect_sha: &str,
    mappings: &Vec<(TestId, OrdSet<HitRange>)>,
    now: &str,
) -> (r: Result<(Option<String>, Option<String>), DbError>)
    ensures
        r is Ok <==> crate::db::distinct_labels(components.deep_view()),
        match r {
            Ok((pruned, gone)) => {
                let listed = match diff_plan {
                    Some(p) => Some(p.listed@),
                    None => None,
                };
                let after = written(
                    old(db)@,
                    listed,
                    fingerprint@,
                    components.deep_view(),
                    collect_sha@,
                    mappings.deep_view(),
                    now@,
                );
                &&& final(db)@ == recorded(
                    old(db)@,
                    listed,
                    fingerprint@,
                    components.deep_view(),
                    collect_sha@,
                    mappings.deep_view(),
                    now@,
                )
                &&& pruned.deep_view() == pruned_note(
                    old(db)@,
                    listed,
                    fingerprint@,
                    components.deep_view(),
                    collect_sha@,
                    mappings.deep_view(),
                    now@,
                )
                &&& gone.deep_view() == evicted_note(after, fingerprint@)
            },
            Err(_) => final(db)@ == old(db)@,
        },
{
    let pruned = match diff_plan {
        Some(p) => match db.update_coverage_for_tests(fingerprint, components, collect_sha, mappings, now) {
            Ok(_) => prune_and_report(db, fingerprint, &p.listed),
            Err(e) => {
                return Err(e);
            },
        },
        None => match db.store_coverage(fingerprint, components, collect_sha, mappings, now) {
            Ok(_) => None,
            Err(e) => {
                return Err(e);
            },
        },
    };
    let gone = db.gc(fingerprint, FINGERPRINT_KEEP);
    let said = if gone == 0 {
        None
    } else {
        let kept = db.fingerprint_count();
        Some(
            String::from_str("evicted ").concat(count_text(gone).as_str()).concat(" stale fingerprint").concat(
                plural_of(gone),
            ).concat(" (kept ").concat(count_text(kept).as_str()).concat(" of ").concat(
                count_text(FINGERPRINT_KEEP).as_str(),
            ).concat(")"),
        )
    };
    Ok((pruned, said))
}

/// What a collection ends with.
#[derive(Debug, PartialEq, Eq)]
pub struct Conclusion {
    /// The exit code of the command.
    pub exit: i32,
    /// What is said, line by line.
    pub said: Vec<String>,
    /// What is said at last, but for the time that the collection took; nothing where no coverage
    /// was recorded.
    pub done: Option<String>,
}

/// What is said of the results of a run before it is known whether they can be recorded.
pub open spec fn result_notes(f: FoldedView) -> Seq<Seq<char>> {
    if f.unknown_binaries != Set::<Seq<char>>::empty() || f.skip_notes.len() == 0 {
        f.skip_notes
    } else {
        f.skip_notes.push(
            crate::text::decimal(f.skip_notes.len()) + " test"@ + plural(f.skip_notes.len())
                + " produced no coverage"@,
        )
    }
}

/// Why the results of a run are not recorded; nothing where they are.
pub open spec fn conclusion_problem(f: FoldedView, components: Seq<(Seq<char>, Seq<char>)>) -> Option<CollectErrorView> {
    match fold_problem(f) {
        Some(e) => Some(e),
        None => if crate::db::distinct_labels(components) {
            None
        } else {
            Some(CollectErrorView::DuplicateComponent)
        },
    }
}

/// A line that may be said.
pub open spec fn maybe_said(line: Option<Seq<char>>) -> Seq<Seq<char>> {
    match line {
        Some(t) => seq![t],
        None => Seq::empty(),
    }
}

/// What is said of recording coverage: how much, and what was dropped.
pub open spec fn recording_notes(
    db: DbView,
    listed: Option<Set<TestIdView>>,
    fingerprint: Seq<char>,
    components: Seq<(Seq<char>, Seq<char>)>,
    sha: Seq<char>,
    mappings: Seq<(TestIdView, Set<HitRangeView>)>,
    now: Seq<char>,
) -> Seq<Seq<char>> {
    seq![recording_text(listed is Some, mappings.len(), range_count(mappings))] + maybe_said(
        pruned_note(db, listed, fingerprint, components, sha, mappings, now),
    ) + maybe_said(
        evicted_note(written(db, listed, fingerprint, components, sha, mappings, now), fingerprint),
    )
}

/// Adds a line, if there is one.
fn add_line(out: &mut Vec<String>, line: Option<String>)
    ensures
        final(out).deep_view() == old(out).deep_view() + maybe_said(line.deep_view()),
{
    let ghost before = out.deep_view();
    match line {
        Some(t) => {
            let ghost tv = t@;
            out.push(t);
            assert(out.deep_view() =~= before + seq![tv]);
        },
        None => {
            assert(out.deep_view() =~= before + Seq::<Seq<char>>::empty());
        },
    }
}

/// Settles a run that left results: sorts them, adds the crate roots and, if every binary is known
/// and some test yielded coverage, records them. An error comes with what is said before it, and
/// leaves the tables as they are.
pub fn conclude(
    db: &mut Db,
    diff_plan: Option<&DiffPlan>,
    results: Vec<TestResult>,
    roots: &OrdMap<String, OrdSet<HitRange>>,
    fingerprint: &str,
    components: &Vec<FingerprintComponent>,
    collect_sha: &str,
    nextest_exit: i32,
    now: &str,
) -> (r: Result<Conclusion, (Vec<String>, CollectError)>)
    ensures
        ({
            let f = folded(sorted_results(results.deep_view()), roots@);
            match r {
                Ok(c) => {
                    &&& conclusion_problem(f, components.deep_view()) is None
                    &&& c.exit == nextest_exit
                    &&& c.said.deep_view() == result_notes(f) + recording_notes(
                        old(db)@,
                        match diff_plan {
                            Some(p) => Some(p.listed@),
                            None => None,
                        },
                        fingerprint@,
                        components.deep_view(),
                        collect_sha@,
                        f.mappings,
                        now@,
                    )
                    &&& c.done matches Some(t) && t@ == done_text(f.mappings.len(), range_count(f.mappings))
                    &&& final(db)@ == recorded(
                        old(db)@,
                        match diff_plan {
                            Some(p) => Some(p.listed@),
                            None => None,
                        },
                        fingerprint@,
                        components.deep_view(),
                        collect_sha@,
                        f.mappings,
                        now@,
                    )
                },
                Err((said, e)) => {
                    &&& conclusion_problem(f, components.deep_view()) == Some(e@)
                    &&& said.deep_view() == result_notes(f)
                    &&& final(db)@ == old(db)@
                },
            }
        }),
{
    let f = fold_results(sort_results(results), roots);
    let ghost fv = f@;
    let ghost notes = result_notes(fv);
    let problem = f.check();
    let line = f.skipped_line();
    let Folded { mappings, unknown_binaries, skip_notes } = f;
    let mut said = skip_notes;
    let ghost skips = said.deep_view();
    if unknown_binaries.is_empty() {
        match line {
            Some(t) => {
                let ghost tv = t@;
                said.push(t);
                assert(said.deep_view() =~= skips.push(tv));
            },
            None => {},
        }
    }
    assert(said.deep_view() == notes);
    match problem {
        Err(e) => {
            return Err((said, e));
        },
        Ok(_) => {},
    }
    let incremental = match diff_plan {
        Some(_) => true,
        None => false,
    };
    match record(db, diff_plan, fingerprint, components, collect_sha, &mappings, now) {
        Err(_) => Err((said, CollectError::DuplicateComponent)),
        Ok((pruned, gone)) => {
            assert(mappings.deep_view().len() == mappings.len());
            let done = done_line(&mappings);
            let first = recording_line(incremental, &mappings);
            let ghost fst = first@;
            let ghost p = maybe_said(pruned.deep_view());
            let ghost g = maybe_said(gone.deep_view());
            said.push(first);
            assert(said.deep_view() =~= notes + seq![fst]);
            add_line(&mut said, pruned);
            add_line(&mut said, gone);
            assert(said.deep_view() =~= notes + (seq![fst] + p + g));
            Ok(Conclusion { exit: nextest_exit, said, done: Some(done) })
        },
    }
}

/// What a full collection records for the environment is what is stored for it afterwards, and
/// nothing else.
pub proof fn law_full_collection_is_what_is_stored(
    db: DbView,
    fingerprint: Seq<char>,
    components: Seq<(Seq<char>, Seq<char>)>,
    sha: Seq<char>,
    mappings: Seq<(TestIdView, Set<HitRangeView>)>,
    now: Seq<char>,
)
    ensures
        recorded(db, None, fingerprint, components, sha, mappings, now).regions.filter(
            |r: crate::db::RegionView| r.fingerprint == fingerprint,
        ) == crate::db::mapping_rows(fingerprint, sha, mappings),
{
    let after = written(db, None, fingerprint, components, sha, mappings, now);
    let rows = recorded(db, None, fingerprint, components, sha, mappings, now).regions.filter(
        |r: crate::db::RegionView| r.fingerprint == fingerprint,
    );
    assert(!crate::db::evicted(after.fingerprints, fingerprint, FINGERPRINT_KEEP).contains(fingerprint));
    assert(rows =~= crate::db::mapping_rows(fingerprint, sha, mappings));
}

/// An incremental collection keeps the rows of a listed test that it did not rerun, anchored where
/// they were.
pub proof fn law_incremental_collection_keeps_other_tests(
    db: DbView,
    listed: Set<TestIdView>,
    fingerprint: Seq<char>,
    components: Seq<(Seq<char>, Seq<char>)>,
    sha: Seq<char>,
    mappings: Seq<(TestIdView, Set<HitRangeView>)>,
    now: Seq<char>,
    row: crate::db::RegionView,
)
    requires
        row.fingerprint == fingerprint,
        listed.contains(row.test),
        !crate::db::mapping_tests(mappings).contains(row.test),
    ensures
        recorded(db, Some(listed), fingerprint, components, sha, mappings, now).regions.contains(row)
            <==> db.regions.contains(row),
{
    let after = written(db, Some(listed), fingerprint, components, sha, mappings, now);
    assert(!crate::db::evicted(after.fingerprints, fingerprint, FINGERPRINT_KEEP).contains(fingerprint));
    if crate::db::mapping_rows(fingerprint, sha, mappings).contains(row) {
        let i = choose|i: int| #[trigger] crate::db::mapping_holds(mappings, row, i);
        let tests = mappings.map_values(|e: (TestIdView, Set<HitRangeView>)| e.0);
        assert(tests[i] == row.test);
        assert(crate::db::mapping_tests(mappings).contains(row.test));
    }
}

/// The directories that one collection works in, each named for its process so that two
/// collections do not meet.
#[derive(Debug, PartialEq, Eq)]
pub struct StagingDirs {
    /// The profiles of each test.
    pub profraw: String,
    /// The results of each test.
    pub results: String,
    /// The function map of each binary.
    pub function_maps: String,
}

/// The names of the directories that one collection works in.
pub open spec fn staging_names(pid: u32) -> Seq<Seq<char>> {
    seq![
        "profraw-"@ + crate::text::decimal(pid as nat),
        "results-"@ + crate::text::decimal(pid as nat),
        "function-maps-"@ + crate::text::decimal(pid as nat),
    ]
}

/// The directories that the collection of a process works in, below the umbrella directory.
pub fn staging_dirs(affected_dir: &str, pid: u32) -> (r: StagingDirs)
    ensures
        r.profraw@ == crate::paths::joined_path(affected_dir@, staging_names(pid)[0]),
        r.results@ == crate::paths::joined_path(affected_dir@, staging_names(pid)[1]),
        r.function_maps@ == crate::paths::joined_path(affected_dir@, staging_names(pid)[2]),
{
    let id = number_text(pid as u64);
    let profraw = String::from_str("profraw-").concat(id.as_str());
    let results = String::from_str("results-").concat(id.as_str());
    let function_maps = String::from_str("function-maps-").concat(id.as_str());
    StagingDirs {
        profraw: join_path(affected_dir, profraw.as_str()),
        results: join_path(affected_dir, results.as_str()),
        function_maps: join_path(affected_dir, function_maps.as_str()),
    }
}

/// Whether a directory below the umbrella directory is one that a collection works in.
pub open spec fn is_staging(name: Seq<char>) -> bool {
    "profraw-"@.is_prefix_of(name) || "results-"@.is_prefix_of(name) || "function-maps-"@.is_prefix_of(name)
}

/// Whether a directory below the umbrella directory is one that a collection works in, and that a
/// cleanup removes.
pub fn is_staging_dir(name: &str) -> (r: bool)
    ensures
        r == is_staging(name@),
{
    starts_with(name, "profraw-") || starts_with(name, "results-") || starts_with(name, "function-maps-")
}

/// A cleanup finds every directory that a collection works in.
pub proof fn law_cleanup_finds_staging(pid: u32, i: int)
    requires
        0 <= i < staging_names(pid).len(),
    ensures
        is_staging(staging_names(pid)[i]),
{
    let id = crate::text::decimal(pid as nat);
    assert(("profraw-"@ + id).take("profraw-"@.len() as int) =~= "profraw-"@);
    assert(("results-"@ + id).take("results-"@.len() as int) =~= "results-"@);
    assert(("function-maps-"@ + id).take("function-maps-"@.len() as int) =~= "function-maps-"@);
}

/// Checks that the tool made the empty profile that an export needs.
pub fn check_empty_profile(merge: &ProcessOutput) -> (r: Result<(), CollectError>)
    ensures
        match r {
            Ok(_) => merge@.succeeded(),
            Err(e) => !merge@.succeeded() && e@ == CollectErrorView::EmptyProfile(
                crate::text::trimmed(crate::diff::readable_text(merge@.stderr)),
            ),
        },
{
    if merge.success() {
        Ok(())
    } else {
        Err(CollectError::EmptyProfile(trim_text(lossy_text(merge.stderr.as_slice()).as_str())))
    }
}

/// The function map of a binary, or why it has none.
pub open spec fn exported_map(
    binary_id: Seq<char>,
    export: crate::process::ProcessOutputView,
    root: Seq<char>,
    windows: bool,
) -> Result<Map<Seq<char>, Seq<HitRangeView>>, CollectErrorView> {
    if !export.succeeded() {
        Err(
            CollectErrorView::ExportFailed {
                binary_id,
                output: crate::text::trimmed(crate::diff::readable_text(export.stderr)),
            },
        )
    } else {
        match crate::function_map::export_map(
            crate::json::json_text(crate::diff::readable_text(export.stdout)),
            root,
            windows,
        ) {
            Err(error) => Err(CollectErrorView::BadExport { binary_id, error }),
            Ok(m) => if m == Map::<Seq<char>, Seq<HitRangeView>>::empty() {
                Err(CollectErrorView::EmptyMap { binary_id, root })
            } else {
                Ok(m)
            },
        }
    }
}

/// Reads the coverage map that the tool exported for a binary, and keeps which functions of the
/// project it has and where.
///
/// An empty map is an error: a binary that runs tests has instrumented code of the project, so the
/// paths did not line up, and every test of it would collect nothing but its crate roots.
pub fn read_exported_map(binary_id: &str, export: &ProcessOutput, root: &str, windows: bool) -> (r: Result<
    FunctionMap,
    CollectError,
>)
    ensures
        match r {
            Ok(m) => exported_map(binary_id@, export@, root@, windows) == Ok::<
                Map<Seq<char>, Seq<HitRangeView>>,
                CollectErrorView,
            >(m@),
            Err(e) => exported_map(binary_id@, export@, root@, windows) == Err::<
                Map<Seq<char>, Seq<HitRangeView>>,
                CollectErrorView,
            >(e@),
        },
{
    if !export.success() {
        return Err(
            CollectError::ExportFailed {
                binary_id: binary_id.to_owned(),
                output: trim_text(lossy_text(export.stderr.as_slice()).as_str()),
            },
        );
    }
    let json = lossy_text(export.stdout.as_slice());
    match build_function_map(json.as_str(), root, windows) {
        Err(error) => Err(CollectError::BadExport { binary_id: binary_id.to_owned(), error }),
        Ok(m) => if m.is_empty() {
            Err(CollectError::EmptyMap { binary_id: binary_id.to_owned(), root: root.to_owned() })
        } else {
            Ok(m)
        },
    }
}

/// The arguments of the export of a binary's coverage map against a profile. Only the paths that
/// are named are left out of the list of files; the functions of all files stay.
pub open spec fn export_args_of(profdata: Seq<char>, binary: Seq<char>) -> Seq<Seq<char>> {
    seq![
        "export"@,
        "--format=text"@,
        "--instr-profile="@ + profdata,
        "--ignore-filename-regex=/rustc/|/\\.cargo/|/target/"@,
        binary,
    ]
}

/// The arguments of the export of a binary's coverage map against a profile.
pub fn export_args(profdata: &str, binary: &str) -> (r: Vec<String>)
    ensures
        r.deep_view() == export_args_of(profdata@, binary@),
{
    let mut out: Vec<String> = Vec::new();
    out.push(String::from_str("export"));
    out.push(String::from_str("--format=text"));
    out.push(String::from_str("--instr-profile=").concat(profdata));
    out.push(String::from_str("--ignore-filename-regex=/rustc/|/\\.cargo/|/target/"));
    out.push(binary.to_owned());
    assert(out.deep_view() =~= export_args_of(profdata@, binary@));
    out
}

/// The arguments of a listing: into a build directory of its own, if given, and with the
/// arguments of the caller.
pub open spec fn list_args_of(build_dir: Option<Seq<char>>, args: Seq<Seq<char>>) -> Seq<Seq<char>> {
    seq!["nextest"@, "list"@, "--message-format"@, "json"@] + (match build_dir {
        Some(dir) => seq!["--target-dir"@, dir],
        None => Seq::empty(),
    }) + args
}

/// Adds texts to a list.
fn add_all(out: &mut Vec<String>, more: &Vec<String>)
    ensures
        final(out).deep_view() == old(out).deep_view() + more.deep_view(),
{
    let ghost start = out.deep_view();
    let ghost d = more.deep_view();
    let mut i: usize = 0;
    assert(out.deep_view() =~= start + d.take(0));
    while i < more.len()
        invariant
            i <= more.len(),
            d == more.deep_view(),
            out.deep_view() == start + d.take(i as int),
        decreases more.len() - i,
    {
        let ghost before = out.deep_view();
        assert(d[i as int] == more@[i as int]@);
        out.push(more[i].clone());
        assert(out.deep_view() =~= before.push(d[i as int]));
        assert(start + d.take(i + 1) =~= (start + d.take(i as int)).push(d[i as int]));
        i += 1;
    }
    assert(d.take(i as int) =~= d);
}

/// The arguments of a listing.
pub fn nextest_list_args(build_dir: Option<&str>, args: &Vec<String>) -> (r: Vec<String>)
    ensures
        r.deep_view() == list_args_of(
            match build_dir {
                Some(dir) => Some(dir@),
                None => None,
            },
            args.deep_view(),
        ),
{
    let mut out: Vec<String> = Vec::new();
    out.push(String::from_str("nextest"));
    out.push(String::from_str("list"));
    out.push(String::from_str("--message-format"));
    out.push(String::from_str("json"));
    match build_dir {
        Some(dir) => {
            out.push(String::from_str("--target-dir"));
            out.push(dir.to_owned());
            assert(out.deep_view() =~= seq!["nextest"@, "list"@, "--message-format"@, "json"@] + seq![
                "--target-dir"@,
                dir@,
            ]);
        },
        None => {
            assert(out.deep_view() =~= seq!["nextest"@, "list"@, "--message-format"@, "json"@] + Seq::<
                Seq<char>,
            >::empty());
        },
    }
    add_all(&mut out, args);
    out
}

/// The arguments of the run of a collection: with the runner that extracts coverage, into a build
/// directory of its own, with a configuration file that names the tests to rerun, if any, and the
/// arguments of the caller. A filter that matches nothing is no failure.
pub open spec fn collect_args_of(
    runner_config: Seq<char>,
    build_dir: Seq<char>,
    config: Option<Seq<char>>,
    args: Seq<Seq<char>>,
) -> Seq<Seq<char>> {
    seq!["nextest"@, "run"@, "--config"@, runner_config, "--target-dir"@, build_dir, "--no-tests=warn"@] + (
    match config {
        Some(path) => seq!["--config-file"@, path],
        None => Seq::empty(),
    }) + args
}

/// The arguments of the run of a collection.
pub fn collect_run_args(
    runner_config: &str,
    build_dir: &str,
    config: Option<&str>,
    nextest_args: &Vec<String>,
) -> (r: Vec<String>)
    ensures
        r.deep_view() == collect_args_of(
            runner_config@,
            build_dir@,
            match config {
                Some(path) => Some(path@),
                None => None,
            },
            nextest_args.deep_view(),
        ),
{
    let mut out: Vec<String> = Vec::new();
    out.push(String::from_str("nextest"));
    out.push(String::from_str("run"));
    out.push(String::from_str("--config"));
    out.push(runner_config.to_owned());
    out.push(String::from_str("--target-dir"));
    out.push(build_dir.to_owned());
    out.push(String::from_str("--no-tests=warn"));
    let ghost start = seq![
        "nextest"@,
        "run"@,
        "--config"@,
        runner_config@,
        "--target-dir"@,
        build_dir@,
        "--no-tests=warn"@,
    ];
    match config {
        Some(path) => {
            out.push(String::from_str("--config-file"));
            out.push(path.to_owned());
            assert(out.deep_view() =~= start + seq!["--config-file"@, path@]);
        },
        None => {
            assert(out.deep_view() =~= start + Seq::<Seq<char>>::empty());
        },
    }
    add_all(&mut out, nextest_args);
    out
}

} // verus!

//! Which arguments of a nextest run also belong to the listing before it.
//!
//! `cargo nextest list` and `cargo nextest run` share cargo's build options, but the run takes
//! further options that the listing rejects. The listing must build what the run builds, and admit
//! what the run admits, or the tests that count as new are those of another build.

use vstd::prelude::*;
use crate::text::{has_char, same_text, split_once, starts_with};

verus! {

/// Build flags without a value.
pub open spec fn is_bare_flag(name: Seq<char>) -> bool {
    ||| name == "--workspace"@
    ||| name == "--all"@
    ||| name == "--lib"@
    ||| name == "--bins"@
    ||| name == "--examples"@
    ||| name == "--tests"@
    ||| name == "--benches"@
    ||| name == "--all-targets"@
    ||| name == "--all-features"@
    ||| name == "--no-default-features"@
    ||| name == "--release"@
    ||| name == "-r"@
    ||| name == "--frozen"@
    ||| name == "--locked"@
    ||| name == "--offline"@
    ||| name == "--ignore-rust-version"@
    ||| name == "--future-incompat-report"@
    ||| name == "--unit-graph"@
}

/// Build flags with a value: `--flag value` or `--flag=value`. A target directory is none of them: it
/// only says where artifacts land, and a collection passes its own.
pub open spec fn is_valued_flag(name: Seq<char>) -> bool {
    ||| name == "--package"@
    ||| name == "--exclude"@
    ||| name == "--bin"@
    ||| name == "--example"@
    ||| name == "--test"@
    ||| name == "--bench"@
    ||| name == "--features"@
    ||| name == "--cargo-profile"@
    ||| name == "--target"@
    ||| name == "--manifest-path"@
    ||| name == "--build-jobs"@
    ||| name == "--config"@
}

/// Short build flags with a value: `-p name` or `-pname`.
pub open spec fn is_short_flag(name: Seq<char>) -> bool {
    ||| name == "-p"@
    ||| name == "-F"@
    ||| name == "-Z"@
}

/// Flags whose value is a filterset.
pub open spec fn is_filter_flag(name: Seq<char>) -> bool {
    ||| name == "-E"@
    ||| name == "--filterset"@
    ||| name == "--filter-expr"@
}

/// Flags of a run with a value that the listing does not take. A partition is one of them: it splits
/// the selection, and must not split the listing before.
pub open spec fn is_run_flag(name: Seq<char>) -> bool {
    ||| name == "--partition"@
    ||| name == "--run-ignored"@
    ||| name == "--test-threads"@
    ||| name == "--jobs"@
    ||| name == "--retries"@
    ||| name == "--flaky-result"@
    ||| name == "--max-fail"@
    ||| name == "--no-tests"@
    ||| name == "--stress-count"@
    ||| name == "--stress-duration"@
    ||| name == "--debugger"@
    ||| name == "--tracer"@
    ||| name == "--failure-output"@
    ||| name == "--success-output"@
    ||| name == "--status-level"@
    ||| name == "--final-status-level"@
    ||| name == "--show-progress"@
    ||| name == "--max-progress-running"@
    ||| name == "--message-format"@
    ||| name == "--message-format-version"@
    ||| name == "--color"@
    ||| name == "--config-file"@
    ||| name == "--tool-config-file"@
    ||| name == "--user-config-file"@
    ||| name == "--profile"@
    ||| name == "--archive-file"@
    ||| name == "--archive-format"@
    ||| name == "--extract-to"@
    ||| name == "--cargo-metadata"@
    ||| name == "--workspace-remap"@
    ||| name == "--binaries-metadata"@
    ||| name == "--target-dir-remap"@
    ||| name == "--target-dir"@
    ||| name == "-j"@
    ||| name == "-P"@
}

/// Whether a flag is a build flag without a value.
fn bare_flag(name: &str) -> (r: bool)
    ensures
        r == is_bare_flag(name@),
{
    same_text(name, "--workspace") || same_text(name, "--all") || same_text(name, "--lib")
        || same_text(name, "--bins") || same_text(name, "--examples") || same_text(name, "--tests")
        || same_text(name, "--benches") || same_text(name, "--all-targets")
        || same_text(name, "--all-features") || same_text(name, "--no-default-features")
        || same_text(name, "--release") || same_text(name, "-r") || same_text(name, "--frozen")
        || same_text(name, "--locked") || same_text(name, "--offline")
        || same_text(name, "--ignore-rust-version") || same_text(name, "--future-incompat-report")
        || same_text(name, "--unit-graph")
}

/// Whether a flag is a build flag with a value.
fn valued_flag(name: &str) -> (r: bool)
    ensures
        r == is_valued_flag(name@),
{
    same_text(name, "--package") || same_text(name, "--exclude") || same_text(name, "--bin")
        || same_text(name, "--example") || same_text(name, "--test") || same_text(name, "--bench")
        || same_text(name, "--features") || same_text(name, "--cargo-profile") || same_text(name, "--target")
        || same_text(name, "--manifest-path") || same_text(name, "--build-jobs")
        || same_text(name, "--config")
}

/// Whether a flag is a short build flag with a value.
fn short_flag(name: &str) -> (r: bool)
    ensures
        r == is_short_flag(name@),
{
    same_text(name, "-p") || same_text(name, "-F") || same_text(name, "-Z")
}

/// Whether the value of a flag is a filterset.
fn filter_flag(name: &str) -> (r: bool)
    ensures
        r == is_filter_flag(name@),
{
    same_text(name, "-E") || same_text(name, "--filterset") || same_text(name, "--filter-expr")
}

/// Whether a flag of a run has a value that the listing does not take.
fn run_flag(name: &str) -> (r: bool)
    ensures
        r == is_run_flag(name@),
{
    same_text(name, "--partition") || same_text(name, "--run-ignored") || same_text(name, "--test-threads")
        || same_text(name, "--jobs") || same_text(name, "--retries") || same_text(name, "--flaky-result")
        || same_text(name, "--max-fail") || same_text(name, "--no-tests")
        || same_text(name, "--stress-count") || same_text(name, "--stress-duration")
        || same_text(name, "--debugger") || same_text(name, "--tracer")
        || same_text(name, "--failure-output") || same_text(name, "--success-output")
        || same_text(name, "--status-level") || same_text(name, "--final-status-level")
        || same_text(name, "--show-progress") || same_text(name, "--max-progress-running")
        || same_text(name, "--message-format") || same_text(name, "--message-format-version")
        || same_text(name, "--color") || same_text(name, "--config-file")
        || same_text(name, "--tool-config-file") || same_text(name, "--user-config-file")
        || same_text(name, "--profile") || same_text(name, "--archive-file")
        || same_text(name, "--archive-format") || same_text(name, "--extract-to")
        || same_text(name, "--cargo-metadata") || same_text(name, "--workspace-remap")
        || same_text(name, "--binaries-metadata") || same_text(name, "--target-dir-remap")
        || same_text(name, "--target-dir") || same_text(name, "-j") || same_text(name, "-P")
}

/// The name of a flag: what stands before `=`.
pub open spec fn flag_name(arg: Seq<char>) -> Seq<char> {
    match crate::text::around_first(arg, '=') {
        Some((name, _)) => name,
        None => arg,
    }
}

/// Whether an argument joins a short build flag and its value.
pub open spec fn is_joined_short(arg: Seq<char>) -> bool {
    "-p"@.is_prefix_of(arg) || "-F"@.is_prefix_of(arg) || "-Z"@.is_prefix_of(arg)
}

/// How many arguments one keeps, from the first on: none for one that is dropped alone, itself,
/// or itself and its value.
pub open spec fn build_arg_len(args: Seq<Seq<char>>) -> nat {
    let arg = args[0];
    let name = flag_name(arg);
    if is_bare_flag(name) {
        1
    } else if is_valued_flag(name) {
        if arg.contains('=') || args.len() == 1 {
            1
        } else {
            2
        }
    } else if is_short_flag(arg) {
        if args.len() == 1 {
            1
        } else {
            2
        }
    } else if is_joined_short(arg) {
        1
    } else {
        0
    }
}

/// The build arguments among the arguments of a run.
pub open spec fn build_args_of(args: Seq<Seq<char>>) -> Seq<Seq<char>>
    decreases args.len(),
{
    if args.len() == 0 {
        Seq::empty()
    } else {
        let n = build_arg_len(args);
        if n == 0 {
            build_args_of(args.skip(1))
        } else {
            args.take(n as int) + build_args_of(args.skip(n as int))
        }
    }
}

/// What becomes of the first arguments of a run in its listing.
pub enum Fate {
    /// The first so many are kept.
    Keep(nat),
    /// The first so many are dropped.
    Drop(nat),
    /// All of them are kept.
    KeepAll,
}

/// What becomes of the first arguments of a run in its listing: build arguments, filtersets and
/// name filters are kept, and everything behind `--`; other flags are dropped with their values.
pub open spec fn listing_fate(args: Seq<Seq<char>>) -> Fate {
    let arg = args[0];
    let name = flag_name(arg);
    let with_value = if arg.contains('=') || args.len() == 1 {
        1nat
    } else {
        2nat
    };
    if arg == "--"@ {
        Fate::KeepAll
    } else if build_arg_len(args) > 0 {
        Fate::Keep(build_arg_len(args))
    } else if is_filter_flag(name) {
        Fate::Keep(with_value)
    } else if "-E"@.is_prefix_of(arg) {
        Fate::Keep(1)
    } else if is_run_flag(name) {
        Fate::Drop(with_value)
    } else if "-"@.is_prefix_of(arg) {
        Fate::Drop(1)
    } else {
        Fate::Keep(1)
    }
}

/// The arguments of a run that its listing takes too.
pub open spec fn listing_args_of(args: Seq<Seq<char>>) -> Seq<Seq<char>>
    decreases args.len(),
{
    if args.len() == 0 {
        Seq::empty()
    } else {
        match listing_fate(args) {
            Fate::KeepAll => args,
            Fate::Keep(n) => if 0 < n <= args.len() {
                args.take(n as int) + listing_args_of(args.skip(n as int))
            } else {
                Seq::empty()
            },
            Fate::Drop(n) => if 0 < n <= args.len() {
                listing_args_of(args.skip(n as int))
            } else {
                Seq::empty()
            },
        }
    }
}

/// The name of a flag.
fn name_of(arg: &str) -> (r: String)
    ensures
        r@ == flag_name(arg@),
{
    match split_once(arg, '=') {
        Some((name, _)) => name,
        None => arg.to_owned(),
    }
}

/// How many arguments the one at a place keeps.
fn build_len(args: &Vec<String>, i: usize) -> (r: usize)
    requires
        i < args.len(),
    ensures
        r == build_arg_len(args.deep_view().skip(i as int)),
        r <= 2,
        i + r <= args.len(),
{
    let ghost d = args.deep_view();
    let arg = args[i].as_str();
    let last = i + 1 == args.len();
    proof {
        assert(d.skip(i as int)[0] == args@[i as int]@);
        assert(d.skip(i as int).len() == args.len() - i);
    }
    let name = name_of(arg);
    if bare_flag(name.as_str()) {
        1
    } else if valued_flag(name.as_str()) {
        if has_char(arg, '=') || last {
            1
        } else {
            2
        }
    } else if short_flag(arg) {
        if last {
            1
        } else {
            2
        }
    } else if starts_with(arg, "-p") || starts_with(arg, "-F") || starts_with(arg, "-Z") {
        1
    } else {
        0
    }
}

/// Appends `n` arguments from a place on.
fn push_args(out: &mut Vec<String>, args: &Vec<String>, i: usize, n: usize)
    requires
        i + n <= args.len(),
    ensures
        final(out).deep_view() == old(out).deep_view() + args.deep_view().skip(i as int).take(n as int),
{
    let ghost start = out.deep_view();
    let ghost d = args.deep_view();
    let ghost t = d.skip(i as int);
    let mut k: usize = 0;
    assert(start + t.take(0) =~= start);
    while k < n
        invariant
            k <= n,
            i + n <= args.len(),
            d == args.deep_view(),
            t == d.skip(i as int),
            out.deep_view() == start + t.take(k as int),
        decreases n - k,
    {
        let ghost before = out.deep_view();
        assert(t[k as int] == args@[i + k]@);
        out.push(args[i + k].clone());
        assert(out.deep_view() =~= before.push(t[k as int]));
        assert(out.deep_view() =~= start + t.take(k + 1));
        k += 1;
    }
}

/// The build arguments among the arguments of a run: `--features`, `-p`, `--release` and the like.
/// Anything else either does not affect which test binaries are built or is no argument of a
/// listing.
pub fn cargo_build_args(nextest_args: &Vec<String>) -> (r: Vec<String>)
    ensures
        r.deep_view() == build_args_of(nextest_args.deep_view()),
{
    let ghost d = nextest_args.deep_view();
    let mut out: Vec<String> = Vec::new();
    let mut i: usize = 0;
    proof {
        assert(out.deep_view() =~= Seq::<Seq<char>>::empty());
        assert(d.skip(0) =~= d);
        assert(Seq::<Seq<char>>::empty() + build_args_of(d) =~= build_args_of(d));
    }
    while i < nextest_args.len()
        invariant
            i <= nextest_args.len(),
            d == nextest_args.deep_view(),
            out.deep_view() + build_args_of(d.skip(i as int)) == build_args_of(d),
        decreases nextest_args.len() - i,
    {
        let ghost before = out.deep_view();
        let ghost t = d.skip(i as int);
        let n = build_len(nextest_args, i);
        if n == 0 {
            assert(t.skip(1) =~= d.skip(i + 1));
            i += 1;
        } else {
            push_args(&mut out, nextest_args, i, n);
            assert(t.skip(n as int) =~= d.skip(i + n));
            assert(before + (t.take(n as int) + build_args_of(t.skip(n as int))) =~= out.deep_view() + build_args_of(
                t.skip(n as int),
            ));
            i += n;
        }
    }
    assert(d.skip(i as int).len() == 0);
    assert(out.deep_view() + Seq::<Seq<char>>::empty() =~= out.deep_view());
    out
}

/// The arguments of a run that its listing takes too: build arguments, and the filters, so that
/// the listing marks the tests that the run does not admit.
pub fn args_for_listing(nextest_args: &Vec<String>) -> (r: Vec<String>)
    ensures
        r.deep_view() == listing_args_of(nextest_args.deep_view()),
{
    let ghost d = nextest_args.deep_view();
    let mut out: Vec<String> = Vec::new();
    let mut i: usize = 0;
    proof {
        assert(out.deep_view() =~= Seq::<Seq<char>>::empty());
        assert(d.skip(0) =~= d);
        assert(Seq::<Seq<char>>::empty() + listing_args_of(d) =~= listing_args_of(d));
    }
    while i < nextest_args.len()
        invariant
            i <= nextest_args.len(),
            d == nextest_args.deep_view(),
            out.deep_view() + listing_args_of(d.skip(i as int)) == listing_args_of(d),
        decreases nextest_args.len() - i,
    {
        let ghost before = out.deep_view();
        let ghost t = d.skip(i as int);
        proof {
            assert(t[0] == nextest_args@[i as int]@);
            assert(t.len() == nextest_args.len() - i);
        }
        let arg = nextest_args[i].as_str();
        let rest: usize = nextest_args.len() - i;
        if same_text(arg, "--") {
            push_args(&mut out, nextest_args, i, rest);
            assert(t.take(rest as int) =~= t);
            return out;
        }
        let name = name_of(arg);
        let with_value: usize = if has_char(arg, '=') || rest == 1 {
            1
        } else {
            2
        };
        let n = build_len(nextest_args, i);
        let keep: usize = if n > 0 {
            n
        } else if filter_flag(name.as_str()) {
            with_value
        } else if starts_with(arg, "-E") {
            1
        } else if run_flag(name.as_str()) || starts_with(arg, "-") {
            0
        } else {
            1
        };
        if keep > 0 {
            push_args(&mut out, nextest_args, i, keep);
            assert(t.skip(keep as int) =~= d.skip(i + keep));
            assert(before + (t.take(keep as int) + listing_args_of(t.skip(keep as int))) =~= out.deep_view()
                + listing_args_of(t.skip(keep as int)));
            i += keep;
        } else {
            let gone: usize = if run_flag(name.as_str()) {
                with_value
            } else {
                1
            };
            assert(t.skip(gone as int) =~= d.skip(i + gone));
            i += gone;
        }
    }
    assert(d.skip(i as int).len() == 0);
    assert(out.deep_view() + Seq::<Seq<char>>::empty() =~= out.deep_view());
    out
}

/// The arguments under which the filterset of a rule is resolved: the build arguments of the run
/// and the filterset, without the filters of the run, which would widen the rule. Ignored tests
/// are listed as if they were not, so that only the filterset decides what matches.
pub open spec fn rule_listing_args_of(args: Seq<Seq<char>>, filterset: Seq<char>) -> Seq<Seq<char>> {
    build_args_of(args) + seq!["--run-ignored"@, "all"@, "-E"@, filterset]
}

/// The arguments under which the filterset of a rule is resolved.
pub fn rule_listing_args(nextest_args: &Vec<String>, filterset: &str) -> (r: Vec<String>)
    ensures
        r.deep_view() == rule_listing_args_of(nextest_args.deep_view(), filterset@),
{
    let mut out = cargo_build_args(nextest_args);
    let ghost start = out.deep_view();
    out.push(String::from_str("--run-ignored"));
    assert(out.deep_view() =~= start.push("--run-ignored"@));
    out.push(String::from_str("all"));
    assert(out.deep_view() =~= start.push("--run-ignored"@).push("all"@));
    out.push(String::from_str("-E"));
    assert(out.deep_view() =~= start.push("--run-ignored"@).push("all"@).push("-E"@));
    out.push(filterset.to_owned());
    assert(out.deep_view() =~= start + seq!["--run-ignored"@, "all"@, "-E"@, filterset@]);
    out
}

} // verus!

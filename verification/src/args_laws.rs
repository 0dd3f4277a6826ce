//! Laws of the arguments of a run: which of them a build and a listing take.

use vstd::prelude::*;
use crate::args;

verus! {

/// Cargo's build flags without a value.
pub open spec fn stands_alone(name: Seq<char>) -> bool {
    ||| name == "--workspace"@
    ||| name == "--all"@
    ||| name == "--lib"@
    ||| name == "--bins"@
    ||| name == "--examples"@
    ||| name == "--tests"@
    ||| name == "--benches"@
    ||| name == "--all-targets"@
    ||| name == "--all-features"@
    ||| name == "--no-default-features"@
    ||| name == "--release"@
    ||| name == "-r"@
    ||| name == "--frozen"@
    ||| name == "--locked"@
    ||| name == "--offline"@
    ||| name == "--ignore-rust-version"@
    ||| name == "--future-incompat-report"@
    ||| name == "--unit-graph"@
}

/// Cargo's build flags with a value.
pub open spec fn takes_a_value(name: Seq<char>) -> bool {
    ||| name == "--package"@
    ||| name == "--exclude"@
    ||| name == "--bin"@
    ||| name == "--example"@
    ||| name == "--test"@
    ||| name == "--bench"@
    ||| name == "--features"@
    ||| name == "--cargo-profile"@
    ||| name == "--target"@
    ||| name == "--manifest-path"@
    ||| name == "--build-jobs"@
    ||| name == "--config"@
}

/// Cargo's short build flags with a value.
pub open spec fn is_short(name: Seq<char>) -> bool {
    ||| name == "-p"@
    ||| name == "-F"@
    ||| name == "-Z"@
}

/// The flags whose value is a filterset.
pub open spec fn is_filter(name: Seq<char>) -> bool {
    ||| name == "-E"@
    ||| name == "--filterset"@
    ||| name == "--filter-expr"@
}

/// The flags with a value that only a run takes.
pub open spec fn is_for_the_run(name: Seq<char>) -> bool {
    ||| name == "--partition"@
    ||| name == "--run-ignored"@
    ||| name == "--test-threads"@
    ||| name == "--jobs"@
    ||| name == "--retries"@
    ||| name == "--flaky-result"@
    ||| name == "--max-fail"@
    ||| name == "--no-tests"@
    ||| name == "--stress-count"@
    ||| name == "--stress-duration"@
    ||| name == "--debugger"@
    ||| name == "--tracer"@
    ||| name == "--failure-output"@
    ||| name == "--success-output"@
    ||| name == "--status-level"@
    ||| name == "--final-status-level"@
    ||| name == "--show-progress"@
    ||| name == "--max-progress-running"@
    ||| name == "--message-format"@
    ||| name == "--message-format-version"@
    ||| name == "--color"@
    ||| name == "--config-file"@
    ||| name == "--tool-config-file"@
    ||| name == "--user-config-file"@
    ||| name == "--profile"@
    ||| name == "--archive-file"@
    ||| name == "--archive-format"@
    ||| name == "--extract-to"@
    ||| name == "--cargo-metadata"@
    ||| name == "--workspace-remap"@
    ||| name == "--binaries-metadata"@
    ||| name == "--target-dir-remap"@
    ||| name == "--target-dir"@
    ||| name == "-j"@
    ||| name == "-P"@
}

/// A flag that is kept as a build flag.
pub open spec fn is_build_flag(name: Seq<char>) -> bool {
    stands_alone(name) || takes_a_value(name) || is_short(name)
}

/// An argument that joins a short build flag and its value.
pub open spec fn joins_short(arg: Seq<char>) -> bool {
    arg.len() >= 2 && arg[0] == '-' && (arg[1] == 'p' || arg[1] == 'F' || arg[1] == 'Z')
}

proof fn lemma_name(flag: Seq<char>, value: Seq<char>)
    requires
        !flag.contains('='),
    ensures
        args::flag_name(flag) == flag,
        args::flag_name(flag + seq!['='] + value) == flag,
        (flag + seq!['='] + value).contains('='),
{
    crate::text_laws::law_cut_at_first(flag, value, '=');
    let s = flag + seq!['='] + value;
    assert(s[flag.len() as int] == '=');
}

proof fn lemma_starts(list: Seq<Seq<char>>, rest: Seq<Seq<char>>)
    requires
        list.len() > 0,
    ensures
        (list + rest)[0] == list[0],
        (list + rest).take(list.len() as int) == list,
        (list + rest).skip(list.len() as int) == rest,
{
    assert((list + rest).take(list.len() as int) =~= list);
    assert((list + rest).skip(list.len() as int) =~= rest);
}

proof fn lemma_joined_short(arg: Seq<char>)
    ensures
        args::is_joined_short(arg) <==> joins_short(arg),
{
    reveal_strlit("-p");
    reveal_strlit("-F");
    reveal_strlit("-Z");
    if arg.len() >= 2 {
        let t = arg.take(2);
        assert(t[0] == arg[0] && t[1] == arg[1]);
        if joins_short(arg) {
            if arg[1] == 'p' {
                assert("-p"@ =~= t);
            } else if arg[1] == 'F' {
                assert("-F"@ =~= t);
            } else {
                assert("-Z"@ =~= t);
            }
        }
    }
}

proof fn lemma_not_built(arg: Seq<char>, rest: Seq<Seq<char>>)
    requires
        !stands_alone(args::flag_name(arg)),
        !takes_a_value(args::flag_name(arg)),
        !is_short(arg),
        !joins_short(arg),
    ensures
        args::build_arg_len(seq![arg] + rest) == 0,
        args::build_args_of(seq![arg] + rest) == args::build_args_of(rest),
{
    lemma_joined_short(arg);
    lemma_starts(seq![arg], rest);
}

/// A build flag without a value is kept, for the build and for the listing.
pub proof fn law_flags_that_stand_alone_are_kept(flag: Seq<char>, rest: Seq<Seq<char>>)
    requires
        stands_alone(flag),
        !flag.contains('='),
        flag != "--"@,
    ensures
        args::build_args_of(seq![flag] + rest) == seq![flag] + args::build_args_of(rest),
        args::listing_args_of(seq![flag] + rest) == seq![flag] + args::listing_args_of(rest),
{
    lemma_name(flag, flag);
    lemma_starts(seq![flag], rest);
}

/// A build flag with a value is kept with it, whether the value follows it or is joined to it by an equals
/// sign.
pub proof fn law_flags_with_a_value_are_kept(flag: Seq<char>, value: Seq<char>, rest: Seq<Seq<char>>)
    requires
        takes_a_value(flag),
        !stands_alone(flag),
        !flag.contains('='),
        flag != "--"@,
        flag + seq!['='] + value != "--"@,
    ensures
        args::build_args_of(seq![flag, value] + rest) == seq![flag, value] + args::build_args_of(rest),
        args::listing_args_of(seq![flag, value] + rest) == seq![flag, value] + args::listing_args_of(rest),
        args::build_args_of(seq![flag + seq!['='] + value] + rest) == seq![flag + seq!['='] + value]
            + args::build_args_of(rest),
        args::listing_args_of(seq![flag + seq!['='] + value] + rest) == seq![flag + seq!['='] + value]
            + args::listing_args_of(rest),
{
    lemma_name(flag, value);
    lemma_starts(seq![flag, value], rest);
    lemma_starts(seq![flag + seq!['='] + value], rest);
}

/// A short build flag is kept with its value, whether that follows it or is joined to it.
pub proof fn law_short_flags_are_kept(flag: Seq<char>, value: Seq<char>, joined: Seq<char>, rest: Seq<Seq<char>>)
    requires
        is_short(flag),
        !stands_alone(flag),
        !takes_a_value(flag),
        !flag.contains('='),
        flag != "--"@,
        joins_short(joined),
        !joined.contains('='),
        !is_build_flag(joined),
        joined != "--"@,
    ensures
        args::build_args_of(seq![flag, value] + rest) == seq![flag, value] + args::build_args_of(rest),
        args::listing_args_of(seq![flag, value] + rest) == seq![flag, value] + args::listing_args_of(rest),
        args::build_args_of(seq![joined] + rest) == seq![joined] + args::build_args_of(rest),
        args::listing_args_of(seq![joined] + rest) == seq![joined] + args::listing_args_of(rest),
{
    lemma_name(flag, value);
    lemma_name(joined, value);
    lemma_starts(seq![flag, value], rest);
    lemma_starts(seq![joined], rest);
    lemma_joined_short(joined);
}

/// A filterset is kept for the listing, whether it follows its flag, is joined to it by an equals sign, or
/// follows `-E` at once; a build does not take it.
pub proof fn law_filtersets_are_kept_for_the_listing(flag: Seq<char>, value: Seq<char>, rest: Seq<Seq<char>>)
    requires
        is_filter(flag),
        !is_build_flag(flag),
        !joins_short(flag),
        !flag.contains('='),
        flag != "--"@,
        !is_build_flag(value),
        !joins_short(value),
        !value.contains('='),
        !is_build_flag(flag + seq!['='] + value),
        !joins_short(flag + seq!['='] + value),
        flag + seq!['='] + value != "--"@,
    ensures
        args::listing_args_of(seq![flag, value] + rest) == seq![flag, value] + args::listing_args_of(rest),
        args::listing_args_of(seq![flag + seq!['='] + value] + rest) == seq![flag + seq!['='] + value]
            + args::listing_args_of(rest),
        args::build_args_of(seq![flag, value] + rest) == args::build_args_of(rest),
        args::build_args_of(seq![flag + seq!['='] + value] + rest) == args::build_args_of(rest),
{
    lemma_name(flag, value);
    lemma_name(value, value);
    lemma_joined_short(flag);
    lemma_joined_short(value);
    lemma_joined_short(flag + seq!['='] + value);
    lemma_starts(seq![flag, value], rest);
    lemma_starts(seq![flag + seq!['='] + value], rest);
    let two = seq![flag, value] + rest;
    assert(two =~= seq![flag] + (seq![value] + rest));
    lemma_not_built(flag, seq![value] + rest);
    lemma_not_built(value, rest);
}

/// A flag with a value that only a run takes is left out of the listing and of the build, with its value.
pub proof fn law_flags_of_the_run_are_dropped(flag: Seq<char>, value: Seq<char>, rest: Seq<Seq<char>>)
    requires
        is_for_the_run(flag),
        !is_build_flag(flag),
        !joins_short(flag),
        !is_filter(flag),
        !(flag.len() >= 2 && flag[0] == '-' && flag[1] == 'E'),
        !flag.contains('='),
        flag != "--"@,
        !is_build_flag(value),
        !joins_short(value),
        !value.contains('='),
        !is_build_flag(flag + seq!['='] + value),
        flag.len() >= 2,
        flag + seq!['='] + value != "--"@,
    ensures
        args::listing_args_of(seq![flag, value] + rest) == args::listing_args_of(rest),
        args::listing_args_of(seq![flag + seq!['='] + value] + rest) == args::listing_args_of(rest),
        args::build_args_of(seq![flag, value] + rest) == args::build_args_of(rest),
        args::build_args_of(seq![flag + seq!['='] + value] + rest) == args::build_args_of(rest),
{
    let one = flag + seq!['='] + value;
    lemma_name(flag, value);
    lemma_name(value, value);
    assert(one[0] == flag[0] && one[1] == flag[1]);
    lemma_joined_short(flag);
    lemma_joined_short(value);
    lemma_joined_short(one);
    lemma_dash(flag);
    lemma_dash(one);
    lemma_starts(seq![flag, value], rest);
    lemma_starts(seq![one], rest);
    let two = seq![flag, value] + rest;
    assert(two =~= seq![flag] + (seq![value] + rest));
    lemma_not_built(flag, seq![value] + rest);
    lemma_not_built(value, rest);
}

/// What follows `--` is kept for the listing as it is.
pub proof fn law_everything_behind_the_dashes_is_kept(rest: Seq<Seq<char>>)
    ensures
        args::listing_args_of(seq!["--"@] + rest) == seq!["--"@] + rest,
{
    lemma_starts(seq!["--"@], rest);
}

/// A name filter is kept for the listing and not taken by a build.
pub proof fn law_name_filters_are_kept_for_the_listing(arg: Seq<char>, rest: Seq<Seq<char>>)
    requires
        !is_build_flag(arg),
        !is_filter(arg),
        !is_for_the_run(arg),
        !arg.contains('='),
        arg != "--"@,
        arg.len() == 0 || arg[0] != '-',
    ensures
        args::listing_args_of(seq![arg] + rest) == seq![arg] + args::listing_args_of(rest),
        args::build_args_of(seq![arg] + rest) == args::build_args_of(rest),
{
    lemma_name(arg, arg);
    lemma_not_built(arg, rest);
    lemma_starts(seq![arg], rest);
    lemma_dash(arg);
    lemma_fate_of_name(seq![arg] + rest);
}

proof fn lemma_fate_of_name(all: Seq<Seq<char>>)
    requires
        all.len() > 0,
        args::flag_name(all[0]) == all[0],
        args::build_arg_len(all) == 0,
        !is_filter(all[0]),
        !is_for_the_run(all[0]),
        all[0] != "--"@,
        !"-"@.is_prefix_of(all[0]),
        !"-E"@.is_prefix_of(all[0]),
    ensures
        args::listing_fate(all) == args::Fate::Keep(1),
        args::listing_args_of(all) == all.take(1) + args::listing_args_of(all.skip(1)),
{
}

/// Any other flag is taken neither by the listing nor by a build.
pub proof fn law_other_flags_are_dropped(arg: Seq<char>, rest: Seq<Seq<char>>)
    requires
        !is_build_flag(arg),
        !joins_short(arg),
        !is_filter(arg),
        !is_for_the_run(arg),
        !arg.contains('='),
        arg != "--"@,
        arg.len() > 0,
        arg[0] == '-',
        !(arg.len() >= 2 && arg[1] == 'E'),
    ensures
        args::listing_args_of(seq![arg] + rest) == args::listing_args_of(rest),
        args::build_args_of(seq![arg] + rest) == args::build_args_of(rest),
{
    lemma_name(arg, arg);
    lemma_not_built(arg, rest);
    lemma_starts(seq![arg], rest);
    lemma_dash(arg);
}

proof fn lemma_dash(arg: Seq<char>)
    ensures
        "-"@.is_prefix_of(arg) <==> arg.len() > 0 && arg[0] == '-',
        "-E"@.is_prefix_of(arg) <==> arg.len() >= 2 && arg[0] == '-' && arg[1] == 'E',
{
    reveal_strlit("-E");
    reveal_strlit("-");
    if arg.len() > 0 {
        let t = arg.take(1);
        assert(t[0] == arg[0]);
        if arg[0] == '-' {
            assert("-"@ =~= t);
        }
    }
    if arg.len() >= 2 {
        let t = arg.take(2);
        assert(t[0] == arg[0] && t[1] == arg[1]);
        if arg[0] == '-' && arg[1] == 'E' {
            assert("-E"@ =~= t);
        }
    }
}

/// The filterset of a rule is resolved under the build arguments of the run and under nothing else of it:
/// filters of the caller do not count, and ignored tests are listed as others are.
pub proof fn law_rules_are_resolved_for_the_build(args: Seq<Seq<char>>, filterset: Seq<char>)
    ensures
        ({
            let all = args::rule_listing_args_of(args, filterset);
            let n = args::build_args_of(args).len() as int;
            &&& all.len() == n + 4
            &&& all.take(n) == args::build_args_of(args)
            &&& all.skip(n) == seq!["--run-ignored"@, "all"@, "-E"@, filterset]
        }),
{
    let all = args::rule_listing_args_of(args, filterset);
    let n = args::build_args_of(args).len() as int;
    assert(all.take(n) =~= args::build_args_of(args));
    assert(all.skip(n) =~= seq!["--run-ignored"@, "all"@, "-E"@, filterset]);
}

} // verus!

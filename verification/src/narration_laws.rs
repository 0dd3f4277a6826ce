//! Laws of what `run` and `status` say and do.

use vstd::prelude::*;
use crate::db::{TestId, TestIdView};
use crate::narration;
use crate::narration::Command;
use crate::plan::{CacheState, Plan};
use crate::text;

verus! {

/// Whether a text holds another.
pub open spec fn holds(s: Seq<char>, part: Seq<char>) -> bool {
    exists|i: int| 0 <= i && i + part.len() <= s.len() && #[trigger] s.subrange(i, i + part.len()) == part
}

/// What stands between two texts is held.
pub proof fn lemma_holds(a: Seq<char>, b: Seq<char>, c: Seq<char>)
    ensures
        holds(a + b + c, b),
{
    let s = a + b + c;
    let i = a.len() as int;
    assert(s.subrange(i, i + b.len()) =~= b);
}

/// What is held by a part is held by the whole.
pub proof fn lemma_holds_within(a: Seq<char>, b: Seq<char>, c: Seq<char>, part: Seq<char>)
    requires
        holds(b, part),
    ensures
        holds(a + b + c, part),
{
    let i = choose|i: int| 0 <= i && i + part.len() <= b.len() && #[trigger] b.subrange(i, i + part.len()) == part;
    let s = a + b + c;
    let k = a.len() + i;
    assert(s.subrange(k, k + part.len()) =~= b.subrange(i, i + part.len()));
}

/// Parts that are put together are held.
pub proof fn lemma_joined_holds(parts: Seq<Seq<char>>, sep: Seq<char>, i: int)
    requires
        0 <= i < parts.len(),
    ensures
        holds(text::joined(parts, sep), parts[i]),
    decreases parts.len(),
{
    let e = Seq::<char>::empty();
    if parts.len() == 1 {
        lemma_holds(e, parts[0], e);
        assert(e + parts[0] + e =~= parts[0]);
    } else {
        let start = text::joined(parts.drop_last(), sep);
        let s = text::joined(parts, sep);
        if i == parts.len() - 1 {
            lemma_holds(start + sep, parts.last(), e);
            assert(start + sep + parts.last() + e =~= s);
        } else {
            lemma_joined_holds(parts.drop_last(), sep, i);
            assert(parts.drop_last()[i] == parts[i]);
            lemma_holds_within(e, start, sep + parts.last(), parts[i]);
            assert(e + start + (sep + parts.last()) =~= s);
        }
    }
}

/// The notice about missing commits says how many there are, names each of them, and says what becomes
/// of their tests.
pub proof fn law_missing_commits_are_named(missing: Set<Seq<char>>, phrase: Seq<char>, sha: Seq<char>)
    requires
        missing.finite(),
    ensures
        ({
            let t = crate::selection::missing_notice(missing, phrase);
            &&& holds(t, text::decimal(missing.len()))
            &&& missing.contains(sha) ==> holds(t, sha)
            &&& holds(t, phrase)
        }),
{
    crate::ordered::lemma_in_order_of::<String>(missing);
    let shas = crate::ordered::in_order::<String>(missing);
    let count = text::decimal(missing.len());
    let ending = if missing.len() == 1 {
        ""@
    } else {
        "s"@
    };
    let list = text::joined(shas, ", "@);
    let t = crate::selection::missing_notice(missing, phrase);
    let tests = ") — tests anchored only there "@;
    let tail = "; run `cargo affected clean` to clear stale rows"@;
    let head = "note: "@ + count + " collect_sha"@ + ending + " not in the repo ("@;
    assert(t == head + list + tests + phrase + tail);
    lemma_holds("note: "@, count, " collect_sha"@ + ending + " not in the repo ("@ + list + tests + phrase + tail);
    assert("note: "@ + count + (" collect_sha"@ + ending + " not in the repo ("@ + list + tests + phrase + tail) =~= t);
    lemma_holds(head + list + tests, phrase, tail);
    assert(head + list + tests + phrase + tail =~= t);
    if missing.contains(sha) {
        assert(shas.to_set().contains(sha));
        let i = choose|i: int| 0 <= i < shas.len() && shas[i] == sha;
        lemma_joined_holds(shas, ", "@, i);
        lemma_holds_within(head, list, tests + phrase + tail, sha);
        assert(head + list + (tests + phrase + tail) =~= t);
    }
}

/// Missing commits are spoken of exactly where there are some; `status` also says how many rows are
/// anchored there.
pub proof fn law_missing_commits_are_spoken_of(c: Command, state: CacheState, stale_rows: nat, sha: Seq<char>)
    requires
        state.reach() is Some,
        state.reach()->0.missing@.finite(),
    ensures
        ({
            let notes = narration::missing_notes(c, state, stale_rows);
            let missing = state.reach()->0.missing@;
            &&& (forall|s: Seq<char>| !#[trigger] missing.contains(s)) ==> notes.len() == 0
            &&& missing.contains(sha) ==> notes.len() == 1 && holds(notes[0], sha)
            &&& missing.contains(sha) && c == Command::Status ==> holds(notes[0], text::decimal(stale_rows))
        }),
{
    let missing = state.reach()->0.missing@;
    let notes = narration::missing_notes(c, state, stale_rows);
    if forall|s: Seq<char>| !#[trigger] missing.contains(s) {
        assert(missing =~= Set::<Seq<char>>::empty());
    }
    if missing.contains(sha) {
        assert(missing.len() > 0) by {
            if missing.len() == 0 {
                assert(missing =~= Set::<Seq<char>>::empty());
            }
        }
        let phrase = narration::stranded_phrase(c, state.reach()->0.reachable@.len() > 0);
        let t = crate::selection::missing_notice(missing, phrase);
        law_missing_commits_are_named(missing, phrase, sha);
        if c == Command::Status {
            let stale = narration::stale_text(stale_rows, missing.len());
            lemma_holds_within("\n"@, t, "\n"@ + stale, sha);
            assert("\n"@ + t + ("\n"@ + stale) =~= "\n"@ + t + "\n"@ + stale);
            let e = if missing.len() == 1 {
                ""@
            } else {
                "s"@
            };
            let d = text::decimal(stale_rows);
            lemma_holds("\n"@ + t + "\n"@ + "stale rows: "@, d, " (anchored at missing sha"@ + e + ")"@);
            assert("\n"@ + t + "\n"@ + "stale rows: "@ + d + (" (anchored at missing sha"@ + e + ")"@) =~= "\n"@ + t
                + "\n"@ + stale);
        }
    }
}

/// Where the cache can be used, something is said of it exactly where `HEAD` has moved, and how far.
/// Where it cannot, one note says so; a differing label is named in it.
pub proof fn law_cache_is_spoken_of(c: Command, state: CacheState, i: int)
    ensures
        ({
            let notes = narration::state_notes(c, state);
            &&& state is Usable && state->Usable_0.max_commits_ahead == 0 ==> notes.len() == 0
            &&& state is Usable && state->Usable_0.max_commits_ahead > 0 ==> notes.len() == 1 && holds(
                notes[0],
                text::decimal(state->Usable_0.max_commits_ahead as nat),
            )
            &&& state is Miss ==> notes.len() == 1
            &&& state is Miss && state->Miss_0 is Fingerprint && 0 <= i < state->Miss_0->differing.deep_view().len()
                ==> holds(notes[0], state->Miss_0->differing.deep_view()[i])
        }),
{
    let notes = narration::state_notes(c, state);
    match state {
        CacheState::Usable(reach) => {
            let d = text::decimal(reach.max_commits_ahead as nat);
            let tail = " commit(s) since collect — diff vs collect_sha is noisier than necessary; run `cargo affected collect` to refresh"@;
            if reach.max_commits_ahead > 0 {
                let t = "note: "@ + d + tail;
                lemma_holds("note: "@, d, tail);
                lemma_holds_within("\n"@, t, Seq::empty(), d);
                assert("\n"@ + t + Seq::empty() =~= "\n"@ + t);
            }
        },
        CacheState::Miss(miss) => {
            if miss is Fingerprint && 0 <= i < miss->differing.deep_view().len() {
                let labels = miss->differing.deep_view();
                let list = text::joined(labels, ", "@);
                let clause = crate::report::miss_clause(labels);
                lemma_joined_holds(labels, ", "@, i);
                lemma_holds_within(" (differs from closest stored fingerprint in: "@, list, ")"@, labels[i]);
                assert(holds(clause, labels[i]));
                match c {
                    Command::Run => {
                        lemma_holds_within(
                            "note: no coverage data for the current environment"@,
                            clause,
                            " — running all tests; run `cargo affected collect` to refresh"@,
                            labels[i],
                        );
                    },
                    Command::Status => {
                        lemma_holds_within(
                            "no coverage data for the current environment"@,
                            clause,
                            " — would run all tests; run `cargo affected collect` to enable selection"@,
                            labels[i],
                        );
                    },
                }
            }
        },
    }
}

/// Changed files are listed exactly where there are some, with their number and one line for each.
pub proof fn law_changed_files_are_listed(c: Command, files: Set<Seq<char>>, file: Seq<char>)
    requires
        files.finite(),
    ensures
        ({
            let t = narration::changed_text(c, files);
            &&& (forall|f: Seq<char>| !#[trigger] files.contains(f)) ==> t is None
            &&& files.contains(file) ==> t is Some && holds(t->0, "\n  "@ + file) && holds(
                t->0,
                text::decimal(files.len()),
            )
        }),
{
    if forall|f: Seq<char>| !#[trigger] files.contains(f) {
        assert(files =~= Set::<Seq<char>>::empty());
    }
    if files.contains(file) {
        assert(files.len() > 0) by {
            if files.len() == 0 {
                assert(files =~= Set::<Seq<char>>::empty());
            }
        }
        crate::ordered::lemma_in_order_of::<String>(files);
        let list = crate::ordered::in_order::<String>(files);
        assert(list.to_set().contains(file));
        let i = choose|i: int| 0 <= i < list.len() && list[i] == file;
        lemma_line_of_file(list, i);
        let head = narration::changed_head(c, files.len());
        let lines = narration::file_lines(list);
        let d = text::decimal(files.len());
        let e = Seq::<char>::empty();
        lemma_holds_within(head, lines, e, "\n  "@ + file);
        assert(head + lines + e =~= head + lines);
        match c {
            Command::Run => {
                lemma_holds(e, d, " changed files:"@ + lines);
                assert(e + d + (" changed files:"@ + lines) =~= head + lines);
            },
            Command::Status => {
                lemma_holds("changed files ("@, d, "):"@ + lines);
                assert("changed files ("@ + d + ("):"@ + lines) =~= head + lines);
            },
        }
    }
}

proof fn lemma_line_of_file(files: Seq<Seq<char>>, i: int)
    requires
        0 <= i < files.len(),
    ensures
        holds(narration::file_lines(files), "\n  "@ + files[i]),
    decreases files.len(),
{
    let start = narration::file_lines(files.drop_last());
    if i == files.len() - 1 {
        lemma_ends_with(start, "\n  "@, files.last());
    } else {
        lemma_line_of_file(files.drop_last(), i);
        assert(files.drop_last()[i] == files[i]);
        lemma_goes_on(start, "\n  "@, files.last(), "\n  "@ + files[i]);
    }
}

proof fn lemma_ends_with(a: Seq<char>, b: Seq<char>, c: Seq<char>)
    ensures
        holds(a + b + c, b + c),
{
    let s = a + b + c;
    let i = a.len() as int;
    assert(s.subrange(i, i + (b + c).len()) =~= b + c);
}

proof fn lemma_goes_on(a: Seq<char>, b: Seq<char>, c: Seq<char>, part: Seq<char>)
    requires
        holds(a, part),
    ensures
        holds(a + b + c, part),
{
    let e = Seq::<char>::empty();
    lemma_holds_within(e, a, b + c, part);
    assert(e + a + (b + c) =~= a + b + c);
}

/// A run runs every selected test and no other, each once, wherever there is one; `status` runs none.
pub proof fn law_selected_tests_are_run(c: Command, plan: Plan, t: TestIdView)
    requires
        plan.selection.selected_set().finite(),
    ensures
        c == Command::Status ==> narration::tests_run(c, plan) is None,
        c == Command::Run && (forall|x: TestIdView| !#[trigger] plan.selection.selected_set().contains(x))
            ==> narration::tests_run(c, plan) is None,
        c == Command::Run && plan.selection.selected_set().contains(t) ==> narration::tests_run(c, plan) is Some
            && narration::tests_run(c, plan)->0.contains(t),
        narration::tests_run(c, plan) is Some && narration::tests_run(c, plan)->0.contains(t)
            ==> plan.selection.selected_set().contains(t),
        narration::tests_run(c, plan) is Some ==> narration::tests_run(c, plan)->0.len()
            == plan.selection.selected_set().len(),
{
    let s = plan.selection.selected_set();
    crate::ordered::lemma_in_order_of::<TestId>(s);
    let o = crate::ordered::in_order::<TestId>(s);
    if forall|x: TestIdView| !#[trigger] s.contains(x) {
        assert(s =~= Set::<TestIdView>::empty());
    }
    assert(o.to_set().contains(t) <==> s.contains(t));
}

/// A run hands the arguments of the caller on, behind the configuration file that names the tests.
pub proof fn law_arguments_are_handed_on(config: Option<Seq<char>>, args: Seq<Seq<char>>)
    ensures
        ({
            let all = narration::run_args(config, args);
            let n = all.len() - args.len();
            &&& all[0] == "nextest"@ && all[1] == "run"@
            &&& all.skip(n) == args
            &&& config is None ==> n == 2
            &&& config is Some ==> n == 4 && all[2] == "--config-file"@ && all[3] == config->0
        }),
{
    let all = narration::run_args(config, args);
    assert(all.skip(all.len() - args.len()) =~= args);
}

/// What is stored is summed up with its numbers and its commits.
pub proof fn law_inventory_names_every_commit(tests: nat, regions: nat, shas: Set<Seq<char>>, sha: Seq<char>)
    requires
        shas.contains(sha),
        shas.finite(),
    ensures
        ({
            let t = narration::inventory_text(tests, regions, shas);
            &&& holds(t, "tests tracked: "@ + text::decimal(tests) + "\n"@)
            &&& holds(t, "regions stored: "@ + text::decimal(regions) + "\n"@)
            &&& holds(t, sha)
        }),
{
    reveal_strlit("\nregions stored: ");
    reveal_strlit("regions stored: ");
    reveal_strlit("\ncollect shas: ");
    reveal_strlit("collect shas: ");
    reveal_strlit("\n");
    let t = narration::inventory_text(tests, regions, shas);
    crate::ordered::lemma_in_order_of::<String>(shas);
    let list = crate::ordered::in_order::<String>(shas);
    let j = text::joined(list, ", "@);
    let a = "tests tracked: "@ + text::decimal(tests);
    let b = "regions stored: "@ + text::decimal(regions);
    let e = Seq::<char>::empty();
    assert("\nregions stored: "@ =~= "\n"@ + "regions stored: "@);
    assert("\ncollect shas: "@ =~= "\n"@ + "collect shas: "@);
    lemma_holds(e, a + "\n"@, b + "\ncollect shas: "@ + j);
    assert(e + (a + "\n"@) + (b + "\ncollect shas: "@ + j) =~= t);
    lemma_holds(a + "\n"@, b + "\n"@, "collect shas: "@ + j);
    assert(a + "\n"@ + (b + "\n"@) + ("collect shas: "@ + j) =~= t);
    assert(list.to_set().contains(sha));
    let i = choose|i: int| 0 <= i < list.len() && list[i] == sha;
    lemma_joined_holds(list, ", "@, i);
    let head = a + "\nregions stored: "@ + text::decimal(regions) + "\ncollect shas: "@;
    lemma_holds_within(head, j, e, sha);
    assert(head + j + e =~= t);
}

/// The number of tests that a run starts is said, and that it runs all where it is not told which.
pub proof fn law_number_of_tests_is_said(n: usize)
    ensures
        holds(narration::running_text(Some(n)), " "@ + text::decimal(n as nat) + " tests"@),
        holds(narration::running_text(None), "all tests"@),
{
    reveal_strlit("running ");
    reveal_strlit("running");
    reveal_strlit(" ");
    reveal_strlit(" tests with nextest");
    reveal_strlit(" tests");
    reveal_strlit(" with nextest");
    reveal_strlit("running all tests with nextest");
    reveal_strlit("all tests");
    let d = text::decimal(n as nat);
    assert("running "@ =~= "running"@ + " "@);
    assert(" tests with nextest"@ =~= " tests"@ + " with nextest"@);
    lemma_holds("running"@, " "@ + d + " tests"@, " with nextest"@);
    assert("running"@ + (" "@ + d + " tests"@) + " with nextest"@ =~= narration::running_text(Some(n)));
    lemma_holds("running "@, "all tests"@, " with nextest"@);
    assert("running "@ + "all tests"@ + " with nextest"@ =~= narration::running_text(None));
}

/// The database is named with the time of the last collection, or that there was none.
pub proof fn law_last_collection_is_said(path: Seq<char>, last: Option<Seq<char>>)
    ensures
        holds(narration::database_text(path, last), path),
        last is Some ==> holds(narration::database_text(path, last), last->0),
        last is None ==> holds(narration::database_text(path, last), "never"@),
{
    let l = match last {
        Some(t) => t,
        None => "never"@,
    };
    let e = Seq::<char>::empty();
    let head = "coverage database: "@;
    let mid = "\nlast collected: "@;
    lemma_holds(head, path, mid + l);
    assert(head + path + (mid + l) =~= narration::database_text(path, last));
    lemma_holds(head + path + mid, l, e);
    assert(head + path + mid + l + e =~= narration::database_text(path, last));
}

} // verus!

//! What `run` says of what it does, and `status` of what `run` would do.

use vstd::prelude::*;
use crate::db::{TestId, TestIdView};
use crate::ordered::{Key, OrdSet};
use crate::plan::{CacheMiss, CacheState, Plan};
use crate::report::{fingerprint_miss_clause, summary_line, CacheStatus};
use crate::selection::{format_summary, missing_shas_notice, Reachability};
use crate::text::{count_text, join_texts, number_text};

verus! {

/// The command that speaks.
#[derive(Debug, Clone, Copy, PartialEq, Eq, Structural)]
pub enum Command {
    Run,
    Status,
}

/// The name of a command.
pub open spec fn command_name(c: Command) -> Seq<char> {
    match c {
        Command::Run => "run"@,
        Command::Status => "status"@,
    }
}

/// What becomes of tests whose coverage is anchored at missing commits only. `selects` says whether
/// anything can be selected: if not, the dry run does not promise a group that there will not be.
pub open spec fn stranded_phrase(c: Command, selects: bool) -> Seq<char> {
    match (c, selects) {
        (Command::Run, _) => "will rerun as 'stranded'"@,
        (Command::Status, true) => "would rerun as 'stranded'"@,
        (Command::Status, false) => "would rerun as part of the full suite"@,
    }
}

impl Command {
    /// The name of the command.
    pub fn name(self) -> (r: &'static str)
        ensures
            r@ == command_name(self),
    {
        match self {
            Command::Run => "run",
            Command::Status => "status",
        }
    }

    /// What becomes of tests whose coverage is anchored at missing commits only.
    fn stranded(self, selects: bool) -> (r: &'static str)
        ensures
            r@ == stranded_phrase(self, selects),
    {
        match self {
            Command::Run => "will rerun as 'stranded'",
            Command::Status => if selects {
                "would rerun as 'stranded'"
            } else {
                "would rerun as part of the full suite"
            },
        }
    }
}

/// What is said of missing commits; nothing if there are none.
pub open spec fn missing_text(c: Command, missing: Set<Seq<char>>, reachable: Set<Seq<char>>) -> Option<Seq<char>> {
    if missing.len() == 0 {
        None
    } else {
        Some(crate::selection::missing_notice(missing, stranded_phrase(c, reachable.len() > 0)))
    }
}

/// What is said of missing commits; nothing if there are none.
pub fn missing_line(c: Command, reach: &Reachability) -> (r: Option<String>)
    ensures
        r.deep_view() == missing_text(c, reach.missing@, reach.reachable@),
{
    if reach.missing.len() == 0 {
        None
    } else {
        Some(missing_shas_notice(&reach.missing, c.stranded(reach.reachable.len() > 0)))
    }
}

/// How many rows are anchored at missing commits.
pub open spec fn stale_text(rows: nat, missing: nat) -> Seq<char> {
    "stale rows: "@ + crate::text::decimal(rows) + " (anchored at missing sha"@ + (if missing == 1 {
        ""@
    } else {
        "s"@
    }) + ")"@
}

/// How many rows are anchored at missing commits.
pub fn stale_line(rows: usize, missing: &OrdSet<String>) -> (r: String)
    ensures
        r@ == stale_text(rows as nat, missing@.len()),
{
    let plural = if missing.len() == 1 {
        ""
    } else {
        "s"
    };
    String::from_str("stale rows: ").concat(count_text(rows).as_str()).concat(" (anchored at missing sha").concat(
        plural,
    ).concat(")")
}

/// Why nothing is selected, and that every test runs.
pub open spec fn miss_text(c: Command, miss: CacheMiss) -> Seq<char> {
    match (c, miss) {
        (Command::Run, CacheMiss::NoCoverage) =>
            "note: no coverage data yet — running all tests; run `cargo affected collect` to enable selection"@,
        (Command::Run, CacheMiss::Fingerprint { differing }) => "note: no coverage data for the current environment"@
            + crate::report::miss_clause(differing.deep_view())
            + " — running all tests; run `cargo affected collect` to refresh"@,
        (Command::Run, CacheMiss::NoReachableSha(_)) =>
            "note: no reachable collect_sha for the current environment — running all tests; run `cargo affected collect` to re-anchor"@,
        (Command::Status, CacheMiss::NoCoverage) =>
            "no coverage data yet — would run all tests; run `cargo affected collect` to enable selection"@,
        (Command::Status, CacheMiss::Fingerprint { differing }) => "no coverage data for the current environment"@
            + crate::report::miss_clause(differing.deep_view())
            + " — would run all tests; run `cargo affected collect` to enable selection"@,
        (Command::Status, CacheMiss::NoReachableSha(_)) =>
            "note: no reachable collect_sha for the current environment — would run all tests; run `cargo affected collect` to re-anchor"@,
    }
}

/// Why nothing is selected, and that every test runs.
pub fn miss_line(c: Command, miss: &CacheMiss) -> (r: String)
    ensures
        r@ == miss_text(c, *miss),
{
    match c {
        Command::Run => match miss {
            CacheMiss::NoCoverage => String::from_str(
                "note: no coverage data yet — running all tests; run `cargo affected collect` to enable selection",
            ),
            CacheMiss::Fingerprint { differing } => String::from_str(
                "note: no coverage data for the current environment",
            ).concat(fingerprint_miss_clause(differing).as_str()).concat(
                " — running all tests; run `cargo affected collect` to refresh",
            ),
            CacheMiss::NoReachableSha(_) => String::from_str(
                "note: no reachable collect_sha for the current environment — running all tests; run `cargo affected collect` to re-anchor",
            ),
        },
        Command::Status => match miss {
            CacheMiss::NoCoverage => String::from_str(
                "no coverage data yet — would run all tests; run `cargo affected collect` to enable selection",
            ),
            CacheMiss::Fingerprint { differing } => String::from_str(
                "no coverage data for the current environment",
            ).concat(fingerprint_miss_clause(differing).as_str()).concat(
                " — would run all tests; run `cargo affected collect` to enable selection",
            ),
            CacheMiss::NoReachableSha(_) => String::from_str(
                "note: no reachable collect_sha for the current environment — would run all tests; run `cargo affected collect` to re-anchor",
            ),
        },
    }
}

/// What is said of commits since the collection; nothing if there are none.
pub open spec fn ahead_text(commits: u32) -> Option<Seq<char>> {
    if commits == 0 {
        None
    } else {
        Some(
            "note: "@ + crate::text::decimal(commits as nat)
                + " commit(s) since collect — diff vs collect_sha is noisier than necessary; run `cargo affected collect` to refresh"@,
        )
    }
}

/// What is said of commits since the collection; nothing if there are none.
pub fn ahead_line(commits: u32) -> (r: Option<String>)
    ensures
        r.deep_view() == ahead_text(commits),
{
    if commits == 0 {
        None
    } else {
        Some(
            String::from_str("note: ").concat(number_text(commits as u64).as_str()).concat(
                " commit(s) since collect — diff vs collect_sha is noisier than necessary; run `cargo affected collect` to refresh",
            ),
        )
    }
}

/// The head of the list of changed files.
pub open spec fn changed_head(c: Command, count: nat) -> Seq<char> {
    match c {
        Command::Run => crate::text::decimal(count) + " changed files:"@,
        Command::Status => "changed files ("@ + crate::text::decimal(count) + "):"@,
    }
}

/// One line for each file.
pub open spec fn file_lines(files: Seq<Seq<char>>) -> Seq<char>
    decreases files.len(),
{
    if files.len() == 0 {
        ""@
    } else {
        file_lines(files.drop_last()) + "\n  "@ + files.last()
    }
}

/// The list of changed files; nothing if there are none.
pub open spec fn changed_text(c: Command, files: Set<Seq<char>>) -> Option<Seq<char>> {
    if files.len() == 0 {
        None
    } else {
        Some(changed_head(c, files.len()) + file_lines(crate::ordered::in_order::<String>(files)))
    }
}

/// The list of changed files; nothing if there are none.
pub fn changed_lines(c: Command, files: &OrdSet<String>) -> (r: Option<String>)
    ensures
        r.deep_view() == changed_text(c, files@),
{
    let count = files.len();
    if count == 0 {
        return None;
    }
    let head = match c {
        Command::Run => count_text(count).concat(" changed files:"),
        Command::Status => String::from_str("changed files (").concat(count_text(count).as_str()).concat("):"),
    };
    let items = files.items();
    let ghost d = files.elems();
    proof {
        crate::ordered::lemma_in_order::<String>(d);
    }
    let mut text = String::from_str("");
    let mut i: usize = 0;
    assert(d.take(0) =~= Seq::<Seq<char>>::empty());
    while i < items.len()
        invariant
            i <= items.len(),
            d == items.deep_view(),
            text@ == file_lines(d.take(i as int)),
        decreases items.len() - i,
    {
        assert(d[i as int] == items@[i as int]@);
        assert(d.take(i + 1).drop_last() =~= d.take(i as int));
        text = text.concat("\n  ").concat(items[i].as_str());
        i += 1;
    }
    assert(d.take(i as int) =~= d);
    Some(head.concat(text.as_str()))
}

/// What is said of an empty selection: whether nothing has changed since the last collection, or
/// nothing covers what has.
pub open spec fn nothing_text(c: Command, changed: bool) -> Seq<char> {
    match (c, changed) {
        (Command::Run, false) => "no changes since the last collect and no new tests — nothing to run"@,
        (Command::Status, false) => "no changes since the last collect and no new tests — nothing would run"@,
        (Command::Run, true) =>
            "no tests cover the changed lines and no new tests (run `cargo affected collect` to update)"@,
        (Command::Status, true) => "no tests cover the changed lines and no new tests"@,
    }
}

/// What is said of an empty selection. `changed` says whether anything has changed since the last
/// collection.
pub fn nothing_line(c: Command, changed: bool) -> (r: &'static str)
    ensures
        r@ == nothing_text(c, changed),
{
    match c {
        Command::Run => if changed {
            "no tests cover the changed lines and no new tests (run `cargo affected collect` to update)"
        } else {
            "no changes since the last collect and no new tests — nothing to run"
        },
        Command::Status => if changed {
            "no tests cover the changed lines and no new tests"
        } else {
            "no changes since the last collect and no new tests — nothing would run"
        },
    }
}

/// The database and when coverage was collected last.
pub open spec fn database_text(path: Seq<char>, last_collected: Option<Seq<char>>) -> Seq<char> {
    "coverage database: "@ + path + "\nlast collected: "@ + (match last_collected {
        Some(t) => t,
        None => "never"@,
    })
}

/// The database and when coverage was collected last.
pub fn database_lines(path: &str, last_collected: &Option<String>) -> (r: String)
    ensures
        r@ == database_text(path@, last_collected.deep_view()),
{
    let when = match last_collected {
        Some(t) => t.as_str(),
        None => "never",
    };
    String::from_str("coverage database: ").concat(path).concat("\nlast collected: ").concat(when)
}

/// How much is stored for this environment, and at which commits.
pub open spec fn inventory_text(tests: nat, regions: nat, shas: Set<Seq<char>>) -> Seq<char> {
    "tests tracked: "@ + crate::text::decimal(tests) + "\nregions stored: "@ + crate::text::decimal(regions)
        + "\ncollect shas: "@ + crate::text::joined(crate::ordered::in_order::<String>(shas), ", "@)
}

/// How much is stored for this environment, and at which commits.
pub fn inventory_lines(tests: usize, regions: usize, shas: &OrdSet<String>) -> (r: String)
    ensures
        r@ == inventory_text(tests as nat, regions as nat, shas@),
{
    let list = join_texts(shas.items(), ", ");
    proof {
        crate::ordered::lemma_in_order::<String>(shas.elems());
    }
    String::from_str("tests tracked: ").concat(count_text(tests).as_str()).concat("\nregions stored: ").concat(
        count_text(regions).as_str(),
    ).concat("\ncollect shas: ").concat(list.as_str())
}

/// What a run starts: the given number of tests, or all.
pub open spec fn running_text(tests: Option<usize>) -> Seq<char> {
    match tests {
        Some(n) => "running "@ + crate::text::decimal(n as nat) + " tests with nextest"@,
        None => "running all tests with nextest"@,
    }
}

/// What a run starts: the given number of tests, or all.
pub fn running_line(tests: Option<usize>) -> (r: String)
    ensures
        r@ == running_text(tests),
{
    match tests {
        Some(n) => String::from_str("running ").concat(count_text(n).as_str()).concat(" tests with nextest"),
        None => String::from_str("running all tests with nextest"),
    }
}

/// The arguments of a run: a configuration file that names the selected tests, if any, and the
/// arguments of the caller as they are.
pub open spec fn run_args(config: Option<Seq<char>>, args: Seq<Seq<char>>) -> Seq<Seq<char>> {
    seq!["nextest"@, "run"@] + (match config {
        Some(path) => seq!["--config-file"@, path],
        None => Seq::empty(),
    }) + args
}

/// The arguments of a run. Nothing is added to what the caller asks of nextest, so its own rules
/// decide when a run stops.
pub fn nextest_run_args(config: Option<&str>, nextest_args: &Vec<String>) -> (r: Vec<String>)
    ensures
        r.deep_view() == run_args(
            match config {
                Some(path) => Some(path@),
                None => None,
            },
            nextest_args.deep_view(),
        ),
{
    let ghost d = nextest_args.deep_view();
    let mut out: Vec<String> = Vec::new();
    out.push(String::from_str("nextest"));
    out.push(String::from_str("run"));
    assert(out.deep_view() =~= seq!["nextest"@, "run"@]);
    match config {
        Some(path) => {
            out.push(String::from_str("--config-file"));
            out.push(path.to_owned());
            assert(out.deep_view() =~= seq!["nextest"@, "run"@] + seq!["--config-file"@, path@]);
        },
        None => {
            assert(out.deep_view() =~= seq!["nextest"@, "run"@] + Seq::<Seq<char>>::empty());
        },
    }
    let ghost start = out.deep_view();
    let mut i: usize = 0;
    assert(out.deep_view() =~= start + d.take(0));
    while i < nextest_args.len()
        invariant
            i <= nextest_args.len(),
            d == nextest_args.deep_view(),
            out.deep_view() == start + d.take(i as int),
        decreases nextest_args.len() - i,
    {
        let ghost before = out.deep_view();
        assert(d[i as int] == nextest_args@[i as int]@);
        out.push(nextest_args[i].clone());
        assert(out.deep_view() =~= before.push(d[i as int]));
        assert(start + d.take(i + 1) =~= (start + d.take(i as int)).push(d[i as int]));
        i += 1;
    }
    assert(d.take(i as int) =~= d);
    out
}

/// The exit code that a run passes on: that of nextest, and a failure if a signal ended it.
pub fn exit_code(code: Option<i32>) -> (r: i32)
    ensures
        r == (match code {
            Some(c) => c,
            None => 1,
        }),
{
    match code {
        Some(c) => c,
        None => 1,
    }
}

/// A note of a command: `status` sets it off by an empty line.
pub open spec fn set_off(c: Command, text: Seq<char>) -> Seq<char> {
    match c {
        Command::Run => text,
        Command::Status => "\n"@ + text,
    }
}

/// A note of a command.
fn set_off_line(c: Command, text: String) -> (r: String)
    ensures
        r@ == set_off(c, text@),
{
    match c {
        Command::Run => text,
        Command::Status => String::from_str("\n").concat(text.as_str()),
    }
}

/// What is said of missing commits once the cache was looked at. `status` adds how many rows are
/// anchored there.
pub open spec fn missing_notes(c: Command, state: CacheState, stale_rows: nat) -> Seq<Seq<char>> {
    match state.reach() {
        Some(reach) => match missing_text(c, reach.missing@, reach.reachable@) {
            Some(t) => seq![
                match c {
                    Command::Run => t,
                    Command::Status => "\n"@ + t + "\n"@ + stale_text(stale_rows, reach.missing@.len()),
                },
            ],
            None => Seq::empty(),
        },
        None => Seq::empty(),
    }
}

/// What is said of the cache itself: why everything runs, or how far `HEAD` has moved.
pub open spec fn state_notes(c: Command, state: CacheState) -> Seq<Seq<char>> {
    match state {
        CacheState::Usable(reach) => match ahead_text(reach.max_commits_ahead) {
            Some(t) => seq![set_off(c, t)],
            None => Seq::empty(),
        },
        CacheState::Miss(miss) => seq![
            match miss {
                CacheMiss::NoReachableSha(_) => set_off(c, miss_text(c, miss)),
                _ => miss_text(c, miss),
            },
        ],
    }
}

/// What a command says once the cache was looked at, and whether it runs everything.
#[derive(Debug, PartialEq, Eq)]
pub struct Opening {
    /// What is said, line by line.
    pub said: Vec<String>,
    /// Where nothing can be selected: the report's name for it, and the line that sums the command
    /// up.
    pub full_suite: Option<(CacheStatus, String)>,
}

/// The commits that are missing where nothing can be selected.
pub open spec fn missing_count(miss: CacheMiss) -> nat {
    match miss {
        CacheMiss::NoReachableSha(reach) => reach.missing@.len(),
        _ => 0,
    }
}

impl Opening {
    /// Whether everything is run exactly where the cache is of no use, with the line for it.
    pub open spec fn suits(self, state: CacheState) -> bool {
        match (state, self.full_suite) {
            (CacheState::Usable(_), None) => true,
            (CacheState::Miss(miss), Some((status, line))) => {
                &&& status == crate::plan::miss_status(miss)
                &&& line@ == crate::report::summary_text(status, None, missing_count(miss) as usize, 0)
            },
            _ => false,
        }
    }
}

/// Decides whether a selection can be computed, and says what there is to say of the cache. Where
/// none can, every test runs.
pub fn opening(c: Command, state: &CacheState, stale_rows: usize) -> (r: Opening)
    ensures
        r.said.deep_view() == missing_notes(c, *state, stale_rows as nat) + state_notes(c, *state),
        r.suits(*state),
{
    let mut said: Vec<String> = Vec::new();
    match state.reachability() {
        Some(reach) => match missing_line(c, reach) {
            Some(t) => {
                let line = match c {
                    Command::Run => t,
                    Command::Status => String::from_str("\n").concat(t.as_str()).concat("\n").concat(
                        stale_line(stale_rows, &reach.missing).as_str(),
                    ),
                };
                said.push(line);
            },
            None => {},
        },
        None => {},
    }
    assert(said.deep_view() =~= missing_notes(c, *state, stale_rows as nat));
    let ghost first = said.deep_view();
    let full_suite = match state {
        CacheState::Usable(reach) => {
            match ahead_line(reach.max_commits_ahead) {
                Some(t) => {
                    said.push(set_off_line(c, t));
                },
                None => {},
            }
            None
        },
        CacheState::Miss(miss) => {
            let text = miss_line(c, miss);
            let (line, missing): (String, usize) = match miss {
                CacheMiss::NoReachableSha(reach) => (set_off_line(c, text), reach.missing.len()),
                CacheMiss::NoCoverage => (text, 0),
                CacheMiss::Fingerprint { .. } => (text, 0),
            };
            said.push(line);
            let status = miss.status();
            Some((status, summary_line(status, None, missing, 0)))
        },
    };
    assert(said.deep_view() =~= first + state_notes(c, *state));
    Opening { said, full_suite }
}

/// What a command ends with once a selection was computed.
#[derive(Debug, PartialEq, Eq)]
pub struct Ending {
    /// The line that sums the command up.
    pub summary: String,
    /// What is said of the selection.
    pub said: String,
    /// The tests that are run: the selected ones, if there are any and the command runs them.
    pub tests: Option<Vec<TestId>>,
}

/// What is said of a selection.
pub open spec fn selection_text(c: Command, plan: Plan, verbose: bool) -> Seq<char> {
    if plan.selection.selected_set() == Set::<TestIdView>::empty() {
        set_off(c, nothing_text(c, plan.changed_since_newest))
    } else {
        match c {
            Command::Run => "\n"@ + crate::selection::summary_of(plan.selection, "to run"@, verbose) + "\n"@,
            Command::Status => "\n"@ + crate::selection::summary_of(plan.selection, "would run"@, verbose),
        }
    }
}

/// The tests that a command runs.
pub open spec fn tests_run(c: Command, plan: Plan) -> Option<Seq<TestIdView>> {
    if c == Command::Run && plan.selection.selected_set() != Set::<TestIdView>::empty() {
        Some(crate::ordered::in_order::<TestId>(plan.selection.selected_set()))
    } else {
        None
    }
}

/// Decides what is run of a selection, and says what there is to say of it.
pub fn ending(c: Command, plan: &Plan, reach: &Reachability, verbose: bool) -> (r: Ending)
    ensures
        r.summary@ == crate::report::summary_text(
            plan.status,
            Some((plan.selection.selected_set().len() as usize, plan.selection.reachable_known_count)),
            reach.missing@.len() as usize,
            reach.max_commits_ahead,
        ),
        r.said@ == selection_text(c, *plan, verbose),
        r.tests.deep_view() == tests_run(c, *plan),
{
    let selected = plan.selection.selected();
    let summary = summary_line(
        plan.status,
        Some((selected.len(), plan.selection.reachable_known_count)),
        reach.missing.len(),
        reach.max_commits_ahead,
    );
    if selected.is_empty() {
        let said = set_off_line(c, nothing_line(c, plan.changed_since_newest).to_owned());
        return Ending { summary, said, tests: None };
    }
    match c {
        Command::Run => {
            let said = String::from_str("\n").concat(
                format_summary(&plan.selection, "to run", verbose).as_str(),
            ).concat("\n");
            let tests = selected.items();
            proof {
                crate::ordered::lemma_in_order::<TestId>(selected.elems());
            }
            Ending { summary, said, tests: Some(tests.duplicate()) }
        },
        Command::Status => {
            let said = String::from_str("\n").concat(
                format_summary(&plan.selection, "would run", verbose).as_str(),
            );
            Ending { summary, said, tests: None }
        },
    }
}

/// `status` predicts `run`: for one plan both say that nothing runs, with the same reason (`run` adds
/// what to do about it), or both speak of the selected tests, and those are exactly what `run` runs.
pub proof fn law_status_predicts_run(plan: Plan, verbose: bool)
    ensures
        tests_run(Command::Status, plan) is None,
        match tests_run(Command::Run, plan) {
            Some(tests) => {
                &&& tests == crate::ordered::in_order::<TestId>(plan.selection.selected_set())
                &&& selection_text(Command::Status, plan, verbose) == "\n"@ + crate::selection::summary_of(
                    plan.selection,
                    "would run"@,
                    verbose,
                )
            },
            None => selection_text(Command::Status, plan, verbose) == "\n"@ + nothing_text(
                Command::Status,
                plan.changed_since_newest,
            ),
        },
        nothing_text(Command::Status, true).is_prefix_of(nothing_text(Command::Run, true)),
{
    reveal_strlit("no tests cover the changed lines and no new tests (run `cargo affected collect` to update)");
    reveal_strlit("no tests cover the changed lines and no new tests");
}

/// `status` predicts `run`: for one state of the cache either both run everything, with the same
/// line to sum it up, or neither does.
pub proof fn law_status_sees_the_same_cache(a: Opening, b: Opening, state: CacheState)
    requires
        a.suits(state),
        b.suits(state),
    ensures
        a.full_suite is Some <==> b.full_suite is Some,
        a.full_suite matches Some((s, l)) ==> b.full_suite matches Some((t, m)) && s == t && l@ == m@,
{
}

} // verus!

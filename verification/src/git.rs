//! What git says: which files and lines have changed, and how stored commits relate to `HEAD`.
//!
//! A git failure is never "nothing changed": every query hands a failed run on as an error,
//! since an empty change set would select no tests and look like a clean tree.

use vstd::prelude::*;
use crate::diff::{lossy_text, parse_unified_diff, DiffError, LineRange};
use crate::diff::DiffErrorView;
use crate::ordered::{OrdMap, OrdSet};
use crate::process::{ProcessOutput, ProcessOutputView};
use crate::text::{ends_with, join_texts, number_text, parse_u32, same_text, split_bytes, trim_text, why_no_u32};

verus! {

/// A question to git.
#[derive(Debug, PartialEq, Eq)]
pub enum GitQuery {
    /// Files with unstaged changes.
    Unstaged,
    /// Files with staged changes.
    Staged,
    /// Files that git does not track and does not ignore.
    Untracked,
    /// Everything that differs from `HEAD`.
    Status,
    /// The commit at `HEAD`.
    Head,
    /// Whether a commit is in the repository.
    Exists(String),
    /// How many commits of `HEAD` are not in a commit.
    CommitsAhead(String),
    /// The hunks between a commit and the working tree.
    Hunks(String),
    /// The files added between a commit and the working tree.
    Added(String),
}

/// The value of a [`GitQuery`].
#[verifier::ext_equal]
pub enum GitQueryView {
    Unstaged,
    Staged,
    Untracked,
    Status,
    Head,
    Exists(Seq<char>),
    CommitsAhead(Seq<char>),
    Hunks(Seq<char>),
    Added(Seq<char>),
}

impl View for GitQuery {
    type V = GitQueryView;

    open spec fn view(&self) -> GitQueryView {
        match self {
            GitQuery::Unstaged => GitQueryView::Unstaged,
            GitQuery::Staged => GitQueryView::Staged,
            GitQuery::Untracked => GitQueryView::Untracked,
            GitQuery::Status => GitQueryView::Status,
            GitQuery::Head => GitQueryView::Head,
            GitQuery::Exists(sha) => GitQueryView::Exists(sha@),
            GitQuery::CommitsAhead(sha) => GitQueryView::CommitsAhead(sha@),
            GitQuery::Hunks(sha) => GitQueryView::Hunks(sha@),
            GitQuery::Added(sha) => GitQueryView::Added(sha@),
        }
    }
}

/// The arguments that ask git a question. File names come back verbatim and NUL-terminated
/// (`-z`), and hunks with the standard prefixes and unquoted non-ASCII paths.
pub open spec fn query_args(q: GitQueryView) -> Seq<Seq<char>> {
    match q {
        GitQueryView::Unstaged => seq!["diff"@, "--no-color"@, "--no-ext-diff"@, "--name-only"@, "-z"@],
        GitQueryView::Staged => seq![
            "diff"@,
            "--no-color"@,
            "--no-ext-diff"@,
            "--name-only"@,
            "--cached"@,
            "-z"@,
        ],
        GitQueryView::Untracked => seq!["ls-files"@, "-z"@, "--others"@, "--exclude-standard"@],
        GitQueryView::Status => seq!["status"@, "--porcelain=v1"@, "-z"@],
        GitQueryView::Head => seq!["rev-parse"@, "HEAD"@],
        GitQueryView::Exists(sha) => seq!["cat-file"@, "-e"@, sha + "^{commit}"@],
        GitQueryView::CommitsAhead(sha) => seq!["rev-list"@, "--count"@, sha + "..HEAD"@],
        GitQueryView::Hunks(sha) => seq![
            "-c"@,
            "core.quotePath=false"@,
            "diff"@,
            "-U0"@,
            "--no-color"@,
            "--no-ext-diff"@,
            "--no-renames"@,
            "--src-prefix=a/"@,
            "--dst-prefix=b/"@,
            sha,
        ],
        GitQueryView::Added(sha) => seq![
            "diff"@,
            "--name-only"@,
            "--no-color"@,
            "--no-renames"@,
            "--diff-filter=A"@,
            "-z"@,
            sha,
        ],
    }
}

/// How a question is called in messages.
pub open spec fn query_name(q: GitQueryView) -> Seq<char> {
    match q {
        GitQueryView::Hunks(sha) => "diff -U0 "@ + sha,
        _ => crate::text::joined(query_args(q), " "@),
    }
}

/// `v` with one text more.
fn with_text(v: Vec<String>, s: &str) -> (r: Vec<String>)
    ensures
        r.deep_view() == v.deep_view().push(s@),
{
    let ghost before = v.deep_view();
    let mut v = v;
    v.push(s.to_owned());
    assert(v.deep_view() =~= before.push(s@));
    v
}

/// A list of one text.
fn one_text(s: &str) -> (r: Vec<String>)
    ensures
        r.deep_view() == seq![s@],
{
    let v: Vec<String> = Vec::new();
    assert(v.deep_view() =~= Seq::<Seq<char>>::empty());
    let r = with_text(v, s);
    assert(r.deep_view() =~= seq![s@]);
    r
}

impl GitQuery {
    /// The arguments that ask git the question.
    pub fn args(&self) -> (r: Vec<String>)
        ensures
            r.deep_view() == query_args(self@),
    {
        let r = match self {
            GitQuery::Unstaged => with_text(
                with_text(with_text(with_text(one_text("diff"), "--no-color"), "--no-ext-diff"), "--name-only"),
                "-z",
            ),
            GitQuery::Staged => with_text(
                with_text(
                    with_text(with_text(with_text(one_text("diff"), "--no-color"), "--no-ext-diff"), "--name-only"),
                    "--cached",
                ),
                "-z",
            ),
            GitQuery::Untracked => with_text(
                with_text(with_text(one_text("ls-files"), "-z"), "--others"),
                "--exclude-standard",
            ),
            GitQuery::Status => with_text(with_text(one_text("status"), "--porcelain=v1"), "-z"),
            GitQuery::Head => with_text(one_text("rev-parse"), "HEAD"),
            GitQuery::Exists(sha) => with_text(
                with_text(one_text("cat-file"), "-e"),
                sha.clone().concat("^{commit}").as_str(),
            ),
            GitQuery::CommitsAhead(sha) => with_text(
                with_text(one_text("rev-list"), "--count"),
                sha.clone().concat("..HEAD").as_str(),
            ),
            GitQuery::Hunks(sha) => {
                let v = with_text(with_text(with_text(one_text("-c"), "core.quotePath=false"), "diff"), "-U0");
                let v = with_text(with_text(with_text(v, "--no-color"), "--no-ext-diff"), "--no-renames");
                with_text(with_text(with_text(v, "--src-prefix=a/"), "--dst-prefix=b/"), sha.as_str())
            },
            GitQuery::Added(sha) => {
                let v = with_text(with_text(with_text(one_text("diff"), "--name-only"), "--no-color"), "--no-renames");
                with_text(with_text(with_text(v, "--diff-filter=A"), "-z"), sha.as_str())
            },
        };
        assert(r.deep_view() =~= query_args(self@));
        r
    }

    /// How the question is called in messages.
    pub fn name(&self) -> (r: String)
        ensures
            r@ == query_name(self@),
    {
        match self {
            GitQuery::Hunks(sha) => String::from_str("diff -U0 ").concat(sha.as_str()),
            _ => join_texts(&self.args(), " "),
        }
    }
}

/// Why a question to git has no answer.
#[derive(Debug, PartialEq, Eq)]
pub enum GitError {
    /// Git failed: the question, the exit code and what git said.
    Failed(String, Option<i32>, String),
    /// `HEAD` could not be read.
    NoHead,
    /// `HEAD` is blank.
    BlankHead,
    /// The count of commits could not be read.
    NoCount,
    /// The count of commits is no number.
    BadCount(String),
    /// The hunks could not be read.
    BadDiff(DiffError),
}

/// The value of a [`GitError`].
#[verifier::ext_equal]
pub enum GitErrorView {
    Failed(Seq<char>, Option<i32>, Seq<char>),
    NoHead,
    BlankHead,
    NoCount,
    BadCount(Seq<char>),
    BadDiff(DiffErrorView),
}

impl View for GitError {
    type V = GitErrorView;

    open spec fn view(&self) -> GitErrorView {
        match self {
            GitError::Failed(name, code, said) => GitErrorView::Failed(name@, *code, said@),
            GitError::NoHead => GitErrorView::NoHead,
            GitError::BlankHead => GitErrorView::BlankHead,
            GitError::NoCount => GitErrorView::NoCount,
            GitError::BadCount(e) => GitErrorView::BadCount(e@),
            GitError::BadDiff(e) => GitErrorView::BadDiff(e@),
        }
    }
}

/// An exit code as text.
pub open spec fn code_name(code: Option<i32>) -> Seq<char> {
    match code {
        Some(c) => if c < 0 {
            "-"@ + crate::text::decimal((-c) as nat)
        } else {
            crate::text::decimal(c as nat)
        },
        None => "signal"@,
    }
}

/// An exit code as text.
pub fn code_text(code: Option<i32>) -> (r: String)
    ensures
        r@ == code_name(code),
{
    match code {
        Some(c) => {
            let n: i64 = c as i64;
            if n < 0 {
                String::from_str("-").concat(number_text((0 - n) as u64).as_str())
            } else {
                number_text(n as u64)
            }
        },
        None => String::from_str("signal"),
    }
}

/// The message of a [`GitError`].
pub open spec fn git_message(e: GitErrorView) -> Seq<char> {
    match e {
        GitErrorView::Failed(name, code, said) => "git "@ + name + " failed (exit "@ + code_name(code) + "): "@ + said,
        GitErrorView::NoHead => "git rev-parse HEAD returned no output"@,
        GitErrorView::BlankHead => "git rev-parse HEAD returned an empty sha"@,
        GitErrorView::NoCount => "git rev-list --count returned no output"@,
        GitErrorView::BadCount(m) => "git rev-list --count returned non-numeric output: "@ + m,
        GitErrorView::BadDiff(e) => crate::diff::diff_message(e),
    }
}

impl GitError {
    /// The message for the user.
    pub fn message(&self) -> (r: String)
        ensures
            r@ == git_message(self@),
    {
        match self {
            GitError::Failed(name, code, said) => String::from_str("git ").concat(name.as_str()).concat(
                " failed (exit ",
            ).concat(code_text(*code).as_str()).concat("): ").concat(said.as_str()),
            GitError::NoHead => String::from_str("git rev-parse HEAD returned no output"),
            GitError::BlankHead => String::from_str("git rev-parse HEAD returned an empty sha"),
            GitError::NoCount => String::from_str("git rev-list --count returned no output"),
            GitError::BadCount(m) => {
                String::from_str("git rev-list --count returned non-numeric output: ").concat(m.as_str())
            },
            GitError::BadDiff(e) => e.message(),
        }
    }
}

/// The NUL-separated entries of an output, without empty ones.
pub open spec fn entries_of(stdout: Seq<u8>) -> Seq<Seq<char>> {
    crate::text::pieces(stdout, 0u8).filter(|p: Seq<u8>| p.len() > 0).map_values(
        |p: Seq<u8>| crate::diff::readable_text(p),
    )
}

/// The failure that a run reports, if it failed.
pub open spec fn failure(q: GitQueryView, out: ProcessOutputView) -> Option<GitErrorView> {
    if out.code == Some(0i32) {
        None
    } else {
        Some(
            GitErrorView::Failed(
                query_name(q),
                out.code,
                crate::text::trimmed(crate::diff::readable_text(out.stderr)),
            ),
        )
    }
}

/// The failure that a run reports, if it failed.
fn check_run(q: &GitQuery, out: &ProcessOutput) -> (r: Option<GitError>)
    ensures
        match r {
            Some(e) => failure(q@, out@) == Some(e@),
            None => failure(q@, out@) is None,
        },
{
    match out.code {
        Some(c) if c == 0 => None,
        _ => Some(
            GitError::Failed(q.name(), out.code, trim_text(lossy_text(out.stderr.as_slice()).as_str())),
        ),
    }
}

/// The entries that a run printed.
pub fn run_git(q: &GitQuery, out: &ProcessOutput) -> (r: Result<Vec<String>, GitError>)
    ensures
        match r {
            Ok(v) => failure(q@, out@) is None && v.deep_view() == entries_of(out@.stdout),
            Err(e) => failure(q@, out@) == Some(e@),
        },
{
    match check_run(q, out) {
        Some(e) => {
            return Err(e);
        },
        None => {},
    }
    let all = split_bytes(out.stdout.as_slice(), 0);
    let ghost a = all.deep_view();
    let ghost p = |x: Seq<u8>| x.len() > 0;
    let ghost f = |x: Seq<u8>| crate::diff::readable_text(x);
    let mut v: Vec<String> = Vec::new();
    let mut i: usize = 0;
    assert(v.deep_view() =~= a.take(0).filter(p).map_values(f)) by {
        reveal(Seq::filter);
    }
    while i < all.len()
        invariant
            i <= all.len(),
            a == all.deep_view(),
            p == (|x: Seq<u8>| x.len() > 0),
            f == (|x: Seq<u8>| crate::diff::readable_text(x)),
            v.deep_view() == a.take(i as int).filter(p).map_values(f),
        decreases all.len() - i,
    {
        let ghost before = v.deep_view();
        let ghost t = a.take(i as int);
        proof {
            assert(all@[i as int].deep_view() =~= all@[i as int]@);
            assert(a[i as int] == all@[i as int]@);
            assert(a.take(i + 1) =~= t.push(a[i as int]));
            t.lemma_filter_push(a[i as int], p);
        }
        if all[i].len() > 0 {
            v.push(lossy_text(all[i].as_slice()));
            assert(v.deep_view() =~= before.push(f(a[i as int])));
            assert(t.filter(p).push(a[i as int]).map_values(f) =~= t.filter(p).map_values(f).push(f(a[i as int])));
        }
        i += 1;
    }
    assert(a.take(i as int) =~= a);
    Ok(v)
}

/// Whether a path is one of the entries of an output.
pub open spec fn lists(out: ProcessOutputView, path: Seq<char>) -> bool {
    entries_of(out.stdout).contains(path)
}

/// Whether a file has changed: it is staged, unstaged or untracked, and no stray profile.
pub open spec fn is_changed(
    unstaged: ProcessOutputView,
    staged: ProcessOutputView,
    untracked: ProcessOutputView,
    path: Seq<char>,
) -> bool {
    (lists(unstaged, path) || lists(staged, path) || lists(untracked, path)) && !".profraw"@.is_suffix_of(path)
}

/// The first failure of three runs.
pub open spec fn first_failure(
    unstaged: ProcessOutputView,
    staged: ProcessOutputView,
    untracked: ProcessOutputView,
) -> Option<GitErrorView> {
    match failure(GitQueryView::Unstaged, unstaged) {
        Some(e) => Some(e),
        None => match failure(GitQueryView::Staged, staged) {
            Some(e) => Some(e),
            None => failure(GitQueryView::Untracked, untracked),
        },
    }
}

/// Adds the entries that are no stray profiles.
fn add_changed(set: &mut OrdSet<String>, entries: &Vec<String>)
    ensures
        final(set)@ == old(set)@.union(entries.deep_view().to_set().filter(|p: Seq<char>| !".profraw"@.is_suffix_of(p))),
{
    let ghost d = entries.deep_view();
    let ghost q = |p: Seq<char>| !".profraw"@.is_suffix_of(p);
    let mut i: usize = 0;
    assert(set@ =~= old(set)@.union(d.take(0).to_set().filter(q)));
    while i < entries.len()
        invariant
            i <= entries.len(),
            d == entries.deep_view(),
            q == (|p: Seq<char>| !".profraw"@.is_suffix_of(p)),
            set@ == old(set)@.union(d.take(i as int).to_set().filter(q)),
        decreases entries.len() - i,
    {
        proof {
            assert(d[i as int] == entries@[i as int]@);
            assert(d.take(i + 1) =~= d.take(i as int).push(d[i as int]));
            d.take(i as int).lemma_push_to_set_commute(d[i as int]);
        }
        if !ends_with(entries[i].as_str(), ".profraw") {
            set.insert(entries[i].clone());
        }
        assert(set@ =~= old(set)@.union(d.take(i + 1).to_set().filter(q)));
        i += 1;
    }
    assert(d.take(i as int) =~= d);
}

/// Files changed in the working tree relative to `HEAD`: staged, unstaged and untracked, sorted
/// and without repetition. Stray profiles, which instrumented processes leave behind, are left
/// out.
pub fn git_changed_files(unstaged: &ProcessOutput, staged: &ProcessOutput, untracked: &ProcessOutput) -> (r: Result<
    OrdSet<String>,
    GitError,
>)
    ensures
        match r {
            Ok(files) => {
                &&& first_failure(unstaged@, staged@, untracked@) is None
                &&& forall|p: Seq<char>| #[trigger]
                    files@.contains(p) <==> is_changed(unstaged@, staged@, untracked@, p)
            },
            Err(e) => first_failure(unstaged@, staged@, untracked@) == Some(e@),
        },
{
    let a = match run_git(&GitQuery::Unstaged, unstaged) {
        Ok(v) => v,
        Err(e) => {
            return Err(e);
        },
    };
    let b = match run_git(&GitQuery::Staged, staged) {
        Ok(v) => v,
        Err(e) => {
            return Err(e);
        },
    };
    let c = match run_git(&GitQuery::Untracked, untracked) {
        Ok(v) => v,
        Err(e) => {
            return Err(e);
        },
    };
    let mut files: OrdSet<String> = OrdSet::new();
    add_changed(&mut files, &a);
    add_changed(&mut files, &b);
    add_changed(&mut files, &c);
    Ok(files)
}

/// Whether the working tree has uncommitted changes: staged, unstaged or untracked. Ignored
/// files do not count.
pub fn git_working_tree_dirty(status: &ProcessOutput) -> (r: Result<bool, GitError>)
    ensures
        match r {
            Ok(dirty) => failure(GitQueryView::Status, status@) is None && dirty == (entries_of(status@.stdout).len()
                > 0),
            Err(e) => failure(GitQueryView::Status, status@) == Some(e@),
        },
{
    match run_git(&GitQuery::Status, status) {
        Ok(v) => {
            assert(v.deep_view().len() == v.len());
            Ok(v.len() > 0)
        },
        Err(e) => Err(e),
    }
}

/// The commit at `HEAD` as git printed it.
pub open spec fn head_of(head: ProcessOutputView) -> Result<Seq<char>, GitErrorView> {
    match failure(GitQueryView::Head, head) {
        Some(e) => Err(e),
        None => {
            let entries = entries_of(head.stdout);
            if entries.len() == 0 {
                Err(GitErrorView::NoHead)
            } else if crate::text::trimmed(entries[0]).len() == 0 {
                Err(GitErrorView::BlankHead)
            } else {
                Ok(crate::text::trimmed(entries[0]))
            }
        },
    }
}

/// The commit at `HEAD`. A repository without one cannot anchor coverage.
pub fn git_head_sha(head: &ProcessOutput) -> (r: Result<String, GitError>)
    ensures
        match r {
            Ok(sha) => head_of(head@) == Ok::<Seq<char>, GitErrorView>(sha@),
            Err(e) => head_of(head@) == Err::<Seq<char>, GitErrorView>(e@),
        },
{
    match run_git(&GitQuery::Head, head) {
        Ok(v) => {
            if v.len() == 0 {
                return Err(GitError::NoHead);
            }
            assert(v.deep_view()[0] == v@[0]@);
            let sha = trim_text(v[0].as_str());
            if sha.as_str().is_empty() {
                return Err(GitError::BlankHead);
            }
            Ok(sha)
        },
        Err(e) => Err(e),
    }
}

/// How a stored commit relates to the current `HEAD`.
#[derive(Debug, Clone, Copy, PartialEq, Eq, Structural)]
pub enum ShaRelation {
    /// The same commit.
    Equal,
    /// The commit is in the repository. `commits_ahead` is the number of commits of `HEAD` that
    /// are not in it: zero for a sibling or a commit ahead of `HEAD`.
    Reachable { commits_ahead: u32 },
    /// The commit is not in the repository, so nothing can be compared with it.
    Missing,
}

impl View for ShaRelation {
    type V = ShaRelation;

    open spec fn view(&self) -> ShaRelation {
        *self
    }
}

impl DeepView for ShaRelation {
    type V = ShaRelation;

    open spec fn deep_view(&self) -> ShaRelation {
        *self
    }
}

/// What is left to ask before the relation of a commit to `HEAD` is known.
#[derive(Debug, Clone, Copy, PartialEq, Eq, Structural)]
pub enum RelationStep {
    /// Ask whether the commit is in the repository.
    AskExists,
    /// Ask how many commits of `HEAD` are not in it.
    AskCommitsAhead,
    Known(ShaRelation),
}

/// The count of commits that git printed.
pub open spec fn commits_ahead_of(sha: Seq<char>, out: ProcessOutputView) -> Result<u32, GitErrorView> {
    match failure(GitQueryView::CommitsAhead(sha), out) {
        Some(e) => Err(e),
        None => {
            let entries = entries_of(out.stdout);
            if entries.len() == 0 {
                Err(GitErrorView::NoCount)
            } else {
                let count = crate::text::trimmed(entries[0]);
                match crate::text::unsigned_value(count) {
                    Some(n) if n <= u32::MAX => Ok(n as u32),
                    _ => Err(GitErrorView::BadCount(crate::text::u32_error(count))),
                }
            }
        },
    }
}

/// What is known of a commit, or is left to ask, after the answers so far. A commit that is in
/// the repository is reachable whether or not it is an ancestor of `HEAD`: only one that is
/// absent is missing.
pub open spec fn relation_step(
    head: Seq<char>,
    sha: Seq<char>,
    exists_out: Option<ProcessOutputView>,
    ahead: Option<ProcessOutputView>,
) -> Result<RelationStep, GitErrorView> {
    if head == sha {
        Ok(RelationStep::Known(ShaRelation::Equal))
    } else {
        match exists_out {
            None => Ok(RelationStep::AskExists),
            Some(out) => if out.code != Some(0i32) {
                Ok(RelationStep::Known(ShaRelation::Missing))
            } else {
                match ahead {
                    None => Ok(RelationStep::AskCommitsAhead),
                    Some(out) => match commits_ahead_of(sha, out) {
                        Ok(n) => Ok(RelationStep::Known(ShaRelation::Reachable { commits_ahead: n })),
                        Err(e) => Err(e),
                    },
                }
            },
        }
    }
}

/// The view of an optional output.
pub open spec fn output_view(out: Option<&ProcessOutput>) -> Option<ProcessOutputView> {
    match out {
        Some(o) => Some(o@),
        None => None,
    }
}

/// Compares a commit with the current `HEAD`, from the answers so far.
pub fn relation_to_head(head: &str, sha: &str, exists_out: Option<&ProcessOutput>, ahead: Option<&ProcessOutput>) -> (r: Result<
    RelationStep,
    GitError,
>)
    ensures
        match r {
            Ok(step) => relation_step(head@, sha@, output_view(exists_out), output_view(ahead)) == Ok::<
                RelationStep,
                GitErrorView,
            >(step),
            Err(e) => relation_step(head@, sha@, output_view(exists_out), output_view(ahead)) == Err::<
                RelationStep,
                GitErrorView,
            >(e@),
        },
{
    if same_text(head, sha) {
        return Ok(RelationStep::Known(ShaRelation::Equal));
    }
    match exists_out {
        None => {
            return Ok(RelationStep::AskExists);
        },
        Some(out) => {
            let there = match out.code {
                Some(c) => c == 0,
                None => false,
            };
            if !there {
                return Ok(RelationStep::Known(ShaRelation::Missing));
            }
        },
    }
    match ahead {
        None => Ok(RelationStep::AskCommitsAhead),
        Some(out) => match run_git(&GitQuery::CommitsAhead(sha.to_owned()), out) {
            Ok(v) => {
                if v.len() == 0 {
                    return Err(GitError::NoCount);
                }
                assert(v.deep_view()[0] == v@[0]@);
                let count = trim_text(v[0].as_str());
                match parse_u32(count.as_str()) {
                    Some(n) => Ok(RelationStep::Known(ShaRelation::Reachable { commits_ahead: n })),
                    None => Err(GitError::BadCount(why_no_u32(count.as_str()))),
                }
            },
            Err(e) => Err(e),
        },
    }
}

/// The relation of a commit to `HEAD` is settled after at most two answers, and nothing but an
/// absent commit is missing.
pub proof fn law_relation_is_settled(
    head: Seq<char>,
    sha: Seq<char>,
    exists_out: ProcessOutputView,
    ahead: ProcessOutputView,
)
    ensures
        match relation_step(head, sha, Some(exists_out), Some(ahead)) {
            Ok(step) => step is Known,
            Err(_) => head != sha && exists_out.code == Some(0i32),
        },
        relation_step(head, sha, Some(exists_out), None) == Ok::<RelationStep, GitErrorView>(
            RelationStep::Known(ShaRelation::Missing),
        ) <==> head != sha && exists_out.code != Some(0i32),
        forall|e: Option<ProcessOutputView>, a: Option<ProcessOutputView>| #[trigger]
            relation_step(head, sha, e, a) == Ok::<RelationStep, GitErrorView>(RelationStep::Known(ShaRelation::Equal))
                <==> head == sha,
{
}

/// The changed line ranges of each file between a commit and the working tree.
pub open spec fn changed_ranges(sha: Seq<char>, hunks: ProcessOutputView) -> Result<
    Map<Seq<char>, Seq<LineRange>>,
    GitErrorView,
> {
    match failure(GitQueryView::Hunks(sha), hunks) {
        Some(e) => Err(e),
        None => match crate::diff::unified_diff(hunks.stdout) {
            Ok(m) => Ok(m),
            Err(e) => Err(GitErrorView::BadDiff(e)),
        },
    }
}

/// The changed line ranges of each file between a commit and the working tree, in the line
/// numbers of that commit: the coordinates in which the coverage collected there was recorded.
/// Untracked files do not appear.
pub fn git_changed_line_ranges(collect_sha: &str, hunks: &ProcessOutput) -> (r: Result<
    OrdMap<String, Vec<LineRange>>,
    GitError,
>)
    ensures
        match r {
            Ok(m) => changed_ranges(collect_sha@, hunks@) == Ok::<Map<Seq<char>, Seq<LineRange>>, GitErrorView>(m@),
            Err(e) => changed_ranges(collect_sha@, hunks@) == Err::<Map<Seq<char>, Seq<LineRange>>, GitErrorView>(e@),
        },
{
    match check_run(&GitQuery::Hunks(collect_sha.to_owned()), hunks) {
        Some(e) => Err(e),
        None => match parse_unified_diff(hunks.stdout.as_slice()) {
            Ok(m) => Ok(m),
            Err(e) => Err(GitError::BadDiff(e)),
        },
    }
}

/// The files added between a commit and the working tree, sorted and without repetition.
pub fn git_added_files_since(collect_sha: &str, added: &ProcessOutput) -> (r: Result<OrdSet<String>, GitError>)
    ensures
        match r {
            Ok(files) => failure(GitQueryView::Added(collect_sha@), added@) is None && files@ == entries_of(
                added@.stdout,
            ).to_set(),
            Err(e) => failure(GitQueryView::Added(collect_sha@), added@) == Some(e@),
        },
{
    match run_git(&GitQuery::Added(collect_sha.to_owned()), added) {
        Ok(v) => Ok(OrdSet::from_vec(v)),
        Err(e) => Err(e),
    }
}

} // verus!

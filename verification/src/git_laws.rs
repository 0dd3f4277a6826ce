//! Laws of what git prints: how it is read, and what a failure comes to.

use vstd::prelude::*;
use crate::git;
use crate::git::{GitErrorView, GitQueryView, RelationStep, ShaRelation};
use crate::process::ProcessOutputView;
use crate::text;

verus! {

/// Names in bytes.
pub open spec fn encoded(names: Seq<Seq<char>>) -> Seq<Seq<u8>> {
    names.map_values(|n: Seq<char>| vstd::utf8::encode_utf8(n))
}

/// Names that can be printed with a NUL behind each.
pub open spec fn are_printable(names: Seq<Seq<char>>) -> bool {
    forall|i: int|
        0 <= i < names.len() ==> vstd::utf8::encode_utf8(#[trigger] names[i]).len() > 0 && !vstd::utf8::encode_utf8(
            names[i],
        ).contains(0u8)
}

/// Names that git prints with a NUL behind each are read back, in order.
pub proof fn law_entries_are_read_back(names: Seq<Seq<char>>)
    requires
        are_printable(names),
    ensures
        git::entries_of(crate::text_laws::terminated(encoded(names), 0u8)) == names,
{
    let items = encoded(names);
    let none = Seq::<u8>::empty();
    let p = |x: Seq<u8>| x.len() > 0;
    let f = |x: Seq<u8>| crate::diff::readable_text(x);
    assert forall|i: int| 0 <= i < items.len() implies !(#[trigger] items[i]).contains(0u8) by {
        assert(items[i] == vstd::utf8::encode_utf8(names[i]));
    }
    crate::text_laws::law_terminated_items_come_apart(items, 0u8);
    items.lemma_filter_push(none, p);
    assert forall|i: int| 0 <= i < items.len() implies p(#[trigger] items[i]) by {
        assert(items[i] == vstd::utf8::encode_utf8(names[i]));
    }
    lemma_all_kept(items, p);
    let out = items.map_values(f);
    assert forall|i: int| 0 <= i < names.len() implies #[trigger] out[i] == names[i] by {
        assert(items[i] == vstd::utf8::encode_utf8(names[i]));
        crate::diff_laws::lemma_encoded_is_readable(names[i]);
    }
    assert(out =~= names);
}

proof fn lemma_all_kept<A>(s: Seq<A>, p: spec_fn(A) -> bool)
    requires
        forall|i: int| 0 <= i < s.len() ==> p(#[trigger] s[i]),
    ensures
        s.filter(p) == s,
    decreases s.len(),
{
    if s.len() == 0 {
        assert(s.filter(p) =~= s) by {
            reveal(Seq::filter);
        }
    } else {
        let b = s.drop_last();
        assert forall|i: int| 0 <= i < b.len() implies p(#[trigger] b[i]) by {
            assert(b[i] == s[i]);
        }
        lemma_all_kept(b, p);
        b.lemma_filter_push(s.last(), p);
        assert(s =~= b.push(s.last()));
        assert(p(s[s.len() - 1]));
    }
}

/// One line of output, as git prints it.
pub open spec fn line_of(text: Seq<char>) -> Seq<u8> {
    vstd::utf8::encode_utf8(text + seq!['\n'])
}

proof fn lemma_line(text: Seq<char>)
    requires
        text.len() > 0,
        !text::is_white(text[0]),
        !text::is_white(text.last()),
        !line_of(text).contains(0u8),
    ensures
        git::entries_of(line_of(text)).len() == 1,
        text::trimmed(git::entries_of(line_of(text))[0]) == text,
{
    let s = text + seq!['\n'];
    let v = line_of(text);
    let none = Seq::<u8>::empty();
    let p = |x: Seq<u8>| x.len() > 0;
    crate::text_laws::law_pieces_are_separated(v, none, 0u8);
    crate::diff_laws::lemma_encoded_is_readable(s);
    assert(v.len() > 0) by {
        if v.len() == 0 {
            assert(v =~= none);
            vstd::utf8::encode_utf8_decode_utf8(s);
            vstd::utf8::encode_utf8_decode_utf8(Seq::<char>::empty());
            assert(vstd::utf8::encode_utf8(Seq::<char>::empty()) =~= none);
        }
    }
    assert(seq![v] =~= Seq::<Seq<u8>>::empty().push(v));
    Seq::<Seq<u8>>::empty().lemma_filter_push(v, p);
    assert(Seq::<Seq<u8>>::empty().filter(p) =~= Seq::<Seq<u8>>::empty()) by {
        reveal(Seq::filter);
    }
    assert(git::entries_of(v)[0] == s);
    assert(text::trimmed_start(s) == s);
    assert(text::is_white('\n'));
    assert(s.drop_last() =~= text);
    assert(text::trimmed_end(s) == text::trimmed_end(text));
}

/// The commit that git prints is the one at `HEAD`; a failure of git is reported as such.
pub proof fn law_head_is_what_git_prints(sha: Seq<char>, head: ProcessOutputView)
    requires
        sha.len() > 0,
        !text::is_white(sha[0]),
        !text::is_white(sha.last()),
        !line_of(sha).contains(0u8),
    ensures
        head.code == Some(0i32) && head.stdout == line_of(sha) ==> git::head_of(head) == Ok::<Seq<char>, GitErrorView>(sha),
        head.code != Some(0i32) ==> git::head_of(head) is Err && git::head_of(head)->Err_0 is Failed,
        head.code == Some(0i32) && head.stdout.len() == 0 ==> git::head_of(head) == Err::<Seq<char>, GitErrorView>(
            GitErrorView::NoHead,
        ),
{
    lemma_line(sha);
    let none = Seq::<u8>::empty();
    let p = |x: Seq<u8>| x.len() > 0;
    if head.stdout.len() == 0 {
        assert(head.stdout =~= none);
        crate::text_laws::law_pieces_are_separated(none, none, 0u8);
        assert(seq![none] =~= Seq::<Seq<u8>>::empty().push(none));
        Seq::<Seq<u8>>::empty().lemma_filter_push(none, p);
        assert(Seq::<Seq<u8>>::empty().filter(p) =~= Seq::<Seq<u8>>::empty()) by {
            reveal(Seq::filter);
        }
    }
}

/// A commit that is in the repository is as far behind `HEAD` as git counts; one that git does not find
/// is missing; `HEAD` itself needs no answer.
pub proof fn law_relation_is_what_git_counts(
    head: Seq<char>,
    sha: Seq<char>,
    n: nat,
    found: ProcessOutputView,
    count: ProcessOutputView,
    any: Option<ProcessOutputView>,
)
    requires
        n <= u32::MAX,
        count.code == Some(0i32),
        count.stdout == line_of(text::decimal(n)),
        !line_of(text::decimal(n)).contains(0u8),
    ensures
        head != sha && found.code == Some(0i32) ==> git::relation_step(head, sha, Some(found), Some(count)) == Ok::<
            RelationStep,
            GitErrorView,
        >(RelationStep::Known(ShaRelation::Reachable { commits_ahead: n as u32 })),
        head != sha && found.code != Some(0i32) ==> git::relation_step(head, sha, Some(found), any) == Ok::<
            RelationStep,
            GitErrorView,
        >(RelationStep::Known(ShaRelation::Missing)),
        git::relation_step(sha, sha, any, None) == Ok::<RelationStep, GitErrorView>(
            RelationStep::Known(ShaRelation::Equal),
        ),
        head != sha ==> git::relation_step(head, sha, None, None) == Ok::<RelationStep, GitErrorView>(
            RelationStep::AskExists,
        ),
        head != sha && found.code == Some(0i32) ==> git::relation_step(head, sha, Some(found), None) == Ok::<
            RelationStep,
            GitErrorView,
        >(RelationStep::AskCommitsAhead),
{
    let d = text::decimal(n);
    crate::text_laws::law_decimal_writes_digits(n);
    crate::text_laws::law_decimal_is_read_back(n);
    assert('0' <= d[0] <= '9' && '0' <= d[d.len() - 1] <= '9');
    lemma_line(d);
}

/// Where git succeeds, what it prints is read; where it fails, nothing of it is, and the failure names
/// the exit code and what git said.
pub proof fn law_failed_git_is_not_read(sha: Seq<char>, hunks: ProcessOutputView, q: GitQueryView)
    ensures
        hunks.code == Some(0i32) && crate::diff::unified_diff(hunks.stdout) is Ok ==> git::changed_ranges(sha, hunks)
            is Ok && git::changed_ranges(sha, hunks)->Ok_0 == crate::diff::unified_diff(hunks.stdout)->Ok_0,
        hunks.code == Some(0i32) && crate::diff::unified_diff(hunks.stdout) is Err ==> git::changed_ranges(sha, hunks)
            is Err,
        hunks.code != Some(0i32) ==> git::changed_ranges(sha, hunks) is Err && git::changed_ranges(sha, hunks)->Err_0
            is Failed,
        git::failure(q, hunks) is None <==> hunks.code == Some(0i32),
        hunks.code != Some(0i32) ==> git::failure(q, hunks) == Some(
            GitErrorView::Failed(
                git::query_name(q),
                hunks.code,
                text::trimmed(crate::diff::readable_text(hunks.stderr)),
            ),
        ),
{
}

/// A file that git lists as staged, unstaged or untracked has changed, but for profiles that tests leave
/// behind; no other file has.
pub proof fn law_listed_files_have_changed(
    unstaged: ProcessOutputView,
    staged: ProcessOutputView,
    untracked: ProcessOutputView,
    path: Seq<char>,
)
    ensures
        git::is_changed(unstaged, staged, untracked, path) <==> !".profraw"@.is_suffix_of(path) && (git::entries_of(
            unstaged.stdout,
        ).contains(path) || git::entries_of(staged.stdout).contains(path) || git::entries_of(untracked.stdout).contains(
            path,
        )),
{
}

/// Git is asked for the hunks since the commit without context lines, colours, external tools or
/// renames, with the prefixes that the reader expects and with names as they are.
pub proof fn law_hunks_are_asked_plainly(sha: Seq<char>)
    ensures
        ({
            let args = git::query_args(GitQueryView::Hunks(sha));
            &&& args.last() == sha
            &&& args.contains("diff"@)
            &&& args.contains("-U0"@)
            &&& args.contains("--no-color"@)
            &&& args.contains("--no-ext-diff"@)
            &&& args.contains("--no-renames"@)
            &&& args.contains("--src-prefix=a/"@)
            &&& args.contains("--dst-prefix=b/"@)
            &&& args[0] == "-c"@ && args[1] == "core.quotePath=false"@
        }),
        ({
            let args = git::query_args(GitQueryView::Added(sha));
            &&& args.last() == sha
            &&& args.contains("diff"@)
            &&& args.contains("--name-only"@)
            &&& args.contains("--no-renames"@)
            &&& args.contains("--diff-filter=A"@)
            &&& args.contains("-z"@)
        }),
        git::query_args(GitQueryView::CommitsAhead(sha)) == seq!["rev-list"@, "--count"@, sha + "..HEAD"@],
        git::query_args(GitQueryView::Exists(sha)) == seq!["cat-file"@, "-e"@, sha + "^{commit}"@],
        git::query_args(GitQueryView::Head) == seq!["rev-parse"@, "HEAD"@],
        git::query_args(GitQueryView::Unstaged).contains("-z"@) && git::query_args(GitQueryView::Unstaged).contains(
            "--name-only"@,
        ) && !git::query_args(GitQueryView::Unstaged).contains("--cached"@),
        git::query_args(GitQueryView::Staged).contains("-z"@) && git::query_args(GitQueryView::Staged).contains(
            "--cached"@,
        ),
        git::query_args(GitQueryView::Untracked).contains("--others"@) && git::query_args(
            GitQueryView::Untracked,
        ).contains("--exclude-standard"@) && git::query_args(GitQueryView::Untracked).contains("-z"@),
{
    let h = git::query_args(GitQueryView::Hunks(sha));
    assert(h[2] == "diff"@ && h[3] == "-U0"@ && h[4] == "--no-color"@ && h[5] == "--no-ext-diff"@ && h[6]
        == "--no-renames"@ && h[7] == "--src-prefix=a/"@ && h[8] == "--dst-prefix=b/"@);
    let a = git::query_args(GitQueryView::Added(sha));
    assert(a[0] == "diff"@ && a[1] == "--name-only"@ && a[3] == "--no-renames"@ && a[4] == "--diff-filter=A"@ && a[5]
        == "-z"@);
    let u = git::query_args(GitQueryView::Unstaged);
    assert(u[3] == "--name-only"@ && u[4] == "-z"@);
    let s = git::query_args(GitQueryView::Staged);
    assert(s[4] == "--cached"@ && s[5] == "-z"@);
    let o = git::query_args(GitQueryView::Untracked);
    assert(o[1] == "-z"@ && o[2] == "--others"@ && o[3] == "--exclude-standard"@);
    reveal_strlit("--cached");
    reveal_strlit("diff");
    reveal_strlit("--no-color");
    reveal_strlit("--no-ext-diff");
    reveal_strlit("--name-only");
    reveal_strlit("-z");
    assert(!u.contains("--cached"@)) by {
        assert("--cached"@.len() == 8);
        assert("diff"@.len() == 4 && "--no-color"@.len() == 10 && "--no-ext-diff"@.len() == 13 && "--name-only"@.len()
            == 11 && "-z"@.len() == 2);
    }
}

/// The changes of the working tree are known only where all three listings succeeded; the first that
/// failed is named.
pub proof fn law_first_failure_is_named(a: ProcessOutputView, b: ProcessOutputView, c: ProcessOutputView)
    ensures
        git::first_failure(a, b, c) is None <==> a.code == Some(0i32) && b.code == Some(0i32) && c.code == Some(0i32),
        a.code != Some(0i32) ==> git::first_failure(a, b, c) == git::failure(GitQueryView::Unstaged, a),
        a.code == Some(0i32) && b.code != Some(0i32) ==> git::first_failure(a, b, c) == git::failure(
            GitQueryView::Staged,
            b,
        ),
        a.code == Some(0i32) && b.code == Some(0i32) && c.code != Some(0i32) ==> git::first_failure(a, b, c)
            == git::failure(GitQueryView::Untracked, c),
{
}

/// An exit code is named so that it can be read back; without one there was a signal.
pub proof fn law_exit_codes_are_named(code: i32)
    ensures
        crate::text::signed_value(git::code_name(Some(code))) == Some(code as int),
        git::code_name(None) == "signal"@,
{
    reveal_strlit("-");
    if code < 0 {
        let d = crate::text::decimal((-code) as nat);
        crate::text_laws::law_decimal_is_read_back((-code) as nat);
        assert("-"@ + d =~= seq!['-'] + d);
    } else {
        crate::text_laws::law_decimal_is_read_back(code as nat);
    }
}

} // verus!

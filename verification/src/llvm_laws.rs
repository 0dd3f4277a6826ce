//! Laws of the search for the LLVM tools.

use vstd::prelude::*;
use crate::llvm;
use crate::llvm::{ToolSearch, ToolStepView};
use crate::text;

verus! {

/// The target is what the compiler names on its line about the host; a compiler that does not run has an
/// unknown one.
pub proof fn law_host_line_names_the_target(before: Seq<char>, target: Seq<char>, after: Seq<char>)
    requires
        forall|i: int|
            0 <= i < text::pieces(before, '\n').len() ==> !"host:"@.is_prefix_of(
                #[trigger] text::pieces(before, '\n')[i],
            ),
        target.len() > 0,
        !text::is_white(target[0]),
        !text::is_white(target.last()),
        !target.contains('\n'),
    ensures
        llvm::target_of_output(
            Some(vstd::utf8::encode_utf8(before + seq!['\n'] + ("host: "@ + target + seq!['\n'] + after))),
        ) == target,
        llvm::target_of_output(None) == "unknown"@,
{
    reveal_strlit("host:");
    reveal_strlit("host: ");
    let line = "host: "@ + target;
    let rest = line + seq!['\n'] + after;
    let all = before + seq!['\n'] + rest;
    crate::diff_laws::lemma_encoded_is_readable(all);
    assert(!line.contains('\n')) by {
        if line.contains('\n') {
            let i = choose|i: int| 0 <= i < line.len() && line[i] == '\n';
            if i >= 6 {
                assert(target[i - 6] == '\n');
            }
        }
    }
    crate::text_laws::law_pieces_are_separated(before, rest, '\n');
    crate::text_laws::law_pieces_are_separated(line, after, '\n');
    crate::text_laws::law_pieces_are_separated(line, Seq::empty(), '\n');
    let head = text::pieces(before, '\n');
    let tail = seq![line] + text::pieces(after, '\n');
    assert(text::pieces(all, '\n') =~= head + tail);
    assert("host:"@ =~= line.take(5));
    lemma_skip_lines(head, tail);
    let cut = line.skip(5);
    assert(cut =~= seq![' '] + target);
    assert(llvm::without_host_labels(line) == llvm::without_host_labels(cut));
    if "host:"@.is_prefix_of(cut) {
        assert(cut.take(5)[0] == cut[0]);
    }
    assert(llvm::without_host_labels(cut) == cut);
    assert(tail[0] == line);
    lemma_trimmed(target);
}

proof fn lemma_trimmed(target: Seq<char>)
    requires
        target.len() > 0,
        !text::is_white(target[0]),
        !text::is_white(target.last()),
    ensures
        text::trimmed(seq![' '] + target) == target,
{
    let s = seq![' '] + target;
    assert(text::is_white(' '));
    assert(s.drop_first() =~= target);
    assert(text::trimmed_start(s) == text::trimmed_start(target));
    assert(text::trimmed_start(target) == target);
    assert(text::trimmed_end(target) == target);
}

proof fn lemma_skip_lines(head: Seq<Seq<char>>, tail: Seq<Seq<char>>)
    requires
        forall|i: int| 0 <= i < head.len() ==> !"host:"@.is_prefix_of(#[trigger] head[i]),
    ensures
        llvm::host_line(head + tail) == llvm::host_line(tail),
    decreases head.len(),
{
    if head.len() == 0 {
        assert(head + tail =~= tail);
    } else {
        let rest = head.drop_first();
        assert((head + tail)[0] == head[0]);
        assert((head + tail).drop_first() =~= rest + tail);
        assert forall|i: int| 0 <= i < rest.len() implies !"host:"@.is_prefix_of(#[trigger] rest[i]) by {
            assert(rest[i] == head[i + 1]);
        }
        lemma_skip_lines(rest, tail);
    }
}

/// A tool lies in the sysroot below `lib/rustlib`, in the `bin` of the target.
pub proof fn law_tools_lie_in_the_sysroot(sysroot: Seq<char>, target: Seq<char>, tool: Seq<char>)
    requires
        crate::path_laws::are_names(seq![target, tool]),
    ensures
        crate::paths::path_parts(llvm::sysroot_tool(sysroot, target, tool)) == crate::paths::path_parts(sysroot) + seq![
            "lib"@,
            "rustlib"@,
            target,
            "bin"@,
            tool,
        ],
{
    reveal_strlit("lib");
    reveal_strlit("rustlib");
    reveal_strlit("bin");
    reveal_strlit(".");
    assert("."@.len() == 1 && "lib"@.len() == 3 && "rustlib"@.len() == 7 && "bin"@.len() == 3);
    let names = seq![target, tool];
    assert(names[0] == target && names[1] == tool);
    lemma_one_name(sysroot, "lib"@);
    let a = crate::paths::joined_path(sysroot, "lib"@);
    lemma_one_name(a, "rustlib"@);
    let b = crate::paths::joined_path(a, "rustlib"@);
    lemma_one_name(b, target);
    let c = crate::paths::joined_path(b, target);
    lemma_one_name(c, "bin"@);
    let d = crate::paths::joined_path(c, "bin"@);
    lemma_one_name(d, tool);
    assert(crate::paths::path_parts(llvm::sysroot_tool(sysroot, target, tool)) =~= crate::paths::path_parts(sysroot)
        + seq!["lib"@, "rustlib"@, target, "bin"@, tool]);
}

proof fn lemma_one_name(base: Seq<char>, name: Seq<char>)
    requires
        name.len() > 0,
        !name.contains('/'),
        name != "."@,
    ensures
        crate::paths::path_parts(crate::paths::joined_path(base, name)) == crate::paths::path_parts(base) + seq![name],
{
    let names = seq![name];
    assert(names[0] == name);
    crate::path_laws::law_joined_path_is_below(base, names);
    assert(crate::path_laws::path_of(names) == name);
}

/// The first line of a lookup names the tool; a blank one names none.
pub proof fn law_first_line_names_the_tool(path: Seq<char>, more: Seq<char>)
    requires
        path.len() > 0,
        !text::is_white(path[0]),
        !text::is_white(path.last()),
        !path.contains('\n'),
    ensures
        llvm::first_path_of(vstd::utf8::encode_utf8(path + seq!['\n'] + more)) == Some(path),
        llvm::first_path_of(Seq::<u8>::empty()) is None,
{
    let all = path + seq!['\n'] + more;
    let none = Seq::<char>::empty();
    crate::diff_laws::lemma_encoded_is_readable(all);
    crate::diff_laws::lemma_encoded_is_readable(none);
    assert(vstd::utf8::encode_utf8(none) =~= Seq::<u8>::empty());
    crate::text_laws::law_pieces_are_separated(path, more, '\n');
    crate::text_laws::law_pieces_are_separated(path, none, '\n');
    crate::text_laws::law_pieces_are_separated(none, none, '\n');
    crate::text_laws::law_trimming_keeps_plain_text(path);
    crate::text_laws::law_trimming_keeps_plain_text(none);
}

/// The search asks for the sysroot first, and takes the tool that lies there. Elsewhere it looks with
/// `xcrun` on macOS and on no other system, then on the search path, and takes the first that it is told
/// of. Only where no place has the tool is it missing.
pub proof fn law_search_goes_from_place_to_place(s: ToolSearch, target: Seq<char>, tool: Seq<char>, macos: bool)
    ensures
        s.sysroot is NotAsked ==> s.step(target, tool, macos) == ToolStepView::AskSysroot,
        s.sysroot is Left && s.sysroot->Left_0.code == Some(0i32) ==> {
            let out = s.sysroot->Left_0;
            let path = llvm::sysroot_tool(text::trimmed(crate::diff::readable_text(out.stdout@)), target, tool);
            &&& s.exists is None ==> s.step(target, tool, macos) == ToolStepView::AskExists(path)
            &&& s.exists == Some(true) ==> s.step(target, tool, macos) == ToolStepView::Found(path)
        },
        ({
            let nowhere = s.exists == Some(false) || s.sysroot is NotStarted || (s.sysroot is Left && s.sysroot->Left_0.code
                != Some(0i32));
            let by_xcrun = s.xcrun is Left && s.xcrun->Left_0.code == Some(0i32) && text::trimmed(
                crate::diff::readable_text(s.xcrun->Left_0.stdout@),
            ).len() > 0;
            &&& nowhere && !(s.sysroot is NotAsked) && macos && s.xcrun is NotAsked ==> s.step(target, tool, macos)
                == ToolStepView::AskXcrun
            &&& nowhere && !(s.sysroot is NotAsked) && macos && by_xcrun ==> s.step(target, tool, macos)
                == ToolStepView::Found(text::trimmed(crate::diff::readable_text(s.xcrun->Left_0.stdout@)))
            &&& nowhere && !(s.sysroot is NotAsked) && (!macos || (!by_xcrun && !(s.xcrun is NotAsked))) && s.on_path
                is NotAsked ==> s.step(target, tool, macos) == ToolStepView::AskPath
            &&& nowhere && !(s.sysroot is NotAsked) && (!macos || (!by_xcrun && !(s.xcrun is NotAsked))) && (
            s.on_path is Left && s.on_path->Left_0.code == Some(0i32) && llvm::first_path_of(s.on_path->Left_0.stdout@)
                is Some)
                ==> s.step(target, tool, macos) == ToolStepView::Found(
                llvm::first_path_of(s.on_path->Left_0.stdout@)->0,
            )
            &&& nowhere && !(s.sysroot is NotAsked) && (!macos || (!by_xcrun && !(s.xcrun is NotAsked))) && (
            s.on_path is NotStarted || (s.on_path is Left && s.on_path->Left_0.code != Some(0i32))) ==> s.step(
                target,
                tool,
                macos,
            ) == ToolStepView::Missing
        }),
{
}

/// Where no line of the output is about the host, or there is no output, the target is unknown.
pub proof fn law_target_may_be_unknown(out: Seq<u8>)
    requires
        forall|i: int|
            0 <= i < text::pieces(crate::diff::readable_text(out), '\n').len() ==> !"host:"@.is_prefix_of(
                #[trigger] text::pieces(crate::diff::readable_text(out), '\n')[i],
            ),
    ensures
        llvm::target_of_output(Some(out)) == "unknown"@,
        llvm::target_of_output(None) == "unknown"@,
{
    lemma_no_host_line(text::pieces(crate::diff::readable_text(out), '\n'));
}

proof fn lemma_no_host_line(lines: Seq<Seq<char>>)
    requires
        forall|i: int| 0 <= i < lines.len() ==> !"host:"@.is_prefix_of(#[trigger] lines[i]),
    ensures
        llvm::host_line(lines) is None,
    decreases lines.len(),
{
    if lines.len() > 0 {
        let rest = lines.drop_first();
        assert forall|i: int| 0 <= i < rest.len() implies !"host:"@.is_prefix_of(#[trigger] rest[i]) by {
            assert(rest[i] == lines[i + 1]);
        }
        lemma_no_host_line(rest);
    }
}

} // verus!

//! Where the LLVM tools of the compiler are.

use vstd::prelude::*;
use crate::diff::lossy_text;
use crate::nextest::first_piece;
use crate::paths::join_path;
use crate::process::ProcessOutput;
use crate::text::{chars_of, split_text, starts_with, text_of, trim_text};

verus! {

/// A text without any number of `host:` before it.
pub open spec fn without_host_labels(s: Seq<char>) -> Seq<char>
    decreases s.len(),
    when "host:"@.len() > 0
{
    if "host:"@.is_prefix_of(s) {
        without_host_labels(s.skip("host:"@.len() as int))
    } else {
        s
    }
}

/// The host triple in the first of the lines that names it.
pub open spec fn host_line(lines: Seq<Seq<char>>) -> Option<Seq<char>>
    decreases lines.len(),
{
    if lines.len() == 0 {
        None
    } else if "host:"@.is_prefix_of(lines[0]) {
        Some(crate::text::trimmed(without_host_labels(lines[0])))
    } else {
        host_line(lines.drop_first())
    }
}

/// The target triple that `rustc -vV` names as its host.
pub open spec fn target_of_output(stdout: Option<Seq<u8>>) -> Seq<char> {
    match stdout {
        Some(out) => match host_line(crate::text::pieces(crate::diff::readable_text(out), '\n')) {
            Some(t) => t,
            None => "unknown"@,
        },
        None => "unknown"@,
    }
}

/// A text without any number of `host:` before it.
fn strip_host_labels(s: &str) -> (r: String)
    ensures
        r@ == without_host_labels(s@),
{
    let v = chars_of(s);
    let label = chars_of("host:");
    proof {
        reveal_strlit("host:");
    }
    let mut i: usize = 0;
    let mut cur = s.to_owned();
    assert(v@.skip(0) =~= s@);
    while starts_with(cur.as_str(), "host:")
        invariant
            i <= v.len(),
            v@ == s@,
            label@ == "host:"@,
            label@.len() == 5,
            cur@ == v@.skip(i as int),
            without_host_labels(s@) == without_host_labels(cur@),
        decreases v.len() - i,
    {
        assert(cur@.len() >= 5);
        i += 5;
        cur = text_of(&v, i, v.len());
        assert(cur@ =~= v@.skip(i as int));
        assert(v@.skip(i - 5).skip(5) =~= v@.skip(i as int));
    }
    cur
}

/// The target triple of the compiler, from what `rustc -vV` printed.
pub fn current_target(stdout: Option<&Vec<u8>>) -> (r: String)
    ensures
        r@ == target_of_output(match stdout {
            Some(v) => Some(v@),
            None => None,
        }),
{
    match stdout {
        None => String::from_str("unknown"),
        Some(v) => {
            let lines = split_text(lossy_text(v.as_slice()).as_str(), '\n');
            let ghost d = lines.deep_view();
            let mut i: usize = 0;
            assert(d.skip(0) =~= d);
            while i < lines.len()
                invariant
                    i <= lines.len(),
                    d == lines.deep_view(),
                    stdout matches Some(o) && d == crate::text::pieces(crate::diff::readable_text(o@), '\n'),
                    host_line(d) == host_line(d.skip(i as int)),
                decreases lines.len() - i,
            {
                assert(d[i as int] == lines@[i as int]@);
                assert(d.skip(i as int)[0] == d[i as int]);
                assert(d.skip(i as int).drop_first() =~= d.skip(i + 1));
                if starts_with(lines[i].as_str(), "host:") {
                    return trim_text(strip_host_labels(lines[i].as_str()).as_str());
                }
                i += 1;
            }
            assert(d.skip(i as int).len() == 0);
            String::from_str("unknown")
        },
    }
}

/// Where an LLVM tool lies in the sysroot of a toolchain.
pub open spec fn sysroot_tool(sysroot: Seq<char>, target: Seq<char>, exe_name: Seq<char>) -> Seq<char> {
    let dir = crate::paths::joined_path(crate::paths::joined_path(sysroot, "lib"@), "rustlib"@);
    crate::paths::joined_path(
        crate::paths::joined_path(crate::paths::joined_path(dir, target), "bin"@),
        exe_name,
    )
}

/// Where an LLVM tool lies in the sysroot that `rustc --print sysroot` printed.
pub fn tool_in_sysroot(stdout: &[u8], target: &str, exe_name: &str) -> (r: String)
    ensures
        r@ == sysroot_tool(crate::text::trimmed(crate::diff::readable_text(stdout@)), target@, exe_name@),
{
    let sysroot = trim_text(lossy_text(stdout).as_str());
    let dir = join_path(join_path(sysroot.as_str(), "lib").as_str(), "rustlib");
    join_path(join_path(join_path(dir.as_str(), target).as_str(), "bin").as_str(), exe_name)
}

/// The path on the first line of an output, if it is not blank.
pub open spec fn first_path_of(stdout: Seq<u8>) -> Option<Seq<char>> {
    let path = crate::text::trimmed(crate::text::pieces(crate::diff::readable_text(stdout), '\n')[0]);
    if path.len() == 0 {
        None
    } else {
        Some(path)
    }
}

/// The path on the first line of what a lookup printed, if it is not blank.
pub fn first_path(stdout: &[u8]) -> (r: Option<String>)
    ensures
        match r {
            Some(p) => first_path_of(stdout@) == Some(p@),
            None => first_path_of(stdout@) is None,
        },
{
    let path = trim_text(first_piece(lossy_text(stdout).as_str(), '\n').as_str());
    if path.as_str().is_empty() {
        None
    } else {
        Some(path)
    }
}

/// The message about an LLVM tool that is nowhere to be found.
pub fn tool_missing(name: &str) -> (r: String)
    ensures
        r@ == "could not find "@ + name@
            + ". Install `llvm-tools` via `rustup component add llvm-tools` or ensure "@ + name@ + " is on PATH"@,
{
    String::from_str("could not find ").concat(name).concat(
        ". Install `llvm-tools` via `rustup component add llvm-tools` or ensure ",
    ).concat(name).concat(" is on PATH")
}

/// A question that was not asked, could not be asked, or was answered.
#[derive(Debug)]
pub enum Answer {
    NotAsked,
    /// The process could not be started.
    NotStarted,
    Left(ProcessOutput),
}

impl Answer {
    /// What a process that ended well printed.
    pub open spec fn printed(self) -> Option<Seq<u8>> {
        match self {
            Answer::Left(out) => if out@.succeeded() {
                Some(out@.stdout)
            } else {
                None
            },
            _ => None,
        }
    }

    /// What a process that ended well printed.
    fn output(&self) -> (r: Option<&Vec<u8>>)
        ensures
            match r {
                Some(v) => self.printed() == Some(v@),
                None => self.printed() is None,
            },
    {
        match self {
            Answer::Left(out) => if out.success() {
                Some(&out.stdout)
            } else {
                None
            },
            Answer::NotAsked => None,
            Answer::NotStarted => None,
        }
    }
}

/// What is known in the search for an LLVM tool.
#[derive(Debug)]
pub struct ToolSearch {
    /// The answer of `rustc --print sysroot`.
    pub sysroot: Answer,
    /// Whether the tool is where the sysroot should have it.
    pub exists: Option<bool>,
    /// The answer of `xcrun --find`, which there is on macOS only.
    pub xcrun: Answer,
    /// The answer of a lookup on the search path.
    pub on_path: Answer,
}

/// What the search for an LLVM tool does next.
#[derive(Debug, PartialEq, Eq)]
pub enum ToolStep {
    /// Ask `rustc --print sysroot`.
    AskSysroot,
    /// Ask whether a file exists.
    AskExists(String),
    /// Ask `xcrun --find`.
    AskXcrun,
    /// Look on the search path.
    AskPath,
    /// The tool is here.
    Found(String),
    /// The tool is nowhere.
    Missing,
}

/// The value of a [`ToolStep`].
#[verifier::ext_equal]
pub enum ToolStepView {
    AskSysroot,
    AskExists(Seq<char>),
    AskXcrun,
    AskPath,
    Found(Seq<char>),
    Missing,
}

impl View for ToolStep {
    type V = ToolStepView;

    open spec fn view(&self) -> ToolStepView {
        match self {
            ToolStep::AskSysroot => ToolStepView::AskSysroot,
            ToolStep::AskExists(path) => ToolStepView::AskExists(path@),
            ToolStep::AskXcrun => ToolStepView::AskXcrun,
            ToolStep::AskPath => ToolStepView::AskPath,
            ToolStep::Found(path) => ToolStepView::Found(path@),
            ToolStep::Missing => ToolStepView::Missing,
        }
    }
}

impl ToolSearch {
    /// Where the sysroot should have the tool, if the compiler named its sysroot.
    pub open spec fn expected(self, target: Seq<char>, exe_name: Seq<char>) -> Option<Seq<char>> {
        match self.sysroot.printed() {
            Some(out) => Some(
                sysroot_tool(crate::text::trimmed(crate::diff::readable_text(out)), target, exe_name),
            ),
            None => None,
        }
    }

    /// The path that `xcrun` named.
    pub open spec fn named_by_xcrun(self) -> Option<Seq<char>> {
        match self.xcrun.printed() {
            Some(out) => {
                let path = crate::text::trimmed(crate::diff::readable_text(out));
                if path.len() == 0 {
                    None
                } else {
                    Some(path)
                }
            },
            None => None,
        }
    }

    /// The first path that the lookup named.
    pub open spec fn named_on_path(self) -> Option<Seq<char>> {
        match self.on_path.printed() {
            Some(out) => first_path_of(out),
            None => None,
        }
    }

    /// What to do once the tool is known not to be in the sysroot.
    pub open spec fn outside_sysroot(self, macos: bool) -> ToolStepView {
        if macos && self.xcrun is NotAsked {
            ToolStepView::AskXcrun
        } else if macos && self.named_by_xcrun() is Some {
            ToolStepView::Found(self.named_by_xcrun()->0)
        } else if self.on_path is NotAsked {
            ToolStepView::AskPath
        } else {
            match self.named_on_path() {
                Some(path) => ToolStepView::Found(path),
                None => ToolStepView::Missing,
            }
        }
    }

    /// What the search does next: the sysroot comes first, then `xcrun` on macOS, then the search
    /// path.
    pub open spec fn step(self, target: Seq<char>, exe_name: Seq<char>, macos: bool) -> ToolStepView {
        if self.sysroot is NotAsked {
            ToolStepView::AskSysroot
        } else {
            match (self.expected(target, exe_name), self.exists) {
                (Some(path), None) => ToolStepView::AskExists(path),
                (Some(path), Some(true)) => ToolStepView::Found(path),
                _ => self.outside_sysroot(macos),
            }
        }
    }
}

/// The path that `xcrun` named.
fn read_xcrun(s: &ToolSearch) -> (r: Option<String>)
    ensures
        match r {
            Some(p) => s.named_by_xcrun() == Some(p@),
            None => s.named_by_xcrun() is None,
        },
{
    match s.xcrun.output() {
        Some(out) => {
            let path = trim_text(lossy_text(out.as_slice()).as_str());
            if path.as_str().is_empty() {
                None
            } else {
                Some(path)
            }
        },
        None => None,
    }
}

/// Finds an LLVM tool: what to do next, from what is known so far. `exe_name` is its name with the
/// suffix that executables have here.
pub fn find_llvm_tool(s: &ToolSearch, target: &str, exe_name: &str, macos: bool) -> (r: ToolStep)
    ensures
        r@ == s.step(target@, exe_name@, macos),
{
    if let Answer::NotAsked = s.sysroot {
        return ToolStep::AskSysroot;
    }
    if let Some(out) = s.sysroot.output() {
        let path = tool_in_sysroot(out.as_slice(), target, exe_name);
        match s.exists {
            None => {
                return ToolStep::AskExists(path);
            },
            Some(true) => {
                return ToolStep::Found(path);
            },
            Some(false) => {},
        }
    }
    if macos {
        if let Answer::NotAsked = s.xcrun {
            return ToolStep::AskXcrun;
        }
        if let Some(path) = read_xcrun(s) {
            return ToolStep::Found(path);
        }
    }
    if let Answer::NotAsked = s.on_path {
        return ToolStep::AskPath;
    }
    match s.on_path.output() {
        Some(out) => match first_path(out.as_slice()) {
            Some(path) => ToolStep::Found(path),
            None => ToolStep::Missing,
        },
        None => ToolStep::Missing,
    }
}

/// The search settles once everything was asked, and a tool that is in the sysroot is found there
/// whatever the other places hold.
pub proof fn law_tool_search_settles(s: ToolSearch, target: Seq<char>, exe_name: Seq<char>, macos: bool)
    ensures
        s.sysroot !is NotAsked && s.exists is Some && s.xcrun !is NotAsked && s.on_path !is NotAsked ==> s.step(
            target,
            exe_name,
            macos,
        ) is Found || s.step(target, exe_name, macos) is Missing,
        s.expected(target, exe_name) is Some && s.exists == Some(true) ==> s.step(target, exe_name, macos)
            == ToolStepView::Found(s.expected(target, exe_name)->0),
        s.step(target, exe_name, macos) is Missing ==> s.named_on_path() is None && (macos ==> s.named_by_xcrun() is None)
            && (s.expected(target, exe_name) is Some ==> s.exists == Some(false)),
{
}

} // verus!

//! What the project consists of: its root, its manifests, and which crate roots the tests of a
//! target depend on.

use vstd::prelude::*;
use crate::json::{read_json_bytes, Json, JsonView};
use crate::ordered::{Key, OrdMap, OrdSet};
use crate::paths::{join_path, path_code, strip_base, to_db_relative};
use crate::text::same_text;

verus! {

/// A target's role: the kinds that can hold tests. Everything else (build scripts, examples,
/// benches) is dropped.
#[derive(Debug, Clone, Copy, PartialEq, Eq, Structural)]
pub enum TargetKind {
    Lib,
    /// A proc-macro library, whose binary id has the shape of a library's.
    ProcMacro,
    Bin,
    /// An integration test.
    Test,
}

/// A target of a package that can hold tests.
#[derive(Debug, PartialEq, Eq)]
pub struct TestTarget {
    pub name: String,
    pub kind: TargetKind,
    /// The crate root, relative to the workspace root.
    pub src_path: String,
    /// Whether cargo builds a test harness for the target. One without has no binary id of its
    /// own but is still compiled into the others.
    pub runs_tests: bool,
}

/// The value of a [`TestTarget`].
#[verifier::ext_equal]
pub struct TestTargetView {
    pub name: Seq<char>,
    pub kind: TargetKind,
    pub src_path: Seq<char>,
    pub runs_tests: bool,
}

impl View for TestTarget {
    type V = TestTargetView;

    open spec fn view(&self) -> TestTargetView {
        TestTargetView {
            name: self.name@,
            kind: self.kind,
            src_path: self.src_path@,
            runs_tests: self.runs_tests,
        }
    }
}

impl DeepView for TestTarget {
    type V = TestTargetView;

    open spec fn deep_view(&self) -> TestTargetView {
        self@
    }
}

/// The elements of an array member; none where there is no such member.
pub open spec fn listed(j: JsonView, name: Seq<char>) -> Seq<JsonView> {
    match j.get_array(name) {
        Some(a) => a,
        None => Seq::empty(),
    }
}

/// Whether an array holds a text.
pub open spec fn lists_text(a: Seq<JsonView>, text: Seq<char>) -> bool {
    exists|i: int| 0 <= i < a.len() && #[trigger] a[i] == JsonView::Text(text)
}

/// The role of a target with the given kinds.
pub open spec fn kind_of(kinds: Seq<JsonView>) -> Option<TargetKind> {
    if lists_text(kinds, "lib"@) {
        Some(TargetKind::Lib)
    } else if lists_text(kinds, "proc-macro"@) {
        Some(TargetKind::ProcMacro)
    } else if lists_text(kinds, "bin"@) {
        Some(TargetKind::Bin)
    } else if lists_text(kinds, "test"@) {
        Some(TargetKind::Test)
    } else {
        None
    }
}

/// A target of the metadata, if it is of a kind that matters and lies below the workspace root.
pub open spec fn target_of(target: JsonView, root: Seq<char>, windows: bool) -> Option<TestTargetView> {
    match (kind_of(listed(target, "kind"@)), target.get_text("name"@), target.get_text("src_path"@)) {
        (Some(kind), Some(name), Some(path)) => match crate::paths::path_below(
            crate::paths::db_relative(path, windows),
            crate::paths::db_relative(root, windows),
        ) {
            Some(src_path) => Some(
                TestTargetView { name, kind, src_path, runs_tests: target.get_bool("test"@) == Some(true) },
            ),
            None => None,
        },
        _ => None,
    }
}

/// Whether an array of JSON values holds a text.
fn has_text(a: &Vec<Json>, text: &str) -> (r: bool)
    ensures
        r == lists_text(a.deep_view(), text@),
{
    let ghost d = a.deep_view();
    let mut i: usize = 0;
    while i < a.len()
        invariant
            i <= a.len(),
            d == a.deep_view(),
            forall|j: int| 0 <= j < i ==> #[trigger] d[j] != JsonView::Text(text@),
        decreases a.len() - i,
    {
        assert(d[i as int] == a@[i as int]@);
        match a[i].as_str() {
            Some(t) => {
                if same_text(t, text) {
                    return true;
                }
            },
            None => {},
        }
        i += 1;
    }
    false
}

/// Reads one target of the metadata. A target without a test harness is kept: it is compiled into
/// the other targets of its package, so its crate root matters.
pub fn parse_target(target: &Json, root: &str, windows: bool) -> (r: Option<TestTarget>)
    ensures
        r.deep_view() == target_of(target@, root@, windows),
{
    let kind = match target.get_array("kind") {
        Some(kinds) => if has_text(kinds, "lib") {
            TargetKind::Lib
        } else if has_text(kinds, "proc-macro") {
            TargetKind::ProcMacro
        } else if has_text(kinds, "bin") {
            TargetKind::Bin
        } else if has_text(kinds, "test") {
            TargetKind::Test
        } else {
            return None;
        },
        None => {
            return None;
        },
    };
    match (target.get_str("name"), target.get_str("src_path")) {
        (Some(name), Some(path)) => match strip_base(
            to_db_relative(path, windows).as_str(),
            to_db_relative(root, windows).as_str(),
        ) {
            Some(src_path) => {
                let runs_tests = match target.get_bool("test") {
                    Some(b) => b,
                    None => false,
                };
                Some(TestTarget { name: name.to_owned(), kind, src_path, runs_tests })
            },
            None => None,
        },
        _ => None,
    }
}

/// The binary id of a target: the package for a library, `<package>::<target>` for an integration
/// test, `<package>::bin/<target>` for a binary.
pub open spec fn binary_id_of(package: Seq<char>, kind: TargetKind, target: Seq<char>) -> Seq<char> {
    match kind {
        TargetKind::Lib | TargetKind::ProcMacro => package,
        TargetKind::Test => package + "::"@ + target,
        TargetKind::Bin => package + "::bin/"@ + target,
    }
}

/// The stable binary id that nextest gives a target.
pub fn build_binary_id(package: &str, kind: TargetKind, target_name: &str) -> (r: String)
    ensures
        r@ == binary_id_of(package@, kind, target_name@),
{
    match kind {
        TargetKind::Lib | TargetKind::ProcMacro => package.to_owned(),
        TargetKind::Test => package.to_owned().concat("::").concat(target_name),
        TargetKind::Bin => package.to_owned().concat("::bin/").concat(target_name),
    }
}

/// The dependencies of each package.
pub type Deps = Map<Seq<char>, Set<Seq<char>>>;

/// Whether `to` is a dependency of `from`.
pub open spec fn depends(deps: Deps, from: Seq<char>, to: Seq<char>) -> bool {
    deps.contains_key(from) && deps[from].contains(to)
}

/// Whether each element of a path is a dependency of the one before.
pub open spec fn is_chain(deps: Deps, path: Seq<Seq<char>>) -> bool {
    forall|i: int| 0 <= i < path.len() - 1 ==> #[trigger] depends(deps, path[i], path[i + 1])
}

/// Whether a chain of dependencies leads from one package to another.
pub open spec fn chain_leads(deps: Deps, from: Seq<char>, to: Seq<char>, path: Seq<Seq<char>>) -> bool {
    path.len() >= 2 && path[0] == from && path.last() == to && is_chain(deps, path)
}

/// Whether one package depends on another, directly or through others.
pub open spec fn reaches(deps: Deps, from: Seq<char>, to: Seq<char>) -> bool {
    exists|path: Seq<Seq<char>>| chain_leads(deps, from, to, path)
}

/// What a package depends on, directly or through others, without itself.
pub open spec fn closure_of(deps: Deps, start: Seq<char>) -> Set<Seq<char>> {
    Set::new(|p: Seq<char>| p != start && reaches(deps, start, p))
}

/// A direct dependency is reached.
pub proof fn lemma_direct(deps: Deps, from: Seq<char>, to: Seq<char>)
    requires
        depends(deps, from, to),
    ensures
        reaches(deps, from, to),
{
    let path = seq![from, to];
    assert(chain_leads(deps, from, to, path));
}

/// A dependency of what is reached is reached.
pub proof fn lemma_one_further(deps: Deps, from: Seq<char>, via: Seq<char>, to: Seq<char>)
    requires
        reaches(deps, from, via),
        depends(deps, via, to),
    ensures
        reaches(deps, from, to),
{
    let path = choose|path: Seq<Seq<char>>| chain_leads(deps, from, via, path);
    let longer = path.push(to);
    assert forall|i: int| 0 <= i < longer.len() - 1 implies #[trigger] depends(deps, longer[i], longer[i + 1]) by {
        if i < path.len() - 1 {
            assert(depends(deps, path[i], path[i + 1]));
        }
    }
    assert(chain_leads(deps, from, to, longer));
}

/// A set that holds the dependencies of `start` and, but for `start`, of its own elements holds
/// everything that `start` reaches.
proof fn lemma_closed_set(deps: Deps, start: Seq<char>, found: Set<Seq<char>>, path: Seq<Seq<char>>, i: int)
    requires
        path.len() >= 2,
        path[0] == start,
        is_chain(deps, path),
        0 <= i < path.len(),
        forall|q: Seq<char>| #[trigger] depends(deps, start, q) ==> q == start || found.contains(q),
        forall|p: Seq<char>, q: Seq<char>| #[trigger]
            depends(deps, p, q) && found.contains(p) ==> q == start || found.contains(q),
    ensures
        path[i] == start || found.contains(path[i]),
    decreases i,
{
    if i > 0 {
        lemma_closed_set(deps, start, found, path, i - 1);
        assert(depends(deps, path[i - 1], path[i - 1 + 1]));
    }
}

/// Everything that any package lists as a dependency.
pub open spec fn all_dependencies(pairs: Seq<(Seq<char>, Set<Seq<char>>)>) -> Set<Seq<char>>
    decreases pairs.len(),
{
    if pairs.len() == 0 {
        Set::empty()
    } else {
        all_dependencies(pairs.drop_last()).union(pairs.last().1)
    }
}

proof fn lemma_all_dependencies(pairs: Seq<(Seq<char>, Set<Seq<char>>)>)
    requires
        forall|i: int| 0 <= i < pairs.len() ==> (#[trigger] pairs[i]).1.finite(),
    ensures
        all_dependencies(pairs).finite(),
        forall|i: int| 0 <= i < pairs.len() ==> (#[trigger] pairs[i]).1.subset_of(all_dependencies(pairs)),
    decreases pairs.len(),
{
    if pairs.len() > 0 {
        let b = pairs.drop_last();
        assert forall|i: int| 0 <= i < b.len() implies (#[trigger] b[i]).1.finite() by {
            assert(pairs[i] == b[i]);
        }
        lemma_all_dependencies(b);
        assert(pairs[pairs.len() - 1] == pairs.last());
        assert forall|i: int| 0 <= i < pairs.len() implies (#[trigger] pairs[i]).1.subset_of(all_dependencies(pairs)) by {
            if i < b.len() {
                assert(b[i] == pairs[i]);
            }
        }
    }
}

/// The packages that `start` depends on, directly or through others. `start` itself is left out,
/// even where a cycle leads back to it.
pub fn transitive_closure(start: &String, deps_by_pkg: &OrdMap<String, OrdSet<String>>) -> (r: OrdSet<String>)
    ensures
        r@ == closure_of(deps_by_pkg@, start@),
{
    let ghost deps = deps_by_pkg@;
    let ghost all = all_dependencies(deps_by_pkg.pairs());
    let listed_deps = deps_by_pkg.entries();
    proof {
        let entries = deps_by_pkg.pairs();
        assert forall|i: int| 0 <= i < entries.len() implies (#[trigger] entries[i]).1.finite() by {
            assert(listed_deps@[i].1.deep_view() == entries[i].1);
            vstd::seq_lib::seq_to_set_is_finite(listed_deps@[i].1.elems());
        }
        lemma_all_dependencies(entries);
        assert forall|p: Seq<char>, q: Seq<char>| #[trigger] depends(deps, p, q) implies all.contains(q) by {
            let i = choose|i: int| #[trigger] crate::ordered::holds_key_at(entries, p, i);
            lemma_map_value(deps_by_pkg, p);
        }
    }
    let mut out: OrdSet<String> = OrdSet::new();
    let mut stack: Vec<String> = Vec::new();
    match deps_by_pkg.get(start) {
        Some(next) => {
            stack = next.items().duplicate();
            proof {
                assert(stack.deep_view() == next.elems());
                assert forall|q: Seq<char>| #[trigger] depends(deps, start@, q) implies stack.deep_view().contains(q) by {}
                assert forall|i: int| 0 <= i < stack.deep_view().len() implies #[trigger] reaches(
                    deps,
                    start@,
                    stack.deep_view()[i],
                ) && all.contains(stack.deep_view()[i]) by {
                    assert(next@.contains(stack.deep_view()[i]));
                    assert(depends(deps, start@, stack.deep_view()[i]));
                    lemma_direct(deps, start@, stack.deep_view()[i]);
                }
            }
        },
        None => {},
    }
    while stack.len() > 0
        invariant
            deps == deps_by_pkg@,
            all.finite(),
            forall|p: Seq<char>, q: Seq<char>| #[trigger] depends(deps, p, q) ==> all.contains(q),
            out@.finite(),
            out@.subset_of(all),
            !out@.contains(start@),
            forall|i: int|
                0 <= i < stack.deep_view().len() ==> #[trigger] reaches(deps, start@, stack.deep_view()[i])
                    && all.contains(stack.deep_view()[i]),
            forall|p: Seq<char>| #[trigger] out@.contains(p) ==> reaches(deps, start@, p),
            forall|q: Seq<char>| #[trigger]
                depends(deps, start@, q) ==> q == start@ || out@.contains(q) || stack.deep_view().contains(q),
            forall|p: Seq<char>, q: Seq<char>| #[trigger]
                depends(deps, p, q) && out@.contains(p) ==> q == start@ || out@.contains(q)
                    || stack.deep_view().contains(q),
        decreases all.len() - out@.len(), stack.len(),
    {
        let ghost s0 = stack.deep_view();
        let ghost o0 = out@;
        let p = match stack.pop() {
            Some(p) => p,
            None => {
                return out;
            },
        };
        proof {
            assert(s0.last() == p@);
            assert(stack.deep_view() =~= s0.drop_last());
            assert(reaches(deps, start@, s0[s0.len() - 1]));
            lemma_pop_members(s0);
        }
        if same_text(p.as_str(), start.as_str()) || !out.insert(p.clone()) {
            assert(out@ =~= o0);
            continue ;
        }
        proof {
            vstd::set_lib::lemma_len_subset(out@, all);
            vstd::set_lib::lemma_len_subset(o0, all);
        }
        let ghost s1 = stack.deep_view();
        match deps_by_pkg.get(&p) {
            Some(next) => {
                let items = next.items();
                let ghost e = next.elems();
                let mut j: usize = 0;
                while j < items.len()
                    invariant
                        j <= items.len(),
                        e == items.deep_view(),
                        deps == deps_by_pkg@,
                        deps.contains_key(p@),
                        deps[p@] == e.to_set(),
                        reaches(deps, start@, p@),
                        forall|p: Seq<char>, q: Seq<char>| #[trigger] depends(deps, p, q) ==> all.contains(q),
                        forall|i: int|
                            0 <= i < stack.deep_view().len() ==> #[trigger] reaches(deps, start@, stack.deep_view()[i])
                                && all.contains(stack.deep_view()[i]),
                        forall|q: Seq<char>| s1.contains(q) ==> stack.deep_view().contains(q),
                        forall|k: int|
                            0 <= k < j ==> #[trigger] e[k] == start@ || out@.contains(e[k])
                                || stack.deep_view().contains(e[k]),
                    decreases items.len() - j,
                {
                    let ghost t0 = stack.deep_view();
                    proof {
                        assert(e[j as int] == items@[j as int]@);
                        assert(e.contains(e[j as int]));
                        assert(depends(deps, p@, e[j as int]));
                        assert(all.contains(e[j as int]));
                        lemma_one_further(deps, start@, p@, e[j as int]);
                    }
                    if !same_text(items[j].as_str(), start.as_str()) && !out.contains(&items[j]) {
                        stack.push(items[j].clone());
                        proof {
                            let t1 = stack.deep_view();
                            assert(t1 =~= t0.push(e[j as int]));
                            assert(t1[t0.len() as int] == e[j as int]);
                            assert forall|q: Seq<char>| t0.contains(q) implies t1.contains(q) by {
                                let k = choose|k: int| 0 <= k < t0.len() && t0[k] == q;
                                assert(t1[k] == q);
                            }
                            assert forall|i: int| 0 <= i < t1.len() implies #[trigger] reaches(deps, start@, t1[i])
                                && all.contains(t1[i]) by {
                                if i < t0.len() {
                                    assert(reaches(deps, start@, t0[i]));
                                    assert(t1[i] == t0[i]);
                                } else {
                                    assert(t1[i] == e[j as int]);
                                }
                            }
                        }
                    } else {
                        assert(stack.deep_view() == t0);
                    }
                    j += 1;
                }
                proof {
                    assert forall|q: Seq<char>| #[trigger] depends(deps, p@, q) implies q == start@ || out@.contains(q)
                        || stack.deep_view().contains(q) by {
                        let k = choose|k: int| 0 <= k < e.len() && e[k] == q;
                    }
                }
            },
            None => {},
        }
        proof {
            assert forall|x: Seq<char>, q: Seq<char>| #[trigger] depends(deps, x, q) && out@.contains(x) implies q
                == start@ || out@.contains(q) || stack.deep_view().contains(q) by {
                if x != p@ {
                    assert(o0.contains(x));
                }
            }
        }
    }
    proof {
        assert(stack.deep_view().len() == 0);
        assert forall|p: Seq<char>| out@.contains(p) == closure_of(deps, start@).contains(p) by {
            if p != start@ && reaches(deps, start@, p) {
                let path = choose|path: Seq<Seq<char>>| chain_leads(deps, start@, p, path);
                lemma_closed_set(deps, start@, out@, path, path.len() - 1);
            }
        }
        assert(out@ =~= closure_of(deps, start@));
    }
    out
}

/// The elements of a sequence are its last one and those before it.
proof fn lemma_pop_members<A>(s: Seq<A>)
    requires
        s.len() > 0,
    ensures
        forall|x: A| #[trigger] s.contains(x) ==> x == s.last() || s.drop_last().contains(x),
{
    assert forall|x: A| #[trigger] s.contains(x) implies x == s.last() || s.drop_last().contains(x) by {
        let i = choose|i: int| 0 <= i < s.len() && s[i] == x;
        if i < s.len() - 1 {
            assert(s.drop_last()[i] == x);
        }
    }
}

/// The value of a key is that of its entry.
proof fn lemma_map_value(m: &OrdMap<String, OrdSet<String>>, k: Seq<char>)
    requires
        m@.contains_key(k),
    ensures
        exists|i: int| 0 <= i < m.pairs().len() && #[trigger] m.pairs()[i] == (k, m@[k]),
{
}

/// Whether a package of the metadata has a name.
pub open spec fn is_named(package: JsonView, name: Seq<char>) -> bool {
    package.get_text("name"@) == Some(name)
}

/// The names of the packages.
pub open spec fn package_names(packages: Seq<JsonView>) -> Set<Seq<char>>
    decreases packages.len(),
{
    if packages.len() == 0 {
        Set::empty()
    } else {
        match packages.last().get_text("name"@) {
            Some(name) => package_names(packages.drop_last()).insert(name),
            None => package_names(packages.drop_last()),
        }
    }
}

/// The crate root of the last library among the targets of a package.
pub open spec fn last_lib(targets: Seq<JsonView>, root: Seq<char>, windows: bool) -> Option<Seq<char>>
    decreases targets.len(),
{
    if targets.len() == 0 {
        None
    } else {
        match target_of(targets.last(), root, windows) {
            Some(t) if t.kind == TargetKind::Lib => Some(t.src_path),
            _ => last_lib(targets.drop_last(), root, windows),
        }
    }
}

/// The library crate roots of the packages.
pub open spec fn lib_roots(packages: Seq<JsonView>, root: Seq<char>, windows: bool) -> Map<Seq<char>, Seq<char>>
    decreases packages.len(),
{
    if packages.len() == 0 {
        Map::empty()
    } else {
        let before = lib_roots(packages.drop_last(), root, windows);
        let package = packages.last();
        match (package.get_text("name"@), last_lib(listed(package, "targets"@), root, windows)) {
            (Some(name), Some(src)) => before.insert(name, src),
            _ => before,
        }
    }
}

/// Whether a dependency of a package is compiled into its tests and is a package of the
/// workspace: one that is not for the build script only.
pub open spec fn is_workspace_dep(dep: JsonView, names: Set<Seq<char>>) -> bool {
    match dep.get_text("name"@) {
        Some(name) => dep.get_text("kind"@) != Some("build"@) && names.contains(name),
        None => false,
    }
}

/// The workspace packages among dependencies.
pub open spec fn workspace_deps(deps: Seq<JsonView>, names: Set<Seq<char>>) -> Set<Seq<char>>
    decreases deps.len(),
{
    if deps.len() == 0 {
        Set::empty()
    } else if is_workspace_dep(deps.last(), names) {
        workspace_deps(deps.drop_last(), names).insert(deps.last().get_text("name"@)->0)
    } else {
        workspace_deps(deps.drop_last(), names)
    }
}

/// The workspace packages that each package depends on.
pub open spec fn deps_of(packages: Seq<JsonView>, names: Set<Seq<char>>) -> Deps
    decreases packages.len(),
{
    if packages.len() == 0 {
        Map::empty()
    } else {
        let before = deps_of(packages.drop_last(), names);
        match (packages.last().get_text("name"@), packages.last().get_array("dependencies"@)) {
            (Some(name), Some(deps)) => before.insert(name, workspace_deps(deps, names)),
            _ => before,
        }
    }
}

/// The crate roots that the tests of a target depend on: its own, the library's of its package,
/// and the libraries' of the workspace packages that its package depends on.
pub open spec fn target_sentinels(
    package: Seq<char>,
    target: TestTargetView,
    libs: Map<Seq<char>, Seq<char>>,
    deps: Deps,
) -> Set<Seq<char>> {
    Set::new(
        |path: Seq<char>|
            {
                ||| path == target.src_path
                ||| target.kind != TargetKind::Lib && libs.contains_key(package) && libs[package] == path
                ||| exists|dep: Seq<char>| #[trigger]
                    closure_of(deps, package).contains(dep) && libs.contains_key(dep) && libs[dep] == path
            },
    )
}

/// The map with the sentinels of those targets of a package that run tests.
pub open spec fn with_targets(
    before: Map<Seq<char>, Set<Seq<char>>>,
    package: Seq<char>,
    targets: Seq<JsonView>,
    root: Seq<char>,
    windows: bool,
    libs: Map<Seq<char>, Seq<char>>,
    deps: Deps,
) -> Map<Seq<char>, Set<Seq<char>>>
    decreases targets.len(),
{
    if targets.len() == 0 {
        before
    } else {
        let m = with_targets(before, package, targets.drop_last(), root, windows, libs, deps);
        match target_of(targets.last(), root, windows) {
            Some(t) if t.runs_tests => m.insert(
                binary_id_of(package, t.kind, t.name),
                target_sentinels(package, t, libs, deps),
            ),
            _ => m,
        }
    }
}

/// The map with the sentinels of the packages of one name.
pub open spec fn with_packages(
    before: Map<Seq<char>, Set<Seq<char>>>,
    name: Seq<char>,
    packages: Seq<JsonView>,
    root: Seq<char>,
    windows: bool,
    libs: Map<Seq<char>, Seq<char>>,
    deps: Deps,
) -> Map<Seq<char>, Set<Seq<char>>>
    decreases packages.len(),
{
    if packages.len() == 0 {
        before
    } else {
        let m = with_packages(before, name, packages.drop_last(), root, windows, libs, deps);
        if is_named(packages.last(), name) {
            with_targets(m, name, listed(packages.last(), "targets"@), root, windows, libs, deps)
        } else {
            m
        }
    }
}

/// The sentinels of the packages with the given names, in that order.
pub open spec fn with_names(
    names: Seq<Seq<char>>,
    packages: Seq<JsonView>,
    root: Seq<char>,
    windows: bool,
    libs: Map<Seq<char>, Seq<char>>,
    deps: Deps,
) -> Map<Seq<char>, Set<Seq<char>>>
    decreases names.len(),
{
    if names.len() == 0 {
        Map::empty()
    } else {
        with_packages(
            with_names(names.drop_last(), packages, root, windows, libs, deps),
            names.last(),
            packages,
            root,
            windows,
            libs,
            deps,
        )
    }
}

/// The crate roots that the tests of each binary depend on.
pub open spec fn sentinels_of(metadata: JsonView, root: Seq<char>, windows: bool) -> Map<Seq<char>, Set<Seq<char>>> {
    let packages = listed(metadata, "packages"@);
    let names = package_names(packages);
    with_names(
        crate::ordered::in_order::<String>(names),
        packages,
        root,
        windows,
        lib_roots(packages, root, windows),
        deps_of(packages, names),
    )
}

/// The names of the packages.
fn read_names(packages: &Vec<Json>) -> (r: OrdSet<String>)
    ensures
        r@ == package_names(packages.deep_view()),
{
    let ghost d = packages.deep_view();
    let mut names: OrdSet<String> = OrdSet::new();
    let mut i: usize = 0;
    assert(d.take(0) =~= Seq::<JsonView>::empty());
    while i < packages.len()
        invariant
            i <= packages.len(),
            d == packages.deep_view(),
            names@ == package_names(d.take(i as int)),
        decreases packages.len() - i,
    {
        assert(d[i as int] == packages@[i as int]@);
        assert(d.take(i + 1).drop_last() =~= d.take(i as int));
        match packages[i].get_str("name") {
            Some(name) => {
                names.insert(name.to_owned());
            },
            None => {},
        }
        i += 1;
    }
    assert(d.take(i as int) =~= d);
    names
}

/// The crate root of the last library among the targets of a package.
fn read_last_lib(package: &Json, root: &str, windows: bool) -> (r: Option<String>)
    ensures
        r.deep_view() == last_lib(listed(package@, "targets"@), root@, windows),
{
    match package.get_array("targets") {
        Some(targets) => {
            let ghost d = targets.deep_view();
            let mut i: usize = targets.len();
            assert(d.take(i as int) =~= d);
            while i > 0
                invariant
                    i <= targets.len(),
                    d == targets.deep_view(),
                    d == listed(package@, "targets"@),
                    last_lib(d, root@, windows) == last_lib(d.take(i as int), root@, windows),
                decreases i,
            {
                assert(d[i - 1] == targets@[i - 1]@);
                assert(d.take(i as int).drop_last() =~= d.take(i - 1));
                assert(d.take(i as int).last() == d[i - 1]);
                match parse_target(&targets[i - 1], root, windows) {
                    Some(t) => {
                        if t.kind == TargetKind::Lib {
                            return Some(t.src_path);
                        }
                    },
                    None => {},
                }
                i -= 1;
            }
            None
        },
        None => None,
    }
}

/// The library crate roots of the packages.
fn read_libs(packages: &Vec<Json>, root: &str, windows: bool) -> (r: OrdMap<String, String>)
    ensures
        r@ == lib_roots(packages.deep_view(), root@, windows),
{
    let ghost d = packages.deep_view();
    let mut libs: OrdMap<String, String> = OrdMap::new();
    let mut i: usize = 0;
    assert(d.take(0) =~= Seq::<JsonView>::empty());
    while i < packages.len()
        invariant
            i <= packages.len(),
            d == packages.deep_view(),
            libs@ == lib_roots(d.take(i as int), root@, windows),
        decreases packages.len() - i,
    {
        assert(d[i as int] == packages@[i as int]@);
        assert(d.take(i + 1).drop_last() =~= d.take(i as int));
        match (packages[i].get_str("name"), read_last_lib(&packages[i], root, windows)) {
            (Some(name), Some(src)) => {
                libs.insert(name.to_owned(), src);
            },
            _ => {},
        }
        i += 1;
    }
    assert(d.take(i as int) =~= d);
    libs
}

/// The workspace packages among dependencies.
fn read_workspace_deps(deps: &Vec<Json>, names: &OrdSet<String>) -> (r: OrdSet<String>)
    ensures
        r@ == workspace_deps(deps.deep_view(), names@),
{
    let ghost d = deps.deep_view();
    let mut out: OrdSet<String> = OrdSet::new();
    let mut i: usize = 0;
    assert(d.take(0) =~= Seq::<JsonView>::empty());
    while i < deps.len()
        invariant
            i <= deps.len(),
            d == deps.deep_view(),
            out@ == workspace_deps(d.take(i as int), names@),
        decreases deps.len() - i,
    {
        assert(d[i as int] == deps@[i as int]@);
        assert(d.take(i + 1).drop_last() =~= d.take(i as int));
        match deps[i].get_str("name") {
            Some(name) => {
                let build = match deps[i].get_str("kind") {
                    Some(kind) => same_text(kind, "build"),
                    None => false,
                };
                let name = name.to_owned();
                if !build && names.contains(&name) {
                    out.insert(name);
                }
            },
            None => {},
        }
        i += 1;
    }
    assert(d.take(i as int) =~= d);
    out
}

/// The workspace packages that each package depends on.
fn read_deps(packages: &Vec<Json>, names: &OrdSet<String>) -> (r: OrdMap<String, OrdSet<String>>)
    ensures
        r@ == deps_of(packages.deep_view(), names@),
{
    let ghost d = packages.deep_view();
    let mut deps: OrdMap<String, OrdSet<String>> = OrdMap::new();
    let mut i: usize = 0;
    assert(d.take(0) =~= Seq::<JsonView>::empty());
    while i < packages.len()
        invariant
            i <= packages.len(),
            d == packages.deep_view(),
            deps@ == deps_of(d.take(i as int), names@),
        decreases packages.len() - i,
    {
        assert(d[i as int] == packages@[i as int]@);
        assert(d.take(i + 1).drop_last() =~= d.take(i as int));
        match (packages[i].get_str("name"), packages[i].get_array("dependencies")) {
            (Some(name), Some(list)) => {
                deps.insert(name.to_owned(), read_workspace_deps(list, names));
            },
            _ => {},
        }
        i += 1;
    }
    assert(d.take(i as int) =~= d);
    deps
}

/// The crate roots that the tests of a target depend on.
fn sentinels_for(
    package: &String,
    target: &TestTarget,
    libs: &OrdMap<String, String>,
    closure: &OrdSet<String>,
    Ghost(deps): Ghost<Deps>,
) -> (r: OrdSet<String>)
    requires
        closure@ == closure_of(deps, package@),
    ensures
        r@ == target_sentinels(package@, target@, libs@, deps),
{
    let mut out: OrdSet<String> = OrdSet::new();
    out.insert(target.src_path.clone());
    if target.kind != TargetKind::Lib {
        match libs.get(package) {
            Some(lib) => {
                out.insert(lib.clone());
            },
            None => {},
        }
    }
    let items = closure.items();
    let ghost e = closure.elems();
    let ghost o0 = out@;
    let mut i: usize = 0;
    while i < items.len()
        invariant
            i <= items.len(),
            e == items.deep_view(),
            forall|x: Seq<char>| #[trigger]
                out@.contains(x) <==> o0.contains(x) || exists|k: int|
                    0 <= k < i && libs@.contains_key(#[trigger] e[k]) && libs@[e[k]] == x,
        decreases items.len() - i,
    {
        let ghost o1 = out@;
        assert(e[i as int] == items@[i as int]@);
        match libs.get(&items[i]) {
            Some(lib) => {
                out.insert(lib.clone());
            },
            None => {},
        }
        proof {
            assert forall|x: Seq<char>| #[trigger] out@.contains(x) <==> o0.contains(x) || exists|k: int|
                0 <= k < i + 1 && libs@.contains_key(#[trigger] e[k]) && libs@[e[k]] == x by {
                if out@.contains(x) && !o1.contains(x) {
                    assert(libs@.contains_key(e[i as int]) && libs@[e[i as int]] == x);
                }
                if o1.contains(x) && !o0.contains(x) {
                    let k = choose|k: int| 0 <= k < i && libs@.contains_key(#[trigger] e[k]) && libs@[e[k]] == x;
                    assert(libs@.contains_key(e[k]));
                }
                if exists|k: int| 0 <= k < i + 1 && libs@.contains_key(#[trigger] e[k]) && libs@[e[k]] == x {
                    let k = choose|k: int| 0 <= k < i + 1 && libs@.contains_key(#[trigger] e[k]) && libs@[e[k]] == x;
                    if k < i {
                        assert(o1.contains(x));
                    }
                }
            }
        }
        i += 1;
    }
    proof {
        let want = target_sentinels(package@, target@, libs@, deps);
        assert forall|x: Seq<char>| out@.contains(x) == want.contains(x) by {
            if out@.contains(x) && !o0.contains(x) {
                let k = choose|k: int| 0 <= k < i && libs@.contains_key(#[trigger] e[k]) && libs@[e[k]] == x;
                assert(e.contains(e[k]));
                assert(closure_of(deps, package@).contains(e[k]));
            }
            if exists|dep: Seq<char>| #[trigger]
                closure_of(deps, package@).contains(dep) && libs@.contains_key(dep) && libs@[dep] == x {
                let dep = choose|dep: Seq<char>| #[trigger]
                    closure_of(deps, package@).contains(dep) && libs@.contains_key(dep) && libs@[dep] == x;
                let k = choose|k: int| 0 <= k < e.len() && e[k] == dep;
                assert(libs@.contains_key(e[k]));
            }
        }
        assert(out@ =~= want);
    }
    out
}

/// Adds the sentinels of those targets of a package that run tests.
fn add_targets(
    out: &mut OrdMap<String, OrdSet<String>>,
    package: &String,
    targets: &Vec<Json>,
    root: &str,
    windows: bool,
    libs: &OrdMap<String, String>,
    closure: &OrdSet<String>,
    Ghost(deps): Ghost<Deps>,
)
    requires
        closure@ == closure_of(deps, package@),
    ensures
        final(out)@ == with_targets(old(out)@, package@, targets.deep_view(), root@, windows, libs@, deps),
{
    let ghost d = targets.deep_view();
    let mut i: usize = 0;
    assert(d.take(0) =~= Seq::<JsonView>::empty());
    while i < targets.len()
        invariant
            i <= targets.len(),
            d == targets.deep_view(),
            closure@ == closure_of(deps, package@),
            out@ == with_targets(old(out)@, package@, d.take(i as int), root@, windows, libs@, deps),
        decreases targets.len() - i,
    {
        assert(d[i as int] == targets@[i as int]@);
        assert(d.take(i + 1).drop_last() =~= d.take(i as int));
        match parse_target(&targets[i], root, windows) {
            Some(t) => {
                if t.runs_tests {
                    let id = build_binary_id(package.as_str(), t.kind, t.name.as_str());
                    let sentinels = sentinels_for(package, &t, libs, closure, Ghost(deps));
                    out.insert(id, sentinels);
                }
            },
            None => {},
        }
        i += 1;
    }
    assert(d.take(i as int) =~= d);
}

/// Adds the sentinels of the packages of one name.
fn add_packages(
    out: &mut OrdMap<String, OrdSet<String>>,
    name: &String,
    packages: &Vec<Json>,
    root: &str,
    windows: bool,
    libs: &OrdMap<String, String>,
    deps: &OrdMap<String, OrdSet<String>>,
)
    ensures
        final(out)@ == with_packages(old(out)@, name@, packages.deep_view(), root@, windows, libs@, deps@),
{
    let closure = transitive_closure(name, deps);
    let ghost d = packages.deep_view();
    let mut i: usize = 0;
    assert(d.take(0) =~= Seq::<JsonView>::empty());
    while i < packages.len()
        invariant
            i <= packages.len(),
            d == packages.deep_view(),
            closure@ == closure_of(deps@, name@),
            out@ == with_packages(old(out)@, name@, d.take(i as int), root@, windows, libs@, deps@),
        decreases packages.len() - i,
    {
        assert(d[i as int] == packages@[i as int]@);
        assert(d.take(i + 1).drop_last() =~= d.take(i as int));
        let named = match packages[i].get_str("name") {
            Some(n) => same_text(n, name.as_str()),
            None => false,
        };
        if named {
            match packages[i].get_array("targets") {
                Some(targets) => {
                    add_targets(out, name, targets, root, windows, libs, &closure, Ghost(deps@));
                },
                None => {},
            }
        }
        i += 1;
    }
    assert(d.take(i as int) =~= d);
}

/// Which crate roots the tests of each binary depend on, by binary id.
fn read_sentinels(metadata: &Json, workspace_root: &str, windows: bool) -> (r: OrdMap<
    String,
    OrdSet<String>,
>)
    ensures
        r@ == sentinels_of(metadata@, workspace_root@, windows),
{
    let mut out: OrdMap<String, OrdSet<String>> = OrdMap::new();
    let packages = match metadata.get_array("packages") {
        Some(packages) => packages,
        None => {
            proof {
                let none = Seq::<Seq<char>>::empty();
                assert(none.to_set() =~= Set::<Seq<char>>::empty());
                crate::ordered::lemma_in_order::<String>(none);
                assert(out@ =~= sentinels_of(metadata@, workspace_root@, windows));
            }
            return out;
        },
    };
    let names = read_names(packages);
    let libs = read_libs(packages, workspace_root, windows);
    let deps = read_deps(packages, &names);
    let items = names.items();
    let ghost e = names.elems();
    let ghost d = packages.deep_view();
    let mut i: usize = 0;
    assert(e.take(0) =~= Seq::<Seq<char>>::empty());
    while i < items.len()
        invariant
            i <= items.len(),
            e == items.deep_view(),
            d == packages.deep_view(),
            out@ == with_names(e.take(i as int), d, workspace_root@, windows, libs@, deps@),
        decreases items.len() - i,
    {
        assert(e[i as int] == items@[i as int]@);
        assert(e.take(i + 1).drop_last() =~= e.take(i as int));
        add_packages(&mut out, &items[i], packages, workspace_root, windows, &libs, &deps);
        i += 1;
    }
    proof {
        assert(e.take(i as int) =~= e);
        crate::ordered::lemma_in_order::<String>(e);
    }
    out
}

/// The tests of a target depend on the target's own crate root, on the library of its package,
/// and on the library of every workspace package that the package depends on, however indirectly.
pub proof fn law_structural_edits_reach_dependents(
    package: Seq<char>,
    target: TestTargetView,
    libs: Map<Seq<char>, Seq<char>>,
    deps: Deps,
    dep: Seq<char>,
)
    requires
        libs.contains_key(dep),
    ensures
        target_sentinels(package, target, libs, deps).contains(target.src_path),
        dep == package && target.kind != TargetKind::Lib ==> target_sentinels(package, target, libs, deps).contains(
            libs[dep],
        ),
        dep != package && reaches(deps, package, dep) ==> target_sentinels(package, target, libs, deps).contains(
            libs[dep],
        ),
{
    if dep != package && reaches(deps, package, dep) {
        assert(closure_of(deps, package).contains(dep));
    }
}

/// Project root information.
pub struct ProjectRoot {
    /// Workspace root directory. For single-crate projects this is the crate root.
    pub workspace_root: String,
    /// All manifests of the workspace: the root manifest and every member's, sorted and without
    /// repetition.
    pub manifest_paths: Vec<String>,
    /// What `cargo metadata` printed.
    pub metadata: Json,
}

impl ProjectRoot {
    /// Which crate roots the tests of each binary depend on, by binary id.
    ///
    /// An edit in such a file re-selects the tests of the binary although function-level coverage
    /// cannot observe the dependency: a `mod` or `use` item holds no executable region.
    pub fn crate_root_sentinels_by_binary_id(&self, windows: bool) -> (r: OrdMap<String, OrdSet<String>>)
        ensures
            r@ == sentinels_of(self.metadata@, self.workspace_root@, windows),
    {
        read_sentinels(&self.metadata, self.workspace_root.as_str(), windows)
    }
}

/// Why the project root is unknown.
#[derive(Debug, PartialEq, Eq)]
pub enum ProjectError {
    /// The metadata is no JSON document; the parser's message.
    BadMetadata(String),
    /// The metadata does not name the workspace root.
    NoWorkspaceRoot,
}

/// The value of a [`ProjectError`].
#[verifier::ext_equal]
pub enum ProjectErrorView {
    BadMetadata(Seq<char>),
    NoWorkspaceRoot,
}

impl View for ProjectError {
    type V = ProjectErrorView;

    open spec fn view(&self) -> ProjectErrorView {
        match self {
            ProjectError::BadMetadata(e) => ProjectErrorView::BadMetadata(e@),
            ProjectError::NoWorkspaceRoot => ProjectErrorView::NoWorkspaceRoot,
        }
    }
}

/// The message of a [`ProjectError`].
pub open spec fn project_message(e: ProjectErrorView) -> Seq<char> {
    match e {
        ProjectErrorView::BadMetadata(m) => "failed to parse cargo metadata: "@ + m,
        ProjectErrorView::NoWorkspaceRoot => "cargo metadata missing workspace_root"@,
    }
}

impl ProjectError {
    /// The message for the user.
    pub fn message(&self) -> (r: String)
        ensures
            r@ == project_message(self@),
    {
        match self {
            ProjectError::BadMetadata(m) => String::from_str("failed to parse cargo metadata: ").concat(m.as_str()),
            ProjectError::NoWorkspaceRoot => String::from_str("cargo metadata missing workspace_root"),
        }
    }
}

/// The document that `cargo metadata` printed.
pub open spec fn metadata_of(stdout: Seq<u8>) -> Result<JsonView, ProjectErrorView> {
    match crate::json::json_bytes(stdout) {
        Ok(j) => Ok(j),
        Err(e) => Err(ProjectErrorView::BadMetadata(e)),
    }
}

/// Reads what `cargo metadata` printed.
pub fn read_metadata(stdout: &[u8]) -> (r: Result<Json, ProjectError>)
    ensures
        match r {
            Ok(j) => metadata_of(stdout@) == Ok::<JsonView, ProjectErrorView>(j@),
            Err(e) => metadata_of(stdout@) == Err::<JsonView, ProjectErrorView>(e@),
        },
{
    match read_json_bytes(stdout) {
        Ok(j) => Ok(j),
        Err(e) => Err(ProjectError::BadMetadata(e)),
    }
}

/// The manifest at the workspace root.
pub open spec fn root_manifest_of(workspace_root: Seq<char>) -> Seq<char> {
    crate::paths::joined_path(workspace_root, "Cargo.toml"@)
}

/// The manifest at the workspace root, whose existence the caller looks up. A virtual workspace
/// has one that belongs to no package.
pub fn root_manifest(metadata: &Json) -> (r: Option<String>)
    ensures
        match (r, metadata@.get_text("workspace_root"@)) {
            (Some(path), Some(root)) => path@ == root_manifest_of(root),
            (None, None) => true,
            _ => false,
        },
{
    match metadata.get_str("workspace_root") {
        Some(root) => Some(join_path(root, "Cargo.toml")),
        None => None,
    }
}

/// The manifests that the packages name, in their order.
pub open spec fn named_manifests(packages: Seq<JsonView>) -> Seq<Seq<char>>
    decreases packages.len(),
{
    if packages.len() == 0 {
        Seq::empty()
    } else {
        match packages.last().get_text("manifest_path"@) {
            Some(path) => named_manifests(packages.drop_last()).push(path),
            None => named_manifests(packages.drop_last()),
        }
    }
}

/// All manifests: the packages' and, where it exists, the workspace's.
pub open spec fn all_manifests(metadata: JsonView, workspace_root: Seq<char>, root_exists: bool) -> Seq<Seq<char>> {
    let named = named_manifests(listed(metadata, "packages"@));
    if root_exists {
        named.push(root_manifest_of(workspace_root))
    } else {
        named
    }
}

/// Whether `sorted` holds the paths of `paths` in the order of their components, each once, in
/// its first spelling.
pub open spec fn sorted_paths(paths: Seq<Seq<char>>, sorted: Seq<Seq<char>>) -> bool {
    let codes = sorted.map_values(|p: Seq<char>| crate::paths::coded_path(p));
    &&& crate::ordered::increasing::<Vec<String>>(codes)
    &&& forall|i: int|
        0 <= i < paths.len() ==> codes.contains(crate::paths::coded_path(#[trigger] paths[i]))
    &&& forall|k: int| 0 <= k < sorted.len() ==> is_first_spelling(paths, #[trigger] sorted[k])
}

/// Whether a path stands among others as the first spelling of itself.
pub open spec fn is_first_spelling(paths: Seq<Seq<char>>, path: Seq<char>) -> bool {
    exists|i: int| #[trigger] spells_first(paths, path, i)
}

/// Whether a path stands at a place, with no other spelling of it before.
pub open spec fn spells_first(paths: Seq<Seq<char>>, path: Seq<char>, i: int) -> bool {
    &&& 0 <= i < paths.len()
    &&& paths[i] == path
    &&& forall|j: int| 0 <= j < i ==> crate::paths::coded_path(#[trigger] paths[j]) != crate::paths::coded_path(path)
}

/// The map from each path to its first spelling.
pub open spec fn spellings(paths: Seq<Seq<char>>) -> Map<Seq<Seq<char>>, Seq<char>>
    decreases paths.len(),
{
    if paths.len() == 0 {
        Map::empty()
    } else {
        let before = spellings(paths.drop_last());
        let code = crate::paths::coded_path(paths.last());
        if before.contains_key(code) {
            before
        } else {
            before.insert(code, paths.last())
        }
    }
}

proof fn lemma_spellings(paths: Seq<Seq<char>>)
    ensures
        forall|i: int|
            0 <= i < paths.len() ==> spellings(paths).contains_key(crate::paths::coded_path(#[trigger] paths[i])),
        forall|c: Seq<Seq<char>>| #[trigger]
            spellings(paths).contains_key(c) ==> is_first_spelling(paths, spellings(paths)[c])
                && crate::paths::coded_path(spellings(paths)[c]) == c,
    decreases paths.len(),
{
    if paths.len() > 0 {
        let b = paths.drop_last();
        lemma_spellings(b);
        let code = crate::paths::coded_path(paths.last());
        assert forall|i: int| 0 <= i < paths.len() implies spellings(paths).contains_key(
            crate::paths::coded_path(#[trigger] paths[i]),
        ) by {
            if i < b.len() {
                assert(b[i] == paths[i]);
            }
        }
        assert forall|c: Seq<Seq<char>>| #[trigger] spellings(paths).contains_key(c) implies is_first_spelling(
            paths,
            spellings(paths)[c],
        ) && crate::paths::coded_path(spellings(paths)[c]) == c by {
            if spellings(b).contains_key(c) {
                let p = spellings(b)[c];
                let i = choose|i: int| #[trigger] spells_first(b, p, i);
                assert forall|j: int| 0 <= j < i implies crate::paths::coded_path(#[trigger] paths[j])
                    != crate::paths::coded_path(p) by {
                    assert(b[j] == paths[j]);
                }
                assert(spells_first(paths, p, i));
            } else {
                let n = paths.len() - 1;
                assert forall|j: int| 0 <= j < n implies crate::paths::coded_path(#[trigger] paths[j]) != code by {
                    assert(b[j] == paths[j]);
                }
                assert(spells_first(paths, paths.last(), n));
            }
        }
    }
}

/// Sorts paths by their components and drops repetitions.
pub fn sort_paths(paths: &Vec<String>) -> (r: Vec<String>)
    ensures
        sorted_paths(paths.deep_view(), r.deep_view()),
{
    let ghost d = paths.deep_view();
    let mut map: OrdMap<Vec<String>, String> = OrdMap::new();
    let mut i: usize = 0;
    assert(d.take(0) =~= Seq::<Seq<char>>::empty());
    while i < paths.len()
        invariant
            i <= paths.len(),
            d == paths.deep_view(),
            map@ == spellings(d.take(i as int)),
        decreases paths.len() - i,
    {
        assert(d[i as int] == paths@[i as int]@);
        assert(d.take(i + 1).drop_last() =~= d.take(i as int));
        let code = path_code(paths[i].as_str());
        if !map.contains_key(&code) {
            map.insert(code, paths[i].clone());
        }
        i += 1;
    }
    assert(d.take(i as int) =~= d);
    let entries = map.entries();
    let ghost pairs = map.pairs();
    let mut out: Vec<String> = Vec::new();
    let mut k: usize = 0;
    while k < entries.len()
        invariant
            k <= entries.len(),
            pairs == map.pairs(),
            entries.len() == pairs.len(),
            forall|j: int| 0 <= j < entries.len() ==> (#[trigger] entries@[j]).1.deep_view() == pairs[j].1,
            out.len() == k,
            forall|j: int| 0 <= j < k ==> (#[trigger] out.deep_view()[j]) == pairs[j].1,
        decreases entries.len() - k,
    {
        let ghost before = out.deep_view();
        assert(entries@[k as int].1.deep_view() == pairs[k as int].1);
        out.push(entries[k].1.clone());
        assert(out.deep_view() =~= before.push(pairs[k as int].1));
        k += 1;
    }
    proof {
        lemma_spellings(d);
        let o = out.deep_view();
        let codes = o.map_values(|p: Seq<char>| crate::paths::coded_path(p));
        assert forall|j: int| 0 <= j < o.len() implies is_first_spelling(d, #[trigger] o[j]) && codes[j] == pairs[j].0 by {
            assert(map@.contains_key(entries@[j].0.deep_view()));
            assert(o[j] == pairs[j].1);
        }
        assert(codes =~= map.keys());
        assert forall|j: int| 0 <= j < d.len() implies codes.contains(crate::paths::coded_path(#[trigger] d[j])) by {
            assert(map@.dom().contains(crate::paths::coded_path(d[j])));
        }
    }
    out
}

/// The manifests that the packages name.
fn read_manifests(metadata: &Json) -> (r: Vec<String>)
    ensures
        r.deep_view() == named_manifests(listed(metadata@, "packages"@)),
{
    let mut out: Vec<String> = Vec::new();
    assert(out.deep_view() =~= Seq::<Seq<char>>::empty());
    match metadata.get_array("packages") {
        Some(packages) => {
            let ghost d = packages.deep_view();
            let mut i: usize = 0;
            assert(d.take(0) =~= Seq::<JsonView>::empty());
            while i < packages.len()
                invariant
                    i <= packages.len(),
                    d == packages.deep_view(),
                    out.deep_view() == named_manifests(d.take(i as int)),
                decreases packages.len() - i,
            {
                let ghost before = out.deep_view();
                assert(d[i as int] == packages@[i as int]@);
                assert(d.take(i + 1).drop_last() =~= d.take(i as int));
                match packages[i].get_str("manifest_path") {
                    Some(path) => {
                        out.push(path.to_owned());
                        assert(out.deep_view() =~= before.push(path@));
                    },
                    None => {},
                }
                i += 1;
            }
            assert(d.take(i as int) =~= d);
        },
        None => {},
    }
    out
}

/// The project that the metadata describes. `root_manifest_exists` says whether there is a
/// manifest at [`root_manifest`]: a virtual workspace has one that belongs to no package, yet it
/// decides which crates are in the workspace.
pub fn find_project_root(metadata: Json, root_manifest_exists: bool) -> (r: Result<ProjectRoot, ProjectError>)
    ensures
        match (r, metadata@.get_text("workspace_root"@)) {
            (Ok(p), Some(root)) => {
                &&& p.workspace_root@ == root
                &&& p.metadata@ == metadata@
                &&& sorted_paths(all_manifests(metadata@, root, root_manifest_exists), p.manifest_paths.deep_view())
            },
            (Err(e), None) => e@ == ProjectErrorView::NoWorkspaceRoot,
            _ => false,
        },
{
    let workspace_root = match metadata.get_str("workspace_root") {
        Some(root) => root.to_owned(),
        None => {
            return Err(ProjectError::NoWorkspaceRoot);
        },
    };
    let mut paths = read_manifests(&metadata);
    if root_manifest_exists {
        let ghost before = paths.deep_view();
        let own = join_path(workspace_root.as_str(), "Cargo.toml");
        let ghost ov = own@;
        paths.push(own);
        assert(paths.deep_view() =~= before.push(ov));
    }
    let manifest_paths = sort_paths(&paths);
    Ok(ProjectRoot { workspace_root, manifest_paths, metadata })
}

} // verus!

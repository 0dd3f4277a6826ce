//! Laws of the workspace: which packages depend on which, and which crate roots matter to which tests.

use vstd::prelude::*;
use crate::json::JsonView;
use crate::project;
use crate::project::{TargetKind, TestTargetView};

verus! {

/// A name is that of a package exactly where some package carries it.
pub proof fn law_package_names(packages: Seq<JsonView>, name: Seq<char>)
    ensures
        project::package_names(packages).contains(name) <==> exists|i: int|
            0 <= i < packages.len() && (#[trigger] packages[i]).get_text("name"@) == Some(name),
        project::package_names(packages).finite(),
    decreases packages.len(),
{
    if packages.len() > 0 {
        let b = packages.drop_last();
        law_package_names(b, name);
        assert(packages[packages.len() - 1] == packages.last());
        if exists|i: int| 0 <= i < packages.len() && (#[trigger] packages[i]).get_text("name"@) == Some(name) {
            let i = choose|i: int| 0 <= i < packages.len() && (#[trigger] packages[i]).get_text("name"@) == Some(name);
            if i < b.len() {
                assert(b[i] == packages[i]);
            }
        }
        if exists|i: int| 0 <= i < b.len() && (#[trigger] b[i]).get_text("name"@) == Some(name) {
            let i = choose|i: int| 0 <= i < b.len() && (#[trigger] b[i]).get_text("name"@) == Some(name);
            assert(packages[i] == b[i]);
        }
    }
}

/// Among the dependencies of a package one named `to` counts: it is not for the build script alone.
pub open spec fn lists_dependency(dependencies: Seq<JsonView>, to: Seq<char>) -> bool {
    exists|d: int|
        {
            &&& 0 <= d < dependencies.len()
            &&& (#[trigger] dependencies[d]).get_text("name"@) == Some(to)
            &&& dependencies[d].get_text("kind"@) != Some("build"@)
        }
}

proof fn lemma_workspace_deps(dependencies: Seq<JsonView>, names: Set<Seq<char>>, to: Seq<char>)
    ensures
        project::workspace_deps(dependencies, names).contains(to) <==> names.contains(to) && lists_dependency(
            dependencies,
            to,
        ),
    decreases dependencies.len(),
{
    if dependencies.len() > 0 {
        let b = dependencies.drop_last();
        lemma_workspace_deps(b, names, to);
        let last = dependencies.last();
        assert(dependencies[dependencies.len() - 1] == last);
        if lists_dependency(b, to) {
            let d = choose|d: int|
                {
                    &&& 0 <= d < b.len()
                    &&& (#[trigger] b[d]).get_text("name"@) == Some(to)
                    &&& b[d].get_text("kind"@) != Some("build"@)
                };
            assert(dependencies[d] == b[d]);
        }
        if lists_dependency(dependencies, to) {
            let d = choose|d: int|
                {
                    &&& 0 <= d < dependencies.len()
                    &&& (#[trigger] dependencies[d]).get_text("name"@) == Some(to)
                    &&& dependencies[d].get_text("kind"@) != Some("build"@)
                };
            if d < b.len() {
                assert(b[d] == dependencies[d]);
            }
        }
    }
}

/// No other package carries the name of the `i`th.
pub open spec fn named_once(packages: Seq<JsonView>, i: int, name: Seq<char>) -> bool {
    &&& 0 <= i < packages.len()
    &&& packages[i].get_text("name"@) == Some(name)
    &&& forall|k: int|
        0 <= k < packages.len() && (#[trigger] packages[k]).get_text("name"@) == Some(name) ==> k == i
}

proof fn lemma_deps_of(packages: Seq<JsonView>, names: Set<Seq<char>>, i: int, name: Seq<char>)
    requires
        named_once(packages, i, name),
    ensures
        match packages[i].get_array("dependencies"@) {
            Some(dependencies) => project::deps_of(packages, names).contains_key(name) && project::deps_of(
                packages,
                names,
            )[name] == project::workspace_deps(dependencies, names),
            None => !project::deps_of(packages, names).contains_key(name),
        },
    decreases packages.len(),
{
    let b = packages.drop_last();
    assert(packages[packages.len() - 1] == packages.last());
    if i < b.len() {
        assert(b[i] == packages[i]);
        assert forall|k: int| 0 <= k < b.len() && (#[trigger] b[k]).get_text("name"@) == Some(name) implies k == i by {
            assert(b[k] == packages[k]);
        }
        lemma_deps_of(b, names, i, name);
    } else {
        lemma_no_deps(b, names, name);
        assert forall|k: int| 0 <= k < b.len() implies (#[trigger] b[k]).get_text("name"@) != Some(name) by {
            assert(b[k] == packages[k]);
        }
        lemma_no_deps(b, names, name);
    }
}

proof fn lemma_no_deps(packages: Seq<JsonView>, names: Set<Seq<char>>, name: Seq<char>)
    ensures
        (forall|k: int| 0 <= k < packages.len() ==> (#[trigger] packages[k]).get_text("name"@) != Some(name))
            ==> !project::deps_of(packages, names).contains_key(name),
    decreases packages.len(),
{
    if packages.len() > 0 && forall|k: int|
        0 <= k < packages.len() ==> (#[trigger] packages[k]).get_text("name"@) != Some(name) {
        let b = packages.drop_last();
        assert(packages[packages.len() - 1] == packages.last());
        assert forall|k: int| 0 <= k < b.len() implies (#[trigger] b[k]).get_text("name"@) != Some(name) by {
            assert(b[k] == packages[k]);
        }
        lemma_no_deps(b, names, name);
    }
}

/// A dependency on a package of the workspace counts whether it is an ordinary one or for tests alone,
/// and only one for the build script alone does not: a package depends on another exactly where one of
/// its entries names the other and is not of the kind `build`.
pub proof fn law_dependencies_are_those_listed(packages: Seq<JsonView>, i: int, from: Seq<char>, to: Seq<char>)
    requires
        named_once(packages, i, from),
    ensures
        project::depends(project::deps_of(packages, project::package_names(packages)), from, to) <==> {
            &&& packages[i].get_array("dependencies"@) is Some
            &&& lists_dependency(packages[i].get_array("dependencies"@)->0, to)
            &&& exists|k: int| 0 <= k < packages.len() && (#[trigger] packages[k]).get_text("name"@) == Some(to)
        },
{
    let names = project::package_names(packages);
    lemma_deps_of(packages, names, i, from);
    law_package_names(packages, to);
    if packages[i].get_array("dependencies"@) is Some {
        lemma_workspace_deps(packages[i].get_array("dependencies"@)->0, names, to);
    }
}

/// An entry without a kind, or of the kind `dev`, makes a dependency; one of the kind `build` alone
/// makes none.
pub proof fn law_kinds_of_dependencies(packages: Seq<JsonView>, i: int, from: Seq<char>, k: int, to: Seq<char>, d: int)
    requires
        named_once(packages, i, from),
        0 <= k < packages.len(),
        packages[k].get_text("name"@) == Some(to),
        packages[i].get_array("dependencies"@) is Some,
        0 <= d < packages[i].get_array("dependencies"@)->0.len(),
        packages[i].get_array("dependencies"@)->0[d].get_text("name"@) == Some(to),
    ensures
        ({
            let kind = packages[i].get_array("dependencies"@)->0[d].get("kind"@);
            kind is None || kind == Some(JsonView::Null) || kind == Some(JsonView::Text("dev"@)) ==> project::depends(
                project::deps_of(packages, project::package_names(packages)),
                from,
                to,
            )
        }),
        (forall|e: int|
            0 <= e < packages[i].get_array("dependencies"@)->0.len() && (#[trigger] packages[i].get_array(
                "dependencies"@,
            )->0[e]).get_text("name"@) == Some(to) ==> packages[i].get_array("dependencies"@)->0[e].get("kind"@) == Some(
                JsonView::Text("build"@),
            )) ==> !project::depends(project::deps_of(packages, project::package_names(packages)), from, to),
{
    reveal_strlit("dev");
    reveal_strlit("build");
    let names = project::package_names(packages);
    let dependencies = packages[i].get_array("dependencies"@)->0;
    assert("dev"@.len() == 3 && "build"@.len() == 5);
    lemma_deps_of(packages, names, i, from);
    law_package_names(packages, to);
    lemma_workspace_deps(dependencies, names, to);
    let kind = dependencies[d].get("kind"@);
    if kind is None || kind == Some(JsonView::Null) || kind == Some(JsonView::Text("dev"@)) {
        assert(dependencies[d].get_text("kind"@) != Some("build"@));
        assert(lists_dependency(dependencies, to));
    }
}

/// The kind of a target with one kind: libraries, procedural macros, binaries and integration tests
/// matter, and nothing else.
pub proof fn law_kind_of_a_target(kind: Seq<char>)
    ensures
        project::kind_of(seq![JsonView::Text(kind)]) == if kind == "lib"@ {
            Some(TargetKind::Lib)
        } else if kind == "proc-macro"@ {
            Some(TargetKind::ProcMacro)
        } else if kind == "bin"@ {
            Some(TargetKind::Bin)
        } else if kind == "test"@ {
            Some(TargetKind::Test)
        } else {
            None
        },
{
    let s = seq![JsonView::Text(kind)];
    assert forall|t: Seq<char>| #[trigger] project::lists_text(s, t) <==> t == kind by {
        if t == kind {
            assert(s[0] == JsonView::Text(t));
        }
    }
    reveal_strlit("lib");
    reveal_strlit("proc-macro");
    reveal_strlit("bin");
    reveal_strlit("test");
    assert("lib"@[0] == 'l' && "bin"@[0] == 'b' && "test"@[0] == 't' && "proc-macro"@[0] == 'p');
}

/// A target is read from its members: the path of its crate root below the workspace, and whether cargo
/// builds a test harness for it. One without a harness is read too.
pub proof fn law_target_is_read(target: JsonView, kinds: Seq<JsonView>, name: Seq<char>, root: Seq<char>, names: Seq<Seq<char>>)
    requires
        target.get_array("kind"@) == Some(kinds),
        project::kind_of(kinds) is Some,
        target.get_text("name"@) == Some(name),
        crate::path_laws::are_names(names),
        names.len() > 0,
        target.get_text("src_path"@) == Some(crate::paths::joined_path(root, crate::path_laws::path_of(names))),
    ensures
        project::target_of(target, root, false) is Some,
        project::target_of(target, root, false)->0.name == name,
        Some(project::target_of(target, root, false)->0.kind) == project::kind_of(kinds),
        project::target_of(target, root, false)->0.src_path == crate::path_laws::path_of(names),
        project::target_of(target, root, false)->0.runs_tests <==> target.get("test"@) == Some(JsonView::Bool(true)),
{
    crate::path_laws::law_joined_path_is_below(root, names);
}

/// The ids of the binaries of a package tell its targets apart: a library from a binary and an
/// integration test, and targets of one kind by their names.
pub proof fn law_binary_ids_tell_targets_apart(package: Seq<char>, a: Seq<char>, b: Seq<char>)
    requires
        !a.contains('/'),
        !b.contains('/'),
    ensures
        project::binary_id_of(package, TargetKind::Lib, a) == package,
        project::binary_id_of(package, TargetKind::ProcMacro, a) == package,
        project::binary_id_of(package, TargetKind::Test, a) == package + seq![':', ':'] + a,
        project::binary_id_of(package, TargetKind::Bin, a) == package + seq![':', ':', 'b', 'i', 'n', '/'] + a,
        project::binary_id_of(package, TargetKind::Bin, a) != project::binary_id_of(package, TargetKind::Test, b),
        a != b ==> project::binary_id_of(package, TargetKind::Test, a) != project::binary_id_of(
            package,
            TargetKind::Test,
            b,
        ),
        a != b ==> project::binary_id_of(package, TargetKind::Bin, a) != project::binary_id_of(
            package,
            TargetKind::Bin,
            b,
        ),
{
    reveal_strlit("::");
    reveal_strlit("::bin/");
    assert("::"@ =~= seq![':', ':']);
    assert("::bin/"@ =~= seq![':', ':', 'b', 'i', 'n', '/']);
    let n = package.len() as int;
    let x = project::binary_id_of(package, TargetKind::Bin, a);
    let y = project::binary_id_of(package, TargetKind::Test, b);
    if x == y {
        assert(x.len() == n + 6 + a.len() && y.len() == n + 2 + b.len());
        assert(x[n + 5] == '/');
        assert(y[n + 5] == b[3]);
        assert(b.contains(b[3]));
    }
    assert(project::binary_id_of(package, TargetKind::Test, a).skip(n + 2) =~= a);
    assert(project::binary_id_of(package, TargetKind::Test, b).skip(n + 2) =~= b);
    assert(project::binary_id_of(package, TargetKind::Bin, a).skip(n + 6) =~= a);
    assert(project::binary_id_of(package, TargetKind::Bin, b).skip(n + 6) =~= b);
}

proof fn lemma_last_lib(targets: Seq<JsonView>, root: Seq<char>, windows: bool, j: int)
    requires
        0 <= j < targets.len(),
        project::target_of(targets[j], root, windows) is Some,
        project::target_of(targets[j], root, windows)->0.kind == TargetKind::Lib,
        forall|k: int|
            j < k < targets.len() ==> !(project::target_of(#[trigger] targets[k], root, windows) is Some
                && project::target_of(targets[k], root, windows)->0.kind == TargetKind::Lib),
    ensures
        project::last_lib(targets, root, windows) == Some(project::target_of(targets[j], root, windows)->0.src_path),
    decreases targets.len(),
{
    assert(targets[targets.len() - 1] == targets.last());
    if j < targets.len() - 1 {
        let b = targets.drop_last();
        assert(b[j] == targets[j]);
        assert forall|k: int| j < k < b.len() implies !(project::target_of(#[trigger] b[k], root, windows) is Some
            && project::target_of(b[k], root, windows)->0.kind == TargetKind::Lib) by {
            assert(b[k] == targets[k]);
        }
        lemma_last_lib(b, root, windows, j);
    }
}

/// The library of a package is at the path of its library target, whether or not it runs tests of its
/// own.
pub proof fn law_library_root(packages: Seq<JsonView>, root: Seq<char>, windows: bool, i: int, name: Seq<char>, j: int)
    requires
        named_once(packages, i, name),
        0 <= j < project::listed(packages[i], "targets"@).len(),
        project::target_of(project::listed(packages[i], "targets"@)[j], root, windows) is Some,
        project::target_of(project::listed(packages[i], "targets"@)[j], root, windows)->0.kind == TargetKind::Lib,
        forall|k: int|
            j < k < project::listed(packages[i], "targets"@).len() ==> !(project::target_of(
                #[trigger] project::listed(packages[i], "targets"@)[k],
                root,
                windows,
            ) is Some && project::target_of(project::listed(packages[i], "targets"@)[k], root, windows)->0.kind
                == TargetKind::Lib),
    ensures
        project::lib_roots(packages, root, windows).contains_key(name),
        project::lib_roots(packages, root, windows)[name] == project::target_of(
            project::listed(packages[i], "targets"@)[j],
            root,
            windows,
        )->0.src_path,
    decreases packages.len(),
{
    let b = packages.drop_last();
    assert(packages[packages.len() - 1] == packages.last());
    lemma_last_lib(project::listed(packages[i], "targets"@), root, windows, j);
    if i < b.len() {
        assert(b[i] == packages[i]);
        assert forall|k: int| 0 <= k < b.len() && (#[trigger] b[k]).get_text("name"@) == Some(name) implies k == i by {
            assert(b[k] == packages[k]);
        }
        law_library_root(b, root, windows, i, name, j);
    }
}

/// A target of a package that runs tests under a binary id.
pub open spec fn runs_as(packages: Seq<JsonView>, root: Seq<char>, windows: bool, i: int, j: int, id: Seq<char>) -> bool {
    &&& 0 <= i < packages.len()
    &&& packages[i].get_text("name"@) is Some
    &&& 0 <= j < project::listed(packages[i], "targets"@).len()
    &&& project::target_of(project::listed(packages[i], "targets"@)[j], root, windows) is Some
    &&& project::target_of(project::listed(packages[i], "targets"@)[j], root, windows)->0.runs_tests
    &&& project::binary_id_of(
        packages[i].get_text("name"@)->0,
        project::target_of(project::listed(packages[i], "targets"@)[j], root, windows)->0.kind,
        project::target_of(project::listed(packages[i], "targets"@)[j], root, windows)->0.name,
    ) == id
}

/// The target of a package that a metadata entry describes.
spec fn target_at(packages: Seq<JsonView>, root: Seq<char>, windows: bool, i: int, j: int) -> TestTargetView {
    project::target_of(project::listed(packages[i], "targets"@)[j], root, windows)->0
}

proof fn lemma_with_targets(
    before: Map<Seq<char>, Set<Seq<char>>>,
    package: Seq<char>,
    targets: Seq<JsonView>,
    root: Seq<char>,
    windows: bool,
    libs: Map<Seq<char>, Seq<char>>,
    deps: project::Deps,
    id: Seq<char>,
)
    ensures
        ({
            let m = project::with_targets(before, package, targets, root, windows, libs, deps);
            let here = exists|j: int|
                0 <= j < targets.len() && #[trigger] gives_id(package, targets[j], root, windows, id);
            &&& !here ==> (m.contains_key(id) == before.contains_key(id)) && (before.contains_key(id) ==> m[id]
                == before[id])
            &&& here ==> m.contains_key(id) && exists|j: int|
                0 <= j < targets.len() && #[trigger] gives_id(package, targets[j], root, windows, id) && m[id]
                    == project::target_sentinels(
                    package,
                    project::target_of(targets[j], root, windows)->0,
                    libs,
                    deps,
                )
        }),
    decreases targets.len(),
{
    if targets.len() > 0 {
        let b = targets.drop_last();
        lemma_with_targets(before, package, b, root, windows, libs, deps, id);
        let last = targets.last();
        assert(targets[targets.len() - 1] == last);
        if gives_id(package, last, root, windows, id) {
            assert(gives_id(package, targets[targets.len() - 1], root, windows, id));
        } else {
            if exists|j: int| 0 <= j < b.len() && #[trigger] gives_id(package, b[j], root, windows, id) {
                let m0 = project::with_targets(before, package, b, root, windows, libs, deps);
                let j = choose|j: int|
                    0 <= j < b.len() && #[trigger] gives_id(package, b[j], root, windows, id) && m0[id]
                        == project::target_sentinels(
                        package,
                        project::target_of(b[j], root, windows)->0,
                        libs,
                        deps,
                    );
                assert(gives_id(package, targets[j], root, windows, id));
            }
            if exists|j: int| 0 <= j < targets.len() && #[trigger] gives_id(package, targets[j], root, windows, id) {
                let j = choose|j: int|
                    0 <= j < targets.len() && #[trigger] gives_id(package, targets[j], root, windows, id);
                assert(j < b.len());
                assert(gives_id(package, b[j], root, windows, id));
            }
        }
    }
}

/// A target of a package runs tests under the id.
spec fn gives_id(package: Seq<char>, target: JsonView, root: Seq<char>, windows: bool, id: Seq<char>) -> bool {
    &&& project::target_of(target, root, windows) is Some
    &&& project::target_of(target, root, windows)->0.runs_tests
    &&& project::binary_id_of(
        package,
        project::target_of(target, root, windows)->0.kind,
        project::target_of(target, root, windows)->0.name,
    ) == id
}

/// What the map says of an id that one target alone gives.
spec fn settled(
    m: Map<Seq<char>, Set<Seq<char>>>,
    packages: Seq<JsonView>,
    root: Seq<char>,
    windows: bool,
    libs: Map<Seq<char>, Seq<char>>,
    deps: project::Deps,
    i: int,
    j: int,
    id: Seq<char>,
) -> bool {
    m.contains_key(id) && m[id] == project::target_sentinels(
        packages[i].get_text("name"@)->0,
        target_at(packages, root, windows, i, j),
        libs,
        deps,
    )
}

spec fn only_from(packages: Seq<JsonView>, root: Seq<char>, windows: bool, i: int, j: int, id: Seq<char>) -> bool {
    forall|k: int, l: int| #[trigger] runs_as(packages, root, windows, k, l, id) ==> k == i && l == j
}

proof fn lemma_with_packages(
    before: Map<Seq<char>, Set<Seq<char>>>,
    name: Seq<char>,
    all: Seq<JsonView>,
    n: int,
    root: Seq<char>,
    windows: bool,
    libs: Map<Seq<char>, Seq<char>>,
    deps: project::Deps,
    i: int,
    j: int,
    id: Seq<char>,
)
    requires
        0 <= n <= all.len(),
        runs_as(all, root, windows, i, j, id),
        only_from(all, root, windows, i, j, id),
    ensures
        ({
            let m = project::with_packages(before, name, all.take(n), root, windows, libs, deps);
            &&& all[i].get_text("name"@) == Some(name) && i < n ==> settled(
                m,
                all,
                root,
                windows,
                libs,
                deps,
                i,
                j,
                id,
            )
            &&& settled(before, all, root, windows, libs, deps, i, j, id) ==> settled(
                m,
                all,
                root,
                windows,
                libs,
                deps,
                i,
                j,
                id,
            )
        }),
    decreases n,
{
    if n > 0 {
        let t = all.take(n);
        assert(t.drop_last() =~= all.take(n - 1));
        assert(t.last() == all[n - 1]);
        lemma_with_packages(before, name, all, n - 1, root, windows, libs, deps, i, j, id);
        let m0 = project::with_packages(before, name, all.take(n - 1), root, windows, libs, deps);
        if project::is_named(all[n - 1], name) {
            let targets = project::listed(all[n - 1], "targets"@);
            lemma_with_targets(m0, name, targets, root, windows, libs, deps, id);
            let m = project::with_targets(m0, name, targets, root, windows, libs, deps);
            assert forall|l: int| 0 <= l < targets.len() && #[trigger] gives_id(name, targets[l], root, windows, id) implies n
                - 1 == i && l == j by {
                assert(runs_as(all, root, windows, n - 1, l, id));
            }
            if n - 1 == i {
                assert(gives_id(name, targets[j], root, windows, id));
            }
        }
    }
}

proof fn lemma_with_names(
    names: Seq<Seq<char>>,
    packages: Seq<JsonView>,
    root: Seq<char>,
    windows: bool,
    libs: Map<Seq<char>, Seq<char>>,
    deps: project::Deps,
    i: int,
    j: int,
    id: Seq<char>,
)
    requires
        runs_as(packages, root, windows, i, j, id),
        only_from(packages, root, windows, i, j, id),
        names.contains(packages[i].get_text("name"@)->0),
    ensures
        settled(
            project::with_names(names, packages, root, windows, libs, deps),
            packages,
            root,
            windows,
            libs,
            deps,
            i,
            j,
            id,
        ),
    decreases names.len(),
{
    let b = names.drop_last();
    let name = packages[i].get_text("name"@)->0;
    let m0 = project::with_names(b, packages, root, windows, libs, deps);
    assert(packages.take(packages.len() as int) =~= packages);
    let n = choose|n: int| 0 <= n < names.len() && names[n] == name;
    if n < b.len() {
        assert(b[n] == name);
        lemma_with_names(b, packages, root, windows, libs, deps, i, j, id);
    }
    lemma_with_packages(m0, names.last(), packages, packages.len() as int, root, windows, libs, deps, i, j, id);
}

/// The crate roots that matter to the tests of a binary: its own, and, along any chain of dependencies
/// of the workspace, the library of each package that it leads to. Here the chain is one of names, each
/// of which the metadata lists as a dependency of the one before; a chain of one name is the package of
/// the binary itself, whose library matters to all targets but itself.
pub proof fn law_roots_follow_the_dependencies(
    metadata: JsonView,
    root: Seq<char>,
    windows: bool,
    i: int,
    j: int,
    id: Seq<char>,
    chain: Seq<Seq<char>>,
)
    requires
        ({
            let packages = project::listed(metadata, "packages"@);
            &&& runs_as(packages, root, windows, i, j, id)
            &&& forall|k: int, l: int| #[trigger] runs_as(packages, root, windows, k, l, id) ==> k == i && l == j
            &&& chain.len() >= 1
            &&& Some(chain[0]) == packages[i].get_text("name"@)
            &&& forall|c: int|
                0 <= c < chain.len() - 1 ==> project::depends(
                    project::deps_of(packages, project::package_names(packages)),
                    #[trigger] chain[c],
                    chain[c + 1],
                )
        }),
    ensures
        ({
            let packages = project::listed(metadata, "packages"@);
            let roots = project::sentinels_of(metadata, root, windows);
            let libs = project::lib_roots(packages, root, windows);
            let own = project::target_of(project::listed(packages[i], "targets"@)[j], root, windows)->0;
            &&& roots.contains_key(id)
            &&& roots[id].contains(own.src_path)
            &&& libs.contains_key(chain.last()) && (chain.last() != chain[0] || own.kind != TargetKind::Lib)
                ==> roots[id].contains(libs[chain.last()])
        }),
{
    let packages = project::listed(metadata, "packages"@);
    let names = project::package_names(packages);
    let libs = project::lib_roots(packages, root, windows);
    let deps = project::deps_of(packages, names);
    let name = packages[i].get_text("name"@)->0;
    law_package_names(packages, name);
    let ordered = crate::ordered::in_order::<String>(names);
    crate::ordered::lemma_in_order_of::<String>(names);
    assert(ordered.to_set().contains(name));
    lemma_with_names(ordered, packages, root, windows, libs, deps, i, j, id);
    let own = target_at(packages, root, windows, i, j);
    let last = chain.last();
    if libs.contains_key(last) && last != name {
        lemma_chain_reaches(deps, chain, chain.len() - 1);
        assert(project::closure_of(deps, name).contains(last));
    }
}

proof fn lemma_chain_reaches(deps: project::Deps, chain: Seq<Seq<char>>, n: int)
    requires
        0 <= n < chain.len(),
        forall|c: int| 0 <= c < chain.len() - 1 ==> project::depends(deps, #[trigger] chain[c], chain[c + 1]),
    ensures
        n > 0 ==> project::reaches(deps, chain[0], chain[n]),
    decreases n,
{
    if n == 1 {
        let first: int = 0;
        assert(project::depends(deps, chain[first], chain[first + 1]));
        project::lemma_direct(deps, chain[0], chain[1]);
    } else if n > 1 {
        lemma_chain_reaches(deps, chain, n - 1);
        assert(project::depends(deps, chain[n - 1], chain[n - 1 + 1]));
        project::lemma_one_further(deps, chain[0], chain[n - 1], chain[n]);
    }
}

/// No other crate root matters to the tests of a binary: each is its own, or the library of its package,
/// or that of a package at the end of a chain of dependencies.
pub proof fn law_roots_come_from_the_dependencies(
    metadata: JsonView,
    root: Seq<char>,
    windows: bool,
    i: int,
    j: int,
    id: Seq<char>,
    path: Seq<char>,
)
    requires
        ({
            let packages = project::listed(metadata, "packages"@);
            &&& runs_as(packages, root, windows, i, j, id)
            &&& forall|k: int, l: int| #[trigger] runs_as(packages, root, windows, k, l, id) ==> k == i && l == j
            &&& project::sentinels_of(metadata, root, windows)[id].contains(path)
        }),
    ensures
        ({
            let packages = project::listed(metadata, "packages"@);
            let libs = project::lib_roots(packages, root, windows);
            let own = project::target_of(project::listed(packages[i], "targets"@)[j], root, windows)->0;
            ||| path == own.src_path
            ||| exists|chain: Seq<Seq<char>>|
                {
                    &&& chain.len() >= 1
                    &&& Some(chain[0]) == packages[i].get_text("name"@)
                    &&& #[trigger] libs.contains_key(chain.last())
                    &&& libs[chain.last()] == path
                    &&& forall|c: int|
                        0 <= c < chain.len() - 1 ==> project::depends(
                            project::deps_of(packages, project::package_names(packages)),
                            #[trigger] chain[c],
                            chain[c + 1],
                        )
                }
        }),
{
    let packages = project::listed(metadata, "packages"@);
    let names = project::package_names(packages);
    let libs = project::lib_roots(packages, root, windows);
    let deps = project::deps_of(packages, names);
    let name = packages[i].get_text("name"@)->0;
    law_package_names(packages, name);
    let ordered = crate::ordered::in_order::<String>(names);
    crate::ordered::lemma_in_order_of::<String>(names);
    assert(ordered.to_set().contains(name));
    lemma_with_names(ordered, packages, root, windows, libs, deps, i, j, id);
    let own = target_at(packages, root, windows, i, j);
    if path != own.src_path {
        if own.kind != TargetKind::Lib && libs.contains_key(name) && libs[name] == path {
            let chain = seq![name];
            assert(chain.last() == name);
            assert(libs.contains_key(chain.last()));
        } else {
            let dep = choose|dep: Seq<char>|
                #[trigger] project::closure_of(deps, name).contains(dep) && libs.contains_key(dep) && libs[dep] == path;
            let chain = choose|chain: Seq<Seq<char>>| project::chain_leads(deps, name, dep, chain);
            assert(libs.contains_key(chain.last()));
            assert forall|c: int| 0 <= c < chain.len() - 1 implies project::depends(
                deps,
                #[trigger] chain[c],
                chain[c + 1],
            ) by {
                assert(project::depends(deps, chain[c], chain[c + 1]));
            }
        }
    }
}

/// Every package's manifest is among the manifests of the workspace, and the root's where it exists;
/// nothing else is.
pub proof fn law_every_manifest_is_named(metadata: JsonView, workspace_root: Seq<char>, root_exists: bool, path: Seq<char>)
    ensures
        project::all_manifests(metadata, workspace_root, root_exists).contains(path) <==> (exists|i: int|
            0 <= i < project::listed(metadata, "packages"@).len() && (#[trigger] project::listed(
                metadata,
                "packages"@,
            )[i]).get_text("manifest_path"@) == Some(path)) || (root_exists && path == crate::paths::joined_path(
            workspace_root,
            "Cargo.toml"@,
        )),
{
    let packages = project::listed(metadata, "packages"@);
    lemma_named_manifests(packages, path);
    let named = project::named_manifests(packages);
    let all = project::all_manifests(metadata, workspace_root, root_exists);
    if all.contains(path) {
        let i = choose|i: int| 0 <= i < all.len() && all[i] == path;
        if i < named.len() {
            assert(named[i] == path);
        }
    }
    if named.contains(path) {
        let i = choose|i: int| 0 <= i < named.len() && named[i] == path;
        assert(all[i] == path);
    }
    if root_exists {
        assert(all[named.len() as int] == project::root_manifest_of(workspace_root));
    }
}

proof fn lemma_named_manifests(packages: Seq<JsonView>, path: Seq<char>)
    ensures
        project::named_manifests(packages).contains(path) <==> exists|i: int|
            0 <= i < packages.len() && (#[trigger] packages[i]).get_text("manifest_path"@) == Some(path),
    decreases packages.len(),
{
    let all = project::named_manifests(packages);
    if packages.len() > 0 {
        let b = packages.drop_last();
        lemma_named_manifests(b, path);
        let before = project::named_manifests(b);
        assert(packages[packages.len() - 1] == packages.last());
        if all.contains(path) {
            let i = choose|i: int| 0 <= i < all.len() && all[i] == path;
            if i < before.len() {
                assert(before[i] == path);
                let k = choose|k: int| 0 <= k < b.len() && (#[trigger] b[k]).get_text("manifest_path"@) == Some(path);
                assert(packages[k] == b[k]);
            }
        }
        if exists|i: int| 0 <= i < packages.len() && (#[trigger] packages[i]).get_text("manifest_path"@) == Some(path) {
            let k = choose|k: int|
                0 <= k < packages.len() && (#[trigger] packages[k]).get_text("manifest_path"@) == Some(path);
            if k < b.len() {
                assert(b[k] == packages[k]);
                let i = choose|i: int| 0 <= i < before.len() && before[i] == path;
                assert(all[i] == path);
            } else {
                assert(all[before.len() as int] == path);
            }
        }
    }
}

/// What any package lists is among all dependencies, and nothing else.
pub proof fn law_dependencies_add_up(pairs: Seq<(Seq<char>, Set<Seq<char>>)>, name: Seq<char>)
    ensures
        project::all_dependencies(pairs).contains(name) <==> exists|i: int|
            0 <= i < pairs.len() && (#[trigger] pairs[i]).1.contains(name),
    decreases pairs.len(),
{
    if pairs.len() > 0 {
        let b = pairs.drop_last();
        law_dependencies_add_up(b, name);
        let n = pairs.len() - 1;
        assert(pairs[n] == pairs.last());
        if exists|i: int| 0 <= i < b.len() && (#[trigger] b[i]).1.contains(name) {
            let i = choose|i: int| 0 <= i < b.len() && (#[trigger] b[i]).1.contains(name);
            assert(pairs[i].1.contains(name));
        }
        if exists|i: int| 0 <= i < pairs.len() && (#[trigger] pairs[i]).1.contains(name) {
            let i = choose|i: int| 0 <= i < pairs.len() && (#[trigger] pairs[i]).1.contains(name);
            if i < n {
                assert(b[i].1.contains(name));
            }
        }
    }
}

/// Sorted paths are paths that were there, each once and in its first spelling; every path is among them
/// in some spelling.
pub proof fn law_sorted_paths_are_the_paths(paths: Seq<Seq<char>>, sorted: Seq<Seq<char>>, i: int, j: int, k: int)
    requires
        project::sorted_paths(paths, sorted),
        0 <= i < j < sorted.len(),
        0 <= k < paths.len(),
    ensures
        paths.contains(sorted[i]),
        exists|f: int|
            0 <= f < paths.len() && #[trigger] paths[f] == sorted[i] && (forall|e: int|
                0 <= e < f ==> crate::paths::coded_path(#[trigger] paths[e]) != crate::paths::coded_path(sorted[i])),
        crate::paths::coded_path(sorted[i]) != crate::paths::coded_path(sorted[j]),
        exists|n: int|
            0 <= n < sorted.len() && crate::paths::coded_path(#[trigger] sorted[n]) == crate::paths::coded_path(paths[k]),
{
    let f = |p: Seq<char>| crate::paths::coded_path(p);
    let codes = sorted.map_values(f);
    assert(project::is_first_spelling(paths, sorted[i]));
    let first = choose|f: int| #[trigger] project::spells_first(paths, sorted[i], f);
    assert(paths[first] == sorted[i]);
    assert(codes[i] == crate::paths::coded_path(sorted[i]));
    assert(codes[j] == crate::paths::coded_path(sorted[j]));
    lemma_increasing_differ::<Vec<String>>(codes, i, j);
    assert(codes.contains(crate::paths::coded_path(paths[k])));
    let n = choose|n: int| 0 <= n < codes.len() && codes[n] == crate::paths::coded_path(paths[k]);
    assert(crate::paths::coded_path(sorted[n]) == codes[n]);
}

proof fn lemma_increasing_differ<K: crate::ordered::Key>(s: Seq<K::V>, i: int, j: int)
    requires
        crate::ordered::increasing::<K>(s),
        0 <= i < j < s.len(),
    ensures
        s[i] != s[j],
{
    assert(K::before(s[i], s[j]));
    K::before_irreflexive(s[i]);
}

} // verus!

//! Laws of paths: how they are joined, taken apart and compared.

use vstd::prelude::*;
use crate::paths;
use crate::text;

verus! {

/// Names that can stand in a path: not empty, without a separator, and not the current directory.
pub open spec fn are_names(names: Seq<Seq<char>>) -> bool {
    forall|i: int| 0 <= i < names.len() ==> (#[trigger] names[i]).len() > 0 && !names[i].contains('/') && names[i] != "."@
}

/// The path of names.
pub open spec fn path_of(names: Seq<Seq<char>>) -> Seq<char> {
    text::joined(names, "/"@)
}

proof fn lemma_pieces_of_path(names: Seq<Seq<char>>)
    requires
        names.len() > 0,
        forall|i: int| 0 <= i < names.len() ==> !(#[trigger] names[i]).contains('/'),
    ensures
        text::pieces(path_of(names), '/') == names,
    decreases names.len(),
{
    reveal_strlit("/");
    assert("/"@ =~= seq!['/']);
    assert(names[names.len() - 1] == names.last());
    if names.len() == 1 {
        crate::text_laws::law_pieces_are_separated(names[0], Seq::empty(), '/');
        assert(names =~= seq![names[0]]);
    } else {
        let a = names.drop_last();
        assert forall|i: int| 0 <= i < a.len() implies !(#[trigger] a[i]).contains('/') by {
            assert(a[i] == names[i]);
        }
        lemma_pieces_of_path(a);
        crate::text_laws::law_pieces_are_separated(path_of(a), names.last(), '/');
        crate::text_laws::law_pieces_are_separated(names.last(), Seq::empty(), '/');
        assert(names =~= a + seq![names.last()]);
    }
}

proof fn lemma_parts_add(a: Seq<Seq<char>>, b: Seq<Seq<char>>, first: bool)
    requires
        a.len() > 0 || !first,
    ensures
        paths::parts_among(a + b, first) == paths::parts_among(a, first) + paths::parts_among(b, false),
    decreases a.len(),
{
    let all = a + b;
    if a.len() == 0 {
        assert(all =~= b);
        assert(paths::parts_among(a, first) + paths::parts_among(b, false) =~= paths::parts_among(b, false));
    } else {
        assert(all.drop_first() =~= a.drop_first() + b);
        lemma_parts_add(a.drop_first(), b, false);
        assert(paths::parts_among(all, first) =~= paths::parts_among(a, first) + paths::parts_among(b, false));
    }
}

proof fn lemma_names_are_parts(names: Seq<Seq<char>>, first: bool)
    requires
        are_names(names),
    ensures
        paths::parts_among(names, first) == names,
    decreases names.len(),
{
    if names.len() > 0 {
        let rest = names.drop_first();
        assert forall|i: int| 0 <= i < rest.len() implies (#[trigger] rest[i]).len() > 0 && !rest[i].contains('/')
            && rest[i] != "."@ by {
            assert(rest[i] == names[i + 1]);
        }
        lemma_names_are_parts(rest, false);
        assert(seq![names[0]] + rest =~= names);
    } else {
        assert(paths::parts_among(names, first) =~= names);
    }
}

proof fn lemma_behind(a: Seq<Seq<char>>, names: Seq<Seq<char>>, first: bool)
    requires
        are_names(names),
        names.len() > 0,
        a.len() > 0 || !first,
    ensures
        paths::behind_parts(a + names, paths::parts_among(a, first).len(), first) == names,
    decreases a.len(),
{
    let all = a + names;
    if a.len() == 0 {
        assert(all =~= names);
        assert(paths::is_part(names[0], first));
    } else {
        assert(all.drop_first() =~= a.drop_first() + names);
        lemma_behind(a.drop_first(), names, false);
        assert(all[0] == a[0]);
    }
}

/// The components of a path are its names, whether or not it starts at the root.
pub proof fn law_parts_are_the_names(names: Seq<Seq<char>>)
    requires
        are_names(names),
        names.len() > 0,
    ensures
        paths::path_parts(path_of(names)) == names,
        paths::path_parts(seq!['/'] + path_of(names)) == names,
        !paths::is_rooted(path_of(names)),
        paths::is_rooted(seq!['/'] + path_of(names)),
{
    reveal_strlit("/");
    lemma_pieces_of_path(names);
    lemma_names_are_parts(names, true);
    lemma_names_are_parts(names, false);
    let none = Seq::<char>::empty();
    let p = path_of(names);
    assert(none + seq!['/'] + p =~= seq!['/'] + p);
    crate::text_laws::law_pieces_are_separated(none, p, '/');
    lemma_parts_add(seq![none], names, true);
    lemma_no_part(true);
    assert(Seq::<Seq<char>>::empty() + names =~= names);
    lemma_not_rooted(names);
    assert("/"@ =~= (seq!['/'] + p).take(1));
}

proof fn lemma_not_rooted(names: Seq<Seq<char>>)
    requires
        are_names(names),
        names.len() > 0,
    ensures
        !paths::is_rooted(path_of(names)),
        path_of(names).len() > 0,
        path_of(names)[0] == names[0][0],
    decreases names.len(),
{
    reveal_strlit("/");
    let p = path_of(names);
    if names.len() == 1 {
        assert(p == names[0]);
    } else {
        let a = names.drop_last();
        assert forall|i: int| 0 <= i < a.len() implies (#[trigger] a[i]).len() > 0 && !a[i].contains('/') && a[i]
            != "."@ by {
            assert(a[i] == names[i]);
        }
        lemma_not_rooted(a);
        assert(p[0] == path_of(a)[0]);
    }
    if paths::is_rooted(p) {
        assert(p.take(1)[0] == p[0]);
        assert(names[0].contains('/'));
    }
}

proof fn lemma_no_part(first: bool)
    ensures
        paths::parts_among(seq![Seq::<char>::empty()], first) == Seq::<Seq<char>>::empty(),
{
    reveal_with_fuel(paths::parts_among, 2);
    let s = seq![Seq::<char>::empty()];
    assert(s.drop_first() =~= Seq::<Seq<char>>::empty());
    assert(paths::parts_among(s, first) =~= Seq::<Seq<char>>::empty());
}

/// What is joined to a base lies below it, at what was joined.
pub proof fn law_joined_path_is_below(base: Seq<char>, names: Seq<Seq<char>>)
    requires
        are_names(names),
        names.len() > 0,
    ensures
        paths::path_below(paths::joined_path(base, path_of(names)), base) == Some(path_of(names)),
        paths::path_parts(paths::joined_path(base, path_of(names))) == paths::path_parts(base) + names,
        base.len() > 0 && base.last() != '/' ==> paths::joined_path(base, path_of(names)) == base + seq!['/'] + path_of(
            names,
        ),
{
    reveal_strlit("/");
    assert("/"@ =~= seq!['/']);
    let rel = path_of(names);
    let path = paths::joined_path(base, rel);
    lemma_not_rooted(names);
    lemma_pieces_of_path(names);
    lemma_names_are_parts(names, true);
    lemma_names_are_parts(names, false);
    let q = text::pieces(base, '/');
    text::lemma_pieces_nonempty(base, '/');
    let none = Seq::<char>::empty();
    let last = names[names.len() - 1];
    assert(paths::is_part(last, false));
    assert(paths::up_to_part(names) == names);
    if base.len() == 0 {
        assert(q =~= seq![none]);
        lemma_no_part(true);
        assert(paths::path_parts(base) + names =~= names);
        assert(paths::is_part(names[0], true));
        assert(paths::behind_parts(names, 0, true) == names);
        assert(paths::path_parts(base) =~= names.take(0));
        assert(paths::is_rooted(base) == false) by {
            if "/"@.is_prefix_of(base) {
                assert("/"@.len() <= base.len());
            }
        }
    } else if base.last() == '/' {
        let b0 = base.drop_last();
        assert(b0 + seq!['/'] + none =~= base);
        assert(b0 + seq!['/'] + rel =~= path);
        crate::text_laws::law_pieces_are_separated(b0, none, '/');
        crate::text_laws::law_pieces_are_separated(b0, rel, '/');
        let q0 = text::pieces(b0, '/');
        text::lemma_pieces_nonempty(b0, '/');
        assert(text::pieces(none, '/') =~= seq![none]);
        lemma_parts_add(q0, seq![none], true);
        lemma_no_part(false);
        assert(paths::path_parts(base) =~= paths::parts_among(q0, true));
        lemma_parts_add(q0, names, true);
        lemma_behind(q0, names, true);
        lemma_same_root(base, rel);
        assert(paths::path_parts(base) =~= (paths::path_parts(base) + names).take(paths::path_parts(base).len() as int));
    } else {
        assert(base + seq!['/'] + rel =~= path);
        crate::text_laws::law_pieces_are_separated(base, rel, '/');
        lemma_parts_add(q, names, true);
        lemma_behind(q, names, true);
        lemma_same_root(base, seq!['/'] + rel);
        assert(base + (seq!['/'] + rel) =~= path);
        assert(paths::path_parts(base) =~= (paths::path_parts(base) + names).take(paths::path_parts(base).len() as int));
    }
}

proof fn lemma_same_root(base: Seq<char>, more: Seq<char>)
    requires
        base.len() > 0,
    ensures
        paths::is_rooted(base + more) == paths::is_rooted(base),
{
    reveal_strlit("/");
    let a = base + more;
    if paths::is_rooted(a) {
        assert(a.take(1)[0] == base[0]);
        assert("/"@ =~= base.take(1));
    }
    if paths::is_rooted(base) {
        assert(base.take(1)[0] == base[0]);
        assert("/"@ =~= a.take(1));
    }
}

/// Only what begins with the components of a base lies below it.
pub proof fn law_below_begins_with_the_base(path: Seq<char>, base: Seq<char>, i: int)
    requires
        0 <= i < paths::path_parts(base).len(),
        i >= paths::path_parts(path).len() || paths::path_parts(path)[i] != paths::path_parts(base)[i],
    ensures
        paths::path_below(path, base) is None,
{
    let a = paths::path_parts(base);
    let b = paths::path_parts(path);
    if a.is_prefix_of(b) {
        assert(b.take(a.len() as int)[i] == b[i]);
    }
}

/// A relative path does not lie below an absolute one, nor the other way round.
pub proof fn law_below_shares_the_root(path: Seq<char>, base: Seq<char>)
    requires
        (path.len() > 0 && path[0] == '/') != (base.len() > 0 && base[0] == '/'),
    ensures
        paths::path_below(path, base) is None,
{
    lemma_rooted(path);
    lemma_rooted(base);
}

proof fn lemma_rooted(p: Seq<char>)
    ensures
        paths::is_rooted(p) <==> p.len() > 0 && p[0] == '/',
{
    reveal_strlit("/");
    if paths::is_rooted(p) {
        assert(p.take(1)[0] == p[0]);
    }
    if p.len() > 0 && p[0] == '/' {
        assert("/"@ =~= p.take(1));
    }
}

/// Paths compare as equal exactly where they have the same components and both or neither start at
/// the root.
pub proof fn law_codes_tell_paths_apart(a: Seq<char>, b: Seq<char>)
    ensures
        paths::coded_path(a) == paths::coded_path(b) <==> paths::path_parts(a) == paths::path_parts(b) && ((a.len() > 0
            && a[0] == '/') <==> (b.len() > 0 && b[0] == '/')),
        paths::same_path_text(a, b) <==> paths::coded_path(a) == paths::coded_path(b),
{
    lemma_rooted(a);
    lemma_rooted(b);
    let f = |p: Seq<char>| paths::coded_part(p);
    let x = paths::path_parts(a);
    let y = paths::path_parts(b);
    let cx = paths::coded_path(a);
    let cy = paths::coded_path(b);
    reveal_strlit("0");
    let fx = x.map_values(f);
    let fy = y.map_values(f);
    assert(cx == if paths::is_rooted(a) {
        seq!["0"@] + fx
    } else {
        fx
    });
    assert(cy == if paths::is_rooted(b) {
        seq!["0"@] + fy
    } else {
        fy
    });
    assert(fx.len() == x.len() && fy.len() == y.len());
    if cx == cy {
        if paths::is_rooted(a) && !paths::is_rooted(b) {
            assert(cx[0] == "0"@);
            assert(fy.len() > 0 && fy[0] == paths::coded_part(y[0]));
            lemma_coded_head(y[0]);
        }
        if paths::is_rooted(b) && !paths::is_rooted(a) {
            assert(cy[0] == "0"@);
            assert(fx.len() > 0 && fx[0] == paths::coded_part(x[0]));
            lemma_coded_head(x[0]);
        }
        let d: int = if paths::is_rooted(a) {
            1
        } else {
            0
        };
        assert(x.len() == y.len());
        assert forall|i: int| 0 <= i < x.len() implies x[i] == y[i] by {
            assert(cx[i + d] == paths::coded_part(x[i]));
            assert(cy[i + d] == paths::coded_part(y[i]));
            lemma_coded_head(x[i]);
            lemma_coded_head(y[i]);
            assert(paths::coded_part(x[i]).drop_first() =~= x[i]);
            assert(paths::coded_part(y[i]).drop_first() =~= y[i]);
        }
        assert(x =~= y);
    }
}

proof fn lemma_coded_head(p: Seq<char>)
    ensures
        paths::coded_part(p).len() == p.len() + 1,
        paths::coded_part(p)[0] != '0',
        paths::coded_part(p).drop_first() == p,
{
    reveal_strlit("1");
    reveal_strlit("2");
    reveal_strlit("3");
    assert(paths::coded_part(p).drop_first() =~= p);
}

/// The stored form of a path has a slash for each backslash on Windows, and is the path elsewhere.
pub proof fn law_stored_path_has_slashes(path: Seq<char>, windows: bool)
    ensures
        !windows ==> paths::db_relative(path, windows) == path,
        paths::db_relative(path, windows).len() == path.len(),
        windows ==> !paths::db_relative(path, windows).contains('\\'),
        forall|i: int|
            0 <= i < path.len() && path[i] != '\\' ==> #[trigger] paths::db_relative(path, windows)[i] == path[i],
        forall|i: int|
            0 <= i < path.len() && path[i] == '\\' && windows ==> #[trigger] paths::db_relative(path, windows)[i]
                == '/',
{
}

/// The last name of a path is its file name, unless it is the parent directory.
pub proof fn law_file_name_is_the_last_name(names: Seq<Seq<char>>)
    requires
        are_names(names),
        names.len() > 0,
    ensures
        names.last() != ".."@ ==> paths::file_name_of(path_of(names)) == Some(names.last()),
        names.last() != ".."@ ==> paths::file_name_of(seq!['/'] + path_of(names)) == Some(names.last()),
        names.last() == ".."@ ==> paths::file_name_of(path_of(names)) is None,
{
    law_parts_are_the_names(names);
    assert(names[names.len() - 1] == names.last());
}

/// A name has an extension exactly where it is something, a dot and the extension.
pub proof fn law_extension_follows_the_dot(stem: Seq<char>, extension: Seq<char>, name: Seq<char>)
    requires
        !extension.contains('.'),
    ensures
        stem.len() > 0 ==> paths::has_extension_of(stem + seq!['.'] + extension, extension),
        paths::has_extension_of(name, extension) ==> exists|n: int|
            0 < n < name.len() && #[trigger] name.take(n) + seq!['.'] + extension == name,
{
    reveal_strlit(".");
    assert("."@ =~= seq!['.']);
    let whole = stem + seq!['.'] + extension;
    let tail = "."@ + extension;
    if stem.len() > 0 {
        assert(whole.subrange(whole.len() - tail.len(), whole.len() as int) =~= tail);
    }
    if paths::has_extension_of(name, extension) {
        let n = name.len() - tail.len();
        assert(name.take(n) + seq!['.'] + extension =~= name.take(n) + tail);
        assert(name.take(n) + name.subrange(n, name.len() as int) =~= name);
        assert(name.take(n) + seq!['.'] + extension == name);
    }
}

/// A separator at the end of a path says nothing: the components are the same, and so is what lies below
/// a base.
pub proof fn law_separator_at_the_end_says_nothing(path: Seq<char>, base: Seq<char>)
    requires
        path.len() > 0,
    ensures
        paths::path_parts(path + seq!['/']) == paths::path_parts(path),
        paths::path_below(path + seq!['/'], base) == paths::path_below(path, base),
{
    let none = Seq::<char>::empty();
    let p = text::pieces(path, '/');
    let s = path + seq!['/'];
    assert(s.drop_last() =~= path);
    assert(text::pieces(s, '/') =~= p.push(none));
    assert(p.push(none) =~= p + seq![none]);
    text::lemma_pieces_nonempty(path, '/');
    lemma_parts_add(p, seq![none], true);
    lemma_no_part(false);
    assert(paths::path_parts(s) =~= paths::path_parts(path));
    lemma_same_root(path, seq!['/']);
    lemma_behind_and_nothing(p, paths::path_parts(base).len(), true);
}

proof fn lemma_behind_and_nothing(p: Seq<Seq<char>>, n: nat, first: bool)
    ensures
        paths::up_to_part(paths::behind_parts(p.push(Seq::empty()), n, first)) == paths::up_to_part(
            paths::behind_parts(p, n, first),
        ),
    decreases p.len(),
{
    let none = Seq::<char>::empty();
    let q = p.push(none);
    if p.len() == 0 {
        reveal_with_fuel(paths::behind_parts, 2);
        assert(q[0] == none);
        assert(!paths::is_part(q[0], first));
        assert(q.drop_first() =~= p);
    } else {
        assert(q[0] == p[0]);
        assert(q.drop_first() =~= p.drop_first().push(none));
        if !paths::is_part(p[0], first) {
            lemma_behind_and_nothing(p.drop_first(), n, false);
        } else if n == 0 {
            reveal_with_fuel(paths::up_to_part, 2);
            assert(q.last() == none);
            assert(q.drop_last() =~= p);
        } else {
            lemma_behind_and_nothing(p.drop_first(), (n - 1) as nat, false);
        }
    }
}

/// Paths are ordered component by component: the root comes before the current directory, that before the
/// parent directory, and that before any name.
pub proof fn law_components_are_ranked(name: Seq<char>)
    requires
        name != "."@,
        name != ".."@,
    ensures
        text::text_before("0"@, paths::coded_part("."@)),
        text::text_before(paths::coded_part("."@), paths::coded_part(".."@)),
        text::text_before(paths::coded_part(".."@), paths::coded_part(name)),
{
    reveal_strlit("0");
    reveal_strlit("1");
    reveal_strlit("2");
    reveal_strlit("3");
    reveal_strlit(".");
    reveal_strlit("..");
    assert("."@.len() == 1 && ".."@.len() == 2);
    let none = Seq::<char>::empty();
    assert("0"@ =~= none + seq!['0'] + none);
    assert(paths::coded_part("."@) =~= none + seq!['1'] + "."@);
    assert(paths::coded_part(".."@) =~= none + seq!['2'] + ".."@);
    assert(paths::coded_part(name) =~= none + seq!['3'] + name);
    crate::text_laws::law_texts_are_ordered_by_characters(none, '0', none, '1', "."@);
    crate::text_laws::law_texts_are_ordered_by_characters(none, '1', "."@, '2', ".."@);
    crate::text_laws::law_texts_are_ordered_by_characters(none, '2', ".."@, '3', name);
}

} // verus!

//! Where things live on disk. Paths are texts with `/` between their components.

use vstd::prelude::*;
use crate::text::{chars_of, ends_with, has_char, join_texts, same_text, split_text, starts_with};

verus! {

/// `base` with `rel` behind it: an absolute `rel` replaces `base`, and a separator goes between
/// them where `base` does not end in one.
pub open spec fn joined_path(base: Seq<char>, rel: Seq<char>) -> Seq<char> {
    if "/"@.is_prefix_of(rel) || base.len() == 0 {
        rel
    } else if base.last() == '/' {
        base + rel
    } else {
        base + "/"@ + rel
    }
}

/// Joins a path to another.
pub fn join_path(base: &str, rel: &str) -> (r: String)
    ensures
        r@ == joined_path(base@, rel@),
{
    let v = chars_of(base);
    if starts_with(rel, "/") || v.len() == 0 {
        return rel.to_owned();
    }
    let mut r = base.to_owned();
    if v[v.len() - 1] != '/' {
        r.append("/");
    }
    r.append(rel);
    r
}

/// The directory for all artifacts, under `target/` so it shares the lifecycle of other build
/// artifacts.
pub open spec fn affected_path(project_root: Seq<char>) -> Seq<char> {
    joined_path(joined_path(project_root, "target"@), "affected"@)
}

/// Umbrella directory for all artifacts (database, profraw files).
pub fn affected_dir(project_root: &str) -> (r: String)
    ensures
        r@ == affected_path(project_root@),
{
    join_path(join_path(project_root, "target").as_str(), "affected")
}

/// Canonical database location within the affected dir.
pub fn db_path(project_root: &str) -> (r: String)
    ensures
        r@ == joined_path(affected_path(project_root@), "coverage.db"@),
{
    join_path(affected_dir(project_root).as_str(), "coverage.db")
}

/// A piece between separators that is a component: neither empty nor the current directory,
/// except where that starts the path.
pub open spec fn is_part(piece: Seq<char>, first: bool) -> bool {
    piece.len() > 0 && (first || piece != "."@)
}

/// Those pieces that are components; `first` says whether they start the path.
pub open spec fn parts_among(pieces: Seq<Seq<char>>, first: bool) -> Seq<Seq<char>>
    decreases pieces.len(),
{
    if pieces.len() == 0 {
        Seq::empty()
    } else {
        let rest = parts_among(pieces.drop_first(), false);
        if is_part(pieces[0], first) {
            seq![pieces[0]] + rest
        } else {
            rest
        }
    }
}

/// The components of a path.
pub open spec fn path_parts(path: Seq<char>) -> Seq<Seq<char>> {
    parts_among(crate::text::pieces(path, '/'), true)
}

/// Whether a path starts at the root.
pub open spec fn is_rooted(path: Seq<char>) -> bool {
    "/"@.is_prefix_of(path)
}

/// Whether two texts name the same path, component by component.
pub open spec fn same_path_text(a: Seq<char>, b: Seq<char>) -> bool {
    is_rooted(a) == is_rooted(b) && path_parts(a) == path_parts(b)
}

/// The pieces from the component behind the first `n` on.
pub open spec fn behind_parts(pieces: Seq<Seq<char>>, n: nat, first: bool) -> Seq<Seq<char>>
    decreases pieces.len(),
{
    if pieces.len() == 0 {
        pieces
    } else if !is_part(pieces[0], first) {
        behind_parts(pieces.drop_first(), n, false)
    } else if n == 0 {
        pieces
    } else {
        behind_parts(pieces.drop_first(), (n - 1) as nat, false)
    }
}

/// The pieces up to the last component.
pub open spec fn up_to_part(pieces: Seq<Seq<char>>) -> Seq<Seq<char>>
    decreases pieces.len(),
{
    if pieces.len() == 0 || is_part(pieces.last(), false) {
        pieces
    } else {
        up_to_part(pieces.drop_last())
    }
}

/// The path of `path` below `base`, if `base` is a prefix of it component by component: what is
/// written behind the components of `base`.
pub open spec fn path_below(path: Seq<char>, base: Seq<char>) -> Option<Seq<char>> {
    if is_rooted(path) == is_rooted(base) && path_parts(base).is_prefix_of(path_parts(path)) {
        let pieces = crate::text::pieces(path, '/');
        Some(crate::text::joined(up_to_part(behind_parts(pieces, path_parts(base).len(), true)), "/"@))
    } else {
        None
    }
}

/// The last component of a path, if it names a file.
pub open spec fn file_name_of(path: Seq<char>) -> Option<Seq<char>> {
    let parts = path_parts(path);
    if parts.len() > 0 && parts.last() != ".."@ && parts.last() != "."@ {
        Some(parts.last())
    } else {
        None
    }
}

/// Whether a piece is a component.
fn part(piece: &str, first: bool) -> (r: bool)
    ensures
        r == is_part(piece@, first),
{
    !piece.is_empty() && (first || !same_text(piece, "."))
}

/// The components of a path.
pub fn parts_of(path: &str) -> (r: Vec<String>)
    ensures
        r.deep_view() == path_parts(path@),
{
    let all = split_text(path, '/');
    let ghost a = all.deep_view();
    let mut out: Vec<String> = Vec::new();
    let mut i: usize = 0;
    assert(out.deep_view() =~= Seq::<Seq<char>>::empty());
    assert(a.skip(0) =~= a);
    assert(out.deep_view() + parts_among(a, true) =~= parts_among(a, true));
    while i < all.len()
        invariant
            i <= all.len(),
            a == all.deep_view(),
            out.deep_view() + parts_among(a.skip(i as int), i == 0) == parts_among(a, true),
        decreases all.len() - i,
    {
        let ghost before = out.deep_view();
        let ghost rest = parts_among(a.skip(i + 1), false);
        proof {
            assert(a[i as int] == all@[i as int]@);
            assert(a.skip(i as int)[0] == a[i as int]);
            assert(a.skip(i as int).drop_first() =~= a.skip(i + 1));
        }
        if part(all[i].as_str(), i == 0) {
            out.push(all[i].clone());
            assert(out.deep_view() =~= before.push(a[i as int]));
            assert(before + (seq![a[i as int]] + rest) =~= out.deep_view() + rest);
        }
        i += 1;
    }
    assert(a.skip(i as int).len() == 0);
    assert(out.deep_view() + Seq::<Seq<char>>::empty() =~= out.deep_view());
    out
}

/// Whether two lists of components are equal in their first `n` places.
fn same_parts(a: &Vec<String>, b: &Vec<String>, n: usize) -> (r: bool)
    requires
        n <= a.len(),
        n <= b.len(),
    ensures
        r == (a.deep_view().take(n as int) == b.deep_view().take(n as int)),
{
    let ghost x = a.deep_view();
    let ghost y = b.deep_view();
    let mut i: usize = 0;
    while i < n
        invariant
            i <= n,
            n <= a.len(),
            n <= b.len(),
            x == a.deep_view(),
            y == b.deep_view(),
            forall|j: int| 0 <= j < i ==> x[j] == y[j],
        decreases n - i,
    {
        assert(x[i as int] == a@[i as int]@ && y[i as int] == b@[i as int]@);
        if !same_text(a[i].as_str(), b[i].as_str()) {
            assert(x.take(n as int)[i as int] != y.take(n as int)[i as int]);
            return false;
        }
        i += 1;
    }
    assert(x.take(n as int) =~= y.take(n as int));
    true
}

/// Whether two texts name the same path.
pub fn same_path(a: &str, b: &str) -> (r: bool)
    ensures
        r == same_path_text(a@, b@),
{
    let x = parts_of(a);
    let y = parts_of(b);
    if x.len() != y.len() || starts_with(a, "/") != starts_with(b, "/") {
        return false;
    }
    assert(x.deep_view().take(x.len() as int) =~= x.deep_view());
    assert(y.deep_view().take(x.len() as int) =~= y.deep_view());
    same_parts(&x, &y, x.len())
}

/// The place of the component behind the first `n`.
fn place_behind(all: &Vec<String>, n: usize) -> (r: usize)
    ensures
        r <= all.len(),
        all.deep_view().skip(r as int) == behind_parts(all.deep_view(), n as nat, true),
{
    let ghost a = all.deep_view();
    let mut left: usize = n;
    let mut i: usize = 0;
    assert(a.skip(0) =~= a);
    while i < all.len()
        invariant
            i <= all.len(),
            a == all.deep_view(),
            behind_parts(a, n as nat, true) == behind_parts(a.skip(i as int), left as nat, i == 0),
        decreases all.len() - i,
    {
        proof {
            assert(a[i as int] == all@[i as int]@);
            assert(a.skip(i as int)[0] == a[i as int]);
            assert(a.skip(i as int).drop_first() =~= a.skip(i + 1));
        }
        if part(all[i].as_str(), i == 0) {
            if left == 0 {
                return i;
            }
            left -= 1;
        }
        i += 1;
    }
    i
}

/// The path of `path` below `base`.
pub fn strip_base(path: &str, base: &str) -> (r: Option<String>)
    ensures
        match r {
            Some(s) => path_below(path@, base@) == Some(s@),
            None => path_below(path@, base@) is None,
        },
{
    let p = parts_of(path);
    let b = parts_of(base);
    if starts_with(path, "/") != starts_with(base, "/") || b.len() > p.len() {
        return None;
    }
    let ghost bd = b.deep_view();
    assert(bd.take(b.len() as int) =~= bd);
    if !same_parts(&p, &b, b.len()) {
        return None;
    }
    let all = split_text(path, '/');
    let ghost a = all.deep_view();
    let from = place_behind(&all, b.len());
    let mut to: usize = all.len();
    assert(a.subrange(from as int, to as int) =~= a.skip(from as int));
    while to > from && !part(all[to - 1].as_str(), false)
        invariant
            from <= to <= all.len(),
            a == all.deep_view(),
            up_to_part(a.skip(from as int)) == up_to_part(a.subrange(from as int, to as int)),
        decreases to - from,
    {
        assert(a[to - 1] == all@[to - 1]@);
        assert(a.subrange(from as int, to as int).last() == a[to - 1]);
        assert(a.subrange(from as int, to as int).drop_last() =~= a.subrange(from as int, to - 1));
        to -= 1;
    }
    proof {
        if to > from {
            assert(a[to - 1] == all@[to - 1]@);
            assert(a.subrange(from as int, to as int).last() == a[to - 1]);
        }
    }
    let mut rest: Vec<String> = Vec::new();
    let mut i: usize = from;
    assert(rest.deep_view() =~= a.subrange(from as int, from as int));
    while i < to
        invariant
            from <= i <= to,
            to <= all.len(),
            a == all.deep_view(),
            rest.deep_view() == a.subrange(from as int, i as int),
        decreases to - i,
    {
        let ghost before = rest.deep_view();
        rest.push(all[i].clone());
        assert(rest.deep_view() =~= before.push(all@[i as int]@));
        assert(a.subrange(from as int, i + 1) =~= a.subrange(from as int, i as int).push(a[i as int]));
        i += 1;
    }
    Some(join_texts(&rest, "/"))
}

/// The last component of a path, if it names a file.
pub fn file_name(path: &str) -> (r: Option<String>)
    ensures
        match r {
            Some(s) => file_name_of(path@) == Some(s@),
            None => file_name_of(path@) is None,
        },
{
    let p = parts_of(path);
    if p.len() == 0 {
        return None;
    }
    let last = p[p.len() - 1].clone();
    assert(p.deep_view().last() == last@);
    if same_text(last.as_str(), "..") || same_text(last.as_str(), ".") {
        None
    } else {
        Some(last)
    }
}

/// Whether a file name ends in a dot and an extension, with something before them.
pub open spec fn has_extension_of(name: Seq<char>, extension: Seq<char>) -> bool {
    name.len() > extension.len() + 1 && ("."@ + extension).is_suffix_of(name) && !extension.contains('.')
}

/// Whether a file name has an extension.
pub fn has_extension(name: &str, extension: &str) -> (r: bool)
    ensures
        r == has_extension_of(name@, extension@),
{
    let n = chars_of(name);
    let e = chars_of(extension);
    let dotted = String::from_str(".").concat(extension);
    e.len() < n.len() && e.len() + 1 < n.len() && ends_with(name, dotted.as_str()) && !has_char(extension, '.')
}

/// A component with its rank before it: the root sorts before the current directory, that before
/// the parent directory, and that before a name.
pub open spec fn coded_part(part: Seq<char>) -> Seq<char> {
    if part == "."@ {
        "1"@ + part
    } else if part == ".."@ {
        "2"@ + part
    } else {
        "3"@ + part
    }
}

/// A path as the list by which it is compared and ordered.
pub open spec fn coded_path(path: Seq<char>) -> Seq<Seq<char>> {
    let parts = path_parts(path).map_values(|p: Seq<char>| coded_part(p));
    if is_rooted(path) {
        seq!["0"@] + parts
    } else {
        parts
    }
}

/// A path as the list by which it is compared and ordered.
pub fn path_code(path: &str) -> (r: Vec<String>)
    ensures
        r.deep_view() == coded_path(path@),
{
    let parts = parts_of(path);
    let ghost d = parts.deep_view();
    let ghost f = |p: Seq<char>| coded_part(p);
    let mut out: Vec<String> = Vec::new();
    assert(out.deep_view() =~= Seq::<Seq<char>>::empty());
    let rooted = starts_with(path, "/");
    let ghost lead = if rooted {
        seq!["0"@]
    } else {
        Seq::<Seq<char>>::empty()
    };
    if rooted {
        out.push(String::from_str("0"));
        assert(out.deep_view() =~= lead);
    }
    let mut i: usize = 0;
    assert(out.deep_view() =~= lead + d.take(0).map_values(f));
    while i < parts.len()
        invariant
            i <= parts.len(),
            d == parts.deep_view(),
            f == (|p: Seq<char>| coded_part(p)),
            out.deep_view() == lead + d.take(i as int).map_values(f),
        decreases parts.len() - i,
    {
        let ghost before = out.deep_view();
        assert(d[i as int] == parts@[i as int]@);
        let part = parts[i].as_str();
        let rank = if same_text(part, ".") {
            "1"
        } else if same_text(part, "..") {
            "2"
        } else {
            "3"
        };
        out.push(rank.to_owned().concat(part));
        assert(out.deep_view() =~= before.push(f(d[i as int])));
        assert(out.deep_view() =~= lead + d.take(i + 1).map_values(f));
        i += 1;
    }
    assert(d.take(i as int) =~= d);
    assert(out.deep_view() =~= coded_path(path@));
    out
}

/// `path` as it is stored: with `/` between its components on every platform.
pub open spec fn db_relative(path: Seq<char>, windows: bool) -> Seq<char> {
    if windows {
        path.map_values(|c: char| if c == '\\' { '/' } else { c })
    } else {
        path
    }
}

/// Normalises a relative source path to git's separator: on Windows, compilers emit paths with
/// `\` between the components while `git diff` always uses `/`.
pub fn to_db_relative(path: &str, windows: bool) -> (r: String)
    ensures
        r@ == db_relative(path@, windows),
{
    if !windows {
        return path.to_owned();
    }
    let v = chars_of(path);
    let mut r = String::new();
    let mut i: usize = 0;
    while i < v.len()
        invariant
            i <= v.len(),
            v@ == path@,
            r@ == db_relative(v@.take(i as int), true),
        decreases v.len() - i,
    {
        let c = if v[i] == '\\' {
            '/'
        } else {
            v[i]
        };
        r.push(c);
        assert(r@ =~= db_relative(v@.take(i + 1), true));
        i += 1;
    }
    assert(v@.take(i as int) =~= path@);
    r
}

} // verus!

//! Laws of what is asked of nextest: its version, the filterset of a run and the runner.

use vstd::prelude::*;
use crate::db::TestIdView;
use crate::nextest;
use crate::text;

verus! {

/// A version of three numbers.
pub open spec fn version_text(a: nat, b: nat, c: nat) -> Seq<char> {
    text::decimal(a) + seq!['.'] + text::decimal(b) + seq!['.'] + text::decimal(c)
}

/// What may follow a version: nothing, or a mark and anything.
pub open spec fn is_suffix(s: Seq<char>) -> bool {
    s.len() == 0 || s[0] == '-' || s[0] == '+'
}

proof fn lemma_plain(n: nat)
    ensures
        !text::decimal(n).contains('.'),
        !text::decimal(n).contains('-'),
        !text::decimal(n).contains('+'),
        text::unsigned_value(text::decimal(n)) == Some(n),
{
    crate::text_laws::law_decimal_writes_digits(n);
    crate::text_laws::law_decimal_is_read_back(n);
    let d = text::decimal(n);
    assert forall|c: char| c == '.' || c == '-' || c == '+' implies !d.contains(c) by {
        if d.contains(c) {
            let i = choose|i: int| 0 <= i < d.len() && d[i] == c;
            assert('0' <= d[i] <= '9');
        }
    }
}

proof fn lemma_version_plain(a: nat, b: nat, c: nat)
    ensures
        !version_text(a, b, c).contains('-'),
        !version_text(a, b, c).contains('+'),
{
    lemma_plain(a);
    lemma_plain(b);
    lemma_plain(c);
    let v = version_text(a, b, c);
    let x = text::decimal(a);
    let y = text::decimal(b);
    let z = text::decimal(c);
    assert forall|m: char| m == '-' || m == '+' implies !v.contains(m) by {
        if v.contains(m) {
            let i = choose|i: int| 0 <= i < v.len() && v[i] == m;
            if i < x.len() {
                assert(x[i] == m);
            } else if i > x.len() && i < x.len() + 1 + y.len() {
                assert(y[i - x.len() - 1] == m);
            } else if i > x.len() + 1 + y.len() {
                assert(z[i - x.len() - y.len() - 2] == m);
            }
        }
    }
}

proof fn lemma_core(v: Seq<char>, suffix: Seq<char>)
    requires
        !v.contains('-'),
        !v.contains('+'),
        is_suffix(suffix),
    ensures
        nextest::version_core(v + suffix) == v,
{
    crate::text_laws::law_pieces_are_separated(v, Seq::empty(), '-');
    crate::text_laws::law_pieces_are_separated(v, Seq::empty(), '+');
    if suffix.len() == 0 {
        assert(v + suffix =~= v);
    } else {
        let rest = suffix.drop_first();
        assert(v + suffix =~= v + seq![suffix[0]] + rest);
        crate::text_laws::law_pieces_are_separated(v, rest, suffix[0]);
        if suffix[0] == '+' {
            lemma_first_piece(v, rest);
        }
    }
}

proof fn lemma_first_piece(v: Seq<char>, rest: Seq<char>)
    requires
        !v.contains('-'),
        !v.contains('+'),
    ensures
        text::pieces(text::pieces(v + seq!['+'] + rest, '-')[0], '+')[0] == v,
    decreases rest.len(),
{
    let s = v + seq!['+'] + rest;
    if !s.contains('-') {
        crate::text_laws::law_pieces_are_separated(s, Seq::empty(), '-');
        crate::text_laws::law_pieces_are_separated(v, rest, '+');
        crate::text_laws::law_pieces_are_separated(v, Seq::empty(), '+');
    } else {
        let i = lemma_first_mark(s);
        let a = s.take(i);
        let b = s.skip(i + 1);
        assert(s =~= a + seq!['-'] + b);
        crate::text_laws::law_pieces_are_separated(a, b, '-');
        assert(i > v.len()) by {
            if i < v.len() {
                assert(v[i] == '-');
            }
        }
        let r = rest.take(i - v.len() - 1);
        assert(a =~= v + seq!['+'] + r);
        crate::text_laws::law_pieces_are_separated(v, r, '+');
        crate::text_laws::law_pieces_are_separated(v, Seq::empty(), '+');
    }
}

proof fn lemma_first_mark(s: Seq<char>) -> (i: int)
    requires
        s.contains('-'),
    ensures
        0 <= i < s.len(),
        s[i] == '-',
        !s.take(i).contains('-'),
    decreases s.len(),
{
    let t = s.drop_last();
    if t.contains('-') {
        let i = lemma_first_mark(t);
        assert(t.take(i) =~= s.take(i));
        i
    } else {
        let i = s.len() - 1;
        assert(s.take(i) =~= t);
        let k = choose|k: int| 0 <= k < s.len() && s[k] == '-';
        if k < i {
            assert(t[k] == '-');
        }
        i
    }
}

proof fn lemma_three_parts(a: nat, b: nat, c: nat, suffix: Seq<char>)
    requires
        a <= u64::MAX,
        b <= u64::MAX,
        c <= u64::MAX,
        is_suffix(suffix),
    ensures
        nextest::version_parts(version_text(a, b, c) + suffix) == Some(seq![a as u64, b as u64, c as u64]),
{
    lemma_plain(a);
    lemma_plain(b);
    lemma_plain(c);
    lemma_version_plain(a, b, c);
    lemma_core(version_text(a, b, c), suffix);
    let x = text::decimal(a);
    let y = text::decimal(b);
    let z = text::decimal(c);
    let none = Seq::<char>::empty();
    crate::text_laws::law_pieces_are_separated(x + seq!['.'] + y, z, '.');
    crate::text_laws::law_pieces_are_separated(x, y, '.');
    crate::text_laws::law_pieces_are_separated(x, none, '.');
    crate::text_laws::law_pieces_are_separated(y, none, '.');
    crate::text_laws::law_pieces_are_separated(z, none, '.');
    let parts = text::pieces(version_text(a, b, c), '.');
    assert(parts =~= seq![x, y, z]);
    reveal_with_fuel(nextest::numbers_of, 4);
    assert(parts.drop_last() =~= seq![x, y]);
    assert(seq![x, y].drop_last() =~= seq![x]);
    assert(seq![x].drop_last() =~= Seq::<Seq<char>>::empty());
    assert(Seq::<u64>::empty().push(a as u64).push(b as u64).push(c as u64) =~= seq![a as u64, b as u64, c as u64]);
}

/// Versions compare number by number, the first that differs decides, and what follows a dash or a plus
/// does not count.
pub proof fn law_versions_compare_by_number(
    a: nat,
    b: nat,
    c: nat,
    suffix: Seq<char>,
    x: nat,
    y: nat,
    z: nat,
    other: Seq<char>,
)
    requires
        a <= u64::MAX && b <= u64::MAX && c <= u64::MAX,
        x <= u64::MAX && y <= u64::MAX && z <= u64::MAX,
        is_suffix(suffix),
        is_suffix(other),
    ensures
        nextest::is_version_at_least(version_text(a, b, c) + suffix, version_text(x, y, z) + other) <==> a > x || (a == x
            && (b > y || (b == y && c >= z))),
{
    lemma_three_parts(a, b, c, suffix);
    lemma_three_parts(x, y, z, other);
    reveal_with_fuel(crate::ordered::list_before, 5);
    let p = seq![a as u64, b as u64, c as u64];
    let q = seq![x as u64, y as u64, z as u64];
    assert(p.drop_first() =~= seq![b as u64, c as u64]);
    assert(q.drop_first() =~= seq![y as u64, z as u64]);
    assert(seq![b as u64, c as u64].drop_first() =~= seq![c as u64]);
    assert(seq![y as u64, z as u64].drop_first() =~= seq![z as u64]);
    assert(seq![c as u64].drop_first() =~= Seq::<u64>::empty());
    assert(seq![z as u64].drop_first() =~= Seq::<u64>::empty());
}

/// A version with a part that is no number counts as too old.
pub proof fn law_unreadable_versions_are_too_old(actual: Seq<char>, required: Seq<char>, i: int)
    requires
        0 <= i < text::pieces(nextest::version_core(actual), '.').len(),
        text::unsigned_value(text::pieces(nextest::version_core(actual), '.')[i]) is None,
    ensures
        !nextest::is_version_at_least(actual, required),
{
    lemma_no_numbers(text::pieces(nextest::version_core(actual), '.'), i);
}

proof fn lemma_no_numbers(parts: Seq<Seq<char>>, i: int)
    requires
        0 <= i < parts.len(),
        text::unsigned_value(parts[i]) is None,
    ensures
        nextest::numbers_of(parts) is None,
    decreases parts.len(),
{
    if i < parts.len() - 1 {
        lemma_no_numbers(parts.drop_last(), i);
    }
}

/// The version is the second word that nextest prints on its first line, and nextest is usable exactly
/// where that is 0.9.116 or later; where it does not run at all it is not.
pub proof fn law_nextest_must_be_recent(a: nat, b: nat, c: nat, suffix: Seq<char>, rest: Seq<char>, more: Seq<char>)
    requires
        a <= u64::MAX && b <= u64::MAX && c <= u64::MAX,
        is_suffix(suffix),
        forall|i: int|
            0 <= i < (version_text(a, b, c) + suffix).len() ==> !text::is_white(
                #[trigger] (version_text(a, b, c) + suffix)[i],
            ),
        !rest.contains('\n'),
    ensures
        ({
            let line = "cargo-nextest"@ + seq![' '] + (version_text(a, b, c) + suffix) + seq![' '] + rest;
            let out = vstd::utf8::encode_utf8(line + seq!['\n'] + more);
            &&& nextest::printed_version(out) == version_text(a, b, c) + suffix
            &&& nextest::nextest_problem(Some(out)) is None <==> a > 0 || b > 9 || (b == 9 && c >= 116)
        }),
        nextest::nextest_problem(None) is Some,
{
    reveal_strlit("cargo-nextest");
    reveal_strlit("0.9.116");
    let v = version_text(a, b, c) + suffix;
    let w = "cargo-nextest"@;
    let line = w + seq![' '] + v + seq![' '] + rest;
    let all = line + seq!['\n'] + more;
    crate::diff_laws::lemma_encoded_is_readable(all);
    assert(!line.contains('\n')) by {
        if line.contains('\n') {
            let i = choose|i: int| 0 <= i < line.len() && line[i] == '\n';
            if w.len() < i < w.len() + 1 + v.len() {
                assert(v[i - w.len() - 1] == '\n');
            } else if i > w.len() + 1 + v.len() {
                assert(rest[i - w.len() - v.len() - 2] == '\n');
            }
        }
    }
    crate::text_laws::law_pieces_are_separated(line, more, '\n');
    crate::text_laws::law_pieces_are_separated(line, Seq::empty(), '\n');
    assert(text::pieces(all, '\n')[0] == line);
    crate::text_laws::law_decimal_writes_digits(a);
    assert(v.len() > 0);
    let tail = v + seq![' '] + rest;
    assert(line =~= w + seq![' '] + tail);
    assert forall|i: int| 0 <= i < w.len() implies !text::is_white(#[trigger] w[i]) by {}
    crate::text_laws::law_words_are_apart(w, ' ', tail);
    crate::text_laws::law_words_are_apart(v, ' ', rest);
    assert(text::words(line)[1] == v);
    lemma_minimum();
    law_versions_compare_by_number(a, b, c, suffix, 0, 9, 116, Seq::empty());
    assert(version_text(0, 9, 116) + Seq::<char>::empty() =~= version_text(0, 9, 116));
}

proof fn lemma_minimum()
    ensures
        version_text(0, 9, 116) == "0.9.116"@,
{
    reveal_strlit("0.9.116");
    reveal_with_fuel(text::decimal, 4);
    assert(text::decimal(0) =~= seq!['0']);
    assert(text::decimal(9) =~= seq!['9']);
    assert(text::decimal(1) =~= seq!['1']);
    assert(text::decimal(11) =~= seq!['1', '1']);
    assert(text::decimal(116) =~= seq!['1', '1', '6']);
    assert(version_text(0, 9, 116) =~= "0.9.116"@);
}

/// The filterset of tests of one binary names the binary and each test in full, joined by `or`; that of no
/// tests matches nothing.
pub proof fn law_filterset_of_one_binary(binary: Seq<char>, names: Seq<Seq<char>>)
    ensures
        ({
            let tests = names.map_values(|n: Seq<char>| (binary, n));
            &&& names.len() == 0 ==> nextest::filter_expr_of(tests) == "none()"@
            &&& names.len() > 0 ==> nextest::filter_expr_of(tests) == "(binary_id(="@ + binary + ") & ("@ + text::joined(
                names.map_values(|n: Seq<char>| "test(="@ + n + ")"@),
                " | "@,
            ) + "))"@
        }),
{
    let f = |n: Seq<char>| (binary, n);
    let tests = names.map_values(f);
    if names.len() > 0 {
        let ids = tests.map_values(|t: TestIdView| t.0);
        assert(ids[0] == binary);
        assert(nextest::binaries_of(tests) =~= set![binary]);
        assert(seq![binary][0] == binary);
        assert(seq![binary].contains(binary));
        assert(nextest::binaries_of(tests) =~= seq![binary].to_set());
        crate::ordered::lemma_in_order::<String>(seq![binary]);
        lemma_same_binary(binary, names);
        assert(crate::ordered::values_of(tests, binary) == names);
        let g = |b: Seq<char>| nextest::binary_clause(b, crate::ordered::values_of(tests, b));
        let clauses = seq![binary].map_values(g);
        assert(clauses.len() == 1 && clauses[0] == nextest::binary_clause(binary, names));
        let x = names.map_values(|n: Seq<char>| nextest::test_clause(n));
        let y = names.map_values(|n: Seq<char>| "test(="@ + n + ")"@);
        assert(x =~= y);
    }
}

proof fn lemma_same_binary(binary: Seq<char>, names: Seq<Seq<char>>)
    ensures
        crate::ordered::values_of(names.map_values(|n: Seq<char>| (binary, n)), binary) == names,
    decreases names.len(),
{
    let f = |n: Seq<char>| (binary, n);
    let tests = names.map_values(f);
    if names.len() > 0 {
        let b = names.drop_last();
        lemma_same_binary(binary, b);
        assert(tests.drop_last() =~= b.map_values(f));
        assert(b.push(names.last()) =~= names);
    } else {
        assert(crate::ordered::values_of(tests, binary) =~= names);
    }
}

/// The filterset of several binaries joins the clause of each by `or`, in the order of the binaries.
pub proof fn law_filterset_joins_the_binaries(tests: Seq<TestIdView>, b: Seq<char>, i: int, j: int)
    requires
        tests.len() > 0,
    ensures
        ({
            let order = crate::ordered::in_order::<String>(nextest::binaries_of(tests));
            &&& order.contains(b) <==> exists|k: int| 0 <= k < tests.len() && (#[trigger] tests[k]).0 == b
            &&& 0 <= i < j < order.len() ==> text::text_before(order[i], order[j])
            &&& nextest::filter_expr_of(tests) == text::joined(
                order.map_values(
                    |x: Seq<char>|
                        "(binary_id(="@ + x + ") & ("@ + text::joined(
                            crate::ordered::values_of(tests, x).map_values(|n: Seq<char>| "test(="@ + n + ")"@),
                            " | "@,
                        ) + "))"@,
                ),
                " | "@,
            )
        }),
{
    let ids = tests.map_values(|t: TestIdView| t.0);
    let set = nextest::binaries_of(tests);
    vstd::seq_lib::seq_to_set_is_finite(ids);
    crate::ordered::lemma_in_order_of::<String>(set);
    let order = crate::ordered::in_order::<String>(set);
    assert(order.to_set().contains(b) <==> set.contains(b));
    if set.contains(b) {
        let k = choose|k: int| 0 <= k < ids.len() && ids[k] == b;
        assert(tests[k].0 == b);
    }
    if exists|k: int| 0 <= k < tests.len() && (#[trigger] tests[k]).0 == b {
        let k = choose|k: int| 0 <= k < tests.len() && (#[trigger] tests[k]).0 == b;
        assert(ids[k] == b);
    }
    if 0 <= i < j < order.len() {
        assert(<String as crate::ordered::Key>::before(order[i], order[j]));
    }
    let g = |x: Seq<char>| nextest::binary_clause(x, crate::ordered::values_of(tests, x));
    let h = |x: Seq<char>|
        "(binary_id(="@ + x + ") & ("@ + text::joined(
            crate::ordered::values_of(tests, x).map_values(|n: Seq<char>| "test(="@ + n + ")"@),
            " | "@,
        ) + "))"@;
    assert forall|x: Seq<char>| #[trigger] g(x) == h(x) by {
        let v = crate::ordered::values_of(tests, x);
        assert(v.map_values(|n: Seq<char>| nextest::test_clause(n)) =~= v.map_values(
            |n: Seq<char>| "test(="@ + n + ")"@,
        ));
    }
    assert(order.map_values(g) =~= order.map_values(h));
}

/// A default filter of the project still counts: the run is held to the selection and to it. Without one
/// the run is held to the selection.
pub proof fn law_default_filter_still_counts(selection: Seq<char>, own: Seq<char>)
    ensures
        nextest::run_filter(selection, Some(own)) == "("@ + selection + ") & ("@ + own + ")"@,
        nextest::run_filter(selection, None) == selection,
{
}

/// In a quoted text a backslash and a quote get a backslash before them, and nothing else changes.
pub proof fn law_quoted_text_is_escaped(a: Seq<char>, b: Seq<char>, c: char)
    ensures
        nextest::escaped_text(a + b) == nextest::escaped_text(a) + nextest::escaped_text(b),
        c != '\\' && c != '"' ==> nextest::escaped_text(seq![c]) == seq![c],
        c == '\\' || c == '"' ==> nextest::escaped_text(seq![c]) == seq!['\\', c],
        nextest::escaped_text(Seq::<char>::empty()) == Seq::<char>::empty(),
    decreases b.len(),
{
    reveal_with_fuel(nextest::escaped_text, 2);
    assert(seq![c].drop_last() =~= Seq::<char>::empty());
    assert(nextest::escaped_text(seq![c]) =~= nextest::escaped_char(c));
    if b.len() == 0 {
        assert(a + b =~= a);
        assert(nextest::escaped_text(a) + nextest::escaped_text(b) =~= nextest::escaped_text(a));
    } else {
        let s = a + b;
        assert(s.drop_last() =~= a + b.drop_last());
        law_quoted_text_is_escaped(a, b.drop_last(), c);
        assert(nextest::escaped_text(s) =~= nextest::escaped_text(a) + nextest::escaped_text(b));
    }
}

/// This program runs the test binaries of the target, given by its path.
pub proof fn law_runner_is_this_program(target: Seq<char>, path: Seq<char>)
    ensures
        nextest::runner_config(target, path) == "target."@ + target + ".runner=[\""@ + nextest::escaped_text(path)
            + "\", \"runner-shim\"]"@,
{
}

/// A run keeps the configuration of the project and puts the selection in place of its default filter,
/// within what the filter was. A configuration that cannot be read or has no place for it is refused.
pub proof fn law_run_is_configured(existing: Seq<char>, filter: Seq<char>, own: Option<Seq<char>>, value: Seq<char>)
    requires
        nextest::toml_text_at(existing, "profile"@, "default"@, "default-filter"@) == Ok::<
            Option<Seq<char>>,
            Seq<char>,
        >(own),
        own is None ==> value == filter,
        own is Some ==> value == "("@ + filter + ") & ("@ + own->0 + ")"@,
    ensures
        ({
            let printed = nextest::toml_with(existing, "profile"@, "default"@, "default-filter"@, value);
            let r = nextest::run_config(existing, filter);
            &&& printed is Ok && printed->Ok_0 is Some ==> r is Ok && r->Ok_0 == printed->Ok_0->0
            &&& printed is Ok && printed->Ok_0 is None ==> r is Err && r->Err_0 is NotATable
            &&& printed is Err ==> r is Err && r->Err_0 is NotToml && r->Err_0->NotToml_0 == printed->Err_0
        }),
{
}

/// Each test is grouped under its binary, and no other is.
pub proof fn law_tests_are_grouped_by_binary(tests: Seq<TestIdView>, binary: Seq<char>, name: Seq<char>)
    ensures
        ({
            let groups = nextest::names_by_binary(tests);
            &&& tests.contains((binary, name)) <==> groups.contains_key(binary) && groups[binary].contains(name)
            &&& groups.contains_key(binary) ==> exists|n: Seq<char>| #[trigger] tests.contains((binary, n))
        }),
{
    let f = |t: TestIdView| t.0;
    let ids = tests.map_values(f);
    crate::ordered::lemma_values_of(tests, binary, name);
    if tests.contains((binary, name)) {
        let i = choose|i: int| 0 <= i < tests.len() && tests[i] == (binary, name);
        assert(ids[i] == binary);
        assert(nextest::binaries_of(tests).contains(binary));
    }
    if nextest::names_by_binary(tests).contains_key(binary) {
        assert(ids.contains(binary));
        let i = choose|i: int| 0 <= i < ids.len() && ids[i] == binary;
        assert(tests[i] == (binary, tests[i].1));
        assert(tests.contains((binary, tests[i].1)));
    }
}

} // verus!

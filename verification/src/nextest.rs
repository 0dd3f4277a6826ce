//! What is handed to nextest: the filterset of a selection, the configuration that carries it, and
//! the runner; and what is asked of its version.

use vstd::prelude::*;
use crate::db::{TestId, TestIdView};
use crate::diff::decode_text;
use crate::ordered::{Key, OrdMap};
use crate::paths::{affected_dir, join_path};
use crate::text::{chars_of, join_texts, number_text, parse_u64, split_text, split_words};

verus! {

/// The clause for one test.
pub open spec fn test_clause(name: Seq<char>) -> Seq<char> {
    "test(="@ + name + ")"@
}

/// The clause for the tests of one binary.
pub open spec fn binary_clause(binary_id: Seq<char>, names: Seq<Seq<char>>) -> Seq<char> {
    "(binary_id(="@ + binary_id + ") & ("@ + crate::text::joined(
        names.map_values(|n: Seq<char>| test_clause(n)),
        " | "@,
    ) + "))"@
}

/// The binary ids of tests.
pub open spec fn binaries_of(tests: Seq<TestIdView>) -> Set<Seq<char>> {
    tests.map_values(|t: TestIdView| t.0).to_set()
}

/// The filterset that matches exactly these tests: one clause for each binary, in order.
pub open spec fn filter_expr_of(tests: Seq<TestIdView>) -> Seq<char> {
    if tests.len() == 0 {
        "none()"@
    } else {
        crate::text::joined(
            crate::ordered::in_order::<String>(binaries_of(tests)).map_values(
                |b: Seq<char>| binary_clause(b, crate::ordered::values_of(tests, b)),
            ),
            " | "@,
        )
    }
}

/// The names of the tests of each binary.
pub open spec fn names_by_binary(tests: Seq<TestIdView>) -> Map<Seq<char>, Seq<Seq<char>>> {
    Map::new(|b: Seq<char>| binaries_of(tests).contains(b), |b: Seq<char>| crate::ordered::values_of(tests, b))
}

/// A binary without tests has no names.
proof fn lemma_no_names(tests: Seq<TestIdView>, b: Seq<char>)
    requires
        !binaries_of(tests).contains(b),
    ensures
        crate::ordered::values_of(tests, b) == Seq::<Seq<char>>::empty(),
    decreases tests.len(),
{
    if tests.len() > 0 {
        let t = tests.drop_last();
        let all = tests.map_values(|t: TestIdView| t.0);
        let some = t.map_values(|t: TestIdView| t.0);
        assert(all[tests.len() - 1] == tests.last().0);
        if some.contains(b) {
            let i = choose|i: int| 0 <= i < some.len() && some[i] == b;
            assert(all[i] == b);
        }
        lemma_no_names(t, b);
    }
}

/// Groups tests by binary.
fn group_by_binary(tests: &Vec<TestId>) -> (r: OrdMap<String, Vec<String>>)
    ensures
        r@ == names_by_binary(tests.deep_view()),
{
    let ghost d = tests.deep_view();
    let mut map: OrdMap<String, Vec<String>> = OrdMap::new();
    let mut i: usize = 0;
    assert(binaries_of(d.take(0)) =~= Set::<Seq<char>>::empty());
    assert(map@ =~= names_by_binary(d.take(0)));
    while i < tests.len()
        invariant
            i <= tests.len(),
            d == tests.deep_view(),
            map@ == names_by_binary(d.take(i as int)),
        decreases tests.len() - i,
    {
        let ghost t = d.take(i as int);
        let ghost n = d.take(i + 1);
        let test = &tests[i];
        assert(d[i as int] == test@);
        let mut names: Vec<String> = match map.remove(&test.binary_id) {
            Some(v) => v,
            None => {
                let v: Vec<String> = Vec::new();
                proof {
                    lemma_no_names(t, test@.0);
                    assert(v.deep_view() =~= Seq::<Seq<char>>::empty());
                }
                v
            },
        };
        let ghost before = names.deep_view();
        assert(before == crate::ordered::values_of(t, test@.0));
        names.push(test.test_name.clone());
        assert(names.deep_view() =~= before.push(test@.1));
        map.insert(test.binary_id.clone(), names);
        proof {
            assert(n.drop_last() =~= t);
            let tb = t.map_values(|t: TestIdView| t.0);
            let nb = n.map_values(|t: TestIdView| t.0);
            assert(nb =~= tb.push(test@.0));
            tb.lemma_push_to_set_commute(test@.0);
            assert(map@ =~= names_by_binary(n));
        }
        i += 1;
    }
    assert(d.take(i as int) =~= d);
    map
}

/// The clause for the tests of one binary.
fn clause_of(binary_id: &str, names: &Vec<String>) -> (r: String)
    ensures
        r@ == binary_clause(binary_id@, names.deep_view()),
{
    let ghost d = names.deep_view();
    let ghost f = |n: Seq<char>| test_clause(n);
    let mut parts: Vec<String> = Vec::new();
    let mut i: usize = 0;
    assert(parts.deep_view() =~= d.take(0).map_values(f));
    while i < names.len()
        invariant
            i <= names.len(),
            d == names.deep_view(),
            f == (|n: Seq<char>| test_clause(n)),
            parts.deep_view() == d.take(i as int).map_values(f),
        decreases names.len() - i,
    {
        let ghost before = parts.deep_view();
        assert(d[i as int] == names@[i as int]@);
        parts.push(String::from_str("test(=").concat(names[i].as_str()).concat(")"));
        assert(parts.deep_view() =~= before.push(f(d[i as int])));
        assert(parts.deep_view() =~= d.take(i + 1).map_values(f));
        i += 1;
    }
    assert(d.take(i as int) =~= d);
    String::from_str("(binary_id(=").concat(binary_id).concat(") & (").concat(
        join_texts(&parts, " | ").as_str(),
    ).concat("))")
}

/// The filterset that matches exactly the given tests, grouped by binary id. An empty list gives a
/// filterset that matches nothing. The binary id, not the short name of the binary, tells binaries
/// of the same name in different crates apart.
pub fn nextest_filter_expr(tests: &Vec<TestId>) -> (r: String)
    ensures
        r@ == filter_expr_of(tests.deep_view()),
{
    if tests.len() == 0 {
        return String::from_str("none()");
    }
    let groups = group_by_binary(tests);
    let entries = groups.entries();
    let ghost d = tests.deep_view();
    let ghost keys = groups.keys();
    let ghost m = groups@;
    let ghost g = |b: Seq<char>| binary_clause(b, crate::ordered::values_of(d, b));
    let mut parts: Vec<String> = Vec::new();
    let mut i: usize = 0;
    assert(parts.deep_view() =~= keys.take(0).map_values(g));
    while i < entries.len()
        invariant
            i <= entries.len(),
            entries.len() == keys.len(),
            m == names_by_binary(d),
            g == (|b: Seq<char>| binary_clause(b, crate::ordered::values_of(d, b))),
            forall|j: int| 0 <= j < entries.len() ==> {
                &&& (#[trigger] entries@[j]).0@ == keys[j]
                &&& m.contains_key(keys[j])
                &&& m[keys[j]] == entries@[j].1.deep_view()
            },
            parts.deep_view() == keys.take(i as int).map_values(g),
        decreases entries.len() - i,
    {
        let ghost before = parts.deep_view();
        assert(entries@[i as int].0@ == keys[i as int]);
        parts.push(clause_of(entries[i].0.as_str(), &entries[i].1));
        assert(parts.deep_view() =~= before.push(g(keys[i as int])));
        assert(parts.deep_view() =~= keys.take(i + 1).map_values(g));
        i += 1;
    }
    proof {
        assert(keys.take(i as int) =~= keys);
        crate::ordered::lemma_in_order::<String>(keys);
        assert(m.dom() =~= binaries_of(d));
    }
    join_texts(&parts, " | ")
}

/// Every test has its clause among those of its binary, and every clause belongs to a test.
pub proof fn law_filterset_names_every_test(tests: Seq<TestIdView>, b: Seq<char>, n: Seq<char>)
    ensures
        tests.contains((b, n)) <==> binaries_of(tests).contains(b) && crate::ordered::values_of(tests, b).contains(n),
    decreases tests.len(),
{
    let ids = tests.map_values(|t: TestIdView| t.0);
    if tests.len() > 0 {
        let t = tests.drop_last();
        let before = t.map_values(|t: TestIdView| t.0);
        law_filterset_names_every_test(t, b, n);
        let last = tests.last();
        assert(tests[tests.len() - 1] == last);
        assert(ids[tests.len() - 1] == last.0);
        let v = crate::ordered::values_of(tests, b);
        let w = crate::ordered::values_of(t, b);
        if tests.contains((b, n)) {
            let i = choose|i: int| 0 <= i < tests.len() && tests[i] == (b, n);
            assert(ids[i] == b);
            if i < t.len() {
                assert(t[i] == (b, n));
                let k = choose|k: int| 0 <= k < w.len() && w[k] == n;
                assert(v[k] == n);
            } else {
                assert(v[v.len() - 1] == n);
            }
        }
        if v.contains(n) {
            let k = choose|k: int| 0 <= k < v.len() && v[k] == n;
            if k < w.len() {
                assert(w[k] == n);
                assert(w.contains(n));
                if !binaries_of(t).contains(b) {
                    lemma_no_names(t, b);
                }
                let i = choose|i: int| 0 <= i < t.len() && t[i] == (b, n);
                assert(tests[i] == (b, n));
            }
        }
    }
}

/// What `toml_edit` reads at a path of three keys: the text there, if there is one, or the message
/// about a text that is no document.
pub uninterp spec fn toml_text_at(
    text: Seq<char>,
    outer: Seq<char>,
    inner: Seq<char>,
    key: Seq<char>,
) -> Result<Option<Seq<char>>, Seq<char>>;

/// What `toml_edit` prints of a document with a text put at a path of three keys: nothing where
/// something on the path is no table, or the message about a text that is no document.
pub uninterp spec fn toml_with(
    text: Seq<char>,
    outer: Seq<char>,
    inner: Seq<char>,
    key: Seq<char>,
    value: Seq<char>,
) -> Result<Option<Seq<char>>, Seq<char>>;

/// `toml_edit`: parses the text (`str::parse` into a `DocumentMut`) and reads the text at the path
/// (`Item::get`, `Item::as_str`). What comes out depends on the arguments alone.
#[verifier::external_body]
fn read_toml_text(text: &str, outer: &str, inner: &str, key: &str) -> (r: Result<Option<String>, String>)
    ensures
        match r {
            Ok(Some(s)) => toml_text_at(text@, outer@, inner@, key@) == Ok::<Option<Seq<char>>, Seq<char>>(Some(s@)),
            Ok(None) => toml_text_at(text@, outer@, inner@, key@) == Ok::<Option<Seq<char>>, Seq<char>>(None),
            Err(e) => toml_text_at(text@, outer@, inner@, key@) == Err::<Option<Seq<char>>, Seq<char>>(e@),
        },
{
    match text.parse::<toml_edit::DocumentMut>() {
        Ok(doc) => {
            let item = doc.get(outer).and_then(|o| o.get(inner)).and_then(|i| i.get(key));
            Ok(item.and_then(|v| v.as_str()).map(String::from))
        },
        Err(e) => Err(e.to_string()),
    }
}

/// `toml_edit`: parses the text, puts the value at the path (`Item::get_mut`, `toml_edit::value`)
/// and prints the document (`to_string`). What comes out depends on the arguments alone.
#[verifier::external_body]
fn set_toml_text(text: &str, outer: &str, inner: &str, key: &str, value: &str) -> (r: Result<Option<String>, String>)
    ensures
        match r {
            Ok(Some(s)) => toml_with(text@, outer@, inner@, key@, value@) == Ok::<Option<Seq<char>>, Seq<char>>(
                Some(s@),
            ),
            Ok(None) => toml_with(text@, outer@, inner@, key@, value@) == Ok::<Option<Seq<char>>, Seq<char>>(None),
            Err(e) => toml_with(text@, outer@, inner@, key@, value@) == Err::<Option<Seq<char>>, Seq<char>>(e@),
        },
{
    match text.parse::<toml_edit::DocumentMut>() {
        Ok(mut doc) => match doc[outer].get_mut(inner).and_then(|i| i.get_mut(key)) {
            Some(item) => {
                *item = toml_edit::value(value);
                Ok(Some(doc.to_string()))
            },
            None => Ok(None),
        },
        Err(e) => Err(e.to_string()),
    }
}

/// Why the configuration of a run cannot be written.
#[derive(Debug, PartialEq, Eq)]
pub enum NextestConfigError {
    /// The project's own configuration is no TOML document; the parser's message.
    NotToml(String),
    /// The project's own configuration has something other than a table where the profile is.
    NotATable,
}

/// The value of a [`NextestConfigError`].
#[verifier::ext_equal]
pub enum NextestConfigErrorView {
    NotToml(Seq<char>),
    NotATable,
}

impl View for NextestConfigError {
    type V = NextestConfigErrorView;

    open spec fn view(&self) -> NextestConfigErrorView {
        match self {
            NextestConfigError::NotToml(e) => NextestConfigErrorView::NotToml(e@),
            NextestConfigError::NotATable => NextestConfigErrorView::NotATable,
        }
    }
}

/// The message of a [`NextestConfigError`] about the file at `path`.
pub open spec fn nextest_config_message(e: NextestConfigErrorView, path: Seq<char>) -> Seq<char> {
    match e {
        NextestConfigErrorView::NotToml(m) => "failed to parse "@ + path + ": "@ + m,
        NextestConfigErrorView::NotATable => "failed to set the default filter in "@ + path
            + ": profile.default is not a table"@,
    }
}

impl NextestConfigError {
    /// The message for the user about the file at `path`.
    pub fn message(&self, path: &str) -> (r: String)
        ensures
            r@ == nextest_config_message(self@, path@),
    {
        match self {
            NextestConfigError::NotToml(m) => String::from_str("failed to parse ").concat(path).concat(": ").concat(
                m.as_str(),
            ),
            NextestConfigError::NotATable => String::from_str("failed to set the default filter in ").concat(
                path,
            ).concat(": profile.default is not a table"),
        }
    }
}

/// The default filter of a run: the selection, within the project's own default filter.
pub open spec fn run_filter(filter_expr: Seq<char>, existing: Option<Seq<char>>) -> Seq<char> {
    match existing {
        Some(own) => "("@ + filter_expr + ") & ("@ + own + ")"@,
        None => filter_expr,
    }
}

/// The default filter of a run: the selection, within the project's own default filter.
pub fn intersect_filter(filter_expr: &str, existing: Option<&str>) -> (r: String)
    ensures
        r@ == run_filter(filter_expr@, existing.deep_view()),
{
    match existing {
        Some(own) => String::from_str("(").concat(filter_expr).concat(") & (").concat(own).concat(")"),
        None => filter_expr.to_owned(),
    }
}

/// The configuration of a run: the project's own, with the default filter of the run.
pub open spec fn run_config(existing: Seq<char>, filter_expr: Seq<char>) -> Result<Seq<char>, NextestConfigErrorView> {
    match toml_text_at(existing, "profile"@, "default"@, "default-filter"@) {
        Err(e) => Err(NextestConfigErrorView::NotToml(e)),
        Ok(own) => match toml_with(
            existing,
            "profile"@,
            "default"@,
            "default-filter"@,
            run_filter(filter_expr, own),
        ) {
            Err(e) => Err(NextestConfigErrorView::NotToml(e)),
            Ok(None) => Err(NextestConfigErrorView::NotATable),
            Ok(Some(text)) => Ok(text),
        },
    }
}

/// The configuration that pins a run to a filterset. It replaces the project's own configuration,
/// so every setting of that is carried over; a default filter of the project is intersected with
/// the selection. In a file, the filterset can be longer than a command line may be.
pub fn write_nextest_config(existing: &str, filter_expr: &str) -> (r: Result<String, NextestConfigError>)
    ensures
        match r {
            Ok(text) => run_config(existing@, filter_expr@) == Ok::<Seq<char>, NextestConfigErrorView>(text@),
            Err(e) => run_config(existing@, filter_expr@) == Err::<Seq<char>, NextestConfigErrorView>(e@),
        },
{
    let own = match read_toml_text(existing, "profile", "default", "default-filter") {
        Ok(own) => own,
        Err(e) => {
            return Err(NextestConfigError::NotToml(e));
        },
    };
    let filter = match &own {
        Some(f) => intersect_filter(filter_expr, Some(f.as_str())),
        None => intersect_filter(filter_expr, None),
    };
    match set_toml_text(existing, "profile", "default", "default-filter", filter.as_str()) {
        Ok(Some(text)) => Ok(text),
        Ok(None) => Err(NextestConfigError::NotATable),
        Err(e) => Err(NextestConfigError::NotToml(e)),
    }
}

/// The project's own nextest configuration.
pub fn project_nextest_config(project_root: &str) -> (r: String)
    ensures
        r@ == crate::paths::joined_path(crate::paths::joined_path(project_root@, ".config"@), "nextest.toml"@),
{
    join_path(join_path(project_root, ".config").as_str(), "nextest.toml")
}

/// Where the configuration of a run is written: a file of its own for each process, so that
/// concurrent runs do not overwrite each other's.
pub fn nextest_config_path(project_root: &str, pid: u32) -> (r: String)
    ensures
        r@ == crate::paths::joined_path(
            crate::paths::affected_path(project_root@),
            "nextest-config-"@ + crate::text::decimal(pid as nat) + ".toml"@,
        ),
{
    let name = String::from_str("nextest-config-").concat(number_text(pid as u64).as_str()).concat(".toml");
    join_path(affected_dir(project_root).as_str(), name.as_str())
}

/// The numbers that texts write, if all of them do.
pub open spec fn numbers_of(parts: Seq<Seq<char>>) -> Option<Seq<u64>>
    decreases parts.len(),
{
    if parts.len() == 0 {
        Some(Seq::empty())
    } else {
        match (numbers_of(parts.drop_last()), crate::text::unsigned_value(parts.last())) {
            (Some(before), Some(n)) => if n <= u64::MAX {
                Some(before.push(n as u64))
            } else {
                None
            },
            _ => None,
        }
    }
}

/// A version without what stands behind its first `-` or `+`.
pub open spec fn version_core(v: Seq<char>) -> Seq<char> {
    crate::text::pieces(crate::text::pieces(v, '-')[0], '+')[0]
}

/// The numbers of a dotted version.
pub open spec fn version_parts(v: Seq<char>) -> Option<Seq<u64>> {
    numbers_of(crate::text::pieces(version_core(v), '.'))
}

/// Whether a version is at least another: number by number, and never for one that cannot be
/// read.
pub open spec fn is_version_at_least(actual: Seq<char>, required: Seq<char>) -> bool {
    match (version_parts(actual), version_parts(required)) {
        (Some(a), Some(r)) => !crate::ordered::list_before::<u64>(a, r),
        _ => false,
    }
}

/// What stands before the first separator.
pub(crate) fn first_piece(s: &str, sep: char) -> (r: String)
    ensures
        r@ == crate::text::pieces(s@, sep)[0],
{
    let parts = split_text(s, sep);
    proof {
        crate::text::lemma_pieces_nonempty(s@, sep);
        assert(parts.deep_view().len() >= 1);
        assert(parts.deep_view()[0] == parts@[0]@);
    }
    parts[0].clone()
}

proof fn lemma_no_numbers(parts: Seq<Seq<char>>, i: int)
    requires
        0 <= i < parts.len(),
        match crate::text::unsigned_value(parts[i]) {
            Some(n) => n > u64::MAX,
            None => true,
        },
    ensures
        numbers_of(parts) is None,
    decreases parts.len(),
{
    if i < parts.len() - 1 {
        lemma_no_numbers(parts.drop_last(), i);
    }
}

/// The numbers of a dotted version.
fn read_version(v: &str) -> (r: Option<Vec<u64>>)
    ensures
        match r {
            Some(n) => version_parts(v@) == Some(n.deep_view()),
            None => version_parts(v@) is None,
        },
{
    let core = first_piece(first_piece(v, '-').as_str(), '+');
    let parts = split_text(core.as_str(), '.');
    let ghost d = parts.deep_view();
    let mut out: Vec<u64> = Vec::new();
    let mut i: usize = 0;
    assert(d.take(0) =~= Seq::<Seq<char>>::empty());
    assert(out.deep_view() =~= Seq::<u64>::empty());
    while i < parts.len()
        invariant
            i <= parts.len(),
            d == parts.deep_view(),
            version_parts(v@) == numbers_of(d),
            numbers_of(d.take(i as int)) == Some(out.deep_view()),
        decreases parts.len() - i,
    {
        assert(d[i as int] == parts@[i as int]@);
        assert(d.take(i + 1).drop_last() =~= d.take(i as int));
        match parse_u64(parts[i].as_str()) {
            Some(n) => {
                let ghost before = out.deep_view();
                out.push(n);
                assert(out.deep_view() =~= before.push(n));
            },
            None => {
                proof {
                    lemma_no_numbers(d, i as int);
                }
                return None;
            },
        }
        i += 1;
    }
    assert(d.take(i as int) =~= d);
    Some(out)
}

/// Whether a version is at least another. What stands behind `-` or `+` is ignored, and a version
/// that cannot be read counts as too old.
pub fn nextest_version_at_least(actual: &str, required: &str) -> (r: bool)
    ensures
        r == is_version_at_least(actual@, required@),
{
    match (read_version(actual), read_version(required)) {
        (Some(a), Some(b)) => !a.is_before(&b),
        _ => false,
    }
}

/// The first nextest release that names the binary to each test that it runs.
pub open spec fn min_nextest_version() -> Seq<char> {
    "0.9.116"@
}

/// The version that `cargo nextest --version` prints: the second word of the first line.
pub open spec fn printed_version(stdout: Seq<u8>) -> Seq<char> {
    match crate::diff::utf8_text(stdout) {
        Some(text) => {
            let words = crate::text::words(crate::text::pieces(text, '\n')[0]);
            if words.len() > 1 {
                words[1]
            } else {
                ""@
            }
        },
        None => ""@,
    }
}

/// Why nextest cannot be used; nothing where it can. `stdout` is what `cargo nextest --version`
/// printed, if it ran at all.
pub open spec fn nextest_problem(stdout: Option<Seq<u8>>) -> Option<Seq<char>> {
    match stdout {
        None => Some(
            "cargo-affected requires cargo-nextest >= "@ + min_nextest_version()
                + ". Install it with `cargo install cargo-nextest --locked`."@,
        ),
        Some(out) => if is_version_at_least(printed_version(out), min_nextest_version()) {
            None
        } else {
            Some(
                "cargo-affected requires cargo-nextest >= "@ + min_nextest_version()
                    + " (NEXTEST_BINARY_ID env support); found "@ + crate::config::quoted_text(printed_version(out))
                    + ". Upgrade with `cargo install cargo-nextest --locked`."@,
            )
        },
    }
}

/// The version that `cargo nextest --version` prints.
fn read_printed_version(stdout: &[u8]) -> (r: String)
    ensures
        r@ == printed_version(stdout@),
{
    match decode_text(stdout) {
        Ok(text) => {
            let words = split_words(first_piece(text.as_str(), '\n').as_str());
            if words.len() > 1 {
                assert(words.deep_view()[1] == words@[1]@);
                words[1].clone()
            } else {
                String::from_str("")
            }
        },
        Err(_) => String::from_str(""),
    }
}

/// Why nextest cannot be used: it is absent, or too old to name the binary to each test.
pub fn require_nextest(stdout: Option<&Vec<u8>>) -> (r: Option<String>)
    ensures
        match (r, nextest_problem(match stdout {
            Some(v) => Some(v@),
            None => None,
        })) {
            (Some(m), Some(p)) => m@ == p,
            (None, None) => true,
            _ => false,
        },
{
    match stdout {
        None => Some(
            String::from_str("cargo-affected requires cargo-nextest >= ").concat("0.9.116").concat(
                ". Install it with `cargo install cargo-nextest --locked`.",
            ),
        ),
        Some(v) => {
            let version = read_printed_version(v.as_slice());
            if nextest_version_at_least(version.as_str(), "0.9.116") {
                None
            } else {
                Some(
                    String::from_str("cargo-affected requires cargo-nextest >= ").concat("0.9.116").concat(
                        " (NEXTEST_BINARY_ID env support); found ",
                    ).concat(crate::config::quote(version.as_str()).as_str()).concat(
                        ". Upgrade with `cargo install cargo-nextest --locked`.",
                    ),
                )
            }
        },
    }
}

/// A character of a basic string in TOML: backslashes and quotes are escaped.
pub open spec fn escaped_char(c: char) -> Seq<char> {
    if c == '\\' {
        seq!['\\', '\\']
    } else if c == '"' {
        seq!['\\', '"']
    } else {
        seq![c]
    }
}

/// A text with backslashes and quotes escaped.
pub open spec fn escaped_text(s: Seq<char>) -> Seq<char>
    decreases s.len(),
{
    if s.len() == 0 {
        Seq::empty()
    } else {
        escaped_text(s.drop_last()) + escaped_char(s.last())
    }
}

/// A text with backslashes and quotes escaped.
fn escape_text(s: &str) -> (r: String)
    ensures
        r@ == escaped_text(s@),
{
    let v = chars_of(s);
    let mut out = String::new();
    let mut i: usize = 0;
    assert(v@.take(0) =~= Seq::<char>::empty());
    while i < v.len()
        invariant
            i <= v.len(),
            v@ == s@,
            out@ == escaped_text(v@.take(i as int)),
        decreases v.len() - i,
    {
        let ghost before = out@;
        assert(v@.take(i + 1).drop_last() =~= v@.take(i as int));
        let c = v[i];
        if c == '\\' || c == '"' {
            out.push('\\');
        }
        out.push(c);
        assert(out@ =~= before + escaped_char(c));
        i += 1;
    }
    assert(v@.take(i as int) =~= s@);
    out
}

/// The setting that makes this program the runner of test binaries.
pub open spec fn runner_config(target_triple: Seq<char>, self_path: Seq<char>) -> Seq<char> {
    "target."@ + target_triple + ".runner=[\""@ + escaped_text(self_path) + "\", \"runner-shim\"]"@
}

/// The setting that makes this program the runner of test binaries, as a TOML array: a path with
/// spaces stays one argument.
pub fn format_runner_config(target_triple: &str, self_path: &str) -> (r: String)
    ensures
        r@ == runner_config(target_triple@, self_path@),
{
    String::from_str("target.").concat(target_triple).concat(".runner=[\"").concat(
        escape_text(self_path).as_str(),
    ).concat("\", \"runner-shim\"]")
}

} // verus!

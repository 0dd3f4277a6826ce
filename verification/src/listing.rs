//! What `cargo nextest list` reports: the tests, which of them a run would skip, and the binaries
//! that hold them.

use vstd::prelude::*;
use crate::db::{TestId, TestIdView};
use crate::diff::decode_text;
use crate::json::{read_json, Json, JsonView};
use crate::ordered::{Key, OrdSet};
use crate::text::same_text;

verus! {

/// One binary of a listing.
#[derive(Debug, Clone, PartialEq, Eq)]
pub struct BinaryEntry {
    pub binary_id: String,
    pub binary_path: String,
}

impl View for BinaryEntry {
    type V = (Seq<char>, Seq<char>);

    open spec fn view(&self) -> (Seq<char>, Seq<char>) {
        (self.binary_id@, self.binary_path@)
    }
}

impl DeepView for BinaryEntry {
    type V = (Seq<char>, Seq<char>);

    open spec fn deep_view(&self) -> (Seq<char>, Seq<char>) {
        self@
    }
}

/// What `cargo nextest list` reports.
#[derive(Debug, PartialEq, Eq)]
pub struct Listing {
    /// Every test, skipped or not: what is absent here no longer exists.
    pub tests: OrdSet<TestId>,
    /// Tests that are ignored on this platform. A run skips them, so they never gain coverage.
    pub ignored: OrdSet<TestId>,
    /// Tests that the filters of the listing do not admit.
    pub unmatched: OrdSet<TestId>,
    pub binaries: Vec<BinaryEntry>,
}

/// The value of a [`Listing`].
#[verifier::ext_equal]
pub struct ListingView {
    pub tests: Set<TestIdView>,
    pub ignored: Set<TestIdView>,
    pub unmatched: Set<TestIdView>,
    pub binaries: Seq<(Seq<char>, Seq<char>)>,
}

impl View for Listing {
    type V = ListingView;

    open spec fn view(&self) -> ListingView {
        ListingView {
            tests: self.tests@,
            ignored: self.ignored@,
            unmatched: self.unmatched@,
            binaries: self.binaries.deep_view(),
        }
    }
}

impl ListingView {
    /// Whether a run leaves a test out.
    pub open spec fn is_skipped(self, test: TestIdView) -> bool {
        self.ignored.contains(test) || self.unmatched.contains(test)
    }
}

impl Listing {
    /// Whether a run leaves a test out: it is ignored, or the filters do not admit it.
    pub fn skips(&self, test: &TestId) -> (r: bool)
        ensures
            r == self@.is_skipped(test@),
    {
        self.ignored.contains(test) || self.unmatched.contains(test)
    }
}

/// Why a listing could not be read.
#[derive(Debug, PartialEq, Eq)]
pub enum ListingError {
    /// The output is not UTF-8; the decoder's message.
    NotText(String),
    /// The output is no JSON document; the parser's message.
    NotJson(String),
    MissingBinaryId,
    MissingBinaryPath,
    MissingIgnored,
}

/// The value of a [`ListingError`].
#[verifier::ext_equal]
pub enum ListingErrorView {
    NotText(Seq<char>),
    NotJson(Seq<char>),
    MissingBinaryId,
    MissingBinaryPath,
    MissingIgnored,
}

impl View for ListingError {
    type V = ListingErrorView;

    open spec fn view(&self) -> ListingErrorView {
        match self {
            ListingError::NotText(e) => ListingErrorView::NotText(e@),
            ListingError::NotJson(e) => ListingErrorView::NotJson(e@),
            ListingError::MissingBinaryId => ListingErrorView::MissingBinaryId,
            ListingError::MissingBinaryPath => ListingErrorView::MissingBinaryPath,
            ListingError::MissingIgnored => ListingErrorView::MissingIgnored,
        }
    }
}

/// The message of a [`ListingError`].
pub open spec fn listing_message(e: ListingErrorView) -> Seq<char> {
    match e {
        ListingErrorView::NotText(m) => "cargo nextest list stdout was not valid UTF-8: "@ + m,
        ListingErrorView::NotJson(m) => "failed to parse nextest list JSON: "@ + m,
        ListingErrorView::MissingBinaryId => "nextest list entry missing binary-id"@,
        ListingErrorView::MissingBinaryPath => "nextest list entry missing binary-path"@,
        ListingErrorView::MissingIgnored => "nextest list testcase missing `ignored` flag"@,
    }
}

impl ListingError {
    /// The message for the user.
    pub fn message(&self) -> (r: String)
        ensures
            r@ == listing_message(self@),
    {
        match self {
            ListingError::NotText(m) => {
                String::from_str("cargo nextest list stdout was not valid UTF-8: ").concat(m.as_str())
            },
            ListingError::NotJson(m) => String::from_str("failed to parse nextest list JSON: ").concat(m.as_str()),
            ListingError::MissingBinaryId => String::from_str("nextest list entry missing binary-id"),
            ListingError::MissingBinaryPath => String::from_str("nextest list entry missing binary-path"),
            ListingError::MissingIgnored => String::from_str("nextest list testcase missing `ignored` flag"),
        }
    }
}

/// An empty listing.
pub open spec fn empty_listing() -> ListingView {
    ListingView { tests: Set::empty(), ignored: Set::empty(), unmatched: Set::empty(), binaries: Seq::empty() }
}

/// `set` with `x` in it, if `yes`.
pub open spec fn with_if(set: Set<TestIdView>, x: TestIdView, yes: bool) -> Set<TestIdView> {
    if yes {
        set.insert(x)
    } else {
        set
    }
}

/// Whether the filters of a listing reject a test case. A case without a verdict is admitted.
pub open spec fn is_mismatch(case: JsonView) -> bool {
    match case.get("filter-match"@) {
        Some(m) => m.get_text("status"@) == Some("mismatch"@),
        None => false,
    }
}

/// The listing with the test cases of one binary added.
pub open spec fn with_cases(
    l: ListingView,
    binary_id: Seq<char>,
    cases: Seq<(Seq<char>, JsonView)>,
) -> Result<ListingView, ListingErrorView>
    decreases cases.len(),
{
    if cases.len() == 0 {
        Ok(l)
    } else {
        match with_cases(l, binary_id, cases.drop_last()) {
            Err(e) => Err(e),
            Ok(before) => {
                let (name, case) = cases.last();
                let test = (binary_id, name);
                match case.get_bool("ignored"@) {
                    None => Err(ListingErrorView::MissingIgnored),
                    Some(ignored) => Ok(
                        ListingView {
                            tests: before.tests.insert(test),
                            ignored: with_if(before.ignored, test, ignored),
                            unmatched: with_if(before.unmatched, test, is_mismatch(case)),
                            binaries: before.binaries,
                        },
                    ),
                }
            },
        }
    }
}

/// The listing with one binary and its test cases added.
pub open spec fn with_suite(l: ListingView, suite: JsonView) -> Result<ListingView, ListingErrorView> {
    match (suite.get_text("binary-id"@), suite.get_text("binary-path"@)) {
        (None, _) => Err(ListingErrorView::MissingBinaryId),
        (_, None) => Err(ListingErrorView::MissingBinaryPath),
        (Some(id), Some(path)) => {
            let l = ListingView { binaries: l.binaries.push((id, path)), ..l };
            match suite.get_object("testcases"@) {
                Some(cases) => with_cases(l, id, cases),
                None => Ok(l),
            }
        },
    }
}

/// The listing of all binaries.
pub open spec fn suites_listing(suites: Seq<(Seq<char>, JsonView)>) -> Result<ListingView, ListingErrorView>
    decreases suites.len(),
{
    if suites.len() == 0 {
        Ok(empty_listing())
    } else {
        match suites_listing(suites.drop_last()) {
            Err(e) => Err(e),
            Ok(before) => with_suite(before, suites.last().1),
        }
    }
}

/// What a listing document says.
pub open spec fn listing_in(j: JsonView) -> Result<ListingView, ListingErrorView> {
    match j.get_object("rust-suites"@) {
        Some(suites) => suites_listing(suites),
        None => Ok(empty_listing()),
    }
}

/// What the output of `cargo nextest list` says.
pub open spec fn listing_of(stdout: Seq<u8>) -> Result<ListingView, ListingErrorView> {
    match crate::diff::utf8_text(stdout) {
        None => Err(ListingErrorView::NotText(crate::diff::utf8_error(stdout))),
        Some(text) => match crate::json::json_text(text) {
            Err(e) => Err(ListingErrorView::NotJson(e)),
            Ok(j) => listing_in(j),
        },
    }
}

proof fn lemma_cases_failed(
    l: ListingView,
    binary_id: Seq<char>,
    cases: Seq<(Seq<char>, JsonView)>,
    n: int,
    e: ListingErrorView,
)
    requires
        0 <= n <= cases.len(),
        with_cases(l, binary_id, cases.take(n)) == Err::<ListingView, ListingErrorView>(e),
    ensures
        with_cases(l, binary_id, cases) == Err::<ListingView, ListingErrorView>(e),
    decreases cases.len() - n,
{
    if n < cases.len() {
        assert(cases.take(n + 1).drop_last() =~= cases.take(n));
        lemma_cases_failed(l, binary_id, cases, n + 1, e);
    } else {
        assert(cases.take(n) =~= cases);
    }
}

proof fn lemma_suites_failed(suites: Seq<(Seq<char>, JsonView)>, n: int, e: ListingErrorView)
    requires
        0 <= n <= suites.len(),
        suites_listing(suites.take(n)) == Err::<ListingView, ListingErrorView>(e),
    ensures
        suites_listing(suites) == Err::<ListingView, ListingErrorView>(e),
    decreases suites.len() - n,
{
    if n < suites.len() {
        assert(suites.take(n + 1).drop_last() =~= suites.take(n));
        lemma_suites_failed(suites, n + 1, e);
    } else {
        assert(suites.take(n) =~= suites);
    }
}

/// Whether the filters of a listing reject a test case.
fn mismatch(case: &Json) -> (r: bool)
    ensures
        r == is_mismatch(case@),
{
    match case.get("filter-match") {
        Some(m) => match m.get_str("status") {
            Some(s) => same_text(s, "mismatch"),
            None => false,
        },
        None => false,
    }
}

/// Adds the test cases of one binary.
fn add_cases(l: &mut Listing, binary_id: &str, cases: &Vec<(String, Json)>) -> (r: Result<(), ListingError>)
    ensures
        match r {
            Ok(()) => with_cases(old(l)@, binary_id@, cases.deep_view()) == Ok::<ListingView, ListingErrorView>(final(l)@),
            Err(e) => with_cases(old(l)@, binary_id@, cases.deep_view()) == Err::<ListingView, ListingErrorView>(e@),
        },
{
    let ghost d = cases.deep_view();
    let ghost l0 = l@;
    let mut i: usize = 0;
    assert(d.take(0) =~= Seq::<(Seq<char>, JsonView)>::empty());
    while i < cases.len()
        invariant
            i <= cases.len(),
            d == cases.deep_view(),
            l0 == old(l)@,
            with_cases(l0, binary_id@, d.take(i as int)) == Ok::<ListingView, ListingErrorView>(l@),
        decreases cases.len() - i,
    {
        let ghost before = l@;
        assert(d[i as int] == (cases@[i as int].0@, cases@[i as int].1@));
        assert(d.take(i + 1).drop_last() =~= d.take(i as int));
        let case = &cases[i].1;
        match case.get_bool("ignored") {
            None => {
                proof {
                    lemma_cases_failed(l0, binary_id@, d, i + 1, ListingErrorView::MissingIgnored);
                }
                return Err(ListingError::MissingIgnored);
            },
            Some(ignored) => {
                let test = TestId::new(binary_id, cases[i].0.as_str());
                if ignored {
                    l.ignored.insert(test.duplicate());
                }
                if mismatch(case) {
                    l.unmatched.insert(test.duplicate());
                }
                l.tests.insert(test);
            },
        }
        assert(with_cases(l0, binary_id@, d.take(i + 1)) == Ok::<ListingView, ListingErrorView>(l@));
        i += 1;
    }
    assert(d.take(i as int) =~= d);
    Ok(())
}

/// Adds one binary and its test cases.
fn add_suite(l: &mut Listing, suite: &Json) -> (r: Result<(), ListingError>)
    ensures
        match r {
            Ok(()) => with_suite(old(l)@, suite@) == Ok::<ListingView, ListingErrorView>(final(l)@),
            Err(e) => with_suite(old(l)@, suite@) == Err::<ListingView, ListingErrorView>(e@),
        },
{
    let id = match suite.get_str("binary-id") {
        Some(id) => id,
        None => {
            return Err(ListingError::MissingBinaryId);
        },
    };
    let path = match suite.get_str("binary-path") {
        Some(path) => path,
        None => {
            return Err(ListingError::MissingBinaryPath);
        },
    };
    let ghost before = l@;
    l.binaries.push(BinaryEntry { binary_id: id.to_owned(), binary_path: path.to_owned() });
    assert(l@ =~= (ListingView { binaries: before.binaries.push((id@, path@)), ..before }));
    match suite.get_object("testcases") {
        Some(cases) => add_cases(l, id, cases),
        None => Ok(()),
    }
}

/// Reads a listing document.
pub fn read_listing(j: &Json) -> (r: Result<Listing, ListingError>)
    ensures
        match r {
            Ok(l) => listing_in(j@) == Ok::<ListingView, ListingErrorView>(l@),
            Err(e) => listing_in(j@) == Err::<ListingView, ListingErrorView>(e@),
        },
{
    let mut l = Listing {
        tests: OrdSet::new(),
        ignored: OrdSet::new(),
        unmatched: OrdSet::new(),
        binaries: Vec::new(),
    };
    assert(l@ =~= empty_listing());
    match j.get_object("rust-suites") {
        Some(suites) => {
            let ghost d = suites.deep_view();
            let mut i: usize = 0;
            assert(d.take(0) =~= Seq::<(Seq<char>, JsonView)>::empty());
            while i < suites.len()
                invariant
                    i <= suites.len(),
                    d == suites.deep_view(),
                    listing_in(j@) == suites_listing(d),
                    suites_listing(d.take(i as int)) == Ok::<ListingView, ListingErrorView>(l@),
                decreases suites.len() - i,
            {
                assert(d[i as int] == (suites@[i as int].0@, suites@[i as int].1@));
                assert(d.take(i + 1).drop_last() =~= d.take(i as int));
                match add_suite(&mut l, &suites[i].1) {
                    Ok(()) => {},
                    Err(e) => {
                        proof {
                            lemma_suites_failed(d, i + 1, e@);
                        }
                        return Err(e);
                    },
                }
                i += 1;
            }
            assert(d.take(i as int) =~= d);
            Ok(l)
        },
        None => Ok(l),
    }
}

/// Reads what `cargo nextest list` printed.
pub fn nextest_list(stdout: &[u8]) -> (r: Result<Listing, ListingError>)
    ensures
        match r {
            Ok(l) => listing_of(stdout@) == Ok::<ListingView, ListingErrorView>(l@),
            Err(e) => listing_of(stdout@) == Err::<ListingView, ListingErrorView>(e@),
        },
{
    match decode_text(stdout) {
        Err(e) => Err(ListingError::NotText(e)),
        Ok(text) => match read_json(text.as_str()) {
            Err(e) => Err(ListingError::NotJson(e)),
            Ok(j) => read_listing(&j),
        },
    }
}

} // verus!

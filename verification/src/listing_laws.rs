//! Laws of listings: what nextest prints is what is read.

use vstd::prelude::*;
use crate::db::TestIdView;
use crate::json::JsonView;
use crate::listing;
use crate::listing::{ListingErrorView, ListingView};

verus! {

/// The test cases of a suite; none where it lists none.
pub open spec fn cases_of(suite: JsonView) -> Seq<(Seq<char>, JsonView)> {
    match suite.get_object("testcases"@) {
        Some(cases) => cases,
        None => Seq::empty(),
    }
}

/// The `k`th case of the `s`th suite is the test.
pub open spec fn is_case(suites: Seq<(Seq<char>, JsonView)>, s: int, k: int, test: TestIdView) -> bool {
    &&& 0 <= s < suites.len()
    &&& suites[s].1.get_text("binary-id"@) == Some(test.0)
    &&& 0 <= k < cases_of(suites[s].1).len()
    &&& cases_of(suites[s].1)[k].0 == test.1
}

/// A case that is marked as ignored.
pub open spec fn is_ignored(case: JsonView) -> bool {
    case.get("ignored"@) == Some(JsonView::Bool(true))
}

/// A case that the filters reject.
pub open spec fn is_rejected(case: JsonView) -> bool {
    case.get("filter-match"@) is Some && case.get("filter-match"@)->0.get("status"@) == Some(
        JsonView::Text("mismatch"@),
    )
}

spec fn at(cases: Seq<(Seq<char>, JsonView)>, k: int, id: Seq<char>, test: TestIdView) -> bool {
    0 <= k < cases.len() && cases[k].0 == test.1 && id == test.0
}

proof fn lemma_cases(l: ListingView, id: Seq<char>, cases: Seq<(Seq<char>, JsonView)>, test: TestIdView)
    ensures
        ({
            let r = listing::with_cases(l, id, cases);
            &&& r is Ok <==> forall|k: int| 0 <= k < cases.len() ==> (#[trigger] cases[k]).1.get("ignored"@) is Some
                && cases[k].1.get("ignored"@)->0 is Bool
            &&& r is Err ==> r == Err::<ListingView, ListingErrorView>(ListingErrorView::MissingIgnored)
            &&& r is Ok ==> {
                &&& r->Ok_0.binaries == l.binaries
                &&& r->Ok_0.tests.contains(test) <==> l.tests.contains(test) || exists|k: int|
                    #[trigger] at(cases, k, id, test)
                &&& r->Ok_0.ignored.contains(test) <==> l.ignored.contains(test) || exists|k: int|
                    #[trigger] at(cases, k, id, test) && is_ignored(cases[k].1)
                &&& r->Ok_0.unmatched.contains(test) <==> l.unmatched.contains(test) || exists|k: int|
                    #[trigger] at(cases, k, id, test) && is_rejected(cases[k].1)
            }
        }),
    decreases cases.len(),
{
    if cases.len() > 0 {
        let b = cases.drop_last();
        lemma_cases(l, id, b, test);
        let last = cases.len() - 1;
        assert(cases[last] == cases.last());
        let r0 = listing::with_cases(l, id, b);
        let r = listing::with_cases(l, id, cases);
        if forall|k: int|
            0 <= k < cases.len() ==> (#[trigger] cases[k]).1.get("ignored"@) is Some && cases[k].1.get("ignored"@)->0 is Bool {
            assert forall|k: int| 0 <= k < b.len() implies (#[trigger] b[k]).1.get("ignored"@) is Some && b[k].1.get(
                "ignored"@,
            )->0 is Bool by {
                assert(b[k] == cases[k]);
            }
        }
        if r is Ok {
            assert forall|k: int| 0 <= k < cases.len() implies (#[trigger] cases[k]).1.get("ignored"@) is Some
                && cases[k].1.get("ignored"@)->0 is Bool by {
                if k < b.len() {
                    assert(b[k] == cases[k]);
                }
            }
        }
        if r0 is Ok && r is Ok {
            assert forall|k: int| #[trigger] at(b, k, id, test) implies at(cases, k, id, test) && cases[k] == b[k] by {}
            assert forall|k: int| #[trigger] at(cases, k, id, test) && k != last implies at(b, k, id, test) && cases[k]
                == b[k] by {}
            assert(at(cases, last, id, test) <==> (id, cases.last().0) == test);
            if exists|k: int| #[trigger] at(b, k, id, test) && is_ignored(b[k].1) {
                let k = choose|k: int| #[trigger] at(b, k, id, test) && is_ignored(b[k].1);
                assert(at(cases, k, id, test) && is_ignored(cases[k].1));
            }
            if exists|k: int| #[trigger] at(cases, k, id, test) && is_ignored(cases[k].1) {
                let k = choose|k: int| #[trigger] at(cases, k, id, test) && is_ignored(cases[k].1);
                if k != last {
                    assert(at(b, k, id, test) && is_ignored(b[k].1));
                }
            }
            if exists|k: int| #[trigger] at(b, k, id, test) && is_rejected(b[k].1) {
                let k = choose|k: int| #[trigger] at(b, k, id, test) && is_rejected(b[k].1);
                assert(at(cases, k, id, test) && is_rejected(cases[k].1));
            }
            if exists|k: int| #[trigger] at(cases, k, id, test) && is_rejected(cases[k].1) {
                let k = choose|k: int| #[trigger] at(cases, k, id, test) && is_rejected(cases[k].1);
                if k != last {
                    assert(at(b, k, id, test) && is_rejected(b[k].1));
                }
            }
        }
    }
}

/// A suite with an id, a path and a verdict on each of its cases.
pub open spec fn is_whole(suite: JsonView) -> bool {
    &&& suite.get_text("binary-id"@) is Some
    &&& suite.get_text("binary-path"@) is Some
    &&& forall|k: int|
        0 <= k < cases_of(suite).len() ==> (#[trigger] cases_of(suite)[k]).1.get("ignored"@) is Some && cases_of(
            suite,
        )[k].1.get("ignored"@)->0 is Bool
}

/// A listing is read as it is printed: a test is listed exactly where a suite has a case of its name
/// under its binary, it is ignored exactly where such a case is marked so, and unmatched exactly where
/// the filters reject such a case, for whatever reason. The binaries are those of the suites, in order.
/// A listing that lacks an id, a path or a mark is refused.
pub proof fn law_listing_is_what_is_printed(suites: Seq<(Seq<char>, JsonView)>, test: TestIdView)
    ensures
        ({
            let r = listing::suites_listing(suites);
            &&& r is Ok <==> forall|s: int| 0 <= s < suites.len() ==> is_whole((#[trigger] suites[s]).1)
            &&& r is Ok ==> {
                &&& r->Ok_0.tests.contains(test) <==> exists|s: int, k: int| #[trigger] is_case(suites, s, k, test)
                &&& r->Ok_0.ignored.contains(test) <==> exists|s: int, k: int|
                    #[trigger] is_case(suites, s, k, test) && is_ignored(cases_of(suites[s].1)[k].1)
                &&& r->Ok_0.unmatched.contains(test) <==> exists|s: int, k: int|
                    #[trigger] is_case(suites, s, k, test) && is_rejected(cases_of(suites[s].1)[k].1)
                &&& r->Ok_0.binaries.len() == suites.len()
                &&& forall|s: int|
                    0 <= s < suites.len() ==> (#[trigger] suites[s]).1.get_text("binary-id"@) == Some(
                        r->Ok_0.binaries[s].0,
                    ) && suites[s].1.get_text("binary-path"@) == Some(r->Ok_0.binaries[s].1)
            }
        }),
    decreases suites.len(),
{
    if suites.len() > 0 {
        let b = suites.drop_last();
        law_listing_is_what_is_printed(b, test);
        let last = suites.len() - 1;
        let suite = suites.last().1;
        assert(suites[last] == suites.last());
        let r0 = listing::suites_listing(b);
        let r = listing::suites_listing(suites);
        assert forall|s: int| 0 <= s < b.len() implies #[trigger] b[s] == suites[s] by {}
        if r0 is Ok {
            if suite.get_text("binary-id"@) is Some && suite.get_text("binary-path"@) is Some {
                let id = suite.get_text("binary-id"@)->0;
                let path = suite.get_text("binary-path"@)->0;
                let l = ListingView { binaries: r0->Ok_0.binaries.push((id, path)), ..r0->Ok_0 };
                let cases = cases_of(suite);
                lemma_cases(l, id, cases, test);
                assert(r is Ok <==> is_whole(suite));
                if r is Ok {
                    lemma_last_suite(suites, test);
                }
            }
        }
        if r is Ok {
            assert forall|s: int| 0 <= s < suites.len() implies is_whole((#[trigger] suites[s]).1) by {
                if s < b.len() {
                    assert(is_whole(b[s].1));
                }
            }
            assert forall|s: int| 0 <= s < suites.len() implies (#[trigger] suites[s]).1.get_text("binary-id"@) == Some(
                r->Ok_0.binaries[s].0,
            ) && suites[s].1.get_text("binary-path"@) == Some(r->Ok_0.binaries[s].1) by {
                if s < b.len() {
                    assert(b[s] == suites[s]);
                }
            }
        }
        if forall|s: int| 0 <= s < suites.len() ==> is_whole((#[trigger] suites[s]).1) {
            assert forall|s: int| 0 <= s < b.len() implies is_whole((#[trigger] b[s]).1) by {
                assert(is_whole(suites[s].1));
            }
            assert(is_whole(suites[last].1));
        }
    }
}

proof fn lemma_last_suite(suites: Seq<(Seq<char>, JsonView)>, test: TestIdView)
    requires
        suites.len() > 0,
        suites.last().1.get_text("binary-id"@) is Some,
    ensures
        ({
            let b = suites.drop_last();
            let suite = suites.last().1;
            let id = suite.get_text("binary-id"@)->0;
            let cases = cases_of(suite);
            &&& (exists|s: int, k: int| #[trigger] is_case(suites, s, k, test)) <==> (exists|s: int, k: int|
                #[trigger] is_case(b, s, k, test)) || (exists|k: int| #[trigger] at(cases, k, id, test))
            &&& (exists|s: int, k: int|
                #[trigger] is_case(suites, s, k, test) && is_ignored(cases_of(suites[s].1)[k].1)) <==> (exists|
                s: int,
                k: int,
            | #[trigger] is_case(b, s, k, test) && is_ignored(cases_of(b[s].1)[k].1)) || (exists|k: int|
                #[trigger] at(cases, k, id, test) && is_ignored(cases[k].1))
            &&& (exists|s: int, k: int|
                #[trigger] is_case(suites, s, k, test) && is_rejected(cases_of(suites[s].1)[k].1)) <==> (exists|
                s: int,
                k: int,
            | #[trigger] is_case(b, s, k, test) && is_rejected(cases_of(b[s].1)[k].1)) || (exists|k: int|
                #[trigger] at(cases, k, id, test) && is_rejected(cases[k].1))
        }),
{
    let b = suites.drop_last();
    let suite = suites.last().1;
    let id = suite.get_text("binary-id"@)->0;
    let cases = cases_of(suite);
    let last = suites.len() - 1;
    assert(suites[last] == suites.last());
    assert forall|s: int, k: int| #[trigger] is_case(b, s, k, test) implies is_case(suites, s, k, test) && suites[s]
        == b[s] by {}
    assert forall|s: int, k: int| #[trigger] is_case(suites, s, k, test) && s != last implies is_case(b, s, k, test)
        && suites[s] == b[s] by {}
    assert forall|k: int| #[trigger] at(cases, k, id, test) implies is_case(suites, last, k, test) by {}
    assert forall|k: int| #[trigger] is_case(suites, last, k, test) implies at(cases, k, id, test) by {}
    if exists|s: int, k: int| #[trigger] is_case(suites, s, k, test) && is_ignored(cases_of(suites[s].1)[k].1) {
        let (s, k) = choose|s: int, k: int|
            #[trigger] is_case(suites, s, k, test) && is_ignored(cases_of(suites[s].1)[k].1);
        if s == last {
            assert(at(cases, k, id, test) && is_ignored(cases[k].1));
        } else {
            assert(is_case(b, s, k, test) && is_ignored(cases_of(b[s].1)[k].1));
        }
    }
    if exists|s: int, k: int| #[trigger] is_case(b, s, k, test) && is_ignored(cases_of(b[s].1)[k].1) {
        let (s, k) = choose|s: int, k: int| #[trigger] is_case(b, s, k, test) && is_ignored(cases_of(b[s].1)[k].1);
        assert(is_case(suites, s, k, test) && is_ignored(cases_of(suites[s].1)[k].1));
    }
    if exists|k: int| #[trigger] at(cases, k, id, test) && is_ignored(cases[k].1) {
        let k = choose|k: int| #[trigger] at(cases, k, id, test) && is_ignored(cases[k].1);
        assert(is_case(suites, last, k, test) && is_ignored(cases_of(suites[last].1)[k].1));
    }
    if exists|s: int, k: int| #[trigger] is_case(suites, s, k, test) && is_rejected(cases_of(suites[s].1)[k].1) {
        let (s, k) = choose|s: int, k: int|
            #[trigger] is_case(suites, s, k, test) && is_rejected(cases_of(suites[s].1)[k].1);
        if s == last {
            assert(at(cases, k, id, test) && is_rejected(cases[k].1));
        } else {
            assert(is_case(b, s, k, test) && is_rejected(cases_of(b[s].1)[k].1));
        }
    }
    if exists|s: int, k: int| #[trigger] is_case(b, s, k, test) && is_rejected(cases_of(b[s].1)[k].1) {
        let (s, k) = choose|s: int, k: int| #[trigger] is_case(b, s, k, test) && is_rejected(cases_of(b[s].1)[k].1);
        assert(is_case(suites, s, k, test) && is_rejected(cases_of(suites[s].1)[k].1));
    }
    if exists|k: int| #[trigger] at(cases, k, id, test) && is_rejected(cases[k].1) {
        let k = choose|k: int| #[trigger] at(cases, k, id, test) && is_rejected(cases[k].1);
        assert(is_case(suites, last, k, test) && is_rejected(cases_of(suites[last].1)[k].1));
    }
}

/// A document without suites lists nothing; otherwise its suites are listed.
pub proof fn law_listing_holds_the_suites(j: JsonView, suites: Seq<(Seq<char>, JsonView)>)
    ensures
        j.get("rust-suites"@) == Some(JsonView::Object(suites)) ==> listing::listing_in(j) == listing::suites_listing(suites),
        j.get("rust-suites"@) is None ==> listing::listing_in(j) is Ok && listing::listing_in(j)->Ok_0.tests == Set::<
            TestIdView,
        >::empty() && listing::listing_in(j)->Ok_0.binaries.len() == 0,
{
}

/// A run leaves a test out where it is ignored and where no filter matches it: either is enough.
pub proof fn law_ignored_and_unmatched_tests_are_left_out(l: ListingView, t: TestIdView)
    ensures
        l.ignored.contains(t) ==> l.is_skipped(t),
        l.unmatched.contains(t) ==> l.is_skipped(t),
        !l.ignored.contains(t) && !l.unmatched.contains(t) ==> !l.is_skipped(t),
{
}

} // verus!

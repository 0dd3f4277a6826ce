//! Laws of the input rules: how they are found and read, and which of them a change concerns.

use vstd::prelude::*;
use crate::config;
use crate::config::{ConfigErrorView, InputRuleView};
use crate::db::TestIdView;
use crate::json::JsonView;
use crate::listing::ListingView;

verus! {

/// Some glob of a rule matches a path.
pub open spec fn concerns(rule: InputRuleView, path: Seq<char>) -> bool {
    exists|g: int| 0 <= g < rule.globs.len() && config::glob_matches(#[trigger] rule.globs[g], path)
}

/// A rule that a changed path concerns is resolved: its filterset is asked about, for exactly the changed
/// paths that concern it.
pub proof fn law_concerned_rules_are_asked_about(rules: Seq<InputRuleView>, paths: Set<Seq<char>>, i: int, path: Seq<char>)
    requires
        0 <= i < rules.len(),
        paths.contains(path),
        concerns(rules[i], path),
    ensures
        exists|k: int|
            {
                &&& 0 <= k < config::requests_of(rules, paths).len()
                &&& (#[trigger] config::requests_of(rules, paths)[k]).0 == rules[i].filterset
                &&& forall|p: Seq<char>|
                    #[trigger] config::requests_of(rules, paths)[k].1.contains(p) <==> paths.contains(p) && concerns(
                        rules[i],
                        p,
                    )
            },
    decreases rules.len(),
{
    let b = rules.drop_last();
    let all = config::requests_of(rules, paths);
    let before = config::requests_of(b, paths);
    if i < b.len() {
        assert(b[i] == rules[i]);
        law_concerned_rules_are_asked_about(b, paths, i, path);
        let k = choose|k: int|
            {
                &&& 0 <= k < config::requests_of(b, paths).len()
                &&& (#[trigger] config::requests_of(b, paths)[k]).0 == b[i].filterset
                &&& forall|p: Seq<char>|
                    #[trigger] config::requests_of(b, paths)[k].1.contains(p) <==> paths.contains(p) && concerns(b[i], p)
            };
        assert(all[k] == before[k]);
    } else {
        let matched = config::matched_paths(rules.last(), paths);
        lemma_matched(rules.last(), paths, path);
        assert(matched.contains(path));
        let k = before.len() as int;
        assert(all[k] == (rules.last().filterset, matched));
        assert forall|p: Seq<char>| #[trigger] all[k].1.contains(p) <==> paths.contains(p) && concerns(rules[i], p) by {
            lemma_matched(rules.last(), paths, p);
        }
    }
}

proof fn lemma_matched(rule: InputRuleView, paths: Set<Seq<char>>, path: Seq<char>)
    ensures
        config::matched_paths(rule, paths).contains(path) <==> paths.contains(path) && concerns(rule, path),
{
    if config::some_glob_matches(rule.globs, path) {
        assert(concerns(rule, path));
    }
    if concerns(rule, path) {
        let g = choose|g: int| 0 <= g < rule.globs.len() && config::glob_matches(#[trigger] rule.globs[g], path);
        assert(config::glob_matches(rule.globs[g], path));
    }
}

/// Nothing else is asked about: each filterset is that of a rule, the paths are the changed ones that
/// concern it, and there is one.
pub proof fn law_only_concerned_rules_are_asked_about(rules: Seq<InputRuleView>, paths: Set<Seq<char>>, k: int)
    requires
        0 <= k < config::requests_of(rules, paths).len(),
    ensures
        exists|i: int|
            {
                &&& 0 <= i < rules.len()
                &&& (#[trigger] rules[i]).filterset == config::requests_of(rules, paths)[k].0
                &&& forall|p: Seq<char>|
                    #[trigger] config::requests_of(rules, paths)[k].1.contains(p) <==> paths.contains(p) && concerns(
                        rules[i],
                        p,
                    )
            },
        exists|p: Seq<char>| #[trigger] config::requests_of(rules, paths)[k].1.contains(p),
    decreases rules.len(),
{
    let b = rules.drop_last();
    let all = config::requests_of(rules, paths);
    let before = config::requests_of(b, paths);
    let n = rules.len() - 1;
    assert(rules[n] == rules.last());
    if k < before.len() {
        law_only_concerned_rules_are_asked_about(b, paths, k);
        assert(all[k] == before[k]);
        let i = choose|i: int|
            {
                &&& 0 <= i < b.len()
                &&& (#[trigger] b[i]).filterset == config::requests_of(b, paths)[k].0
                &&& forall|p: Seq<char>|
                    #[trigger] config::requests_of(b, paths)[k].1.contains(p) <==> paths.contains(p) && concerns(b[i], p)
            };
        assert(rules[i] == b[i]);
        let p = choose|p: Seq<char>| #[trigger] config::requests_of(b, paths)[k].1.contains(p);
        assert(all[k].1.contains(p));
    } else {
        let matched = config::matched_paths(rules.last(), paths);
        assert(all[k] == (rules.last().filterset, matched));
        assert forall|p: Seq<char>| #[trigger] all[k].1.contains(p) <==> paths.contains(p) && concerns(rules[n], p) by {
            lemma_matched(rules.last(), paths, p);
        }
        if forall|p: Seq<char>| !#[trigger] matched.contains(p) {
            assert(matched =~= Set::empty());
        }
        let p = choose|p: Seq<char>| #[trigger] matched.contains(p);
        assert(all[k].1.contains(p));
    }
}

/// The tests of a filterset are those of its listing that the filterset admits.
pub proof fn law_filterset_admits_its_tests(listing: ListingView, t: TestIdView)
    ensures
        config::filterset_tests(listing).contains(t) <==> listing.tests.contains(t) && !listing.unmatched.contains(t),
{
}

/// The filterset of a listing admits some test.
pub open spec fn admits_some(listing: ListingView) -> bool {
    exists|x: TestIdView| #[trigger] listing.tests.contains(x) && !listing.unmatched.contains(x)
}

/// A test is named for a path exactly where the filterset of a rule that was asked about for this path
/// admits it.
pub proof fn law_named_tests_are_admitted(
    requests: Seq<(Seq<char>, Set<Seq<char>>)>,
    listings: Seq<ListingView>,
    path: Seq<char>,
    t: TestIdView,
)
    requires
        requests.len() == listings.len(),
        forall|i: int| 0 <= i < listings.len() ==> (#[trigger] listings[i]).tests.finite(),
    ensures
        ({
            let hits = config::all_rule_hits(requests, listings);
            hits.contains_key(path) && hits[path].contains(t) <==> exists|i: int|
                0 <= i < requests.len() && (#[trigger] requests[i]).1.contains(path) && listings[i].tests.contains(t)
                    && !listings[i].unmatched.contains(t)
        }),
        (forall|i: int| 0 <= i < listings.len() ==> admits_some(#[trigger] listings[i])) ==> config::all_rule_warnings(requests, listings).len() == 0,
{
    assert forall|i: int| 0 <= i < listings.len() implies config::filterset_tests(#[trigger] listings[i]).finite() by {
        assert(config::filterset_tests(listings[i]).subset_of(listings[i].tests));
        vstd::set_lib::lemma_set_subset_finite(listings[i].tests, config::filterset_tests(listings[i]));
    }
    config::law_matching_rules_are_resolved(requests, listings, path, t);
    let hits = config::all_rule_hits(requests, listings);
    if hits.contains_key(path) && hits[path].contains(t) {
        let i = choose|i: int|
            0 <= i < requests.len() && (#[trigger] requests[i]).1.contains(path) && config::filterset_tests(
                listings[i],
            ).contains(t);
        assert(requests[i].1.contains(path));
    }
    if exists|i: int|
        0 <= i < requests.len() && (#[trigger] requests[i]).1.contains(path) && listings[i].tests.contains(t)
            && !listings[i].unmatched.contains(t) {
        let i = choose|i: int|
            0 <= i < requests.len() && (#[trigger] requests[i]).1.contains(path) && listings[i].tests.contains(t)
                && !listings[i].unmatched.contains(t);
        assert(config::filterset_tests(listings[i]).contains(t));
    }
    if forall|i: int| 0 <= i < listings.len() ==> admits_some(#[trigger] listings[i]) {
        assert forall|i: int| 0 <= i < listings.len() implies config::filterset_tests(#[trigger] listings[i]).len() > 0 by {
            let x = choose|x: TestIdView|
                #[trigger] listings[i].tests.contains(x) && !listings[i].unmatched.contains(x);
            assert(config::filterset_tests(listings[i]).contains(x));
        }
        lemma_no_warnings(requests, listings);
    }
}

proof fn lemma_no_warnings(requests: Seq<(Seq<char>, Set<Seq<char>>)>, listings: Seq<ListingView>)
    requires
        requests.len() == listings.len(),
        forall|i: int| 0 <= i < listings.len() ==> config::filterset_tests(#[trigger] listings[i]).len() > 0,
    ensures
        config::all_rule_warnings(requests, listings).len() == 0,
    decreases requests.len(),
{
    if requests.len() > 0 {
        let ls = listings.drop_last();
        assert forall|i: int| 0 <= i < ls.len() implies config::filterset_tests(#[trigger] ls[i]).len() > 0 by {
            assert(ls[i] == listings[i]);
        }
        lemma_no_warnings(requests.drop_last(), ls);
        assert(listings[listings.len() - 1] == listings.last());
    }
}

/// A rule is read from an object with its globs and its filterset. One that holds anything else, or lacks
/// either, is refused.
pub proof fn law_rule_is_read(members: Seq<(Seq<char>, JsonView)>, globs: Seq<JsonView>, filterset: Seq<char>)
    ensures
        ({
            let j = JsonView::Object(members);
            let r = config::rule_of(j);
            &&& (exists|i: int| 0 <= i < members.len() && (#[trigger] members[i]).0 != "globs"@ && members[i].0
                != "filterset"@) ==> r is None
            &&& j.get("globs"@) is None || j.get("filterset"@) is None ==> r is None
            &&& (forall|i: int| 0 <= i < members.len() ==> (#[trigger] members[i]).0 == "globs"@ || members[i].0
                == "filterset"@) && j.get("globs"@) == Some(JsonView::Array(globs)) && j.get("filterset"@) == Some(
                JsonView::Text(filterset),
            ) && (forall|i: int| 0 <= i < globs.len() ==> (#[trigger] globs[i]) is Text) ==> {
                &&& r is Some
                &&& r->0.filterset == filterset
                &&& r->0.globs.len() == globs.len()
                &&& forall|i: int| 0 <= i < globs.len() ==> #[trigger] globs[i] == JsonView::Text(r->0.globs[i])
            }
        }),
{
    let f = |g: JsonView| g.as_text();
    let j = JsonView::Object(members);
    crate::coverage_laws::law_lists_are_read_one_by_one(globs, f);
    if forall|i: int| 0 <= i < globs.len() ==> (#[trigger] globs[i]) is Text {
        assert forall|i: int| 0 <= i < globs.len() implies f(#[trigger] globs[i]) is Some by {}
        let x = crate::coverage::read_all(globs, f)->0;
        assert forall|i: int| 0 <= i < globs.len() implies #[trigger] globs[i] == JsonView::Text(x[i]) by {
            assert(f(globs[i]) == Some(x[i]));
        }
    }
}

/// A table holds its list of rules, read one by one; without a list it holds none, and with anything else
/// in it, or with a rule that is refused, it is refused.
pub proof fn law_table_holds_its_rules(members: Seq<(Seq<char>, JsonView)>, rules: Seq<JsonView>)
    ensures
        ({
            let j = JsonView::Object(members);
            let r = config::rules_of(j);
            &&& (exists|i: int| 0 <= i < members.len() && (#[trigger] members[i]).0 != "rule"@) ==> r is None
            &&& members.len() == 0 ==> r is Some && r->0.len() == 0
            &&& (forall|i: int| 0 <= i < members.len() ==> (#[trigger] members[i]).0 == "rule"@) && j.get("rule"@)
                == Some(JsonView::Array(rules)) ==> {
                &&& r is Some <==> forall|i: int| 0 <= i < rules.len() ==> config::rule_of(#[trigger] rules[i]) is Some
                &&& r is Some ==> r->0.len() == rules.len() && forall|i: int|
                    0 <= i < rules.len() ==> config::rule_of(#[trigger] rules[i]) == Some(r->0[i])
            }
        }),
{
    let f = |x: JsonView| config::rule_of(x);
    crate::coverage_laws::law_lists_are_read_one_by_one(rules, f);
    let j = JsonView::Object(members);
    if j.get("rule"@) == Some(JsonView::Array(rules)) {
        if forall|i: int| 0 <= i < rules.len() ==> config::rule_of(#[trigger] rules[i]) is Some {
            assert forall|i: int| 0 <= i < rules.len() implies f(#[trigger] rules[i]) is Some by {}
        }
        if crate::coverage::read_all(rules, f) is Some {
            assert forall|i: int| 0 <= i < rules.len() implies config::rule_of(#[trigger] rules[i]) == Some(
                crate::coverage::read_all(rules, f)->0[i],
            ) by {
                assert(f(rules[i]) == Some(crate::coverage::read_all(rules, f)->0[i]));
            }
        }
    }
}

/// The table of the workspace counts before that of the package at its root, and that of no other package
/// counts. Without a table there are no rules; one that is refused is an error.
pub proof fn law_table_of_the_workspace_comes_first(metadata: JsonView, root: Seq<char>, i: int, table: JsonView)
    ensures
        metadata.get("metadata"@) is Some && metadata.get("metadata"@)->0.get("affected"@) == Some(table)
            ==> config::affected_table(metadata, root) == Some(table),
        ({
            let packages = crate::project::listed(metadata, "packages"@);
            let unset = metadata.get("metadata"@) is None || metadata.get("metadata"@)->0.get("affected"@) is None;
            let at_root = |k: int|
                packages[k].get_text("manifest_path"@) is Some && crate::paths::coded_path(
                    packages[k].get_text("manifest_path"@)->0,
                ) == crate::paths::coded_path(crate::paths::joined_path(root, "Cargo.toml"@));
            &&& unset && 0 <= i < packages.len() && at_root(i) && packages[i].get("metadata"@) is Some
                && packages[i].get("metadata"@)->0.get("affected"@) == Some(table) && (forall|k: int|
                0 <= k < i ==> !#[trigger] at_root(k)) ==> config::affected_table(metadata, root) == Some(table)
            &&& unset && (forall|k: int| 0 <= k < packages.len() ==> !#[trigger] at_root(k))
                ==> config::affected_table(metadata, root) is None && config::project_rules(metadata, root) == Ok::<
                Seq<InputRuleView>,
                ConfigErrorView,
            >(Seq::empty())
        }),
        config::affected_table(metadata, root) == Some(table) ==> match config::rules_of(table) {
            Some(rules) => config::project_rules(metadata, root) == Ok::<Seq<InputRuleView>, ConfigErrorView>(rules),
            None => config::project_rules(metadata, root) == Err::<Seq<InputRuleView>, ConfigErrorView>(
                ConfigErrorView::BadTable,
            ),
        },
{
    let packages = crate::project::listed(metadata, "packages"@);
    let at_root = |k: int|
        packages[k].get_text("manifest_path"@) is Some && crate::paths::coded_path(
            packages[k].get_text("manifest_path"@)->0,
        ) == crate::paths::coded_path(crate::paths::joined_path(root, "Cargo.toml"@));
    assert forall|k: int| 0 <= k < packages.len() implies #[trigger] at_root(k) == config::is_root_package(
        packages[k],
        root,
    ) by {
        if packages[k].get_text("manifest_path"@) is Some {
            crate::path_laws::law_codes_tell_paths_apart(
                packages[k].get_text("manifest_path"@)->0,
                crate::paths::joined_path(root, "Cargo.toml"@),
            );
        }
    }
    if 0 <= i < packages.len() && at_root(i) && packages[i].get("metadata"@) is Some && packages[i].get(
        "metadata"@,
    )->0.get("affected"@) == Some(table) && forall|k: int| 0 <= k < i ==> !#[trigger] at_root(k) {
        assert forall|k: int| 0 <= k < i implies !config::is_root_package(#[trigger] packages[k], root) by {
            assert(!at_root(k));
        }
        lemma_root_table(packages, root, i);
    }
    if forall|k: int| 0 <= k < packages.len() ==> !#[trigger] at_root(k) {
        assert forall|k: int| 0 <= k < packages.len() implies !config::is_root_package(#[trigger] packages[k], root) by {
            assert(!at_root(k));
        }
        lemma_no_root_table(packages, root);
    }
}

proof fn lemma_root_table(packages: Seq<JsonView>, root: Seq<char>, i: int)
    requires
        0 <= i < packages.len(),
        config::is_root_package(packages[i], root),
        config::metadata_table(packages[i]) is Some,
        forall|k: int| 0 <= k < i ==> !config::is_root_package(#[trigger] packages[k], root),
    ensures
        config::root_package_table(packages, root) == config::metadata_table(packages[i]),
    decreases packages.len(),
{
    if i > 0 {
        let rest = packages.drop_first();
        assert(!config::is_root_package(packages[0], root));
        assert(rest[i - 1] == packages[i]);
        assert forall|k: int| 0 <= k < i - 1 implies !config::is_root_package(#[trigger] rest[k], root) by {
            assert(rest[k] == packages[k + 1]);
        }
        lemma_root_table(rest, root, i - 1);
    }
}

proof fn lemma_no_root_table(packages: Seq<JsonView>, root: Seq<char>)
    requires
        forall|k: int| 0 <= k < packages.len() ==> !config::is_root_package(#[trigger] packages[k], root),
    ensures
        config::root_package_table(packages, root) is None,
    decreases packages.len(),
{
    if packages.len() > 0 {
        let rest = packages.drop_first();
        assert(!config::is_root_package(packages[0], root));
        assert forall|k: int| 0 <= k < rest.len() implies !config::is_root_package(#[trigger] rest[k], root) by {
            assert(rest[k] == packages[k + 1]);
        }
        lemma_no_root_table(rest, root);
    }
}

/// Whether a rule matches a path is whether one of its globs does, where the globs and the path mean the
/// same on every platform.
pub proof fn law_answer_is_that_of_the_globs(rule: InputRuleView, path: Seq<char>, answer: bool)
    requires
        config::is_answer(rule.globs, path, answer),
        !path.contains('\\'),
        forall|g: int| 0 <= g < rule.globs.len() ==> !(#[trigger] rule.globs[g]).contains('\\'),
    ensures
        answer <==> concerns(rule, path),
{
    if answer {
        assert(config::may_match(rule.globs, path));
    } else {
        assert(!config::surely_matches(rule.globs, path));
        if concerns(rule, path) {
            let g = choose|g: int| 0 <= g < rule.globs.len() && config::glob_matches(#[trigger] rule.globs[g], path);
            assert(!rule.globs[g].contains('\\'));
        }
    }
}

/// Rules compile where each does; where one cannot, the first such rule is to blame, and the error is one
/// of its own.
pub proof fn law_first_bad_rule_is_to_blame(rules: Seq<InputRuleView>, end: Option<ConfigErrorView>, i: int)
    requires
        config::rules_compile_to(rules, end),
        0 <= i < rules.len(),
    ensures
        end is None ==> config::compiles_to(rules[i].globs, None),
        end is Some ==> exists|k: int|
            0 <= k < rules.len() && config::compiles_to((#[trigger] rules[k]).globs, end) && (i < k
                ==> config::compiles_to(rules[i].globs, None)),
{
    if end is Some {
        let k = choose|k: int| #[trigger] config::rule_fails_at(rules, k, end->0);
        assert(config::compiles_to(rules[k].globs, end));
    }
}

/// A glob that cannot be parsed is always refused, and the first such glob of a rule is the one that is
/// named.
pub proof fn law_bad_globs_are_refused(globs: Seq<Seq<char>>, end: Option<ConfigErrorView>, i: int)
    requires
        config::compiles_to(globs, end),
        0 <= i < globs.len(),
        config::glob_error(globs[i]) is Some,
        forall|j: int| 0 <= j < globs.len() ==> !(#[trigger] globs[j]).contains('\\'),
    ensures
        end is Some,
        end->0 is BadGlob,
        exists|k: int|
            0 <= k <= i && end->0->BadGlob_0 == #[trigger] globs[k] && config::glob_error(globs[k]) is Some && (forall|
                j: int,
            | 0 <= j < k ==> config::glob_error(#[trigger] globs[j]) is None),
{
}

/// A rule may be written as a list of its globs and its filterset, and a table as a list of its rules.
pub proof fn law_rules_may_be_lists(globs: JsonView, filterset: JsonView, rules: JsonView)
    ensures
        config::rule_of(JsonView::Array(seq![globs, filterset])) == config::rule_of(
            JsonView::Object(seq![("globs"@, globs), ("filterset"@, filterset)]),
        ),
        config::rules_of(JsonView::Array(seq![rules])) == config::rules_of(JsonView::Object(seq![("rule"@, rules)])),
{
    reveal_strlit("globs");
    reveal_strlit("filterset");
    assert("globs"@.len() == 5 && "filterset"@.len() == 9);
    let m = seq![("globs"@, globs), ("filterset"@, filterset)];
    let o = JsonView::Object(m);
    assert(m[0].0 != m[1].0);
    crate::coverage_laws::lemma_member(m, 0);
    crate::coverage_laws::lemma_member(m, 1);
    assert(config::only_named(o, "globs"@, "filterset"@));
    assert(o.field("globs"@, 0) == JsonView::Array(seq![globs, filterset]).field("globs"@, 0));
    assert(o.field("filterset"@, 1) == JsonView::Array(seq![globs, filterset]).field("filterset"@, 1));
    let r = seq![("rule"@, rules)];
    crate::coverage_laws::lemma_member(r, 0);
    assert(config::only_named(JsonView::Object(r), "rule"@, "rule"@));
    assert(JsonView::Object(r).field("rule"@, 0) == JsonView::Array(seq![rules]).field("rule"@, 0));
}

/// Whether a rule that matches a path names a test.
pub open spec fn rule_names(
    requests: Seq<(Seq<char>, Set<Seq<char>>)>,
    listings: Seq<ListingView>,
    i: int,
    path: Seq<char>,
    t: TestIdView,
) -> bool {
    &&& 0 <= i < requests.len()
    &&& requests[i].1.contains(path)
    &&& listings[i].tests.contains(t)
    &&& !listings[i].unmatched.contains(t)
}

/// A path names the tests of every rule that matches it, and no others.
pub proof fn law_rules_add_up(
    requests: Seq<(Seq<char>, Set<Seq<char>>)>,
    listings: Seq<ListingView>,
    path: Seq<char>,
    t: TestIdView,
)
    requires
        requests.len() == listings.len(),
        forall|i: int| 0 <= i < listings.len() ==> (#[trigger] listings[i]).tests.finite(),
    ensures
        ({
            let hits = config::all_rule_hits(requests, listings);
            hits.contains_key(path) && hits[path].contains(t) <==> exists|i: int|
                #[trigger] rule_names(requests, listings, i, path, t)
        }),
    decreases requests.len(),
{
    if requests.len() > 0 {
        let r = requests.drop_last();
        let l = listings.drop_last();
        let n = requests.len() - 1;
        assert(requests[n] == requests.last() && listings[n] == listings.last());
        assert forall|i: int| 0 <= i < l.len() implies (#[trigger] l[i]).tests.finite() by {
            assert(l[i] == listings[i]);
        }
        law_rules_add_up(r, l, path, t);
        assert(listings[n].tests.finite());
        config::law_rule_names_its_tests(
            config::all_rule_hits(r, l),
            requests.last().1,
            config::filterset_tests(listings.last()),
            path,
            t,
        );
        if exists|i: int| #[trigger] rule_names(r, l, i, path, t) {
            let i = choose|i: int| #[trigger] rule_names(r, l, i, path, t);
            assert(rule_names(requests, listings, i, path, t));
        }
        if exists|i: int| #[trigger] rule_names(requests, listings, i, path, t) {
            let i = choose|i: int| #[trigger] rule_names(requests, listings, i, path, t);
            if i < n {
                assert(rule_names(r, l, i, path, t));
            }
        }
        if requests.last().1.contains(path) && config::filterset_tests(listings.last()).contains(t) {
            assert(rule_names(requests, listings, n, path, t));
        }
    }
}

} // verus!

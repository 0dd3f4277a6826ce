//! What every selection satisfies.

use vstd::prelude::*;
use crate::coverage::HitRangeView;
use crate::db::{DbView, HitView, RegionView, TestId, TestIdView};
use crate::selection;
use crate::selection::{Change, Selection};

verus! {

/// A test that a change selects has a row at one of the commits that the change was compared
/// with.
proof fn lemma_selected_is_anchored(c: Change, t: TestIdView)
    requires
        crate::reasons::change_selects(c.db.regions, c.fingerprint, c.ranges, t),
    ensures
        c.stored().contains(t),
        c.ranges.dom().subset_of(c.reachable) ==> c.known().contains(t),
{
    let (sha, file) = choose|sha: Seq<char>, file: Seq<char>| #[trigger]
        crate::reasons::selects_at(c.db.regions, c.fingerprint, c.ranges, sha, file, t);
    let hunks = c.ranges[sha][file];
    let i = choose|i: int|
        0 <= i < hunks.len() && crate::db::hunk_selects(
            c.db.regions,
            c.fingerprint,
            sha,
            file,
            #[trigger] hunks[i],
            t,
        );
    let hunk = hunks[i];
    assert(crate::db::hunk_selects(c.db.regions, c.fingerprint, sha, file, hunk, t));
    let row = choose|row: RegionView| #[trigger]
        c.db.regions.contains(row) && crate::db::row_in(row, c.fingerprint, sha, file) && row.test == t && (
        crate::db::row_overlaps(row, hunk) || !crate::db::hunk_overlaps_some(
            c.db.regions,
            c.fingerprint,
            sha,
            file,
            hunk,
        ));
    assert(c.db.regions.contains(row));
    if c.ranges.dom().subset_of(c.reachable) {
        assert(c.ranges.dom().contains(sha));
        assert(c.reachable.contains(row.sha));
    }
}

/// No test is selected for two reasons at once: the four groups of a selection are disjoint when
/// the change was compared with reachable commits only.
pub proof fn law_groups_are_disjoint(c: Change)
    requires
        c.ranges.dom().subset_of(c.reachable),
    ensures
        c.affected().disjoint(c.new_tests()),
        c.affected().disjoint(c.stranded_tests()),
        c.affected().disjoint(c.config_tests()),
        c.new_tests().disjoint(c.stranded_tests()),
        c.new_tests().disjoint(c.config_tests()),
        c.stranded_tests().disjoint(c.config_tests()),
{
    assert forall|t: TestIdView| c.affected().contains(t) implies !c.new_tests().contains(t)
        && !c.stranded_tests().contains(t) by {
        lemma_selected_is_anchored(c, t);
    }
}

/// A test that a run would skip is in no group: a selection of nothing but skipped tests would
/// make the run fail.
pub proof fn law_skipped_tests_are_not_selected(c: Change, t: TestIdView)
    requires
        c.listing.is_skipped(t),
    ensures
        !c.affected().contains(t),
        !c.new_tests().contains(t),
        !c.stranded_tests().contains(t),
        !c.config_tests().contains(t),
{
}

/// No listed test is lost: one that a run does not skip either has usable coverage, so that the
/// changed lines decide about it, or is selected for want of it.
pub proof fn law_every_listed_test_is_decided(c: Change, t: TestIdView)
    requires
        c.listing.tests.contains(t),
        !c.listing.is_skipped(t),
    ensures
        c.known().contains(t) || c.new_tests().contains(t) || c.stranded_tests().contains(t),
        c.known().contains(t) && crate::reasons::change_selects(c.db.regions, c.fingerprint, c.ranges, t)
            ==> c.affected().contains(t),
        c.known().contains(t) && c.is_named(t) ==> c.affected().contains(t) || c.config_tests().contains(t),
{
}

/// Rules only add tests: the other groups do not depend on them, and without rules the group of
/// rule-selected tests is empty.
pub proof fn law_rules_only_add(c: Change, plain: Change)
    requires
        plain == (Change { config_hits: Map::empty(), ..c }),
    ensures
        plain.affected() == c.affected(),
        plain.new_tests() == c.new_tests(),
        plain.stranded_tests() == c.stranded_tests(),
        plain.config_tests() == Set::<TestIdView>::empty(),
{
    assert(plain.affected() =~= c.affected());
    assert(plain.new_tests() =~= c.new_tests());
    assert(plain.stranded_tests() =~= c.stranded_tests());
    assert(plain.config_tests() =~= Set::<TestIdView>::empty());
}

/// The skipped count is the number of tests with usable coverage that are not selected.
pub proof fn law_skipped_counts_the_rest(sel: Selection, c: Change, detail: crate::selection::DiagnosticDetail)
    requires
        sel.is_for(c, detail),
        c.ranges.dom().subset_of(c.reachable),
        c.known().finite(),
    ensures
        sel.skipped_count() == c.known().difference(sel.selected_set()).len(),
        sel.affected@.subset_of(c.known()),
        sel.config_tests@.subset_of(c.known()),
{
    let known = c.known();
    let a = c.affected();
    let g = c.config_tests();
    assert forall|t: TestIdView| a.contains(t) implies known.contains(t) by {
        lemma_selected_is_anchored(c, t);
    }
    vstd::set_lib::lemma_len_subset(a, known);
    vstd::set_lib::lemma_len_subset(g, known);
    let rest = known.difference(sel.selected_set());
    vstd::set_lib::lemma_len_subset(rest, known);
    assert(known =~= a + g + rest);
    vstd::set_lib::lemma_set_disjoint_lens(a, g);
    vstd::set_lib::lemma_set_disjoint_lens(a + g, rest);
}

/// A test with usable coverage is known, one with any coverage is stored.
pub proof fn law_known_tests_are_stored(c: Change)
    ensures
        c.known().subset_of(c.stored()),
{
    assert forall|t: TestIdView| c.known().contains(t) implies c.stored().contains(t) by {
        let row = choose|row: RegionView| #[trigger]
            c.db.regions.contains(row) && row.fingerprint == c.fingerprint && c.reachable.contains(row.sha) && row.test
                == t;
        assert(c.db.regions.contains(row));
    }
}

proof fn lemma_path_reasons(c: Change, path: Seq<char>, tests: Seq<TestIdView>, t: TestIdView)
    ensures
        crate::reasons::names_test(c.path_reasons(path, tests), t) <==> tests.contains(t) && c.is_rescued(t),
    decreases tests.len(),
{
    let r = c.path_reasons(path, tests);
    if tests.len() > 0 {
        let b = tests.drop_last();
        lemma_path_reasons(c, path, b, t);
        let before = c.path_reasons(path, b);
        assert(tests[tests.len() - 1] == tests.last());
        if tests.contains(t) {
            let i = choose|i: int| 0 <= i < tests.len() && tests[i] == t;
            if i < b.len() {
                assert(b[i] == t);
            }
        }
        if b.contains(t) {
            let i = choose|i: int| 0 <= i < b.len() && b[i] == t;
            assert(tests[i] == t);
        }
        if c.is_rescued(tests.last()) {
            let h = HitView { test: tests.last(), reason: crate::selection::config_reason(path) };
            assert(r =~= before + seq![h]);
            crate::reasons::lemma_names_test_add(before, seq![h], t);
            assert(crate::reasons::names_test(seq![h], t) <==> t == tests.last()) by {
                if t == tests.last() {
                    assert(seq![h][0].test == t);
                }
            }
        }
    }
}

proof fn lemma_config_reasons(c: Change, paths: Seq<Seq<char>>, t: TestIdView)
    requires
        forall|p: Seq<char>| #[trigger] c.config_hits.contains_key(p) ==> c.config_hits[p].finite(),
        forall|i: int| 0 <= i < paths.len() ==> c.config_hits.contains_key(#[trigger] paths[i]),
    ensures
        crate::reasons::names_test(c.config_reasons(paths), t) <==> c.is_rescued(t) && exists|i: int|
            0 <= i < paths.len() && c.config_hits[#[trigger] paths[i]].contains(t),
    decreases paths.len(),
{
    if paths.len() > 0 {
        let b = paths.drop_last();
        assert forall|i: int| 0 <= i < b.len() implies c.config_hits.contains_key(#[trigger] b[i]) by {
            assert(paths[i] == b[i]);
        }
        lemma_config_reasons(c, b, t);
        let path = paths.last();
        assert(paths[paths.len() - 1] == path);
        let tests = crate::ordered::in_order::<TestId>(c.config_hits[path]);
        crate::ordered::lemma_in_order_of::<TestId>(c.config_hits[path]);
        lemma_path_reasons(c, path, tests, t);
        crate::reasons::lemma_names_test_add(c.config_reasons(b), c.path_reasons(path, tests), t);
        assert(tests.contains(t) == tests.to_set().contains(t));
        if exists|i: int| 0 <= i < b.len() && c.config_hits[#[trigger] b[i]].contains(t) {
            let i = choose|i: int| 0 <= i < b.len() && c.config_hits[#[trigger] b[i]].contains(t);
            assert(paths[i] == b[i]);
        }
        if exists|i: int| 0 <= i < paths.len() && c.config_hits[#[trigger] paths[i]].contains(t) {
            let i = choose|i: int| 0 <= i < paths.len() && c.config_hits[#[trigger] paths[i]].contains(t);
            if i < b.len() {
                assert(b[i] == paths[i]);
            }
        }
    }
}

/// Exactly the tests that changed lines or rules select have a reason.
pub proof fn law_reasons_explain_the_selection(c: Change, t: TestIdView)
    requires
        c.db.regions.finite(),
        crate::reasons::finite_ranges(c.ranges),
        c.config_hits.dom().finite(),
        forall|p: Seq<char>| #[trigger] c.config_hits.contains_key(p) ==> c.config_hits[p].finite(),
    ensures
        crate::reasons::names_test(c.reasons(), t) <==> c.affected().contains(t) || c.config_tests().contains(t),
{
    let hits = crate::reasons::change_hits(c.db.regions, c.fingerprint, c.ranges);
    let kept = hits.filter(|h: HitView| !c.listing.is_skipped(h.test));
    let paths = crate::ordered::in_order::<String>(c.config_hits.dom());
    crate::ordered::lemma_in_order_of::<String>(c.config_hits.dom());
    assert forall|i: int| 0 <= i < paths.len() implies c.config_hits.contains_key(#[trigger] paths[i]) by {
        assert(paths.to_set().contains(paths[i]));
    }
    crate::selection::lemma_kept_tests(hits, c.listing, t);
    crate::reasons::law_change_hits_name_selected_tests(c.db.regions, c.fingerprint, c.ranges, t);
    lemma_config_reasons(c, paths, t);
    crate::reasons::lemma_names_test_add(kept, c.config_reasons(paths), t);
    if c.config_tests().contains(t) {
        let path = choose|path: Seq<char>| #[trigger]
            c.config_hits.contains_key(path) && c.config_hits[path].contains(t);
        assert(paths.to_set().contains(path));
        let i = choose|i: int| 0 <= i < paths.len() && paths[i] == path;
        assert(c.config_hits[paths[i]].contains(t));
    }
}

/// A change to a line that a test reached selects the test: where a hunk since a commit overlaps a
/// range that is recorded for the test at this commit, the test is affected unless a run skips it.
pub proof fn law_changed_lines_select_their_tests(c: Change, row: RegionView, i: int)
    requires
        c.db.regions.contains(row),
        row.fingerprint == c.fingerprint,
        c.ranges.contains_key(row.sha),
        c.ranges[row.sha].contains_key(row.file),
        0 <= i < c.ranges[row.sha][row.file].len(),
        crate::db::row_overlaps(row, c.ranges[row.sha][row.file][i]) || !crate::db::hunk_overlaps_some(
            c.db.regions,
            c.fingerprint,
            row.sha,
            row.file,
            c.ranges[row.sha][row.file][i],
        ),
    ensures
        c.affected().contains(row.test) <==> !c.listing.is_skipped(row.test),
{
    let hunks = c.ranges[row.sha][row.file];
    assert(crate::db::row_in(row, c.fingerprint, row.sha, row.file));
    assert(crate::db::hunk_selects(c.db.regions, c.fingerprint, row.sha, row.file, hunks[i], row.test));
    assert(crate::db::covering_tests(c.db.regions, c.fingerprint, row.sha, row.file, hunks).contains(row.test));
    assert(crate::reasons::selects_at(c.db.regions, c.fingerprint, c.ranges, row.sha, row.file, row.test));
}

/// Only changed files select tests: a test none of whose rows lies in a file that has changed since
/// the commit of the row is not affected.
pub proof fn law_unchanged_files_select_nothing(c: Change, t: TestIdView)
    requires
        forall|row: RegionView| #[trigger]
            c.db.regions.contains(row) && row.fingerprint == c.fingerprint && row.test == t ==> !(c.ranges.contains_key(
                row.sha,
            ) && c.ranges[row.sha].contains_key(row.file)),
    ensures
        !c.affected().contains(t),
{
    if crate::reasons::change_selects(c.db.regions, c.fingerprint, c.ranges, t) {
        let (sha, file) = choose|sha: Seq<char>, file: Seq<char>| #[trigger]
            crate::reasons::selects_at(c.db.regions, c.fingerprint, c.ranges, sha, file, t);
        let hunks = c.ranges[sha][file];
        let i = choose|i: int|
            0 <= i < hunks.len() && crate::db::hunk_selects(
                c.db.regions,
                c.fingerprint,
                sha,
                file,
                #[trigger] hunks[i],
                t,
            );
        let hunk = hunks[i];
        assert(crate::db::hunk_selects(c.db.regions, c.fingerprint, sha, file, hunk, t));
        let row = choose|row: RegionView| #[trigger]
            c.db.regions.contains(row) && crate::db::row_in(row, c.fingerprint, sha, file) && row.test == t && (
            crate::db::row_overlaps(row, hunk) || !crate::db::hunk_overlaps_some(
                c.db.regions,
                c.fingerprint,
                sha,
                file,
                hunk,
            ));
        assert(c.db.regions.contains(row));
    }
}

/// What a run selects after a full collection: a change to a line that a test reached in it
/// selects the test.
pub proof fn law_collected_lines_select_their_tests(
    c: Change,
    before: DbView,
    components: Seq<(Seq<char>, Seq<char>)>,
    sha: Seq<char>,
    mappings: Seq<(TestIdView, Set<HitRangeView>)>,
    now: Seq<char>,
    m: int,
    range: HitRangeView,
    i: int,
)
    requires
        c.db == crate::collect::recorded(before, None, c.fingerprint, components, sha, mappings, now),
        0 <= m < mappings.len(),
        mappings[m].1.contains(range),
        !c.listing.is_skipped(mappings[m].0),
        c.ranges.contains_key(sha),
        c.ranges[sha].contains_key(range.file),
        0 <= i < c.ranges[sha][range.file].len(),
        range.line_start <= c.ranges[sha][range.file][i].end,
        c.ranges[sha][range.file][i].start <= range.line_end,
    ensures
        c.affected().contains(mappings[m].0),
{
    let row = crate::db_laws::stored_row(c.fingerprint, sha, mappings[m].0, range);
    crate::collect::law_full_collection_is_what_is_stored(before, c.fingerprint, components, sha, mappings, now);
    assert(crate::db::mapping_holds(mappings, row, m));
    assert(crate::db::mapping_rows(c.fingerprint, sha, mappings).contains(row));
    assert(c.db.regions.filter(|r: RegionView| r.fingerprint == c.fingerprint).contains(row));
    law_changed_lines_select_their_tests(c, row, i);
}

/// After a full collection and without any change, a run selects nothing: every listed test has
/// coverage, no line has changed and no rule names a test.
pub proof fn law_unchanged_code_selects_nothing(
    c: Change,
    before: DbView,
    components: Seq<(Seq<char>, Seq<char>)>,
    sha: Seq<char>,
    mappings: Seq<(TestIdView, Set<HitRangeView>)>,
    now: Seq<char>,
)
    requires
        c.db == crate::collect::recorded(before, None, c.fingerprint, components, sha, mappings, now),
        c.reachable.contains(sha),
        c.config_hits.dom() == Set::<Seq<char>>::empty(),
        forall|s: Seq<char>| #[trigger] c.ranges.contains_key(s) ==> c.ranges[s].dom() == Set::<Seq<char>>::empty(),
        forall|t: TestIdView| #[trigger]
            c.listing.tests.contains(t) && !c.listing.is_skipped(t) ==> exists|m: int, range: HitRangeView|
                0 <= m < mappings.len() && mappings[m].0 == t && #[trigger] mappings[m].1.contains(range),
    ensures
        c.affected() == Set::<TestIdView>::empty(),
        c.new_tests() == Set::<TestIdView>::empty(),
        c.stranded_tests() == Set::<TestIdView>::empty(),
        c.config_tests() == Set::<TestIdView>::empty(),
{
    crate::collect::law_full_collection_is_what_is_stored(before, c.fingerprint, components, sha, mappings, now);
    assert forall|t: TestIdView| !c.affected().contains(t) by {
        assert forall|row: RegionView| #[trigger]
            c.db.regions.contains(row) && row.fingerprint == c.fingerprint && row.test == t implies !(
        c.ranges.contains_key(row.sha) && c.ranges[row.sha].contains_key(row.file)) by {
            if c.ranges.contains_key(row.sha) {
                assert(!c.ranges[row.sha].dom().contains(row.file));
            }
        }
        law_unchanged_files_select_nothing(c, t);
    }
    assert forall|t: TestIdView| c.listing.tests.contains(t) && !c.listing.is_skipped(t) implies c.known().contains(
        t,
    ) by {
        let (m, range) = choose|m: int, range: HitRangeView|
            0 <= m < mappings.len() && mappings[m].0 == t && #[trigger] mappings[m].1.contains(range);
        let row = crate::db_laws::stored_row(c.fingerprint, sha, t, range);
        assert(crate::db::mapping_holds(mappings, row, m));
        assert(crate::db::mapping_rows(c.fingerprint, sha, mappings).contains(row));
        assert(c.db.regions.filter(|r: RegionView| r.fingerprint == c.fingerprint).contains(row));
        assert(c.db.regions.contains(row));
    }
    assert forall|t: TestIdView| !c.is_named(t) by {
        if c.is_named(t) {
            let path = choose|path: Seq<char>| #[trigger]
                c.config_hits.contains_key(path) && c.config_hits[path].contains(t);
            assert(c.config_hits.dom().contains(path));
        }
    }
    assert(c.affected() =~= Set::empty());
    assert(c.new_tests() =~= Set::empty());
    assert(c.stranded_tests() =~= Set::empty());
    assert(c.config_tests() =~= Set::empty());
}

/// The rows and the hunks of a change hold at least one line each.
pub open spec fn is_proper(c: Change) -> bool {
    &&& forall|row: RegionView| #[trigger] c.db.regions.contains(row) ==> row.start <= row.end
    &&& forall|sha: Seq<char>, file: Seq<char>, k: int|
        c.ranges.contains_key(sha) && c.ranges[sha].contains_key(file) && 0 <= k < c.ranges[sha][file].len()
            ==> (#[trigger] c.ranges[sha][file][k]).start <= c.ranges[sha][file][k].end
}

/// A hunk since the commit of a row, in the file of the row, reaches it: they have a line in common, or
/// the hunk has no line in common with any row of the file at this commit.
pub open spec fn hunk_reaches(c: Change, row: RegionView, k: int) -> bool {
    &&& c.db.regions.contains(row)
    &&& row.fingerprint == c.fingerprint
    &&& c.ranges.contains_key(row.sha)
    &&& c.ranges[row.sha].contains_key(row.file)
    &&& 0 <= k < c.ranges[row.sha][row.file].len()
    &&& !crate::db_laws::apart(row, c.ranges[row.sha][row.file][k]) || forall|w: RegionView|
        #[trigger] c.db.regions.contains(w) && w.fingerprint == c.fingerprint && w.sha == row.sha && w.file == row.file
            ==> crate::db_laws::apart(w, c.ranges[row.sha][row.file][k])
}

/// A test is affected exactly where a hunk reaches one of its rows, and neither is it ignored nor do the
/// filters reject it.
pub proof fn law_changed_lines_decide(c: Change, t: TestIdView)
    requires
        is_proper(c),
    ensures
        c.affected().contains(t) <==> !c.listing.ignored.contains(t) && !c.listing.unmatched.contains(t) && exists|
            row: RegionView,
            k: int,
        | row.test == t && #[trigger] hunk_reaches(c, row, k),
{
    let regions = c.db.regions;
    let fp = c.fingerprint;
    if exists|row: RegionView, k: int| row.test == t && #[trigger] hunk_reaches(c, row, k) {
        let (row, k) = choose|row: RegionView, k: int| row.test == t && #[trigger] hunk_reaches(c, row, k);
        let hunks = c.ranges[row.sha][row.file];
        let hunk = hunks[k];
        lemma_reach(c, row, k);
        assert(crate::db::hunk_selects(regions, fp, row.sha, row.file, hunks[k], t));
        assert(crate::db::covering_tests(regions, fp, row.sha, row.file, hunks).contains(t));
        assert(crate::reasons::selects_at(regions, fp, c.ranges, row.sha, row.file, t));
    }
    if crate::reasons::change_selects(regions, fp, c.ranges, t) {
        let (sha, file) = choose|sha: Seq<char>, file: Seq<char>|
            #[trigger] crate::reasons::selects_at(regions, fp, c.ranges, sha, file, t);
        let hunks = c.ranges[sha][file];
        let k = choose|k: int|
            0 <= k < hunks.len() && crate::db::hunk_selects(regions, fp, sha, file, #[trigger] hunks[k], t);
        let row = choose|row: RegionView|
            #[trigger] regions.contains(row) && crate::db::row_in(row, fp, sha, file) && row.test == t && (
            crate::db::row_overlaps(row, hunks[k]) || !crate::db::hunk_overlaps_some(regions, fp, sha, file, hunks[k]));
        lemma_reach(c, row, k);
        assert(hunk_reaches(c, row, k));
    }
}

proof fn lemma_reach(c: Change, row: RegionView, k: int)
    requires
        is_proper(c),
        c.db.regions.contains(row),
        row.fingerprint == c.fingerprint,
        c.ranges.contains_key(row.sha),
        c.ranges[row.sha].contains_key(row.file),
        0 <= k < c.ranges[row.sha][row.file].len(),
    ensures
        hunk_reaches(c, row, k) <==> crate::db::row_overlaps(row, c.ranges[row.sha][row.file][k])
            || !crate::db::hunk_overlaps_some(
            c.db.regions,
            c.fingerprint,
            row.sha,
            row.file,
            c.ranges[row.sha][row.file][k],
        ),
{
    let hunk = c.ranges[row.sha][row.file][k];
    crate::db_laws::law_overlap_is_a_shared_line(row, hunk);
    if crate::db::hunk_overlaps_some(c.db.regions, c.fingerprint, row.sha, row.file, hunk) {
        let w = choose|w: RegionView|
            #[trigger] c.db.regions.contains(w) && crate::db::row_in(w, c.fingerprint, row.sha, row.file)
                && crate::db::row_overlaps(w, hunk);
        crate::db_laws::law_overlap_is_a_shared_line(w, hunk);
    } else {
        assert forall|w: RegionView|
            #[trigger] c.db.regions.contains(w) && w.fingerprint == c.fingerprint && w.sha == row.sha && w.file
                == row.file implies crate::db_laws::apart(w, hunk) by {
            crate::db_laws::law_overlap_is_a_shared_line(w, hunk);
            assert(crate::db::row_in(w, c.fingerprint, row.sha, row.file));
        }
    }
}

/// A listed test that a run does not leave out is new exactly where no row under the fingerprint is its
/// own, and stranded exactly where it has rows but none at a reachable commit.
pub proof fn law_new_and_stranded_tests(c: Change, t: TestIdView)
    ensures
        c.new_tests().contains(t) <==> {
            &&& c.listing.tests.contains(t)
            &&& !c.listing.ignored.contains(t)
            &&& !c.listing.unmatched.contains(t)
            &&& forall|row: RegionView|
                #[trigger] c.db.regions.contains(row) && row.fingerprint == c.fingerprint ==> row.test != t
        },
        c.stranded_tests().contains(t) <==> {
            &&& c.listing.tests.contains(t)
            &&& !c.listing.ignored.contains(t)
            &&& !c.listing.unmatched.contains(t)
            &&& exists|row: RegionView|
                #[trigger] c.db.regions.contains(row) && row.fingerprint == c.fingerprint && row.test == t
            &&& forall|row: RegionView|
                #[trigger] c.db.regions.contains(row) && row.fingerprint == c.fingerprint && row.test == t
                    ==> !c.reachable.contains(row.sha)
        },
{
    law_known_tests_are_stored(c);
    if c.known().contains(t) {
        let row = choose|row: RegionView|
            #[trigger] c.db.regions.contains(row) && row.fingerprint == c.fingerprint && c.reachable.contains(row.sha)
                && row.test == t;
        assert(c.db.regions.contains(row));
    }
    if c.stored().contains(t) {
        let row = choose|row: RegionView|
            #[trigger] c.db.regions.contains(row) && row.fingerprint == c.fingerprint && row.test == t;
        assert(c.db.regions.contains(row));
    }
}

/// A rule selects exactly the tests that it names, that have a row at a reachable commit, that no changed
/// line selects and that a run does not leave out.
pub proof fn law_rules_select_what_they_name(c: Change, t: TestIdView)
    ensures
        c.config_tests().contains(t) <==> {
            &&& !c.listing.ignored.contains(t)
            &&& !c.listing.unmatched.contains(t)
            &&& !c.affected().contains(t)
            &&& exists|path: Seq<char>| #[trigger] c.config_hits.contains_key(path) && c.config_hits[path].contains(t)
            &&& exists|row: RegionView|
                #[trigger] c.db.regions.contains(row) && row.fingerprint == c.fingerprint && row.test == t
                    && c.reachable.contains(row.sha)
        },
{
}

/// What is run is every test that a changed line, a rule, the want of coverage or a lost commit selects,
/// and no other.
pub proof fn law_selection_is_the_four_groups(sel: Selection, c: Change, detail: crate::selection::DiagnosticDetail, t: TestIdView)
    requires
        sel.is_for(c, detail),
    ensures
        sel.selected_set().contains(t) <==> c.affected().contains(t) || c.new_tests().contains(t)
            || c.stranded_tests().contains(t) || c.config_tests().contains(t),
{
}

/// Of the reasons for a test in a file the one that counts is a shared line before a hunk between rows,
/// that before a rule, and that before a crate root.
pub proof fn law_reasons_are_ranked(a: crate::db::HitKind)
    ensures
        crate::reasons::stronger(crate::db::HitKind::LineOverlap, a) == crate::db::HitKind::LineOverlap,
        crate::reasons::stronger(a, crate::db::HitKind::LineOverlap) == crate::db::HitKind::LineOverlap,
        crate::reasons::stronger(a, crate::db::HitKind::CrateRootSentinel) == a,
        crate::reasons::stronger(crate::db::HitKind::CrateRootSentinel, a) == a,
        crate::reasons::stronger(crate::db::HitKind::StructuralBackstop, crate::db::HitKind::ConfigRule)
            == crate::db::HitKind::StructuralBackstop,
        crate::reasons::stronger(crate::db::HitKind::ConfigRule, crate::db::HitKind::StructuralBackstop)
            == crate::db::HitKind::StructuralBackstop,
{
}

/// The kind that is counted for a test in a file is that of one of its reasons there, and no reason there
/// is of a stronger kind; without a reason nothing is counted.
pub proof fn law_strongest_reason_counts(reasons: Seq<HitView>, file: Seq<char>, t: TestIdView)
    ensures
        ({
            let kinds = crate::reasons::strongest_kinds(reasons);
            &&& (kinds.contains_key(file) && kinds[file].contains_key(t)) <==> exists|i: int|
                0 <= i < reasons.len() && (#[trigger] reasons[i]).test == t && reasons[i].reason.file == file
            &&& kinds.contains_key(file) <==> exists|i: int|
                0 <= i < reasons.len() && (#[trigger] reasons[i]).reason.file == file
            &&& kinds.contains_key(file) && kinds[file].contains_key(t) ==> {
                &&& exists|i: int|
                    0 <= i < reasons.len() && (#[trigger] reasons[i]).test == t && reasons[i].reason.file == file
                        && reasons[i].reason.kind == kinds[file][t]
                &&& forall|i: int|
                    0 <= i < reasons.len() && (#[trigger] reasons[i]).test == t && reasons[i].reason.file == file
                        ==> crate::reasons::stronger(reasons[i].reason.kind, kinds[file][t]) == kinds[file][t]
            }
        }),
    decreases reasons.len(),
{
    if reasons.len() > 0 {
        let b = reasons.drop_last();
        law_strongest_reason_counts(b, file, t);
        let h = reasons.last();
        let n = reasons.len() - 1;
        assert(reasons[n] == h);
        assert forall|i: int| 0 <= i < b.len() implies #[trigger] b[i] == reasons[i] by {}
        let k0 = crate::reasons::strongest_kinds(b);
        let kinds = crate::reasons::strongest_kinds(reasons);
        if k0.contains_key(file) {
            let i = choose|i: int| 0 <= i < b.len() && (#[trigger] b[i]).reason.file == file;
            assert(reasons[i].reason.file == file);
        }
        if exists|i: int| 0 <= i < reasons.len() && (#[trigger] reasons[i]).reason.file == file {
            let i = choose|i: int| 0 <= i < reasons.len() && (#[trigger] reasons[i]).reason.file == file;
            if i < n {
                assert(b[i].reason.file == file);
            }
        }
        if k0.contains_key(file) && k0[file].contains_key(t) {
            let i = choose|i: int|
                0 <= i < b.len() && (#[trigger] b[i]).test == t && b[i].reason.file == file && b[i].reason.kind
                    == k0[file][t];
            assert(reasons[i].test == t && reasons[i].reason.file == file);
        }
        if exists|i: int|
            0 <= i < reasons.len() && (#[trigger] reasons[i]).test == t && reasons[i].reason.file == file {
            let i = choose|i: int|
                0 <= i < reasons.len() && (#[trigger] reasons[i]).test == t && reasons[i].reason.file == file;
            if i < n {
                assert(b[i].test == t && b[i].reason.file == file);
            }
        }
        if kinds.contains_key(file) && kinds[file].contains_key(t) {
            if h.test == t && h.reason.file == file {
                assert(reasons[n].test == t);
            }
            assert forall|i: int|
                0 <= i < reasons.len() && (#[trigger] reasons[i]).test == t && reasons[i].reason.file == file implies crate::reasons::stronger(
                reasons[i].reason.kind,
                kinds[file][t],
            ) == kinds[file][t] by {
                if i < n {
                    assert(b[i].test == t && b[i].reason.file == file);
                    assert(crate::reasons::stronger(b[i].reason.kind, k0[file][t]) == k0[file][t]);
                }
            }
        }
    }
}

/// The commits are split in two: a commit is reachable exactly where it is `HEAD` or in the repository,
/// and missing exactly where it is not.
pub proof fn law_commits_are_split(per_sha: Map<Seq<char>, crate::git::ShaRelation>, sha: Seq<char>)
    ensures
        crate::selection::reachable_shas(per_sha).contains(sha) <==> per_sha.contains_key(sha) && (per_sha[sha]
            is Equal || per_sha[sha] is Reachable),
        crate::selection::missing_shas(per_sha).contains(sha) <==> per_sha.contains_key(sha) && per_sha[sha] is Missing,
{
}

/// What git reports for each commit is kept under the commit, and one report that cannot be read spoils
/// all.
pub proof fn law_reports_are_kept_by_commit(outputs: Seq<(Seq<char>, crate::process::ProcessOutputView)>)
    requires
        forall|i: int, j: int| 0 <= i < j < outputs.len() ==> (#[trigger] outputs[i]).0 != (#[trigger] outputs[j]).0,
    ensures
        ({
            let r = crate::selection::ranges_per_sha(outputs);
            &&& r is Ok <==> forall|i: int|
                0 <= i < outputs.len() ==> crate::git::changed_ranges((#[trigger] outputs[i]).0, outputs[i].1) is Ok
            &&& r is Ok ==> {
                &&& forall|sha: Seq<char>|
                    #[trigger] r->Ok_0.contains_key(sha) <==> exists|i: int|
                        0 <= i < outputs.len() && (#[trigger] outputs[i]).0 == sha
                &&& forall|i: int|
                    0 <= i < outputs.len() ==> r->Ok_0[(#[trigger] outputs[i]).0] == crate::git::changed_ranges(
                        outputs[i].0,
                        outputs[i].1,
                    )->Ok_0
            }
        }),
    decreases outputs.len(),
{
    if outputs.len() > 0 {
        let b = outputs.drop_last();
        let n = outputs.len() - 1;
        assert(outputs[n] == outputs.last());
        assert forall|i: int| 0 <= i < b.len() implies #[trigger] b[i] == outputs[i] by {}
        law_reports_are_kept_by_commit(b);
        let r0 = crate::selection::ranges_per_sha(b);
        let r = crate::selection::ranges_per_sha(outputs);
        if r is Ok {
            assert forall|i: int| 0 <= i < outputs.len() implies crate::git::changed_ranges(
                (#[trigger] outputs[i]).0,
                outputs[i].1,
            ) is Ok && r->Ok_0[outputs[i].0] == crate::git::changed_ranges(outputs[i].0, outputs[i].1)->Ok_0 by {
                if i < n {
                    assert(b[i] == outputs[i]);
                    assert(outputs[i].0 != outputs[n].0);
                }
            }
            assert forall|sha: Seq<char>| #[trigger] r->Ok_0.contains_key(sha) <==> exists|i: int|
                0 <= i < outputs.len() && (#[trigger] outputs[i]).0 == sha by {
                if r0->Ok_0.contains_key(sha) {
                    let i = choose|i: int| 0 <= i < b.len() && (#[trigger] b[i]).0 == sha;
                    assert(outputs[i].0 == sha);
                }
                if exists|i: int| 0 <= i < outputs.len() && (#[trigger] outputs[i]).0 == sha {
                    let i = choose|i: int| 0 <= i < outputs.len() && (#[trigger] outputs[i]).0 == sha;
                    if i < n {
                        assert(b[i].0 == sha);
                    }
                }
            }
        }
        if forall|i: int|
            0 <= i < outputs.len() ==> crate::git::changed_ranges((#[trigger] outputs[i]).0, outputs[i].1) is Ok {
            assert forall|i: int| 0 <= i < b.len() implies crate::git::changed_ranges((#[trigger] b[i]).0, b[i].1) is Ok by {
                assert(b[i] == outputs[i]);
            }
            assert(crate::git::changed_ranges(outputs[n].0, outputs[n].1) is Ok);
        }
    }
}

/// Each test of the summary is named with its binary, on a line of its own, and tagged by the group that
/// it is in.
pub proof fn law_summary_names_each_test(sel: Selection, tests: Seq<TestIdView>, more: Seq<TestIdView>, t: TestIdView)
    ensures
        crate::selection::summary_lines(sel, tests + more) == crate::selection::summary_lines(sel, tests)
            + crate::selection::summary_lines(sel, more),
        crate::selection::summary_lines(sel, seq![t]) == "\n  "@ + t.0 + "::"@ + t.1 + crate::selection::tag_of(sel, t),
        sel.new_tests@.contains(t) ==> crate::selection::tag_of(sel, t) == " (new)"@,
        !sel.new_tests@.contains(t) && sel.stranded_tests@.contains(t) ==> crate::selection::tag_of(sel, t)
            == " (stranded)"@,
        !sel.new_tests@.contains(t) && !sel.stranded_tests@.contains(t) && sel.config_tests@.contains(t)
            ==> crate::selection::tag_of(sel, t) == " (config)"@,
        !sel.new_tests@.contains(t) && !sel.stranded_tests@.contains(t) && !sel.config_tests@.contains(t)
            ==> crate::selection::tag_of(sel, t) == ""@,
    decreases more.len(),
{
    reveal_with_fuel(crate::selection::summary_lines, 2);
    reveal_strlit("");
    let one = seq![t];
    assert(one.drop_last() =~= Seq::<TestIdView>::empty());
    assert(crate::selection::summary_lines(sel, one) =~= "\n  "@ + t.0 + "::"@ + t.1 + crate::selection::tag_of(sel, t));
    if more.len() == 0 {
        assert(tests + more =~= tests);
        assert(crate::selection::summary_lines(sel, tests) + crate::selection::summary_lines(sel, more)
            =~= crate::selection::summary_lines(sel, tests));
    } else {
        let all = tests + more;
        assert(all.drop_last() =~= tests + more.drop_last());
        assert(all.last() == more.last());
        law_summary_names_each_test(sel, tests, more.drop_last(), t);
        assert(crate::selection::summary_lines(sel, all) =~= crate::selection::summary_lines(sel, tests)
            + crate::selection::summary_lines(sel, more));
    }
}

/// A file has changed where it differs in the working tree, has hunks since a commit, or was added since
/// one; and nowhere else.
pub proof fn law_each_kind_of_change_counts(
    ranges: crate::selection::RangesView,
    added: Map<Seq<char>, Set<Seq<char>>>,
    tree: Set<Seq<char>>,
    path: Seq<char>,
    sha: Seq<char>,
)
    ensures
        tree.contains(path) ==> selection::has_changed(ranges, added, tree, path),
        ranges.contains_key(sha) && ranges[sha].contains_key(path) ==> selection::has_changed(ranges, added, tree, path),
        added.contains_key(sha) && added[sha].contains(path) ==> selection::has_changed(ranges, added, tree, path),
        !tree.contains(path) && (forall|s: Seq<char>| #[trigger] ranges.contains_key(s) ==> !ranges[s].contains_key(path))
            && (forall|s: Seq<char>| #[trigger] added.contains_key(s) ==> !added[s].contains(path))
            ==> !selection::has_changed(ranges, added, tree, path),
{
}

/// The added files of each commit are those that git printed for it. One failure is enough for none to
/// be known.
pub proof fn law_added_files_are_those_printed(
    outputs: Seq<(Seq<char>, crate::process::ProcessOutputView)>,
    i: int,
    path: Seq<char>,
)
    requires
        0 <= i < outputs.len(),
        forall|j: int, k: int| 0 <= j < k < outputs.len() ==> (#[trigger] outputs[j]).0 != (#[trigger] outputs[k]).0,
    ensures
        outputs[i].1.code != Some(0i32) ==> selection::added_per_sha(outputs) is Err,
        (forall|j: int| 0 <= j < outputs.len() ==> (#[trigger] outputs[j]).1.code == Some(0i32))
            ==> selection::added_per_sha(outputs) is Ok,
        selection::added_per_sha(outputs) is Ok ==> {
            let m = selection::added_per_sha(outputs)->Ok_0;
            &&& m.contains_key(outputs[i].0)
            &&& m[outputs[i].0].contains(path) <==> crate::git::entries_of(outputs[i].1.stdout).contains(path)
        },
    decreases outputs.len(),
{
    let b = outputs.drop_last();
    let n = outputs.len() - 1;
    assert(outputs[n] == outputs.last());
    assert forall|j: int| 0 <= j < b.len() implies #[trigger] b[j] == outputs[j] by {}
    if i < n {
        law_added_files_are_those_printed(b, i, path);
    }
    if forall|j: int| 0 <= j < outputs.len() ==> (#[trigger] outputs[j]).1.code == Some(0i32) {
        if b.len() > 0 {
            law_added_files_are_those_printed(b, 0, path);
        }
    }
}

/// How far `HEAD` has moved is the distance to the commit that it is furthest ahead of; commits that are
/// `HEAD` or are missing do not count.
pub proof fn law_distance_is_that_of_the_furthest_commit(
    per_sha: Map<Seq<char>, crate::git::ShaRelation>,
    most: u32,
    sha: Seq<char>,
)
    requires
        selection::is_most_ahead(per_sha, most),
    ensures
        per_sha.contains_key(sha) && per_sha[sha] is Reachable ==> per_sha[sha]->commits_ahead <= most,
        most > 0 ==> exists|s: Seq<char>|
            #[trigger] per_sha.contains_key(s) && per_sha[s] is Reachable && per_sha[s]->commits_ahead == most,
        (forall|s: Seq<char>| #[trigger] per_sha.contains_key(s) ==> !(per_sha[s] is Reachable)) ==> most == 0,
{
    if most > 0 {
        let s = choose|s: Seq<char>| #[trigger] per_sha.contains_key(s) && selection::ahead_of(per_sha[s]) == most;
        assert(per_sha.contains_key(s) && per_sha[s] is Reachable);
    }
}

/// The summary gives the number of selected tests and of each group; asked for more, it lists every
/// selected test as well.
pub proof fn law_summary_counts_and_lists(sel: Selection, verb: Seq<char>, t: TestIdView)
    requires
        sel.selected_set().finite(),
    ensures
        ({
            let long = selection::summary_of(sel, verb, true);
            let short = selection::summary_of(sel, verb, false);
            let counts = crate::text::decimal(sel.selected_set().len()) + " tests "@ + verb + " ("@
                + crate::text::decimal(sel.affected@.len()) + " affected + "@ + crate::text::decimal(
                sel.config_tests@.len(),
            ) + " config + "@ + crate::text::decimal(sel.new_tests@.len()) + " new + "@ + crate::text::decimal(
                sel.stranded_tests@.len(),
            ) + " stranded, "@;
            &&& counts.is_prefix_of(long)
            &&& counts.is_prefix_of(short)
            &&& sel.selected_set().contains(t) ==> crate::narration_laws::holds(long, "\n  "@ + t.0 + "::"@ + t.1)
        }),
{
    let counts = crate::text::decimal(sel.selected_set().len()) + " tests "@ + verb + " ("@ + crate::text::decimal(
        sel.affected@.len(),
    ) + " affected + "@ + crate::text::decimal(sel.config_tests@.len()) + " config + "@ + crate::text::decimal(
        sel.new_tests@.len(),
    ) + " new + "@ + crate::text::decimal(sel.stranded_tests@.len()) + " stranded, "@;
    let rest = crate::text::decimal(sel.skipped_count() as nat) + " skipped of "@ + crate::text::decimal(
        sel.reachable_known_count as nat,
    ) + " reachable-known)"@;
    let head = selection::summary_head(sel, verb);
    assert(head =~= counts + rest);
    let o = crate::ordered::in_order::<TestId>(sel.selected_set());
    let lines = selection::summary_lines(sel, o);
    let long = selection::summary_of(sel, verb, true);
    let short = selection::summary_of(sel, verb, false);
    lemma_starts(counts, rest, ":"@ + lines, long);
    lemma_starts(counts, rest, " — pass -v to list"@, short);
    if sel.selected_set().contains(t) {
        crate::ordered::lemma_in_order_of::<TestId>(sel.selected_set());
        assert(o.to_set().contains(t));
        let i = choose|i: int| 0 <= i < o.len() && o[i] == t;
        lemma_line_of_test(sel, o, i);
        let e = Seq::<char>::empty();
        crate::narration_laws::lemma_holds_within(head + ":"@, lines, e, "\n  "@ + t.0 + "::"@ + t.1);
        assert(head + ":"@ + lines + e =~= long);
    }
}

proof fn lemma_starts(a: Seq<char>, b: Seq<char>, c: Seq<char>, s: Seq<char>)
    requires
        s =~= a + b + c,
    ensures
        a.is_prefix_of(s),
{
    assert(a =~= s.subrange(0, a.len() as int));
}

proof fn lemma_line_of_test(sel: Selection, tests: Seq<TestIdView>, i: int)
    requires
        0 <= i < tests.len(),
    ensures
        crate::narration_laws::holds(
            selection::summary_lines(sel, tests),
            "\n  "@ + tests[i].0 + "::"@ + tests[i].1,
        ),
{
    let a = tests.take(i);
    let one = seq![tests[i]];
    let b = tests.skip(i + 1);
    let t = tests[i];
    let line = "\n  "@ + t.0 + "::"@ + t.1;
    assert(tests =~= a + (one + b));
    law_summary_names_each_test(sel, a, one + b, t);
    law_summary_names_each_test(sel, one, b, t);
    let x = selection::summary_lines(sel, a);
    let y = selection::summary_lines(sel, b);
    let tag = selection::tag_of(sel, t);
    crate::narration_laws::lemma_holds(x, line, tag + y);
    assert(x + line + (tag + y) =~= x + ((line + tag) + y));
}

/// The split of the commits keeps each relation, and puts each commit on one side: in the repository or
/// missing from it.
pub proof fn law_split_keeps_the_relations(
    reach: crate::selection::Reachability,
    per_sha: Map<Seq<char>, crate::git::ShaRelation>,
    sha: Seq<char>,
)
    requires
        reach.is_of(per_sha),
    ensures
        reach.per_sha@.contains_key(sha) <==> per_sha.contains_key(sha),
        per_sha.contains_key(sha) ==> reach.per_sha@[sha] == per_sha[sha],
        reach.missing@.contains(sha) <==> per_sha.contains_key(sha) && per_sha[sha] is Missing,
        reach.reachable@.contains(sha) <==> per_sha.contains_key(sha) && !(per_sha[sha] is Missing),
        per_sha.contains_key(sha) && per_sha[sha] is Reachable ==> per_sha[sha]->commits_ahead
            <= reach.max_commits_ahead,
{
    law_distance_is_that_of_the_furthest_commit(per_sha, reach.max_commits_ahead, sha);
}

} // verus!

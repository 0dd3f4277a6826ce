//! Laws of the coverage tables: what a query reads back of a write, and what a write leaves alone.

use vstd::prelude::*;
use crate::coverage::HitRangeView;
use crate::db;
use crate::db::{DbView, RegionView, TestIdView};
use crate::diff::LineRange;

verus! {

/// The row that a mapping entry is stored as.
pub open spec fn stored_row(
    fingerprint: Seq<char>,
    sha: Seq<char>,
    test: TestIdView,
    range: HitRangeView,
) -> RegionView {
    RegionView { test, file: range.file, start: range.line_start, end: range.line_end, fingerprint, sha }
}

/// A hunk that overlaps a stored range selects the test that the range was stored for.
pub proof fn law_store_is_read_back(
    db: DbView,
    fingerprint: Seq<char>,
    components: Seq<(Seq<char>, Seq<char>)>,
    sha: Seq<char>,
    m: Seq<(TestIdView, Set<HitRangeView>)>,
    now: Seq<char>,
    i: int,
    range: HitRangeView,
    hunks: Seq<LineRange>,
    k: int,
)
    requires
        0 <= i < m.len(),
        m[i].1.contains(range),
        0 <= k < hunks.len(),
        range.line_start <= hunks[k].end,
        range.line_end >= hunks[k].start,
    ensures
        db::covering_tests(
            db::after_store(db, fingerprint, components, sha, m, now).regions,
            fingerprint,
            sha,
            range.file,
            hunks,
        ).contains(m[i].0),
        db::covering_tests(
            db::after_update(db, fingerprint, components, sha, m, now).regions,
            fingerprint,
            sha,
            range.file,
            hunks,
        ).contains(m[i].0),
{
    let row = stored_row(fingerprint, sha, m[i].0, range);
    assert(HitRangeView { file: row.file, line_start: row.start, line_end: row.end } =~= range);
    assert(db::mapping_holds(m, row, i));
    assert(db::mapping_rows(fingerprint, sha, m).contains(row));
    let a = db::after_store(db, fingerprint, components, sha, m, now).regions;
    let b = db::after_update(db, fingerprint, components, sha, m, now).regions;
    assert(a.contains(row) && b.contains(row));
    assert(db::hunk_selects(a, fingerprint, sha, range.file, hunks[k], m[i].0));
    assert(db::hunk_selects(b, fingerprint, sha, range.file, hunks[k], m[i].0));
}

/// After a full collection the fingerprint's rows are exactly those of the collection, all
/// anchored at its sha; a test is tracked exactly where it hit something.
pub proof fn law_store_replaces_the_fingerprint(
    db: DbView,
    fingerprint: Seq<char>,
    components: Seq<(Seq<char>, Seq<char>)>,
    sha: Seq<char>,
    m: Seq<(TestIdView, Set<HitRangeView>)>,
    now: Seq<char>,
)
    ensures
        db::after_store(db, fingerprint, components, sha, m, now).regions.filter(
            |r: RegionView| r.fingerprint == fingerprint,
        ) == db::mapping_rows(fingerprint, sha, m),
        db::fingerprint_shas(db::after_store(db, fingerprint, components, sha, m, now).regions, fingerprint).subset_of(
            set![sha],
        ),
        forall|i: int, range: HitRangeView|
            0 <= i < m.len() && #[trigger] m[i].1.contains(range) ==> db::fingerprint_tests(
                db::after_store(db, fingerprint, components, sha, m, now).regions,
                fingerprint,
            ).contains(m[i].0) && db::after_store(db, fingerprint, components, sha, m, now).regions.contains(
                stored_row(fingerprint, sha, m[i].0, range),
            ),
{
    let a = db::after_store(db, fingerprint, components, sha, m, now).regions;
    assert(a.filter(|r: RegionView| r.fingerprint == fingerprint) =~= db::mapping_rows(fingerprint, sha, m));
    assert forall|s: Seq<char>| db::fingerprint_shas(a, fingerprint).contains(s) implies s == sha by {
        let row = choose|row: RegionView| #[trigger] a.contains(row) && row.fingerprint == fingerprint && row.sha == s;
        assert(db::mapping_rows(fingerprint, sha, m).contains(row));
    }
    assert forall|i: int, range: HitRangeView|
        0 <= i < m.len() && #[trigger] m[i].1.contains(range) implies db::fingerprint_tests(
        a,
        fingerprint,
    ).contains(m[i].0) && a.contains(stored_row(fingerprint, sha, m[i].0, range)) by {
        let row = stored_row(fingerprint, sha, m[i].0, range);
        assert(HitRangeView { file: row.file, line_start: row.start, line_end: row.end } =~= range);
        assert(db::mapping_holds(m, row, i));
        assert(a.contains(row));
    }
}

/// A collection under one fingerprint leaves every other fingerprint as it was.
pub proof fn law_writes_leave_other_fingerprints(
    db: DbView,
    fingerprint: Seq<char>,
    components: Seq<(Seq<char>, Seq<char>)>,
    sha: Seq<char>,
    m: Seq<(TestIdView, Set<HitRangeView>)>,
    now: Seq<char>,
    other: Seq<char>,
    present: Set<TestIdView>,
)
    requires
        other != fingerprint,
    ensures
        ({
            let here = |r: RegionView| r.fingerprint == other;
            let a = db::after_store(db, fingerprint, components, sha, m, now);
            let b = db::after_update(db, fingerprint, components, sha, m, now);
            let c = db::after_prune(db, fingerprint, present);
            &&& a.regions.filter(here) == db.regions.filter(here)
            &&& b.regions.filter(here) == db.regions.filter(here)
            &&& c.regions.filter(here) == db.regions.filter(here)
            &&& a.fingerprints.contains_key(other) == db.fingerprints.contains_key(other)
            &&& db.fingerprints.contains_key(other) ==> a.fingerprints[other] == db.fingerprints[other]
            &&& forall|label: Seq<char>|
                #![trigger a.components.contains_key((other, label))]
                a.components.contains_key((other, label)) == db.components.contains_key((other, label)) && (
                db.components.contains_key((other, label)) ==> a.components[(other, label)] == db.components[(
                    other,
                    label,
                )])
            &&& b.fingerprints == a.fingerprints && b.components == a.components
        }),
{
    let here = |r: RegionView| r.fingerprint == other;
    let a = db::after_store(db, fingerprint, components, sha, m, now);
    let b = db::after_update(db, fingerprint, components, sha, m, now);
    let c = db::after_prune(db, fingerprint, present);
    assert(a.regions.filter(here) =~= db.regions.filter(here));
    assert(b.regions.filter(here) =~= db.regions.filter(here));
    assert(c.regions.filter(here) =~= db.regions.filter(here));
    let base = db.components.restrict(db::keys_elsewhere(fingerprint));
    lemma_components_added(base, fingerprint, components);
    assert forall|label: Seq<char>|
        #![trigger a.components.contains_key((other, label))]
        a.components.contains_key((other, label)) == db.components.contains_key((other, label)) && (
        db.components.contains_key((other, label)) ==> a.components[(other, label)] == db.components[(
            other,
            label,
        )]) by {
        let k = (other, label);
        assert(base.contains_key(k) == db.components.contains_key(k));
    }
}

/// Adding component rows changes no other fingerprint's rows.
proof fn lemma_components_added(
    table: Map<(Seq<char>, Seq<char>), Seq<char>>,
    fingerprint: Seq<char>,
    components: Seq<(Seq<char>, Seq<char>)>,
)
    ensures
        forall|k: (Seq<char>, Seq<char>)|
            k.0 != fingerprint ==> (#[trigger] db::components_added(table, fingerprint, components).contains_key(k)
                == table.contains_key(k) && (table.contains_key(k) ==> db::components_added(
                table,
                fingerprint,
                components,
            )[k] == table[k])),
        forall|k: (Seq<char>, Seq<char>)|
            k.0 == fingerprint && #[trigger] db::components_added(table, fingerprint, components).contains_key(k)
                ==> table.contains_key(k) || exists|i: int|
                0 <= i < components.len() && (#[trigger] components[i]).0 == k.1,
    decreases components.len(),
{
    if components.len() > 0 {
        let c0 = components.drop_last();
        lemma_components_added(table, fingerprint, c0);
        assert forall|k: (Seq<char>, Seq<char>)| k.0 != fingerprint implies (#[trigger] db::components_added(
            table,
            fingerprint,
            components,
        ).contains_key(k) == table.contains_key(k) && (table.contains_key(k) ==> db::components_added(
            table,
            fingerprint,
            components,
        )[k] == table[k])) by {
            assert(db::components_added(table, fingerprint, c0).contains_key(k) == table.contains_key(k));
        }
        assert forall|k: (Seq<char>, Seq<char>)|
            k.0 == fingerprint && #[trigger] db::components_added(table, fingerprint, components).contains_key(k)
                && !table.contains_key(k) implies exists|i: int|
            0 <= i < components.len() && (#[trigger] components[i]).0 == k.1 by {
            if db::components_added(table, fingerprint, c0).contains_key(k) {
                let i = choose|i: int| 0 <= i < c0.len() && (#[trigger] c0[i]).0 == k.1;
                assert(components[i].0 == k.1);
            } else {
                assert(components[components.len() - 1].0 == k.1);
            }
        }
    }
}

/// Distinct components are all read back, and nothing else is stored for their fingerprint.
pub proof fn law_components_are_read_back(
    table: Map<(Seq<char>, Seq<char>), Seq<char>>,
    fingerprint: Seq<char>,
    components: Seq<(Seq<char>, Seq<char>)>,
)
    requires
        db::distinct_labels(components),
    ensures
        forall|i: int|
            0 <= i < components.len() ==> {
                &&& db::components_replaced(table, fingerprint, components).contains_key(
                    (fingerprint, (#[trigger] components[i]).0),
                )
                &&& db::components_replaced(table, fingerprint, components)[(fingerprint, components[i].0)]
                    == components[i].1
            },
        forall|label: Seq<char>| #[trigger]
            db::components_replaced(table, fingerprint, components).contains_key((fingerprint, label)) ==> exists|i: int|
                0 <= i < components.len() && (#[trigger] components[i]).0 == label,
{
    let base = table.restrict(db::keys_elsewhere(fingerprint));
    lemma_components_added(base, fingerprint, components);
    lemma_components_values(base, fingerprint, components);
}

proof fn lemma_components_values(
    table: Map<(Seq<char>, Seq<char>), Seq<char>>,
    fingerprint: Seq<char>,
    components: Seq<(Seq<char>, Seq<char>)>,
)
    requires
        db::distinct_labels(components),
    ensures
        forall|i: int|
            0 <= i < components.len() ==> {
                &&& db::components_added(table, fingerprint, components).contains_key(
                    (fingerprint, (#[trigger] components[i]).0),
                )
                &&& db::components_added(table, fingerprint, components)[(fingerprint, components[i].0)]
                    == components[i].1
            },
    decreases components.len(),
{
    if components.len() > 0 {
        let c0 = components.drop_last();
        lemma_components_values(table, fingerprint, c0);
        assert forall|i: int| 0 <= i < components.len() implies {
            &&& db::components_added(table, fingerprint, components).contains_key(
                (fingerprint, (#[trigger] components[i]).0),
            )
            &&& db::components_added(table, fingerprint, components)[(fingerprint, components[i].0)] == components[i].1
        } by {
            if i < c0.len() {
                assert(c0[i] == components[i]);
                assert(components[i].0 != components[components.len() - 1].0);
            }
        }
    }
}

/// Storing the same collection again changes nothing.
pub proof fn law_store_twice_is_store_once(
    db: DbView,
    fingerprint: Seq<char>,
    components: Seq<(Seq<char>, Seq<char>)>,
    sha: Seq<char>,
    m: Seq<(TestIdView, Set<HitRangeView>)>,
    now: Seq<char>,
)
    ensures
        db::after_store(
            db::after_store(db, fingerprint, components, sha, m, now),
            fingerprint,
            components,
            sha,
            m,
            now,
        ) == db::after_store(db, fingerprint, components, sha, m, now),
{
    let a = db::after_store(db, fingerprint, components, sha, m, now);
    let b = db::after_store(a, fingerprint, components, sha, m, now);
    assert(b.regions =~= a.regions);
    assert(b.fingerprints =~= a.fingerprints);
    let elsewhere = db::keys_elsewhere(fingerprint);
    let base = db.components.restrict(elsewhere);
    lemma_components_added(base, fingerprint, components);
    assert(a.components.restrict(elsewhere) =~= base);
    assert(b =~= a);
}

/// An incremental collection replaces exactly the rows of the tests that were rerun: every other
/// row stays, and the rerun tests keep only what the new collection found.
pub proof fn law_update_replaces_only_rerun_tests(
    db: DbView,
    fingerprint: Seq<char>,
    components: Seq<(Seq<char>, Seq<char>)>,
    sha: Seq<char>,
    m: Seq<(TestIdView, Set<HitRangeView>)>,
    now: Seq<char>,
    row: RegionView,
)
    ensures
        row.fingerprint != fingerprint || !db::mapping_tests(m).contains(row.test) ==> (db::after_update(
            db,
            fingerprint,
            components,
            sha,
            m,
            now,
        ).regions.contains(row) <==> db.regions.contains(row)),
        row.fingerprint == fingerprint && db::mapping_tests(m).contains(row.test) ==> (db::after_update(
            db,
            fingerprint,
            components,
            sha,
            m,
            now,
        ).regions.contains(row) <==> db::mapping_rows(fingerprint, sha, m).contains(row)),
{
    if db::mapping_rows(fingerprint, sha, m).contains(row) {
        let i = choose|i: int| #[trigger] db::mapping_holds(m, row, i);
        let keys = m.map_values(|e: (TestIdView, Set<HitRangeView>)| e.0);
        assert(keys[i] == row.test);
        assert(keys.contains(row.test));
    }
}

/// After pruning, the tests tracked under the fingerprint are those that are present; rows of
/// present tests stay, and pruning again changes nothing.
pub proof fn law_prune_keeps_present_tests(db: DbView, fingerprint: Seq<char>, present: Set<TestIdView>)
    ensures
        db::fingerprint_tests(db::after_prune(db, fingerprint, present).regions, fingerprint) == db::fingerprint_tests(
            db.regions,
            fingerprint,
        ).intersect(present),
        forall|row: RegionView|
            present.contains(row.test) ==> (#[trigger] db::after_prune(db, fingerprint, present).regions.contains(row)
                <==> db.regions.contains(row)),
        db::after_prune(db::after_prune(db, fingerprint, present), fingerprint, present) == db::after_prune(
            db,
            fingerprint,
            present,
        ),
{
    let a = db::after_prune(db, fingerprint, present);
    assert forall|t: TestIdView| db::fingerprint_tests(a.regions, fingerprint).contains(t) <==> db::fingerprint_tests(
        db.regions,
        fingerprint,
    ).intersect(present).contains(t) by {
        if db::fingerprint_tests(a.regions, fingerprint).contains(t) {
            let row = choose|row: RegionView| #[trigger]
                a.regions.contains(row) && row.fingerprint == fingerprint && row.test == t;
            assert(db.regions.contains(row));
        }
        if db::fingerprint_tests(db.regions, fingerprint).contains(t) && present.contains(t) {
            let row = choose|row: RegionView| #[trigger]
                db.regions.contains(row) && row.fingerprint == fingerprint && row.test == t;
            assert(a.regions.contains(row));
        }
    }
    assert(db::fingerprint_tests(a.regions, fingerprint) =~= db::fingerprint_tests(db.regions, fingerprint).intersect(present));
    assert(db::after_prune(a, fingerprint, present).regions =~= a.regions);
}

/// The sentinel row of a crate root overlaps every hunk that ends at line 1 or later, so such a
/// hunk in the file selects its test.
pub proof fn law_sentinel_overlaps_every_hunk(
    regions: Set<RegionView>,
    fingerprint: Seq<char>,
    sha: Seq<char>,
    file: Seq<char>,
    test: TestIdView,
    hunk: LineRange,
)
    requires
        regions.contains(stored_row(fingerprint, sha, test, crate::coverage::sentinel_range(file))),
        hunk.end >= 1,
    ensures
        db::hunk_selects(regions, fingerprint, sha, file, hunk, test),
{
    let row = stored_row(fingerprint, sha, test, crate::coverage::sentinel_range(file));
    assert(db::row_in(row, fingerprint, sha, file) && db::row_overlaps(row, hunk));
}

/// No hunk in a tracked file is lost: whatever its lines, it selects some test of the file, and
/// where it overlaps no stored range it selects every test of the file.
pub proof fn law_no_hunk_is_lost(
    regions: Set<RegionView>,
    fingerprint: Seq<char>,
    sha: Seq<char>,
    file: Seq<char>,
    hunk: LineRange,
    row: RegionView,
)
    requires
        regions.contains(row),
        db::row_in(row, fingerprint, sha, file),
    ensures
        exists|t: TestIdView| #[trigger] db::hunk_selects(regions, fingerprint, sha, file, hunk, t),
        !db::hunk_overlaps_some(regions, fingerprint, sha, file, hunk) ==> db::hunk_selects(
            regions,
            fingerprint,
            sha,
            file,
            hunk,
            row.test,
        ),
{
    if db::hunk_overlaps_some(regions, fingerprint, sha, file, hunk) {
        let w = choose|w: RegionView| #[trigger]
            regions.contains(w) && db::row_in(w, fingerprint, sha, file) && db::row_overlaps(w, hunk);
        assert(db::hunk_selects(regions, fingerprint, sha, file, hunk, w.test));
    } else {
        assert(db::hunk_selects(regions, fingerprint, sha, file, hunk, row.test));
    }
}

/// A hunk inside a recorded range selects no more than the tests that reached it: where it overlaps
/// the range of some test, a test of the file without an overlapping range is not selected by it.
pub proof fn law_overlapped_hunk_selects_only_who_reached_it(
    regions: Set<RegionView>,
    fingerprint: Seq<char>,
    sha: Seq<char>,
    file: Seq<char>,
    hunk: LineRange,
    test: TestIdView,
)
    requires
        db::hunk_overlaps_some(regions, fingerprint, sha, file, hunk),
        forall|row: RegionView| #[trigger]
            regions.contains(row) && db::row_in(row, fingerprint, sha, file) && row.test == test ==> !db::row_overlaps(
                row,
                hunk,
            ),
    ensures
        !db::hunk_selects(regions, fingerprint, sha, file, hunk, test),
{
}

/// A wider stored range selects wherever a narrower one in its place does: widening a row can add
/// to what its own overlap selects, never take away.
pub proof fn law_wider_row_overlaps_more(row: RegionView, wider: RegionView, hunk: LineRange)
    requires
        wider.start <= row.start,
        row.end <= wider.end,
        db::row_overlaps(row, hunk),
    ensures
        db::row_overlaps(wider, hunk),
{
}

/// Queries read only the rows of their fingerprint: tables that agree there answer alike, and a
/// fingerprint without rows reads as empty.
pub proof fn law_queries_are_scoped(
    a: Set<RegionView>,
    b: Set<RegionView>,
    fingerprint: Seq<char>,
    sha: Seq<char>,
    file: Seq<char>,
    hunks: Seq<LineRange>,
    shas: Set<Seq<char>>,
)
    requires
        forall|row: RegionView|
            row.fingerprint == fingerprint ==> (#[trigger] a.contains(row) <==> b.contains(row)),
    ensures
        db::covering_tests(a, fingerprint, sha, file, hunks) == db::covering_tests(b, fingerprint, sha, file, hunks),
        db::fingerprint_tests(a, fingerprint) == db::fingerprint_tests(b, fingerprint),
        db::fingerprint_shas(a, fingerprint) == db::fingerprint_shas(b, fingerprint),
        db::tests_at(a, fingerprint, shas) == db::tests_at(b, fingerprint, shas),
{
    assert forall|row: RegionView| row.fingerprint == fingerprint implies (#[trigger] b.contains(row) <==> a.contains(
        row,
    )) by {
        assert(a.contains(row) <==> b.contains(row));
    }
    assert forall|hunk: LineRange|
        db::hunk_overlaps_some(a, fingerprint, sha, file, hunk) == db::hunk_overlaps_some(b, fingerprint, sha, file, hunk) by {
        if db::hunk_overlaps_some(a, fingerprint, sha, file, hunk) {
            let w = choose|w: RegionView| #[trigger]
                a.contains(w) && db::row_in(w, fingerprint, sha, file) && db::row_overlaps(w, hunk);
            assert(b.contains(w));
        }
        if db::hunk_overlaps_some(b, fingerprint, sha, file, hunk) {
            let w = choose|w: RegionView| #[trigger]
                b.contains(w) && db::row_in(w, fingerprint, sha, file) && db::row_overlaps(w, hunk);
            assert(a.contains(w));
        }
    }
    assert forall|hunk: LineRange, t: TestIdView|
        db::hunk_selects(a, fingerprint, sha, file, hunk, t) == db::hunk_selects(b, fingerprint, sha, file, hunk, t) by {
        assert(db::hunk_overlaps_some(a, fingerprint, sha, file, hunk) == db::hunk_overlaps_some(
            b,
            fingerprint,
            sha,
            file,
            hunk,
        ));
        if db::hunk_selects(a, fingerprint, sha, file, hunk, t) {
            let w = choose|w: RegionView| #[trigger]
                a.contains(w) && db::row_in(w, fingerprint, sha, file) && w.test == t && (db::row_overlaps(w, hunk)
                    || !db::hunk_overlaps_some(a, fingerprint, sha, file, hunk));
            assert(b.contains(w));
        }
        if db::hunk_selects(b, fingerprint, sha, file, hunk, t) {
            let w = choose|w: RegionView| #[trigger]
                b.contains(w) && db::row_in(w, fingerprint, sha, file) && w.test == t && (db::row_overlaps(w, hunk)
                    || !db::hunk_overlaps_some(b, fingerprint, sha, file, hunk));
            assert(a.contains(w));
        }
    }
    assert(db::covering_tests(a, fingerprint, sha, file, hunks) =~= db::covering_tests(b, fingerprint, sha, file, hunks));
    assert(db::fingerprint_tests(a, fingerprint) =~= db::fingerprint_tests(b, fingerprint));
    assert(db::fingerprint_shas(a, fingerprint) =~= db::fingerprint_shas(b, fingerprint));
    assert(db::tests_at(a, fingerprint, shas) =~= db::tests_at(b, fingerprint, shas));
}

/// The tests that a query selects are tracked at the sha that it asks about.
pub proof fn law_selected_tests_are_known(
    regions: Set<RegionView>,
    fingerprint: Seq<char>,
    sha: Seq<char>,
    file: Seq<char>,
    hunks: Seq<LineRange>,
    shas: Set<Seq<char>>,
    test: TestIdView,
)
    requires
        shas.contains(sha),
        db::covering_tests(regions, fingerprint, sha, file, hunks).contains(test),
    ensures
        db::tests_at(regions, fingerprint, shas).contains(test),
        db::tests_at(regions, fingerprint, shas).subset_of(db::fingerprint_tests(regions, fingerprint)),
{
    let i = choose|i: int|
        0 <= i < hunks.len() && db::hunk_selects(regions, fingerprint, sha, file, #[trigger] hunks[i], test);
    let w = choose|w: RegionView| #[trigger]
        regions.contains(w) && db::row_in(w, fingerprint, sha, file) && w.test == test && (db::row_overlaps(w, hunks[i])
            || !db::hunk_overlaps_some(regions, fingerprint, sha, file, hunks[i]));
    assert(db::tests_at(regions, fingerprint, shas).contains(test));
    assert forall|t: TestIdView| db::tests_at(regions, fingerprint, shas).contains(t) implies db::fingerprint_tests(
        regions,
        fingerprint,
    ).contains(t) by {
        let row = choose|row: RegionView| #[trigger]
            regions.contains(row) && row.fingerprint == fingerprint && shas.contains(row.sha) && row.test == t;
        assert(regions.contains(row));
    }
}

/// `line` is one of the lines from `start` to `end`.
pub open spec fn on_line(start: i64, end: i64, line: int) -> bool {
    start <= line <= end
}

/// A row and a hunk overlap exactly where some line lies in both.
pub proof fn law_overlap_is_a_shared_line(row: RegionView, hunk: LineRange)
    requires
        row.start <= row.end,
        hunk.start <= hunk.end,
    ensures
        db::row_overlaps(row, hunk) <==> exists|line: int|
            #[trigger] on_line(row.start, row.end, line) && on_line(hunk.start, hunk.end, line),
        row.end < hunk.start ==> !db::row_overlaps(row, hunk),
        hunk.end < row.start ==> !db::row_overlaps(row, hunk),
{
    if db::row_overlaps(row, hunk) {
        let line = if row.start < hunk.start {
            hunk.start as int
        } else {
            row.start as int
        };
        assert(on_line(row.start, row.end, line) && on_line(hunk.start, hunk.end, line));
    }
}

/// A row of a file and a hunk have no line in common.
pub open spec fn apart(row: RegionView, hunk: LineRange) -> bool {
    forall|line: int| #[trigger] on_line(row.start, row.end, line) ==> !on_line(hunk.start, hunk.end, line)
}

proof fn lemma_apart(row: RegionView, hunk: LineRange)
    requires
        row.start <= row.end,
        hunk.start <= hunk.end,
    ensures
        apart(row, hunk) <==> !db::row_overlaps(row, hunk),
{
    law_overlap_is_a_shared_line(row, hunk);
}

/// A hunk that has a line in common with a row of a test selects the test.
pub proof fn law_shared_line_selects(
    regions: Set<RegionView>,
    row: RegionView,
    hunks: Seq<LineRange>,
    k: int,
    line: int,
)
    requires
        regions.contains(row),
        0 <= k < hunks.len(),
        row.start <= line <= row.end,
        hunks[k].start <= line <= hunks[k].end,
    ensures
        db::covering_tests(regions, row.fingerprint, row.sha, row.file, hunks).contains(row.test),
{
    assert(db::hunk_selects(regions, row.fingerprint, row.sha, row.file, hunks[k], row.test));
}

/// A hunk that has no line in common with any row of its file selects every test that has a row in
/// the file.
pub proof fn law_hunk_between_rows_selects_the_file(
    regions: Set<RegionView>,
    row: RegionView,
    hunks: Seq<LineRange>,
    k: int,
)
    requires
        regions.contains(row),
        0 <= k < hunks.len(),
        hunks[k].start <= hunks[k].end,
        forall|w: RegionView|
            #[trigger] regions.contains(w) && w.fingerprint == row.fingerprint && w.sha == row.sha && w.file == row.file
                ==> w.start <= w.end && (w.end < hunks[k].start || hunks[k].end < w.start),
    ensures
        db::covering_tests(regions, row.fingerprint, row.sha, row.file, hunks).contains(row.test),
{
    assert forall|w: RegionView|
        #[trigger] regions.contains(w) && db::row_in(w, row.fingerprint, row.sha, row.file) implies !db::row_overlaps(
        w,
        hunks[k],
    ) by {
        law_overlap_is_a_shared_line(w, hunks[k]);
    }
    assert(db::hunk_selects(regions, row.fingerprint, row.sha, row.file, hunks[k], row.test));
}

/// A test is not selected where each hunk has a line in common with some row of the file, and none
/// has one in common with a row of the test.
pub proof fn law_untouched_test_is_not_selected(
    regions: Set<RegionView>,
    fingerprint: Seq<char>,
    sha: Seq<char>,
    file: Seq<char>,
    hunks: Seq<LineRange>,
    test: TestIdView,
)
    requires
        forall|k: int| 0 <= k < hunks.len() ==> (#[trigger] hunks[k]).start <= hunks[k].end,
        forall|w: RegionView|
            #[trigger] regions.contains(w) && w.fingerprint == fingerprint && w.sha == sha && w.file == file
                ==> w.start <= w.end,
        forall|k: int, w: RegionView|
            0 <= k < hunks.len() && #[trigger] regions.contains(w) && w.fingerprint == fingerprint && w.sha == sha
                && w.file == file && w.test == test ==> apart(w, #[trigger] hunks[k]),
        forall|k: int|
            0 <= k < hunks.len() ==> exists|w: RegionView|
                #[trigger] regions.contains(w) && w.fingerprint == fingerprint && w.sha == sha && w.file == file
                    && !apart(w, #[trigger] hunks[k]),
    ensures
        !db::covering_tests(regions, fingerprint, sha, file, hunks).contains(test),
{
    assert forall|k: int| 0 <= k < hunks.len() implies !db::hunk_selects(
        regions,
        fingerprint,
        sha,
        file,
        #[trigger] hunks[k],
        test,
    ) by {
        let w = choose|w: RegionView|
            #[trigger] regions.contains(w) && w.fingerprint == fingerprint && w.sha == sha && w.file == file && !apart(
                w,
                hunks[k],
            );
        lemma_apart(w, hunks[k]);
        assert(db::row_in(w, fingerprint, sha, file));
        assert(db::hunk_overlaps_some(regions, fingerprint, sha, file, hunks[k]));
        assert forall|v: RegionView|
            #[trigger] regions.contains(v) && db::row_in(v, fingerprint, sha, file) && v.test == test implies !db::row_overlaps(
            v,
            hunks[k],
        ) by {
            assert(apart(v, hunks[k]));
            lemma_apart(v, hunks[k]);
        }
    }
}

/// Every hit says how a hunk reached the test: through a row of the test that has a line in common
/// with the hunk, and then the range is that of the row, or, where no row has one, through any row.
pub proof fn law_hits_say_how_they_came(rows: Seq<RegionView>, hunks: Seq<LineRange>, j: int)
    requires
        0 <= j < db::file_hits(rows, hunks).len(),
        forall|k: int| 0 <= k < hunks.len() ==> (#[trigger] hunks[k]).start <= hunks[k].end,
        forall|i: int| 0 <= i < rows.len() ==> (#[trigger] rows[i]).start <= rows[i].end,
    ensures
        exists|k: int, i: int|
            #![trigger hunks[k], rows[i]]
            {
                let hit = db::file_hits(rows, hunks)[j];
                &&& 0 <= k < hunks.len()
                &&& 0 <= i < rows.len()
                &&& hit.test == rows[i].test
                &&& hit.reason.collect_sha == rows[i].sha
                &&& hit.reason.file == rows[i].file
                &&& hit.reason.matched_hunk == (hunks[k].start, hunks[k].end)
                &&& match hit.reason.kind {
                    db::HitKind::LineOverlap => rows[i].end < i64::MAX && !apart(rows[i], hunks[k])
                        && hit.reason.stored_range == Some((rows[i].start, rows[i].end)),
                    db::HitKind::CrateRootSentinel => rows[i].end == i64::MAX && !apart(rows[i], hunks[k])
                        && hit.reason.stored_range == Some((rows[i].start, rows[i].end)),
                    db::HitKind::StructuralBackstop => hit.reason.stored_range is None && forall|m: int|
                        0 <= m < rows.len() ==> apart(#[trigger] rows[m], hunks[k]),
                    db::HitKind::ConfigRule => false,
                }
            },
    decreases hunks.len(),
{
    let h0 = hunks.drop_last();
    let a = db::file_hits(rows, h0);
    let b = db::hunk_hits(rows, hunks.last());
    let hit = db::file_hits(rows, hunks)[j];
    assert forall|k: int| 0 <= k < h0.len() implies (#[trigger] h0[k]).start <= h0[k].end by {
        assert(h0[k] == hunks[k]);
    }
    if j < a.len() {
        law_hits_say_how_they_came(rows, h0, j);
        let (k, i) = choose|k: int, i: int|
            #![trigger h0[k], rows[i]]
            {
                let hit = db::file_hits(rows, h0)[j];
                &&& 0 <= k < h0.len()
                &&& 0 <= i < rows.len()
                &&& hit.test == rows[i].test
                &&& hit.reason.collect_sha == rows[i].sha
                &&& hit.reason.file == rows[i].file
                &&& hit.reason.matched_hunk == (h0[k].start, h0[k].end)
                &&& match hit.reason.kind {
                    db::HitKind::LineOverlap => rows[i].end < i64::MAX && !apart(rows[i], h0[k])
                        && hit.reason.stored_range == Some((rows[i].start, rows[i].end)),
                    db::HitKind::CrateRootSentinel => rows[i].end == i64::MAX && !apart(rows[i], h0[k])
                        && hit.reason.stored_range == Some((rows[i].start, rows[i].end)),
                    db::HitKind::StructuralBackstop => hit.reason.stored_range is None && forall|m: int|
                        0 <= m < rows.len() ==> apart(#[trigger] rows[m], h0[k]),
                    db::HitKind::ConfigRule => false,
                }
            };
        assert(h0[k] == hunks[k] && rows[i] == rows[i]);
    } else {
        let k = hunks.len() - 1;
        let hunk = hunks.last();
        assert(hunks[k] == hunk);
        let p = |r: RegionView| db::row_overlaps(r, hunk);
        let over = rows.filter(p);
        crate::ordered::lemma_filter_members(rows, p);
        db::lemma_first_rows(rows);
        let n = j - a.len();
        assert(hit == b[n]);
        if over.len() > 0 {
            assert(over.contains(over[n]));
            let i = choose|i: int| 0 <= i < rows.len() && rows[i] == over[n];
            lemma_apart(rows[i], hunk);
        } else {
            let first = db::first_rows(rows);
            assert(first.contains(first[n]));
            let i = choose|i: int| 0 <= i < rows.len() && rows[i] == first[n];
            assert forall|m: int| 0 <= m < rows.len() implies apart(#[trigger] rows[m], hunk) by {
                lemma_apart(rows[m], hunk);
                if p(rows[m]) {
                    assert(rows.contains(rows[m]));
                    assert(over.contains(rows[m]));
                }
            }
            assert(rows[i] == first[n] && hunks[k] == hunk);
        }
    }
}

/// Every row that has a line in common with a hunk is among the hits.
pub proof fn law_every_shared_line_is_hit(rows: Seq<RegionView>, hunks: Seq<LineRange>, i: int, k: int, line: int)
    requires
        0 <= i < rows.len(),
        0 <= k < hunks.len(),
        rows[i].start <= line <= rows[i].end,
        hunks[k].start <= line <= hunks[k].end,
    ensures
        exists|j: int|
            {
                &&& 0 <= j < db::file_hits(rows, hunks).len()
                &&& (#[trigger] db::file_hits(rows, hunks)[j]).test == rows[i].test
                &&& db::file_hits(rows, hunks)[j].reason.stored_range == Some((rows[i].start, rows[i].end))
                &&& db::file_hits(rows, hunks)[j].reason.matched_hunk == (hunks[k].start, hunks[k].end)
            },
    decreases hunks.len(),
{
    let h0 = hunks.drop_last();
    let a = db::file_hits(rows, h0);
    let b = db::hunk_hits(rows, hunks.last());
    let c = db::file_hits(rows, hunks);
    if k < h0.len() {
        assert(h0[k] == hunks[k]);
        law_every_shared_line_is_hit(rows, h0, i, k, line);
        let j = choose|j: int|
            {
                &&& 0 <= j < db::file_hits(rows, h0).len()
                &&& (#[trigger] db::file_hits(rows, h0)[j]).test == rows[i].test
                &&& db::file_hits(rows, h0)[j].reason.stored_range == Some((rows[i].start, rows[i].end))
                &&& db::file_hits(rows, h0)[j].reason.matched_hunk == (h0[k].start, h0[k].end)
            };
        assert(c[j] == a[j]);
    } else {
        let hunk = hunks.last();
        let p = |r: RegionView| db::row_overlaps(r, hunk);
        let over = rows.filter(p);
        crate::ordered::lemma_filter_members(rows, p);
        assert(p(rows[i]));
        assert(rows.contains(rows[i]));
        assert(over.contains(rows[i]));
        let n = choose|n: int| 0 <= n < over.len() && over[n] == rows[i];
        assert(c[a.len() + n] == b[n]);
    }
}

/// What the queries read: a row makes its test, its commit and its file known under its fingerprint,
/// and nothing else does.
pub proof fn law_queries_read_the_rows(
    regions: Set<RegionView>,
    fingerprint: Seq<char>,
    shas: Set<Seq<char>>,
    test: TestIdView,
    name: Seq<char>,
)
    ensures
        db::fingerprint_tests(regions, fingerprint).contains(test) <==> exists|row: RegionView|
            #[trigger] regions.contains(row) && row.fingerprint == fingerprint && row.test == test,
        db::tests_at(regions, fingerprint, shas).contains(test) <==> exists|row: RegionView|
            #[trigger] regions.contains(row) && row.fingerprint == fingerprint && row.test == test && shas.contains(
                row.sha,
            ),
        db::fingerprint_shas(regions, fingerprint).contains(name) <==> exists|row: RegionView|
            #[trigger] regions.contains(row) && row.fingerprint == fingerprint && row.sha == name,
        db::files_at(regions, fingerprint, shas).contains(name) <==> exists|row: RegionView|
            #[trigger] regions.contains(row) && row.fingerprint == fingerprint && row.file == name && shas.contains(
                row.sha,
            ),
        db::is_covered(regions, fingerprint, name) <==> exists|row: RegionView|
            #[trigger] regions.contains(row) && row.fingerprint == fingerprint && row.file == name,
{
}

/// What a collection leaves in the tables: a row is there exactly where the collection found its test
/// hitting its range, or where it was there before and is not replaced. A full collection replaces
/// the rows of its fingerprint, a partial one those of the tests that were rerun.
pub proof fn law_collections_replace_rows(
    db: DbView,
    fingerprint: Seq<char>,
    components: Seq<(Seq<char>, Seq<char>)>,
    sha: Seq<char>,
    m: Seq<(TestIdView, Set<HitRangeView>)>,
    now: Seq<char>,
    row: RegionView,
)
    ensures
        ({
            let range = HitRangeView { file: row.file, line_start: row.start, line_end: row.end };
            let found = row.fingerprint == fingerprint && row.sha == sha && exists|i: int|
                0 <= i < m.len() && (#[trigger] m[i]).0 == row.test && m[i].1.contains(range);
            let rerun = exists|i: int| 0 <= i < m.len() && (#[trigger] m[i]).0 == row.test;
            let full = db::after_store(db, fingerprint, components, sha, m, now);
            let partial = db::after_update(db, fingerprint, components, sha, m, now);
            &&& full.regions.contains(row) <==> found || (db.regions.contains(row) && row.fingerprint != fingerprint)
            &&& partial.regions.contains(row) <==> found || (db.regions.contains(row) && !(row.fingerprint
                == fingerprint && rerun))
            &&& full.fingerprints == db.fingerprints.insert(fingerprint, now)
            &&& partial.fingerprints == db.fingerprints.insert(fingerprint, now)
            &&& full.last_collected == Some(now)
            &&& partial.last_collected == Some(now)
        }),
{
    let range = HitRangeView { file: row.file, line_start: row.start, line_end: row.end };
    let keys = m.map_values(|e: (TestIdView, Set<HitRangeView>)| e.0);
    if db::mapping_rows(fingerprint, sha, m).contains(row) {
        let i = choose|i: int| #[trigger] db::mapping_holds(m, row, i);
        assert(m[i].0 == row.test && m[i].1.contains(range));
    }
    if exists|i: int| 0 <= i < m.len() && (#[trigger] m[i]).0 == row.test && m[i].1.contains(range) {
        let i = choose|i: int| 0 <= i < m.len() && (#[trigger] m[i]).0 == row.test && m[i].1.contains(range);
        assert(db::mapping_holds(m, row, i));
    }
    if db::mapping_tests(m).contains(row.test) {
        let i = choose|i: int| 0 <= i < keys.len() && keys[i] == row.test;
        assert(m[i].0 == row.test);
    }
    if exists|i: int| 0 <= i < m.len() && (#[trigger] m[i]).0 == row.test {
        let i = choose|i: int| 0 <= i < m.len() && (#[trigger] m[i]).0 == row.test;
        assert(keys[i] == row.test);
    }
}

/// A warning is given exactly for the changed `.rs` files that no row under the fingerprint names.
pub proof fn law_uncovered_sources_are_warned_about(
    regions: Set<RegionView>,
    fingerprint: Seq<char>,
    files: Seq<Seq<char>>,
    i: int,
)
    requires
        0 <= i < files.len(),
    ensures
        ".rs"@.is_suffix_of(files[i]) && (forall|row: RegionView|
            #[trigger] regions.contains(row) && row.fingerprint == fingerprint ==> row.file != files[i])
            ==> db::uncovered_warnings(regions, fingerprint, files).contains(db::uncovered_warning(files[i])),
        (forall|k: int|
            0 <= k < files.len() ==> !".rs"@.is_suffix_of(#[trigger] files[k]) || exists|row: RegionView|
                #[trigger] regions.contains(row) && row.fingerprint == fingerprint && row.file == files[k])
            ==> db::uncovered_warnings(regions, fingerprint, files).len() == 0,
    decreases files.len(),
{
    let f0 = files.drop_last();
    let w0 = db::uncovered_warnings(regions, fingerprint, f0);
    let w = db::uncovered_warnings(regions, fingerprint, files);
    assert(files[files.len() - 1] == files.last());
    if i < f0.len() {
        law_uncovered_sources_are_warned_about(regions, fingerprint, f0, i);
        assert(f0[i] == files[i]);
        if w0.contains(db::uncovered_warning(files[i])) {
            let k = choose|k: int| 0 <= k < w0.len() && w0[k] == db::uncovered_warning(files[i]);
            assert(w[k] == w0[k]);
        }
    } else {
        if db::is_uncovered_source(regions, fingerprint, files[i]) {
            assert(w.last() == db::uncovered_warning(files[i]));
            assert(w[w.len() - 1] == w.last());
        }
        if f0.len() > 0 {
            law_uncovered_sources_are_warned_about(regions, fingerprint, f0, 0);
        }
    }
    if forall|k: int|
        0 <= k < files.len() ==> !".rs"@.is_suffix_of(#[trigger] files[k]) || exists|row: RegionView|
            #[trigger] regions.contains(row) && row.fingerprint == fingerprint && row.file == files[k] {
        assert forall|k: int| 0 <= k < f0.len() implies !".rs"@.is_suffix_of(#[trigger] f0[k]) || exists|row: RegionView|
            #[trigger] regions.contains(row) && row.fingerprint == fingerprint && row.file == f0[k] by {
            assert(files[k] == f0[k]);
        }
    }
}

/// What is listed under a fingerprint is what is stored for it: every label with its hash, and nothing
/// else.
pub proof fn law_components_are_those_stored(
    components: Map<(Seq<char>, Seq<char>), Seq<char>>,
    fingerprint: Seq<char>,
    label: Seq<char>,
    hash: Seq<char>,
)
    requires
        components.dom().finite(),
    ensures
        crate::db::components_under(components, fingerprint).contains((label, hash)) <==> components.contains_key(
            (fingerprint, label),
        ) && components[(fingerprint, label)] == hash,
{
    let table = crate::ordered::listed_pairs::<(String, String), Seq<char>>(components);
    lemma_component_list(table, fingerprint, label, hash);
    crate::ordered::lemma_in_order_of::<(String, String)>(components.dom());
    let keys = crate::ordered::in_order::<(String, String)>(components.dom());
    if table.contains(((fingerprint, label), hash)) {
        let i = choose|i: int| 0 <= i < table.len() && table[i] == ((fingerprint, label), hash);
        assert(keys[i] == (fingerprint, label));
        assert(keys.to_set().contains(keys[i]));
        assert(components.dom().contains((fingerprint, label)));
    }
    if components.contains_key((fingerprint, label)) {
        assert(keys.to_set().contains((fingerprint, label)));
        let i = choose|i: int| 0 <= i < keys.len() && keys[i] == (fingerprint, label);
        assert(table[i] == ((fingerprint, label), components[(fingerprint, label)]));
    }
}

proof fn lemma_component_list(
    table: Seq<((Seq<char>, Seq<char>), Seq<char>)>,
    fingerprint: Seq<char>,
    label: Seq<char>,
    hash: Seq<char>,
)
    ensures
        crate::db::component_list(table, fingerprint).contains((label, hash)) <==> table.contains(
            ((fingerprint, label), hash),
        ),
    decreases table.len(),
{
    if table.len() > 0 {
        let b = table.drop_last();
        let n = table.len() - 1;
        lemma_component_list(b, fingerprint, label, hash);
        let list = crate::db::component_list(table, fingerprint);
        let before = crate::db::component_list(b, fingerprint);
        if list.contains((label, hash)) {
            let i = choose|i: int| 0 <= i < list.len() && list[i] == (label, hash);
            if i < before.len() {
                assert(before[i] == (label, hash));
                let k = choose|k: int| 0 <= k < b.len() && b[k] == ((fingerprint, label), hash);
                assert(table[k] == b[k]);
            } else {
                assert(table[n] == ((fingerprint, label), hash));
            }
        }
        if table.contains(((fingerprint, label), hash)) {
            let k = choose|k: int| 0 <= k < table.len() && table[k] == ((fingerprint, label), hash);
            if k < n {
                assert(b[k] == table[k]);
                let i = choose|i: int| 0 <= i < before.len() && before[i] == (label, hash);
                assert(list[i] == (label, hash));
            } else {
                assert(list[list.len() - 1] == (label, hash));
            }
        }
    }
}

/// Every stored fingerprint is listed with when it was last used and its components, and no other is.
pub proof fn law_fingerprints_are_those_stored(
    fingerprints: Map<Seq<char>, Seq<char>>,
    components: Map<(Seq<char>, Seq<char>), Seq<char>>,
    f: Seq<char>,
    k: int,
)
    requires
        fingerprints.dom().finite(),
    ensures
        ({
            let all = crate::db::stored_rows(fingerprints, components);
            &&& fingerprints.contains_key(f) ==> exists|i: int|
                0 <= i < all.len() && (#[trigger] all[i]).fingerprint == f && all[i].last_seen == fingerprints[f]
                    && all[i].components == crate::db::components_under(components, f)
            &&& 0 <= k < all.len() ==> fingerprints.contains_key(all[k].fingerprint)
            &&& all.len() == fingerprints.dom().len()
        }),
{
    let all = crate::db::stored_rows(fingerprints, components);
    crate::ordered::lemma_in_order_of::<String>(fingerprints.dom());
    let keys = crate::ordered::in_order::<String>(fingerprints.dom());
    if fingerprints.contains_key(f) {
        assert(keys.to_set().contains(f));
        let i = choose|i: int| 0 <= i < keys.len() && keys[i] == f;
        assert(all[i].fingerprint == f);
    }
    if 0 <= k < all.len() {
        assert(all[k].fingerprint == keys[k]);
        assert(keys.to_set().contains(keys[k]));
        assert(fingerprints.dom().contains(keys[k]));
    }
}

} // verus!

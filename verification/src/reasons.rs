//! Why tests are selected: the hits of a change, the strongest reason of each test in each file,
//! and what they add up to.

use vstd::prelude::*;
use crate::db::{Db, Hit, HitKind, HitReason, TestId};
use crate::db::{HitReasonView, HitView, RegionRow, RegionView, TestIdView};
use crate::diff::LineRange;
use crate::ordered::{Key, OrdMap};
use crate::selection::{ChangedRangesBySha, RangesView};

verus! {

/// How strong a reason is: a covered line counts most, then the structural backstop, then a
/// configured rule, then the bare crate root.
pub open spec fn kind_rank(k: HitKind) -> int {
    match k {
        HitKind::LineOverlap => 3,
        HitKind::StructuralBackstop => 2,
        HitKind::ConfigRule => 1,
        HitKind::CrateRootSentinel => 0,
    }
}

/// The stronger of two kinds.
pub open spec fn stronger(a: HitKind, b: HitKind) -> HitKind {
    if kind_rank(a) >= kind_rank(b) {
        a
    } else {
        b
    }
}

/// How strong a reason is.
fn rank(k: HitKind) -> (r: u8)
    ensures
        r == kind_rank(k),
{
    match k {
        HitKind::LineOverlap => 3,
        HitKind::StructuralBackstop => 2,
        HitKind::ConfigRule => 1,
        HitKind::CrateRootSentinel => 0,
    }
}

/// The stronger of two kinds.
pub fn strongest(a: HitKind, b: HitKind) -> (r: HitKind)
    ensures
        r == stronger(a, b),
{
    if rank(a) >= rank(b) {
        a
    } else {
        b
    }
}

/// The order in which reasons are met does not matter for the strongest.
pub proof fn law_strongest_is_order_free(a: HitKind, b: HitKind, c: HitKind)
    ensures
        stronger(a, b) == stronger(b, a),
        stronger(stronger(a, b), c) == stronger(a, stronger(b, c)),
        stronger(a, a) == a,
        stronger(a, b) == a || stronger(a, b) == b,
        kind_rank(a) <= kind_rank(stronger(a, b)),
{
}

/// What the changed files pull in at one commit, file by file.
pub open spec fn hits_in_files(
    rows: Seq<RegionView>,
    fingerprint: Seq<char>,
    sha: Seq<char>,
    files: Seq<Seq<char>>,
    ranges: Map<Seq<char>, Seq<LineRange>>,
) -> Seq<HitView>
    decreases files.len(),
{
    if files.len() == 0 {
        Seq::empty()
    } else {
        hits_in_files(rows, fingerprint, sha, files.drop_last(), ranges) + crate::db::file_hits(
            crate::db::file_rows(rows, fingerprint, sha, files.last()),
            ranges[files.last()],
        )
    }
}

/// What the changes since the commits pull in, commit by commit.
pub open spec fn hits_at_shas(
    rows: Seq<RegionView>,
    fingerprint: Seq<char>,
    shas: Seq<Seq<char>>,
    ranges: RangesView,
) -> Seq<HitView>
    decreases shas.len(),
{
    if shas.len() == 0 {
        Seq::empty()
    } else {
        let sha = shas.last();
        hits_at_shas(rows, fingerprint, shas.drop_last(), ranges) + hits_in_files(
            rows,
            fingerprint,
            sha,
            crate::ordered::in_order::<String>(ranges[sha].dom()),
            ranges[sha],
        )
    }
}

/// Everything that a change pulls in, by commit, file and hunk.
pub open spec fn change_hits(regions: Set<RegionView>, fingerprint: Seq<char>, ranges: RangesView) -> Seq<HitView> {
    hits_at_shas(
        crate::ordered::in_order::<RegionRow>(regions),
        fingerprint,
        crate::ordered::in_order::<String>(ranges.dom()),
        ranges,
    )
}

/// Whether a change selects a test: a hunk of some file since some commit does.
pub open spec fn change_selects(
    regions: Set<RegionView>,
    fingerprint: Seq<char>,
    ranges: RangesView,
    test: TestIdView,
) -> bool {
    exists|sha: Seq<char>, file: Seq<char>| #[trigger]
        selects_at(regions, fingerprint, ranges, sha, file, test)
}

/// Whether the hunks of a file since a commit select a test.
pub open spec fn selects_at(
    regions: Set<RegionView>,
    fingerprint: Seq<char>,
    ranges: RangesView,
    sha: Seq<char>,
    file: Seq<char>,
    test: TestIdView,
) -> bool {
    &&& ranges.contains_key(sha)
    &&& ranges[sha].contains_key(file)
    &&& crate::db::covering_tests(regions, fingerprint, sha, file, ranges[sha][file]).contains(test)
}

/// Whether some hit belongs to a test.
pub open spec fn names_test(hits: Seq<HitView>, test: TestIdView) -> bool {
    exists|i: int| 0 <= i < hits.len() && (#[trigger] hits[i]).test == test
}

/// The tests of hits and further hits.
pub proof fn lemma_names_test_add(a: Seq<HitView>, b: Seq<HitView>, test: TestIdView)
    ensures
        names_test(a + b, test) <==> names_test(a, test) || names_test(b, test),
{
    let c = a + b;
    if names_test(c, test) {
        let i = choose|i: int| 0 <= i < c.len() && (#[trigger] c[i]).test == test;
        if i < a.len() {
            assert(a[i].test == test);
        } else {
            assert(b[i - a.len()].test == test);
        }
    }
    if names_test(a, test) {
        let i = choose|i: int| 0 <= i < a.len() && (#[trigger] a[i]).test == test;
        assert(c[i].test == test);
    }
    if names_test(b, test) {
        let i = choose|i: int| 0 <= i < b.len() && (#[trigger] b[i]).test == test;
        assert(c[a.len() + i].test == test);
    }
}

proof fn lemma_hits_in_files(
    regions: Set<RegionView>,
    rows: Seq<RegionView>,
    fingerprint: Seq<char>,
    sha: Seq<char>,
    files: Seq<Seq<char>>,
    ranges: Map<Seq<char>, Seq<LineRange>>,
    test: TestIdView,
)
    requires
        rows.to_set() == regions,
    ensures
        names_test(hits_in_files(rows, fingerprint, sha, files, ranges), test) <==> exists|i: int|
            0 <= i < files.len() && crate::db::covering_tests(
                regions,
                fingerprint,
                sha,
                #[trigger] files[i],
                ranges[files[i]],
            ).contains(test),
    decreases files.len(),
{
    if files.len() > 0 {
        let b = files.drop_last();
        let file = files.last();
        lemma_hits_in_files(regions, rows, fingerprint, sha, b, ranges, test);
        let own = crate::db::file_rows(rows, fingerprint, sha, file);
        crate::db::lemma_file_rows(rows, fingerprint, sha, file);
        assert forall|row: RegionView| #[trigger] own.contains(row) <==> regions.contains(row) && crate::db::row_in(
            row,
            fingerprint,
            sha,
            file,
        ) by {
            assert(regions.contains(row) == rows.contains(row));
        }
        crate::db::law_file_hits_name_covering_tests(regions, own, fingerprint, sha, file, ranges[file]);
        lemma_names_test_add(
            hits_in_files(rows, fingerprint, sha, b, ranges),
            crate::db::file_hits(own, ranges[file]),
            test,
        );
        assert(crate::db::covering_tests(regions, fingerprint, sha, file, ranges[file]).contains(test) <==> names_test(
            crate::db::file_hits(own, ranges[file]),
            test,
        ));
        if exists|i: int|
            0 <= i < b.len() && crate::db::covering_tests(regions, fingerprint, sha, #[trigger] b[i], ranges[b[i]]).contains(
                test,
            ) {
            let i = choose|i: int|
                0 <= i < b.len() && crate::db::covering_tests(
                    regions,
                    fingerprint,
                    sha,
                    #[trigger] b[i],
                    ranges[b[i]],
                ).contains(test);
            assert(files[i] == b[i]);
        }
        if exists|i: int|
            0 <= i < files.len() && crate::db::covering_tests(
                regions,
                fingerprint,
                sha,
                #[trigger] files[i],
                ranges[files[i]],
            ).contains(test) {
            let i = choose|i: int|
                0 <= i < files.len() && crate::db::covering_tests(
                    regions,
                    fingerprint,
                    sha,
                    #[trigger] files[i],
                    ranges[files[i]],
                ).contains(test);
            if i < b.len() {
                assert(b[i] == files[i]);
            }
        }
        assert(files[files.len() - 1] == file);
    }
}

proof fn lemma_hits_at_shas(
    regions: Set<RegionView>,
    rows: Seq<RegionView>,
    fingerprint: Seq<char>,
    shas: Seq<Seq<char>>,
    ranges: RangesView,
    test: TestIdView,
)
    requires
        rows.to_set() == regions,
        forall|i: int|
            0 <= i < shas.len() ==> crate::ordered::in_order::<String>(ranges[#[trigger] shas[i]].dom()).to_set()
                == ranges[shas[i]].dom(),
        forall|i: int| 0 <= i < shas.len() ==> ranges.contains_key(#[trigger] shas[i]),
    ensures
        names_test(hits_at_shas(rows, fingerprint, shas, ranges), test) <==> exists|i: int, file: Seq<char>|
            0 <= i < shas.len() && #[trigger] selects_at(regions, fingerprint, ranges, shas[i], file, test),
    decreases shas.len(),
{
    if shas.len() > 0 {
        let b = shas.drop_last();
        let sha = shas.last();
        assert forall|i: int| 0 <= i < b.len() implies ranges.contains_key(#[trigger] b[i])
            && crate::ordered::in_order::<String>(ranges[b[i]].dom()).to_set() == ranges[b[i]].dom() by {
            assert(shas[i] == b[i]);
        }
        lemma_hits_at_shas(regions, rows, fingerprint, b, ranges, test);
        assert(shas[shas.len() - 1] == sha);
        let files = crate::ordered::in_order::<String>(ranges[sha].dom());
        lemma_hits_in_files(regions, rows, fingerprint, sha, files, ranges[sha], test);
        let own = hits_in_files(rows, fingerprint, sha, files, ranges[sha]);
        lemma_names_test_add(hits_at_shas(rows, fingerprint, b, ranges), own, test);
        assert(names_test(own, test) <==> exists|file: Seq<char>| #[trigger]
            selects_at(regions, fingerprint, ranges, sha, file, test)) by {
            if names_test(own, test) {
                let i = choose|i: int|
                    0 <= i < files.len() && crate::db::covering_tests(
                        regions,
                        fingerprint,
                        sha,
                        #[trigger] files[i],
                        ranges[sha][files[i]],
                    ).contains(test);
                assert(files.to_set().contains(files[i]));
                assert(selects_at(regions, fingerprint, ranges, sha, files[i], test));
            }
            if exists|file: Seq<char>| #[trigger] selects_at(regions, fingerprint, ranges, sha, file, test) {
                let file = choose|file: Seq<char>| #[trigger]
                    selects_at(regions, fingerprint, ranges, sha, file, test);
                assert(files.to_set().contains(file));
                let i = choose|i: int| 0 <= i < files.len() && files[i] == file;
                assert(files[i] == file);
            }
        }
        if exists|i: int, file: Seq<char>|
            0 <= i < b.len() && #[trigger] selects_at(regions, fingerprint, ranges, b[i], file, test) {
            let (i, file) = choose|i: int, file: Seq<char>|
                0 <= i < b.len() && #[trigger] selects_at(regions, fingerprint, ranges, b[i], file, test);
            assert(selects_at(regions, fingerprint, ranges, shas[i], file, test));
        }
        if exists|i: int, file: Seq<char>|
            0 <= i < shas.len() && #[trigger] selects_at(regions, fingerprint, ranges, shas[i], file, test) {
            let (i, file) = choose|i: int, file: Seq<char>|
                0 <= i < shas.len() && #[trigger] selects_at(regions, fingerprint, ranges, shas[i], file, test);
            if i < b.len() {
                assert(selects_at(regions, fingerprint, ranges, b[i], file, test));
            }
        }
        if exists|file: Seq<char>| #[trigger] selects_at(regions, fingerprint, ranges, sha, file, test) {
            let file = choose|file: Seq<char>| #[trigger] selects_at(regions, fingerprint, ranges, sha, file, test);
            assert(selects_at(regions, fingerprint, ranges, shas[shas.len() - 1], file, test));
        }
    }
}

/// Whether a map and each of the maps in it have finitely many keys.
pub open spec fn finite_ranges(ranges: RangesView) -> bool {
    ranges.dom().finite() && forall|sha: Seq<char>| #[trigger]
        ranges.contains_key(sha) ==> ranges[sha].dom().finite()
}

/// The hits of a change belong to exactly the tests that the change selects.
pub proof fn law_change_hits_name_selected_tests(
    regions: Set<RegionView>,
    fingerprint: Seq<char>,
    ranges: RangesView,
    test: TestIdView,
)
    requires
        regions.finite(),
        finite_ranges(ranges),
    ensures
        names_test(change_hits(regions, fingerprint, ranges), test) <==> change_selects(
            regions,
            fingerprint,
            ranges,
            test,
        ),
{
    let rows = crate::ordered::in_order::<RegionRow>(regions);
    crate::ordered::lemma_in_order_of::<RegionRow>(regions);
    let shas = crate::ordered::in_order::<String>(ranges.dom());
    crate::ordered::lemma_in_order_of::<String>(ranges.dom());
    assert forall|i: int| 0 <= i < shas.len() implies ranges.contains_key(#[trigger] shas[i])
        && crate::ordered::in_order::<String>(ranges[shas[i]].dom()).to_set() == ranges[shas[i]].dom() by {
        assert(shas.to_set().contains(shas[i]));
        crate::ordered::lemma_in_order_of::<String>(ranges[shas[i]].dom());
    }
    lemma_hits_at_shas(regions, rows, fingerprint, shas, ranges, test);
    if change_selects(regions, fingerprint, ranges, test) {
        let (sha, file) = choose|sha: Seq<char>, file: Seq<char>| #[trigger]
            selects_at(regions, fingerprint, ranges, sha, file, test);
        assert(shas.to_set().contains(sha));
        let i = choose|i: int| 0 <= i < shas.len() && shas[i] == sha;
        assert(selects_at(regions, fingerprint, ranges, shas[i], file, test));
    }
}

/// Appends what the changed files pull in at one commit.
fn push_hits_in_files(
    out: &mut Vec<Hit>,
    db: &Db,
    fingerprint: &str,
    sha: &str,
    ranges: &OrdMap<String, Vec<LineRange>>,
)
    ensures
        final(out).deep_view() == old(out).deep_view() + hits_in_files(
            crate::ordered::in_order::<RegionRow>(db@.regions),
            fingerprint@,
            sha@,
            crate::ordered::in_order::<String>(ranges@.dom()),
            ranges@,
        ),
{
    let entries = ranges.entries();
    let ghost files = ranges.keys();
    let ghost m = ranges@;
    let ghost rows = crate::ordered::in_order::<RegionRow>(db@.regions);
    let ghost start = out.deep_view();
    proof {
        crate::ordered::lemma_in_order::<String>(files);
        assert(files.take(0) =~= Seq::<Seq<char>>::empty());
        assert(start + Seq::<HitView>::empty() =~= start);
    }
    let mut i: usize = 0;
    while i < entries.len()
        invariant
            i <= entries.len(),
            entries.len() == files.len(),
            rows == crate::ordered::in_order::<RegionRow>(db@.regions),
            forall|j: int| 0 <= j < entries.len() ==> {
                &&& (#[trigger] entries@[j]).0@ == files[j]
                &&& m[files[j]] == entries@[j].1.deep_view()
            },
            out.deep_view() == start + hits_in_files(rows, fingerprint@, sha@, files.take(i as int), m),
        decreases entries.len() - i,
    {
        let ghost before = hits_in_files(rows, fingerprint@, sha@, files.take(i as int), m);
        let hits = db.hits_covering_ranges(fingerprint, sha, entries[i].0.as_str(), &entries[i].1);
        let ghost own = hits.deep_view();
        proof {
            assert(entries@[i as int].0@ == files[i as int]);
            assert(entries@[i as int].1@ =~= entries@[i as int].1.deep_view());
            assert(files.take(i + 1).drop_last() =~= files.take(i as int));
        }
        append_hits(out, hits);
        assert(start + before + own =~= start + (before + own));
        i += 1;
    }
    assert(files.take(i as int) =~= files);
}

/// Appends hits.
fn append_hits(out: &mut Vec<Hit>, hits: Vec<Hit>)
    ensures
        final(out).deep_view() == old(out).deep_view() + hits.deep_view(),
{
    let ghost start = out.deep_view();
    let ghost d = hits.deep_view();
    let mut i: usize = 0;
    assert(start + d.take(0) =~= start);
    while i < hits.len()
        invariant
            i <= hits.len(),
            d == hits.deep_view(),
            out.deep_view() == start + d.take(i as int),
        decreases hits.len() - i,
    {
        let ghost before = out.deep_view();
        assert(d[i as int] == hits@[i as int]@);
        out.push(hits[i].duplicate());
        assert(out.deep_view() =~= before.push(d[i as int]));
        assert(out.deep_view() =~= start + d.take(i + 1));
        i += 1;
    }
    assert(d.take(i as int) =~= d);
}

/// Everything that a change pulls in.
pub fn collect_change_hits(db: &Db, fingerprint: &str, ranges: &ChangedRangesBySha) -> (r: Vec<Hit>)
    ensures
        r.deep_view() == change_hits(db@.regions, fingerprint@, ranges@),
{
    let entries = ranges.entries();
    let ghost shas = ranges.keys();
    let ghost m = ranges@;
    let ghost rows = crate::ordered::in_order::<RegionRow>(db@.regions);
    let mut out: Vec<Hit> = Vec::new();
    proof {
        crate::ordered::lemma_in_order::<String>(shas);
        assert(shas.take(0) =~= Seq::<Seq<char>>::empty());
        assert(out.deep_view() =~= Seq::<HitView>::empty());
    }
    let mut i: usize = 0;
    while i < entries.len()
        invariant
            i <= entries.len(),
            entries.len() == shas.len(),
            rows == crate::ordered::in_order::<RegionRow>(db@.regions),
            forall|j: int| 0 <= j < entries.len() ==> {
                &&& (#[trigger] entries@[j]).0@ == shas[j]
                &&& m[shas[j]] == entries@[j].1@
            },
            out.deep_view() == hits_at_shas(rows, fingerprint@, shas.take(i as int), m),
        decreases entries.len() - i,
    {
        proof {
            assert(entries@[i as int].0@ == shas[i as int]);
            assert(shas.take(i + 1).drop_last() =~= shas.take(i as int));
        }
        push_hits_in_files(&mut out, db, fingerprint, entries[i].0.as_str(), &entries[i].1);
        i += 1;
    }
    assert(shas.take(i as int) =~= shas);
    out
}

/// The strongest kind of each test in each file, over the reasons in order.
pub open spec fn strongest_kinds(reasons: Seq<HitView>) -> Map<Seq<char>, Map<TestIdView, HitKind>>
    decreases reasons.len(),
{
    if reasons.len() == 0 {
        Map::empty()
    } else {
        let before = strongest_kinds(reasons.drop_last());
        let h = reasons.last();
        let in_file = if before.contains_key(h.reason.file) {
            before[h.reason.file]
        } else {
            Map::empty()
        };
        let kind = if in_file.contains_key(h.test) {
            stronger(in_file[h.test], h.reason.kind)
        } else {
            h.reason.kind
        };
        before.insert(h.reason.file, in_file.insert(h.test, kind))
    }
}

/// Counts a reason among the strongest ones.
fn add_reason(map: &mut OrdMap<String, OrdMap<TestId, HitKind>>, h: &Hit, Ghost(reasons): Ghost<Seq<HitView>>)
    requires
        old(map)@ == strongest_kinds(reasons),
    ensures
        final(map)@ == strongest_kinds(reasons.push(h@)),
{
    assert(reasons.push(h@).drop_last() =~= reasons);
    let mut in_file: OrdMap<TestId, HitKind> = match map.remove(&h.reason.file) {
        Some(m) => m,
        None => OrdMap::new(),
    };
    let kind = match in_file.get(&h.test_id) {
        Some(k) => strongest(*k, h.reason.kind),
        None => h.reason.kind,
    };
    in_file.insert(h.test_id.duplicate(), kind);
    map.insert(h.reason.file.clone(), in_file);
    assert(map@ =~= strongest_kinds(reasons.push(h@)));
}

/// The strongest kind of each test in each file.
pub fn strongest_by_file(reasons: &Vec<Hit>) -> (r: OrdMap<String, OrdMap<TestId, HitKind>>)
    ensures
        r@ == strongest_kinds(reasons.deep_view()),
{
    let ghost d = reasons.deep_view();
    let mut map: OrdMap<String, OrdMap<TestId, HitKind>> = OrdMap::new();
    let mut i: usize = 0;
    assert(d.take(0) =~= Seq::<HitView>::empty());
    while i < reasons.len()
        invariant
            i <= reasons.len(),
            d == reasons.deep_view(),
            map@ == strongest_kinds(d.take(i as int)),
        decreases reasons.len() - i,
    {
        assert(d[i as int] == reasons@[i as int]@);
        assert(d.take(i + 1) =~= d.take(i as int).push(d[i as int]));
        add_reason(&mut map, &reasons[i], Ghost(d.take(i as int)));
        i += 1;
    }
    assert(d.take(i as int) =~= d);
    map
}

/// How the tests that a changed file pulled in got there. Each test counts once, by its strongest
/// reason.
#[derive(Debug, Clone, Copy, PartialEq, Eq, Structural)]
pub struct FileReasonCounts {
    pub line_overlap: usize,
    pub structural_backstop: usize,
    pub crate_root_sentinel: usize,
    pub config_rule: usize,
    pub total_unique_tests: usize,
}

impl View for FileReasonCounts {
    type V = FileReasonCounts;

    open spec fn view(&self) -> FileReasonCounts {
        *self
    }
}

impl DeepView for FileReasonCounts {
    type V = FileReasonCounts;

    open spec fn deep_view(&self) -> FileReasonCounts {
        *self
    }
}

/// The tests with a kind.
pub open spec fn tests_of_kind(kinds: Map<TestIdView, HitKind>, kind: HitKind) -> Set<TestIdView> {
    kinds.dom().filter(|t: TestIdView| kinds[t] == kind)
}

/// Whether these are the counts of a file.
pub open spec fn counts_kinds(kinds: Map<TestIdView, HitKind>, c: FileReasonCounts) -> bool {
    &&& c.line_overlap == tests_of_kind(kinds, HitKind::LineOverlap).len()
    &&& c.structural_backstop == tests_of_kind(kinds, HitKind::StructuralBackstop).len()
    &&& c.crate_root_sentinel == tests_of_kind(kinds, HitKind::CrateRootSentinel).len()
    &&& c.config_rule == tests_of_kind(kinds, HitKind::ConfigRule).len()
    &&& c.total_unique_tests == kinds.dom().len()
}

/// Whether these are the counts of all files.
pub open spec fn counts_files(
    kinds: Map<Seq<char>, Map<TestIdView, HitKind>>,
    counts: Map<Seq<char>, FileReasonCounts>,
) -> bool {
    &&& counts.dom() == kinds.dom()
    &&& forall|f: Seq<char>| #[trigger] kinds.contains_key(f) ==> counts_kinds(kinds[f], counts[f])
}

/// The counts of a file sum to its number of tests.
pub proof fn law_counts_sum_to_total(kinds: Map<TestIdView, HitKind>, c: FileReasonCounts)
    requires
        kinds.dom().finite(),
        counts_kinds(kinds, c),
    ensures
        c.line_overlap + c.structural_backstop + c.crate_root_sentinel + c.config_rule == c.total_unique_tests,
{
    let a = tests_of_kind(kinds, HitKind::LineOverlap);
    let b = tests_of_kind(kinds, HitKind::StructuralBackstop);
    let d = tests_of_kind(kinds, HitKind::CrateRootSentinel);
    let e = tests_of_kind(kinds, HitKind::ConfigRule);
    vstd::set_lib::lemma_set_disjoint_lens(a, b);
    vstd::set_lib::lemma_set_disjoint_lens(a + b, d);
    vstd::set_lib::lemma_set_disjoint_lens(a + b + d, e);
    assert(a + b + d + e =~= kinds.dom());
}

/// How many tests have a kind.
fn count_kind(kinds: &OrdMap<TestId, HitKind>, kind: HitKind) -> (r: usize)
    ensures
        r == tests_of_kind(kinds@, kind).len(),
{
    let entries = kinds.entries();
    let ghost keys = kinds.keys();
    let ghost m = kinds@;
    let ghost p = |t: TestIdView| m[t] == kind;
    let mut n: usize = 0;
    let mut i: usize = 0;
    assert(keys.take(0).filter(p).len() == 0) by {
        reveal(Seq::filter);
    }
    while i < entries.len()
        invariant
            n <= i <= entries.len(),
            entries.len() == keys.len(),
            p == (|t: TestIdView| m[t] == kind),
            forall|j: int| 0 <= j < entries.len() ==> {
                &&& (#[trigger] entries@[j]).0@ == keys[j]
                &&& m[keys[j]] == entries@[j].1
            },
            n == keys.take(i as int).filter(p).len(),
        decreases entries.len() - i,
    {
        proof {
            assert(entries@[i as int].0@ == keys[i as int]);
            assert(keys.take(i + 1) =~= keys.take(i as int).push(keys[i as int]));
            keys.take(i as int).lemma_filter_push(keys[i as int], p);
        }
        if entries[i].1 == kind {
            n += 1;
        }
        i += 1;
    }
    proof {
        assert(keys.take(i as int) =~= keys);
        crate::ordered::lemma_filter_count::<TestId>(keys, p);
        assert(tests_of_kind(m, kind) =~= keys.to_set().filter(p));
    }
    n
}

/// The counts of each changed file. Each test counts once per file, by its strongest reason.
pub fn aggregate_per_file_counts(strongest_per_file_test: &OrdMap<String, OrdMap<TestId, HitKind>>) -> (r: OrdMap<
    String,
    FileReasonCounts,
>)
    ensures
        counts_files(strongest_per_file_test@, r@),
{
    let entries = strongest_per_file_test.entries();
    let ghost keys = strongest_per_file_test.keys();
    let ghost m = strongest_per_file_test@;
    let mut out: OrdMap<String, FileReasonCounts> = OrdMap::new();
    let mut i: usize = 0;
    assert(out@.dom() =~= keys.take(0).to_set());
    while i < entries.len()
        invariant
            i <= entries.len(),
            entries.len() == keys.len(),
            forall|j: int| 0 <= j < entries.len() ==> {
                &&& (#[trigger] entries@[j]).0@ == keys[j]
                &&& m[keys[j]] == entries@[j].1@
            },
            out@.dom() == keys.take(i as int).to_set(),
            forall|f: Seq<char>| #[trigger] out@.contains_key(f) ==> counts_kinds(m[f], out@[f]),
        decreases entries.len() - i,
    {
        let kinds = &entries[i].1;
        assert(entries@[i as int].0@ == keys[i as int]);
        let counts = FileReasonCounts {
            line_overlap: count_kind(kinds, HitKind::LineOverlap),
            structural_backstop: count_kind(kinds, HitKind::StructuralBackstop),
            crate_root_sentinel: count_kind(kinds, HitKind::CrateRootSentinel),
            config_rule: count_kind(kinds, HitKind::ConfigRule),
            total_unique_tests: kinds.len(),
        };
        out.insert(entries[i].0.clone(), counts);
        proof {
            assert(keys.take(i + 1) =~= keys.take(i as int).push(keys[i as int]));
            keys.take(i as int).lemma_push_to_set_commute(keys[i as int]);
            assert(out@.dom() =~= keys.take(i + 1).to_set());
        }
        i += 1;
    }
    assert(keys.take(i as int) =~= keys);
    assert(out@.dom() =~= m.dom());
    out
}

/// The tests and reasons of hits.
pub open spec fn reason_pairs(reasons: Seq<HitView>) -> Seq<(TestIdView, HitReasonView)> {
    reasons.map_values(|h: HitView| (h.test, h.reason))
}

/// The reasons of each test, in order.
pub open spec fn test_reasons(reasons: Seq<HitView>) -> Map<TestIdView, Seq<HitReasonView>> {
    Map::new(
        |t: TestIdView| names_test(reasons, t),
        |t: TestIdView| crate::ordered::values_of(reason_pairs(reasons), t),
    )
}

/// A test without hits has no reasons.
proof fn lemma_no_reasons(reasons: Seq<HitView>, t: TestIdView)
    requires
        !names_test(reasons, t),
    ensures
        crate::ordered::values_of(reason_pairs(reasons), t) == Seq::<HitReasonView>::empty(),
    decreases reasons.len(),
{
    if reasons.len() > 0 {
        let b = reasons.drop_last();
        assert(reason_pairs(reasons).drop_last() =~= reason_pairs(b));
        assert(reasons[reasons.len() - 1] == reasons.last());
        assert(!names_test(b, t)) by {
            if names_test(b, t) {
                let i = choose|i: int| 0 <= i < b.len() && (#[trigger] b[i]).test == t;
                assert(reasons[i].test == t);
            }
        }
        lemma_no_reasons(b, t);
    }
}

/// The reasons of each test.
pub fn reasons_by_test(reasons: &Vec<Hit>) -> (r: OrdMap<TestId, Vec<HitReason>>)
    ensures
        r@ == test_reasons(reasons.deep_view()),
{
    let ghost d = reasons.deep_view();
    let mut map: OrdMap<TestId, Vec<HitReason>> = OrdMap::new();
    let mut i: usize = 0;
    assert(map@ =~= test_reasons(d.take(0)));
    while i < reasons.len()
        invariant
            i <= reasons.len(),
            d == reasons.deep_view(),
            map@ == test_reasons(d.take(i as int)),
        decreases reasons.len() - i,
    {
        let h = &reasons[i];
        let ghost t = d.take(i as int);
        let ghost n = d.take(i + 1);
        let ghost m0 = map@;
        assert(d[i as int] == h@);
        let mut list: Vec<HitReason> = match map.remove(&h.test_id) {
            Some(v) => v,
            None => {
                let v: Vec<HitReason> = Vec::new();
                proof {
                    lemma_no_reasons(t, h@.test);
                    assert(v.deep_view() =~= Seq::<HitReasonView>::empty());
                }
                v
            },
        };
        let ghost before = list.deep_view();
        assert(before == crate::ordered::values_of(reason_pairs(t), h@.test));
        list.push(h.reason.duplicate());
        assert(list.deep_view() =~= before.push(h@.reason));
        map.insert(h.test_id.duplicate(), list);
        proof {
            assert(reason_pairs(n).drop_last() =~= reason_pairs(t));
            assert(reason_pairs(n).last() == (h@.test, h@.reason));
            assert forall|x: TestIdView| names_test(n, x) <==> names_test(t, x) || x == h@.test by {
                if names_test(t, x) {
                    let k = choose|k: int| 0 <= k < t.len() && (#[trigger] t[k]).test == x;
                    assert(n[k].test == x);
                }
                if names_test(n, x) {
                    let k = choose|k: int| 0 <= k < n.len() && (#[trigger] n[k]).test == x;
                    if k < t.len() {
                        assert(t[k].test == x);
                    }
                }
                assert(n[i as int] == h@);
            }
            assert(map@ =~= test_reasons(n));
        }
        i += 1;
    }
    assert(d.take(i as int) =~= d);
    map
}

} // verus!

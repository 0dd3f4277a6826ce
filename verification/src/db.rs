//! Storage of test-to-function-range coverage mappings.
//!
//! Tables:
//! - `test_regions`: `(binary_id, test_name, source_file, line_start, line_end,
//!   env_fingerprint, collect_sha)` rows, one per hit function per test, per covered file. The
//!   whole row is the primary key. `collect_sha` is the git HEAD at the time the row's coverage
//!   was observed; hunks of a diff against that sha are in the row's coordinate system.
//! - `fingerprints`: when each fingerprint was last used. Drives LRU eviction.
//! - `fingerprint_components`: per-fingerprint per-input hashes, which answer "which input
//!   changed?".
//! - `meta`: when coverage was last collected.
//!
//! Every query is scoped to the caller's fingerprint, so a mismatch reads as "no data".

use vstd::prelude::*;
use crate::coverage::{HitRange, HitRangeView};
use crate::diff::LineRange;
use crate::fingerprint::FingerprintComponent;
use crate::ordered::{Key, OrdMap, OrdSet};
use crate::text::{same_text, text_is_before};

verus! {

/// Identifier for a single test: nextest's stable `binary_id` (e.g. `mock-stub::builds`) paired
/// with the test name inside that binary.
#[derive(Debug, Clone, PartialEq, Eq, Hash, PartialOrd, Ord)]
pub struct TestId {
    pub binary_id: String,
    pub test_name: String,
}

/// The value of a [`TestId`]: the binary id and the test name.
pub type TestIdView = (Seq<char>, Seq<char>);

impl View for TestId {
    type V = TestIdView;

    open spec fn view(&self) -> TestIdView {
        (self.binary_id@, self.test_name@)
    }
}

impl DeepView for TestId {
    type V = TestIdView;

    open spec fn deep_view(&self) -> TestIdView {
        self@
    }
}

impl TestId {
    pub fn new(binary_id: &str, test_name: &str) -> (r: Self)
        ensures
            r@ == (binary_id@, test_name@),
    {
        TestId { binary_id: binary_id.to_owned(), test_name: test_name.to_owned() }
    }

    /// Whether two ids name the same test.
    pub fn same(&self, other: &Self) -> (r: bool)
        ensures
            r == (self@ == other@),
    {
        same_text(self.binary_id.as_str(), other.binary_id.as_str()) && same_text(
            self.test_name.as_str(),
            other.test_name.as_str(),
        )
    }
}

/// Tests sort by binary id, then by name.
impl Key for TestId {
    open spec fn before(a: TestIdView, b: TestIdView) -> bool {
        <(String, String) as Key>::before(a, b)
    }

    proof fn before_irreflexive(a: TestIdView) {
        <(String, String) as Key>::before_irreflexive(a);
    }

    proof fn before_transitive(a: TestIdView, b: TestIdView, c: TestIdView) {
        <(String, String) as Key>::before_transitive(a, b, c);
    }

    proof fn before_total(a: TestIdView, b: TestIdView) {
        <(String, String) as Key>::before_total(a, b);
    }

    fn is_before(&self, other: &Self) -> (r: bool) {
        proof {
            <String as Key>::before_irreflexive(self.binary_id@);
        }
        if !same_text(self.binary_id.as_str(), other.binary_id.as_str()) {
            return text_is_before(self.binary_id.as_str(), other.binary_id.as_str());
        }
        text_is_before(self.test_name.as_str(), other.test_name.as_str())
    }

    fn duplicate(&self) -> (r: Self) {
        TestId { binary_id: self.binary_id.clone(), test_name: self.test_name.clone() }
    }
}

/// One `test_regions` row.
#[derive(Debug, PartialEq, Eq)]
pub struct RegionRow {
    pub test: TestId,
    pub source_file: String,
    pub line_start: i64,
    pub line_end: i64,
    pub env_fingerprint: String,
    pub collect_sha: String,
}

/// The value of a [`RegionRow`].
#[verifier::ext_equal]
pub struct RegionView {
    pub test: TestIdView,
    pub file: Seq<char>,
    pub start: i64,
    pub end: i64,
    pub fingerprint: Seq<char>,
    pub sha: Seq<char>,
}

impl View for RegionRow {
    type V = RegionView;

    open spec fn view(&self) -> RegionView {
        RegionView {
            test: self.test@,
            file: self.source_file@,
            start: self.line_start,
            end: self.line_end,
            fingerprint: self.env_fingerprint@,
            sha: self.collect_sha@,
        }
    }
}

impl DeepView for RegionRow {
    type V = RegionView;

    open spec fn deep_view(&self) -> RegionView {
        self@
    }
}

/// The parts of a row in the order in which rows are kept.
pub open spec fn region_key(r: RegionView) -> (Seq<char>, (Seq<char>, (Seq<char>, (TestIdView, (i64, i64))))) {
    (r.fingerprint, (r.sha, (r.file, (r.test, (r.start, r.end)))))
}

/// Rows are kept by fingerprint, sha, file, test, and range.
impl Key for RegionRow {
    open spec fn before(a: RegionView, b: RegionView) -> bool {
        <(String, (String, (String, (TestId, (i64, i64))))) as Key>::before(region_key(a), region_key(b))
    }

    proof fn before_irreflexive(a: RegionView) {
        <(String, (String, (String, (TestId, (i64, i64))))) as Key>::before_irreflexive(region_key(a));
    }

    proof fn before_transitive(a: RegionView, b: RegionView, c: RegionView) {
        <(String, (String, (String, (TestId, (i64, i64))))) as Key>::before_transitive(
            region_key(a),
            region_key(b),
            region_key(c),
        );
    }

    proof fn before_total(a: RegionView, b: RegionView) {
        <(String, (String, (String, (TestId, (i64, i64))))) as Key>::before_total(region_key(a), region_key(b));
        if region_key(a) == region_key(b) {
            assert(a =~= b);
        }
    }

    fn is_before(&self, other: &Self) -> (r: bool) {
        proof {
            <String as Key>::before_irreflexive(self.env_fingerprint@);
            <String as Key>::before_irreflexive(self.collect_sha@);
            <String as Key>::before_irreflexive(self.source_file@);
            <TestId as Key>::before_irreflexive(self.test@);
        }
        if !same_text(self.env_fingerprint.as_str(), other.env_fingerprint.as_str()) {
            return text_is_before(self.env_fingerprint.as_str(), other.env_fingerprint.as_str());
        }
        if !same_text(self.collect_sha.as_str(), other.collect_sha.as_str()) {
            return text_is_before(self.collect_sha.as_str(), other.collect_sha.as_str());
        }
        if !same_text(self.source_file.as_str(), other.source_file.as_str()) {
            return text_is_before(self.source_file.as_str(), other.source_file.as_str());
        }
        if !self.test.same(&other.test) {
            return self.test.is_before(&other.test);
        }
        if self.line_start != other.line_start {
            return self.line_start < other.line_start;
        }
        self.line_end < other.line_end
    }

    fn duplicate(&self) -> (r: Self) {
        RegionRow {
            test: self.test.duplicate(),
            source_file: self.source_file.clone(),
            line_start: self.line_start,
            line_end: self.line_end,
            env_fingerprint: self.env_fingerprint.clone(),
            collect_sha: self.collect_sha.clone(),
        }
    }
}

/// How many distinct fingerprints to retain. [`Db::gc`] evicts the least recently used ones
/// beyond this cap, always keeping the caller's current one.
pub const FINGERPRINT_KEEP: usize = 10;

/// The coverage tables.
#[derive(Debug, PartialEq, Eq)]
pub struct Db {
    /// The `test_regions` rows.
    pub regions: OrdSet<RegionRow>,
    /// The `fingerprints` table: when each fingerprint was last used.
    pub fingerprints: OrdMap<String, String>,
    /// The `fingerprint_components` table: the hash of each fingerprint and label.
    pub components: OrdMap<(String, String), String>,
    /// When coverage was last collected.
    pub last_collected_at: Option<String>,
}

/// What the coverage tables hold.
#[verifier::ext_equal]
pub struct DbView {
    pub regions: Set<RegionView>,
    pub fingerprints: Map<Seq<char>, Seq<char>>,
    pub components: Map<(Seq<char>, Seq<char>), Seq<char>>,
    pub last_collected: Option<Seq<char>>,
}

impl View for Db {
    type V = DbView;

    open spec fn view(&self) -> DbView {
        DbView {
            regions: self.regions@,
            fingerprints: self.fingerprints@,
            components: self.components@,
            last_collected: self.last_collected_at.deep_view(),
        }
    }
}

/// Why a write was refused.
#[derive(Debug, Clone, Copy, PartialEq, Eq, Structural)]
pub enum DbError {
    /// Two components of one fingerprint carry the same label.
    DuplicateComponent,
}

/// The mapping at `i` says that `row`'s test hit `row`'s range.
pub open spec fn mapping_holds(m: Seq<(TestIdView, Set<HitRangeView>)>, row: RegionView, i: int) -> bool {
    &&& 0 <= i < m.len()
    &&& m[i].0 == row.test
    &&& m[i].1.contains(HitRangeView { file: row.file, line_start: row.start, line_end: row.end })
}

/// The rows of every `(test, range)` pair of `m`, anchored at `sha`.
pub open spec fn mapping_rows(
    fingerprint: Seq<char>,
    sha: Seq<char>,
    m: Seq<(TestIdView, Set<HitRangeView>)>,
) -> Set<RegionView> {
    Set::new(
        |row: RegionView|
            row.fingerprint == fingerprint && row.sha == sha && exists|i: int| #[trigger] mapping_holds(m, row, i),
    )
}

/// Whether `m` has an entry for `test`.
pub open spec fn mapping_tests(m: Seq<(TestIdView, Set<HitRangeView>)>) -> Set<TestIdView> {
    m.map_values(|e: (TestIdView, Set<HitRangeView>)| e.0).to_set()
}

/// No two components carry the same label.
pub open spec fn distinct_labels(components: Seq<(Seq<char>, Seq<char>)>) -> bool {
    forall|i: int, j: int|
        0 <= i < j < components.len() ==> (#[trigger] components[i]).0 != (#[trigger] components[j]).0
}

/// The components table with these rows added for `fingerprint`.
pub open spec fn components_added(
    table: Map<(Seq<char>, Seq<char>), Seq<char>>,
    fingerprint: Seq<char>,
    components: Seq<(Seq<char>, Seq<char>)>,
) -> Map<(Seq<char>, Seq<char>), Seq<char>>
    decreases components.len(),
{
    if components.len() == 0 {
        table
    } else {
        components_added(table, fingerprint, components.drop_last()).insert(
            (fingerprint, components.last().0),
            components.last().1,
        )
    }
}

/// The keys of component rows that belong to other fingerprints.
pub open spec fn keys_elsewhere(fingerprint: Seq<char>) -> Set<(Seq<char>, Seq<char>)> {
    Set::new(|k: (Seq<char>, Seq<char>)| k.0 != fingerprint)
}

/// The components table with the rows of `fingerprint` replaced.
pub open spec fn components_replaced(
    table: Map<(Seq<char>, Seq<char>), Seq<char>>,
    fingerprint: Seq<char>,
    components: Seq<(Seq<char>, Seq<char>)>,
) -> Map<(Seq<char>, Seq<char>), Seq<char>> {
    components_added(table.restrict(keys_elsewhere(fingerprint)), fingerprint, components)
}

/// The tables after a full collection under `fingerprint`.
pub open spec fn after_store(
    db: DbView,
    fingerprint: Seq<char>,
    components: Seq<(Seq<char>, Seq<char>)>,
    sha: Seq<char>,
    m: Seq<(TestIdView, Set<HitRangeView>)>,
    now: Seq<char>,
) -> DbView {
    DbView {
        regions: db.regions.filter(|r: RegionView| r.fingerprint != fingerprint).union(
            mapping_rows(fingerprint, sha, m),
        ),
        fingerprints: db.fingerprints.insert(fingerprint, now),
        components: components_replaced(db.components, fingerprint, components),
        last_collected: Some(now),
    }
}

/// The tables after a collection of just the tests of `m`.
pub open spec fn after_update(
    db: DbView,
    fingerprint: Seq<char>,
    components: Seq<(Seq<char>, Seq<char>)>,
    sha: Seq<char>,
    m: Seq<(TestIdView, Set<HitRangeView>)>,
    now: Seq<char>,
) -> DbView {
    DbView {
        regions: db.regions.filter(
            |r: RegionView| !(r.fingerprint == fingerprint && mapping_tests(m).contains(r.test)),
        ).union(mapping_rows(fingerprint, sha, m)),
        fingerprints: db.fingerprints.insert(fingerprint, now),
        components: components_replaced(db.components, fingerprint, components),
        last_collected: Some(now),
    }
}

spec fn range_rows(
    fingerprint: Seq<char>,
    sha: Seq<char>,
    test: TestIdView,
    ranges: Seq<HitRangeView>,
) -> Set<RegionView> {
    Set::new(
        |row: RegionView|
            row.fingerprint == fingerprint && row.sha == sha && row.test == test && ranges.contains(
                HitRangeView { file: row.file, line_start: row.start, line_end: row.end },
            ),
    )
}

/// Adds every `(test, range)` pair as a row anchored at `collect_sha`.
fn insert_mappings(
    regions: &mut OrdSet<RegionRow>,
    fingerprint: &str,
    collect_sha: &str,
    mappings: &Vec<(TestId, OrdSet<HitRange>)>,
)
    ensures
        final(regions)@ == old(regions)@.union(mapping_rows(fingerprint@, collect_sha@, mappings.deep_view())),
{
    let ghost m = mappings.deep_view();
    let ghost fp = fingerprint@;
    let ghost sha = collect_sha@;
    let mut i: usize = 0;
    proof {
        assert(m.take(0) =~= Seq::<(TestIdView, Set<HitRangeView>)>::empty());
        assert(regions@ =~= old(regions)@.union(mapping_rows(fp, sha, m.take(0))));
    }
    while i < mappings.len()
        invariant
            i <= mappings.len(),
            m == mappings.deep_view(),
            fp == fingerprint@,
            sha == collect_sha@,
            regions@ == old(regions)@.union(mapping_rows(fp, sha, m.take(i as int))),
        decreases mappings.len() - i,
    {
        let (test, ranges) = &mappings[i];
        let ghost start = regions@;
        let items = ranges.items();
        let ghost e = ranges.elems();
        let ghost pair = (test@, ranges@);
        assert(m[i as int] == pair);
        let mut j: usize = 0;
        assert(regions@ =~= start.union(range_rows(fp, sha, test@, e.take(0))));
        while j < items.len()
            invariant
                j <= items.len(),
                e == items.deep_view(),
                fp == fingerprint@,
                sha == collect_sha@,
                regions@ == start.union(range_rows(fp, sha, test@, e.take(j as int))),
            decreases items.len() - j,
        {
            let r = &items[j];
            let row = RegionRow {
                test: test.duplicate(),
                source_file: r.file.clone(),
                line_start: r.line_start,
                line_end: r.line_end,
                env_fingerprint: fingerprint.to_owned(),
                collect_sha: collect_sha.to_owned(),
            };
            let ghost rv = row@;
            regions.insert(row);
            proof {
                let hv = e[j as int];
                assert(hv == r@);
                let t0 = e.take(j as int);
                let t1 = e.take(j + 1);
                assert(t1 =~= t0.push(hv));
                assert forall|row: RegionView| #[trigger] range_rows(fp, sha, test@, e.take(j + 1)).contains(row) <==> (range_rows(fp, sha, test@, e.take(j as int)).contains(row) || row == rv) by {
                    let h = HitRangeView { file: row.file, line_start: row.start, line_end: row.end };
                    if t1.contains(h) {
                        let q = choose|q: int| 0 <= q < t1.len() && t1[q] == h;
                        if q < j {
                            assert(t0[q] == h);
                        } else {
                            assert(h == hv);
                            if range_rows(fp, sha, test@, e.take(j + 1)).contains(row) {
                                assert(row =~= rv);
                            }
                        }
                    }
                    if t0.contains(h) {
                        let q = choose|q: int| 0 <= q < t0.len() && t0[q] == h;
                        assert(t1[q] == h);
                    }
                    if row == rv {
                        assert(h =~= hv);
                        assert(t1[j as int] == hv);
                    }
                }
                assert(regions@ =~= start.union(range_rows(fp, sha, test@, e.take(j + 1))));
            }
            j += 1;
        }
        proof {
            assert(e.take(j as int) =~= e);
            let t0 = m.take(i as int);
            let t1 = m.take(i + 1);
            assert forall|row: RegionView| #[trigger] mapping_rows(fp, sha, t1).contains(row) <==> (mapping_rows(fp, sha, t0).contains(
                row,
            ) || range_rows(fp, sha, test@, e.take(j as int)).contains(row)) by {
                if mapping_rows(fp, sha, t1).contains(row) {
                    let q = choose|q: int| #[trigger] mapping_holds(t1, row, q);
                    if q < i {
                        assert(t1[q] == t0[q]);
                        assert(mapping_holds(t0, row, q));
                    }
                }
                if mapping_rows(fp, sha, t0).contains(row) {
                    let q = choose|q: int| #[trigger] mapping_holds(t0, row, q);
                    assert(t1[q] == t0[q]);
                    assert(mapping_holds(t1, row, q));
                }
                if range_rows(fp, sha, test@, e.take(j as int)).contains(row) {
                    assert(t1[i as int] == pair);
                    assert(mapping_holds(t1, row, i as int));
                }
            }
            assert(regions@ =~= old(regions)@.union(mapping_rows(fp, sha, t1)));
        }
        i += 1;
    }
    assert(m.take(i as int) =~= m);
}

/// Whether no two components carry the same label.
fn labels_distinct(components: &Vec<FingerprintComponent>) -> (r: bool)
    ensures
        r == distinct_labels(components.deep_view()),
{
    let ghost c = components.deep_view();
    let mut seen: OrdSet<String> = OrdSet::new();
    let mut i: usize = 0;
    while i < components.len()
        invariant
            i <= components.len(),
            c == components.deep_view(),
            forall|l: Seq<char>| #[trigger] seen@.contains(l) <==> exists|k: int| 0 <= k < i && (#[trigger] c[k]).0 == l,
            forall|p: int, q: int| 0 <= p < q < i ==> (#[trigger] c[p]).0 != (#[trigger] c[q]).0,
        decreases components.len() - i,
    {
        let label = components[i].label.clone();
        assert(c[i as int].0 == label@);
        let ghost s0 = seen@;
        let fresh = seen.insert(label);
        if !fresh {
            proof {
                let k = choose|k: int| 0 <= k < i && (#[trigger] c[k]).0 == label@;
                assert(c[k].0 == c[i as int].0);
            }
            return false;
        }
        proof {
            assert forall|l: Seq<char>| #[trigger] seen@.contains(l) <==> exists|k: int|
                0 <= k < i + 1 && (#[trigger] c[k]).0 == l by {
                if s0.contains(l) {
                    let k = choose|k: int| 0 <= k < i && (#[trigger] c[k]).0 == l;
                    assert(c[k].0 == l);
                }
                if l == label@ {
                    assert(c[i as int].0 == l);
                }
                if exists|k: int| 0 <= k < i + 1 && (#[trigger] c[k]).0 == l {
                    let k = choose|k: int| 0 <= k < i + 1 && (#[trigger] c[k]).0 == l;
                    if k < i {
                        assert(s0.contains(l));
                    }
                }
            }
        }
        i += 1;
    }
    true
}

/// Replaces every component row of `fingerprint`.
fn upsert_components(
    table: &mut OrdMap<(String, String), String>,
    fingerprint: &str,
    components: &Vec<FingerprintComponent>,
)
    ensures
        final(table)@ == components_replaced(old(table)@, fingerprint@, components.deep_view()),
{
    let ghost c = components.deep_view();
    let mut taken: OrdMap<(String, String), String> = OrdMap::new();
    std::mem::swap(&mut taken, table);
    let elsewhere = |k: &(String, String)| -> (b: bool)
        ensures
            b == (k.deep_view().0 != fingerprint@),
        { !same_text(k.0.as_str(), fingerprint) };
    let mut kept = taken.retain_keys(elsewhere, Ghost(|k: (Seq<char>, Seq<char>)| k.0 != fingerprint@));
    let ghost base = kept@;
    assert(base =~= old(table)@.restrict(keys_elsewhere(fingerprint@)));
    let mut i: usize = 0;
    assert(c.take(0) =~= Seq::<(Seq<char>, Seq<char>)>::empty());
    while i < components.len()
        invariant
            i <= components.len(),
            c == components.deep_view(),
            kept@ == components_added(base, fingerprint@, c.take(i as int)),
        decreases components.len() - i,
    {
        kept.insert((fingerprint.to_owned(), components[i].label.clone()), components[i].hash.clone());
        proof {
            assert(c.take(i + 1).drop_last() =~= c.take(i as int));
            assert(c.take(i + 1).last() == components@[i as int]@);
        }
        i += 1;
    }
    assert(c.take(i as int) =~= c);
    std::mem::swap(table, &mut kept);
}

/// The tests of `mappings`.
fn tests_of(mappings: &Vec<(TestId, OrdSet<HitRange>)>) -> (r: OrdSet<TestId>)
    ensures
        r@ == mapping_tests(mappings.deep_view()),
{
    let ghost m = mappings.deep_view();
    let ghost keys = m.map_values(|e: (TestIdView, Set<HitRangeView>)| e.0);
    let mut out: OrdSet<TestId> = OrdSet::new();
    let mut i: usize = 0;
    assert(keys.take(0).to_set() =~= Set::<TestIdView>::empty());
    while i < mappings.len()
        invariant
            i <= mappings.len(),
            m == mappings.deep_view(),
            keys == m.map_values(|e: (TestIdView, Set<HitRangeView>)| e.0),
            out@ == keys.take(i as int).to_set(),
        decreases mappings.len() - i,
    {
        out.insert(mappings[i].0.duplicate());
        proof {
            assert(m[i as int].0 == mappings@[i as int].0@);
            assert(keys.take(i + 1) =~= keys.take(i as int).push(keys[i as int]));
            keys.take(i as int).lemma_push_to_set_commute(keys[i as int]);
        }
        i += 1;
    }
    assert(keys.take(i as int) =~= keys);
    out
}

impl Db {
    /// Empty tables.
    pub fn new() -> (r: Self)
        ensures
            r@ == empty_db(),
    {
        Db {
            regions: OrdSet::new(),
            fingerprints: OrdMap::new(),
            components: OrdMap::new(),
            last_collected_at: None,
        }
    }

    /// Replaces the coverage of `fingerprint` with a fresh collection, anchoring every new row at
    /// `collect_sha` (the git HEAD when the collection ran). `components` are the per-input
    /// hashes that make up the fingerprint. Rows of other fingerprints are left alone.
    pub fn store_coverage(
        &mut self,
        fingerprint: &str,
        components: &Vec<FingerprintComponent>,
        collect_sha: &str,
        mappings: &Vec<(TestId, OrdSet<HitRange>)>,
        now: &str,
    ) -> (r: Result<(), DbError>)
        ensures
            r is Ok <==> distinct_labels(components.deep_view()),
            r is Ok ==> final(self)@ == after_store(
                old(self)@,
                fingerprint@,
                components.deep_view(),
                collect_sha@,
                mappings.deep_view(),
                now@,
            ),
            r is Err ==> final(self)@ == old(self)@,
    {
        if !labels_distinct(components) {
            return Err(DbError::DuplicateComponent);
        }
        let elsewhere = |row: &RegionRow| -> (b: bool)
            ensures
                b == (row@.fingerprint != fingerprint@),
            { !same_text(row.env_fingerprint.as_str(), fingerprint) };
        self.regions.retain(elsewhere, Ghost(|row: RegionView| row.fingerprint != fingerprint@));
        insert_mappings(&mut self.regions, fingerprint, collect_sha, mappings);
        upsert_components(&mut self.components, fingerprint, components);
        self.fingerprints.insert(fingerprint.to_owned(), now.to_owned());
        self.last_collected_at = Some(now.to_owned());
        Ok(())
    }

    /// Replaces the coverage of just the tests in `mappings` (whatever sha they are anchored at)
    /// with rows anchored at `new_collect_sha`. Other tests' rows stay put.
    pub fn update_coverage_for_tests(
        &mut self,
        fingerprint: &str,
        components: &Vec<FingerprintComponent>,
        new_collect_sha: &str,
        mappings: &Vec<(TestId, OrdSet<HitRange>)>,
        now: &str,
    ) -> (r: Result<(), DbError>)
        ensures
            r is Ok <==> distinct_labels(components.deep_view()),
            r is Ok ==> final(self)@ == after_update(
                old(self)@,
                fingerprint@,
                components.deep_view(),
                new_collect_sha@,
                mappings.deep_view(),
                now@,
            ),
            r is Err ==> final(self)@ == old(self)@,
    {
        if !labels_distinct(components) {
            return Err(DbError::DuplicateComponent);
        }
        let rerun = tests_of(mappings);
        let ghost ts = mapping_tests(mappings.deep_view());
        let untouched = |row: &RegionRow| -> (b: bool)
            ensures
                b == !(row@.fingerprint == fingerprint@ && rerun@.contains(row@.test)),
            { !(same_text(row.env_fingerprint.as_str(), fingerprint) && rerun.contains(&row.test)) };
        self.regions.retain(
            untouched,
            Ghost(|row: RegionView| !(row.fingerprint == fingerprint@ && ts.contains(row.test))),
        );
        assert(self.regions@ =~= old(self)@.regions.filter(
            |r: RegionView|
                !(r.fingerprint == fingerprint@ && mapping_tests(mappings.deep_view()).contains(r.test)),
        ));
        insert_mappings(&mut self.regions, fingerprint, new_collect_sha, mappings);
        upsert_components(&mut self.components, fingerprint, components);
        self.fingerprints.insert(fingerprint.to_owned(), now.to_owned());
        self.last_collected_at = Some(now.to_owned());
        Ok(())
    }
}

/// Tables that hold nothing.
pub open spec fn empty_db() -> DbView {
    DbView {
        regions: Set::empty(),
        fingerprints: Map::empty(),
        components: Map::empty(),
        last_collected: None,
    }
}

/// How a changed hunk pulled a test in.
#[derive(Debug, Clone, Copy, PartialEq, Eq, PartialOrd, Ord, Hash, Structural)]
pub enum HitKind {
    /// The hunk overlaps a function range that the test hit.
    LineOverlap,
    /// The hunk overlaps no stored range of the file, and the test has rows for the file.
    StructuralBackstop,
    /// The hunk overlaps the sentinel row of a crate root.
    CrateRootSentinel,
    /// A configured input rule matched the file.
    ConfigRule,
}

impl View for HitKind {
    type V = HitKind;

    open spec fn view(&self) -> HitKind {
        *self
    }
}

impl DeepView for HitKind {
    type V = HitKind;

    open spec fn deep_view(&self) -> HitKind {
        *self
    }
}

/// Why one test was pulled in by one changed file.
#[derive(Debug, PartialEq, Eq)]
pub struct HitReason {
    /// The sha that the matched row is anchored at; empty for a config rule.
    pub collect_sha: String,
    pub file: String,
    pub kind: HitKind,
    /// The diff hunk that triggered the selection; `(0, 0)` for a config rule.
    pub matched_hunk: (i64, i64),
    /// The stored row that matched; nothing where no row matched.
    pub stored_range: Option<(i64, i64)>,
}

/// The value of a [`HitReason`].
#[verifier::ext_equal]
pub struct HitReasonView {
    pub collect_sha: Seq<char>,
    pub file: Seq<char>,
    pub kind: HitKind,
    pub matched_hunk: (i64, i64),
    pub stored_range: Option<(i64, i64)>,
}

impl View for HitReason {
    type V = HitReasonView;

    open spec fn view(&self) -> HitReasonView {
        HitReasonView {
            collect_sha: self.collect_sha@,
            file: self.file@,
            kind: self.kind,
            matched_hunk: self.matched_hunk,
            stored_range: self.stored_range,
        }
    }
}

impl DeepView for HitReason {
    type V = HitReasonView;

    open spec fn deep_view(&self) -> HitReasonView {
        self@
    }
}

impl HitReason {
    /// A copy of the reason.
    pub fn duplicate(&self) -> (r: Self)
        ensures
            r@ == self@,
    {
        HitReason {
            collect_sha: self.collect_sha.clone(),
            file: self.file.clone(),
            kind: self.kind,
            matched_hunk: self.matched_hunk,
            stored_range: self.stored_range,
        }
    }
}

/// One test pulled in by one hunk.
#[derive(Debug, PartialEq, Eq)]
pub struct Hit {
    pub test_id: TestId,
    pub reason: HitReason,
}

impl Hit {
    /// A copy of the hit.
    pub fn duplicate(&self) -> (r: Self)
        ensures
            r@ == self@,
    {
        Hit { test_id: self.test_id.duplicate(), reason: self.reason.duplicate() }
    }
}

/// The value of a [`Hit`].
#[verifier::ext_equal]
pub struct HitView {
    pub test: TestIdView,
    pub reason: HitReasonView,
}

impl View for Hit {
    type V = HitView;

    open spec fn view(&self) -> HitView {
        HitView { test: self.test_id@, reason: self.reason@ }
    }
}

impl DeepView for Hit {
    type V = HitView;

    open spec fn deep_view(&self) -> HitView {
        self@
    }
}

/// The closed intervals of the row and the hunk share a line.
pub open spec fn row_overlaps(row: RegionView, hunk: LineRange) -> bool {
    row.start <= hunk.end && row.end >= hunk.start
}

/// The row belongs to `file` at this fingerprint and sha.
pub open spec fn row_in(row: RegionView, fingerprint: Seq<char>, sha: Seq<char>, file: Seq<char>) -> bool {
    row.file == file && row.fingerprint == fingerprint && row.sha == sha
}

/// The hit of a row that a hunk overlaps.
pub open spec fn overlap_hit(row: RegionView, hunk: LineRange) -> HitView {
    HitView {
        test: row.test,
        reason: HitReasonView {
            collect_sha: row.sha,
            file: row.file,
            kind: if row.end == crate::coverage::CRATE_ROOT_SENTINEL_END {
                HitKind::CrateRootSentinel
            } else {
                HitKind::LineOverlap
            },
            matched_hunk: (hunk.start, hunk.end),
            stored_range: Some((row.start, row.end)),
        },
    }
}

/// The hit of a test with rows in a file where a hunk overlaps none.
pub open spec fn backstop_hit(row: RegionView, hunk: LineRange) -> HitView {
    HitView {
        test: row.test,
        reason: HitReasonView {
            collect_sha: row.sha,
            file: row.file,
            kind: HitKind::StructuralBackstop,
            matched_hunk: (hunk.start, hunk.end),
            stored_range: None,
        },
    }
}

/// Some row belongs to the test.
pub open spec fn has_test(rows: Seq<RegionView>, test: TestIdView) -> bool {
    exists|i: int| 0 <= i < rows.len() && (#[trigger] rows[i]).test == test
}

/// The first row of each test.
pub open spec fn first_rows(rows: Seq<RegionView>) -> Seq<RegionView>
    decreases rows.len(),
{
    if rows.len() == 0 {
        rows
    } else {
        let before = rows.drop_last();
        if has_test(before, rows.last().test) {
            first_rows(before)
        } else {
            first_rows(before).push(rows.last())
        }
    }
}

/// What one hunk pulls in of a file with these rows: the tests of the rows that it overlaps, or,
/// where it overlaps none, every test with a row.
pub open spec fn hunk_hits(rows: Seq<RegionView>, hunk: LineRange) -> Seq<HitView> {
    let over = rows.filter(|r: RegionView| row_overlaps(r, hunk));
    if over.len() > 0 {
        over.map_values(|r: RegionView| overlap_hit(r, hunk))
    } else {
        first_rows(rows).map_values(|r: RegionView| backstop_hit(r, hunk))
    }
}

/// What the hunks pull in, hunk by hunk.
pub open spec fn file_hits(rows: Seq<RegionView>, hunks: Seq<LineRange>) -> Seq<HitView>
    decreases hunks.len(),
{
    if hunks.len() == 0 {
        Seq::empty()
    } else {
        file_hits(rows, hunks.drop_last()) + hunk_hits(rows, hunks.last())
    }
}

/// Some row of the file overlaps the hunk.
pub open spec fn hunk_overlaps_some(
    regions: Set<RegionView>,
    fingerprint: Seq<char>,
    sha: Seq<char>,
    file: Seq<char>,
    hunk: LineRange,
) -> bool {
    exists|row: RegionView| #[trigger]
        regions.contains(row) && row_in(row, fingerprint, sha, file) && row_overlaps(row, hunk)
}

/// The hunk selects the test: by a row that it overlaps, or, where it overlaps no row of the
/// file, by any row of the file.
pub open spec fn hunk_selects(
    regions: Set<RegionView>,
    fingerprint: Seq<char>,
    sha: Seq<char>,
    file: Seq<char>,
    hunk: LineRange,
    test: TestIdView,
) -> bool {
    exists|row: RegionView| #[trigger]
        regions.contains(row) && row_in(row, fingerprint, sha, file) && row.test == test && (row_overlaps(row, hunk)
            || !hunk_overlaps_some(regions, fingerprint, sha, file, hunk))
}

/// The tests that some hunk selects.
pub open spec fn covering_tests(
    regions: Set<RegionView>,
    fingerprint: Seq<char>,
    sha: Seq<char>,
    file: Seq<char>,
    hunks: Seq<LineRange>,
) -> Set<TestIdView> {
    Set::new(
        |test: TestIdView|
            exists|i: int|
                0 <= i < hunks.len() && hunk_selects(regions, fingerprint, sha, file, #[trigger] hunks[i], test),
    )
}

/// The first rows of each test hold every test, and only rows of `rows`.
pub proof fn lemma_first_rows(rows: Seq<RegionView>)
    ensures
        forall|t: TestIdView| #[trigger] has_test(rows, t) <==> has_test(first_rows(rows), t),
        forall|row: RegionView| #[trigger] first_rows(rows).contains(row) ==> rows.contains(row),
    decreases rows.len(),
{
    if rows.len() > 0 {
        let before = rows.drop_last();
        let last = rows.last();
        lemma_first_rows(before);
        let f0 = first_rows(before);
        let f1 = first_rows(rows);
        assert forall|t: TestIdView| #[trigger] has_test(rows, t) <==> has_test(f1, t) by {
            if has_test(rows, t) {
                let i = choose|i: int| 0 <= i < rows.len() && (#[trigger] rows[i]).test == t;
                if i < before.len() {
                    assert(before[i].test == t);
                    assert(has_test(before, t));
                }
                if has_test(before, t) {
                    assert(has_test(f0, t));
                    let j = choose|j: int| 0 <= j < f0.len() && (#[trigger] f0[j]).test == t;
                    assert(f1[j].test == t);
                } else {
                    assert(f1[f1.len() - 1].test == t);
                }
            }
            if has_test(f1, t) {
                let j = choose|j: int| 0 <= j < f1.len() && (#[trigger] f1[j]).test == t;
                if j < f0.len() {
                    assert(f0[j].test == t);
                    assert(has_test(f0, t));
                    assert(has_test(before, t));
                    let i = choose|i: int| 0 <= i < before.len() && (#[trigger] before[i]).test == t;
                    assert(rows[i].test == t);
                } else {
                    assert(rows[rows.len() - 1].test == t);
                }
            }
        }
        assert forall|row: RegionView| #[trigger] f1.contains(row) implies rows.contains(row) by {
            let j = choose|j: int| 0 <= j < f1.len() && f1[j] == row;
            if j < f0.len() {
                assert(f0[j] == row);
                assert(f0.contains(row));
                let k = choose|k: int| 0 <= k < before.len() && before[k] == row;
                assert(rows[k] == row);
            } else {
                assert(rows[rows.len() - 1] == row);
            }
        }
    }
}

/// The hits of one hunk are hits of the tests that it selects.
proof fn lemma_hunk_hits(
    regions: Set<RegionView>,
    rows: Seq<RegionView>,
    fingerprint: Seq<char>,
    sha: Seq<char>,
    file: Seq<char>,
    hunk: LineRange,
)
    requires
        forall|row: RegionView| #[trigger]
            rows.contains(row) <==> regions.contains(row) && row_in(row, fingerprint, sha, file),
    ensures
        forall|t: TestIdView|
            hunk_selects(regions, fingerprint, sha, file, hunk, t) <==> exists|j: int|
                0 <= j < hunk_hits(rows, hunk).len() && (#[trigger] hunk_hits(rows, hunk)[j]).test == t,
        forall|j: int| 0 <= j < hunk_hits(rows, hunk).len() ==> {
            &&& (#[trigger] hunk_hits(rows, hunk)[j]).reason.collect_sha == sha
            &&& hunk_hits(rows, hunk)[j].reason.file == file
            &&& hunk_hits(rows, hunk)[j].reason.matched_hunk == (hunk.start, hunk.end)
        },
{
    let p = |r: RegionView| row_overlaps(r, hunk);
    let over = rows.filter(p);
    let hits = hunk_hits(rows, hunk);
    crate::ordered::lemma_filter_members(rows, p);
    lemma_first_rows(rows);
    let first = first_rows(rows);
    assert(hunk_overlaps_some(regions, fingerprint, sha, file, hunk) <==> over.len() > 0) by {
        if hunk_overlaps_some(regions, fingerprint, sha, file, hunk) {
            let row = choose|row: RegionView| #[trigger]
                regions.contains(row) && row_in(row, fingerprint, sha, file) && row_overlaps(row, hunk);
            assert(rows.contains(row));
            let k = choose|k: int| 0 <= k < rows.len() && rows[k] == row;
            assert(p(rows[k]));
            assert(over.contains(rows[k]));
        }
        if over.len() > 0 {
            assert(over.contains(over[0]));
            assert(rows.contains(over[0]));
            assert(regions.contains(over[0]));
        }
    }
    assert forall|t: TestIdView| hunk_selects(regions, fingerprint, sha, file, hunk, t) <==> exists|j: int|
        0 <= j < hits.len() && (#[trigger] hits[j]).test == t by {
        if hunk_selects(regions, fingerprint, sha, file, hunk, t) {
            let row = choose|row: RegionView| #[trigger]
                regions.contains(row) && row_in(row, fingerprint, sha, file) && row.test == t && (row_overlaps(
                    row,
                    hunk,
                ) || !hunk_overlaps_some(regions, fingerprint, sha, file, hunk));
            assert(rows.contains(row));
            let k = choose|k: int| 0 <= k < rows.len() && rows[k] == row;
            if over.len() > 0 {
                assert(p(rows[k]));
                assert(over.contains(rows[k]));
                let j = choose|j: int| 0 <= j < over.len() && over[j] == rows[k];
                assert(hits[j].test == t);
            } else {
                assert(has_test(rows, t));
                let j = choose|j: int| 0 <= j < first.len() && (#[trigger] first[j]).test == t;
                assert(hits[j].test == t);
            }
        }
        if exists|j: int| 0 <= j < hits.len() && (#[trigger] hits[j]).test == t {
            let j = choose|j: int| 0 <= j < hits.len() && (#[trigger] hits[j]).test == t;
            if over.len() > 0 {
                assert(over.contains(over[j]));
                assert(rows.contains(over[j]));
                assert(regions.contains(over[j]));
            } else {
                assert(first.contains(first[j]));
                assert(rows.contains(first[j]));
                assert(regions.contains(first[j]));
            }
        }
    }
    assert forall|j: int| 0 <= j < hits.len() implies {
        &&& (#[trigger] hits[j]).reason.collect_sha == sha
        &&& hits[j].reason.file == file
        &&& hits[j].reason.matched_hunk == (hunk.start, hunk.end)
    } by {
        if over.len() > 0 {
            assert(over.contains(over[j]));
            assert(rows.contains(over[j]));
        } else {
            assert(first.contains(first[j]));
            assert(rows.contains(first[j]));
        }
    }
}

/// The hits of a changed file name exactly the tests that its hunks select.
pub proof fn law_file_hits_name_covering_tests(
    regions: Set<RegionView>,
    rows: Seq<RegionView>,
    fingerprint: Seq<char>,
    sha: Seq<char>,
    file: Seq<char>,
    hunks: Seq<LineRange>,
)
    requires
        forall|row: RegionView| #[trigger]
            rows.contains(row) <==> regions.contains(row) && row_in(row, fingerprint, sha, file),
    ensures
        forall|t: TestIdView|
            covering_tests(regions, fingerprint, sha, file, hunks).contains(t) <==> exists|j: int|
                0 <= j < file_hits(rows, hunks).len() && (#[trigger] file_hits(rows, hunks)[j]).test == t,
        forall|j: int| 0 <= j < file_hits(rows, hunks).len() ==> {
            &&& (#[trigger] file_hits(rows, hunks)[j]).reason.collect_sha == sha
            &&& file_hits(rows, hunks)[j].reason.file == file
        },
    decreases hunks.len(),
{
    if hunks.len() > 0 {
        let h0 = hunks.drop_last();
        law_file_hits_name_covering_tests(regions, rows, fingerprint, sha, file, h0);
        lemma_hunk_hits(regions, rows, fingerprint, sha, file, hunks.last());
        let a = file_hits(rows, h0);
        let b = hunk_hits(rows, hunks.last());
        let c = file_hits(rows, hunks);
        assert(c =~= a + b);
        assert forall|t: TestIdView|
            covering_tests(regions, fingerprint, sha, file, hunks).contains(t) <==> exists|j: int|
                0 <= j < c.len() && (#[trigger] c[j]).test == t by {
            if covering_tests(regions, fingerprint, sha, file, hunks).contains(t) {
                let i = choose|i: int|
                    0 <= i < hunks.len() && hunk_selects(regions, fingerprint, sha, file, #[trigger] hunks[i], t);
                if i < h0.len() {
                    assert(h0[i] == hunks[i]);
                    assert(covering_tests(regions, fingerprint, sha, file, h0).contains(t));
                    let j = choose|j: int| 0 <= j < a.len() && (#[trigger] a[j]).test == t;
                    assert(c[j].test == t);
                } else {
                    let j = choose|j: int| 0 <= j < b.len() && (#[trigger] b[j]).test == t;
                    assert(c[a.len() + j].test == t);
                }
            }
            if exists|j: int| 0 <= j < c.len() && (#[trigger] c[j]).test == t {
                let j = choose|j: int| 0 <= j < c.len() && (#[trigger] c[j]).test == t;
                if j < a.len() {
                    assert(a[j].test == t);
                    assert(covering_tests(regions, fingerprint, sha, file, h0).contains(t));
                    let i = choose|i: int|
                        0 <= i < h0.len() && hunk_selects(regions, fingerprint, sha, file, #[trigger] h0[i], t);
                    assert(hunks[i] == h0[i]);
                } else {
                    assert(b[j - a.len()].test == t);
                    assert(hunk_selects(regions, fingerprint, sha, file, hunks[hunks.len() - 1], t));
                }
            }
        }
        assert forall|j: int| 0 <= j < c.len() implies {
            &&& (#[trigger] c[j]).reason.collect_sha == sha
            &&& c[j].reason.file == file
        } by {
            if j < a.len() {
                assert(a[j] == c[j]);
            } else {
                assert(b[j - a.len()] == c[j]);
            }
        }
    }
}

/// The rows of `file` at this fingerprint and sha, in the order in which they are kept.
pub open spec fn file_rows(
    all: Seq<RegionView>,
    fingerprint: Seq<char>,
    sha: Seq<char>,
    file: Seq<char>,
) -> Seq<RegionView> {
    all.filter(|r: RegionView| row_in(r, fingerprint, sha, file))
}

pub proof fn lemma_file_rows(all: Seq<RegionView>, fingerprint: Seq<char>, sha: Seq<char>, file: Seq<char>)
    ensures
        forall|row: RegionView| #[trigger]
            file_rows(all, fingerprint, sha, file).contains(row) <==> all.to_set().contains(row) && row_in(
                row,
                fingerprint,
                sha,
                file,
            ),
{
    crate::ordered::lemma_filter_members(all, |r: RegionView| row_in(r, fingerprint, sha, file));
}

/// Whether some row belongs to the test.
fn any_test(rows: &Vec<&RegionRow>, upto: usize, test: &TestId) -> (r: bool)
    requires
        upto <= rows.len(),
    ensures
        r == has_test(rows.deep_view().take(upto as int), test@),
{
    let ghost d = rows.deep_view();
    let mut i: usize = 0;
    while i < upto
        invariant
            i <= upto <= rows.len(),
            d == rows.deep_view(),
            forall|j: int| 0 <= j < i ==> (#[trigger] d[j]).test != test@,
        decreases upto - i,
    {
        assert(d[i as int] == rows@[i as int]@);
        if rows[i].test.same(test) {
            assert(d.take(upto as int)[i as int].test == test@);
            return true;
        }
        i += 1;
    }
    assert(!has_test(d.take(upto as int), test@)) by {
        if has_test(d.take(upto as int), test@) {
            let j = choose|j: int|
                0 <= j < d.take(upto as int).len() && (#[trigger] d.take(upto as int)[j]).test == test@;
            assert(d[j].test == test@);
        }
    }
    false
}

/// Appends what one hunk pulls in.
fn push_hunk_hits(out: &mut Vec<Hit>, rows: &Vec<&RegionRow>, hunk: LineRange)
    ensures
        final(out).deep_view() == old(out).deep_view() + hunk_hits(rows.deep_view(), hunk),
{
    let ghost d = rows.deep_view();
    let ghost p = |r: RegionView| row_overlaps(r, hunk);
    let ghost f = |r: RegionView| overlap_hit(r, hunk);
    let ghost g = |r: RegionView| backstop_hit(r, hunk);
    let ghost out0 = out.deep_view();
    let mut i: usize = 0;
    let mut found: bool = false;
    proof {
        assert(d.take(0).filter(p) =~= Seq::<RegionView>::empty()) by {
            reveal(Seq::filter);
        }
        assert(out.deep_view() =~= out0 + d.take(0).filter(p).map_values(f));
    }
    while i < rows.len()
        invariant
            i <= rows.len(),
            d == rows.deep_view(),
            p == (|r: RegionView| row_overlaps(r, hunk)),
            f == (|r: RegionView| overlap_hit(r, hunk)),
            out.deep_view() == out0 + d.take(i as int).filter(p).map_values(f),
            found == (d.take(i as int).filter(p).len() > 0),
        decreases rows.len() - i,
    {
        let row = rows[i];
        let ghost now = out.deep_view();
        proof {
            assert(d[i as int] == row@);
            assert(d.take(i + 1) =~= d.take(i as int).push(row@));
            d.take(i as int).lemma_filter_push(row@, p);
        }
        if row.line_start <= hunk.end && row.line_end >= hunk.start {
            let kind = if row.line_end == crate::coverage::CRATE_ROOT_SENTINEL_END {
                HitKind::CrateRootSentinel
            } else {
                HitKind::LineOverlap
            };
            let hit = Hit {
                test_id: row.test.duplicate(),
                reason: HitReason {
                    collect_sha: row.collect_sha.clone(),
                    file: row.source_file.clone(),
                    kind,
                    matched_hunk: (hunk.start, hunk.end),
                    stored_range: Some((row.line_start, row.line_end)),
                },
            };
            let ghost hv = hit@;
            assert(hv =~= overlap_hit(row@, hunk));
            out.push(hit);
            found = true;
            assert(out.deep_view() =~= now.push(hv));
            assert(d.take(i + 1).filter(p).map_values(f) =~= d.take(i as int).filter(p).map_values(f).push(hv));
        }
        i += 1;
    }
    assert(d.take(i as int) =~= d);
    if found {
        return ;
    }
    assert(d.filter(p).map_values(f) =~= Seq::<HitView>::empty());
    let mut k: usize = 0;
    assert(out.deep_view() =~= out0 + first_rows(d.take(0)).map_values(g));
    while k < rows.len()
        invariant
            k <= rows.len(),
            d == rows.deep_view(),
            g == (|r: RegionView| backstop_hit(r, hunk)),
            out.deep_view() == out0 + first_rows(d.take(k as int)).map_values(g),
        decreases rows.len() - k,
    {
        let row = rows[k];
        let ghost now = out.deep_view();
        proof {
            assert(d[k as int] == row@);
            assert(d.take(k + 1).drop_last() =~= d.take(k as int));
            assert(d.take(k + 1).last() == row@);
        }
        if !any_test(rows, k, &row.test) {
            let hit = Hit {
                test_id: row.test.duplicate(),
                reason: HitReason {
                    collect_sha: row.collect_sha.clone(),
                    file: row.source_file.clone(),
                    kind: HitKind::StructuralBackstop,
                    matched_hunk: (hunk.start, hunk.end),
                    stored_range: None,
                },
            };
            let ghost hv = hit@;
            assert(hv =~= backstop_hit(row@, hunk));
            out.push(hit);
            assert(out.deep_view() =~= now.push(hv));
            assert(first_rows(d.take(k + 1)).map_values(g) =~= first_rows(d.take(k as int)).map_values(g).push(hv));
        }
        k += 1;
    }
    assert(d.take(k as int) =~= d);
}

impl Db {
    /// What the hunks of `file` pull in under `(fingerprint, collect_sha)`, with the reason of
    /// each. Per hunk: the rows that it overlaps; if a hunk overlaps no stored range, every test
    /// with rows for this file at this sha (the backstop for struct-field, derive, const, use and
    /// mod edits).
    pub fn hits_covering_ranges(
        &self,
        fingerprint: &str,
        collect_sha: &str,
        file: &str,
        hunks: &Vec<LineRange>,
    ) -> (r: Vec<Hit>)
        ensures
            r.deep_view() == file_hits(
                file_rows(crate::ordered::in_order::<RegionRow>(self@.regions), fingerprint@, collect_sha@, file@),
                hunks@,
            ),
            forall|t: TestIdView|
                covering_tests(self@.regions, fingerprint@, collect_sha@, file@, hunks@).contains(t)
                    <==> exists|j: int| 0 <= j < r.len() && (#[trigger] r@[j])@.test == t,
    {
        let all = self.regions.items();
        let ghost e = self.regions.elems();
        let ghost p = |r: RegionView| row_in(r, fingerprint@, collect_sha@, file@);
        let mut rows: Vec<&RegionRow> = Vec::new();
        let mut i: usize = 0;
        proof {
            assert(rows.deep_view() =~= e.take(0).filter(p)) by {
                reveal(Seq::filter);
            }
        }
        while i < all.len()
            invariant
                i <= all.len(),
                e == all.deep_view(),
                p == (|r: RegionView| row_in(r, fingerprint@, collect_sha@, file@)),
                rows.deep_view() == e.take(i as int).filter(p),
            decreases all.len() - i,
        {
            let row = &all[i];
            let ghost d0 = rows.deep_view();
            proof {
                assert(e[i as int] == row@);
                assert(e.take(i + 1) =~= e.take(i as int).push(row@));
                e.take(i as int).lemma_filter_push(row@, p);
            }
            if same_text(row.source_file.as_str(), file) && same_text(row.env_fingerprint.as_str(), fingerprint)
                && same_text(row.collect_sha.as_str(), collect_sha) {
                rows.push(row);
                assert(rows.deep_view() =~= d0.push(row@));
            }
            i += 1;
        }
        assert(e.take(i as int) =~= e);
        let ghost d = rows.deep_view();
        let mut out: Vec<Hit> = Vec::new();
        let mut k: usize = 0;
        assert(out.deep_view() =~= file_hits(d, hunks@.take(0)));
        while k < hunks.len()
            invariant
                k <= hunks.len(),
                d == rows.deep_view(),
                out.deep_view() == file_hits(d, hunks@.take(k as int)),
            decreases hunks.len() - k,
        {
            push_hunk_hits(&mut out, &rows, hunks[k]);
            assert(hunks@.take(k + 1).drop_last() =~= hunks@.take(k as int));
            k += 1;
        }
        proof {
            assert(hunks@.take(k as int) =~= hunks@);
            lemma_file_rows(e, fingerprint@, collect_sha@, file@);
            crate::ordered::lemma_in_order::<RegionRow>(e);
            assert(d == file_rows(e, fingerprint@, collect_sha@, file@));
            assert(self@.regions == e.to_set());
            law_file_hits_name_covering_tests(self@.regions, d, fingerprint@, collect_sha@, file@, hunks@);
            let hv = out.deep_view();
            assert forall|t: TestIdView|
                covering_tests(self@.regions, fingerprint@, collect_sha@, file@, hunks@).contains(t)
                    <==> exists|j: int| 0 <= j < out.len() && (#[trigger] out@[j])@.test == t by {
                if covering_tests(self@.regions, fingerprint@, collect_sha@, file@, hunks@).contains(t) {
                    let j = choose|j: int| 0 <= j < hv.len() && (#[trigger] hv[j]).test == t;
                    assert(out@[j]@.test == t);
                }
                if exists|j: int| 0 <= j < out.len() && (#[trigger] out@[j])@.test == t {
                    let j = choose|j: int| 0 <= j < out.len() && (#[trigger] out@[j])@.test == t;
                    assert(hv[j].test == t);
                }
            }
        }
        out
    }

    /// Tests under `(fingerprint, collect_sha)` that overlap any of the given line ranges in
    /// `file`, with the per-hunk backstop of [`Db::hits_covering_ranges`].
    pub fn tests_covering_ranges(
        &self,
        fingerprint: &str,
        collect_sha: &str,
        file: &str,
        hunks: &Vec<LineRange>,
    ) -> (r: OrdSet<TestId>)
        ensures
            r@ == covering_tests(self@.regions, fingerprint@, collect_sha@, file@, hunks@),
    {
        let hits = self.hits_covering_ranges(fingerprint, collect_sha, file, hunks);
        let mut out: OrdSet<TestId> = OrdSet::new();
        let mut i: usize = 0;
        while i < hits.len()
            invariant
                i <= hits.len(),
                forall|t: TestIdView| #[trigger]
                    out@.contains(t) <==> exists|j: int| 0 <= j < i && (#[trigger] hits@[j])@.test == t,
            decreases hits.len() - i,
        {
            let ghost o = out@;
            out.insert(hits[i].test_id.duplicate());
            proof {
                assert forall|t: TestIdView| #[trigger] out@.contains(t) <==> exists|j: int|
                    0 <= j < i + 1 && (#[trigger] hits@[j])@.test == t by {
                    if o.contains(t) {
                        let j = choose|j: int| 0 <= j < i && (#[trigger] hits@[j])@.test == t;
                        assert(hits@[j]@.test == t);
                    }
                    if t == hits@[i as int]@.test {
                        assert(hits@[i as int]@.test == t);
                    }
                    if exists|j: int| 0 <= j < i + 1 && (#[trigger] hits@[j])@.test == t {
                        let j = choose|j: int| 0 <= j < i + 1 && (#[trigger] hits@[j])@.test == t;
                        if j < i {
                            assert(o.contains(t));
                        }
                    }
                }
            }
            i += 1;
        }
        assert(out@ =~= covering_tests(self@.regions, fingerprint@, collect_sha@, file@, hunks@));
        out
    }
}

/// The tests with a row under `fingerprint`.
pub open spec fn fingerprint_tests(regions: Set<RegionView>, fingerprint: Seq<char>) -> Set<TestIdView> {
    Set::new(
        |t: TestIdView|
            exists|row: RegionView| #[trigger]
                regions.contains(row) && row.fingerprint == fingerprint && row.test == t,
    )
}

/// The tests with a row under `fingerprint` anchored at one of `shas`.
pub open spec fn tests_at(regions: Set<RegionView>, fingerprint: Seq<char>, shas: Set<Seq<char>>) -> Set<TestIdView> {
    Set::new(
        |t: TestIdView|
            exists|row: RegionView| #[trigger]
                regions.contains(row) && row.fingerprint == fingerprint && shas.contains(row.sha) && row.test == t,
    )
}

/// The shas that rows under `fingerprint` are anchored at.
pub open spec fn fingerprint_shas(regions: Set<RegionView>, fingerprint: Seq<char>) -> Set<Seq<char>> {
    Set::new(
        |sha: Seq<char>|
            exists|row: RegionView| #[trigger]
                regions.contains(row) && row.fingerprint == fingerprint && row.sha == sha,
    )
}

/// The files with a row under `fingerprint` anchored at one of `shas`.
pub open spec fn files_at(regions: Set<RegionView>, fingerprint: Seq<char>, shas: Set<Seq<char>>) -> Set<Seq<char>> {
    Set::new(
        |file: Seq<char>|
            exists|row: RegionView| #[trigger]
                regions.contains(row) && row.fingerprint == fingerprint && shas.contains(row.sha) && row.file == file,
    )
}

/// Whether a file has a row under a fingerprint.
pub open spec fn is_covered(regions: Set<RegionView>, fingerprint: Seq<char>, file: Seq<char>) -> bool {
    exists|row: RegionView| #[trigger]
        regions.contains(row) && row.fingerprint == fingerprint && row.file == file
}

/// The tables after dropping the rows of tests under `fingerprint` that are not in `present`.
pub open spec fn after_prune(db: DbView, fingerprint: Seq<char>, present: Set<TestIdView>) -> DbView {
    DbView {
        regions: db.regions.filter(
            |r: RegionView| !(r.fingerprint == fingerprint && !present.contains(r.test)),
        ),
        ..db
    }
}

/// One stored fingerprint: its name, when it was last used, and its components.
#[derive(Debug, PartialEq, Eq)]
pub struct StoredFingerprintRow {
    pub fingerprint: String,
    pub last_seen: String,
    pub components: Vec<FingerprintComponent>,
}

/// The value of a [`StoredFingerprintRow`].
#[verifier::ext_equal]
pub struct StoredFingerprintView {
    pub fingerprint: Seq<char>,
    pub last_seen: Seq<char>,
    pub components: Seq<(Seq<char>, Seq<char>)>,
}

impl View for StoredFingerprintRow {
    type V = StoredFingerprintView;

    open spec fn view(&self) -> StoredFingerprintView {
        StoredFingerprintView {
            fingerprint: self.fingerprint@,
            last_seen: self.last_seen@,
            components: self.components.deep_view(),
        }
    }
}

impl DeepView for StoredFingerprintRow {
    type V = StoredFingerprintView;

    open spec fn deep_view(&self) -> StoredFingerprintView {
        self@
    }
}

impl StoredFingerprintRow {
    /// A copy of the row.
    pub fn duplicate(&self) -> (r: Self)
        ensures
            r@ == self@,
    {
        StoredFingerprintRow {
            fingerprint: self.fingerprint.clone(),
            last_seen: self.last_seen.clone(),
            components: crate::fingerprint::copy_components(&self.components),
        }
    }
}

/// The labels and hashes of a fingerprint, in the order of the table.
pub open spec fn component_list(
    table: Seq<((Seq<char>, Seq<char>), Seq<char>)>,
    fingerprint: Seq<char>,
) -> Seq<(Seq<char>, Seq<char>)>
    decreases table.len(),
{
    if table.len() == 0 {
        Seq::empty()
    } else {
        let before = component_list(table.drop_last(), fingerprint);
        if table.last().0.0 == fingerprint {
            before.push((table.last().0.1, table.last().1))
        } else {
            before
        }
    }
}

/// Every stored fingerprint with its components, in the order of the fingerprints.
pub open spec fn stored_rows(
    fingerprints: Map<Seq<char>, Seq<char>>,
    components: Map<(Seq<char>, Seq<char>), Seq<char>>,
) -> Seq<StoredFingerprintView> {
    crate::ordered::listed_pairs::<String, Seq<char>>(fingerprints).map_values(
        |p: (Seq<char>, Seq<char>)|
            StoredFingerprintView { fingerprint: p.0, last_seen: p.1, components: components_under(components, p.0) },
    )
}

/// The labels and hashes of a fingerprint, in the order of the labels.
pub open spec fn components_under(
    components: Map<(Seq<char>, Seq<char>), Seq<char>>,
    fingerprint: Seq<char>,
) -> Seq<(Seq<char>, Seq<char>)> {
    component_list(crate::ordered::listed_pairs::<(String, String), Seq<char>>(components), fingerprint)
}

impl Db {
    /// Distinct `collect_sha` values present for this fingerprint.
    pub fn collect_shas(&self, fingerprint: &str) -> (r: OrdSet<String>)
        ensures
            r@ == fingerprint_shas(self@.regions, fingerprint@),
    {
        let ghost g = |row: RegionView| if row.fingerprint == fingerprint@ {
            Some(row.sha)
        } else {
            None
        };
        let pick = |row: &RegionRow| -> (o: Option<String>)
            ensures
                o.deep_view() == (if row@.fingerprint == fingerprint@ {
                    Some(row@.sha)
                } else {
                    None
                }),
            {
                if same_text(row.env_fingerprint.as_str(), fingerprint) {
                    Some(row.collect_sha.clone())
                } else {
                    None
                }
            };
        let r = self.regions.select(pick, Ghost(g));
        assert(r@ =~= fingerprint_shas(self@.regions, fingerprint@));
        r
    }

    /// Every test tracked under the fingerprint.
    pub fn all_tests_for_fingerprint(&self, fingerprint: &str) -> (r: OrdSet<TestId>)
        ensures
            r@ == fingerprint_tests(self@.regions, fingerprint@),
    {
        let ghost g = |row: RegionView| if row.fingerprint == fingerprint@ {
            Some(row.test)
        } else {
            None
        };
        let pick = |row: &RegionRow| -> (o: Option<TestId>)
            ensures
                o.deep_view() == (if row@.fingerprint == fingerprint@ {
                    Some(row@.test)
                } else {
                    None
                }),
            {
                if same_text(row.env_fingerprint.as_str(), fingerprint) {
                    Some(row.test.duplicate())
                } else {
                    None
                }
            };
        let r = self.regions.select(pick, Ghost(g));
        assert(r@ =~= fingerprint_tests(self@.regions, fingerprint@));
        r
    }

    /// Tests under `fingerprint` whose rows are anchored at one of `shas`. Tests anchored only at
    /// other shas appear missing here.
    pub fn all_tests_at_shas(&self, fingerprint: &str, shas: &OrdSet<String>) -> (r: OrdSet<TestId>)
        ensures
            r@ == tests_at(self@.regions, fingerprint@, shas@),
    {
        let ghost g = |row: RegionView| if row.fingerprint == fingerprint@ && shas@.contains(row.sha) {
            Some(row.test)
        } else {
            None
        };
        let pick = |row: &RegionRow| -> (o: Option<TestId>)
            ensures
                o.deep_view() == (if row@.fingerprint == fingerprint@ && shas@.contains(row@.sha) {
                    Some(row@.test)
                } else {
                    None
                }),
            {
                if same_text(row.env_fingerprint.as_str(), fingerprint) && shas.contains(&row.collect_sha) {
                    Some(row.test.duplicate())
                } else {
                    None
                }
            };
        let r = self.regions.select(pick, Ghost(g));
        assert(r@ =~= tests_at(self@.regions, fingerprint@, shas@));
        r
    }

    /// Files with a row under `fingerprint` anchored at one of `shas`.
    pub fn tracked_files_at_shas(&self, fingerprint: &str, shas: &OrdSet<String>) -> (r: OrdSet<String>)
        ensures
            r@ == files_at(self@.regions, fingerprint@, shas@),
    {
        let ghost g = |row: RegionView| if row.fingerprint == fingerprint@ && shas@.contains(row.sha) {
            Some(row.file)
        } else {
            None
        };
        let pick = |row: &RegionRow| -> (o: Option<String>)
            ensures
                o.deep_view() == (if row@.fingerprint == fingerprint@ && shas@.contains(row@.sha) {
                    Some(row@.file)
                } else {
                    None
                }),
            {
                if same_text(row.env_fingerprint.as_str(), fingerprint) && shas.contains(&row.collect_sha) {
                    Some(row.source_file.clone())
                } else {
                    None
                }
            };
        let r = self.regions.select(pick, Ghost(g));
        assert(r@ =~= files_at(self@.regions, fingerprint@, shas@));
        r
    }

    /// Count of distinct tests tracked under the fingerprint.
    pub fn test_count(&self, fingerprint: &str) -> (r: usize)
        ensures
            r == fingerprint_tests(self@.regions, fingerprint@).len(),
            fingerprint_tests(self@.regions, fingerprint@).finite(),
    {
        self.all_tests_for_fingerprint(fingerprint).len()
    }

    /// Count of (test, file, range) rows under the fingerprint.
    pub fn region_count(&self, fingerprint: &str) -> (r: usize)
        ensures
            r == self@.regions.filter(|row: RegionView| row.fingerprint == fingerprint@).len(),
    {
        let here = |row: &RegionRow| -> (b: bool)
            ensures
                b == (row@.fingerprint == fingerprint@),
            { same_text(row.env_fingerprint.as_str(), fingerprint) };
        self.regions.count_where(here, Ghost(|row: RegionView| row.fingerprint == fingerprint@))
    }

    /// Count of rows under `fingerprint` whose sha is one of `shas`.
    pub fn region_count_at_shas(&self, fingerprint: &str, shas: &OrdSet<String>) -> (r: usize)
        ensures
            r == self@.regions.filter(
                |row: RegionView| row.fingerprint == fingerprint@ && shas@.contains(row.sha),
            ).len(),
    {
        let here = |row: &RegionRow| -> (b: bool)
            ensures
                b == (row@.fingerprint == fingerprint@ && shas@.contains(row@.sha)),
            { same_text(row.env_fingerprint.as_str(), fingerprint) && shas.contains(&row.collect_sha) };
        self.regions.count_where(
            here,
            Ghost(|row: RegionView| row.fingerprint == fingerprint@ && shas@.contains(row.sha)),
        )
    }

    /// Whether a source file has coverage data under the fingerprint.
    pub fn file_tracked(&self, fingerprint: &str, file: &str) -> (r: bool)
        ensures
            r == is_covered(self@.regions, fingerprint@, file@),
    {
        let v = self.regions.items();
        let ghost e = self.regions.elems();
        let mut i: usize = 0;
        while i < v.len()
            invariant
                i <= v.len(),
                e == v.deep_view(),
                e == self.regions.elems(),
                forall|j: int| 0 <= j < i ==> !((#[trigger] e[j]).fingerprint == fingerprint@ && e[j].file == file@),
            decreases v.len() - i,
        {
            assert(e[i as int] == v@[i as int]@);
            if same_text(v[i].env_fingerprint.as_str(), fingerprint) && same_text(v[i].source_file.as_str(), file) {
                assert(e.contains(e[i as int]));
                assert(self@.regions.contains(e[i as int]));
                return true;
            }
            i += 1;
        }
        proof {
            assert forall|row: RegionView| #[trigger] self@.regions.contains(row) implies !(row.fingerprint
                == fingerprint@ && row.file == file@) by {
                let j = choose|j: int| 0 <= j < e.len() && e[j] == row;
                assert(e[j] == row);
            }
        }
        false
    }

    /// Whether the tables hold any coverage at all, under any fingerprint.
    pub fn has_any_coverage(&self) -> (r: bool)
        ensures
            r == (self@.regions != Set::<RegionView>::empty()),
    {
        !self.regions.is_empty()
    }

    /// Count of distinct tracked fingerprints.
    pub fn fingerprint_count(&self) -> (r: usize)
        ensures
            r == self@.fingerprints.dom().len(),
    {
        self.fingerprints.len()
    }

    /// The last collection timestamp, if any.
    pub fn last_collected(&self) -> (r: Option<String>)
        ensures
            r.deep_view() == self@.last_collected,
    {
        match &self.last_collected_at {
            Some(t) => Some(t.clone()),
            None => None,
        }
    }

    /// Marks the fingerprint as used at `now`.
    pub fn touch(&mut self, fingerprint: &str, now: &str)
        ensures
            final(self)@ == (DbView {
                fingerprints: old(self)@.fingerprints.insert(fingerprint@, now@),
                ..old(self)@
            }),
    {
        self.fingerprints.insert(fingerprint.to_owned(), now.to_owned());
    }

    /// Removes all coverage data, of every fingerprint, and the collection time.
    pub fn clear(&mut self)
        ensures
            final(self)@ == empty_db(),
    {
        self.regions = OrdSet::new();
        self.fingerprints = OrdMap::new();
        self.components = OrdMap::new();
        self.last_collected_at = None;
    }

    /// Drops rows for tests under `fingerprint` that are not in `present`: tests that were
    /// renamed or deleted between collects. Returns the number of distinct tests pruned.
    pub fn prune_missing_tests(&mut self, fingerprint: &str, present: &OrdSet<TestId>) -> (r: usize)
        ensures
            final(self)@ == after_prune(old(self)@, fingerprint@, present@),
            r == fingerprint_tests(old(self)@.regions, fingerprint@).difference(present@).len(),
    {
        let mut dropped = self.all_tests_for_fingerprint(fingerprint);
        let absent = |t: &TestId| -> (b: bool)
            ensures
                b == !present@.contains(t@),
            { !present.contains(t) };
        dropped.retain(absent, Ghost(|t: TestIdView| !present@.contains(t)));
        assert(dropped@ =~= fingerprint_tests(self@.regions, fingerprint@).difference(present@));
        let stays = |row: &RegionRow| -> (b: bool)
            ensures
                b == !(row@.fingerprint == fingerprint@ && !present@.contains(row@.test)),
            { !(same_text(row.env_fingerprint.as_str(), fingerprint) && !present.contains(&row.test)) };
        self.regions.retain(
            stays,
            Ghost(|row: RegionView| !(row.fingerprint == fingerprint@ && !present@.contains(row.test))),
        );
        assert(self@ =~= after_prune(old(self)@, fingerprint@, present@));
        dropped.len()
    }

    /// Every stored fingerprint with its components, labels in order.
    pub fn stored_fingerprint_snapshots(&self) -> (r: Vec<StoredFingerprintRow>)
        ensures
            r.deep_view() == stored_rows(self@.fingerprints, self@.components),
    {
        let fps = self.fingerprints.entries();
        let ghost fp = self.fingerprints.pairs();
        let ghost cm = self@.components;
        let ghost f = |p: (Seq<char>, Seq<char>)|
            StoredFingerprintView { fingerprint: p.0, last_seen: p.1, components: components_under(cm, p.0) };
        proof {
            crate::ordered::lemma_listed_pairs::<String, Seq<char>>(fp);
        }
        let mut out: Vec<StoredFingerprintRow> = Vec::new();
        let mut i: usize = 0;
        assert(out.deep_view() =~= fp.take(0).map_values(f));
        while i < fps.len()
            invariant
                i <= fps.len(),
                fp == fps.deep_view(),
                cm == self@.components,
                f == (|p: (Seq<char>, Seq<char>)|
                    StoredFingerprintView { fingerprint: p.0, last_seen: p.1, components: components_under(cm, p.0) }),
                out.deep_view() == fp.take(i as int).map_values(f),
            decreases fps.len() - i,
        {
            let (name, seen) = &fps[i];
            assert(fp[i as int] == (name@, seen@));
            let components = self.components_of(name.as_str());
            let ghost before = out.deep_view();
            let row = StoredFingerprintRow { fingerprint: name.clone(), last_seen: seen.clone(), components };
            let ghost rv = row@;
            out.push(row);
            proof {
                assert(rv == f(fp[i as int]));
                assert(out.deep_view() =~= before.push(rv));
                assert(fp.take(i + 1).map_values(f) =~= fp.take(i as int).map_values(f).push(rv));
            }
            i += 1;
        }
        assert(fp.take(i as int) =~= fp);
        out
    }

    /// The components of one fingerprint, labels in order.
    pub fn components_of(&self, fingerprint: &str) -> (r: Vec<FingerprintComponent>)
        ensures
            r.deep_view() == components_under(self@.components, fingerprint@),
    {
        let comps = self.components.entries();
        let ghost cp = self.components.pairs();
        proof {
            crate::ordered::lemma_listed_pairs::<(String, String), Seq<char>>(cp);
        }
        let mut out: Vec<FingerprintComponent> = Vec::new();
        let mut i: usize = 0;
        assert(out.deep_view() =~= component_list(cp.take(0), fingerprint@));
        while i < comps.len()
            invariant
                i <= comps.len(),
                cp == comps.deep_view(),
                out.deep_view() == component_list(cp.take(i as int), fingerprint@),
            decreases comps.len() - i,
        {
            let (key, hash) = &comps[i];
            let ghost before = out.deep_view();
            proof {
                assert(cp[i as int] == ((key.0@, key.1@), hash@));
                assert(cp.take(i + 1).drop_last() =~= cp.take(i as int));
                assert(cp.take(i + 1).last() == cp[i as int]);
            }
            if same_text(key.0.as_str(), fingerprint) {
                let c = FingerprintComponent { label: key.1.clone(), hash: hash.clone() };
                let ghost cv = c@;
                out.push(c);
                assert(out.deep_view() =~= before.push(cv));
            }
            i += 1;
        }
        assert(cp.take(i as int) =~= cp);
        out
    }

    /// How many rows under `fingerprint` are anchored at each sha that has one.
    pub fn row_counts_by_sha(&self, fingerprint: &str) -> (r: OrdMap<String, usize>)
        ensures
            r@.dom() == fingerprint_shas(self@.regions, fingerprint@),
            forall|sha: Seq<char>| #[trigger]
                r@.contains_key(sha) ==> r@[sha] == self@.regions.filter(
                    |row: RegionView| row.fingerprint == fingerprint@ && row.sha == sha,
                ).len(),
    {
        let shas = self.collect_shas(fingerprint);
        let v = shas.items();
        let ghost e = shas.elems();
        let mut out: OrdMap<String, usize> = OrdMap::new();
        let mut i: usize = 0;
        assert(out@.dom() =~= e.take(0).to_set());
        while i < v.len()
            invariant
                i <= v.len(),
                e == v.deep_view(),
                out@.dom() == e.take(i as int).to_set(),
                forall|sha: Seq<char>| #[trigger]
                    out@.contains_key(sha) ==> out@[sha] == self@.regions.filter(
                        |row: RegionView| row.fingerprint == fingerprint@ && row.sha == sha,
                    ).len(),
            decreases v.len() - i,
        {
            let sha = &v[i];
            let here = |row: &RegionRow| -> (b: bool)
                ensures
                    b == (row@.fingerprint == fingerprint@ && row@.sha == sha@),
                {
                    same_text(row.env_fingerprint.as_str(), fingerprint) && same_text(
                        row.collect_sha.as_str(),
                        sha.as_str(),
                    )
                };
            let n = self.regions.count_where(
                here,
                Ghost(|row: RegionView| row.fingerprint == fingerprint@ && row.sha == sha@),
            );
            out.insert(sha.clone(), n);
            proof {
                assert(e[i as int] == sha@);
                assert(e.take(i + 1) =~= e.take(i as int).push(e[i as int]));
                e.take(i as int).lemma_push_to_set_commute(e[i as int]);
                assert(out@.dom() =~= e.take(i + 1).to_set());
            }
            i += 1;
        }
        assert(e.take(i as int) =~= e);
        out
    }
}

/// A fingerprint with the time of its last use; the most recent one sorts first, and equally
/// recent ones by name.
#[derive(Debug, PartialEq, Eq)]
pub struct Recency {
    pub last_seen: String,
    pub fingerprint: String,
}

impl View for Recency {
    type V = (Seq<char>, Seq<char>);

    open spec fn view(&self) -> (Seq<char>, Seq<char>) {
        (self.last_seen@, self.fingerprint@)
    }
}

impl DeepView for Recency {
    type V = (Seq<char>, Seq<char>);

    open spec fn deep_view(&self) -> (Seq<char>, Seq<char>) {
        self@
    }
}

impl Key for Recency {
    open spec fn before(a: (Seq<char>, Seq<char>), b: (Seq<char>, Seq<char>)) -> bool {
        <String as Key>::before(b.0, a.0) || (a.0 == b.0 && <String as Key>::before(a.1, b.1))
    }

    proof fn before_irreflexive(a: (Seq<char>, Seq<char>)) {
        <String as Key>::before_irreflexive(a.0);
        <String as Key>::before_irreflexive(a.1);
    }

    proof fn before_transitive(a: (Seq<char>, Seq<char>), b: (Seq<char>, Seq<char>), c: (Seq<char>, Seq<char>)) {
        if <String as Key>::before(b.0, a.0) && <String as Key>::before(c.0, b.0) {
            <String as Key>::before_transitive(c.0, b.0, a.0);
        } else if a.0 == b.0 && b.0 == c.0 {
            <String as Key>::before_transitive(a.1, b.1, c.1);
        }
    }

    proof fn before_total(a: (Seq<char>, Seq<char>), b: (Seq<char>, Seq<char>)) {
        <String as Key>::before_total(a.0, b.0);
        <String as Key>::before_total(a.1, b.1);
    }

    fn is_before(&self, other: &Self) -> (r: bool) {
        proof {
            <String as Key>::before_irreflexive(self.last_seen@);
        }
        if !same_text(self.last_seen.as_str(), other.last_seen.as_str()) {
            return text_is_before(other.last_seen.as_str(), self.last_seen.as_str());
        }
        text_is_before(self.fingerprint.as_str(), other.fingerprint.as_str())
    }

    fn duplicate(&self) -> (r: Self) {
        Recency { last_seen: self.last_seen.clone(), fingerprint: self.fingerprint.clone() }
    }
}

/// `a` was used more recently than `b`, or as recently with a name that sorts first.
pub open spec fn more_recent(fingerprints: Map<Seq<char>, Seq<char>>, a: Seq<char>, b: Seq<char>) -> bool {
    ||| crate::text::text_before(fingerprints[b], fingerprints[a])
    ||| fingerprints[a] == fingerprints[b] && crate::text::text_before(a, b)
}

/// The fingerprints other than `current` that come before `fingerprint` by recency.
pub open spec fn more_recent_others(
    fingerprints: Map<Seq<char>, Seq<char>>,
    current: Seq<char>,
    fingerprint: Seq<char>,
) -> Set<Seq<char>> {
    Set::new(
        |g: Seq<char>| g != current && fingerprints.contains_key(g) && more_recent(fingerprints, g, fingerprint),
    )
}

/// The fingerprints that do not fit: not the current one, and `keep - 1` or more others were used
/// more recently.
pub open spec fn evicted(
    fingerprints: Map<Seq<char>, Seq<char>>,
    current: Seq<char>,
    keep: usize,
) -> Set<Seq<char>> {
    Set::new(
        |f: Seq<char>|
            f != current && fingerprints.contains_key(f) && more_recent_others(fingerprints, current, f).len()
                >= keep - 1,
    )
}

/// The tables after dropping the evicted fingerprints.
pub open spec fn after_gc(db: DbView, current: Seq<char>, keep: usize) -> DbView {
    let gone = evicted(db.fingerprints, current, keep);
    DbView {
        regions: db.regions.filter(|r: RegionView| !gone.contains(r.fingerprint)),
        fingerprints: db.fingerprints.restrict(Set::new(|f: Seq<char>| !gone.contains(f))),
        components: db.components.restrict(Set::new(|k: (Seq<char>, Seq<char>)| !gone.contains(k.0))),
        last_collected: db.last_collected,
    }
}

/// In the sequence of the others by recency, an element's index is how many came before it.
proof fn lemma_recency_rank(
    fps: Map<Seq<char>, Seq<char>>,
    current: Seq<char>,
    e: Seq<(Seq<char>, Seq<char>)>,
    i: int,
)
    requires
        crate::ordered::increasing::<Recency>(e),
        forall|p: (Seq<char>, Seq<char>)| #[trigger]
            e.to_set().contains(p) <==> fps.contains_key(p.1) && fps[p.1] == p.0 && p.1 != current,
        0 <= i < e.len(),
    ensures
        more_recent_others(fps, current, e[i].1).len() == i,
        e[i].1 != current,
        fps.contains_key(e[i].1),
{
    let f = e[i].1;
    assert(e.to_set().contains(e[i]));
    let t = e.take(i);
    let names = t.map_values(|p: (Seq<char>, Seq<char>)| p.1);
    crate::ordered::lemma_increasing_len::<Recency>(e);
    assert forall|a: int, b: int| 0 <= a < names.len() && 0 <= b < names.len() && a != b implies names[a]
        != names[b] by {
        assert(e.to_set().contains(e[a]) && e.to_set().contains(e[b]));
        if names[a] == names[b] {
            assert(e[a] == e[b]);
        }
    }
    assert(names.no_duplicates());
    names.unique_seq_to_set();
    assert forall|g: Seq<char>| #[trigger] names.to_set().contains(g) <==> more_recent_others(fps, current, f).contains(
        g,
    ) by {
        if names.contains(g) {
            let a = choose|a: int| 0 <= a < names.len() && names[a] == g;
            assert(e.to_set().contains(e[a]));
            assert(<Recency as Key>::before(e[a], e[i]));
        }
        if more_recent_others(fps, current, f).contains(g) {
            let p = (fps[g], g);
            assert(e.to_set().contains(p));
            let a = choose|a: int| 0 <= a < e.len() && e[a] == p;
            assert(<Recency as Key>::before(p, e[i]));
            if a > i {
                assert(<Recency as Key>::before(e[i], e[a]));
                <Recency as Key>::before_transitive(p, e[i], p);
            }
            <Recency as Key>::before_irreflexive(p);
            assert(names[a] == g);
        }
    }
    assert(names.to_set() =~= more_recent_others(fps, current, f));
}

impl Db {
    /// The fingerprints other than `current`, the most recently used one first.
    fn others_by_recency(&self, current: &str) -> (r: OrdSet<Recency>)
        ensures
            forall|p: (Seq<char>, Seq<char>)| #[trigger]
                r@.contains(p) <==> self@.fingerprints.contains_key(p.1) && self@.fingerprints[p.1] == p.0 && p.1
                    != current@,
    {
        let fps = self.fingerprints.entries();
        let ghost m = self@.fingerprints;
        let ghost keys = self.fingerprints.keys();
        let mut out: OrdSet<Recency> = OrdSet::new();
        let mut i: usize = 0;
        while i < fps.len()
            invariant
                i <= fps.len(),
                m == self@.fingerprints,
                keys == self.fingerprints.keys(),
                m.dom() == keys.to_set(),
                keys.len() == fps.len(),
                forall|j: int| 0 <= j < fps.len() ==> {
                    &&& (#[trigger] fps@[j]).0@ == keys[j]
                    &&& m.contains_key(keys[j])
                    &&& m[keys[j]] == fps@[j].1@
                },
                forall|p: (Seq<char>, Seq<char>)| #[trigger]
                    out@.contains(p) <==> exists|j: int|
                        0 <= j < i && #[trigger] keys[j] == p.1 && m[p.1] == p.0 && p.1 != current@,
            decreases fps.len() - i,
        {
            let (name, seen) = &fps[i];
            let ghost o = out@;
            assert(keys[i as int] == name@);
            if !same_text(name.as_str(), current) {
                out.insert(Recency { last_seen: seen.clone(), fingerprint: name.clone() });
            }
            proof {
                assert forall|p: (Seq<char>, Seq<char>)| #[trigger] out@.contains(p) <==> exists|j: int|
                    0 <= j < i + 1 && #[trigger] keys[j] == p.1 && m[p.1] == p.0 && p.1 != current@ by {
                    if out@.contains(p) {
                        if o.contains(p) {
                            let j = choose|j: int|
                                0 <= j < i && #[trigger] keys[j] == p.1 && m[p.1] == p.0 && p.1 != current@;
                            assert(keys[j] == p.1);
                        } else {
                            assert(keys[i as int] == p.1);
                        }
                    }
                    if exists|j: int|
                        0 <= j < i + 1 && #[trigger] keys[j] == p.1 && m[p.1] == p.0 && p.1 != current@ {
                        let j = choose|j: int|
                            0 <= j < i + 1 && #[trigger] keys[j] == p.1 && m[p.1] == p.0 && p.1 != current@;
                        if j < i {
                            assert(o.contains(p));
                        } else {
                            assert(p == (seen@, name@));
                        }
                    }
                }
            }
            i += 1;
        }
        proof {
            assert forall|p: (Seq<char>, Seq<char>)| #[trigger] out@.contains(p) <==> m.contains_key(p.1) && m[p.1]
                == p.0 && p.1 != current@ by {
                if m.contains_key(p.1) && m[p.1] == p.0 && p.1 != current@ {
                    assert(keys.to_set().contains(p.1));
                    let j = choose|j: int| 0 <= j < keys.len() && keys[j] == p.1;
                    assert(keys[j] == p.1);
                }
            }
        }
        out
    }

    /// Evicts the least recently used fingerprints beyond `keep`, never `current`. Returns the
    /// number evicted.
    pub fn gc(&mut self, current: &str, keep: usize) -> (r: usize)
        ensures
            final(self)@ == after_gc(old(self)@, current@, keep),
            r == evicted(old(self)@.fingerprints, current@, keep).len(),
    {
        let others = self.others_by_recency(current);
        let v = others.items();
        let ghost e = others.elems();
        let ghost fps = self@.fingerprints;
        let ghost gone_set = evicted(fps, current@, keep);
        let room: usize = keep.saturating_sub(1);
        let mut gone: OrdSet<String> = OrdSet::new();
        let mut i: usize = 0;
        proof {
            assert(others@ == e.to_set());
            assert forall|j: int| 0 <= j < e.len() implies {
                &&& more_recent_others(fps, current@, (#[trigger] e[j]).1).len() == j
                &&& e[j].1 != current@
                &&& fps.contains_key(e[j].1)
            } by {
                lemma_recency_rank(fps, current@, e, j);
            }
        }
        while i < v.len()
            invariant
                i <= v.len(),
                e == v.deep_view(),
                forall|f: Seq<char>| #[trigger]
                    gone@.contains(f) <==> exists|j: int| room <= j < i && (#[trigger] e[j]).1 == f,
            decreases v.len() - i,
        {
            let ghost g0 = gone@;
            assert(e[i as int] == v@[i as int]@);
            if i >= room {
                gone.insert(v[i].fingerprint.clone());
            }
            proof {
                assert forall|f: Seq<char>| #[trigger] gone@.contains(f) <==> exists|j: int|
                    room <= j < i + 1 && (#[trigger] e[j]).1 == f by {
                    if gone@.contains(f) {
                        if g0.contains(f) {
                            let j = choose|j: int| room <= j < i && (#[trigger] e[j]).1 == f;
                            assert(e[j].1 == f);
                        } else {
                            assert(e[i as int].1 == f);
                        }
                    }
                    if exists|j: int| room <= j < i + 1 && (#[trigger] e[j]).1 == f {
                        let j = choose|j: int| room <= j < i + 1 && (#[trigger] e[j]).1 == f;
                        if j < i {
                            assert(g0.contains(f));
                        }
                    }
                }
            }
            i += 1;
        }
        proof {
            assert forall|f: Seq<char>| #[trigger] gone@.contains(f) <==> gone_set.contains(f) by {
                if gone@.contains(f) {
                    let j = choose|j: int| room <= j < i && (#[trigger] e[j]).1 == f;
                    assert(e[j].1 == f);
                }
                if gone_set.contains(f) {
                    let p = (fps[f], f);
                    assert(others@.contains(p));
                    let j = choose|j: int| 0 <= j < e.len() && e[j] == p;
                    assert(e[j].1 == f);
                }
            }
            assert(gone@ =~= gone_set);
        }
        let row_stays = |row: &RegionRow| -> (b: bool)
            ensures
                b == !gone@.contains(row@.fingerprint),
            { !gone.contains(&row.env_fingerprint) };
        self.regions.retain(row_stays, Ghost(|row: RegionView| !gone@.contains(row.fingerprint)));
        let mut taken: OrdMap<String, String> = OrdMap::new();
        std::mem::swap(&mut taken, &mut self.fingerprints);
        let name_stays = |f: &String| -> (b: bool)
            ensures
                b == !gone@.contains(f@),
            { !gone.contains(f) };
        self.fingerprints = taken.retain_keys(name_stays, Ghost(|f: Seq<char>| !gone@.contains(f)));
        let mut comps: OrdMap<(String, String), String> = OrdMap::new();
        std::mem::swap(&mut comps, &mut self.components);
        let component_stays = |k: &(String, String)| -> (b: bool)
            ensures
                b == !gone@.contains(k.deep_view().0),
            { !gone.contains(&k.0) };
        self.components = comps.retain_keys(
            component_stays,
            Ghost(|k: (Seq<char>, Seq<char>)| !gone@.contains(k.0)),
        );
        assert(self@ =~= after_gc(old(self)@, current@, keep));
        gone.len()
    }
}

/// Eviction keeps the current fingerprint, and drops a fingerprint only for more recent ones:
/// whatever is kept besides the current one was used more recently than whatever is dropped.
pub proof fn law_gc_keeps_the_most_recent(
    fingerprints: Map<Seq<char>, Seq<char>>,
    current: Seq<char>,
    keep: usize,
    kept: Seq<char>,
    dropped: Seq<char>,
)
    requires
        fingerprints.dom().finite(),
        fingerprints.contains_key(kept),
        kept != current,
        !evicted(fingerprints, current, keep).contains(kept),
        evicted(fingerprints, current, keep).contains(dropped),
    ensures
        more_recent(fingerprints, kept, dropped),
        !evicted(fingerprints, current, keep).contains(current),
{
    if !more_recent(fingerprints, kept, dropped) {
        let a = (fingerprints[kept], kept);
        let b = (fingerprints[dropped], dropped);
        <Recency as Key>::before_total(a, b);
        let sa = more_recent_others(fingerprints, current, kept);
        let sb = more_recent_others(fingerprints, current, dropped);
        assert forall|g: Seq<char>| #[trigger] sb.contains(g) implies sa.contains(g) by {
            let c = (fingerprints[g], g);
            <Recency as Key>::before_transitive(c, b, a);
        }
        assert(sa.subset_of(fingerprints.dom()));
        vstd::set_lib::lemma_set_subset_finite(fingerprints.dom(), sa);
        vstd::set_lib::lemma_len_subset(sb, sa);
    }
}

/// Eviction keeps as many fingerprints as there is room for, and none is dropped while there is room:
/// with the current fingerprint stored, `keep` of them are left, or all where there are no more.
pub proof fn law_gc_keeps_what_fits(fingerprints: Map<Seq<char>, Seq<char>>, current: Seq<char>, keep: usize)
    requires
        fingerprints.dom().finite(),
        fingerprints.contains_key(current),
        keep >= 1,
    ensures
        fingerprints.dom().difference(evicted(fingerprints, current, keep)).len() == if fingerprints.dom().len() <= keep {
            fingerprints.dom().len()
        } else {
            keep as nat
        },
        fingerprints.dom().len() <= keep ==> evicted(fingerprints, current, keep) == Set::<Seq<char>>::empty(),
{
    let others = Set::new(
        |p: (Seq<char>, Seq<char>)| fingerprints.contains_key(p.1) && fingerprints[p.1] == p.0 && p.1 != current,
    );
    let names = fingerprints.dom().remove(current);
    let f = |n: Seq<char>| (fingerprints[n], n);
    names.lemma_map_finite(f);
    assert(others =~= names.map(f)) by {
        assert forall|p: (Seq<char>, Seq<char>)| others.contains(p) implies names.map(f).contains(p) by {
            assert(names.contains(p.1) && f(p.1) == p);
        }
    }
    crate::ordered::lemma_in_order_of::<Recency>(others);
    let e = crate::ordered::in_order::<Recency>(others);
    assert forall|p: (Seq<char>, Seq<char>)| #[trigger] e.to_set().contains(p) <==> fingerprints.contains_key(p.1)
        && fingerprints[p.1] == p.0 && p.1 != current by {
        assert(e.to_set().contains(p) <==> others.contains(p));
    }
    assert forall|i: int| 0 <= i < e.len() implies more_recent_others(fingerprints, current, (#[trigger] e[i]).1).len()
        == i && e[i].1 != current && fingerprints.contains_key(e[i].1) by {
        lemma_recency_rank(fingerprints, current, e, i);
    }
    let room: int = keep - 1;
    let n: int = if e.len() <= room {
        e.len() as int
    } else {
        room
    };
    let kept = fingerprints.dom().difference(evicted(fingerprints, current, keep));
    let first = Seq::new(n as nat, |i: int| e[i].1);
    assert forall|i: int, j: int| 0 <= i < j < e.len() implies (#[trigger] e[i]).1 != (#[trigger] e[j]).1 by {
        assert(more_recent_others(fingerprints, current, e[i].1).len() == i);
        assert(more_recent_others(fingerprints, current, e[j].1).len() == j);
    }
    assert(first.no_duplicates());
    first.unique_seq_to_set();
    assert(kept =~= first.to_set().insert(current)) by {
        assert forall|x: Seq<char>| kept.contains(x) <==> first.to_set().insert(current).contains(x) by {
            if kept.contains(x) && x != current {
                let p = (fingerprints[x], x);
                assert(e.to_set().contains(p));
                let i = choose|i: int| 0 <= i < e.len() && e[i] == p;
                assert(more_recent_others(fingerprints, current, e[i].1).len() == i);
                assert(i < n);
                assert(first[i] == x);
            }
            if first.to_set().contains(x) {
                let i = choose|i: int| 0 <= i < first.len() && first[i] == x;
                assert(e[i].1 == x);
            }
        }
    }
    assert(!first.to_set().contains(current)) by {
        if first.to_set().contains(current) {
            let i = choose|i: int| 0 <= i < first.len() && first[i] == current;
            assert(e[i].1 == current);
        }
    }
    vstd::seq_lib::seq_to_set_is_finite(first);
    assert(kept.len() == n + 1);
    lemma_same_size(fingerprints, current, e);
    if fingerprints.dom().len() <= keep {
        assert forall|x: Seq<char>| !evicted(fingerprints, current, keep).contains(x) by {
            if evicted(fingerprints, current, keep).contains(x) {
                let p = (fingerprints[x], x);
                assert(e.to_set().contains(p));
                let i = choose|i: int| 0 <= i < e.len() && e[i] == p;
                assert(more_recent_others(fingerprints, current, e[i].1).len() == i);
            }
        }
        assert(evicted(fingerprints, current, keep) =~= Set::<Seq<char>>::empty());
    }
}

proof fn lemma_same_size(fingerprints: Map<Seq<char>, Seq<char>>, current: Seq<char>, e: Seq<(Seq<char>, Seq<char>)>)
    requires
        fingerprints.dom().finite(),
        fingerprints.contains_key(current),
        forall|p: (Seq<char>, Seq<char>)| #[trigger]
            e.to_set().contains(p) <==> fingerprints.contains_key(p.1) && fingerprints[p.1] == p.0 && p.1 != current,
        forall|i: int, j: int| 0 <= i < j < e.len() ==> (#[trigger] e[i]).1 != (#[trigger] e[j]).1,
    ensures
        fingerprints.dom().len() == e.len() + 1,
{
    let all = Seq::new(e.len(), |i: int| e[i].1);
    assert(all.no_duplicates());
    all.unique_seq_to_set();
    assert(all.to_set() =~= fingerprints.dom().remove(current)) by {
        assert forall|x: Seq<char>| all.to_set().contains(x) <==> fingerprints.dom().remove(current).contains(x) by {
            if all.to_set().contains(x) {
                let i = choose|i: int| 0 <= i < all.len() && all[i] == x;
                assert(e.to_set().contains(e[i]));
            }
            if fingerprints.dom().remove(current).contains(x) {
                let p = (fingerprints[x], x);
                assert(e.to_set().contains(p));
                let i = choose|i: int| 0 <= i < e.len() && e[i] == p;
                assert(all[i] == x);
            }
        }
    }
}

/// A fingerprint is dropped only for ones that were used later, or at the same time under a name that
/// comes first: none that is kept, but for the current one, was used earlier than one that is dropped.
pub proof fn law_gc_drops_the_oldest(
    fingerprints: Map<Seq<char>, Seq<char>>,
    current: Seq<char>,
    keep: usize,
    kept: Seq<char>,
    dropped: Seq<char>,
)
    requires
        fingerprints.dom().finite(),
        fingerprints.contains_key(kept),
        kept != current,
        !evicted(fingerprints, current, keep).contains(kept),
        evicted(fingerprints, current, keep).contains(dropped),
    ensures
        !crate::text::text_before(fingerprints[kept], fingerprints[dropped]),
        fingerprints[kept] == fingerprints[dropped] ==> crate::text::text_before(kept, dropped),
        dropped != current,
{
    law_gc_keeps_the_most_recent(fingerprints, current, keep, kept, dropped);
    let x = crate::text::byte_ranks(fingerprints[kept]);
    let y = crate::text::byte_ranks(fingerprints[dropped]);
    if crate::text::lex_before(x, y) && crate::text::lex_before(y, x) {
        crate::text::lemma_lex_transitive(x, y, x);
    }
    crate::text::lemma_lex_irreflexive(x);
}

/// What belongs to a fingerprint that is kept stays as it is, and nothing is left of one that is
/// dropped.
pub proof fn law_gc_drops_whole_fingerprints(db: DbView, current: Seq<char>, keep: usize, row: RegionView, f: Seq<char>, label: Seq<char>)
    ensures
        ({
            let after = after_gc(db, current, keep);
            let gone = evicted(db.fingerprints, current, keep);
            &&& after.regions.contains(row) <==> db.regions.contains(row) && !gone.contains(row.fingerprint)
            &&& after.fingerprints.contains_key(f) <==> db.fingerprints.contains_key(f) && !gone.contains(f)
            &&& after.fingerprints.contains_key(f) ==> after.fingerprints[f] == db.fingerprints[f]
            &&& after.components.contains_key((f, label)) <==> db.components.contains_key((f, label)) && !gone.contains(
                f,
            )
            &&& after.last_collected == db.last_collected
            &&& !gone.contains(current)
        }),
{
}

/// Whether a changed file is a source file without coverage data.
pub open spec fn is_uncovered_source(regions: Set<RegionView>, fingerprint: Seq<char>, file: Seq<char>) -> bool {
    ".rs"@.is_suffix_of(file) && !is_covered(regions, fingerprint, file)
}

/// What is said of a changed source file without coverage data.
pub open spec fn uncovered_warning(file: Seq<char>) -> Seq<char> {
    "warning: "@ + file + " has no coverage data — run `cargo affected collect` to include it"@
}

/// The warnings about changed source files without coverage data.
pub open spec fn uncovered_warnings(
    regions: Set<RegionView>,
    fingerprint: Seq<char>,
    files: Seq<Seq<char>>,
) -> Seq<Seq<char>>
    decreases files.len(),
{
    if files.len() == 0 {
        Seq::empty()
    } else {
        let before = uncovered_warnings(regions, fingerprint, files.drop_last());
        if is_uncovered_source(regions, fingerprint, files.last()) {
            before.push(uncovered_warning(files.last()))
        } else {
            before
        }
    }
}

/// The warnings about changed `.rs` files that have no coverage data under a fingerprint, in the
/// order of the files.
pub fn warn_untracked_rs_files(db: &Db, fingerprint: &str, changed_files: &OrdSet<String>) -> (r: Vec<String>)
    ensures
        r.deep_view() == uncovered_warnings(
            db@.regions,
            fingerprint@,
            crate::ordered::in_order::<String>(changed_files@),
        ),
{
    let files = changed_files.items();
    let ghost d = changed_files.elems();
    proof {
        crate::ordered::lemma_in_order::<String>(d);
    }
    let mut out: Vec<String> = Vec::new();
    let mut i: usize = 0;
    assert(out.deep_view() =~= uncovered_warnings(db@.regions, fingerprint@, d.take(0)));
    while i < files.len()
        invariant
            i <= files.len(),
            d == files.deep_view(),
            out.deep_view() == uncovered_warnings(db@.regions, fingerprint@, d.take(i as int)),
        decreases files.len() - i,
    {
        let ghost before = out.deep_view();
        let file = &files[i];
        assert(d[i as int] == file@);
        assert(d.take(i + 1).drop_last() =~= d.take(i as int));
        if crate::text::ends_with(file.as_str(), ".rs") && !db.file_tracked(fingerprint, file.as_str()) {
            let text = String::from_str("warning: ").concat(file.as_str()).concat(
                " has no coverage data — run `cargo affected collect` to include it",
            );
            let ghost tv = text@;
            out.push(text);
            assert(out.deep_view() =~= before.push(tv));
        }
        i += 1;
    }
    assert(d.take(i as int) =~= d);
    out
}

} // verus!

//! The tables on disk: which of an older layout are dropped, and what the rows that are kept must
//! satisfy.

use vstd::prelude::*;
use crate::db::{Db, DbView, RegionView};
use crate::ordered::{OrdMap, OrdSet};
use crate::text::{join_texts, same_text, wide_number_text};

verus! {

/// The text of the placeholders `?start, ?start+1, ...`.
pub open spec fn placeholders(start: nat, count: nat) -> Seq<Seq<char>> {
    Seq::new(count, |i: int| "?"@ + crate::text::decimal((start + i) as nat))
}

/// The `count` placeholders of an SQL list, numbered from `start_idx`. The values are still bound
/// by position.
pub fn in_placeholders(start_idx: usize, count: usize) -> (r: String)
    ensures
        r@ == crate::text::joined(placeholders(start_idx as nat, count as nat), ", "@),
{
    let mut parts: Vec<String> = Vec::new();
    let mut i: usize = 0;
    let ghost all = placeholders(start_idx as nat, count as nat);
    assert(parts.deep_view() =~= all.take(0));
    while i < count
        invariant
            i <= count,
            all == placeholders(start_idx as nat, count as nat),
            parts.deep_view() == all.take(i as int),
        decreases count - i,
    {
        let ghost before = parts.deep_view();
        let text = String::from_str("?").concat(wide_number_text(i as u128 + start_idx as u128).as_str());
        let ghost tv = text@;
        parts.push(text);
        assert(parts.deep_view() =~= before.push(tv));
        assert(all[i as int] == tv);
        assert(all.take(i + 1) =~= all.take(i as int).push(tv));
        i += 1;
    }
    assert(all.take(i as int) =~= all);
    join_texts(&parts, ", ")
}

/// The columns of each coverage table that the database has.
#[derive(Debug, PartialEq, Eq)]
pub struct Schema {
    /// Whether there is a `test_files` table, which held whole files.
    pub files: bool,
    /// Of `test_regions`.
    pub regions: Option<Vec<String>>,
    /// Of `fingerprints`.
    pub fingerprints: Option<Vec<String>>,
    /// Of `fingerprint_components`.
    pub components: Option<Vec<String>>,
}

/// The value of a [`Schema`].
#[verifier::ext_equal]
pub struct SchemaView {
    pub files: bool,
    pub regions: Option<Seq<Seq<char>>>,
    pub fingerprints: Option<Seq<Seq<char>>>,
    pub components: Option<Seq<Seq<char>>>,
}

impl View for Schema {
    type V = SchemaView;

    open spec fn view(&self) -> SchemaView {
        SchemaView {
            files: self.files,
            regions: self.regions.deep_view(),
            fingerprints: self.fingerprints.deep_view(),
            components: self.components.deep_view(),
        }
    }
}

/// Which tables are dropped.
#[derive(Debug, Clone, Copy, PartialEq, Eq, Structural)]
pub struct Migration {
    pub drop_files: bool,
    pub drop_regions: bool,
    pub drop_fingerprints: bool,
    pub drop_components: bool,
}

/// Whether `test_regions` has every column that a row needs.
pub open spec fn has_region_columns(columns: Seq<Seq<char>>) -> bool {
    &&& columns.contains("binary_id"@)
    &&& columns.contains("test_name"@)
    &&& columns.contains("source_file"@)
    &&& columns.contains("line_start"@)
    &&& columns.contains("line_end"@)
    &&& columns.contains("env_fingerprint"@)
    &&& columns.contains("collect_sha"@)
}

/// Whether `fingerprint_components` has every column that a row needs.
pub open spec fn has_component_columns(columns: Seq<Seq<char>>) -> bool {
    &&& columns.contains("env_fingerprint"@)
    &&& columns.contains("label"@)
    &&& columns.contains("content_hash"@)
}

impl SchemaView {
    /// Whether the rows of `test_regions` can be read.
    pub open spec fn regions_readable(self) -> bool {
        self.regions matches Some(c) && has_region_columns(c)
    }

    /// Whether all coverage is dropped: rows whose fingerprint has no components cannot be
    /// explained, and components in another layout cannot be read.
    pub open spec fn needs_reset(self) -> bool {
        match self.components {
            Some(c) => !has_component_columns(c),
            None => self.regions_readable(),
        }
    }

    /// Which tables are dropped.
    pub open spec fn migration(self) -> Migration {
        Migration {
            drop_files: self.files,
            drop_regions: self.needs_reset() || (self.regions is Some && !self.regions_readable()),
            drop_fingerprints: self.needs_reset() || (self.fingerprints matches Some(c) && c.contains(
                "collect_sha"@,
            )),
            drop_components: self.needs_reset(),
        }
    }
}

/// Whether a list holds a text.
fn has_text(list: &Vec<String>, text: &str) -> (r: bool)
    ensures
        r == list.deep_view().contains(text@),
{
    let ghost d = list.deep_view();
    let mut i: usize = 0;
    while i < list.len()
        invariant
            i <= list.len(),
            d == list.deep_view(),
            forall|j: int| 0 <= j < i ==> #[trigger] d[j] != text@,
        decreases list.len() - i,
    {
        assert(d[i as int] == list@[i as int]@);
        if same_text(list[i].as_str(), text) {
            return true;
        }
        i += 1;
    }
    false
}

/// Decides which tables of an older layout are dropped. Old rows cannot be given what they lack,
/// and the next collection writes everything anew.
///
/// `test_files` knows no lines and is always dropped. `test_regions` needs every column of a row,
/// the commit among them. `fingerprints` once held a
/// commit for the whole fingerprint. Rows without components, or components in another layout,
/// cost everything.
pub fn migrate_legacy_tables(schema: &Schema) -> (r: Migration)
    ensures
        r == schema@.migration(),
{
    let readable = match &schema.regions {
        Some(c) => has_text(c, "binary_id") && has_text(c, "test_name") && has_text(c, "source_file") && has_text(
            c,
            "line_start",
        ) && has_text(c, "line_end") && has_text(c, "env_fingerprint") && has_text(c, "collect_sha"),
        None => false,
    };
    let reset = match &schema.components {
        Some(c) => !(has_text(c, "env_fingerprint") && has_text(c, "label") && has_text(c, "content_hash")),
        None => readable,
    };
    let old_regions = match &schema.regions {
        Some(_) => !readable,
        None => false,
    };
    let old_fingerprints = match &schema.fingerprints {
        Some(c) => has_text(c, "collect_sha"),
        None => false,
    };
    Migration {
        drop_files: schema.files,
        drop_regions: reset || old_regions,
        drop_fingerprints: reset || old_fingerprints,
        drop_components: reset,
    }
}

/// Rows are only kept beside components: a migration that keeps `test_regions` keeps
/// `fingerprint_components` too, and one that drops the components drops everything. Coverage of
/// whole files is never kept.
pub proof fn law_kept_rows_are_explained(s: SchemaView)
    ensures
        s.regions is Some && !s.migration().drop_regions ==> s.components is Some && !s.migration().drop_components,
        s.files ==> s.migration().drop_files,
        s.migration().drop_components ==> s.migration().drop_regions && s.migration().drop_fingerprints,
{
}

/// Whether a fingerprint has components.
pub open spec fn has_components(components: Map<(Seq<char>, Seq<char>), Seq<char>>, fingerprint: Seq<char>) -> bool {
    exists|label: Seq<char>| #[trigger] components.contains_key((fingerprint, label))
}

/// Whether every row belongs to a fingerprint with components.
pub open spec fn rows_explained(db: DbView) -> bool {
    forall|row: RegionView| #[trigger] db.regions.contains(row) ==> has_components(db.components, row.fingerprint)
}

/// The tables without coverage. When it was collected last is kept.
pub open spec fn without_coverage(db: DbView) -> DbView {
    DbView { regions: Set::empty(), fingerprints: Map::empty(), components: Map::empty(), ..db }
}

/// The fingerprints that have components.
fn explained(components: &OrdMap<(String, String), String>) -> (r: OrdSet<String>)
    ensures
        forall|f: Seq<char>| #[trigger] r@.contains(f) <==> has_components(components@, f),
{
    let entries = components.entries();
    let ghost keys = components.keys();
    let ghost m = components@;
    let mut out: OrdSet<String> = OrdSet::new();
    let mut i: usize = 0;
    while i < entries.len()
        invariant
            i <= entries.len(),
            entries.len() == keys.len(),
            m == components@,
            forall|j: int| 0 <= j < entries.len() ==> {
                &&& (#[trigger] entries@[j]).0.deep_view() == keys[j]
                &&& m.contains_key(keys[j])
            },
            forall|f: Seq<char>| #[trigger] out@.contains(f) <==> exists|j: int| 0 <= j < i && (#[trigger] keys[j]).0 == f,
        decreases entries.len() - i,
    {
        let ghost o = out@;
        assert(entries@[i as int].0.deep_view() == keys[i as int]);
        out.insert(entries[i].0.0.clone());
        proof {
            assert forall|f: Seq<char>| #[trigger] out@.contains(f) <==> exists|j: int|
                0 <= j < i + 1 && (#[trigger] keys[j]).0 == f by {
                if o.contains(f) {
                    let j = choose|j: int| 0 <= j < i && (#[trigger] keys[j]).0 == f;
                    assert(keys[j].0 == f);
                }
                if keys[i as int].0 == f {
                    assert(out@.contains(f));
                }
                if exists|j: int| 0 <= j < i + 1 && (#[trigger] keys[j]).0 == f {
                    let j = choose|j: int| 0 <= j < i + 1 && (#[trigger] keys[j]).0 == f;
                    if j < i {
                        assert(o.contains(f));
                    }
                }
            }
        }
        i += 1;
    }
    proof {
        assert forall|f: Seq<char>| #[trigger] out@.contains(f) <==> has_components(m, f) by {
            if out@.contains(f) {
                let j = choose|j: int| 0 <= j < i && (#[trigger] keys[j]).0 == f;
                assert(entries@[j].0.deep_view() == keys[j]);
                assert(m.contains_key((f, keys[j].1)));
            }
            if has_components(m, f) {
                let label = choose|label: Seq<char>| #[trigger] m.contains_key((f, label));
                assert(m.dom().contains((f, label)));
                let j = choose|j: int| 0 <= j < keys.len() && keys[j] == (f, label);
                assert(keys[j].0 == f);
            }
        }
    }
    out
}

impl Db {
    /// Drops all coverage if some row belongs to a fingerprint without components: what differs
    /// from it could not be told. Says whether it did.
    pub fn drop_unexplained(&mut self) -> (r: bool)
        ensures
            r == !rows_explained(old(self)@),
            final(self)@ == (if r {
                without_coverage(old(self)@)
            } else {
                old(self)@
            }),
            rows_explained(final(self)@),
    {
        let known = explained(&self.components);
        let rows = self.regions.items();
        let ghost d = self.regions.elems();
        let mut orphan = false;
        let mut i: usize = 0;
        while i < rows.len()
            invariant
                i <= rows.len(),
                d == rows.deep_view(),
                forall|f: Seq<char>| #[trigger] known@.contains(f) <==> has_components(self@.components, f),
                !orphan ==> forall|j: int|
                    0 <= j < i ==> has_components(self@.components, (#[trigger] d[j]).fingerprint),
                orphan ==> exists|j: int|
                    0 <= j < d.len() && !has_components(self@.components, (#[trigger] d[j]).fingerprint),
            decreases rows.len() - i,
        {
            assert(d[i as int] == rows@[i as int]@);
            if !known.contains(&rows[i].env_fingerprint) {
                orphan = true;
            }
            i += 1;
        }
        proof {
            if orphan {
                let j = choose|j: int|
                    0 <= j < d.len() && !has_components(self@.components, (#[trigger] d[j]).fingerprint);
                assert(self@.regions.contains(d[j]));
            } else {
                assert forall|row: RegionView| #[trigger] self@.regions.contains(row) implies has_components(
                    self@.components,
                    row.fingerprint,
                ) by {
                    let j = choose|j: int| 0 <= j < d.len() && d[j] == row;
                    assert(d[j] == row);
                }
            }
        }
        if orphan {
            self.regions = OrdSet::new();
            self.fingerprints = OrdMap::new();
            self.components = OrdMap::new();
        }
        orphan
    }
}

/// The components of other fingerprints stay, and the recorded ones are there.
proof fn lemma_components_added(
    table: Map<(Seq<char>, Seq<char>), Seq<char>>,
    fingerprint: Seq<char>,
    components: Seq<(Seq<char>, Seq<char>)>,
)
    ensures
        forall|k: (Seq<char>, Seq<char>)| #[trigger]
            table.contains_key(k) ==> crate::db::components_added(table, fingerprint, components).contains_key(k),
        components.len() > 0 ==> crate::db::components_added(table, fingerprint, components).contains_key(
            (fingerprint, components.last().0),
        ),
    decreases components.len(),
{
    if components.len() > 0 {
        lemma_components_added(table, fingerprint, components.drop_last());
    }
}

/// Recording coverage with at least one component keeps every row explained.
pub proof fn law_recording_keeps_rows_explained(
    db: DbView,
    fingerprint: Seq<char>,
    components: Seq<(Seq<char>, Seq<char>)>,
    sha: Seq<char>,
    mappings: Seq<(crate::db::TestIdView, Set<crate::coverage::HitRangeView>)>,
    now: Seq<char>,
)
    requires
        rows_explained(db),
        components.len() > 0,
        crate::db::distinct_labels(components),
    ensures
        rows_explained(crate::db::after_store(db, fingerprint, components, sha, mappings, now)),
        rows_explained(crate::db::after_update(db, fingerprint, components, sha, mappings, now)),
{
    let kept = db.components.restrict(crate::db::keys_elsewhere(fingerprint));
    let after = crate::db::components_replaced(db.components, fingerprint, components);
    lemma_components_added(kept, fingerprint, components);
    assert forall|f: Seq<char>| has_components(db.components, f) || f == fingerprint implies #[trigger] has_components(
        after,
        f,
    ) by {
        if f == fingerprint {
            assert(after.contains_key((f, components.last().0)));
        } else {
            let label = choose|label: Seq<char>| #[trigger] db.components.contains_key((f, label));
            assert(kept.contains_key((f, label)));
            assert(after.contains_key((f, label)));
        }
    }
    let rows = crate::db::mapping_rows(fingerprint, sha, mappings);
    assert forall|row: RegionView| #[trigger] rows.contains(row) implies row.fingerprint == fingerprint by {}
}

} // verus!

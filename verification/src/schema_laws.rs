//! Laws of older layouts: what is kept of them.

use vstd::prelude::*;
use crate::db::{DbView, RegionView};
use crate::schema;
use crate::schema::SchemaView;

verus! {

/// The columns that a row of coverage is made of.
pub open spec fn row_columns() -> Seq<Seq<char>> {
    seq![
        "binary_id"@,
        "test_name"@,
        "source_file"@,
        "line_start"@,
        "line_end"@,
        "env_fingerprint"@,
        "collect_sha"@,
    ]
}

/// The columns that a component is made of.
pub open spec fn component_columns() -> Seq<Seq<char>> {
    seq!["env_fingerprint"@, "label"@, "content_hash"@]
}

/// Whether a table has all of these columns.
pub open spec fn has_all(table: Option<Seq<Seq<char>>>, columns: Seq<Seq<char>>) -> bool {
    table is Some && forall|i: int| 0 <= i < columns.len() ==> table->0.contains(#[trigger] columns[i])
}

proof fn lemma_row_columns(t: Seq<Seq<char>>)
    ensures
        has_all(Some(t), row_columns()) <==> schema::has_region_columns(t),
        has_all(Some(t), component_columns()) <==> schema::has_component_columns(t),
{
    let r = row_columns();
    let c = component_columns();
    assert(r[0] == "binary_id"@ && r[1] == "test_name"@ && r[2] == "source_file"@ && r[3] == "line_start"@ && r[4]
        == "line_end"@ && r[5] == "env_fingerprint"@ && r[6] == "collect_sha"@);
    assert(c[0] == "env_fingerprint"@ && c[1] == "label"@ && c[2] == "content_hash"@);
    if has_all(Some(t), r) {
        assert(t.contains(r[0]) && t.contains(r[1]) && t.contains(r[2]) && t.contains(r[3]) && t.contains(r[4])
            && t.contains(r[5]) && t.contains(r[6]));
    }
    if has_all(Some(t), c) {
        assert(t.contains(c[0]) && t.contains(c[1]) && t.contains(c[2]));
    }
}

/// Rows are kept exactly where they are complete and there are complete components beside them.
/// Components are kept where they are complete and lost with everything else where they are not; where
/// there are none, complete rows are lost for it. Fingerprints that are tied to one commit are dropped.
/// Whole files are dropped wherever there are any.
pub proof fn law_only_complete_tables_are_kept(s: SchemaView)
    ensures
        ({
            let m = s.migration();
            &&& s.regions is Some ==> (!m.drop_regions <==> has_all(s.regions, row_columns()) && has_all(
                s.components,
                component_columns(),
            ))
            &&& s.components is Some ==> (!m.drop_components <==> has_all(s.components, component_columns()))
            &&& s.components is None ==> (m.drop_components <==> has_all(s.regions, row_columns()))
            &&& s.fingerprints is Some ==> (m.drop_fingerprints <==> m.drop_components || s.fingerprints->0.contains(
                "collect_sha"@,
            ))
            &&& m.drop_files <==> s.files
        }),
{
    if s.regions is Some {
        lemma_row_columns(s.regions->0);
    }
    if s.components is Some {
        lemma_row_columns(s.components->0);
    }
}

/// A current layout is left alone, and so is an empty database.
pub proof fn law_current_layout_is_left_alone(s: SchemaView)
    ensures
        !s.files && has_all(s.regions, row_columns()) && has_all(s.components, component_columns())
            && s.fingerprints is Some && !s.fingerprints->0.contains("collect_sha"@) ==> !s.migration().drop_files
            && !s.migration().drop_regions && !s.migration().drop_fingerprints && !s.migration().drop_components,
        !s.files && s.regions is None && s.components is None && s.fingerprints is None ==> !s.migration().drop_files
            && !s.migration().drop_regions && !s.migration().drop_fingerprints && !s.migration().drop_components,
{
    law_only_complete_tables_are_kept(s);
}

/// Coverage is dropped as a whole: no row, fingerprint or component stays, and when it was collected
/// last does. It is in order as it is exactly where each row's fingerprint has a component.
pub proof fn law_coverage_is_dropped_whole(db: DbView, row: RegionView, f: Seq<char>, label: Seq<char>)
    ensures
        ({
            let after = schema::without_coverage(db);
            &&& !after.regions.contains(row)
            &&& !after.fingerprints.contains_key(f)
            &&& !after.components.contains_key((f, label))
            &&& after.last_collected == db.last_collected
        }),
        schema::rows_explained(db) && db.regions.contains(row) ==> exists|l: Seq<char>|
            #[trigger] db.components.contains_key((row.fingerprint, l)),
        db.regions.contains(row) && (forall|l: Seq<char>|
            !#[trigger] db.components.contains_key((row.fingerprint, l))) ==> !schema::rows_explained(db),
        (forall|r: RegionView| !#[trigger] db.regions.contains(r)) ==> schema::rows_explained(db),
{
}

/// Placeholders are numbered from the first on, one after the other.
pub proof fn law_placeholders_are_numbered(start: nat, count: nat, i: int)
    requires
        0 <= i < count,
    ensures
        schema::placeholders(start, count).len() == count,
        schema::placeholders(start, count)[i][0] == '?',
        crate::text::unsigned_value(schema::placeholders(start, count)[i].skip(1)) == Some((start + i) as nat),
{
    reveal_strlit("?");
    let d = crate::text::decimal((start + i) as nat);
    assert(("?"@ + d).skip(1) =~= d);
    crate::text_laws::law_decimal_is_read_back((start + i) as nat);
}

} // verus!

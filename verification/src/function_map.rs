//! Where the instrumented functions of a binary live in the project's source, and what a test
//! that executed some of them touched.

use vstd::prelude::*;
use crate::coverage::{read_export, CoverageFunction, CoverageRegion, ExportError, HitRange};
use crate::coverage::{CoverageFunctionView, ExportErrorView, HitRangeView};
use crate::json::read_json;
use crate::ordered::{Key, OrdMap, OrdSet};
use crate::paths::{path_code, strip_base, to_db_relative};
use crate::text::count_text;

verus! {

/// Where every instrumented function of one binary lives in the project's source, keyed by
/// mangled name. A name maps to one range per source file it spans; functions outside the project
/// root are absent.
pub type FunctionMap = OrdMap<String, Vec<HitRange>>;

/// The elements without repetition, each at the place of its first occurrence.
pub open spec fn distinct<A>(s: Seq<A>) -> Seq<A>
    decreases s.len(),
{
    if s.len() == 0 {
        s
    } else {
        let before = distinct(s.drop_last());
        if before.contains(s.last()) {
            before
        } else {
            before.push(s.last())
        }
    }
}

/// The files of the regions, in the order of their first occurrence.
pub open spec fn region_files(regions: Seq<CoverageRegion>) -> Seq<u64> {
    distinct(regions.map_values(|r: CoverageRegion| r.file_id))
}

/// The lowest start line of the regions in a file.
pub open spec fn first_line(regions: Seq<CoverageRegion>, file_id: u64) -> i64
    decreases regions.len(),
{
    if regions.len() == 0 {
        i64::MAX
    } else {
        let before = first_line(regions.drop_last(), file_id);
        if regions.last().file_id == file_id && regions.last().line_start < before {
            regions.last().line_start
        } else {
            before
        }
    }
}

/// The highest end line of the regions in a file.
pub open spec fn last_line(regions: Seq<CoverageRegion>, file_id: u64) -> i64
    decreases regions.len(),
{
    if regions.len() == 0 {
        i64::MIN
    } else {
        let before = last_line(regions.drop_last(), file_id);
        if regions.last().file_id == file_id && regions.last().line_end > before {
            regions.last().line_end
        } else {
            before
        }
    }
}

/// The full extent of a function in a file of its export, in project coordinates: nothing where
/// the file is not listed or lies outside the project root.
pub open spec fn located(f: CoverageFunctionView, file_id: u64, root: Seq<char>, windows: bool) -> Option<HitRangeView> {
    if file_id < f.filenames.len() {
        match crate::paths::path_below(
            crate::paths::db_relative(f.filenames[file_id as int], windows),
            crate::paths::db_relative(root, windows),
        ) {
            Some(rel) => Some(
                HitRangeView {
                    file: rel,
                    line_start: first_line(f.regions, file_id),
                    line_end: last_line(f.regions, file_id),
                },
            ),
            None => None,
        }
    } else {
        None
    }
}

/// The ranges of a function in those of the given files that lie in the project.
pub open spec fn located_all(f: CoverageFunctionView, ids: Seq<u64>, root: Seq<char>, windows: bool) -> Seq<
    (Seq<char>, HitRangeView),
>
    decreases ids.len(),
{
    if ids.len() == 0 {
        Seq::empty()
    } else {
        let before = located_all(f, ids.drop_last(), root, windows);
        match located(f, ids.last(), root, windows) {
            Some(range) => before.push((f.name, range)),
            None => before,
        }
    }
}

/// The ranges of all functions, each with the function's name.
pub open spec fn all_ranges(fs: Seq<CoverageFunctionView>, root: Seq<char>, windows: bool) -> Seq<
    (Seq<char>, HitRangeView),
>
    decreases fs.len(),
{
    if fs.len() == 0 {
        Seq::empty()
    } else {
        all_ranges(fs.drop_last(), root, windows) + located_all(
            fs.last(),
            region_files(fs.last().regions),
            root,
            windows,
        )
    }
}

/// Where a range lies: the file by its components, so that two ways to write a path are one place,
/// and the lines.
pub open spec fn place_of(r: HitRangeView) -> (Seq<Seq<char>>, (i64, i64)) {
    (crate::paths::coded_path(r.file), (r.line_start, r.line_end))
}

/// Where ranges lie.
pub open spec fn places_of(s: Seq<HitRangeView>) -> Seq<(Seq<Seq<char>>, (i64, i64))> {
    s.map_values(|r: HitRangeView| place_of(r))
}

/// The first range of each place.
pub open spec fn distinct_ranges(s: Seq<HitRangeView>) -> Seq<HitRangeView>
    decreases s.len(),
{
    if s.len() == 0 {
        s
    } else {
        let before = distinct_ranges(s.drop_last());
        if places_of(before).contains(place_of(s.last())) {
            before
        } else {
            before.push(s.last())
        }
    }
}

/// `distinct_ranges` keeps ranges of the list, one for each place.
pub proof fn lemma_distinct_ranges(s: Seq<HitRangeView>)
    ensures
        forall|i: int| 0 <= i < s.len() ==> places_of(distinct_ranges(s)).contains(place_of(#[trigger] s[i])),
        forall|i: int| 0 <= i < distinct_ranges(s).len() ==> s.contains(#[trigger] distinct_ranges(s)[i]),
        distinct_ranges(s).len() > 0 <==> s.len() > 0,
    decreases s.len(),
{
    if s.len() > 0 {
        let b = s.drop_last();
        let d = distinct_ranges(b);
        let all = distinct_ranges(s);
        lemma_distinct_ranges(b);
        assert forall|i: int| 0 <= i < s.len() implies places_of(all).contains(place_of(#[trigger] s[i])) by {
            if i < b.len() {
                assert(b[i] == s[i]);
                let k = choose|k: int| 0 <= k < places_of(d).len() && places_of(d)[k] == place_of(s[i]);
                assert(places_of(all)[k] == place_of(s[i]));
            } else if !places_of(d).contains(place_of(s.last())) {
                assert(places_of(all)[d.len() as int] == place_of(s[i]));
            }
        }
        assert forall|i: int| 0 <= i < all.len() implies s.contains(#[trigger] all[i]) by {
            if i < d.len() {
                assert(b.contains(d[i]));
                let k = choose|k: int| 0 <= k < b.len() && b[k] == d[i];
                assert(s[k] == all[i]);
            } else {
                assert(s[s.len() - 1] == all[i]);
            }
        }
    }
}

/// Each name with the ranges given for it, one for each place.
pub open spec fn grouped(pairs: Seq<(Seq<char>, HitRangeView)>) -> Map<Seq<char>, Seq<HitRangeView>> {
    Map::new(
        |k: Seq<char>| crate::ordered::values_of(pairs, k).len() > 0,
        |k: Seq<char>| distinct_ranges(crate::ordered::values_of(pairs, k)),
    )
}

/// The map that an export describes.
pub open spec fn function_map_of(fs: Seq<CoverageFunctionView>, root: Seq<char>, windows: bool) -> Map<
    Seq<char>,
    Seq<HitRangeView>,
> {
    grouped(all_ranges(fs, root, windows))
}

/// `distinct` keeps exactly the elements.
pub proof fn lemma_distinct_members<A>(s: Seq<A>)
    ensures
        forall|x: A| #[trigger] distinct(s).contains(x) <==> s.contains(x),
        distinct(s).len() > 0 <==> s.len() > 0,
        forall|i: int, j: int| 0 <= i < j < distinct(s).len() ==> #[trigger] distinct(s)[i] != #[trigger] distinct(s)[j],
    decreases s.len(),
{
    if s.len() > 0 {
        let b = s.drop_last();
        lemma_distinct_members(b);
        let d = distinct(b);
        assert forall|x: A| #[trigger] distinct(s).contains(x) <==> s.contains(x) by {
            if distinct(s).contains(x) {
                let i = choose|i: int| 0 <= i < distinct(s).len() && distinct(s)[i] == x;
                if i < d.len() {
                    assert(d[i] == x);
                    assert(d.contains(x));
                    let j = choose|j: int| 0 <= j < b.len() && b[j] == x;
                    assert(s[j] == x);
                } else {
                    assert(s[s.len() - 1] == x);
                }
            }
            if s.contains(x) {
                let i = choose|i: int| 0 <= i < s.len() && s[i] == x;
                if i < b.len() {
                    assert(b[i] == x);
                    assert(d.contains(x));
                    let j = choose|j: int| 0 <= j < d.len() && d[j] == x;
                    assert(distinct(s)[j] == x);
                } else if !d.contains(x) {
                    assert(distinct(s)[d.len() as int] == x);
                }
            }
        }
        if b.len() == 0 && d.contains(s.last()) {
            assert(b.contains(s.last()));
        }
        assert forall|i: int, j: int| 0 <= i < j < distinct(s).len() implies #[trigger] distinct(s)[i]
            != #[trigger] distinct(s)[j] by {
            if j == d.len() {
                assert(d[i] == distinct(s)[i]);
            }
        }
    }
}

/// A file without regions has the empty extent.
proof fn lemma_no_region(regions: Seq<CoverageRegion>, file_id: u64)
    requires
        !region_files(regions).contains(file_id),
    ensures
        first_line(regions, file_id) == i64::MAX,
        last_line(regions, file_id) == i64::MIN,
    decreases regions.len(),
{
    if regions.len() > 0 {
        let ids = regions.map_values(|r: CoverageRegion| r.file_id);
        lemma_distinct_members(ids);
        let b = regions.drop_last();
        let bids = b.map_values(|r: CoverageRegion| r.file_id);
        lemma_distinct_members(bids);
        if bids.contains(file_id) {
            let j = choose|j: int| 0 <= j < bids.len() && bids[j] == file_id;
            assert(ids[j] == file_id);
        }
        assert(ids[regions.len() - 1] == regions.last().file_id);
        lemma_no_region(b, file_id);
    }
}

/// The extent of a function contains every one of its regions, whichever of them a test
/// executed, and reaches no further than the regions do: the map is a superset of what an
/// executed extent would be.
pub proof fn law_extent_contains_every_region(regions: Seq<CoverageRegion>, file_id: u64)
    ensures
        forall|i: int|
            0 <= i < regions.len() && (#[trigger] regions[i]).file_id == file_id ==> first_line(regions, file_id)
                <= regions[i].line_start && regions[i].line_end <= last_line(regions, file_id),
        region_files(regions).contains(file_id) ==> (exists|i: int|
            0 <= i < regions.len() && (#[trigger] regions[i]).file_id == file_id && regions[i].line_start
                == first_line(regions, file_id)),
        region_files(regions).contains(file_id) ==> (exists|i: int|
            0 <= i < regions.len() && (#[trigger] regions[i]).file_id == file_id && regions[i].line_end
                == last_line(regions, file_id)),
    decreases regions.len(),
{
    let ids = regions.map_values(|r: CoverageRegion| r.file_id);
    lemma_distinct_members(ids);
    if regions.len() > 0 {
        let b = regions.drop_last();
        let bids = b.map_values(|r: CoverageRegion| r.file_id);
        lemma_distinct_members(bids);
        law_extent_contains_every_region(b, file_id);
        assert forall|i: int|
            0 <= i < regions.len() && (#[trigger] regions[i]).file_id == file_id implies first_line(regions, file_id)
            <= regions[i].line_start && regions[i].line_end <= last_line(regions, file_id) by {
            if i < b.len() {
                assert(b[i] == regions[i]);
            }
        }
        if region_files(b).contains(file_id) {
            let p = choose|i: int|
                0 <= i < b.len() && (#[trigger] b[i]).file_id == file_id && b[i].line_start == first_line(b, file_id);
            let q = choose|i: int|
                0 <= i < b.len() && (#[trigger] b[i]).file_id == file_id && b[i].line_end == last_line(b, file_id);
            assert(regions[p] == b[p] && regions[q] == b[q]);
            assert(regions[regions.len() - 1] == regions.last());
        } else {
            lemma_no_region(b, file_id);
            assert(regions[regions.len() - 1] == regions.last());
            if region_files(regions).contains(file_id) {
                let j = choose|j: int| 0 <= j < ids.len() && ids[j] == file_id;
                if j < b.len() {
                    assert(bids[j] == file_id);
                }
                assert(regions.last().file_id == file_id);
            }
        }
    } else {
        if ids.contains(file_id) {
            let j = choose|j: int| 0 <= j < ids.len() && ids[j] == file_id;
        }
    }
}

/// One extent of a function: the file, the first and the last line.
pub struct Extent {
    pub file_id: u64,
    pub line_start: i64,
    pub line_end: i64,
}

/// The extents of a function, one for each file of its regions.
fn extents_of(regions: &Vec<CoverageRegion>) -> (r: Vec<Extent>)
    ensures
        r@.len() == region_files(regions@).len(),
        forall|k: int| 0 <= k < r@.len() ==> (#[trigger] r@[k]).file_id == region_files(regions@)[k],
        forall|k: int|
            0 <= k < r@.len() ==> (#[trigger] r@[k]).line_start == first_line(regions@, r@[k].file_id),
        forall|k: int| 0 <= k < r@.len() ==> (#[trigger] r@[k]).line_end == last_line(regions@, r@[k].file_id),
{
    let mut out: Vec<Extent> = Vec::new();
    let mut i: usize = 0;
    while i < regions.len()
        invariant
            i <= regions.len(),
            out@.len() == region_files(regions@.take(i as int)).len(),
            forall|k: int|
                0 <= k < out@.len() ==> (#[trigger] out@[k]).file_id == region_files(regions@.take(i as int))[k],
            forall|k: int|
                0 <= k < out@.len() ==> (#[trigger] out@[k]).line_start == first_line(
                    regions@.take(i as int),
                    out@[k].file_id,
                ),
            forall|k: int|
                0 <= k < out@.len() ==> (#[trigger] out@[k]).line_end == last_line(
                    regions@.take(i as int),
                    out@[k].file_id,
                ),
        decreases regions.len() - i,
    {
        let ghost t = regions@.take(i as int);
        let ghost n = regions@.take(i + 1);
        let ghost ids = t.map_values(|r: CoverageRegion| r.file_id);
        let ghost nids = n.map_values(|r: CoverageRegion| r.file_id);
        proof {
            assert(n.drop_last() =~= t);
            assert(nids.drop_last() =~= ids);
            assert(nids.last() == regions@[i as int].file_id);
            lemma_distinct_members(ids);
        }
        let region = regions[i];
        let mut j: usize = 0;
        while j < out.len() && out[j].file_id != region.file_id
            invariant
                j <= out.len(),
                forall|k: int| 0 <= k < j ==> (#[trigger] out@[k]).file_id != region.file_id,
            decreases out.len() - j,
        {
            j += 1;
        }
        let ghost before = out@;
        if j < out.len() {
            assert(region_files(t)[j as int] == region.file_id);
            assert(region_files(t).contains(region.file_id));
            let e = &out[j];
            let start = if region.line_start < e.line_start {
                region.line_start
            } else {
                e.line_start
            };
            let end = if region.line_end > e.line_end {
                region.line_end
            } else {
                e.line_end
            };
            out.set(j, Extent { file_id: region.file_id, line_start: start, line_end: end });
            assert forall|k: int| 0 <= k < out@.len() implies (#[trigger] out@[k]).file_id == region_files(n)[k]
                && out@[k].line_start == first_line(n, out@[k].file_id) && out@[k].line_end == last_line(
                n,
                out@[k].file_id,
            ) by {
                assert(before[k].file_id == region_files(t)[k]);
                if k != j {
                    assert(region_files(t)[k] != region_files(t)[j as int]);
                }
            }
        } else {
            proof {
                if region_files(t).contains(region.file_id) {
                    let k = choose|k: int| 0 <= k < region_files(t).len() && region_files(t)[k] == region.file_id;
                    assert(out@[k].file_id == region.file_id);
                }
                lemma_no_region(t, region.file_id);
            }
            out.push(Extent { file_id: region.file_id, line_start: region.line_start, line_end: region.line_end });
            assert forall|k: int| 0 <= k < out@.len() implies (#[trigger] out@[k]).file_id == region_files(n)[k]
                && out@[k].line_start == first_line(n, out@[k].file_id) && out@[k].line_end == last_line(
                n,
                out@[k].file_id,
            ) by {
                if k < before.len() {
                    assert(before[k] == out@[k]);
                    assert(before[k].file_id == region_files(t)[k]);
                }
            }
        }
        i += 1;
    }
    assert(regions@.take(i as int) =~= regions@);
    out
}

/// Where a range lies.
fn place(r: &HitRange) -> (p: (Vec<String>, (i64, i64)))
    ensures
        p.deep_view() == place_of(r@),
{
    (path_code(r.file.as_str()), (r.line_start, r.line_end))
}

/// Whether two ranges lie in one place.
fn same_place(a: &HitRange, b: &HitRange) -> (r: bool)
    ensures
        r == (place_of(a@) == place_of(b@)),
{
    if a.line_start != b.line_start || a.line_end != b.line_end {
        return false;
    }
    let x = path_code(a.file.as_str());
    let y = path_code(b.file.as_str());
    proof {
        Vec::<String>::before_irreflexive(x.deep_view());
        Vec::<String>::before_total(x.deep_view(), y.deep_view());
    }
    !x.is_before(&y) && !y.is_before(&x)
}

/// Grouping one pair more.
proof fn lemma_grouped_push(pairs: Seq<(Seq<char>, HitRangeView)>, key: Seq<char>, value: HitRangeView)
    ensures
        grouped(pairs.push((key, value))) == grouped(pairs).insert(
            key,
            distinct_ranges(crate::ordered::values_of(pairs, key).push(value)),
        ),
{
    let n = pairs.push((key, value));
    assert(n.drop_last() =~= pairs);
    assert forall|k: Seq<char>| #[trigger] crate::ordered::values_of(n, k) == (if k == key {
        crate::ordered::values_of(pairs, k).push(value)
    } else {
        crate::ordered::values_of(pairs, k)
    }) by {}
    assert(grouped(n) =~= grouped(pairs).insert(
        key,
        distinct_ranges(crate::ordered::values_of(pairs, key).push(value)),
    ));
}

/// Adds a range of a function to the map, unless there is one in its place already.
fn add_range(map: &mut FunctionMap, name: &String, range: HitRange, Ghost(pairs): Ghost<Seq<(Seq<char>, HitRangeView)>>)
    requires
        old(map)@ == grouped(pairs),
    ensures
        final(map)@ == grouped(pairs.push((name@, range@))),
{
    let ghost v = crate::ordered::values_of(pairs, name@);
    let ghost d = distinct_ranges(v);
    proof {
        lemma_grouped_push(pairs, name@, range@);
        lemma_distinct_ranges(v);
        assert(v.push(range@).drop_last() =~= v);
    }
    let mut ranges: Vec<HitRange> = match map.remove(name) {
        Some(v) => v,
        None => {
            let v: Vec<HitRange> = Vec::new();
            assert(v.deep_view() =~= d);
            v
        },
    };
    assert(ranges.deep_view() == d);
    let mut i: usize = 0;
    while i < ranges.len() && !same_place(&ranges[i], &range)
        invariant
            i <= ranges.len(),
            ranges.deep_view() == d,
            forall|k: int| 0 <= k < i ==> place_of(#[trigger] d[k]) != place_of(range@),
        decreases ranges.len() - i,
    {
        assert(d[i as int] == ranges@[i as int]@);
        i += 1;
    }
    if i < ranges.len() {
        assert(d[i as int] == ranges@[i as int]@);
        assert(places_of(d)[i as int] == place_of(range@));
        assert(places_of(d).contains(place_of(range@)));
    } else {
        let ghost rv = range@;
        proof {
            if places_of(d).contains(place_of(rv)) {
                let k = choose|k: int| 0 <= k < places_of(d).len() && places_of(d)[k] == place_of(rv);
                assert(place_of(d[k]) == place_of(rv));
            }
        }
        ranges.push(range);
        assert(ranges.deep_view() =~= d.push(rv));
    }
    map.insert(name.clone(), ranges);
    assert(map@ =~= grouped(pairs.push((name@, range@))));
}

/// Adds the ranges of a function to the map.
fn add_function(
    map: &mut FunctionMap,
    f: &CoverageFunction,
    root: &str,
    windows: bool,
    Ghost(pairs): Ghost<Seq<(Seq<char>, HitRangeView)>>,
)
    requires
        old(map)@ == grouped(pairs),
    ensures
        final(map)@ == grouped(pairs + located_all(f@, region_files(f@.regions), root@, windows)),
{
    let extents = extents_of(&f.regions);
    assert(f.regions@ =~= f@.regions);
    let ghost ids = region_files(f@.regions);
    let ghost fv = f@;
    let mut i: usize = 0;
    assert(pairs + Seq::<(Seq<char>, HitRangeView)>::empty() =~= pairs);
    while i < extents.len()
        invariant
            i <= extents.len(),
            fv == f@,
            ids == region_files(fv.regions),
            extents.len() == ids.len(),
            forall|k: int| 0 <= k < extents@.len() ==> (#[trigger] extents@[k]).file_id == ids[k],
            forall|k: int|
                0 <= k < extents@.len() ==> (#[trigger] extents@[k]).line_start == first_line(
                    fv.regions,
                    extents@[k].file_id,
                ),
            forall|k: int|
                0 <= k < extents@.len() ==> (#[trigger] extents@[k]).line_end == last_line(
                    fv.regions,
                    extents@[k].file_id,
                ),
            map@ == grouped(pairs + located_all(fv, ids.take(i as int), root@, windows)),
        decreases extents.len() - i,
    {
        let e = &extents[i];
        let ghost before = located_all(fv, ids.take(i as int), root@, windows);
        assert(ids.take(i + 1).drop_last() =~= ids.take(i as int));
        if e.file_id < f.filenames.len() as u64 {
            let filename = &f.filenames[e.file_id as usize];
            assert(fv.filenames[e.file_id as int] == filename@);
            match strip_base(
                to_db_relative(filename.as_str(), windows).as_str(),
                to_db_relative(root, windows).as_str(),
            ) {
                Some(rel) => {
                    let range = HitRange {
                        file: rel,
                        line_start: e.line_start,
                        line_end: e.line_end,
                    };
                    assert((pairs + before).push((fv.name, range@)) =~= pairs + before.push((fv.name, range@)));
                    add_range(map, &f.name, range, Ghost(pairs + before));
                },
                None => {},
            }
        }
        i += 1;
    }
    assert(ids.take(i as int) =~= ids);
}

/// The map that the functions of an export describe.
///
/// `root` is the canonical project root; functions outside it are dropped. Several functions of
/// one name that land on the same source extent collapse to one range.
pub fn function_map(functions: &Vec<CoverageFunction>, root: &str, windows: bool) -> (r: FunctionMap)
    ensures
        r@ == function_map_of(functions.deep_view(), root@, windows),
{
    let mut map: FunctionMap = OrdMap::new();
    let ghost fs = functions.deep_view();
    let mut i: usize = 0;
    assert(map@ =~= grouped(Seq::<(Seq<char>, HitRangeView)>::empty()));
    assert(fs.take(0) =~= Seq::<CoverageFunctionView>::empty());
    while i < functions.len()
        invariant
            i <= functions.len(),
            fs == functions.deep_view(),
            map@ == grouped(all_ranges(fs.take(i as int), root@, windows)),
        decreases functions.len() - i,
    {
        proof {
            assert(fs[i as int] == functions@[i as int]@);
            assert(fs.take(i + 1).drop_last() =~= fs.take(i as int));
        }
        add_function(&mut map, &functions[i], root, windows, Ghost(all_ranges(fs.take(i as int), root@, windows)));
        i += 1;
    }
    assert(fs.take(i as int) =~= fs);
    map
}

/// What reading an export gives: the map, or why there is none.
pub open spec fn export_map(
    json: Result<crate::json::JsonView, Seq<char>>,
    root: Seq<char>,
    windows: bool,
) -> Result<Map<Seq<char>, Seq<HitRangeView>>, ExportErrorView> {
    match json {
        Ok(j) => match crate::coverage::export_functions(j) {
            Some(fs) => Ok(function_map_of(fs, root, windows)),
            None => Err(ExportErrorView::WrongShape),
        },
        Err(e) => Err(ExportErrorView::NotJson(e)),
    }
}

/// Builds one binary's [`FunctionMap`] from its `llvm-cov export` JSON.
pub fn build_function_map(json: &str, root: &str, windows: bool) -> (r: Result<FunctionMap, ExportError>)
    ensures
        match r {
            Ok(m) => export_map(crate::json::json_text(json@), root@, windows) == Ok::<
                Map<Seq<char>, Seq<HitRangeView>>,
                ExportErrorView,
            >(m@),
            Err(e) => export_map(crate::json::json_text(json@), root@, windows) == Err::<
                Map<Seq<char>, Seq<HitRangeView>>,
                ExportErrorView,
            >(e@),
        },
{
    match read_json(json) {
        Ok(j) => match read_export(&j) {
            Some(functions) => Ok(function_map(&functions, root, windows)),
            None => Err(ExportError::WrongShape),
        },
        Err(e) => Err(ExportError::NotJson(e)),
    }
}

/// The ranges of the executed functions, function by function.
pub open spec fn hits_in_order(executed: Seq<Seq<char>>, map: Map<Seq<char>, Seq<HitRangeView>>) -> Seq<HitRangeView>
    decreases executed.len(),
{
    if executed.len() == 0 {
        Seq::empty()
    } else {
        let before = hits_in_order(executed.drop_last(), map);
        if map.contains_key(executed.last()) {
            before + map[executed.last()]
        } else {
            before
        }
    }
}

/// The ranges of the executed functions, one for each place.
pub open spec fn ranges_hit(executed: Seq<Seq<char>>, map: Map<Seq<char>, Seq<HitRangeView>>) -> Set<HitRangeView> {
    distinct_ranges(hits_in_order(executed, map)).to_set()
}

/// A range is among the hits exactly if it belongs to one of the executed functions.
proof fn lemma_hits_in_order(executed: Seq<Seq<char>>, map: Map<Seq<char>, Seq<HitRangeView>>, r: HitRangeView)
    ensures
        hits_in_order(executed, map).contains(r) <==> exists|f: Seq<char>| #[trigger]
            map.contains_key(f) && executed.contains(f) && map[f].contains(r),
    decreases executed.len(),
{
    if executed.len() > 0 {
        let b = executed.drop_last();
        let last = executed.last();
        let before = hits_in_order(b, map);
        let all = hits_in_order(executed, map);
        lemma_hits_in_order(b, map, r);
        assert(executed[executed.len() - 1] == last);
        if all.contains(r) {
            let k = choose|k: int| 0 <= k < all.len() && all[k] == r;
            if k < before.len() {
                assert(before[k] == r);
                let f = choose|f: Seq<char>| #[trigger] map.contains_key(f) && b.contains(f) && map[f].contains(r);
                let i = choose|i: int| 0 <= i < b.len() && b[i] == f;
                assert(executed[i] == f);
                assert(executed.contains(f));
            } else {
                assert(map[last][k - before.len()] == r);
                assert(map.contains_key(last) && executed.contains(last));
            }
        }
        if exists|f: Seq<char>| #[trigger] map.contains_key(f) && executed.contains(f) && map[f].contains(r) {
            let f = choose|f: Seq<char>| #[trigger] map.contains_key(f) && executed.contains(f) && map[f].contains(r);
            let i = choose|i: int| 0 <= i < executed.len() && executed[i] == f;
            if i < b.len() {
                assert(b[i] == f);
                assert(b.contains(f));
                let k = choose|k: int| 0 <= k < before.len() && before[k] == r;
                assert(all[k] == r);
            } else {
                let k = choose|k: int| 0 <= k < map[f].len() && map[f][k] == r;
                assert(all[before.len() + k] == r);
            }
        }
    }
}

/// The profile of a test and the function map of its binary have nothing in common.
#[derive(Debug, Clone, Copy, PartialEq, Eq)]
pub struct NothingHit {
    /// How many functions the test executed.
    pub executed: usize,
    /// How many functions the map holds.
    pub mapped: usize,
}

/// The message about a test none of whose executed functions is in the map of its binary.
pub open spec fn nothing_hit_message(executed: nat, mapped: nat) -> Seq<char> {
    "none of the "@ + crate::text::decimal(executed) + " functions this test executed appear among the "@
        + crate::text::decimal(mapped)
        + " in its binary's function map — the profile and the map don't describe the same binary"@
}

impl NothingHit {
    /// The message for the user.
    pub fn message(&self) -> (r: String)
        ensures
            r@ == nothing_hit_message(self.executed as nat, self.mapped as nat),
    {
        String::from_str("none of the ").concat(count_text(self.executed).as_str()).concat(
            " functions this test executed appear among the ",
        ).concat(count_text(self.mapped).as_str()).concat(
            " in its binary's function map — the profile and the map don't describe the same binary",
        )
    }
}

/// Joins a test's executed functions against its binary's [`FunctionMap`], refusing a join that
/// matched nothing.
///
/// Individual misses are the normal case: most of what any test executes is dependency code,
/// which the map omits. Every name missing means that the two sides do not describe the same
/// binary, since a test always executes its own body.
pub fn hit_ranges(executed: &Vec<String>, map: &FunctionMap) -> (r: Result<OrdSet<HitRange>, NothingHit>)
    ensures
        match r {
            Ok(ranges) => ranges@ == ranges_hit(executed.deep_view(), map@) && ranges@ != Set::<HitRangeView>::empty(),
            Err(e) => {
                &&& ranges_hit(executed.deep_view(), map@) == Set::<HitRangeView>::empty()
                &&& e.executed == executed.len()
                &&& e.mapped == map@.dom().len()
            },
        },
{
    let mut ranges: OrdSet<HitRange> = OrdSet::new();
    let mut seen: OrdSet<(Vec<String>, (i64, i64))> = OrdSet::new();
    let ghost ex = executed.deep_view();
    let mut i: usize = 0;
    assert(ex.take(0) =~= Seq::<Seq<char>>::empty());
    assert(ranges@ =~= distinct_ranges(Seq::empty()).to_set());
    assert(seen@ =~= places_of(Seq::empty()).to_set());
    while i < executed.len()
        invariant
            i <= executed.len(),
            ex == executed.deep_view(),
            ranges@ == distinct_ranges(hits_in_order(ex.take(i as int), map@)).to_set(),
            seen@ == places_of(distinct_ranges(hits_in_order(ex.take(i as int), map@))).to_set(),
        decreases executed.len() - i,
    {
        let ghost before = hits_in_order(ex.take(i as int), map@);
        assert(ex[i as int] == executed@[i as int]@);
        assert(ex.take(i + 1).drop_last() =~= ex.take(i as int));
        match map.get(&executed[i]) {
            Some(function) => {
                let ghost fv = function.deep_view();
                let mut j: usize = 0;
                assert(before + fv.take(0) =~= before);
                while j < function.len()
                    invariant
                        j <= function.len(),
                        fv == function.deep_view(),
                        ranges@ == distinct_ranges(before + fv.take(j as int)).to_set(),
                        seen@ == places_of(distinct_ranges(before + fv.take(j as int))).to_set(),
                    decreases function.len() - j,
                {
                    let ghost d = distinct_ranges(before + fv.take(j as int));
                    let ghost r = fv[j as int];
                    proof {
                        assert(r == function@[j as int]@);
                        assert((before + fv.take(j + 1)).drop_last() =~= before + fv.take(j as int));
                        assert(seen@.contains(place_of(r)) == places_of(d).contains(place_of(r)));
                        assert(places_of(d.push(r)) =~= places_of(d).push(place_of(r)));
                        d.lemma_push_to_set_commute(r);
                        places_of(d).lemma_push_to_set_commute(place_of(r));
                    }
                    if seen.insert(place(&function[j])) {
                        ranges.insert(function[j].duplicate());
                    } else {
                        assert(seen@ =~= places_of(d).to_set());
                    }
                    j += 1;
                }
                assert(fv.take(j as int) =~= fv);
            },
            None => {},
        }
        i += 1;
    }
    assert(ex.take(i as int) =~= ex);
    if ranges.is_empty() {
        Err(NothingHit { executed: executed.len(), mapped: map.len() })
    } else {
        Ok(ranges)
    }
}

/// What a test hit lies within the map of its binary, and every function of the map that it
/// executed is hit in full: each of its ranges, or another way to write the same place.
pub proof fn law_hits_are_what_the_map_says(
    executed: Seq<Seq<char>>,
    map: Map<Seq<char>, Seq<HitRangeView>>,
    name: Seq<char>,
)
    requires
        executed.contains(name),
        map.contains_key(name),
    ensures
        forall|r: HitRangeView| #[trigger] map[name].contains(r) ==> exists|h: HitRangeView| #[trigger]
            ranges_hit(executed, map).contains(h) && place_of(h) == place_of(r),
        forall|r: HitRangeView| ranges_hit(executed, map).contains(r) ==> exists|f: Seq<char>| #[trigger]
            map.contains_key(f) && executed.contains(f) && map[f].contains(r),
{
    let hits = hits_in_order(executed, map);
    let d = distinct_ranges(hits);
    lemma_distinct_ranges(hits);
    assert forall|r: HitRangeView| #[trigger] map[name].contains(r) implies exists|h: HitRangeView| #[trigger]
        ranges_hit(executed, map).contains(h) && place_of(h) == place_of(r) by {
        lemma_hits_in_order(executed, map, r);
        assert(hits.contains(r));
        let i = choose|i: int| 0 <= i < hits.len() && hits[i] == r;
        assert(places_of(d).contains(place_of(hits[i])));
        let k = choose|k: int| 0 <= k < places_of(d).len() && places_of(d)[k] == place_of(r);
        assert(ranges_hit(executed, map).contains(d[k]));
    }
    assert forall|r: HitRangeView| ranges_hit(executed, map).contains(r) implies exists|f: Seq<char>| #[trigger]
        map.contains_key(f) && executed.contains(f) && map[f].contains(r) by {
        let k = choose|k: int| 0 <= k < d.len() && d[k] == r;
        assert(hits.contains(d[k]));
        lemma_hits_in_order(executed, map, r);
    }
}

/// A binary's identity at the moment its [`FunctionMap`] was exported: its length and its
/// modification time, which distinguish builds where the file name does not.
#[derive(Debug, Clone, Copy, PartialEq, Eq, Structural)]
pub struct BinaryStamp {
    pub len: u64,
    pub modified_secs: u64,
    pub modified_nanos: u32,
}

/// One binary's function map, with the stamp of the binary it describes.
#[derive(Debug, PartialEq, Eq)]
pub struct BinaryFunctionMap {
    pub binary: BinaryStamp,
    pub functions: FunctionMap,
}

} // verus!

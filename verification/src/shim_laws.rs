//! Laws of the runner: where it puts what it finds, and when a test counts as collected.

use vstd::prelude::*;
use crate::coverage::HitRangeView;
use crate::function_map::BinaryStamp;
use crate::shim;
use crate::shim::{Evidence, ExtractStepView, TestOutcomeView};

verus! {

/// Letters, digits, underscores, dashes and dots of a name stay, and everything else becomes an
/// underscore, so that a separator never does.
pub proof fn law_names_are_made_safe(name: Seq<char>, i: int)
    requires
        0 <= i < name.len(),
    ensures
        shim::sanitized(name).len() == name.len(),
        ('a' <= name[i] <= 'z') || ('A' <= name[i] <= 'Z') || ('0' <= name[i] <= '9') || name[i] == '_' || name[i] == '-'
            || name[i] == '.' ==> shim::sanitized(name)[i] == name[i],
        !(('a' <= name[i] <= 'z') || ('A' <= name[i] <= 'Z') || ('0' <= name[i] <= '9') || name[i] == '_' || name[i]
            == '-' || name[i] == '.') ==> shim::sanitized(name)[i] == '_',
        !shim::sanitized(name).contains('/'),
{
    let s = shim::sanitized(name);
    assert(!s.contains('/')) by {
        if s.contains('/') {
            let k = choose|k: int| 0 <= k < s.len() && s[k] == '/';
            assert(!shim::is_plain_char('/'));
        }
    }
}

/// The directory of a test is that of its binary and in it that of the test; its result is a file in the
/// directory of the binary.
pub proof fn law_tests_have_places_of_their_own(base: Seq<char>, binary: Seq<char>, test: Seq<char>)
    requires
        crate::path_laws::are_names(seq![shim::sanitized(binary), shim::sanitized(test)]),
        shim::sanitized(test) + ".json"@ != "."@,
    ensures
        crate::paths::path_parts(shim::test_dir_of(base, binary, test)) == crate::paths::path_parts(base) + seq![
            shim::sanitized(binary),
            shim::sanitized(test),
        ],
        crate::paths::path_parts(shim::result_file_of(base, binary, test)) == crate::paths::path_parts(base) + seq![
            shim::sanitized(binary),
            shim::sanitized(test) + ".json"@,
        ],
{
    reveal_strlit(".json");
    let b = shim::sanitized(binary);
    let t = shim::sanitized(test);
    let f = t + ".json"@;
    let names = seq![b, t];
    assert(names[0] == b && names[1] == t);
    lemma_one_name(base, b);
    let dir = crate::paths::joined_path(base, b);
    lemma_one_name(dir, t);
    assert(!f.contains('/')) by {
        if f.contains('/') {
            let i = choose|i: int| 0 <= i < f.len() && f[i] == '/';
            if i < t.len() {
                assert(t[i] == '/');
            }
        }
    }
    lemma_one_name(dir, f);
    assert(crate::paths::path_parts(base) + seq![b] + seq![t] =~= crate::paths::path_parts(base) + seq![b, t]);
    assert(crate::paths::path_parts(base) + seq![b] + seq![f] =~= crate::paths::path_parts(base) + seq![b, f]);
}

proof fn lemma_one_name(base: Seq<char>, name: Seq<char>)
    requires
        name.len() > 0,
        !name.contains('/'),
        name != "."@,
    ensures
        crate::paths::path_parts(crate::paths::joined_path(base, name)) == crate::paths::path_parts(base) + seq![name],
{
    let names = seq![name];
    assert(names[0] == name);
    crate::path_laws::law_joined_path_is_below(base, names);
    assert(crate::path_laws::path_of(names) == name);
}

/// The function map of a binary is found under the name of its file; a path without one has no map.
pub proof fn law_maps_are_found_by_file_name(dir: Seq<char>, names: Seq<Seq<char>>)
    requires
        crate::path_laws::are_names(names),
        names.len() > 0,
    ensures
        names.last() != ".."@ ==> shim::map_path_of(dir, crate::path_laws::path_of(names)) == Some(
            crate::paths::joined_path(dir, shim::sanitized(names.last()) + ".json"@),
        ),
        names.last() == ".."@ ==> shim::map_path_of(dir, crate::path_laws::path_of(names)) is None,
{
    crate::path_laws::law_file_name_is_the_last_name(names);
}

/// A function map applies exactly to the binary that it was exported from: one of the same length that was
/// last modified at the same time.
pub proof fn law_map_applies_to_its_build(map: BinaryStamp, current: BinaryStamp, binary: Seq<char>)
    ensures
        shim::stamp_problem(map, current, binary) is None <==> map.len == current.len && map.modified_secs
            == current.modified_secs && map.modified_nanos == current.modified_nanos,
{
}

/// A test is collected wherever everything went well and it hit something: there are profiles, the map is
/// that of the binary as it is, the profiles could be merged and read, and some executed function is in
/// the map. What it hit is then what is collected.
pub proof fn law_good_evidence_is_collected(e: Evidence, binary: Seq<char>, executed: Seq<Seq<char>>, x: int, k: int)
    requires
        e.profraws is Ok,
        e.profraws->Ok_0.len() > 0,
        e.map is Some,
        e.map->0 is Ok,
        e.map->0->Ok_0.0.binary.len == e.map->0->Ok_0.1.len,
        e.map->0->Ok_0.0.binary.modified_secs == e.map->0->Ok_0.1.modified_secs,
        e.map->0->Ok_0.0.binary.modified_nanos == e.map->0->Ok_0.1.modified_nanos,
        e.merge is Some,
        e.merge->0 is Ok,
        e.merge->0->Ok_0.code == Some(0i32),
        e.proftext is Some,
        e.proftext->0 is Ok,
        crate::coverage::executed_in(e.proftext->0->Ok_0@) == Ok::<Seq<Seq<char>>, crate::coverage::ProfileErrorView>(
            executed,
        ),
        0 <= x < executed.len(),
        e.map->0->Ok_0.0.functions@.contains_key(executed[x]),
        0 <= k < e.map->0->Ok_0.0.functions@[executed[x]].len(),
    ensures
        shim::extract_step(e, binary) == ExtractStepView::Done(
            TestOutcomeView::Collected {
                ranges: crate::function_map::ranges_hit(executed, e.map->0->Ok_0.0.functions@),
            },
        ),
{
    let map = e.map->0->Ok_0.0.functions@;
    let h = map[executed[x]][k];
    crate::coverage_laws::law_hits_are_ranges_of_executed_functions(executed, map, x, k, h);
    let r = choose|r: HitRangeView|
        {
            &&& #[trigger] crate::function_map::ranges_hit(executed, map).contains(r)
            &&& r.line_start == map[executed[x]][k].line_start
            &&& r.line_end == map[executed[x]][k].line_end
            &&& crate::paths::coded_path(r.file) == crate::paths::coded_path(map[executed[x]][k].file)
        };
    assert(crate::function_map::ranges_hit(executed, map).contains(r));
}

/// What is missing is asked for, and whatever goes wrong ends in a skipped test.
pub proof fn law_evidence_is_gathered_step_by_step(e: Evidence, binary: Seq<char>)
    ensures
        e.profraws is Err || (e.profraws is Ok && e.profraws->Ok_0.len() == 0) ==> shim::extract_step(e, binary)
            is Done && shim::extract_step(e, binary)->Done_0 is Skipped,
        e.profraws is Ok && e.profraws->Ok_0.len() > 0 ==> {
            let step = shim::extract_step(e, binary);
            &&& e.map is None ==> step == ExtractStepView::LoadMap
            &&& e.map is Some && e.map->0 is Err ==> step is Done && step->Done_0 is Skipped
            &&& e.map is Some && e.map->0 is Ok && e.map->0->Ok_0.0.binary != e.map->0->Ok_0.1 ==> step is Done
                && step->Done_0 is Skipped
            &&& e.map is Some && e.map->0 is Ok && e.map->0->Ok_0.0.binary == e.map->0->Ok_0.1 ==> {
                &&& e.merge is None ==> step == ExtractStepView::Merge
                &&& e.merge is Some && (e.merge->0 is Err || e.merge->0->Ok_0.code != Some(0i32)) ==> step is Done
                    && step->Done_0 is Skipped
                &&& e.merge is Some && e.merge->0 is Ok && e.merge->0->Ok_0.code == Some(0i32) ==> {
                    &&& e.proftext is None ==> step == ExtractStepView::ReadProfile
                    &&& e.proftext is Some && e.proftext->0 is Err ==> step is Done && step->Done_0 is Skipped
                }
            }
        },
{
}

/// The profiles of a test are all merged, into text and without records that were not hit.
pub proof fn law_all_profiles_are_merged(profraws: Seq<Seq<char>>, out: Seq<char>, i: int)
    requires
        0 <= i < profraws.len(),
    ensures
        ({
            let args = shim::merge_args_of(profraws, out);
            &&& args.contains(profraws[i])
            &&& args[0] == "merge"@
            &&& args[1] == "--sparse"@
            &&& args[2] == "--text"@
            &&& args[args.len() - 2] == "-o"@
            &&& args.last() == out
            &&& args.len() == profraws.len() + 5
        }),
{
    let args = shim::merge_args_of(profraws, out);
    assert(args[3 + i] == profraws[i]);
}

} // verus!

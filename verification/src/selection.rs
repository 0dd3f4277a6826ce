//! Which tests to run for a change: the tests that a changed line reaches, those without usable
//! coverage, and those that a configured rule names.
//!
//! Rows of one fingerprint can be anchored at several commits. Reachability is decided commit by
//! commit: rows at a missing one are not consulted, and a test anchored only there is rerun
//! rather than dropped.

use vstd::prelude::*;
use crate::db::{Db, DbView, Hit, HitKind, HitReason, TestId};
use crate::db::{HitReasonView, HitView, TestIdView};
use crate::diff::LineRange;
use crate::git::{git_added_files_since, git_changed_line_ranges, GitError, ShaRelation};
use crate::git::GitErrorView;
use crate::listing::{Listing, ListingView};
use crate::ordered::{Key, OrdMap, OrdSet};
use crate::process::ProcessOutput;
use crate::reasons::{
    aggregate_per_file_counts, collect_change_hits, reasons_by_test, strongest_by_file, FileReasonCounts,
};
use crate::text::{count_text, join_texts};

verus! {

/// Detail level for retained diagnostics.
#[derive(Debug, Clone, Copy, PartialEq, Eq, Structural)]
pub enum DiagnosticDetail {
    /// Per-file/per-kind aggregate counters only.
    Summary,
    /// Per-test reason vectors plus the per-file aggregates.
    Full,
}

/// How each stored commit relates to `HEAD`, and which of them can be compared with it.
#[derive(Debug)]
pub struct Reachability {
    pub per_sha: OrdMap<String, ShaRelation>,
    /// Commits that are still in the repository, ancestors and siblings of `HEAD` alike.
    pub reachable: OrdSet<String>,
    /// Commits that are not. Their rows stay stored but are not consulted.
    pub missing: OrdSet<String>,
    /// The largest number of commits by which `HEAD` is ahead of a reachable one.
    pub max_commits_ahead: u32,
}

/// How many commits `HEAD` is ahead of one with the given relation.
pub open spec fn ahead_of(relation: ShaRelation) -> u32 {
    match relation {
        ShaRelation::Reachable { commits_ahead } => commits_ahead,
        _ => 0,
    }
}

/// The reachable ones of the commits.
pub open spec fn reachable_shas(per_sha: Map<Seq<char>, ShaRelation>) -> Set<Seq<char>> {
    Set::new(|sha: Seq<char>| per_sha.contains_key(sha) && per_sha[sha] != ShaRelation::Missing)
}

/// The missing ones of the commits.
pub open spec fn missing_shas(per_sha: Map<Seq<char>, ShaRelation>) -> Set<Seq<char>> {
    Set::new(|sha: Seq<char>| per_sha.contains_key(sha) && per_sha[sha] == ShaRelation::Missing)
}

/// Whether no commit is further behind `HEAD` than `most`, and one is exactly so far, if not
/// zero.
pub open spec fn is_most_ahead(per_sha: Map<Seq<char>, ShaRelation>, most: u32) -> bool {
    &&& forall|sha: Seq<char>| #[trigger] per_sha.contains_key(sha) ==> ahead_of(per_sha[sha]) <= most
    &&& most > 0 ==> exists|sha: Seq<char>| #[trigger] per_sha.contains_key(sha) && ahead_of(per_sha[sha]) == most
}

impl Reachability {
    /// Whether this is the split of commits with these relations.
    pub open spec fn is_of(self, per_sha: Map<Seq<char>, ShaRelation>) -> bool {
        &&& self.per_sha@ == per_sha
        &&& self.reachable@ == reachable_shas(per_sha)
        &&& self.missing@ == missing_shas(per_sha)
        &&& is_most_ahead(per_sha, self.max_commits_ahead)
    }
}

/// Splits the stored commits by their relation to `HEAD`.
pub fn check_shas_reachable(per_sha: OrdMap<String, ShaRelation>) -> (r: Reachability)
    ensures
        r.is_of(per_sha@),
{
    let mut reachable: OrdSet<String> = OrdSet::new();
    let mut missing: OrdSet<String> = OrdSet::new();
    let mut most: u32 = 0;
    let ghost m = per_sha@;
    let ghost keys = per_sha.keys();
    {
        let entries = per_sha.entries();
        let mut i: usize = 0;
        while i < entries.len()
            invariant
                i <= entries.len(),
                entries.len() == keys.len(),
                m.dom() == keys.to_set(),
                forall|j: int| 0 <= j < entries.len() ==> {
                    &&& (#[trigger] entries@[j]).0@ == keys[j]
                    &&& m.contains_key(keys[j])
                    &&& m[keys[j]] == entries@[j].1
                },
                forall|s: Seq<char>| #[trigger]
                    reachable@.contains(s) <==> exists|j: int|
                        0 <= j < i && #[trigger] keys[j] == s && m[s] != ShaRelation::Missing,
                forall|s: Seq<char>| #[trigger]
                    missing@.contains(s) <==> exists|j: int|
                        0 <= j < i && #[trigger] keys[j] == s && m[s] == ShaRelation::Missing,
                forall|j: int| 0 <= j < i ==> ahead_of(m[#[trigger] keys[j]]) <= most,
                most > 0 ==> exists|j: int| 0 <= j < i && ahead_of(m[#[trigger] keys[j]]) == most,
            decreases entries.len() - i,
        {
            let ghost r0 = reachable@;
            let ghost m0 = missing@;
            let ghost most0 = most;
            assert(entries@[i as int].0@ == keys[i as int]);
            match entries[i].1 {
                ShaRelation::Equal => {
                    reachable.insert(entries[i].0.clone());
                },
                ShaRelation::Reachable { commits_ahead } => {
                    reachable.insert(entries[i].0.clone());
                    if commits_ahead > most {
                        most = commits_ahead;
                    }
                },
                ShaRelation::Missing => {
                    missing.insert(entries[i].0.clone());
                },
            }
            proof {
                assert forall|s: Seq<char>| #[trigger] reachable@.contains(s) <==> exists|j: int|
                    0 <= j < i + 1 && #[trigger] keys[j] == s && m[s] != ShaRelation::Missing by {
                    if r0.contains(s) {
                        let j = choose|j: int| 0 <= j < i && #[trigger] keys[j] == s && m[s] != ShaRelation::Missing;
                        assert(keys[j] == s);
                    }
                    if exists|j: int| 0 <= j < i + 1 && #[trigger] keys[j] == s && m[s] != ShaRelation::Missing {
                        let j = choose|j: int|
                            0 <= j < i + 1 && #[trigger] keys[j] == s && m[s] != ShaRelation::Missing;
                        if j < i {
                            assert(r0.contains(s));
                        }
                    }
                    assert(keys[i as int] == entries@[i as int].0@);
                }
                assert forall|s: Seq<char>| #[trigger] missing@.contains(s) <==> exists|j: int|
                    0 <= j < i + 1 && #[trigger] keys[j] == s && m[s] == ShaRelation::Missing by {
                    if m0.contains(s) {
                        let j = choose|j: int| 0 <= j < i && #[trigger] keys[j] == s && m[s] == ShaRelation::Missing;
                        assert(keys[j] == s);
                    }
                    if exists|j: int| 0 <= j < i + 1 && #[trigger] keys[j] == s && m[s] == ShaRelation::Missing {
                        let j = choose|j: int|
                            0 <= j < i + 1 && #[trigger] keys[j] == s && m[s] == ShaRelation::Missing;
                        if j < i {
                            assert(m0.contains(s));
                        }
                    }
                    assert(keys[i as int] == entries@[i as int].0@);
                }
                if most > 0 && most == most0 {
                    let j = choose|j: int| 0 <= j < i && ahead_of(m[#[trigger] keys[j]]) == most0;
                    assert(ahead_of(m[keys[j]]) == most);
                } else if most > 0 {
                    assert(ahead_of(m[keys[i as int]]) == most);
                }
            }
            i += 1;
        }
        proof {
            assert forall|s: Seq<char>| m.contains_key(s) implies keys.contains(s) by {
                assert(m.dom().contains(s));
            }
            assert forall|s: Seq<char>| reachable@.contains(s) == reachable_shas(m).contains(s) by {
                if reachable@.contains(s) {
                    let j = choose|j: int| 0 <= j < i && #[trigger] keys[j] == s && m[s] != ShaRelation::Missing;
                    assert(entries@[j].0@ == keys[j]);
                }
                if reachable_shas(m).contains(s) {
                    let j = choose|j: int| 0 <= j < keys.len() && keys[j] == s;
                    assert(keys[j] == s);
                }
            }
            assert forall|s: Seq<char>| missing@.contains(s) == missing_shas(m).contains(s) by {
                if missing@.contains(s) {
                    let j = choose|j: int| 0 <= j < i && #[trigger] keys[j] == s && m[s] == ShaRelation::Missing;
                    assert(entries@[j].0@ == keys[j]);
                }
                if missing_shas(m).contains(s) {
                    let j = choose|j: int| 0 <= j < keys.len() && keys[j] == s;
                    assert(keys[j] == s);
                }
            }
            assert(reachable@ =~= reachable_shas(m));
            assert(missing@ =~= missing_shas(m));
            assert forall|s: Seq<char>| #[trigger] m.contains_key(s) implies ahead_of(m[s]) <= most by {
                let j = choose|j: int| 0 <= j < keys.len() && keys[j] == s;
                assert(ahead_of(m[keys[j]]) <= most);
            }
            if most > 0 {
                let j = choose|j: int| 0 <= j < i && ahead_of(m[#[trigger] keys[j]]) == most;
                assert(entries@[j].0@ == keys[j]);
                assert(m.contains_key(keys[j]));
            }
        }
    }
    Reachability { per_sha, reachable, missing, max_commits_ahead: most }
}

/// The notice about commits that are not in the repository.
pub open spec fn missing_notice(missing: Set<Seq<char>>, verb_phrase: Seq<char>) -> Seq<char> {
    "note: "@ + crate::text::decimal(missing.len()) + " collect_sha"@ + (if missing.len() == 1 {
        ""@
    } else {
        "s"@
    }) + " not in the repo ("@ + crate::text::joined(crate::ordered::in_order::<String>(missing), ", "@)
        + ") — tests anchored only there "@ + verb_phrase
        + "; run `cargo affected clean` to clear stale rows"@
}

/// The notice about commits that are not in the repository. `verb_phrase` says what becomes of
/// the tests anchored only there.
pub fn missing_shas_notice(missing: &OrdSet<String>, verb_phrase: &str) -> (r: String)
    ensures
        r@ == missing_notice(missing@, verb_phrase@),
{
    let list = join_texts(missing.items(), ", ");
    proof {
        crate::ordered::lemma_in_order::<String>(missing.elems());
    }
    let plural = if missing.len() == 1 {
        ""
    } else {
        "s"
    };
    String::from_str("note: ").concat(count_text(missing.len()).as_str()).concat(" collect_sha").concat(plural).concat(
        " not in the repo (",
    ).concat(list.as_str()).concat(") — tests anchored only there ").concat(verb_phrase).concat(
        "; run `cargo affected clean` to clear stale rows",
    )
}

/// The changed line ranges of each file since each commit: the outer key is the commit that the
/// rows are anchored at.
pub type ChangedRangesBySha = OrdMap<String, OrdMap<String, Vec<LineRange>>>;

/// The value of [`ChangedRangesBySha`].
pub type RangesView = Map<Seq<char>, Map<Seq<char>, Seq<LineRange>>>;

/// The changed line ranges that git reported for each commit, or the first failure.
pub open spec fn ranges_per_sha(outputs: Seq<(Seq<char>, crate::process::ProcessOutputView)>) -> Result<RangesView, GitErrorView>
    decreases outputs.len(),
{
    if outputs.len() == 0 {
        Ok(Map::empty())
    } else {
        match ranges_per_sha(outputs.drop_last()) {
            Err(e) => Err(e),
            Ok(before) => match crate::git::changed_ranges(outputs.last().0, outputs.last().1) {
                Ok(ranges) => Ok(before.insert(outputs.last().0, ranges)),
                Err(e) => Err(e),
            },
        }
    }
}

/// The outputs of git for each commit.
pub open spec fn outputs_view(outputs: Seq<(String, ProcessOutput)>) -> Seq<(Seq<char>, crate::process::ProcessOutputView)> {
    outputs.map_values(|o: (String, ProcessOutput)| (o.0@, o.1@))
}

/// A failure stays the failure of everything that follows.
proof fn lemma_ranges_failed(outputs: Seq<(Seq<char>, crate::process::ProcessOutputView)>, n: int, e: GitErrorView)
    requires
        0 <= n <= outputs.len(),
        ranges_per_sha(outputs.take(n)) == Err::<RangesView, GitErrorView>(e),
    ensures
        ranges_per_sha(outputs) == Err::<RangesView, GitErrorView>(e),
    decreases outputs.len() - n,
{
    if n < outputs.len() {
        assert(outputs.take(n + 1).drop_last() =~= outputs.take(n));
        lemma_ranges_failed(outputs, n + 1, e);
    } else {
        assert(outputs.take(n) =~= outputs);
    }
}

/// Reads the hunks that git reported for each commit.
pub fn changed_ranges_per_sha(outputs: &Vec<(String, ProcessOutput)>) -> (r: Result<ChangedRangesBySha, GitError>)
    ensures
        match r {
            Ok(m) => ranges_per_sha(outputs_view(outputs@)) == Ok::<RangesView, GitErrorView>(m@),
            Err(e) => ranges_per_sha(outputs_view(outputs@)) == Err::<RangesView, GitErrorView>(e@),
        },
{
    let ghost d = outputs_view(outputs@);
    let mut out: ChangedRangesBySha = OrdMap::new();
    let mut i: usize = 0;
    assert(d.take(0) =~= Seq::<(Seq<char>, crate::process::ProcessOutputView)>::empty());
    while i < outputs.len()
        invariant
            i <= outputs.len(),
            d == outputs_view(outputs@),
            ranges_per_sha(d.take(i as int)) == Ok::<RangesView, GitErrorView>(out@),
        decreases outputs.len() - i,
    {
        assert(d[i as int] == (outputs@[i as int].0@, outputs@[i as int].1@));
        assert(d.take(i + 1).drop_last() =~= d.take(i as int));
        match git_changed_line_ranges(outputs[i].0.as_str(), &outputs[i].1) {
            Ok(ranges) => {
                out.insert(outputs[i].0.clone(), ranges);
            },
            Err(e) => {
                proof {
                    lemma_ranges_failed(d, i + 1, e@);
                }
                return Err(e);
            },
        }
        i += 1;
    }
    assert(d.take(i as int) =~= d);
    Ok(out)
}

/// The files that git reported as added since each commit, or the first failure.
pub open spec fn added_per_sha(outputs: Seq<(Seq<char>, crate::process::ProcessOutputView)>) -> Result<
    Map<Seq<char>, Set<Seq<char>>>,
    GitErrorView,
>
    decreases outputs.len(),
{
    if outputs.len() == 0 {
        Ok(Map::empty())
    } else {
        match added_per_sha(outputs.drop_last()) {
            Err(e) => Err(e),
            Ok(before) => match crate::git::failure(
                crate::git::GitQueryView::Added(outputs.last().0),
                outputs.last().1,
            ) {
                Some(e) => Err(e),
                None => Ok(
                    before.insert(outputs.last().0, crate::git::entries_of(outputs.last().1.stdout).to_set()),
                ),
            },
        }
    }
}

/// A failure stays the failure of everything that follows.
proof fn lemma_added_failed(outputs: Seq<(Seq<char>, crate::process::ProcessOutputView)>, n: int, e: GitErrorView)
    requires
        0 <= n <= outputs.len(),
        added_per_sha(outputs.take(n)) == Err::<Map<Seq<char>, Set<Seq<char>>>, GitErrorView>(e),
    ensures
        added_per_sha(outputs) == Err::<Map<Seq<char>, Set<Seq<char>>>, GitErrorView>(e),
    decreases outputs.len() - n,
{
    if n < outputs.len() {
        assert(outputs.take(n + 1).drop_last() =~= outputs.take(n));
        lemma_added_failed(outputs, n + 1, e);
    } else {
        assert(outputs.take(n) =~= outputs);
    }
}

/// Reads the files that git reported as added since each commit.
pub fn added_files_per_sha(outputs: &Vec<(String, ProcessOutput)>) -> (r: Result<
    OrdMap<String, OrdSet<String>>,
    GitError,
>)
    ensures
        match r {
            Ok(m) => added_per_sha(outputs_view(outputs@)) == Ok::<Map<Seq<char>, Set<Seq<char>>>, GitErrorView>(m@),
            Err(e) => added_per_sha(outputs_view(outputs@)) == Err::<Map<Seq<char>, Set<Seq<char>>>, GitErrorView>(e@),
        },
{
    let ghost d = outputs_view(outputs@);
    let mut out: OrdMap<String, OrdSet<String>> = OrdMap::new();
    let mut i: usize = 0;
    assert(d.take(0) =~= Seq::<(Seq<char>, crate::process::ProcessOutputView)>::empty());
    while i < outputs.len()
        invariant
            i <= outputs.len(),
            d == outputs_view(outputs@),
            added_per_sha(d.take(i as int)) == Ok::<Map<Seq<char>, Set<Seq<char>>>, GitErrorView>(out@),
        decreases outputs.len() - i,
    {
        assert(d[i as int] == (outputs@[i as int].0@, outputs@[i as int].1@));
        assert(d.take(i + 1).drop_last() =~= d.take(i as int));
        match git_added_files_since(outputs[i].0.as_str(), &outputs[i].1) {
            Ok(files) => {
                out.insert(outputs[i].0.clone(), files);
            },
            Err(e) => {
                proof {
                    lemma_added_failed(d, i + 1, e@);
                }
                return Err(e);
            },
        }
        i += 1;
    }
    assert(d.take(i as int) =~= d);
    Ok(out)
}

/// Whether a file has changed since some reachable commit: it was modified since one, was added
/// since one, or differs in the working tree.
pub open spec fn has_changed(
    ranges: RangesView,
    added: Map<Seq<char>, Set<Seq<char>>>,
    working_tree: Set<Seq<char>>,
    path: Seq<char>,
) -> bool {
    ||| working_tree.contains(path)
    ||| exists|sha: Seq<char>| #[trigger] ranges.contains_key(sha) && ranges[sha].contains_key(path)
    ||| exists|sha: Seq<char>| #[trigger] added.contains_key(sha) && added[sha].contains(path)
}

/// Adds the keys of a map.
fn add_keys<V: DeepView>(set: &mut OrdSet<String>, map: &OrdMap<String, V>)
    ensures
        final(set)@ == old(set)@.union(map@.dom()),
{
    let entries = map.entries();
    let ghost keys = map.keys();
    let mut i: usize = 0;
    assert(set@ =~= old(set)@.union(keys.take(0).to_set()));
    while i < entries.len()
        invariant
            i <= entries.len(),
            entries.len() == keys.len(),
            forall|j: int| 0 <= j < entries.len() ==> (#[trigger] entries@[j]).0@ == keys[j],
            set@ == old(set)@.union(keys.take(i as int).to_set()),
        decreases entries.len() - i,
    {
        set.insert(entries[i].0.clone());
        proof {
            assert(entries@[i as int].0@ == keys[i as int]);
            assert(keys.take(i + 1) =~= keys.take(i as int).push(keys[i as int]));
            keys.take(i as int).lemma_push_to_set_commute(keys[i as int]);
            assert(set@ =~= old(set)@.union(keys.take(i + 1).to_set()));
        }
        i += 1;
    }
    assert(keys.take(i as int) =~= keys);
}

/// The paths that have changed since any reachable commit, for matching against input rules.
/// Modified files come from the hunks, added ones, which have no hunks, from their own listing.
pub fn changed_paths_since(
    ranges: &ChangedRangesBySha,
    added: &OrdMap<String, OrdSet<String>>,
    working_tree: &OrdSet<String>,
) -> (r: OrdSet<String>)
    ensures
        forall|p: Seq<char>| #[trigger]
            r@.contains(p) <==> has_changed(ranges@, added@, working_tree@, p),
{
    let mut out = working_tree.duplicate();
    let entries = ranges.entries();
    let ghost keys = ranges.keys();
    let ghost m = ranges@;
    let mut i: usize = 0;
    while i < entries.len()
        invariant
            i <= entries.len(),
            m == ranges@,
            entries.len() == keys.len(),
            forall|j: int| 0 <= j < entries.len() ==> {
                &&& (#[trigger] entries@[j]).0@ == keys[j]
                &&& m.contains_key(keys[j])
                &&& m[keys[j]] == entries@[j].1@
            },
            forall|p: Seq<char>| #[trigger]
                out@.contains(p) <==> working_tree@.contains(p) || exists|j: int|
                    0 <= j < i && m[#[trigger] keys[j]].contains_key(p),
        decreases entries.len() - i,
    {
        let ghost o = out@;
        assert(entries@[i as int].0@ == keys[i as int]);
        add_keys(&mut out, &entries[i].1);
        proof {
            assert forall|p: Seq<char>| #[trigger] out@.contains(p) <==> working_tree@.contains(p) || exists|j: int|
                0 <= j < i + 1 && m[#[trigger] keys[j]].contains_key(p) by {
                if o.contains(p) && !working_tree@.contains(p) {
                    let j = choose|j: int| 0 <= j < i && m[#[trigger] keys[j]].contains_key(p);
                    assert(m[keys[j]].contains_key(p));
                }
                if m[keys[i as int]].contains_key(p) {
                    assert(out@.contains(p));
                }
                if exists|j: int| 0 <= j < i + 1 && m[#[trigger] keys[j]].contains_key(p) {
                    let j = choose|j: int| 0 <= j < i + 1 && m[#[trigger] keys[j]].contains_key(p);
                    if j < i {
                        assert(o.contains(p));
                    }
                }
            }
        }
        i += 1;
    }
    let ghost base = out@;
    let added_entries = added.entries();
    let ghost shas = added.keys();
    let ghost ad = added@;
    let mut k: usize = 0;
    while k < added_entries.len()
        invariant
            k <= added_entries.len(),
            ad == added@,
            added_entries.len() == shas.len(),
            forall|j: int| 0 <= j < added_entries.len() ==> {
                &&& (#[trigger] added_entries@[j]).0@ == shas[j]
                &&& ad.contains_key(shas[j])
                &&& ad[shas[j]] == added_entries@[j].1@
            },
            forall|p: Seq<char>| #[trigger]
                out@.contains(p) <==> base.contains(p) || exists|j: int|
                    0 <= j < k && ad[#[trigger] shas[j]].contains(p),
        decreases added_entries.len() - k,
    {
        let ghost o = out@;
        assert(added_entries@[k as int].0@ == shas[k as int]);
        out.extend(&added_entries[k].1);
        proof {
            assert forall|p: Seq<char>| #[trigger] out@.contains(p) <==> base.contains(p) || exists|j: int|
                0 <= j < k + 1 && ad[#[trigger] shas[j]].contains(p) by {
                if o.contains(p) && !base.contains(p) {
                    let j = choose|j: int| 0 <= j < k && ad[#[trigger] shas[j]].contains(p);
                    assert(ad[shas[j]].contains(p));
                }
                if ad[shas[k as int]].contains(p) {
                    assert(out@.contains(p));
                }
                if exists|j: int| 0 <= j < k + 1 && ad[#[trigger] shas[j]].contains(p) {
                    let j = choose|j: int| 0 <= j < k + 1 && ad[#[trigger] shas[j]].contains(p);
                    if j < k {
                        assert(o.contains(p));
                    }
                }
            }
        }
        k += 1;
    }
    proof {
        assert forall|p: Seq<char>| #[trigger] out@.contains(p) <==> has_changed(m, ad, working_tree@, p) by {
            if base.contains(p) && !working_tree@.contains(p) {
                let j = choose|j: int| 0 <= j < i && m[#[trigger] keys[j]].contains_key(p);
                assert(entries@[j].0@ == keys[j]);
                assert(m.contains_key(keys[j]));
            }
            if exists|sha: Seq<char>| #[trigger] m.contains_key(sha) && m[sha].contains_key(p) {
                let sha = choose|sha: Seq<char>| #[trigger] m.contains_key(sha) && m[sha].contains_key(p);
                assert(m.dom().contains(sha));
                let j = choose|j: int| 0 <= j < keys.len() && keys[j] == sha;
                assert(m[keys[j]].contains_key(p));
                assert(base.contains(p));
            }
            if out@.contains(p) && !base.contains(p) {
                let j = choose|j: int| 0 <= j < k && ad[#[trigger] shas[j]].contains(p);
                assert(added_entries@[j].0@ == shas[j]);
                assert(ad.contains_key(shas[j]));
            }
            if exists|sha: Seq<char>| #[trigger] ad.contains_key(sha) && ad[sha].contains(p) {
                let sha = choose|sha: Seq<char>| #[trigger] ad.contains_key(sha) && ad[sha].contains(p);
                assert(ad.dom().contains(sha));
                let j = choose|j: int| 0 <= j < shas.len() && shas[j] == sha;
                assert(ad[shas[j]].contains(p));
            }
        }
    }
    out
}

/// Diagnostics retained after selection.
#[derive(Debug)]
pub struct SelectionDiagnostics {
    pub per_file: OrdMap<String, FileReasonCounts>,
    /// The reasons of each test; nothing in summary mode.
    pub per_test: Option<OrdMap<TestId, Vec<HitReason>>>,
}

/// Which tests to run for a change.
#[derive(Debug)]
pub struct Selection {
    /// Tests that a changed line reaches.
    pub affected: OrdSet<TestId>,
    /// Listed tests without any stored coverage.
    pub new_tests: OrdSet<TestId>,
    /// Listed tests whose coverage is anchored only at missing commits.
    pub stranded_tests: OrdSet<TestId>,
    /// Tests with usable coverage that only an input rule names.
    pub config_tests: OrdSet<TestId>,
    /// How many tests have usable coverage.
    pub reachable_known_count: usize,
    /// Every listed test.
    pub listed: OrdSet<TestId>,
    pub diagnostics: SelectionDiagnostics,
}

/// What a selection is computed from.
pub struct Change {
    pub db: DbView,
    pub fingerprint: Seq<char>,
    /// The reachable ones of the stored commits.
    pub reachable: Set<Seq<char>>,
    pub ranges: RangesView,
    pub listing: ListingView,
    /// The tests that input rules name, by the changed path.
    pub config_hits: Map<Seq<char>, Set<TestIdView>>,
}

impl Change {
    /// The tests with usable coverage.
    pub open spec fn known(self) -> Set<TestIdView> {
        crate::db::tests_at(self.db.regions, self.fingerprint, self.reachable)
    }

    /// The tests with any coverage.
    pub open spec fn stored(self) -> Set<TestIdView> {
        crate::db::fingerprint_tests(self.db.regions, self.fingerprint)
    }

    /// The tests that a changed line reaches and that a run does not skip.
    pub open spec fn affected(self) -> Set<TestIdView> {
        Set::new(
            |t: TestIdView|
                !self.listing.is_skipped(t) && crate::reasons::change_selects(
                    self.db.regions,
                    self.fingerprint,
                    self.ranges,
                    t,
                ),
        )
    }

    /// The listed tests without any coverage that a run does not skip.
    pub open spec fn new_tests(self) -> Set<TestIdView> {
        Set::new(
            |t: TestIdView|
                self.listing.tests.contains(t) && !self.listing.is_skipped(t) && !self.known().contains(t)
                    && !self.stored().contains(t),
        )
    }

    /// The listed tests with coverage, but none that is usable, that a run does not skip.
    pub open spec fn stranded_tests(self) -> Set<TestIdView> {
        Set::new(
            |t: TestIdView|
                self.listing.tests.contains(t) && !self.listing.is_skipped(t) && !self.known().contains(t)
                    && self.stored().contains(t),
        )
    }

    /// Whether an input rule names a test.
    pub open spec fn is_named(self, t: TestIdView) -> bool {
        exists|path: Seq<char>| #[trigger] self.config_hits.contains_key(path) && self.config_hits[path].contains(t)
    }

    /// Whether a test that a rule names would be skipped but for the rule.
    pub open spec fn is_rescued(self, t: TestIdView) -> bool {
        !self.listing.is_skipped(t) && !self.affected().contains(t) && self.known().contains(t)
    }

    /// The tests that only an input rule selects.
    pub open spec fn config_tests(self) -> Set<TestIdView> {
        Set::new(|t: TestIdView| self.is_rescued(t) && self.is_named(t))
    }

    /// The reasons that rules give for those tests of a path that they rescue.
    pub open spec fn path_reasons(self, path: Seq<char>, tests: Seq<TestIdView>) -> Seq<HitView>
        decreases tests.len(),
    {
        if tests.len() == 0 {
            Seq::empty()
        } else {
            let before = self.path_reasons(path, tests.drop_last());
            if self.is_rescued(tests.last()) {
                before.push(HitView { test: tests.last(), reason: config_reason(path) })
            } else {
                before
            }
        }
    }

    /// The reasons that rules give, path by path.
    pub open spec fn config_reasons(self, paths: Seq<Seq<char>>) -> Seq<HitView>
        decreases paths.len(),
    {
        if paths.len() == 0 {
            Seq::empty()
        } else {
            self.config_reasons(paths.drop_last()) + self.path_reasons(
                paths.last(),
                crate::ordered::in_order::<TestId>(self.config_hits[paths.last()]),
            )
        }
    }

    /// All reasons: those of the changed lines, then those of the rules.
    pub open spec fn reasons(self) -> Seq<HitView> {
        crate::reasons::change_hits(self.db.regions, self.fingerprint, self.ranges).filter(
            |h: HitView| !self.listing.is_skipped(h.test),
        ) + self.config_reasons(crate::ordered::in_order::<String>(self.config_hits.dom()))
    }
}

/// The reason that a rule gives: it names the path, and no line.
pub open spec fn config_reason(path: Seq<char>) -> HitReasonView {
    HitReasonView {
        collect_sha: ""@,
        file: path,
        kind: HitKind::ConfigRule,
        matched_hunk: (0, 0),
        stored_range: None,
    }
}

impl Selection {
    /// Whether this is the selection for a change.
    pub open spec fn is_for(self, c: Change, detail: DiagnosticDetail) -> bool {
        &&& self.affected@ == c.affected()
        &&& self.new_tests@ == c.new_tests()
        &&& self.stranded_tests@ == c.stranded_tests()
        &&& self.config_tests@ == c.config_tests()
        &&& self.reachable_known_count == c.known().len()
        &&& self.listed@ == c.listing.tests
        &&& crate::reasons::counts_files(crate::reasons::strongest_kinds(c.reasons()), self.diagnostics.per_file@)
        &&& match (detail, self.diagnostics.per_test) {
            (DiagnosticDetail::Full, Some(m)) => m@ == crate::reasons::test_reasons(c.reasons()),
            (DiagnosticDetail::Summary, None) => true,
            _ => false,
        }
    }

    /// What nextest is asked to run.
    pub open spec fn selected_set(self) -> Set<TestIdView> {
        self.affected@.union(self.new_tests@).union(self.stranded_tests@).union(self.config_tests@)
    }

    /// The union of affected, new, stranded and rule-selected tests: what nextest is asked to
    /// run.
    pub fn selected(&self) -> (r: OrdSet<TestId>)
        ensures
            r@ == self.selected_set(),
    {
        let mut out = self.affected.duplicate();
        out.extend(&self.new_tests);
        out.extend(&self.stranded_tests);
        out.extend(&self.config_tests);
        out
    }

    /// How many tests with usable coverage are not selected.
    pub open spec fn skipped_count(self) -> int {
        let n = self.reachable_known_count - self.affected@.len() - self.config_tests@.len();
        if n < 0 {
            0
        } else {
            n
        }
    }

    /// How many tests with usable coverage are not selected.
    pub fn skipped(&self) -> (r: usize)
        ensures
            r == self.skipped_count(),
    {
        let a = self.affected.len();
        let c = self.config_tests.len();
        if a > self.reachable_known_count {
            return 0;
        }
        let rest: usize = self.reachable_known_count - a;
        if c > rest {
            0
        } else {
            rest - c
        }
    }
}

/// The map and the maps in it have finitely many keys.
proof fn lemma_finite_ranges(ranges: &ChangedRangesBySha)
    ensures
        crate::reasons::finite_ranges(ranges@),
{
    crate::ordered::lemma_pairs_map_finite(ranges.pairs());
    assert forall|sha: Seq<char>| #[trigger] ranges@.contains_key(sha) implies ranges@[sha].dom().finite() by {
        lemma_inner_finite(ranges, sha);
    }
}

proof fn lemma_inner_finite(ranges: &ChangedRangesBySha, sha: Seq<char>)
    requires
        ranges@.contains_key(sha),
    ensures
        ranges@[sha].dom().finite(),
{
    let i = choose|i: int| #[trigger] crate::ordered::holds_key_at(ranges.pairs(), sha, i);
    assert(ranges@[sha] == ranges.pairs()[i].1);
    let inner = crate::ordered::lemma_value_of_pair(*ranges, i);
    crate::ordered::lemma_pairs_map_finite(inner.pairs());
}

/// The hits whose test a run does not skip.
fn drop_skipped(hits: Vec<Hit>, listing: &Listing) -> (r: Vec<Hit>)
    ensures
        r.deep_view() == hits.deep_view().filter(|h: HitView| !listing@.is_skipped(h.test)),
{
    let ghost d = hits.deep_view();
    let ghost p = |h: HitView| !listing@.is_skipped(h.test);
    let mut out: Vec<Hit> = Vec::new();
    let mut i: usize = 0;
    assert(out.deep_view() =~= d.take(0).filter(p)) by {
        reveal(Seq::filter);
    }
    while i < hits.len()
        invariant
            i <= hits.len(),
            d == hits.deep_view(),
            p == (|h: HitView| !listing@.is_skipped(h.test)),
            out.deep_view() == d.take(i as int).filter(p),
        decreases hits.len() - i,
    {
        let ghost before = out.deep_view();
        proof {
            assert(d[i as int] == hits@[i as int]@);
            assert(d.take(i + 1) =~= d.take(i as int).push(d[i as int]));
            d.take(i as int).lemma_filter_push(d[i as int], p);
        }
        if !listing.skips(&hits[i].test_id) {
            out.push(hits[i].duplicate());
            assert(out.deep_view() =~= before.push(d[i as int]));
        }
        i += 1;
    }
    assert(d.take(i as int) =~= d);
    out
}

/// The tests of hits.
fn tests_of_hits(hits: &Vec<Hit>) -> (r: OrdSet<TestId>)
    ensures
        forall|t: TestIdView| #[trigger] r@.contains(t) <==> crate::reasons::names_test(hits.deep_view(), t),
{
    let ghost d = hits.deep_view();
    let mut out: OrdSet<TestId> = OrdSet::new();
    let mut i: usize = 0;
    while i < hits.len()
        invariant
            i <= hits.len(),
            d == hits.deep_view(),
            forall|t: TestIdView| #[trigger]
                out@.contains(t) <==> exists|j: int| 0 <= j < i && (#[trigger] d[j]).test == t,
        decreases hits.len() - i,
    {
        let ghost o = out@;
        assert(d[i as int] == hits@[i as int]@);
        out.insert(hits[i].test_id.duplicate());
        proof {
            assert forall|t: TestIdView| #[trigger] out@.contains(t) <==> exists|j: int|
                0 <= j < i + 1 && (#[trigger] d[j]).test == t by {
                if o.contains(t) {
                    let j = choose|j: int| 0 <= j < i && (#[trigger] d[j]).test == t;
                    assert(d[j].test == t);
                }
                if exists|j: int| 0 <= j < i + 1 && (#[trigger] d[j]).test == t {
                    let j = choose|j: int| 0 <= j < i + 1 && (#[trigger] d[j]).test == t;
                    if j < i {
                        assert(o.contains(t));
                    }
                }
            }
        }
        i += 1;
    }
    out
}

/// What filtering out skipped tests leaves of the tests that hits name.
pub proof fn lemma_kept_tests(hits: Seq<HitView>, listing: ListingView, t: TestIdView)
    ensures
        crate::reasons::names_test(hits.filter(|h: HitView| !listing.is_skipped(h.test)), t) <==> crate::reasons::names_test(
            hits,
            t,
        ) && !listing.is_skipped(t),
{
    let p = |h: HitView| !listing.is_skipped(h.test);
    let f = hits.filter(p);
    crate::ordered::lemma_filter_members(hits, p);
    if crate::reasons::names_test(f, t) {
        let i = choose|i: int| 0 <= i < f.len() && (#[trigger] f[i]).test == t;
        assert(f.contains(f[i]));
        let k = choose|k: int| 0 <= k < hits.len() && hits[k] == f[i];
        assert(hits[k].test == t);
    }
    if crate::reasons::names_test(hits, t) && !listing.is_skipped(t) {
        let i = choose|i: int| 0 <= i < hits.len() && (#[trigger] hits[i]).test == t;
        assert(hits.contains(hits[i]));
        assert(f.contains(hits[i]));
        let k = choose|k: int| 0 <= k < f.len() && f[k] == hits[i];
        assert(f[k].test == t);
    }
}

/// Appends the reasons that rules give for the tests of a path, and notes these tests.
fn push_path_reasons(
    out: &mut Vec<Hit>,
    found: &mut OrdSet<TestId>,
    path: &String,
    tests: &OrdSet<TestId>,
    listing: &Listing,
    affected: &OrdSet<TestId>,
    known: &OrdSet<TestId>,
    Ghost(c): Ghost<Change>,
)
    requires
        listing@ == c.listing,
        affected@ == c.affected(),
        known@ == c.known(),
    ensures
        final(out).deep_view() == old(out).deep_view() + c.path_reasons(
            path@,
            crate::ordered::in_order::<TestId>(tests@),
        ),
        forall|t: TestIdView| #[trigger]
            final(found)@.contains(t) <==> old(found)@.contains(t) || (tests@.contains(t) && c.is_rescued(t)),
{
    let items = tests.items();
    let ghost e = tests.elems();
    let ghost start = out.deep_view();
    proof {
        crate::ordered::lemma_in_order::<TestId>(e);
        assert(e.take(0) =~= Seq::<TestIdView>::empty());
        assert(start + Seq::<HitView>::empty() =~= start);
    }
    let mut i: usize = 0;
    while i < items.len()
        invariant
            i <= items.len(),
            e == items.deep_view(),
            listing@ == c.listing,
            affected@ == c.affected(),
            known@ == c.known(),
            out.deep_view() == start + c.path_reasons(path@, e.take(i as int)),
            forall|t: TestIdView| #[trigger]
                found@.contains(t) <==> old(found)@.contains(t) || exists|j: int|
                    0 <= j < i && #[trigger] e[j] == t && c.is_rescued(t),
        decreases items.len() - i,
    {
        let ghost before = out.deep_view();
        let ghost f0 = found@;
        assert(e[i as int] == items@[i as int]@);
        assert(e.take(i + 1).drop_last() =~= e.take(i as int));
        let test = &items[i];
        if !listing.skips(test) && !affected.contains(test) && known.contains(test) {
            let reason = HitReason {
                collect_sha: String::from_str(""),
                file: path.clone(),
                kind: HitKind::ConfigRule,
                matched_hunk: (0, 0),
                stored_range: None,
            };
            out.push(Hit { test_id: test.duplicate(), reason });
            found.insert(test.duplicate());
            assert(out.deep_view() =~= before.push(HitView { test: e[i as int], reason: config_reason(path@) }));
            assert(out.deep_view() =~= start + c.path_reasons(path@, e.take(i + 1)));
        }
        proof {
            assert forall|t: TestIdView| #[trigger] found@.contains(t) <==> old(found)@.contains(t) || exists|j: int|
                0 <= j < i + 1 && #[trigger] e[j] == t && c.is_rescued(t) by {
                if f0.contains(t) && !old(found)@.contains(t) {
                    let j = choose|j: int| 0 <= j < i && #[trigger] e[j] == t && c.is_rescued(t);
                    assert(e[j] == t);
                }
                if exists|j: int| 0 <= j < i + 1 && #[trigger] e[j] == t && c.is_rescued(t) {
                    let j = choose|j: int| 0 <= j < i + 1 && #[trigger] e[j] == t && c.is_rescued(t);
                    if j < i {
                        assert(f0.contains(t));
                    }
                }
                assert(e[i as int] == items@[i as int]@);
            }
        }
        i += 1;
    }
    proof {
        assert(e.take(i as int) =~= e);
        assert forall|t: TestIdView| #[trigger] found@.contains(t) <==> old(found)@.contains(t) || (tests@.contains(t)
            && c.is_rescued(t)) by {
            if tests@.contains(t) && c.is_rescued(t) {
                let j = choose|j: int| 0 <= j < e.len() && e[j] == t;
                assert(e[j] == t);
            }
            if exists|j: int| 0 <= j < i && #[trigger] e[j] == t && c.is_rescued(t) {
                let j = choose|j: int| 0 <= j < i && #[trigger] e[j] == t && c.is_rescued(t);
                assert(e.contains(e[j]));
            }
        }
    }
}

/// Appends the reasons that rules give; returns the tests that only a rule selects.
fn push_config_reasons(
    out: &mut Vec<Hit>,
    config_hits: &OrdMap<String, OrdSet<TestId>>,
    listing: &Listing,
    affected: &OrdSet<TestId>,
    known: &OrdSet<TestId>,
    Ghost(c): Ghost<Change>,
) -> (r: OrdSet<TestId>)
    requires
        config_hits@ == c.config_hits,
        listing@ == c.listing,
        affected@ == c.affected(),
        known@ == c.known(),
    ensures
        final(out).deep_view() == old(out).deep_view() + c.config_reasons(
            crate::ordered::in_order::<String>(c.config_hits.dom()),
        ),
        r@ == c.config_tests(),
{
    let entries = config_hits.entries();
    let ghost paths = config_hits.keys();
    let ghost m = config_hits@;
    let ghost start = out.deep_view();
    proof {
        crate::ordered::lemma_in_order::<String>(paths);
        assert(paths.take(0) =~= Seq::<Seq<char>>::empty());
        assert(start + Seq::<HitView>::empty() =~= start);
    }
    let mut found: OrdSet<TestId> = OrdSet::new();
    let mut i: usize = 0;
    while i < entries.len()
        invariant
            i <= entries.len(),
            entries.len() == paths.len(),
            m == c.config_hits,
            listing@ == c.listing,
            affected@ == c.affected(),
            known@ == c.known(),
            forall|j: int| 0 <= j < entries.len() ==> {
                &&& (#[trigger] entries@[j]).0@ == paths[j]
                &&& m.contains_key(paths[j])
                &&& m[paths[j]] == entries@[j].1@
            },
            out.deep_view() == start + c.config_reasons(paths.take(i as int)),
            forall|t: TestIdView| #[trigger]
                found@.contains(t) <==> exists|j: int|
                    0 <= j < i && m[#[trigger] paths[j]].contains(t) && c.is_rescued(t),
        decreases entries.len() - i,
    {
        let ghost f0 = found@;
        let ghost before = c.config_reasons(paths.take(i as int));
        let ghost own = c.path_reasons(paths[i as int], crate::ordered::in_order::<TestId>(m[paths[i as int]]));
        assert(entries@[i as int].0@ == paths[i as int]);
        assert(paths.take(i + 1).drop_last() =~= paths.take(i as int));
        push_path_reasons(out, &mut found, &entries[i].0, &entries[i].1, listing, affected, known, Ghost(c));
        proof {
            assert(start + before + own =~= start + (before + own));
            assert forall|t: TestIdView| #[trigger] found@.contains(t) <==> exists|j: int|
                0 <= j < i + 1 && m[#[trigger] paths[j]].contains(t) && c.is_rescued(t) by {
                if f0.contains(t) {
                    let j = choose|j: int| 0 <= j < i && m[#[trigger] paths[j]].contains(t) && c.is_rescued(t);
                    assert(m[paths[j]].contains(t));
                }
                if exists|j: int| 0 <= j < i + 1 && m[#[trigger] paths[j]].contains(t) && c.is_rescued(t) {
                    let j = choose|j: int| 0 <= j < i + 1 && m[#[trigger] paths[j]].contains(t) && c.is_rescued(t);
                    if j < i {
                        assert(f0.contains(t));
                    }
                }
                if m[paths[i as int]].contains(t) && c.is_rescued(t) {
                    assert(found@.contains(t));
                }
            }
        }
        i += 1;
    }
    proof {
        assert(paths.take(i as int) =~= paths);
        assert forall|t: TestIdView| found@.contains(t) == c.config_tests().contains(t) by {
            if found@.contains(t) {
                let j = choose|j: int| 0 <= j < i && m[#[trigger] paths[j]].contains(t) && c.is_rescued(t);
                assert(entries@[j].0@ == paths[j]);
                assert(m.contains_key(paths[j]));
            }
            if c.config_tests().contains(t) {
                let path = choose|path: Seq<char>| #[trigger] m.contains_key(path) && m[path].contains(t);
                assert(m.dom().contains(path));
                let j = choose|j: int| 0 <= j < paths.len() && paths[j] == path;
                assert(m[paths[j]].contains(t));
            }
        }
        assert(found@ =~= c.config_tests());
    }
    found
}

/// Splits the listed tests without usable coverage into those without any and the rest.
fn split_unknown(listing: &Listing, known: &OrdSet<TestId>, stored: &OrdSet<TestId>, Ghost(c): Ghost<Change>) -> (r: (
    OrdSet<TestId>,
    OrdSet<TestId>,
))
    requires
        listing@ == c.listing,
        known@ == c.known(),
        stored@ == c.stored(),
    ensures
        r.0@ == c.new_tests(),
        r.1@ == c.stranded_tests(),
{
    let mut new_tests: OrdSet<TestId> = OrdSet::new();
    let mut stranded: OrdSet<TestId> = OrdSet::new();
    let items = listing.tests.items();
    let ghost e = listing.tests.elems();
    let mut i: usize = 0;
    assert(e.take(0).to_set() =~= Set::<TestIdView>::empty());
    while i < items.len()
        invariant
            i <= items.len(),
            e == items.deep_view(),
            listing@ == c.listing,
            known@ == c.known(),
            stored@ == c.stored(),
            forall|t: TestIdView| #[trigger]
                new_tests@.contains(t) <==> e.take(i as int).to_set().contains(t) && !c.listing.is_skipped(t)
                    && !c.known().contains(t) && !c.stored().contains(t),
            forall|t: TestIdView| #[trigger]
                stranded@.contains(t) <==> e.take(i as int).to_set().contains(t) && !c.listing.is_skipped(t)
                    && !c.known().contains(t) && c.stored().contains(t),
        decreases items.len() - i,
    {
        let test = &items[i];
        proof {
            assert(e[i as int] == items@[i as int]@);
            assert(e.take(i + 1) =~= e.take(i as int).push(e[i as int]));
            e.take(i as int).lemma_push_to_set_commute(e[i as int]);
        }
        if !listing.skips(test) && !known.contains(test) {
            if stored.contains(test) {
                stranded.insert(test.duplicate());
            } else {
                new_tests.insert(test.duplicate());
            }
        }
        i += 1;
    }
    proof {
        assert(e.take(i as int) =~= e);
        assert(new_tests@ =~= c.new_tests());
        assert(stranded@ =~= c.stranded_tests());
    }
    (new_tests, stranded)
}

/// What a selection is computed from.
pub open spec fn change_of(
    db: DbView,
    fingerprint: Seq<char>,
    reachable: Set<Seq<char>>,
    ranges: RangesView,
    listing: ListingView,
    config_hits: Map<Seq<char>, Set<TestIdView>>,
) -> Change {
    Change { db, fingerprint, reachable, ranges, listing, config_hits }
}

/// Computes the selection from a listing, the changed lines since each reachable commit and what
/// the input rules name. Marks the fingerprint as used at `now`, so that eviction respects it.
pub fn compute(
    db: &mut Db,
    env_fingerprint: &str,
    reachable_shas: &OrdSet<String>,
    changed_ranges_by_sha: &ChangedRangesBySha,
    listing: &Listing,
    config_hits: &OrdMap<String, OrdSet<TestId>>,
    detail: DiagnosticDetail,
    now: &str,
) -> (r: Selection)
    ensures
        r.is_for(
            change_of(
                old(db)@,
                env_fingerprint@,
                reachable_shas@,
                changed_ranges_by_sha@,
                listing@,
                config_hits@,
            ),
            detail,
        ),
        final(db)@ == (DbView {
            fingerprints: old(db)@.fingerprints.insert(env_fingerprint@, now@),
            ..old(db)@
        }),
{
    let ghost c = change_of(
        db@,
        env_fingerprint@,
        reachable_shas@,
        changed_ranges_by_sha@,
        listing@,
        config_hits@,
    );
    db.touch(env_fingerprint, now);
    let known = db.all_tests_at_shas(env_fingerprint, reachable_shas);
    let stored = db.all_tests_for_fingerprint(env_fingerprint);
    let (new_tests, stranded_tests) = split_unknown(listing, &known, &stored, Ghost(c));
    let all = collect_change_hits(db, env_fingerprint, changed_ranges_by_sha);
    let ghost hv = all.deep_view();
    let mut reasons = drop_skipped(all, listing);
    let affected = tests_of_hits(&reasons);
    proof {
        vstd::seq_lib::seq_to_set_is_finite(db.regions.elems());
        lemma_finite_ranges(changed_ranges_by_sha);
        assert forall|t: TestIdView| affected@.contains(t) == c.affected().contains(t) by {
            lemma_kept_tests(hv, listing@, t);
            crate::reasons::law_change_hits_name_selected_tests(c.db.regions, c.fingerprint, c.ranges, t);
        }
        assert(affected@ =~= c.affected());
    }
    let config_tests = push_config_reasons(&mut reasons, config_hits, listing, &affected, &known, Ghost(c));
    let per_file = aggregate_per_file_counts(&strongest_by_file(&reasons));
    let per_test = match detail {
        DiagnosticDetail::Full => Some(reasons_by_test(&reasons)),
        DiagnosticDetail::Summary => None,
    };
    let listed = listing.tests.duplicate();
    Selection {
        affected,
        new_tests,
        stranded_tests,
        config_tests,
        reachable_known_count: known.len(),
        listed,
        diagnostics: SelectionDiagnostics { per_file, per_test },
    }
}

/// Computes the selection from the hunks that git reported for each reachable commit, without
/// input rules: what a collection of changed code reruns.
pub fn select_with_reach(
    db: &mut Db,
    fingerprint: &str,
    listing: &Listing,
    reach: &Reachability,
    hunks: &Vec<(String, ProcessOutput)>,
    detail: DiagnosticDetail,
    now: &str,
) -> (r: Result<Selection, GitError>)
    ensures
        match r {
            Ok(sel) => {
                &&& ranges_per_sha(outputs_view(hunks@)) is Ok
                &&& sel.is_for(
                    change_of(
                        old(db)@,
                        fingerprint@,
                        reach.reachable@,
                        ranges_per_sha(outputs_view(hunks@))->Ok_0,
                        listing@,
                        Map::empty(),
                    ),
                    detail,
                )
                &&& final(db)@ == (DbView {
                    fingerprints: old(db)@.fingerprints.insert(fingerprint@, now@),
                    ..old(db)@
                })
            },
            Err(e) => {
                &&& ranges_per_sha(outputs_view(hunks@)) == Err::<RangesView, GitErrorView>(e@)
                &&& final(db)@ == old(db)@
            },
        },
{
    match changed_ranges_per_sha(hunks) {
        Ok(ranges) => {
            let none: OrdMap<String, OrdSet<TestId>> = OrdMap::new();
            Ok(compute(db, fingerprint, &reach.reachable, &ranges, listing, &none, detail, now))
        },
        Err(e) => Err(e),
    }
}

/// Computes the selection from changed lines that are already known, with input rules.
pub fn select_with_precomputed_ranges(
    db: &mut Db,
    fingerprint: &str,
    listing: &Listing,
    reach: &Reachability,
    changed_ranges_by_sha: &ChangedRangesBySha,
    config_hits: &OrdMap<String, OrdSet<TestId>>,
    detail: DiagnosticDetail,
    now: &str,
) -> (r: Selection)
    ensures
        r.is_for(
            change_of(old(db)@, fingerprint@, reach.reachable@, changed_ranges_by_sha@, listing@, config_hits@),
            detail,
        ),
        final(db)@ == (DbView {
            fingerprints: old(db)@.fingerprints.insert(fingerprint@, now@),
            ..old(db)@
        }),
{
    compute(db, fingerprint, &reach.reachable, changed_ranges_by_sha, listing, config_hits, detail, now)
}

/// Why a selected test is selected, as the summary tags it.
pub open spec fn tag_of(sel: Selection, t: TestIdView) -> Seq<char> {
    if sel.new_tests@.contains(t) {
        " (new)"@
    } else if sel.stranded_tests@.contains(t) {
        " (stranded)"@
    } else if sel.config_tests@.contains(t) {
        " (config)"@
    } else {
        ""@
    }
}

/// One line for each test.
pub open spec fn summary_lines(sel: Selection, tests: Seq<TestIdView>) -> Seq<char>
    decreases tests.len(),
{
    if tests.len() == 0 {
        ""@
    } else {
        let t = tests.last();
        summary_lines(sel, tests.drop_last()) + "\n  "@ + t.0 + "::"@ + t.1 + tag_of(sel, t)
    }
}

/// The counts of a selection.
pub open spec fn summary_head(sel: Selection, verb: Seq<char>) -> Seq<char> {
    crate::text::decimal(sel.selected_set().len()) + " tests "@ + verb + " ("@ + crate::text::decimal(
        sel.affected@.len(),
    ) + " affected + "@ + crate::text::decimal(sel.config_tests@.len()) + " config + "@ + crate::text::decimal(
        sel.new_tests@.len(),
    ) + " new + "@ + crate::text::decimal(sel.stranded_tests@.len()) + " stranded, "@ + crate::text::decimal(
        sel.skipped_count() as nat,
    ) + " skipped of "@ + crate::text::decimal(sel.reachable_known_count as nat) + " reachable-known)"@
}

/// The summary of a selection: the counts and, if asked for, every test with its tag.
pub open spec fn summary_of(sel: Selection, verb: Seq<char>, verbose: bool) -> Seq<char> {
    if verbose {
        summary_head(sel, verb) + ":"@ + summary_lines(
            sel,
            crate::ordered::in_order::<TestId>(sel.selected_set()),
        )
    } else {
        summary_head(sel, verb) + " — pass -v to list"@
    }
}

/// The summary of a selection. `verb` says what becomes of the tests.
pub fn format_summary(sel: &Selection, verb: &str, verbose: bool) -> (r: String)
    ensures
        r@ == summary_of(*sel, verb@, verbose),
{
    let selected = sel.selected();
    let head = count_text(selected.len()).concat(" tests ").concat(verb).concat(" (").concat(
        count_text(sel.affected.len()).as_str(),
    ).concat(" affected + ").concat(count_text(sel.config_tests.len()).as_str()).concat(" config + ").concat(
        count_text(sel.new_tests.len()).as_str(),
    ).concat(" new + ").concat(count_text(sel.stranded_tests.len()).as_str()).concat(" stranded, ").concat(
        count_text(sel.skipped()).as_str(),
    ).concat(" skipped of ").concat(count_text(sel.reachable_known_count).as_str()).concat(" reachable-known)");
    if !verbose {
        return head.concat(" — pass -v to list");
    }
    let mut out = head.concat(":");
    let ghost start = out@;
    let items = selected.items();
    let ghost e = selected.elems();
    let mut i: usize = 0;
    proof {
        crate::ordered::lemma_in_order::<TestId>(e);
        assert(e.take(0) =~= Seq::<TestIdView>::empty());
        reveal_strlit("");
        assert(start + ""@ =~= start);
    }
    while i < items.len()
        invariant
            i <= items.len(),
            e == items.deep_view(),
            out@ == start + summary_lines(*sel, e.take(i as int)),
        decreases items.len() - i,
    {
        let ghost before = summary_lines(*sel, e.take(i as int));
        assert(e[i as int] == items@[i as int]@);
        assert(e.take(i + 1).drop_last() =~= e.take(i as int));
        let t = &items[i];
        let tag = if sel.new_tests.contains(t) {
            " (new)"
        } else if sel.stranded_tests.contains(t) {
            " (stranded)"
        } else if sel.config_tests.contains(t) {
            " (config)"
        } else {
            ""
        };
        out.append("\n  ");
        out.append(t.binary_id.as_str());
        out.append("::");
        out.append(t.test_name.as_str());
        out.append(tag);
        assert(out@ =~= start + (before + "\n  "@ + t@.0 + "::"@ + t@.1 + tag@));
        i += 1;
    }
    assert(e.take(i as int) =~= e);
    out
}

} // verus!

//! The diagnostic report of a run or a status: what the cache held, and why each test was
//! selected.

use vstd::prelude::*;
use crate::db::{Db, HitKind, HitReason, StoredFingerprintRow, TestId};
use crate::db::{HitReasonView, StoredFingerprintView, TestIdView};
use crate::diff::LineRange;
use crate::fingerprint::FingerprintComponent;
use crate::git::ShaRelation;
use crate::ordered::{Key, Descending, OrdMap, OrdSet};
use crate::reasons::FileReasonCounts;
use crate::selection::{ChangedRangesBySha, RangesView, Reachability, Selection};
use crate::sorting::sort_values;
use crate::text::{count_text, join_texts, number_text, same_text, wide_number_text};

verus! {

/// The version of the report's shape.
pub const SCHEMA_VERSION: u32 = 1;

/// What happened on the cache lookup.
#[derive(Debug, Clone, Copy, PartialEq, Eq, Structural)]
pub enum CacheStatus {
    /// Every stored commit is `HEAD`.
    HitExact,
    /// The fingerprint matched, but some stored commit is not `HEAD`.
    HitWithDivergence,
    /// Nothing is stored for this environment, but something is for another.
    MissFingerprint,
    /// Nothing is stored.
    MissNoCoverage,
    /// The fingerprint matched, but no stored commit is in the repository.
    MissNoReachableSha,
    /// All tests were asked for.
    ForcedAll,
}

/// The stable name of a status.
pub open spec fn status_name(s: CacheStatus) -> Seq<char> {
    match s {
        CacheStatus::HitExact => "hit-exact"@,
        CacheStatus::HitWithDivergence => "hit-with-divergence"@,
        CacheStatus::MissFingerprint => "miss-fingerprint"@,
        CacheStatus::MissNoCoverage => "miss-no-coverage"@,
        CacheStatus::MissNoReachableSha => "miss-no-reachable-sha"@,
        CacheStatus::ForcedAll => "forced-all"@,
    }
}

impl CacheStatus {
    /// The stable name of the status.
    pub fn as_str(self) -> (r: &'static str)
        ensures
            r@ == status_name(self),
    {
        match self {
            CacheStatus::HitExact => "hit-exact",
            CacheStatus::HitWithDivergence => "hit-with-divergence",
            CacheStatus::MissFingerprint => "miss-fingerprint",
            CacheStatus::MissNoCoverage => "miss-no-coverage",
            CacheStatus::MissNoReachableSha => "miss-no-reachable-sha",
            CacheStatus::ForcedAll => "forced-all",
        }
    }
}

/// The share of selected tests in percent, to the nearest whole number; all of nothing is
/// everything.
pub open spec fn percent(selected: nat, total: nat) -> nat {
    if total == 0 {
        100
    } else {
        (2 * selected * 100 + total) / (2 * total)
    }
}

/// What is said of the selection when the cache was hit.
pub open spec fn ratio_text(status: CacheStatus, selected: nat, total: nat) -> Seq<char> {
    "cargo-affected: cache="@ + status_name(status) + " selection="@ + crate::text::decimal(selected) + "/"@
        + crate::text::decimal(total) + " ("@ + crate::text::decimal(percent(selected, total)) + "%)"@
}

/// The line that sums a command up, for a reader that looks for it in the output.
pub open spec fn summary_text(
    status: CacheStatus,
    selection: Option<(usize, usize)>,
    missing_shas: usize,
    max_commits_ahead: u32,
) -> Seq<char> {
    let (selected, total) = match selection {
        Some((s, t)) => (s as nat, t as nat),
        None => (0nat, 0nat),
    };
    match status {
        CacheStatus::HitExact => ratio_text(status, selected, total),
        CacheStatus::HitWithDivergence => ratio_text(status, selected, total) + (if missing_shas > 0 {
            " missing_shas="@ + crate::text::decimal(missing_shas as nat)
        } else {
            ""@
        }) + (if max_commits_ahead > 0 {
            " max_commits_ahead="@ + crate::text::decimal(max_commits_ahead as nat)
        } else {
            ""@
        }),
        CacheStatus::MissNoReachableSha => "cargo-affected: cache="@ + status_name(status)
            + " mode=full-suite missing_shas="@ + crate::text::decimal(missing_shas as nat),
        _ => "cargo-affected: cache="@ + status_name(status) + " mode=full-suite"@,
    }
}

/// What is said of the selection when the cache was hit.
fn ratio_line(status: CacheStatus, selected: usize, total: usize) -> (r: String)
    ensures
        r@ == ratio_text(status, selected as nat, total as nat),
{
    let pct: u128 = if total == 0 {
        100
    } else {
        (2 * (selected as u128) * 100 + total as u128) / (2 * (total as u128))
    };
    assert(pct == percent(selected as nat, total as nat));
    String::from_str("cargo-affected: cache=").concat(status.as_str()).concat(" selection=").concat(
        count_text(selected).as_str(),
    ).concat("/").concat(count_text(total).as_str()).concat(" (").concat(wide_number_text(pct).as_str()).concat("%)")
}

/// The line that sums a command up: the ratio of selected tests on a hit, with what diverged, and
/// the mode elsewhere. `selection` is the number of selected tests and of tests with usable
/// coverage.
pub fn summary_line(
    status: CacheStatus,
    selection: Option<(usize, usize)>,
    missing_shas: usize,
    max_commits_ahead: u32,
) -> (r: String)
    ensures
        r@ == summary_text(status, selection, missing_shas, max_commits_ahead),
{
    let (selected, total): (usize, usize) = match selection {
        Some((s, t)) => (s, t),
        None => (0, 0),
    };
    match status {
        CacheStatus::HitExact => ratio_line(status, selected, total),
        CacheStatus::HitWithDivergence => {
            let mut line = ratio_line(status, selected, total);
            let ghost start = line@;
            if missing_shas > 0 {
                line.append(" missing_shas=");
                line.append(count_text(missing_shas).as_str());
            }
            proof {
                reveal_strlit("");
                assert(line@ =~= start + (if missing_shas > 0 {
                    " missing_shas="@ + crate::text::decimal(missing_shas as nat)
                } else {
                    ""@
                }));
            }
            let ghost middle = line@;
            if max_commits_ahead > 0 {
                line.append(" max_commits_ahead=");
                line.append(number_text(max_commits_ahead as u64).as_str());
            }
            assert(line@ =~= middle + (if max_commits_ahead > 0 {
                " max_commits_ahead="@ + crate::text::decimal(max_commits_ahead as nat)
            } else {
                ""@
            }));
            line
        },
        CacheStatus::MissNoReachableSha => String::from_str("cargo-affected: cache=").concat(status.as_str()).concat(
            " mode=full-suite missing_shas=",
        ).concat(count_text(missing_shas).as_str()),
        CacheStatus::MissFingerprint | CacheStatus::MissNoCoverage | CacheStatus::ForcedAll => String::from_str(
            "cargo-affected: cache=",
        ).concat(status.as_str()).concat(" mode=full-suite"),
    }
}

/// The hash of each label; of two components with one label the later counts.
pub open spec fn label_map(components: Seq<(Seq<char>, Seq<char>)>) -> Map<Seq<char>, Seq<char>>
    decreases components.len(),
{
    if components.len() == 0 {
        Map::empty()
    } else {
        label_map(components.drop_last()).insert(components.last().0, components.last().1)
    }
}

/// The labels in which two fingerprints differ: a label with different hashes, or on one side
/// only.
pub open spec fn differing(a: Map<Seq<char>, Seq<char>>, b: Map<Seq<char>, Seq<char>>) -> Set<Seq<char>> {
    Set::new(
        |label: Seq<char>|
            (a.contains_key(label) || b.contains_key(label)) && !(a.contains_key(label) && b.contains_key(label)
                && a[label] == b[label]),
    )
}

/// The labels in which two fingerprints differ, in order.
pub open spec fn differing_labels(a: Seq<(Seq<char>, Seq<char>)>, b: Seq<(Seq<char>, Seq<char>)>) -> Seq<Seq<char>> {
    crate::ordered::in_order::<String>(differing(label_map(a), label_map(b)))
}

/// It does not matter which fingerprint is compared with which, and one differs from itself in
/// nothing.
pub proof fn law_difference_is_symmetric(a: Seq<(Seq<char>, Seq<char>)>, b: Seq<(Seq<char>, Seq<char>)>)
    ensures
        differing_labels(a, b) == differing_labels(b, a),
        differing(label_map(a), label_map(a)) == Set::<Seq<char>>::empty(),
        differing(label_map(a), label_map(b)) == Set::<Seq<char>>::empty() <==> label_map(a) == label_map(b),
{
    let x = label_map(a);
    let y = label_map(b);
    assert(differing(x, y) =~= differing(y, x));
    assert(differing(x, x) =~= Set::<Seq<char>>::empty());
    if differing(x, y) == Set::<Seq<char>>::empty() {
        assert forall|l: Seq<char>| #![trigger x.dom().contains(l)] #![trigger y.dom().contains(l)]
            x.dom().contains(l) == y.dom().contains(l) && (x.dom().contains(l) ==> x[l] == y[l]) by {
            assert(!differing(x, y).contains(l));
        }
        assert(x =~= y);
    }
}

/// The hash of each label.
fn read_labels(components: &Vec<FingerprintComponent>) -> (r: OrdMap<String, String>)
    ensures
        r@ == label_map(components.deep_view()),
{
    let ghost d = components.deep_view();
    let mut m: OrdMap<String, String> = OrdMap::new();
    let mut i: usize = 0;
    assert(d.take(0) =~= Seq::<(Seq<char>, Seq<char>)>::empty());
    while i < components.len()
        invariant
            i <= components.len(),
            d == components.deep_view(),
            m@ == label_map(d.take(i as int)),
        decreases components.len() - i,
    {
        assert(d[i as int] == components@[i as int]@);
        assert(d.take(i + 1).drop_last() =~= d.take(i as int));
        m.insert(components[i].label.clone(), components[i].hash.clone());
        i += 1;
    }
    assert(d.take(i as int) =~= d);
    m
}

/// Adds the labels of one fingerprint that another has not, or has with another hash.
fn add_differing(out: &mut OrdSet<String>, a: &OrdMap<String, String>, b: &OrdMap<String, String>)
    ensures
        forall|l: Seq<char>| #[trigger]
            final(out)@.contains(l) <==> old(out)@.contains(l) || (a@.contains_key(l) && !(b@.contains_key(l) && a@[l]
                == b@[l])),
{
    let entries = a.entries();
    let ghost keys = a.keys();
    let ghost m = a@;
    let mut i: usize = 0;
    assert(keys.take(0).to_set() =~= Set::<Seq<char>>::empty());
    while i < entries.len()
        invariant
            i <= entries.len(),
            entries.len() == keys.len(),
            m == a@,
            forall|j: int| 0 <= j < entries.len() ==> {
                &&& (#[trigger] entries@[j]).0@ == keys[j]
                &&& m.contains_key(keys[j])
                &&& m[keys[j]] == entries@[j].1@
            },
            forall|l: Seq<char>| #[trigger]
                out@.contains(l) <==> old(out)@.contains(l) || (keys.take(i as int).to_set().contains(l) && !(
                b@.contains_key(l) && m[l] == b@[l])),
        decreases entries.len() - i,
    {
        proof {
            assert(entries@[i as int].0@ == keys[i as int]);
            assert(keys.take(i + 1) =~= keys.take(i as int).push(keys[i as int]));
            keys.take(i as int).lemma_push_to_set_commute(keys[i as int]);
        }
        let same = match b.get(&entries[i].0) {
            Some(h) => same_text(h.as_str(), entries[i].1.as_str()),
            None => false,
        };
        if !same {
            out.insert(entries[i].0.clone());
        }
        i += 1;
    }
    proof {
        assert(keys.take(i as int) =~= keys);
        assert forall|l: Seq<char>| keys.to_set().contains(l) == m.contains_key(l) by {
            assert(m.dom().contains(l) == keys.to_set().contains(l));
        }
    }
}

/// The labels in which two fingerprints differ, in order.
pub fn diff_labels(current: &Vec<FingerprintComponent>, stored: &Vec<FingerprintComponent>) -> (r: Vec<String>)
    ensures
        r.deep_view() == differing_labels(current.deep_view(), stored.deep_view()),
{
    let a = read_labels(current);
    let b = read_labels(stored);
    let mut out: OrdSet<String> = OrdSet::new();
    add_differing(&mut out, &a, &b);
    add_differing(&mut out, &b, &a);
    assert(out@ =~= differing(a@, b@));
    let labels = out.items();
    proof {
        crate::ordered::lemma_in_order::<String>(out.elems());
    }
    labels.duplicate()
}

/// A stored fingerprint, as the report receives it.
#[derive(Debug, PartialEq, Eq)]
pub struct StoredFingerprintSnapshot {
    pub fingerprint: String,
    pub last_seen: String,
    pub components: Vec<FingerprintComponent>,
}

impl View for StoredFingerprintSnapshot {
    type V = StoredFingerprintView;

    open spec fn view(&self) -> StoredFingerprintView {
        StoredFingerprintView {
            fingerprint: self.fingerprint@,
            last_seen: self.last_seen@,
            components: self.components.deep_view(),
        }
    }
}

impl DeepView for StoredFingerprintSnapshot {
    type V = StoredFingerprintView;

    open spec fn deep_view(&self) -> StoredFingerprintView {
        self@
    }
}

/// The snapshots of stored rows.
pub fn snapshots_from(rows: Vec<StoredFingerprintRow>) -> (r: Vec<StoredFingerprintSnapshot>)
    ensures
        r.deep_view() == rows.deep_view(),
{
    let ghost d = rows.deep_view();
    let mut rows = rows;
    let mut back: Vec<StoredFingerprintSnapshot> = Vec::new();
    while rows.len() > 0
        invariant
            rows.len() + back.len() == d.len(),
            rows.deep_view() == d.take(rows.len() as int),
            forall|i: int| 0 <= i < back.len() ==> #[trigger] back.deep_view()[i] == d[d.len() - 1 - i],
        decreases rows.len(),
    {
        let ghost r0 = rows.deep_view();
        let ghost b0 = back.deep_view();
        match rows.pop() {
            Some(row) => {
                assert(row@ == r0.last());
                let snap = StoredFingerprintSnapshot {
                    fingerprint: row.fingerprint,
                    last_seen: row.last_seen,
                    components: row.components,
                };
                let ghost sv = snap@;
                back.push(snap);
                assert(back.deep_view() =~= b0.push(sv));
                assert(rows.deep_view() =~= r0.drop_last());
                assert(rows.deep_view() =~= d.take(rows.len() as int));
            },
            None => {},
        }
    }
    let r = crate::sorting::reversed(back);
    assert(r.deep_view() =~= d);
    r
}

/// The first of the shortest lists.
pub open spec fn first_shortest(lists: Seq<Seq<Seq<char>>>) -> Option<Seq<Seq<char>>>
    decreases lists.len(),
{
    if lists.len() == 0 {
        None
    } else {
        match first_shortest(lists.drop_last()) {
            Some(best) => if lists.last().len() < best.len() {
                Some(lists.last())
            } else {
                Some(best)
            },
            None => Some(lists.last()),
        }
    }
}

/// The labels in which the current fingerprint differs from each stored one.
pub open spec fn all_differences(current: Seq<(Seq<char>, Seq<char>)>, stored: Seq<StoredFingerprintView>) -> Seq<
    Seq<Seq<char>>,
> {
    stored.map_values(|s: StoredFingerprintView| differing_labels(current, s.components))
}

/// The labels in which the current fingerprint differs from the closest stored one; none where
/// nothing is stored.
pub open spec fn closest_difference(
    current: Seq<(Seq<char>, Seq<char>)>,
    stored: Seq<StoredFingerprintView>,
) -> Seq<Seq<char>> {
    match first_shortest(all_differences(current, stored)) {
        Some(labels) => labels,
        None => Seq::empty(),
    }
}

/// The closest difference is one of the differences, and none is shorter.
pub proof fn law_closest_is_shortest(lists: Seq<Seq<Seq<char>>>)
    ensures
        lists.len() > 0 ==> first_shortest(lists) is Some,
        match first_shortest(lists) {
            Some(best) => lists.contains(best) && forall|i: int|
                0 <= i < lists.len() ==> best.len() <= (#[trigger] lists[i]).len(),
            None => true,
        },
    decreases lists.len(),
{
    if lists.len() > 0 {
        let b = lists.drop_last();
        law_closest_is_shortest(b);
        assert(lists[lists.len() - 1] == lists.last());
        match first_shortest(b) {
            Some(best) => {
                let k = choose|k: int| 0 <= k < b.len() && b[k] == best;
                assert(lists[k] == best);
                assert forall|i: int| 0 <= i < lists.len() implies first_shortest(lists)->0.len()
                    <= (#[trigger] lists[i]).len() by {
                    if i < b.len() {
                        assert(b[i] == lists[i]);
                    }
                }
            },
            None => {
                assert(b.len() == 0);
            },
        }
    }
}

/// The labels in which the current fingerprint differs from the closest stored one: what the user
/// is told when nothing is stored for the current environment.
pub fn closest_stored_diff_labels(
    current: &Vec<FingerprintComponent>,
    stored: &Vec<StoredFingerprintSnapshot>,
) -> (r: Vec<String>)
    ensures
        r.deep_view() == closest_difference(current.deep_view(), stored.deep_view()),
{
    let ghost d = stored.deep_view();
    let ghost c = current.deep_view();
    let ghost all = all_differences(c, d);
    let mut best: Option<Vec<String>> = None;
    let mut i: usize = 0;
    assert(all.take(0) =~= Seq::<Seq<Seq<char>>>::empty());
    while i < stored.len()
        invariant
            i <= stored.len(),
            d == stored.deep_view(),
            c == current.deep_view(),
            all == all_differences(c, d),
            best.deep_view() == first_shortest(all.take(i as int)),
        decreases stored.len() - i,
    {
        assert(d[i as int] == stored@[i as int]@);
        assert(all.take(i + 1).drop_last() =~= all.take(i as int));
        let labels = diff_labels(current, &stored[i].components);
        assert(labels.deep_view() == all[i as int]);
        best = match best {
            Some(b) => {
                assert(b.deep_view().len() == b.len() && labels.deep_view().len() == labels.len());
                if labels.len() < b.len() {
                    Some(labels)
                } else {
                    Some(b)
                }
            },
            None => Some(labels),
        };
        i += 1;
    }
    assert(all.take(i as int) =~= all);
    match best {
        Some(b) => b,
        None => {
            let none: Vec<String> = Vec::new();
            assert(none.deep_view() =~= Seq::<Seq<char>>::empty());
            none
        },
    }
}

/// The clause that names the labels in which the closest stored fingerprint differs.
pub open spec fn miss_clause(labels: Seq<Seq<char>>) -> Seq<char> {
    if labels.len() == 0 {
        ""@
    } else {
        " (differs from closest stored fingerprint in: "@ + crate::text::joined(labels, ", "@) + ")"@
    }
}

/// The clause that names the labels in which the closest stored fingerprint differs, with its
/// leading space; nothing for no labels.
pub fn fingerprint_miss_clause(labels: &Vec<String>) -> (r: String)
    ensures
        r@ == miss_clause(labels.deep_view()),
{
    assert(labels.deep_view().len() == labels.len());
    if labels.len() == 0 {
        String::from_str("")
    } else {
        String::from_str(" (differs from closest stored fingerprint in: ").concat(
            join_texts(labels, ", ").as_str(),
        ).concat(")")
    }
}

/// One input of the current fingerprint.
#[derive(Debug, PartialEq, Eq)]
pub struct ComponentEntry {
    pub label: String,
    pub hash: String,
}

impl DeepView for ComponentEntry {
    type V = (Seq<char>, Seq<char>);

    open spec fn deep_view(&self) -> (Seq<char>, Seq<char>) {
        (self.label@, self.hash@)
    }
}

/// A stored fingerprint and how it differs from the current one.
#[derive(Debug, PartialEq, Eq)]
pub struct StoredFingerprintEntry {
    pub fingerprint: String,
    pub last_seen: String,
    /// How many components differ. Zero: this is the current fingerprint.
    pub diff_count: usize,
    /// The labels of the differing components, in order.
    pub differing_labels: Vec<String>,
}

/// The value of a [`StoredFingerprintEntry`].
#[verifier::ext_equal]
pub struct StoredEntryView {
    pub fingerprint: Seq<char>,
    pub last_seen: Seq<char>,
    pub diff_count: nat,
    pub differing_labels: Seq<Seq<char>>,
}

impl DeepView for StoredFingerprintEntry {
    type V = StoredEntryView;

    open spec fn deep_view(&self) -> StoredEntryView {
        StoredEntryView {
            fingerprint: self.fingerprint@,
            last_seen: self.last_seen@,
            diff_count: self.diff_count as nat,
            differing_labels: self.differing_labels.deep_view(),
        }
    }
}

/// The entry of a stored fingerprint.
pub open spec fn stored_entry(snap: StoredFingerprintView, current: Seq<(Seq<char>, Seq<char>)>) -> StoredEntryView {
    let labels = differing_labels(current, snap.components);
    StoredEntryView {
        fingerprint: snap.fingerprint,
        last_seen: snap.last_seen,
        diff_count: labels.len(),
        differing_labels: labels,
    }
}

/// What a stored fingerprint is sorted by: the number of differences, and how recent it is.
pub open spec fn stored_pair(snap: StoredFingerprintView, current: Seq<(Seq<char>, Seq<char>)>) -> (
    (u64, Seq<char>),
    StoredEntryView,
) {
    (
        (differing_labels(current, snap.components).len() as u64, snap.last_seen),
        stored_entry(snap, current),
    )
}

/// The stored fingerprints: those with the fewest differences first, the most recent first among
/// equally close ones.
pub open spec fn stored_entries(stored: Seq<StoredFingerprintView>, current: Seq<(Seq<char>, Seq<char>)>) -> Seq<
    StoredEntryView,
> {
    crate::sorting::sorted_values::<(u64, Descending<String>), StoredEntryView>(
        stored.map_values(|s: StoredFingerprintView| stored_pair(s, current)),
    )
}

/// The stored fingerprints with their differences, the closest first, the most recent first among
/// equally close ones.
pub fn build_stored_fingerprints(
    stored: Vec<StoredFingerprintSnapshot>,
    current: &Vec<FingerprintComponent>,
) -> (r: Vec<StoredFingerprintEntry>)
    ensures
        r.deep_view() == stored_entries(stored.deep_view(), current.deep_view()),
{
    let ghost d = stored.deep_view();
    let ghost c = current.deep_view();
    let ghost f = |s: StoredFingerprintView| stored_pair(s, c);
    let mut pairs: Vec<((u64, Descending<String>), StoredFingerprintEntry)> = Vec::new();
    let mut i: usize = 0;
    assert(pairs.deep_view() =~= d.take(0).map_values(f));
    while i < stored.len()
        invariant
            i <= stored.len(),
            d == stored.deep_view(),
            c == current.deep_view(),
            f == (|s: StoredFingerprintView| stored_pair(s, c)),
            pairs.deep_view() == d.take(i as int).map_values(f),
        decreases stored.len() - i,
    {
        let snap = &stored[i];
        let ghost before = pairs.deep_view();
        assert(d[i as int] == snap@);
        let labels = diff_labels(current, &snap.components);
        assert(labels.deep_view().len() == labels.len());
        let count: usize = labels.len();
        let entry = StoredFingerprintEntry {
            fingerprint: snap.fingerprint.clone(),
            last_seen: snap.last_seen.clone(),
            diff_count: count,
            differing_labels: labels,
        };
        let pair = ((count as u64, Descending(snap.last_seen.clone())), entry);
        let ghost pv = pair.deep_view();
        assert(pv == f(d[i as int]));
        pairs.push(pair);
        assert(pairs.deep_view() =~= before.push(pv));
        assert(d.take(i + 1).map_values(f) =~= d.take(i as int).map_values(f).push(pv));
        i += 1;
    }
    assert(d.take(i as int) =~= d);
    sort_values(pairs)
}

/// How a stored commit relates to `HEAD`, without the number of commits.
#[derive(Debug, Clone, Copy, PartialEq, Eq, Structural)]
pub enum ShaRelationKind {
    Equal,
    Reachable,
    Missing,
}

/// A stored commit, as the report receives it.
#[derive(Debug, PartialEq, Eq)]
pub struct CollectShaSnapshot {
    pub sha: String,
    pub relation: ShaRelation,
    pub row_count: usize,
}

impl DeepView for CollectShaSnapshot {
    type V = (Seq<char>, ShaRelation, usize);

    open spec fn deep_view(&self) -> (Seq<char>, ShaRelation, usize) {
        (self.sha@, self.relation, self.row_count)
    }
}

/// A stored commit in the report.
#[derive(Debug, PartialEq, Eq)]
pub struct CollectShaEntry {
    pub sha: String,
    pub relation: ShaRelationKind,
    /// How many commits `HEAD` is ahead, for a commit that is in the repository and is not
    /// `HEAD`.
    pub commits_ahead: Option<u32>,
    /// How many rows are anchored at the commit.
    pub row_count: usize,
}

/// The value of a [`CollectShaEntry`].
#[verifier::ext_equal]
pub struct CollectShaView {
    pub sha: Seq<char>,
    pub relation: ShaRelationKind,
    pub commits_ahead: Option<u32>,
    pub row_count: usize,
}

impl DeepView for CollectShaEntry {
    type V = CollectShaView;

    open spec fn deep_view(&self) -> CollectShaView {
        CollectShaView {
            sha: self.sha@,
            relation: self.relation,
            commits_ahead: self.commits_ahead,
            row_count: self.row_count,
        }
    }
}

/// The entry of a stored commit.
pub open spec fn sha_entry(s: (Seq<char>, ShaRelation, usize)) -> CollectShaView {
    let (relation, commits_ahead) = match s.1 {
        ShaRelation::Equal => (ShaRelationKind::Equal, None),
        ShaRelation::Reachable { commits_ahead } => (ShaRelationKind::Reachable, Some(commits_ahead)),
        ShaRelation::Missing => (ShaRelationKind::Missing, None),
    };
    CollectShaView { sha: s.0, relation, commits_ahead, row_count: s.2 }
}

/// The stored commits in the order of their names.
pub open spec fn sha_entries(shas: Seq<(Seq<char>, ShaRelation, usize)>) -> Seq<CollectShaView> {
    crate::sorting::sorted_values::<String, CollectShaView>(
        shas.map_values(|s: (Seq<char>, ShaRelation, usize)| (s.0, sha_entry(s))),
    )
}

/// The stored commits in the order of their names.
pub fn build_collect_shas(shas: Vec<CollectShaSnapshot>) -> (r: Vec<CollectShaEntry>)
    ensures
        r.deep_view() == sha_entries(shas.deep_view()),
{
    let ghost d = shas.deep_view();
    let ghost f = |s: (Seq<char>, ShaRelation, usize)| (s.0, sha_entry(s));
    let mut pairs: Vec<(String, CollectShaEntry)> = Vec::new();
    let mut i: usize = 0;
    assert(pairs.deep_view() =~= d.take(0).map_values(f));
    while i < shas.len()
        invariant
            i <= shas.len(),
            d == shas.deep_view(),
            f == (|s: (Seq<char>, ShaRelation, usize)| (s.0, sha_entry(s))),
            pairs.deep_view() == d.take(i as int).map_values(f),
        decreases shas.len() - i,
    {
        let s = &shas[i];
        let ghost before = pairs.deep_view();
        assert(d[i as int] == s.deep_view());
        let (relation, commits_ahead): (ShaRelationKind, Option<u32>) = match s.relation {
            ShaRelation::Equal => (ShaRelationKind::Equal, None),
            ShaRelation::Reachable { commits_ahead } => (ShaRelationKind::Reachable, Some(commits_ahead)),
            ShaRelation::Missing => (ShaRelationKind::Missing, None),
        };
        let entry = CollectShaEntry { sha: s.sha.clone(), relation, commits_ahead, row_count: s.row_count };
        let pair = (s.sha.clone(), entry);
        let ghost pv = pair.deep_view();
        assert(pv == f(d[i as int]));
        pairs.push(pair);
        assert(pairs.deep_view() =~= before.push(pv));
        assert(d.take(i + 1).map_values(f) =~= d.take(i as int).map_values(f).push(pv));
        i += 1;
    }
    assert(d.take(i as int) =~= d);
    sort_values(pairs)
}

/// The stored commits of a reachability result; a commit without a count anchors no rows.
pub open spec fn sha_snapshots(per_sha: Map<Seq<char>, ShaRelation>, row_counts: Map<Seq<char>, usize>) -> Seq<
    (Seq<char>, ShaRelation, usize),
> {
    crate::ordered::in_order::<String>(per_sha.dom()).map_values(
        |sha: Seq<char>|
            (
                sha,
                per_sha[sha],
                if row_counts.contains_key(sha) {
                    row_counts[sha]
                } else {
                    0
                },
            ),
    )
}

/// The stored commits with their relation to `HEAD` and the number of their rows, zero for one
/// that anchors none.
pub fn collect_sha_snapshots(reach: &Reachability, row_counts: &OrdMap<String, usize>) -> (r: Vec<CollectShaSnapshot>)
    ensures
        r.deep_view() == sha_snapshots(reach.per_sha@, row_counts@),
{
    let entries = reach.per_sha.entries();
    let ghost keys = reach.per_sha.keys();
    let ghost m = reach.per_sha@;
    let ghost all = sha_snapshots(m, row_counts@);
    proof {
        crate::ordered::lemma_in_order::<String>(keys);
        assert(m.dom() == keys.to_set());
    }
    let mut out: Vec<CollectShaSnapshot> = Vec::new();
    let mut i: usize = 0;
    assert(out.deep_view() =~= all.take(0));
    while i < entries.len()
        invariant
            i <= entries.len(),
            entries.len() == keys.len(),
            m == reach.per_sha@,
            all == sha_snapshots(m, row_counts@),
            crate::ordered::in_order::<String>(m.dom()) == keys,
            forall|j: int| 0 <= j < entries.len() ==> {
                &&& (#[trigger] entries@[j]).0@ == keys[j]
                &&& m.contains_key(keys[j])
                &&& m[keys[j]] == entries@[j].1@
            },
            out.deep_view() == all.take(i as int),
        decreases entries.len() - i,
    {
        let ghost before = out.deep_view();
        assert(entries@[i as int].0@ == keys[i as int]);
        let row_count: usize = match row_counts.get(&entries[i].0) {
            Some(n) => *n,
            None => 0,
        };
        let snap = CollectShaSnapshot { sha: entries[i].0.clone(), relation: entries[i].1, row_count };
        let ghost sv = snap.deep_view();
        out.push(snap);
        assert(out.deep_view() =~= before.push(sv));
        assert(all[i as int] == sv);
        assert(all.take(i + 1) =~= all.take(i as int).push(sv));
        i += 1;
    }
    assert(all.take(i as int) =~= all);
    out
}

/// A changed file, as the report receives it.
#[derive(Debug)]
pub struct ChangedFileInput {
    pub path: String,
    pub tracked_by_coverage: bool,
    /// The hunks of the file, by the commit that it was compared with.
    pub hunks_by_sha: OrdMap<String, Vec<(i64, i64)>>,
}

/// The value of a [`ChangedFileInput`].
#[verifier::ext_equal]
pub struct ChangedFileInputView {
    pub path: Seq<char>,
    pub tracked_by_coverage: bool,
    pub hunks_by_sha: Map<Seq<char>, Seq<(i64, i64)>>,
}

impl DeepView for ChangedFileInput {
    type V = ChangedFileInputView;

    open spec fn deep_view(&self) -> ChangedFileInputView {
        ChangedFileInputView {
            path: self.path@,
            tracked_by_coverage: self.tracked_by_coverage,
            hunks_by_sha: self.hunks_by_sha@,
        }
    }
}

/// The first and the last line of each range.
pub open spec fn range_pairs(ranges: Seq<LineRange>) -> Seq<(i64, i64)> {
    ranges.map_values(|r: LineRange| (r.start, r.end))
}

/// The hunks of one file, by the commits in which it has any.
pub open spec fn hunks_of(ranges: RangesView, path: Seq<char>) -> Map<Seq<char>, Seq<(i64, i64)>> {
    Map::new(
        |sha: Seq<char>| ranges.contains_key(sha) && ranges[sha].contains_key(path),
        |sha: Seq<char>| range_pairs(ranges[sha][path]),
    )
}

/// A changed file, as the report receives it.
pub open spec fn changed_input(covered: Set<Seq<char>>, ranges: RangesView, path: Seq<char>) -> ChangedFileInputView {
    ChangedFileInputView {
        path,
        tracked_by_coverage: covered.contains(path),
        hunks_by_sha: hunks_of(ranges, path),
    }
}

/// The changed files in the order of their paths.
pub open spec fn changed_inputs(covered: Set<Seq<char>>, ranges: RangesView, paths: Set<Seq<char>>) -> Seq<
    ChangedFileInputView,
> {
    crate::ordered::in_order::<String>(paths).map_values(|path: Seq<char>| changed_input(covered, ranges, path))
}

/// The first and the last line of each range.
fn copy_ranges(ranges: &Vec<LineRange>) -> (r: Vec<(i64, i64)>)
    ensures
        r.deep_view() == range_pairs(ranges.deep_view()),
{
    let ghost d = ranges.deep_view();
    let mut out: Vec<(i64, i64)> = Vec::new();
    let mut i: usize = 0;
    assert(out.deep_view() =~= range_pairs(d.take(0)));
    while i < ranges.len()
        invariant
            i <= ranges.len(),
            d == ranges.deep_view(),
            out.deep_view() == range_pairs(d.take(i as int)),
        decreases ranges.len() - i,
    {
        let ghost before = out.deep_view();
        assert(d[i as int] == ranges@[i as int]);
        out.push((ranges[i].start, ranges[i].end));
        assert(out.deep_view() =~= before.push((d[i as int].start, d[i as int].end)));
        assert(range_pairs(d.take(i + 1)) =~= range_pairs(d.take(i as int)).push((d[i as int].start, d[i as int].end)));
        i += 1;
    }
    assert(d.take(i as int) =~= d);
    out
}

/// The hunks of one file, by the commits in which it has any.
fn hunks_of_file(ranges: &ChangedRangesBySha, path: &String) -> (r: OrdMap<String, Vec<(i64, i64)>>)
    ensures
        r@ == hunks_of(ranges@, path@),
{
    let entries = ranges.entries();
    let ghost keys = ranges.keys();
    let ghost m = ranges@;
    let mut out: OrdMap<String, Vec<(i64, i64)>> = OrdMap::new();
    let mut i: usize = 0;
    assert(out@ =~= Map::<Seq<char>, Seq<(i64, i64)>>::empty());
    assert(keys.take(0).to_set() =~= Set::<Seq<char>>::empty());
    while i < entries.len()
        invariant
            i <= entries.len(),
            entries.len() == keys.len(),
            m == ranges@,
            forall|j: int| 0 <= j < entries.len() ==> {
                &&& (#[trigger] entries@[j]).0@ == keys[j]
                &&& m.contains_key(keys[j])
                &&& m[keys[j]] == entries@[j].1@
            },
            forall|sha: Seq<char>| #[trigger]
                out@.contains_key(sha) <==> keys.take(i as int).to_set().contains(sha) && m[sha].contains_key(path@),
            forall|sha: Seq<char>| #[trigger] out@.contains_key(sha) ==> out@[sha] == range_pairs(m[sha][path@]),
        decreases entries.len() - i,
    {
        proof {
            assert(entries@[i as int].0@ == keys[i as int]);
            assert(keys.take(i + 1) =~= keys.take(i as int).push(keys[i as int]));
            keys.take(i as int).lemma_push_to_set_commute(keys[i as int]);
        }
        match entries[i].1.get(path) {
            Some(hunks) => {
                let copy = copy_ranges(hunks);
                out.insert(entries[i].0.clone(), copy);
            },
            None => {},
        }
        i += 1;
    }
    proof {
        assert(keys.take(i as int) =~= keys);
        assert(m.dom() == keys.to_set());
        assert(out@ =~= hunks_of(m, path@));
    }
    out
}

/// The changed files: for each path whether coverage tracks it, and its hunks against each
/// reachable commit. A path without hunks, such as that of an added file, is listed too.
pub fn build_changed_file_inputs(
    db: &Db,
    fingerprint: &str,
    reach: &Reachability,
    changed_ranges_by_sha: &ChangedRangesBySha,
    changed_paths: &OrdSet<String>,
) -> (r: Vec<ChangedFileInput>)
    ensures
        r.deep_view() == changed_inputs(
            crate::db::files_at(db@.regions, fingerprint@, reach.reachable@),
            changed_ranges_by_sha@,
            changed_paths@,
        ),
{
    let covered = db.tracked_files_at_shas(fingerprint, &reach.reachable);
    let paths = changed_paths.items();
    let ghost d = changed_paths.elems();
    let ghost g = changed_ranges_by_sha@;
    let ghost f = |path: Seq<char>| changed_input(covered@, g, path);
    proof {
        crate::ordered::lemma_in_order::<String>(d);
        assert(changed_paths@ == d.to_set());
    }
    let mut out: Vec<ChangedFileInput> = Vec::new();
    let mut i: usize = 0;
    assert(out.deep_view() =~= d.take(0).map_values(f));
    while i < paths.len()
        invariant
            i <= paths.len(),
            d == paths.deep_view(),
            g == changed_ranges_by_sha@,
            f == (|path: Seq<char>| changed_input(covered@, g, path)),
            out.deep_view() == d.take(i as int).map_values(f),
        decreases paths.len() - i,
    {
        let ghost before = out.deep_view();
        assert(d[i as int] == paths@[i as int]@);
        let input = ChangedFileInput {
            path: paths[i].clone(),
            tracked_by_coverage: covered.contains(&paths[i]),
            hunks_by_sha: hunks_of_file(changed_ranges_by_sha, &paths[i]),
        };
        let ghost iv = input.deep_view();
        assert(iv == f(d[i as int]));
        out.push(input);
        assert(out.deep_view() =~= before.push(iv));
        assert(d.take(i + 1).map_values(f) =~= d.take(i as int).map_values(f).push(iv));
        i += 1;
    }
    assert(d.take(i as int) =~= d);
    out
}

/// The lines of a hunk.
#[derive(Debug, PartialEq, Eq)]
pub struct HunkEntry {
    pub start: i64,
    pub end: i64,
}

impl DeepView for HunkEntry {
    type V = (i64, i64);

    open spec fn deep_view(&self) -> (i64, i64) {
        (self.start, self.end)
    }
}

/// The hunks of a file against one commit.
#[derive(Debug, PartialEq, Eq)]
pub struct HunksForSha {
    pub sha: String,
    pub hunks: Vec<HunkEntry>,
}

impl DeepView for HunksForSha {
    type V = (Seq<char>, Seq<(i64, i64)>);

    open spec fn deep_view(&self) -> (Seq<char>, Seq<(i64, i64)>) {
        (self.sha@, self.hunks.deep_view())
    }
}

/// How many tests a file pulled in, by their strongest reason.
#[derive(Debug, Clone, Copy, PartialEq, Eq, Structural)]
pub struct ReasonCounts {
    pub line_overlap: usize,
    pub structural_backstop: usize,
    pub crate_root_sentinel: usize,
    /// Tests that an input rule for this path pulled in.
    pub config_rule: usize,
}

/// A changed file in the report.
#[derive(Debug, PartialEq, Eq)]
pub struct ChangedFileEntry {
    pub path: String,
    /// Whether the file has a row at a reachable commit.
    pub tracked_by_coverage: bool,
    pub hunks_by_sha: Vec<HunksForSha>,
    pub tests_pulled_total: usize,
    pub tests_pulled_by_reason: ReasonCounts,
}

/// The value of a [`ChangedFileEntry`].
#[verifier::ext_equal]
pub struct ChangedFileView {
    pub path: Seq<char>,
    pub tracked_by_coverage: bool,
    pub hunks_by_sha: Seq<(Seq<char>, Seq<(i64, i64)>)>,
    pub tests_pulled_total: usize,
    pub tests_pulled_by_reason: ReasonCounts,
}

impl DeepView for ChangedFileEntry {
    type V = ChangedFileView;

    open spec fn deep_view(&self) -> ChangedFileView {
        ChangedFileView {
            path: self.path@,
            tracked_by_coverage: self.tracked_by_coverage,
            hunks_by_sha: self.hunks_by_sha.deep_view(),
            tests_pulled_total: self.tests_pulled_total,
            tests_pulled_by_reason: self.tests_pulled_by_reason,
        }
    }
}

/// The hunks of a file, in the order of the commits.
pub open spec fn listed_hunks(hunks: Map<Seq<char>, Seq<(i64, i64)>>) -> Seq<(Seq<char>, Seq<(i64, i64)>)> {
    crate::ordered::in_order::<String>(hunks.dom()).map_values(|sha: Seq<char>| (sha, hunks[sha]))
}

/// The entry of a changed file; one that pulled nothing in counts zero tests.
pub open spec fn changed_entry(f: ChangedFileInputView, counts: Map<Seq<char>, FileReasonCounts>) -> ChangedFileView {
    let (total, by_reason) = if counts.contains_key(f.path) {
        let c = counts[f.path];
        (
            c.total_unique_tests,
            ReasonCounts {
                line_overlap: c.line_overlap,
                structural_backstop: c.structural_backstop,
                crate_root_sentinel: c.crate_root_sentinel,
                config_rule: c.config_rule,
            },
        )
    } else {
        (0, ReasonCounts { line_overlap: 0, structural_backstop: 0, crate_root_sentinel: 0, config_rule: 0 })
    };
    ChangedFileView {
        path: f.path,
        tracked_by_coverage: f.tracked_by_coverage,
        hunks_by_sha: listed_hunks(f.hunks_by_sha),
        tests_pulled_total: total,
        tests_pulled_by_reason: by_reason,
    }
}

/// What a changed file is sorted by: how many tests it pulled in, and its path.
pub open spec fn changed_pair(f: ChangedFileInputView, counts: Map<Seq<char>, FileReasonCounts>) -> (
    (u64, Seq<char>),
    ChangedFileView,
) {
    ((changed_entry(f, counts).tests_pulled_total as u64, f.path), changed_entry(f, counts))
}

/// The changed files: those that pulled in the most tests first, by path among equals.
pub open spec fn changed_entries(
    inputs: Seq<ChangedFileInputView>,
    counts: Map<Seq<char>, FileReasonCounts>,
) -> Seq<ChangedFileView> {
    crate::sorting::sorted_values::<(Descending<u64>, String), ChangedFileView>(
        inputs.map_values(|f: ChangedFileInputView| changed_pair(f, counts)),
    )
}

/// The hunks as entries.
fn hunk_entries(hunks: &Vec<(i64, i64)>) -> (r: Vec<HunkEntry>)
    ensures
        r.deep_view() == hunks.deep_view(),
{
    let ghost d = hunks.deep_view();
    let mut out: Vec<HunkEntry> = Vec::new();
    let mut i: usize = 0;
    assert(out.deep_view() =~= d.take(0));
    while i < hunks.len()
        invariant
            i <= hunks.len(),
            d == hunks.deep_view(),
            out.deep_view() == d.take(i as int),
        decreases hunks.len() - i,
    {
        let ghost before = out.deep_view();
        assert(d[i as int] == hunks@[i as int].deep_view());
        out.push(HunkEntry { start: hunks[i].0, end: hunks[i].1 });
        assert(out.deep_view() =~= before.push(d[i as int]));
        assert(d.take(i + 1) =~= d.take(i as int).push(d[i as int]));
        i += 1;
    }
    assert(d.take(i as int) =~= d);
    out
}

/// The hunks of a file, in the order of the commits.
fn list_hunks(hunks: &OrdMap<String, Vec<(i64, i64)>>) -> (r: Vec<HunksForSha>)
    ensures
        r.deep_view() == listed_hunks(hunks@),
{
    let entries = hunks.entries();
    let ghost keys = hunks.keys();
    let ghost m = hunks@;
    let ghost f = |sha: Seq<char>| (sha, m[sha]);
    proof {
        crate::ordered::lemma_in_order::<String>(keys);
        assert(m.dom() == keys.to_set());
    }
    let mut out: Vec<HunksForSha> = Vec::new();
    let mut i: usize = 0;
    assert(out.deep_view() =~= keys.take(0).map_values(f));
    while i < entries.len()
        invariant
            i <= entries.len(),
            entries.len() == keys.len(),
            m == hunks@,
            f == (|sha: Seq<char>| (sha, m[sha])),
            forall|j: int| 0 <= j < entries.len() ==> {
                &&& (#[trigger] entries@[j]).0@ == keys[j]
                &&& m.contains_key(keys[j])
                &&& m[keys[j]] == entries@[j].1.deep_view()
            },
            out.deep_view() == keys.take(i as int).map_values(f),
        decreases entries.len() - i,
    {
        let ghost before = out.deep_view();
        assert(entries@[i as int].0@ == keys[i as int]);
        let entry = HunksForSha { sha: entries[i].0.clone(), hunks: hunk_entries(&entries[i].1) };
        let ghost ev = entry.deep_view();
        assert(ev == f(keys[i as int]));
        out.push(entry);
        assert(out.deep_view() =~= before.push(ev));
        assert(keys.take(i + 1).map_values(f) =~= keys.take(i as int).map_values(f).push(ev));
        i += 1;
    }
    assert(keys.take(i as int) =~= keys);
    out
}

/// The changed files, those that pulled in the most tests first, by path among equals.
pub fn build_changed_files_entries(
    inputs: &Vec<ChangedFileInput>,
    per_file_counts: &OrdMap<String, FileReasonCounts>,
) -> (r: Vec<ChangedFileEntry>)
    ensures
        r.deep_view() == changed_entries(inputs.deep_view(), per_file_counts@),
{
    let ghost d = inputs.deep_view();
    let ghost c = per_file_counts@;
    let ghost g = |f: ChangedFileInputView| changed_pair(f, c);
    let mut pairs: Vec<((Descending<u64>, String), ChangedFileEntry)> = Vec::new();
    let mut i: usize = 0;
    assert(pairs.deep_view() =~= d.take(0).map_values(g));
    while i < inputs.len()
        invariant
            i <= inputs.len(),
            d == inputs.deep_view(),
            c == per_file_counts@,
            g == (|f: ChangedFileInputView| changed_pair(f, c)),
            pairs.deep_view() == d.take(i as int).map_values(g),
        decreases inputs.len() - i,
    {
        let f = &inputs[i];
        let ghost before = pairs.deep_view();
        assert(d[i as int] == f.deep_view());
        let (total, by_reason): (usize, ReasonCounts) = match per_file_counts.get(&f.path) {
            Some(n) => (
                n.total_unique_tests,
                ReasonCounts {
                    line_overlap: n.line_overlap,
                    structural_backstop: n.structural_backstop,
                    crate_root_sentinel: n.crate_root_sentinel,
                    config_rule: n.config_rule,
                },
            ),
            None => (
                0,
                ReasonCounts { line_overlap: 0, structural_backstop: 0, crate_root_sentinel: 0, config_rule: 0 },
            ),
        };
        let entry = ChangedFileEntry {
            path: f.path.clone(),
            tracked_by_coverage: f.tracked_by_coverage,
            hunks_by_sha: list_hunks(&f.hunks_by_sha),
            tests_pulled_total: total,
            tests_pulled_by_reason: by_reason,
        };
        let pair = ((Descending(total as u64), f.path.clone()), entry);
        let ghost pv = pair.deep_view();
        assert(pv == g(d[i as int]));
        pairs.push(pair);
        assert(pairs.deep_view() =~= before.push(pv));
        assert(d.take(i + 1).map_values(g) =~= d.take(i as int).map_values(g).push(pv));
        i += 1;
    }
    assert(d.take(i as int) =~= d);
    sort_values(pairs)
}

/// Why a test is run.
#[derive(Debug, Clone, Copy, PartialEq, Eq, Structural)]
pub enum SelectedTestKind {
    Affected,
    /// An input rule selected a test that would otherwise be skipped.
    ConfigRule,
    New,
    Stranded,
}

/// The kind of a reason in the report.
#[derive(Debug, Clone, Copy, PartialEq, Eq, PartialOrd, Ord, Structural)]
pub enum ReasonKind {
    LineOverlap,
    StructuralBackstop,
    CrateRootSentinel,
    ConfigRule,
}

/// The kind of a hit in the report.
pub open spec fn reason_kind(kind: HitKind) -> ReasonKind {
    match kind {
        HitKind::LineOverlap => ReasonKind::LineOverlap,
        HitKind::StructuralBackstop => ReasonKind::StructuralBackstop,
        HitKind::CrateRootSentinel => ReasonKind::CrateRootSentinel,
        HitKind::ConfigRule => ReasonKind::ConfigRule,
    }
}

/// The place of a kind among the reasons of a test.
pub open spec fn kind_place(kind: ReasonKind) -> u64 {
    match kind {
        ReasonKind::LineOverlap => 0,
        ReasonKind::StructuralBackstop => 1,
        ReasonKind::CrateRootSentinel => 2,
        ReasonKind::ConfigRule => 3,
    }
}

impl ReasonKind {
    /// The kind of a hit in the report.
    pub fn from_hit(kind: HitKind) -> (r: Self)
        ensures
            r == reason_kind(kind),
    {
        match kind {
            HitKind::LineOverlap => ReasonKind::LineOverlap,
            HitKind::StructuralBackstop => ReasonKind::StructuralBackstop,
            HitKind::CrateRootSentinel => ReasonKind::CrateRootSentinel,
            HitKind::ConfigRule => ReasonKind::ConfigRule,
        }
    }

    /// The place of the kind among the reasons of a test.
    fn place(self) -> (r: u64)
        ensures
            r == kind_place(self),
    {
        match self {
            ReasonKind::LineOverlap => 0,
            ReasonKind::StructuralBackstop => 1,
            ReasonKind::CrateRootSentinel => 2,
            ReasonKind::ConfigRule => 3,
        }
    }
}

/// Why one changed file pulled a test in.
#[derive(Debug, PartialEq, Eq)]
pub struct ReasonEntry {
    pub collect_sha: String,
    pub file: String,
    pub kind: ReasonKind,
    /// The lines of the stored row that matched, where one did.
    pub stored_range: Option<(i64, i64)>,
    /// The lines of the hunk that triggered the selection.
    pub matched_hunk: (i64, i64),
}

/// The value of a [`ReasonEntry`].
#[verifier::ext_equal]
pub struct ReasonEntryView {
    pub collect_sha: Seq<char>,
    pub file: Seq<char>,
    pub kind: ReasonKind,
    pub stored_range: Option<(i64, i64)>,
    pub matched_hunk: (i64, i64),
}

impl DeepView for ReasonEntry {
    type V = ReasonEntryView;

    open spec fn deep_view(&self) -> ReasonEntryView {
        ReasonEntryView {
            collect_sha: self.collect_sha@,
            file: self.file@,
            kind: self.kind,
            stored_range: self.stored_range,
            matched_hunk: self.matched_hunk,
        }
    }
}

/// The entry of a reason.
pub open spec fn reason_view(r: HitReasonView) -> ReasonEntryView {
    ReasonEntryView {
        collect_sha: r.collect_sha,
        file: r.file,
        kind: reason_kind(r.kind),
        stored_range: r.stored_range,
        matched_hunk: r.matched_hunk,
    }
}

/// What a reason is sorted by: the file, the kind and the commit.
pub open spec fn reason_pair(r: HitReasonView) -> ((Seq<char>, (u64, Seq<char>)), ReasonEntryView) {
    ((r.file, (kind_place(reason_kind(r.kind)), r.collect_sha)), reason_view(r))
}

/// The reasons of a test by file, kind and commit; equal ones stay in their order.
pub open spec fn sorted_reasons(reasons: Seq<HitReasonView>) -> Seq<ReasonEntryView> {
    crate::sorting::sorted_values::<(String, (u64, String)), ReasonEntryView>(
        reasons.map_values(|r: HitReasonView| reason_pair(r)),
    )
}

/// The entry of a reason.
pub fn reason_entry(r: &HitReason) -> (e: ReasonEntry)
    ensures
        e.deep_view() == reason_view(r@),
{
    ReasonEntry {
        collect_sha: r.collect_sha.clone(),
        file: r.file.clone(),
        kind: ReasonKind::from_hit(r.kind),
        stored_range: r.stored_range,
        matched_hunk: r.matched_hunk,
    }
}

/// The reasons of a test by file, kind and commit.
fn sort_reasons(reasons: &Vec<HitReason>) -> (r: Vec<ReasonEntry>)
    ensures
        r.deep_view() == sorted_reasons(reasons.deep_view()),
{
    let ghost d = reasons.deep_view();
    let ghost f = |r: HitReasonView| reason_pair(r);
    let mut pairs: Vec<((String, (u64, String)), ReasonEntry)> = Vec::new();
    let mut i: usize = 0;
    assert(pairs.deep_view() =~= d.take(0).map_values(f));
    while i < reasons.len()
        invariant
            i <= reasons.len(),
            d == reasons.deep_view(),
            f == (|r: HitReasonView| reason_pair(r)),
            pairs.deep_view() == d.take(i as int).map_values(f),
        decreases reasons.len() - i,
    {
        let ghost before = pairs.deep_view();
        assert(d[i as int] == reasons@[i as int]@);
        let entry = reason_entry(&reasons[i]);
        let pair = ((entry.file.clone(), (entry.kind.place(), entry.collect_sha.clone())), entry);
        let ghost pv = pair.deep_view();
        assert(pv == f(d[i as int]));
        pairs.push(pair);
        assert(pairs.deep_view() =~= before.push(pv));
        assert(d.take(i + 1).map_values(f) =~= d.take(i as int).map_values(f).push(pv));
        i += 1;
    }
    assert(d.take(i as int) =~= d);
    sort_values(pairs)
}

/// A selected test.
#[derive(Debug, PartialEq, Eq)]
pub struct SelectedTestEntry {
    pub binary_id: String,
    pub test_name: String,
    pub kind: SelectedTestKind,
    /// All reasons that pulled the test in, by file, kind and commit. None for a new or a
    /// stranded test.
    pub reasons: Vec<ReasonEntry>,
}

/// The value of a [`SelectedTestEntry`].
#[verifier::ext_equal]
pub struct SelectedTestView {
    pub test: TestIdView,
    pub kind: SelectedTestKind,
    pub reasons: Seq<ReasonEntryView>,
}

impl DeepView for SelectedTestEntry {
    type V = SelectedTestView;

    open spec fn deep_view(&self) -> SelectedTestView {
        SelectedTestView {
            test: (self.binary_id@, self.test_name@),
            kind: self.kind,
            reasons: self.reasons.deep_view(),
        }
    }
}

/// The four groups of selected tests.
pub struct SelectedGroups {
    pub affected: Set<TestIdView>,
    pub config_tests: Set<TestIdView>,
    pub new_tests: Set<TestIdView>,
    pub stranded: Set<TestIdView>,
}

impl SelectedGroups {
    /// Every selected test.
    pub open spec fn all(self) -> Set<TestIdView> {
        self.affected.union(self.config_tests).union(self.new_tests).union(self.stranded)
    }

    /// Why a selected test is run.
    pub open spec fn kind(self, t: TestIdView) -> SelectedTestKind {
        if self.new_tests.contains(t) {
            SelectedTestKind::New
        } else if self.stranded.contains(t) {
            SelectedTestKind::Stranded
        } else if self.config_tests.contains(t) {
            SelectedTestKind::ConfigRule
        } else {
            SelectedTestKind::Affected
        }
    }

    /// The entry of a selected test.
    pub open spec fn entry(self, per_test: Map<TestIdView, Seq<HitReasonView>>, t: TestIdView) -> SelectedTestView {
        SelectedTestView {
            test: t,
            kind: self.kind(t),
            reasons: if per_test.contains_key(t) {
                sorted_reasons(per_test[t])
            } else {
                Seq::empty()
            },
        }
    }

    /// The entries of the selected tests, in their order.
    pub open spec fn entries(self, per_test: Map<TestIdView, Seq<HitReasonView>>) -> Seq<SelectedTestView> {
        crate::ordered::in_order::<TestId>(self.all()).map_values(|t: TestIdView| self.entry(per_test, t))
    }
}

/// The groups of a selection.
pub open spec fn groups_of(sel: Selection) -> SelectedGroups {
    SelectedGroups {
        affected: sel.affected@,
        config_tests: sel.config_tests@,
        new_tests: sel.new_tests@,
        stranded: sel.stranded_tests@,
    }
}

/// The selected tests in their order, each with its kind and its reasons.
pub fn build_selected_tests(
    affected: &OrdSet<TestId>,
    config_tests: &OrdSet<TestId>,
    new_tests: &OrdSet<TestId>,
    stranded: &OrdSet<TestId>,
    per_test: &OrdMap<TestId, Vec<HitReason>>,
) -> (r: Vec<SelectedTestEntry>)
    ensures
        r.deep_view() == (SelectedGroups {
            affected: affected@,
            config_tests: config_tests@,
            new_tests: new_tests@,
            stranded: stranded@,
        }).entries(per_test@),
{
    let ghost groups = SelectedGroups {
        affected: affected@,
        config_tests: config_tests@,
        new_tests: new_tests@,
        stranded: stranded@,
    };
    let mut union = affected.duplicate();
    union.extend(config_tests);
    union.extend(new_tests);
    union.extend(stranded);
    let tests = union.items();
    let ghost d = union.elems();
    let ghost p = per_test@;
    let ghost f = |t: TestIdView| groups.entry(p, t);
    proof {
        crate::ordered::lemma_in_order::<TestId>(d);
        assert(union@ == groups.all());
    }
    let mut out: Vec<SelectedTestEntry> = Vec::new();
    let mut i: usize = 0;
    assert(out.deep_view() =~= d.take(0).map_values(f));
    while i < tests.len()
        invariant
            i <= tests.len(),
            d == tests.deep_view(),
            p == per_test@,
            groups == (SelectedGroups {
                affected: affected@,
                config_tests: config_tests@,
                new_tests: new_tests@,
                stranded: stranded@,
            }),
            f == (|t: TestIdView| groups.entry(p, t)),
            out.deep_view() == d.take(i as int).map_values(f),
        decreases tests.len() - i,
    {
        let test = &tests[i];
        let ghost before = out.deep_view();
        assert(d[i as int] == test@);
        let kind = if new_tests.contains(test) {
            SelectedTestKind::New
        } else if stranded.contains(test) {
            SelectedTestKind::Stranded
        } else if config_tests.contains(test) {
            SelectedTestKind::ConfigRule
        } else {
            SelectedTestKind::Affected
        };
        let reasons: Vec<ReasonEntry> = match per_test.get(test) {
            Some(rs) => sort_reasons(rs),
            None => {
                let none: Vec<ReasonEntry> = Vec::new();
                assert(none.deep_view() =~= Seq::<ReasonEntryView>::empty());
                none
            },
        };
        let entry = SelectedTestEntry {
            binary_id: test.binary_id.clone(),
            test_name: test.test_name.clone(),
            kind,
            reasons,
        };
        let ghost ev = entry.deep_view();
        assert(ev == f(d[i as int]));
        out.push(entry);
        assert(out.deep_view() =~= before.push(ev));
        assert(d.take(i + 1).map_values(f) =~= d.take(i as int).map_values(f).push(ev));
        i += 1;
    }
    assert(d.take(i as int) =~= d);
    out
}

/// The part of the report on the cache.
#[derive(Debug, PartialEq, Eq)]
pub struct CacheReport {
    pub status: CacheStatus,
    pub current_fingerprint: Option<String>,
    pub current_components: Option<Vec<ComponentEntry>>,
    pub stored_fingerprints: Vec<StoredFingerprintEntry>,
    pub collect_shas: Vec<CollectShaEntry>,
}

/// The value of a [`CacheReport`].
#[verifier::ext_equal]
pub struct CacheReportView {
    pub status: CacheStatus,
    pub current_fingerprint: Option<Seq<char>>,
    pub current_components: Option<Seq<(Seq<char>, Seq<char>)>>,
    pub stored_fingerprints: Seq<StoredEntryView>,
    pub collect_shas: Seq<CollectShaView>,
}

impl View for CacheReport {
    type V = CacheReportView;

    open spec fn view(&self) -> CacheReportView {
        CacheReportView {
            status: self.status,
            current_fingerprint: self.current_fingerprint.deep_view(),
            current_components: self.current_components.deep_view(),
            stored_fingerprints: self.stored_fingerprints.deep_view(),
            collect_shas: self.collect_shas.deep_view(),
        }
    }
}

/// The part of the report on the cache. Without current components every label of a stored
/// fingerprint differs.
pub open spec fn cache_report(
    status: CacheStatus,
    current_fingerprint: Option<Seq<char>>,
    current_components: Option<Seq<(Seq<char>, Seq<char>)>>,
    stored: Seq<StoredFingerprintView>,
    shas: Seq<(Seq<char>, ShaRelation, usize)>,
) -> CacheReportView {
    CacheReportView {
        status,
        current_fingerprint,
        current_components,
        stored_fingerprints: stored_entries(
            stored,
            match current_components {
                Some(c) => c,
                None => Seq::empty(),
            },
        ),
        collect_shas: sha_entries(shas),
    }
}

/// The components as entries.
fn component_entries(components: &Vec<FingerprintComponent>) -> (r: Vec<ComponentEntry>)
    ensures
        r.deep_view() == components.deep_view(),
{
    let ghost d = components.deep_view();
    let mut out: Vec<ComponentEntry> = Vec::new();
    let mut i: usize = 0;
    assert(out.deep_view() =~= d.take(0));
    while i < components.len()
        invariant
            i <= components.len(),
            d == components.deep_view(),
            out.deep_view() == d.take(i as int),
        decreases components.len() - i,
    {
        let ghost before = out.deep_view();
        assert(d[i as int] == components@[i as int]@);
        out.push(ComponentEntry { label: components[i].label.clone(), hash: components[i].hash.clone() });
        assert(out.deep_view() =~= before.push(d[i as int]));
        assert(d.take(i + 1) =~= d.take(i as int).push(d[i as int]));
        i += 1;
    }
    assert(d.take(i as int) =~= d);
    out
}

/// The part of the report on the cache.
pub fn build_cache(
    status: CacheStatus,
    current_fingerprint: Option<String>,
    current_components: Option<Vec<FingerprintComponent>>,
    stored_fingerprints: Vec<StoredFingerprintSnapshot>,
    collect_shas: Vec<CollectShaSnapshot>,
) -> (r: CacheReport)
    ensures
        r@ == cache_report(
            status,
            current_fingerprint.deep_view(),
            current_components.deep_view(),
            stored_fingerprints.deep_view(),
            collect_shas.deep_view(),
        ),
{
    let (components, stored) = match &current_components {
        Some(c) => (Some(component_entries(c)), build_stored_fingerprints(stored_fingerprints, c)),
        None => {
            let none: Vec<FingerprintComponent> = Vec::new();
            assert(none.deep_view() =~= Seq::<(Seq<char>, Seq<char>)>::empty());
            (None, build_stored_fingerprints(stored_fingerprints, &none))
        },
    };
    CacheReport {
        status,
        current_fingerprint,
        current_components: components,
        stored_fingerprints: stored,
        collect_shas: build_collect_shas(collect_shas),
    }
}

/// Whether a selection was computed. Without one no tests were listed, and nothing was counted.
#[derive(Debug, Clone, Copy, PartialEq, Eq, Structural)]
pub enum SelectionMode {
    Selection,
    FullSuiteNoListing,
}

/// The counts of a selection.
#[derive(Debug, Clone, Copy, PartialEq, Eq, Structural)]
pub struct SelectionSummary {
    pub selected: Option<usize>,
    pub affected: Option<usize>,
    pub config: Option<usize>,
    pub new: Option<usize>,
    pub stranded: Option<usize>,
    pub skipped: Option<usize>,
    pub total_reachable_known: Option<usize>,
    pub mode: SelectionMode,
}

/// The counts where no selection was computed.
pub open spec fn no_counts() -> SelectionSummary {
    SelectionSummary {
        selected: None,
        affected: None,
        config: None,
        new: None,
        stranded: None,
        skipped: None,
        total_reachable_known: None,
        mode: SelectionMode::FullSuiteNoListing,
    }
}

/// Whether these are the counts of a selection.
pub open spec fn counts_selection(sel: Selection, s: SelectionSummary) -> bool {
    &&& s.selected matches Some(n) && n == sel.selected_set().len()
    &&& s.affected matches Some(n) && n == sel.affected@.len()
    &&& s.config matches Some(n) && n == sel.config_tests@.len()
    &&& s.new matches Some(n) && n == sel.new_tests@.len()
    &&& s.stranded matches Some(n) && n == sel.stranded_tests@.len()
    &&& s.skipped matches Some(n) && n == sel.skipped_count()
    &&& s.total_reachable_known == Some(sel.reachable_known_count)
    &&& s.mode == SelectionMode::Selection
}

/// The part of the report on the selection.
#[derive(Debug, PartialEq, Eq)]
pub struct SelectionReport {
    pub summary: SelectionSummary,
    pub changed_files: Option<Vec<ChangedFileEntry>>,
    pub selected_tests: Option<Vec<SelectedTestEntry>>,
}

/// The report.
#[derive(Debug, PartialEq, Eq)]
pub struct Report {
    pub schema_version: u32,
    pub cargo_affected_version: String,
    pub command: String,
    pub cache: CacheReport,
    pub selection: SelectionReport,
}

/// What a report on a selection is built from.
pub struct SelectionInputs<'a> {
    pub version: String,
    pub command: String,
    pub current_fingerprint: String,
    pub current_components: Vec<FingerprintComponent>,
    pub stored_fingerprints: Vec<StoredFingerprintSnapshot>,
    pub collect_shas: Vec<CollectShaSnapshot>,
    pub status: CacheStatus,
    pub selection: &'a Selection,
    pub changed_files: Vec<ChangedFileInput>,
    /// Without it the report has no list of changed files.
    pub include_changed_files: bool,
}

/// What a report without a selection is built from.
pub struct FullSuiteInputs {
    pub version: String,
    pub command: String,
    pub current_fingerprint: Option<String>,
    pub current_components: Option<Vec<FingerprintComponent>>,
    pub stored_fingerprints: Vec<StoredFingerprintSnapshot>,
    pub collect_shas: Vec<CollectShaSnapshot>,
    pub status: CacheStatus,
}

impl Report {
    /// The report on a selection.
    pub fn build_selection(inputs: SelectionInputs<'_>) -> (r: Self)
        ensures
            r.schema_version == 1,
            r.cargo_affected_version@ == inputs.version@,
            r.command@ == inputs.command@,
            r.cache@ == cache_report(
                inputs.status,
                Some(inputs.current_fingerprint@),
                Some(inputs.current_components.deep_view()),
                inputs.stored_fingerprints.deep_view(),
                inputs.collect_shas.deep_view(),
            ),
            counts_selection(*inputs.selection, r.selection.summary),
            r.selection.changed_files.deep_view() == (if inputs.include_changed_files {
                Some(changed_entries(inputs.changed_files.deep_view(), inputs.selection.diagnostics.per_file@))
            } else {
                None
            }),
            r.selection.selected_tests.deep_view() == (match inputs.selection.diagnostics.per_test {
                Some(per_test) => Some(groups_of(*inputs.selection).entries(per_test@)),
                None => None,
            }),
    {
        let sel = inputs.selection;
        let selected = sel.selected();
        let summary = SelectionSummary {
            selected: Some(selected.len()),
            affected: Some(sel.affected.len()),
            config: Some(sel.config_tests.len()),
            new: Some(sel.new_tests.len()),
            stranded: Some(sel.stranded_tests.len()),
            skipped: Some(sel.skipped()),
            total_reachable_known: Some(sel.reachable_known_count),
            mode: SelectionMode::Selection,
        };
        let changed_files = if inputs.include_changed_files {
            Some(build_changed_files_entries(&inputs.changed_files, &sel.diagnostics.per_file))
        } else {
            None
        };
        let selected_tests = match &sel.diagnostics.per_test {
            Some(per_test) => Some(
                build_selected_tests(
                    &sel.affected,
                    &sel.config_tests,
                    &sel.new_tests,
                    &sel.stranded_tests,
                    per_test,
                ),
            ),
            None => None,
        };
        Report {
            schema_version: SCHEMA_VERSION,
            cargo_affected_version: inputs.version,
            command: inputs.command,
            cache: build_cache(
                inputs.status,
                Some(inputs.current_fingerprint),
                Some(inputs.current_components),
                inputs.stored_fingerprints,
                inputs.collect_shas,
            ),
            selection: SelectionReport { summary, changed_files, selected_tests },
        }
    }

    /// The report of a command that runs every test: nothing is counted, and neither changed files
    /// nor tests are listed.
    pub fn build_full_suite(inputs: FullSuiteInputs) -> (r: Self)
        ensures
            r.schema_version == 1,
            r.cargo_affected_version@ == inputs.version@,
            r.command@ == inputs.command@,
            r.cache@ == cache_report(
                inputs.status,
                inputs.current_fingerprint.deep_view(),
                inputs.current_components.deep_view(),
                inputs.stored_fingerprints.deep_view(),
                inputs.collect_shas.deep_view(),
            ),
            r.selection.summary == no_counts(),
            r.selection.changed_files is None,
            r.selection.selected_tests is None,
    {
        Report {
            schema_version: SCHEMA_VERSION,
            cargo_affected_version: inputs.version,
            command: inputs.command,
            cache: build_cache(
                inputs.status,
                inputs.current_fingerprint,
                inputs.current_components,
                inputs.stored_fingerprints,
                inputs.collect_shas,
            ),
            selection: SelectionReport {
                summary: SelectionSummary {
                    selected: None,
                    affected: None,
                    config: None,
                    new: None,
                    stranded: None,
                    skipped: None,
                    total_reachable_known: None,
                    mode: SelectionMode::FullSuiteNoListing,
                },
                changed_files: None,
                selected_tests: None,
            },
        }
    }
}

} // verus!

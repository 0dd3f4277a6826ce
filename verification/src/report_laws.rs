//! What holds of every report.

use vstd::prelude::*;
use crate::db::{HitKind, HitReasonView, StoredFingerprintView, TestIdView};
use crate::ordered::{Descending, Key};
use crate::reasons::FileReasonCounts;
use crate::report::{ChangedFileInputView, ChangedFileView, CollectShaView, StoredEntryView};
use crate::report::{ReasonEntryView, SelectedTestKind};
use crate::selection::{Change, DiagnosticDetail, Selection};

verus! {

/// The stored fingerprints are listed with the fewest differences first, and the most recent
/// first among equally close ones.
pub proof fn law_closest_fingerprints_come_first(
    stored: Seq<StoredFingerprintView>,
    current: Seq<(Seq<char>, Seq<char>)>,
    i: int,
    j: int,
)
    requires
        0 <= i < j < stored.len(),
        forall|k: int|
            0 <= k < stored.len() ==> crate::report::differing_labels(
                current,
                (#[trigger] stored[k]).components,
            ).len() <= u64::MAX,
    ensures
        crate::report::stored_entries(stored, current).len() == stored.len(),
        crate::report::stored_entries(stored, current)[i].diff_count <= crate::report::stored_entries(
            stored,
            current,
        )[j].diff_count,
        crate::report::stored_entries(stored, current)[i].diff_count == crate::report::stored_entries(
            stored,
            current,
        )[j].diff_count ==> !crate::text::text_before(
            crate::report::stored_entries(stored, current)[i].last_seen,
            crate::report::stored_entries(stored, current)[j].last_seen,
        ),
{
    let f = |s: StoredFingerprintView| crate::report::stored_pair(s, current);
    let pairs = stored.map_values(f);
    crate::sorting::law_sorting_is_stable::<(u64, Descending<String>), StoredEntryView>(pairs);
    let sorted = crate::sorting::sorted_pairs::<(u64, Descending<String>), StoredEntryView>(pairs);
    assert forall|k: int| 0 <= k < sorted.len() implies (#[trigger] sorted[k]).0 == (
        sorted[k].1.diff_count as u64,
        sorted[k].1.last_seen,
    ) && sorted[k].1.diff_count <= u64::MAX by {
        assert(sorted.contains(sorted[k]));
        let n = choose|n: int| 0 <= n < pairs.len() && pairs[n] == sorted[k];
        assert(pairs[n] == f(stored[n]));
    }
    assert(!<(u64, Descending<String>) as Key>::before(sorted[j].0, sorted[i].0));
}

/// The changed files are listed with the one that pulled in the most tests first, and by path
/// among equals.
pub proof fn law_busiest_files_come_first(
    inputs: Seq<ChangedFileInputView>,
    counts: Map<Seq<char>, FileReasonCounts>,
    i: int,
    j: int,
)
    requires
        0 <= i < j < inputs.len(),
    ensures
        crate::report::changed_entries(inputs, counts).len() == inputs.len(),
        crate::report::changed_entries(inputs, counts)[i].tests_pulled_total >= crate::report::changed_entries(
            inputs,
            counts,
        )[j].tests_pulled_total,
        crate::report::changed_entries(inputs, counts)[i].tests_pulled_total == crate::report::changed_entries(
            inputs,
            counts,
        )[j].tests_pulled_total ==> !crate::text::text_before(
            crate::report::changed_entries(inputs, counts)[j].path,
            crate::report::changed_entries(inputs, counts)[i].path,
        ),
{
    let f = |c: ChangedFileInputView| crate::report::changed_pair(c, counts);
    let pairs = inputs.map_values(f);
    crate::sorting::law_sorting_is_stable::<(Descending<u64>, String), ChangedFileView>(pairs);
    let sorted = crate::sorting::sorted_pairs::<(Descending<u64>, String), ChangedFileView>(pairs);
    assert forall|k: int| 0 <= k < sorted.len() implies (#[trigger] sorted[k]).0 == (
        sorted[k].1.tests_pulled_total as u64,
        sorted[k].1.path,
    ) by {
        assert(sorted.contains(sorted[k]));
        let n = choose|n: int| 0 <= n < pairs.len() && pairs[n] == sorted[k];
        assert(pairs[n] == f(inputs[n]));
    }
    assert(!<(Descending<u64>, String) as Key>::before(sorted[j].0, sorted[i].0));
}

/// The stored commits are listed by name.
pub proof fn law_commits_are_listed_by_name(shas: Seq<(Seq<char>, crate::git::ShaRelation, usize)>, i: int, j: int)
    requires
        0 <= i < j < shas.len(),
    ensures
        crate::report::sha_entries(shas).len() == shas.len(),
        !crate::text::text_before(crate::report::sha_entries(shas)[j].sha, crate::report::sha_entries(shas)[i].sha),
{
    let f = |s: (Seq<char>, crate::git::ShaRelation, usize)| (s.0, crate::report::sha_entry(s));
    let pairs = shas.map_values(f);
    crate::sorting::law_sorting_is_stable::<String, CollectShaView>(pairs);
    let sorted = crate::sorting::sorted_pairs::<String, CollectShaView>(pairs);
    assert forall|k: int| 0 <= k < sorted.len() implies (#[trigger] sorted[k]).0 == sorted[k].1.sha by {
        assert(sorted.contains(sorted[k]));
        let n = choose|n: int| 0 <= n < pairs.len() && pairs[n] == sorted[k];
        assert(pairs[n] == f(shas[n]));
    }
    assert(!<String as Key>::before(sorted[j].0, sorted[i].0));
}

/// The tests that a file pulled in by each kind of reason sum to those that it pulled in.
pub proof fn law_pulled_tests_sum_to_total(
    kinds: Map<Seq<char>, Map<TestIdView, HitKind>>,
    counts: Map<Seq<char>, FileReasonCounts>,
    f: ChangedFileInputView,
)
    requires
        crate::reasons::counts_files(kinds, counts),
        forall|path: Seq<char>| #[trigger] kinds.contains_key(path) ==> kinds[path].dom().finite(),
    ensures
        ({
            let e = crate::report::changed_entry(f, counts);
            let by = e.tests_pulled_by_reason;
            by.line_overlap + by.structural_backstop + by.crate_root_sentinel + by.config_rule == e.tests_pulled_total
        }),
{
    if counts.contains_key(f.path) {
        crate::reasons::law_counts_sum_to_total(kinds[f.path], counts[f.path]);
    }
}

/// The values of a key that occurs are not nothing.
proof fn lemma_has_values(pairs: Seq<(TestIdView, HitReasonView)>, key: TestIdView, i: int)
    requires
        0 <= i < pairs.len(),
        pairs[i].0 == key,
    ensures
        crate::ordered::values_of(pairs, key).len() > 0,
    decreases pairs.len(),
{
    let b = pairs.drop_last();
    if i < b.len() {
        lemma_has_values(b, key, i);
    }
}

/// A selected test is listed with at least one reason, or it is new or stranded and has none.
pub proof fn law_reasons_are_listed(sel: Selection, c: Change, t: TestIdView)
    requires
        sel.is_for(c, DiagnosticDetail::Full),
        c.ranges.dom().subset_of(c.reachable),
        c.db.regions.finite(),
        crate::reasons::finite_ranges(c.ranges),
        c.config_hits.dom().finite(),
        forall|p: Seq<char>| #[trigger] c.config_hits.contains_key(p) ==> c.config_hits[p].finite(),
        sel.selected_set().contains(t),
    ensures
        ({
            let groups = crate::report::groups_of(sel);
            let entry = groups.entry(crate::reasons::test_reasons(c.reasons()), t);
            let unanchored = entry.kind == SelectedTestKind::New || entry.kind == SelectedTestKind::Stranded;
            &&& unanchored <==> c.new_tests().contains(t) || c.stranded_tests().contains(t)
            &&& unanchored <==> entry.reasons.len() == 0
        }),
{
    crate::selection_laws::law_reasons_explain_the_selection(c, t);
    crate::selection_laws::law_groups_are_disjoint(c);
    let reasons = c.reasons();
    let per_test = crate::reasons::test_reasons(reasons);
    if crate::reasons::names_test(reasons, t) {
        let i = choose|i: int| 0 <= i < reasons.len() && (#[trigger] reasons[i]).test == t;
        let pairs = crate::reasons::reason_pairs(reasons);
        assert(pairs[i].0 == t);
        lemma_has_values(pairs, t, i);
        let f = |r: HitReasonView| crate::report::reason_pair(r);
        crate::sorting::law_sorting_is_stable::<(String, (u64, String)), ReasonEntryView>(per_test[t].map_values(f));
        assert(crate::report::sorted_reasons(per_test[t]).len() == per_test[t].len());
    }
    assert(!(c.affected().contains(t) && c.new_tests().contains(t)));
    assert(!(c.affected().contains(t) && c.stranded_tests().contains(t)));
    assert(!(c.config_tests().contains(t) && c.new_tests().contains(t)));
    assert(!(c.config_tests().contains(t) && c.stranded_tests().contains(t)));
}

/// The percentage is the nearest whole number: it is off by half a percent at most, and a tie goes up.
/// None of some is nothing, all is a hundred, and so is all of nothing.
pub proof fn law_percentage_is_the_nearest(selected: nat, total: nat)
    ensures
        total > 0 ==> 2 * crate::report::percent(selected, total) * total <= 200 * selected + total,
        total > 0 ==> 200 * selected + total < 2 * (crate::report::percent(selected, total) + 1) * total,
        total > 0 ==> crate::report::percent(0, total) == 0,
        crate::report::percent(total, total) == 100,
{
    if total > 0 {
        let a = 200 * selected + total;
        let d = 2 * total;
        let p = crate::report::percent(selected, total);
        assert(2 * selected * 100 == 200 * selected);
        assert(p == a / d);
        vstd::arithmetic::div_mod::lemma_fundamental_div_mod(a as int, d as int);
        vstd::arithmetic::div_mod::lemma_mod_bound(a as int, d as int);
        assert(d * p == 2 * p * total) by (nonlinear_arith)
            requires
                d == 2 * total,
        ;
        assert(2 * (p + 1) * total == 2 * p * total + 2 * total) by (nonlinear_arith);
        assert(total / (2 * total) == 0) by (nonlinear_arith)
            requires
                total > 0,
        ;
        assert((200 * total + total) / (2 * total) == 100) by (nonlinear_arith)
            requires
                total > 0,
        ;
        assert(2 * total * 100 == 200 * total);
    }
}

/// The line that sums a command up: the status, and on a hit how many of the tests with coverage are
/// selected; commits that are missing or that `HEAD` is ahead of are mentioned exactly where there are
/// any.
pub proof fn law_summary_says_what_was_selected(selected: usize, total: usize, missing: usize, ahead: u32)
    ensures
        ({
            let ratio = crate::text::decimal(selected as nat) + "/"@ + crate::text::decimal(total as nat) + " ("@
                + crate::text::decimal(crate::report::percent(selected as nat, total as nat)) + "%)"@;
            &&& crate::report::summary_text(crate::report::CacheStatus::HitExact, Some((selected, total)), missing, ahead)
                == "cargo-affected: cache="@ + "hit-exact"@ + " selection="@ + ratio
            &&& missing > 0 && ahead > 0 ==> crate::report::summary_text(
                crate::report::CacheStatus::HitWithDivergence,
                Some((selected, total)),
                missing,
                ahead,
            ) == "cargo-affected: cache="@ + "hit-with-divergence"@ + " selection="@ + ratio + " missing_shas="@
                + crate::text::decimal(missing as nat) + " max_commits_ahead="@ + crate::text::decimal(ahead as nat)
            &&& missing > 0 && ahead == 0 ==> crate::report::summary_text(
                crate::report::CacheStatus::HitWithDivergence,
                Some((selected, total)),
                missing,
                ahead,
            ) == "cargo-affected: cache="@ + "hit-with-divergence"@ + " selection="@ + ratio + " missing_shas="@
                + crate::text::decimal(missing as nat)
            &&& missing == 0 && ahead > 0 ==> crate::report::summary_text(
                crate::report::CacheStatus::HitWithDivergence,
                Some((selected, total)),
                missing,
                ahead,
            ) == "cargo-affected: cache="@ + "hit-with-divergence"@ + " selection="@ + ratio + " max_commits_ahead="@
                + crate::text::decimal(ahead as nat)
            &&& missing == 0 && ahead == 0 ==> crate::report::summary_text(
                crate::report::CacheStatus::HitWithDivergence,
                Some((selected, total)),
                missing,
                ahead,
            ) == "cargo-affected: cache="@ + "hit-with-divergence"@ + " selection="@ + ratio
            &&& crate::report::summary_text(crate::report::CacheStatus::MissNoReachableSha, None, missing, ahead)
                == "cargo-affected: cache="@ + "miss-no-reachable-sha"@ + " mode=full-suite missing_shas="@
                + crate::text::decimal(missing as nat)
            &&& crate::report::summary_text(crate::report::CacheStatus::MissNoCoverage, None, missing, ahead)
                == "cargo-affected: cache="@ + "miss-no-coverage"@ + " mode=full-suite"@
            &&& crate::report::summary_text(crate::report::CacheStatus::MissFingerprint, None, missing, ahead)
                == "cargo-affected: cache="@ + "miss-fingerprint"@ + " mode=full-suite"@
            &&& crate::report::summary_text(crate::report::CacheStatus::ForcedAll, None, missing, ahead)
                == "cargo-affected: cache="@ + "forced-all"@ + " mode=full-suite"@
        }),
{
    reveal_strlit("");
    let ratio = crate::text::decimal(selected as nat) + "/"@ + crate::text::decimal(total as nat) + " ("@
        + crate::text::decimal(crate::report::percent(selected as nat, total as nat)) + "%)"@;
    let a = crate::report::summary_text(
        crate::report::CacheStatus::HitExact,
        Some((selected, total)),
        missing,
        ahead,
    );
    assert(a =~= "cargo-affected: cache="@ + "hit-exact"@ + " selection="@ + ratio);
    let b = crate::report::summary_text(
        crate::report::CacheStatus::HitWithDivergence,
        Some((selected, total)),
        missing,
        ahead,
    );
    let head = "cargo-affected: cache="@ + "hit-with-divergence"@ + " selection="@ + ratio;
    if missing > 0 && ahead > 0 {
        assert(b =~= head + " missing_shas="@ + crate::text::decimal(missing as nat) + " max_commits_ahead="@
            + crate::text::decimal(ahead as nat));
    } else if missing > 0 && ahead == 0 {
        assert(b =~= head + " missing_shas="@ + crate::text::decimal(missing as nat));
    } else if missing == 0 && ahead > 0 {
        assert(b =~= head + " max_commits_ahead="@ + crate::text::decimal(ahead as nat));
    } else if missing == 0 && ahead == 0 {
        assert(b =~= head);
    }
}

proof fn lemma_label_map(components: Seq<(Seq<char>, Seq<char>)>, label: Seq<char>)
    requires
        forall|i: int, j: int|
            0 <= i < j < components.len() ==> (#[trigger] components[i]).0 != (#[trigger] components[j]).0,
    ensures
        crate::report::label_map(components).contains_key(label) <==> exists|i: int|
            0 <= i < components.len() && (#[trigger] components[i]).0 == label,
        forall|i: int|
            0 <= i < components.len() && (#[trigger] components[i]).0 == label ==> crate::report::label_map(
                components,
            )[label] == components[i].1,
        crate::report::label_map(components).dom().finite(),
    decreases components.len(),
{
    if components.len() > 0 {
        let b = components.drop_last();
        let n = components.len() - 1;
        assert(components[n] == components.last());
        assert forall|i: int| 0 <= i < b.len() implies #[trigger] b[i] == components[i] by {}
        lemma_label_map(b, label);
        if exists|i: int| 0 <= i < components.len() && (#[trigger] components[i]).0 == label {
            let i = choose|i: int| 0 <= i < components.len() && (#[trigger] components[i]).0 == label;
            if i < n {
                assert(b[i].0 == label);
            }
        }
        if exists|i: int| 0 <= i < b.len() && (#[trigger] b[i]).0 == label {
            let i = choose|i: int| 0 <= i < b.len() && (#[trigger] b[i]).0 == label;
            assert(components[i].0 == label);
        }
        assert forall|i: int|
            0 <= i < components.len() && (#[trigger] components[i]).0 == label implies crate::report::label_map(
            components,
        )[label] == components[i].1 by {
            if i < n {
                assert(b[i].0 == label);
                assert(components[i].0 != components[n].0);
            }
        }
    }
}

/// Two fingerprints differ in a label exactly where one of them has it and they do not both have it with
/// the same hash; each such label is listed once, in order.
pub proof fn law_differences_are_the_labels(
    a: Seq<(Seq<char>, Seq<char>)>,
    b: Seq<(Seq<char>, Seq<char>)>,
    label: Seq<char>,
    i: int,
    j: int,
)
    requires
        forall|x: int, y: int| 0 <= x < y < a.len() ==> (#[trigger] a[x]).0 != (#[trigger] a[y]).0,
        forall|x: int, y: int| 0 <= x < y < b.len() ==> (#[trigger] b[x]).0 != (#[trigger] b[y]).0,
    ensures
        crate::report::differing_labels(a, b).contains(label) <==> {
            &&& (exists|x: int| 0 <= x < a.len() && (#[trigger] a[x]).0 == label) || (exists|y: int|
                0 <= y < b.len() && (#[trigger] b[y]).0 == label)
            &&& !(exists|x: int, y: int|
                #![trigger a[x], b[y]]
                0 <= x < a.len() && 0 <= y < b.len() && a[x].0 == label && a[x] == b[y])
        },
        0 <= i < j < crate::report::differing_labels(a, b).len() ==> crate::text::text_before(
            crate::report::differing_labels(a, b)[i],
            crate::report::differing_labels(a, b)[j],
        ),
{
    lemma_label_map(a, label);
    lemma_label_map(b, label);
    let x = crate::report::label_map(a);
    let y = crate::report::label_map(b);
    let d = crate::report::differing(x, y);
    assert(d.subset_of(x.dom() + y.dom()));
    vstd::set_lib::lemma_set_subset_finite(x.dom() + y.dom(), d);
    crate::ordered::lemma_in_order_of::<String>(d);
    assert(crate::report::differing_labels(a, b).to_set().contains(label) <==> d.contains(label));
    if exists|p: int, q: int|
        #![trigger a[p], b[q]]
        0 <= p < a.len() && 0 <= q < b.len() && a[p].0 == label && a[p] == b[q] {
        let (p, q) = choose|p: int, q: int|
            #![trigger a[p], b[q]]
            0 <= p < a.len() && 0 <= q < b.len() && a[p].0 == label && a[p] == b[q];
        assert(x[label] == a[p].1 && y[label] == b[q].1);
    }
    if x.contains_key(label) && y.contains_key(label) && x[label] == y[label] {
        let p = choose|p: int| 0 <= p < a.len() && (#[trigger] a[p]).0 == label;
        let q = choose|q: int| 0 <= q < b.len() && (#[trigger] b[q]).0 == label;
        assert(a[p] == b[q]);
    }
    if 0 <= i < j < crate::report::differing_labels(a, b).len() {
        assert(<String as Key>::before(
            crate::report::differing_labels(a, b)[i],
            crate::report::differing_labels(a, b)[j],
        ));
    }
}

proof fn lemma_sorting_keeps<K: Key, B>(s: Seq<(K::V, B)>, i: int)
    requires
        0 <= i < s.len(),
    ensures
        crate::sorting::sorted_values::<K, B>(s).contains(s[i].1),
        crate::sorting::sorted_values::<K, B>(s).len() == s.len(),
{
    crate::sorting::law_sorting_is_stable::<K, B>(s);
    let t = crate::sorting::sorted_pairs::<K, B>(s);
    let (k, b) = s[i];
    crate::ordered::lemma_values_of(s, k, b);
    crate::ordered::lemma_values_of(t, k, b);
    assert(s.contains((k, b)));
    assert(crate::ordered::values_of(t, k) == crate::ordered::values_of(s, k));
    let n = choose|n: int| 0 <= n < t.len() && t[n] == (k, b);
    assert(crate::sorting::sorted_values::<K, B>(s)[n] == b);
}

/// Every stored fingerprint is listed, with when it was used last and with the labels in which it differs
/// from the current one.
pub proof fn law_every_stored_fingerprint_is_listed(
    stored: Seq<StoredFingerprintView>,
    current: Seq<(Seq<char>, Seq<char>)>,
    k: int,
)
    requires
        0 <= k < stored.len(),
    ensures
        crate::report::stored_entries(stored, current).len() == stored.len(),
        exists|n: int|
            {
                let e = crate::report::stored_entries(stored, current)[n];
                &&& 0 <= n < stored.len()
                &&& (#[trigger] crate::report::stored_entries(stored, current)[n]).fingerprint == stored[k].fingerprint
                &&& e.last_seen == stored[k].last_seen
                &&& e.differing_labels == crate::report::differing_labels(current, stored[k].components)
                &&& e.diff_count == e.differing_labels.len()
            },
{
    let f = |s: StoredFingerprintView| crate::report::stored_pair(s, current);
    let pairs = stored.map_values(f);
    lemma_sorting_keeps::<(u64, Descending<String>), StoredEntryView>(pairs, k);
    let all = crate::report::stored_entries(stored, current);
    let n = choose|n: int| 0 <= n < all.len() && all[n] == pairs[k].1;
    assert(all[n].fingerprint == stored[k].fingerprint);
}

/// Every stored commit is listed with its relation to `HEAD`, with how far `HEAD` is ahead where it is in
/// the repository, and with the number of its rows.
pub proof fn law_every_commit_is_listed(shas: Seq<(Seq<char>, crate::git::ShaRelation, usize)>, k: int)
    requires
        0 <= k < shas.len(),
    ensures
        exists|n: int|
            {
                let e = crate::report::sha_entries(shas)[n];
                &&& 0 <= n < shas.len()
                &&& (#[trigger] crate::report::sha_entries(shas)[n]).sha == shas[k].0
                &&& e.row_count == shas[k].2
                &&& match shas[k].1 {
                    crate::git::ShaRelation::Equal => e.relation == crate::report::ShaRelationKind::Equal
                        && e.commits_ahead is None,
                    crate::git::ShaRelation::Reachable { commits_ahead } => e.relation
                        == crate::report::ShaRelationKind::Reachable && e.commits_ahead == Some(commits_ahead),
                    crate::git::ShaRelation::Missing => e.relation == crate::report::ShaRelationKind::Missing
                        && e.commits_ahead is None,
                }
            },
{
    let f = |s: (Seq<char>, crate::git::ShaRelation, usize)| (s.0, crate::report::sha_entry(s));
    let pairs = shas.map_values(f);
    lemma_sorting_keeps::<String, CollectShaView>(pairs, k);
    let all = crate::report::sha_entries(shas);
    let n = choose|n: int| 0 <= n < all.len() && all[n] == pairs[k].1;
    assert(all[n].sha == shas[k].0);
}

/// Every changed file is listed, with whether coverage knows it, with its hunks since each commit, and
/// with how many tests it pulled in for which reason.
pub proof fn law_every_changed_file_is_listed(
    covered: Set<Seq<char>>,
    ranges: crate::selection::RangesView,
    paths: Set<Seq<char>>,
    counts: Map<Seq<char>, FileReasonCounts>,
    path: Seq<char>,
)
    requires
        paths.finite(),
        paths.contains(path),
    ensures
        ({
            let all = crate::report::changed_entries(crate::report::changed_inputs(covered, ranges, paths), counts);
            &&& all.len() == paths.len()
            &&& exists|n: int|
                {
                    let e = all[n];
                    &&& 0 <= n < all.len()
                    &&& (#[trigger] all[n]).path == path
                    &&& e.tracked_by_coverage <==> covered.contains(path)
                    &&& counts.contains_key(path) ==> e.tests_pulled_total == counts[path].total_unique_tests
                        && e.tests_pulled_by_reason.line_overlap == counts[path].line_overlap
                        && e.tests_pulled_by_reason.structural_backstop == counts[path].structural_backstop
                        && e.tests_pulled_by_reason.crate_root_sentinel == counts[path].crate_root_sentinel
                        && e.tests_pulled_by_reason.config_rule == counts[path].config_rule
                    &&& !counts.contains_key(path) ==> e.tests_pulled_total == 0
                    &&& e.hunks_by_sha == crate::report::listed_hunks(crate::report::hunks_of(ranges, path))
                }
        }),
{
    let inputs = crate::report::changed_inputs(covered, ranges, paths);
    crate::ordered::lemma_in_order_of::<String>(paths);
    let order = crate::ordered::in_order::<String>(paths);
    assert(order.to_set().contains(path));
    let k = choose|k: int| 0 <= k < order.len() && order[k] == path;
    let f = |c: ChangedFileInputView| crate::report::changed_pair(c, counts);
    let pairs = inputs.map_values(f);
    assert(inputs[k].path == path);
    lemma_sorting_keeps::<(Descending<u64>, String), ChangedFileView>(pairs, k);
    let all = crate::report::changed_entries(inputs, counts);
    let n = choose|n: int| 0 <= n < all.len() && all[n] == pairs[k].1;
    assert(all[n].path == path);
}

/// The hunks of a file are listed under each commit since which it has any, in the order of the commits
/// and with the lines of each.
pub proof fn law_hunks_are_listed_by_commit(ranges: crate::selection::RangesView, path: Seq<char>, sha: Seq<char>, h: int)
    requires
        ranges.dom().finite(),
        ranges.contains_key(sha),
        ranges[sha].contains_key(path),
        0 <= h < ranges[sha][path].len(),
    ensures
        exists|n: int|
            {
                let all = crate::report::listed_hunks(crate::report::hunks_of(ranges, path));
                &&& 0 <= n < all.len()
                &&& (#[trigger] crate::report::listed_hunks(crate::report::hunks_of(ranges, path))[n]).0 == sha
                &&& all[n].1.len() == ranges[sha][path].len()
                &&& all[n].1[h] == (ranges[sha][path][h].start, ranges[sha][path][h].end)
            },
{
    let m = crate::report::hunks_of(ranges, path);
    assert(m.dom().subset_of(ranges.dom()));
    vstd::set_lib::lemma_set_subset_finite(ranges.dom(), m.dom());
    crate::ordered::lemma_in_order_of::<String>(m.dom());
    let order = crate::ordered::in_order::<String>(m.dom());
    assert(order.to_set().contains(sha));
    let n = choose|n: int| 0 <= n < order.len() && order[n] == sha;
    assert(crate::report::listed_hunks(m)[n].0 == sha);
}

/// Every selected test is listed once, in order, with the group that it is in.
pub proof fn law_every_selected_test_is_listed(
    groups: crate::report::SelectedGroups,
    per_test: Map<TestIdView, Seq<HitReasonView>>,
    t: TestIdView,
    i: int,
    j: int,
)
    requires
        groups.affected.finite(),
        groups.config_tests.finite(),
        groups.new_tests.finite(),
        groups.stranded.finite(),
    ensures
        (exists|n: int| 0 <= n < groups.entries(per_test).len() && (#[trigger] groups.entries(per_test)[n]).test == t)
            <==> groups.affected.contains(t) || groups.config_tests.contains(t) || groups.new_tests.contains(t)
            || groups.stranded.contains(t),
        0 <= i < j < groups.entries(per_test).len() ==> <crate::db::TestId as Key>::before(
            groups.entries(per_test)[i].test,
            groups.entries(per_test)[j].test,
        ),
        0 <= i < groups.entries(per_test).len() ==> {
            let e = groups.entries(per_test)[i];
            &&& groups.new_tests.contains(e.test) ==> e.kind == SelectedTestKind::New
            &&& !groups.new_tests.contains(e.test) && groups.stranded.contains(e.test) ==> e.kind
                == SelectedTestKind::Stranded
            &&& !groups.new_tests.contains(e.test) && !groups.stranded.contains(e.test) && groups.config_tests.contains(
                e.test,
            ) ==> e.kind == SelectedTestKind::ConfigRule
            &&& !groups.new_tests.contains(e.test) && !groups.stranded.contains(e.test) && !groups.config_tests.contains(
                e.test,
            ) ==> e.kind == SelectedTestKind::Affected
        },
{
    let all = groups.all();
    crate::ordered::lemma_in_order_of::<crate::db::TestId>(all);
    let order = crate::ordered::in_order::<crate::db::TestId>(all);
    let entries = groups.entries(per_test);
    assert(order.to_set().contains(t) <==> all.contains(t));
    if all.contains(t) {
        let n = choose|n: int| 0 <= n < order.len() && order[n] == t;
        assert(entries[n].test == t);
    }
    if exists|n: int| 0 <= n < entries.len() && (#[trigger] entries[n]).test == t {
        let n = choose|n: int| 0 <= n < entries.len() && (#[trigger] entries[n]).test == t;
        assert(order[n] == t);
        assert(order.contains(t));
    }
    if 0 <= i < j < entries.len() {
        assert(<crate::db::TestId as Key>::before(order[i], order[j]));
    }
}

/// The reasons of a test are all listed, as they are, by file, then by kind and then by commit.
pub proof fn law_reasons_are_listed_in_order(reasons: Seq<HitReasonView>, k: int, i: int, j: int)
    requires
        0 <= k < reasons.len(),
        0 <= i < j < reasons.len(),
    ensures
        ({
            let all = crate::report::sorted_reasons(reasons);
            &&& all.len() == reasons.len()
            &&& exists|n: int|
                {
                    &&& 0 <= n < all.len()
                    &&& (#[trigger] all[n]).collect_sha == reasons[k].collect_sha
                    &&& all[n].file == reasons[k].file
                    &&& all[n].stored_range == reasons[k].stored_range
                    &&& all[n].matched_hunk == reasons[k].matched_hunk
                    &&& match reasons[k].kind {
                        HitKind::LineOverlap => all[n].kind == crate::report::ReasonKind::LineOverlap,
                        HitKind::StructuralBackstop => all[n].kind == crate::report::ReasonKind::StructuralBackstop,
                        HitKind::CrateRootSentinel => all[n].kind == crate::report::ReasonKind::CrateRootSentinel,
                        HitKind::ConfigRule => all[n].kind == crate::report::ReasonKind::ConfigRule,
                    }
                }
            &&& !crate::text::text_before(all[j].file, all[i].file)
            &&& all[i].file == all[j].file && all[i].kind == all[j].kind ==> !crate::text::text_before(
                all[j].collect_sha,
                all[i].collect_sha,
            )
            &&& all[i].file == all[j].file && all[j].kind == crate::report::ReasonKind::LineOverlap ==> all[i].kind
                == crate::report::ReasonKind::LineOverlap
            &&& all[i].file == all[j].file && all[i].kind == crate::report::ReasonKind::ConfigRule ==> all[j].kind
                == crate::report::ReasonKind::ConfigRule
        }),
{
    let f = |r: HitReasonView| crate::report::reason_pair(r);
    let pairs = reasons.map_values(f);
    lemma_sorting_keeps::<(String, (u64, String)), ReasonEntryView>(pairs, k);
    let all = crate::report::sorted_reasons(reasons);
    let n = choose|n: int| 0 <= n < all.len() && all[n] == pairs[k].1;
    assert(all[n].file == reasons[k].file);
    crate::sorting::law_sorting_is_stable::<(String, (u64, String)), ReasonEntryView>(pairs);
    let sorted = crate::sorting::sorted_pairs::<(String, (u64, String)), ReasonEntryView>(pairs);
    assert forall|m: int| 0 <= m < sorted.len() implies (#[trigger] sorted[m]).0 == (
        sorted[m].1.file,
        (crate::report::kind_place(sorted[m].1.kind), sorted[m].1.collect_sha),
    ) by {
        assert(sorted.contains(sorted[m]));
        let q = choose|q: int| 0 <= q < pairs.len() && pairs[q] == sorted[m];
        assert(pairs[q] == f(reasons[q]));
    }
    assert(!<(String, (u64, String)) as Key>::before(sorted[j].0, sorted[i].0));
    assert(all[i] == sorted[i].1 && all[j] == sorted[j].1);
}

/// The stored commits are reported in order, each once, with its relation and the number of its rows: none
/// where none were counted.
pub proof fn law_commits_are_reported_with_their_rows(
    per_sha: Map<Seq<char>, crate::git::ShaRelation>,
    counts: Map<Seq<char>, usize>,
    sha: Seq<char>,
    relation: crate::git::ShaRelation,
    rows: usize,
)
    requires
        per_sha.dom().finite(),
    ensures
        ({
            let all = crate::report::sha_snapshots(per_sha, counts);
            let count = if counts.contains_key(sha) {
                counts[sha]
            } else {
                0
            };
            &&& all.len() == per_sha.dom().len()
            &&& all.contains((sha, relation, rows)) <==> per_sha.contains_key(sha) && relation == per_sha[sha] && rows
                == count
        }),
{
    crate::ordered::lemma_in_order_of::<String>(per_sha.dom());
    let order = crate::ordered::in_order::<String>(per_sha.dom());
    let all = crate::report::sha_snapshots(per_sha, counts);
    if all.contains((sha, relation, rows)) {
        let i = choose|i: int| 0 <= i < all.len() && all[i] == (sha, relation, rows);
        assert(order[i] == sha);
        assert(order.to_set().contains(sha));
    }
    if per_sha.contains_key(sha) {
        assert(order.to_set().contains(sha));
        let i = choose|i: int| 0 <= i < order.len() && order[i] == sha;
        assert(all[i].0 == sha);
    }
}

/// The report on the cache passes the current environment on as it is, and compares what is stored with
/// it; where it is unknown, everything that is stored differs.
pub proof fn law_cache_is_reported(
    status: crate::report::CacheStatus,
    fingerprint: Option<Seq<char>>,
    components: Option<Seq<(Seq<char>, Seq<char>)>>,
    stored: Seq<StoredFingerprintView>,
    shas: Seq<(Seq<char>, crate::git::ShaRelation, usize)>,
)
    ensures
        ({
            let r = crate::report::cache_report(status, fingerprint, components, stored, shas);
            &&& r.status == status
            &&& r.current_fingerprint == fingerprint
            &&& r.current_components == components
            &&& components is Some ==> r.stored_fingerprints == crate::report::stored_entries(stored, components->0)
            &&& components is None ==> r.stored_fingerprints == crate::report::stored_entries(stored, Seq::empty())
            &&& r.collect_shas == crate::report::sha_entries(shas)
        }),
{
}

/// The counts of a report are those of the selection. The tests with usable coverage are those that a
/// change or a rule selects and those that are skipped; none is skipped where more are selected.
pub proof fn law_counts_are_those_of_the_selection(sel: Selection, s: crate::report::SelectionSummary)
    requires
        crate::report::counts_selection(sel, s),
    ensures
        s.selected is Some && s.selected->0 == sel.selected_set().len(),
        s.affected is Some && s.affected->0 == sel.affected@.len(),
        s.config is Some && s.config->0 == sel.config_tests@.len(),
        s.new is Some && s.new->0 == sel.new_tests@.len(),
        s.stranded is Some && s.stranded->0 == sel.stranded_tests@.len(),
        s.total_reachable_known == Some(sel.reachable_known_count),
        s.mode == crate::report::SelectionMode::Selection,
        s.skipped is Some,
        sel.affected@.len() + sel.config_tests@.len() <= sel.reachable_known_count ==> s.affected->0 + s.config->0
            + s.skipped->0 == sel.reachable_known_count,
        sel.affected@.len() + sel.config_tests@.len() > sel.reachable_known_count ==> s.skipped->0 == 0,
{
}

} // verus!

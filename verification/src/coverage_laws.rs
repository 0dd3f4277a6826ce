//! Laws of coverage data: what a printed profile and an export are read as.

use vstd::prelude::*;
use crate::coverage;
use crate::coverage::{CoverageFunctionView, CoverageRegion, HitRangeView, ProfileErrorView, ProfileField};
use crate::function_map;
use crate::json::JsonView;
use crate::text;

verus! {

/// Of counters that can all be read, some is not zero exactly where the function counts as executed.
pub proof fn law_any_nonzero_counter_counts(tokens: Seq<Seq<char>>, i: int, n: nat, name: Seq<char>, b: bool)
    requires
        0 <= i,
        coverage::any_counter(tokens, i, n, name) == Ok::<bool, ProfileErrorView>(b),
    ensures
        i + n <= tokens.len() || n == 0,
        forall|k: int| i <= k < i + n ==> text::unsigned_value(#[trigger] tokens[k]) is Some,
        b <==> exists|k: int| i <= k < i + n && text::unsigned_value(#[trigger] tokens[k])->0 > 0,
    decreases n,
{
    if n > 0 {
        let m = (n - 1) as nat;
        let rest = coverage::any_counter(tokens, i + 1, m, name)->Ok_0;
        law_any_nonzero_counter_counts(tokens, i + 1, m, name, rest);
        assert(text::unsigned_value(tokens[i]) is Some);
        if rest {
            let k = choose|k: int| i + 1 <= k < i + 1 + m && text::unsigned_value(#[trigger] tokens[k])->0 > 0;
            assert(i <= k < i + n && text::unsigned_value(tokens[k])->0 > 0);
        }
        if exists|k: int| i <= k < i + n && text::unsigned_value(#[trigger] tokens[k])->0 > 0 {
            let k = choose|k: int| i <= k < i + n && text::unsigned_value(#[trigger] tokens[k])->0 > 0;
            if k > i {
                assert(i + 1 <= k < i + 1 + m && text::unsigned_value(tokens[k])->0 > 0);
            }
        }
    }
}

/// One function of a profile: its name, its hash and its counters.
pub struct Record {
    pub name: Seq<char>,
    pub hash: nat,
    pub counters: Seq<nat>,
}

impl Record {
    /// The numbers fit, and the name does not open a bitmap section.
    pub open spec fn is_sound(self) -> bool {
        &&& self.hash <= u64::MAX
        &&& self.counters.len() <= u64::MAX
        &&& forall|k: int| 0 <= k < self.counters.len() ==> #[trigger] self.counters[k] <= u64::MAX
        &&& !(self.name.len() > 0 && self.name[0] == '$')
    }

    /// The tokens of the record.
    pub open spec fn tokens(self) -> Seq<Seq<char>> {
        seq![self.name, text::decimal(self.hash), text::decimal(self.counters.len())] + self.counters.map_values(
            |c: nat| text::decimal(c),
        )
    }

    /// Some counter is not zero.
    pub open spec fn is_executed(self) -> bool {
        exists|k: int| 0 <= k < self.counters.len() && #[trigger] self.counters[k] > 0
    }
}

/// The tokens of records.
pub open spec fn record_tokens(records: Seq<Record>) -> Seq<Seq<char>>
    decreases records.len(),
{
    if records.len() == 0 {
        Seq::empty()
    } else {
        records[0].tokens() + record_tokens(records.drop_first())
    }
}

/// The names of the records with a counter that is not zero, in order.
pub open spec fn executed_names(records: Seq<Record>) -> Seq<Seq<char>>
    decreases records.len(),
{
    if records.len() == 0 {
        Seq::empty()
    } else if records[0].is_executed() {
        seq![records[0].name] + executed_names(records.drop_first())
    } else {
        executed_names(records.drop_first())
    }
}

proof fn lemma_number(all: Seq<Seq<char>>, i: int, n: nat, name: Seq<char>, field: ProfileField)
    requires
        0 <= i < all.len(),
        all[i] == text::decimal(n),
        n <= u64::MAX,
    ensures
        coverage::number_at(all, i, name, field) == Ok::<nat, ProfileErrorView>(n),
{
    crate::text_laws::law_decimal_is_read_back(n);
}

proof fn lemma_counters(all: Seq<Seq<char>>, i: int, counters: Seq<nat>, name: Seq<char>)
    requires
        0 <= i,
        i + counters.len() <= all.len(),
        forall|k: int| 0 <= k < counters.len() ==> #[trigger] all[i + k] == text::decimal(counters[k]),
        forall|k: int| 0 <= k < counters.len() ==> #[trigger] counters[k] <= u64::MAX,
    ensures
        coverage::any_counter(all, i, counters.len(), name) == Ok::<bool, ProfileErrorView>(
            exists|k: int| 0 <= k < counters.len() && #[trigger] counters[k] > 0,
        ),
    decreases counters.len(),
{
    if counters.len() > 0 {
        let rest = counters.drop_first();
        assert(all[i + 0] == text::decimal(counters[0]));
        lemma_number(all, i, counters[0], name, ProfileField::CounterValue);
        assert forall|k: int| 0 <= k < rest.len() implies #[trigger] all[i + 1 + k] == text::decimal(rest[k]) by {
            assert(all[i + (k + 1)] == text::decimal(counters[k + 1]));
        }
        assert forall|k: int| 0 <= k < rest.len() implies #[trigger] rest[k] <= u64::MAX by {
            assert(counters[k + 1] <= u64::MAX);
        }
        lemma_counters(all, i + 1, rest, name);
        if exists|k: int| 0 <= k < counters.len() && #[trigger] counters[k] > 0 {
            let k = choose|k: int| 0 <= k < counters.len() && #[trigger] counters[k] > 0;
            if k > 0 {
                assert(rest[k - 1] > 0);
            }
        }
        if exists|k: int| 0 <= k < rest.len() && #[trigger] rest[k] > 0 {
            let k = choose|k: int| 0 <= k < rest.len() && #[trigger] rest[k] > 0;
            assert(counters[k + 1] > 0);
        }
    }
}

proof fn lemma_record(all: Seq<Seq<char>>, i: int, r: Record, found: Seq<Seq<char>>)
    requires
        0 <= i,
        i + r.tokens().len() <= all.len(),
        all.subrange(i, i + r.tokens().len()) == r.tokens(),
        r.is_sound(),
    ensures
        coverage::executed_from(all, i, found) == coverage::executed_from(
            all,
            i + r.tokens().len(),
            if r.is_executed() {
                found.push(r.name)
            } else {
                found
            },
        ),
{
    reveal_strlit("$");
    let t = r.tokens();
    let cut = all.subrange(i, i + t.len());
    let n = r.counters.len();
    assert(t.len() == 3 + n);
    assert(cut[0] == all[i] && cut[1] == all[i + 1] && cut[2] == all[i + 2]);
    assert(t[0] == r.name && t[1] == text::decimal(r.hash) && t[2] == text::decimal(n));
    lemma_number(all, i + 1, r.hash, r.name, ProfileField::Hash);
    lemma_number(all, i + 2, n, r.name, ProfileField::CounterCount);
    assert forall|k: int| 0 <= k < n implies #[trigger] all[i + 3 + k] == text::decimal(r.counters[k]) by {
        assert(cut[3 + k] == all[i + 3 + k]);
        assert(t[3 + k] == text::decimal(r.counters[k]));
    }
    lemma_counters(all, i + 3, r.counters, r.name);
    if "$"@.is_prefix_of(r.name) {
        assert(r.name.take(1)[0] == r.name[0]);
    }
}

proof fn lemma_records(all: Seq<Seq<char>>, i: int, records: Seq<Record>, found: Seq<Seq<char>>)
    requires
        0 <= i,
        i + record_tokens(records).len() <= all.len(),
        all.subrange(i, i + record_tokens(records).len()) == record_tokens(records),
        forall|k: int| 0 <= k < records.len() ==> (#[trigger] records[k]).is_sound(),
    ensures
        coverage::executed_from(all, i, found) == coverage::executed_from(
            all,
            i + record_tokens(records).len(),
            found + executed_names(records),
        ),
    decreases records.len(),
{
    if records.len() == 0 {
        assert(found + executed_names(records) =~= found);
    } else {
        let r = records[0];
        let rest = records.drop_first();
        let a = r.tokens();
        let b = record_tokens(rest);
        assert(record_tokens(records) =~= a + b);
        assert(all.subrange(i, i + a.len()) =~= (a + b).take(a.len() as int));
        assert((a + b).take(a.len() as int) =~= a);
        assert(all.subrange(i + a.len(), i + a.len() + b.len()) =~= b) by {
            assert forall|k: int| 0 <= k < b.len() implies all[i + a.len() + k] == #[trigger] b[k] by {
                assert(all.subrange(i, i + a.len() + b.len())[a.len() + k] == (a + b)[a.len() + k]);
            }
        }
        assert forall|k: int| 0 <= k < rest.len() implies (#[trigger] rest[k]).is_sound() by {
            assert(rest[k] == records[k + 1]);
        }
        lemma_record(all, i, r, found);
        let f1 = if r.is_executed() {
            found.push(r.name)
        } else {
            found
        };
        lemma_records(all, i + a.len(), rest, f1);
        assert(f1 + executed_names(rest) =~= found + executed_names(records));
    }
}

/// A profile of whole records is read back: the functions that it lists as executed are those with a
/// counter that is not zero, in the order of the records; where there is none, the profile is refused.
/// Flags at its head do not count.
pub proof fn law_profile_is_read_back(profile: Seq<char>, flags: Seq<Seq<char>>, records: Seq<Record>)
    requires
        coverage::profile_tokens(profile) == flags + record_tokens(records),
        forall|k: int| 0 <= k < flags.len() ==> (#[trigger] flags[k]).len() > 0 && flags[k][0] == ':',
        forall|k: int| 0 <= k < records.len() ==> (#[trigger] records[k]).is_sound(),
        records.len() > 0 ==> !(records[0].name.len() > 0 && records[0].name[0] == ':'),
    ensures
        executed_names(records).len() > 0 ==> coverage::executed_in(profile) == Ok::<Seq<Seq<char>>, ProfileErrorView>(
            executed_names(records),
        ),
        executed_names(records).len() == 0 ==> coverage::executed_in(profile) == Err::<Seq<Seq<char>>, ProfileErrorView>(
            ProfileErrorView::NothingExecuted,
        ),
{
    let all = record_tokens(records);
    lemma_flags(flags, all);
    if records.len() > 0 {
        assert(all[0] == records[0].name);
    }
    assert(all.subrange(0, all.len() as int) =~= all);
    lemma_records(all, 0, records, Seq::empty());
    assert(Seq::<Seq<char>>::empty() + executed_names(records) =~= executed_names(records));
}

proof fn lemma_flags(flags: Seq<Seq<char>>, rest: Seq<Seq<char>>)
    requires
        forall|k: int| 0 <= k < flags.len() ==> (#[trigger] flags[k]).len() > 0 && flags[k][0] == ':',
        rest.len() > 0 ==> !(rest[0].len() > 0 && rest[0][0] == ':'),
    ensures
        coverage::without_flags(flags + rest) == rest,
    decreases flags.len(),
{
    reveal_strlit(":");
    let all = flags + rest;
    if flags.len() == 0 {
        assert(all =~= rest);
        if rest.len() > 0 && ":"@.is_prefix_of(rest[0]) {
            assert(rest[0].take(1)[0] == rest[0][0]);
        }
    } else {
        let f = flags.drop_first();
        assert(all[0] == flags[0]);
        assert(":"@ =~= all[0].take(1));
        assert(all.drop_first() =~= f + rest);
        assert forall|k: int| 0 <= k < f.len() implies (#[trigger] f[k]).len() > 0 && f[k][0] == ':' by {
            assert(f[k] == flags[k + 1]);
        }
        lemma_flags(f, rest);
    }
}

/// The names of executed records: a name is listed exactly where a record of the name has a counter
/// that is not zero.
pub proof fn law_executed_names(records: Seq<Record>, name: Seq<char>)
    ensures
        executed_names(records).contains(name) <==> exists|k: int, c: int|
            0 <= k < records.len() && records[k].name == name && 0 <= c < records[k].counters.len()
                && #[trigger] records[k].counters[c] > 0,
    decreases records.len(),
{
    if records.len() > 0 {
        let rest = records.drop_first();
        law_executed_names(rest, name);
        let a = executed_names(rest);
        let b = executed_names(records);
        if b.contains(name) {
            let i = choose|i: int| 0 <= i < b.len() && b[i] == name;
            if records[0].is_executed() && i == 0 {
                let c = choose|c: int| 0 <= c < records[0].counters.len() && #[trigger] records[0].counters[c] > 0;
                assert(records[0].counters[c] > 0);
            } else {
                let m = if records[0].is_executed() {
                    i - 1
                } else {
                    i
                };
                assert(a[m] == name);
                let (k, c) = choose|k: int, c: int|
                    0 <= k < rest.len() && rest[k].name == name && 0 <= c < rest[k].counters.len()
                        && #[trigger] rest[k].counters[c] > 0;
                assert(records[k + 1].counters[c] > 0);
            }
        }
        if exists|k: int, c: int|
            0 <= k < records.len() && records[k].name == name && 0 <= c < records[k].counters.len()
                && #[trigger] records[k].counters[c] > 0 {
            let (k, c) = choose|k: int, c: int|
                0 <= k < records.len() && records[k].name == name && 0 <= c < records[k].counters.len()
                    && #[trigger] records[k].counters[c] > 0;
            if k == 0 {
                assert(records[0].is_executed());
                assert(b[0] == name);
            } else {
                assert(rest[k - 1].counters[c] > 0);
                let i = choose|i: int| 0 <= i < a.len() && a[i] == name;
                if records[0].is_executed() {
                    assert(b[i + 1] == name);
                }
            }
        }
    }
}

/// Behind whole records, what is not a whole record is an error: a name that opens a bitmap section, a
/// record that ends early, and a field that is no number.
pub proof fn law_broken_record_is_refused(profile: Seq<char>, records: Seq<Record>, rest: Seq<Seq<char>>)
    requires
        coverage::profile_tokens(profile) == record_tokens(records) + rest,
        forall|k: int| 0 <= k < records.len() ==> (#[trigger] records[k]).is_sound(),
        rest.len() > 0,
        records.len() > 0 ==> !(records[0].name.len() > 0 && records[0].name[0] == ':'),
        records.len() == 0 ==> !(rest[0].len() > 0 && rest[0][0] == ':'),
    ensures
        rest[0].len() > 0 && rest[0][0] == '$' ==> coverage::executed_in(profile) == Err::<Seq<Seq<char>>, ProfileErrorView>(
            ProfileErrorView::BitmapSection { token: rest[0] },
        ),
        !(rest[0].len() > 0 && rest[0][0] == '$') ==> {
            &&& rest.len() == 1 ==> coverage::executed_in(profile) == Err::<Seq<Seq<char>>, ProfileErrorView>(
                ProfileErrorView::Ended { name: rest[0], field: ProfileField::Hash },
            )
            &&& rest.len() > 1 && text::unsigned_value(rest[1]) is None ==> coverage::executed_in(profile) == Err::<
                Seq<Seq<char>>,
                ProfileErrorView,
            >(
                ProfileErrorView::NonNumeric {
                    name: rest[0],
                    field: ProfileField::Hash,
                    cause: text::u64_error(rest[1]),
                },
            )
            &&& rest.len() == 2 && text::unsigned_value(rest[1]) is Some && text::unsigned_value(rest[1])->0 <= u64::MAX
                ==> coverage::executed_in(profile) == Err::<Seq<Seq<char>>, ProfileErrorView>(
                ProfileErrorView::Ended { name: rest[0], field: ProfileField::CounterCount },
            )
            &&& rest.len() > 2 && text::unsigned_value(rest[1]) is Some && text::unsigned_value(rest[1])->0 <= u64::MAX
                && text::unsigned_value(rest[2]) is Some && u64::MAX >= text::unsigned_value(rest[2])->0 > rest.len() - 3
                ==> coverage::executed_in(profile) is Err
        },
{
    reveal_strlit("$");
    let a = record_tokens(records);
    let all = a + rest;
    let i = a.len() as int;
    assert(all.subrange(0, i) =~= a);
    assert(all[i] == rest[0]);
    lemma_flags(Seq::empty(), all);
    assert(Seq::<Seq<char>>::empty() + all =~= all);
    if records.len() > 0 {
        assert(all[0] == records[0].name);
    }
    lemma_records(all, 0, records, Seq::empty());
    if rest[0].len() > 0 && rest[0][0] == '$' {
        assert("$"@ =~= rest[0].take(1));
    } else {
        if "$"@.is_prefix_of(rest[0]) {
            assert(rest[0].take(1)[0] == rest[0][0]);
        }
        if rest.len() > 1 {
            assert(all[i + 1] == rest[1]);
        }
        if rest.len() > 2 && text::unsigned_value(rest[2]) is Some {
            assert(all[i + 2] == rest[2]);
            let n = text::unsigned_value(rest[2])->0;
            if coverage::any_counter(all, i + 3, n, rest[0]) is Ok {
                let b = coverage::any_counter(all, i + 3, n, rest[0])->Ok_0;
                law_any_nonzero_counter_counts(all, i + 3, n, rest[0], b);
            }
        }
    }
}

/// The tokens of a profile are its lines without white space around them; blank lines and those that
/// begin with `#` carry none.
pub proof fn law_profile_lines_are_tokens(a: Seq<char>, line: Seq<char>)
    requires
        !line.contains('\n'),
    ensures
        coverage::profile_tokens(line + seq!['\n'] + a) == coverage::profile_tokens(line) + coverage::profile_tokens(a),
        text::trimmed(line).len() == 0 || text::trimmed(line)[0] == '#' ==> coverage::profile_tokens(line)
            == Seq::<Seq<char>>::empty(),
        text::trimmed(line).len() > 0 && text::trimmed(line)[0] != '#' ==> coverage::profile_tokens(line) == seq![
            text::trimmed(line),
        ],
{
    let f = |l: Seq<char>| text::trimmed(l);
    let p = |l: Seq<char>| coverage::is_token(l);
    crate::text_laws::law_pieces_are_separated(line, a, '\n');
    let x = text::pieces(line, '\n');
    let y = text::pieces(a, '\n');
    assert((x + y).map_values(f) =~= x.map_values(f) + y.map_values(f));
    Seq::filter_distributes_over_add(x.map_values(f), y.map_values(f), p);
    let one = x.map_values(f);
    assert(one =~= Seq::<Seq<char>>::empty().push(text::trimmed(line)));
    Seq::<Seq<char>>::empty().lemma_filter_push(text::trimmed(line), p);
    assert(Seq::<Seq<char>>::empty().filter(p) =~= Seq::<Seq<char>>::empty()) by {
        reveal(Seq::filter);
    }
}

/// A region of an export is read from the places of its array: the start line, the end line and the
/// file; what stands elsewhere does not count.
pub proof fn law_region_is_read(a: Seq<JsonView>, start: u64, end: u64, file_id: u64)
    requires
        a.len() > 5,
        a[0] == JsonView::Number(Some(start)),
        a[2] == JsonView::Number(Some(end)),
        a[5] == JsonView::Number(Some(file_id)),
        start <= i64::MAX,
        end <= i64::MAX,
    ensures
        coverage::region_of(JsonView::Array(a)) is Some,
        coverage::region_of(JsonView::Array(a))->0.line_start == start,
        coverage::region_of(JsonView::Array(a))->0.line_end == end,
        coverage::region_of(JsonView::Array(a))->0.file_id == file_id,
{
}

/// The member of an object is the value under its name.
pub proof fn law_member_is_the_named_value(members: Seq<(Seq<char>, JsonView)>, i: int, absent: Seq<char>, place: int)
    requires
        0 <= i < members.len(),
        forall|k: int| 0 <= k < i ==> (#[trigger] members[k]).0 != members[i].0,
        forall|k: int| 0 <= k < members.len() ==> (#[trigger] members[k]).0 != absent,
    ensures
        JsonView::Object(members).get(members[i].0) == Some(members[i].1),
        JsonView::Object(members).get(absent) is None,
        JsonView::Object(members).field(members[i].0, place) == Some(members[i].1),
        JsonView::Object(members).field(absent, place) is None,
{
    lemma_member(members, i);
    lemma_no_member(members, absent);
}

pub proof fn lemma_member(members: Seq<(Seq<char>, JsonView)>, i: int)
    requires
        0 <= i < members.len(),
        forall|k: int| 0 <= k < i ==> (#[trigger] members[k]).0 != members[i].0,
    ensures
        crate::json::member(members, members[i].0) == Some(members[i].1),
    decreases members.len(),
{
    if i > 0 {
        let rest = members.drop_first();
        assert(members[0].0 != members[i].0);
        assert(rest[i - 1] == members[i]);
        assert forall|k: int| 0 <= k < i - 1 implies (#[trigger] rest[k]).0 != rest[i - 1].0 by {
            assert(rest[k] == members[k + 1]);
        }
        lemma_member(rest, i - 1);
    }
}

proof fn lemma_no_member(members: Seq<(Seq<char>, JsonView)>, name: Seq<char>)
    requires
        forall|k: int| 0 <= k < members.len() ==> (#[trigger] members[k]).0 != name,
    ensures
        crate::json::member(members, name) is None,
    decreases members.len(),
{
    if members.len() > 0 {
        let rest = members.drop_first();
        assert(members[0].0 != name);
        assert forall|k: int| 0 <= k < rest.len() implies (#[trigger] rest[k]).0 != name by {
            assert(rest[k] == members[k + 1]);
        }
        lemma_no_member(rest, name);
    }
}

/// Reading a list reads each of its elements, and fails exactly where one of them fails.
pub proof fn law_lists_are_read_one_by_one<A, B>(s: Seq<A>, f: spec_fn(A) -> Option<B>)
    ensures
        coverage::read_all(s, f) is Some <==> forall|i: int| 0 <= i < s.len() ==> f(#[trigger] s[i]) is Some,
        coverage::read_all(s, f) is Some ==> coverage::read_all(s, f)->0.len() == s.len() && forall|i: int|
            0 <= i < s.len() ==> f(#[trigger] s[i]) == Some(coverage::read_all(s, f)->0[i]),
    decreases s.len(),
{
    if s.len() > 0 {
        let b = s.drop_last();
        law_lists_are_read_one_by_one(b, f);
        assert(s[s.len() - 1] == s.last());
        if forall|i: int| 0 <= i < s.len() ==> f(#[trigger] s[i]) is Some {
            assert forall|i: int| 0 <= i < b.len() implies f(#[trigger] b[i]) is Some by {
                assert(b[i] == s[i]);
            }
        }
        if coverage::read_all(s, f) is Some {
            assert forall|i: int| 0 <= i < s.len() implies f(#[trigger] s[i]) == Some(coverage::read_all(s, f)->0[i]) by {
                if i < b.len() {
                    assert(b[i] == s[i]);
                }
            }
        }
    }
}

/// A function of an export is read from its members: the name, the file names, and each region.
pub proof fn law_function_is_read(
    j: JsonView,
    name: Seq<char>,
    filenames: Seq<JsonView>,
    regions: Seq<JsonView>,
)
    requires
        j is Object,
        j.get("name"@) == Some(JsonView::Text(name)),
        j.get("filenames"@) == Some(JsonView::Array(filenames)),
        j.get("regions"@) == Some(JsonView::Array(regions)),
        forall|i: int| 0 <= i < filenames.len() ==> (#[trigger] filenames[i]) is Text,
        forall|i: int| 0 <= i < regions.len() ==> coverage::region_of(#[trigger] regions[i]) is Some,
    ensures
        coverage::function_of(j) is Some,
        coverage::function_of(j)->0.name == name,
        coverage::function_of(j)->0.filenames.len() == filenames.len(),
        coverage::function_of(j)->0.regions.len() == regions.len(),
        forall|i: int|
            0 <= i < filenames.len() ==> #[trigger] filenames[i] == JsonView::Text(
                coverage::function_of(j)->0.filenames[i],
            ),
        forall|i: int|
            0 <= i < regions.len() ==> coverage::region_of(#[trigger] regions[i]) == Some(
                coverage::function_of(j)->0.regions[i],
            ),
{
    let f = |x: JsonView| x.as_text();
    let g = |x: JsonView| coverage::region_of(x);
    law_lists_are_read_one_by_one(filenames, f);
    law_lists_are_read_one_by_one(regions, g);
    assert forall|i: int| 0 <= i < filenames.len() implies f(#[trigger] filenames[i]) is Some by {}
    assert forall|i: int| 0 <= i < regions.len() implies g(#[trigger] regions[i]) is Some by {}
    let x = coverage::read_all(filenames, f)->0;
    let y = coverage::read_all(regions, g)->0;
    assert(coverage::function_of(j) == Some(CoverageFunctionView { name, filenames: x, regions: y }));
    assert forall|i: int| 0 <= i < filenames.len() implies #[trigger] filenames[i] == JsonView::Text(x[i]) by {
        assert(f(filenames[i]) == Some(x[i]));
    }
    assert forall|i: int| 0 <= i < regions.len() implies coverage::region_of(#[trigger] regions[i]) == Some(y[i]) by {
        assert(g(regions[i]) == Some(y[i]));
    }
}

/// An export holds the functions of all its data entries.
pub proof fn law_export_holds_every_function(j: JsonView, data: Seq<JsonView>, d: int, functions: Seq<JsonView>, k: int)
    requires
        j is Object,
        j.get("data"@) == Some(JsonView::Array(data)),
        coverage::export_functions(j) is Some,
        0 <= d < data.len(),
        data[d] is Object,
        data[d].get("functions"@) == Some(JsonView::Array(functions)),
        0 <= k < functions.len(),
    ensures
        coverage::function_of(functions[k]) is Some,
        coverage::export_functions(j)->0.contains(coverage::function_of(functions[k])->0),
{
    let f = |x: JsonView| coverage::data_functions(x);
    let g = |x: JsonView| coverage::function_of(x);
    law_lists_are_read_one_by_one(data, f);
    law_lists_are_read_one_by_one(functions, g);
    let lists = coverage::read_all(data, f)->0;
    assert(f(data[d]) == Some(lists[d]));
    assert(coverage::data_functions(data[d]) == coverage::read_all(functions, g));
    assert(g(functions[k]) == Some(lists[d][k]));
    lemma_flatten_holds(lists, d, k);
}

proof fn lemma_flatten_holds<A>(lists: Seq<Seq<A>>, d: int, k: int)
    requires
        0 <= d < lists.len(),
        0 <= k < lists[d].len(),
    ensures
        lists.flatten().contains(lists[d][k]),
    decreases lists.len(),
{
    let rest = lists.drop_first();
    let first = lists.first();
    assert(lists.flatten() == first + rest.flatten());
    if d == 0 {
        assert(lists.flatten()[k] == lists[0][k]);
    } else {
        assert(rest[d - 1] == lists[d]);
        lemma_flatten_holds(rest, d - 1, k);
        let i = choose|i: int| 0 <= i < rest.flatten().len() && rest.flatten()[i] == lists[d][k];
        assert(lists.flatten()[first.len() + i] == lists[d][k]);
    }
}

proof fn lemma_located_all(
    f: CoverageFunctionView,
    ids: Seq<u64>,
    root: Seq<char>,
    windows: bool,
    name: Seq<char>,
    r: HitRangeView,
)
    ensures
        function_map::located_all(f, ids, root, windows).contains((name, r)) <==> name == f.name && exists|k: int|
            0 <= k < ids.len() && function_map::located(f, #[trigger] ids[k], root, windows) == Some(r),
    decreases ids.len(),
{
    let all = function_map::located_all(f, ids, root, windows);
    if ids.len() > 0 {
        let b = ids.drop_last();
        lemma_located_all(f, b, root, windows, name, r);
        let before = function_map::located_all(f, b, root, windows);
        assert(ids[ids.len() - 1] == ids.last());
        if all.contains((name, r)) {
            let i = choose|i: int| 0 <= i < all.len() && all[i] == (name, r);
            if i < before.len() {
                assert(before[i] == (name, r));
                let k = choose|k: int|
                    0 <= k < b.len() && function_map::located(f, #[trigger] b[k], root, windows) == Some(r);
                assert(ids[k] == b[k]);
            }
        }
        if name == f.name && exists|k: int|
            0 <= k < ids.len() && function_map::located(f, #[trigger] ids[k], root, windows) == Some(r) {
            let k = choose|k: int|
                0 <= k < ids.len() && function_map::located(f, #[trigger] ids[k], root, windows) == Some(r);
            if k < b.len() {
                assert(b[k] == ids[k]);
                let i = choose|i: int| 0 <= i < before.len() && before[i] == (name, r);
                assert(all[i] == (name, r));
            } else {
                assert(all[before.len() as int] == (name, r));
            }
        }
    }
}

proof fn lemma_all_ranges(fs: Seq<CoverageFunctionView>, root: Seq<char>, windows: bool, name: Seq<char>, r: HitRangeView)
    ensures
        function_map::all_ranges(fs, root, windows).contains((name, r)) <==> exists|i: int|
            0 <= i < fs.len() && function_map::located_all(
                #[trigger] fs[i],
                function_map::region_files(fs[i].regions),
                root,
                windows,
            ).contains((name, r)),
    decreases fs.len(),
{
    let all = function_map::all_ranges(fs, root, windows);
    if fs.len() > 0 {
        let b = fs.drop_last();
        lemma_all_ranges(b, root, windows, name, r);
        let before = function_map::all_ranges(b, root, windows);
        let last = function_map::located_all(fs.last(), function_map::region_files(fs.last().regions), root, windows);
        assert(fs[fs.len() - 1] == fs.last());
        assert(all =~= before + last);
        if all.contains((name, r)) {
            let i = choose|i: int| 0 <= i < all.len() && all[i] == (name, r);
            if i < before.len() {
                assert(before[i] == (name, r));
                let k = choose|k: int|
                    0 <= k < b.len() && function_map::located_all(
                        #[trigger] b[k],
                        function_map::region_files(b[k].regions),
                        root,
                        windows,
                    ).contains((name, r));
                assert(fs[k] == b[k]);
            } else {
                assert(last[i - before.len()] == (name, r));
            }
        }
        if exists|i: int|
            0 <= i < fs.len() && function_map::located_all(
                #[trigger] fs[i],
                function_map::region_files(fs[i].regions),
                root,
                windows,
            ).contains((name, r)) {
            let i = choose|i: int|
                0 <= i < fs.len() && function_map::located_all(
                    #[trigger] fs[i],
                    function_map::region_files(fs[i].regions),
                    root,
                    windows,
                ).contains((name, r));
            if i < b.len() {
                assert(b[i] == fs[i]);
                let k = choose|k: int| 0 <= k < before.len() && before[k] == (name, r);
                assert(all[k] == (name, r));
            } else {
                let k = choose|k: int| 0 <= k < last.len() && last[k] == (name, r);
                assert(all[before.len() + k] == (name, r));
            }
        }
    }
}

/// Every region of a function in a file of the project lies within a range that the map gives the
/// function in this file.
pub proof fn law_map_covers_every_region(
    fs: Seq<CoverageFunctionView>,
    root: Seq<char>,
    windows: bool,
    i: int,
    g: int,
    rel: Seq<char>,
)
    requires
        0 <= i < fs.len(),
        0 <= g < fs[i].regions.len(),
        fs[i].regions[g].file_id < fs[i].filenames.len(),
        crate::paths::path_below(
            crate::paths::db_relative(fs[i].filenames[fs[i].regions[g].file_id as int], windows),
            crate::paths::db_relative(root, windows),
        ) == Some(rel),
    ensures
        ({
            let map = function_map::function_map_of(fs, root, windows);
            &&& map.contains_key(fs[i].name)
            &&& exists|k: int|
                {
                    &&& 0 <= k < map[fs[i].name].len()
                    &&& crate::paths::coded_path((#[trigger] map[fs[i].name][k]).file) == crate::paths::coded_path(rel)
                    &&& map[fs[i].name][k].line_start <= fs[i].regions[g].line_start
                    &&& fs[i].regions[g].line_end <= map[fs[i].name][k].line_end
                }
        }),
{
    let f = fs[i];
    let id = f.regions[g].file_id;
    let ids = f.regions.map_values(|r: CoverageRegion| r.file_id);
    let files = function_map::region_files(f.regions);
    function_map::lemma_distinct_members(ids);
    assert(ids[g] == id);
    assert(files.contains(id));
    let k = choose|k: int| 0 <= k < files.len() && files[k] == id;
    function_map::law_extent_contains_every_region(f.regions, id);
    let r = HitRangeView {
        file: rel,
        line_start: function_map::first_line(f.regions, id),
        line_end: function_map::last_line(f.regions, id),
    };
    assert(function_map::located(f, files[k], root, windows) == Some(r));
    lemma_located_all(f, files, root, windows, f.name, r);
    lemma_all_ranges(fs, root, windows, f.name, r);
    let pairs = function_map::all_ranges(fs, root, windows);
    crate::ordered::lemma_values_of(pairs, f.name, r);
    let v = crate::ordered::values_of(pairs, f.name);
    let d = function_map::distinct_ranges(v);
    function_map::lemma_distinct_ranges(v);
    let n = choose|n: int| 0 <= n < v.len() && v[n] == r;
    assert(function_map::places_of(d).contains(function_map::place_of(v[n])));
    let m = choose|m: int|
        0 <= m < function_map::places_of(d).len() && function_map::places_of(d)[m] == function_map::place_of(r);
    assert(function_map::place_of(d[m]) == function_map::place_of(r));
    assert(function_map::function_map_of(fs, root, windows)[f.name] == d);
    assert(crate::paths::coded_path(d[m].file) == crate::paths::coded_path(rel));
}

/// Every range of the map is that of a function of the name: it lies in a file of the function below
/// the root, and its first and last line are those of regions in this file.
pub proof fn law_map_holds_only_regions(
    fs: Seq<CoverageFunctionView>,
    root: Seq<char>,
    windows: bool,
    name: Seq<char>,
    k: int,
)
    requires
        function_map::function_map_of(fs, root, windows).contains_key(name),
        0 <= k < function_map::function_map_of(fs, root, windows)[name].len(),
    ensures
        exists|i: int, a: int, b: int|
            #![trigger fs[i].regions[a], fs[i].regions[b]]
            {
                let r = function_map::function_map_of(fs, root, windows)[name][k];
                &&& 0 <= i < fs.len()
                &&& fs[i].name == name
                &&& 0 <= a < fs[i].regions.len()
                &&& 0 <= b < fs[i].regions.len()
                &&& fs[i].regions[a].file_id == fs[i].regions[b].file_id
                &&& fs[i].regions[a].line_start == r.line_start
                &&& fs[i].regions[b].line_end == r.line_end
                &&& fs[i].regions[a].file_id < fs[i].filenames.len()
                &&& crate::paths::path_below(
                    crate::paths::db_relative(fs[i].filenames[fs[i].regions[a].file_id as int], windows),
                    crate::paths::db_relative(root, windows),
                ) == Some(r.file)
            },
{
    let pairs = function_map::all_ranges(fs, root, windows);
    let v = crate::ordered::values_of(pairs, name);
    let d = function_map::distinct_ranges(v);
    function_map::lemma_distinct_ranges(v);
    let r = d[k];
    assert(v.contains(d[k]));
    crate::ordered::lemma_values_of(pairs, name, r);
    lemma_all_ranges(fs, root, windows, name, r);
    let i = choose|i: int|
        0 <= i < fs.len() && function_map::located_all(
            #[trigger] fs[i],
            function_map::region_files(fs[i].regions),
            root,
            windows,
        ).contains((name, r));
    let f = fs[i];
    let files = function_map::region_files(f.regions);
    lemma_located_all(f, files, root, windows, name, r);
    let n = choose|n: int| 0 <= n < files.len() && function_map::located(f, #[trigger] files[n], root, windows) == Some(r);
    let id = files[n];
    assert(files.contains(id));
    function_map::law_extent_contains_every_region(f.regions, id);
    let a = choose|a: int|
        0 <= a < f.regions.len() && (#[trigger] f.regions[a]).file_id == id && f.regions[a].line_start
            == function_map::first_line(f.regions, id);
    let b = choose|b: int|
        0 <= b < f.regions.len() && (#[trigger] f.regions[b]).file_id == id && f.regions[b].line_end
            == function_map::last_line(f.regions, id);
    assert(fs[i].regions[a].file_id == fs[i].regions[b].file_id);
}

/// Two ranges of one function in the map do not lie in the same place.
pub proof fn law_map_places_are_distinct(
    fs: Seq<CoverageFunctionView>,
    root: Seq<char>,
    windows: bool,
    name: Seq<char>,
    j: int,
    k: int,
)
    requires
        function_map::function_map_of(fs, root, windows).contains_key(name),
        0 <= j < k < function_map::function_map_of(fs, root, windows)[name].len(),
    ensures
        function_map::function_map_of(fs, root, windows)[name][j]
            != function_map::function_map_of(fs, root, windows)[name][k],
{
    lemma_places_distinct(crate::ordered::values_of(function_map::all_ranges(fs, root, windows), name), j, k);
}

proof fn lemma_places_distinct(s: Seq<HitRangeView>, j: int, k: int)
    requires
        0 <= j < k < function_map::distinct_ranges(s).len(),
    ensures
        function_map::distinct_ranges(s)[j] != function_map::distinct_ranges(s)[k],
    decreases s.len(),
{
    let b = function_map::distinct_ranges(s.drop_last());
    let d = function_map::distinct_ranges(s);
    if k < b.len() {
        lemma_places_distinct(s.drop_last(), j, k);
    } else if d[j] == d[k] {
        assert(function_map::places_of(b)[j] == function_map::place_of(s.last()));
    }
}

/// What a test hit: a range of each executed function that the map knows, in its file and with its
/// lines, and nothing else.
pub proof fn law_hits_are_ranges_of_executed_functions(
    executed: Seq<Seq<char>>,
    map: Map<Seq<char>, Seq<HitRangeView>>,
    e: int,
    k: int,
    h: HitRangeView,
)
    requires
        0 <= e < executed.len(),
        map.contains_key(executed[e]),
        0 <= k < map[executed[e]].len(),
    ensures
        exists|x: HitRangeView|
            {
                &&& #[trigger] function_map::ranges_hit(executed, map).contains(x)
                &&& x.line_start == map[executed[e]][k].line_start
                &&& x.line_end == map[executed[e]][k].line_end
                &&& crate::paths::coded_path(x.file) == crate::paths::coded_path(map[executed[e]][k].file)
            },
        function_map::ranges_hit(executed, map).contains(h) ==> exists|i: int, n: int|
            0 <= i < executed.len() && map.contains_key(executed[i]) && 0 <= n < map[executed[i]].len()
                && #[trigger] map[executed[i]][n] == h,
{
    let name = executed[e];
    let r = map[name][k];
    assert(executed.contains(name));
    function_map::law_hits_are_what_the_map_says(executed, map, name);
    assert(map[name].contains(r));
    let x = choose|x: HitRangeView|
        #[trigger] function_map::ranges_hit(executed, map).contains(x) && function_map::place_of(x)
            == function_map::place_of(r);
    assert(x.line_start == r.line_start);
    if function_map::ranges_hit(executed, map).contains(h) {
        let f = choose|f: Seq<char>| #[trigger] map.contains_key(f) && executed.contains(f) && map[f].contains(h);
        let i = choose|i: int| 0 <= i < executed.len() && executed[i] == f;
        let n = choose|n: int| 0 <= n < map[f].len() && map[f][n] == h;
        assert(map[executed[i]][n] == h);
    }
}

/// A region is refused where it is no list, is too short, or has no number at one of its places.
pub proof fn law_broken_region_is_refused(j: JsonView)
    ensures
        !(j is Array) ==> coverage::region_of(j) is None,
        j is Array ==> (coverage::region_of(j) is Some <==> j->Array_0.len() > 5 && j->Array_0[0].as_u64() is Some
            && j->Array_0[2].as_u64() is Some && j->Array_0[5].as_u64() is Some),
{
}

/// A function is refused without a name that is a text, and with file names or regions that are no
/// lists; without any of these, it has none.
pub proof fn law_function_must_have_a_name(j: JsonView)
    requires
        j is Object,
    ensures
        j.get("name"@) is None || !(j.get("name"@)->0 is Text) ==> coverage::function_of(j) is None,
        j.get("filenames"@) is Some && !(j.get("filenames"@)->0 is Array) ==> coverage::function_of(j) is None,
        j.get("regions"@) is Some && !(j.get("regions"@)->0 is Array) ==> coverage::function_of(j) is None,
        j.get("name"@) is Some && j.get("name"@)->0 is Text && j.get("filenames"@) is None && j.get("regions"@) is None
            ==> coverage::function_of(j) is Some && coverage::function_of(j)->0.filenames.len() == 0
            && coverage::function_of(j)->0.regions.len() == 0,
{
}

/// One broken region or file name is enough for a function to be refused.
pub proof fn law_broken_part_breaks_the_function(j: JsonView, files: Seq<JsonView>, regions: Seq<JsonView>, i: int)
    requires
        j is Object,
    ensures
        j.get("filenames"@) == Some(JsonView::Array(files)) && 0 <= i < files.len() && !(files[i] is Text)
            ==> coverage::function_of(j) is None,
        j.get("regions"@) == Some(JsonView::Array(regions)) && 0 <= i < regions.len() && coverage::region_of(regions[i])
            is None ==> coverage::function_of(j) is None,
{
    let f = |x: JsonView| x.as_text();
    let g = |x: JsonView| coverage::region_of(x);
    law_lists_are_read_one_by_one(files, f);
    law_lists_are_read_one_by_one(regions, g);
    if 0 <= i < files.len() && !(files[i] is Text) {
        assert(f(files[i]) is None);
    }
    if 0 <= i < regions.len() && coverage::region_of(regions[i]) is None {
        assert(g(regions[i]) is None);
    }
}

/// An export is read where each of its entries can be, and an entry where each of its functions can be;
/// an entry without functions has none.
pub proof fn law_export_is_read_where_its_parts_are(j: JsonView, data: Seq<JsonView>, e: JsonView, functions: Seq<JsonView>)
    requires
        j is Object,
        j.get("data"@) == Some(JsonView::Array(data)),
        e is Object,
    ensures
        coverage::export_functions(j) is Some <==> forall|d: int|
            0 <= d < data.len() ==> coverage::data_functions(#[trigger] data[d]) is Some,
        e.get("functions"@) == Some(JsonView::Array(functions)) ==> (coverage::data_functions(e) is Some <==> forall|k: int|
            0 <= k < functions.len() ==> coverage::function_of(#[trigger] functions[k]) is Some),
        e.get("functions"@) is None ==> coverage::data_functions(e) is Some && coverage::data_functions(e)->0.len() == 0,
{
    let f = |x: JsonView| coverage::data_functions(x);
    let g = |x: JsonView| coverage::function_of(x);
    law_lists_are_read_one_by_one(data, f);
    law_lists_are_read_one_by_one(functions, g);
    if forall|d: int| 0 <= d < data.len() ==> coverage::data_functions(#[trigger] data[d]) is Some {
        assert forall|d: int| 0 <= d < data.len() implies f(#[trigger] data[d]) is Some by {}
    }
    if coverage::export_functions(j) is Some {
        assert forall|d: int| 0 <= d < data.len() implies coverage::data_functions(#[trigger] data[d]) is Some by {
            assert(f(data[d]) is Some);
        }
    }
    if e.get("functions"@) == Some(JsonView::Array(functions)) {
        assert(coverage::data_functions(e) == coverage::read_all(functions, g));
        if forall|k: int| 0 <= k < functions.len() ==> coverage::function_of(#[trigger] functions[k]) is Some {
            assert forall|k: int| 0 <= k < functions.len() implies g(#[trigger] functions[k]) is Some by {}
        }
        if coverage::data_functions(e) is Some {
            assert forall|k: int| 0 <= k < functions.len() implies coverage::function_of(#[trigger] functions[k]) is Some by {
                assert(g(functions[k]) is Some);
            }
        }
    }
}

/// A record may be written as a list of its fields in order, and is read as the object that names them.
pub proof fn law_records_may_be_lists(name: JsonView, files: JsonView, regions: JsonView, list: JsonView)
    ensures
        coverage::function_of(JsonView::Array(seq![name, files, regions])) == coverage::function_of(
            JsonView::Object(seq![("name"@, name), ("filenames"@, files), ("regions"@, regions)]),
        ),
        coverage::data_functions(JsonView::Array(seq![list])) == coverage::data_functions(
            JsonView::Object(seq![("functions"@, list)]),
        ),
        coverage::export_functions(JsonView::Array(seq![list])) == coverage::export_functions(
            JsonView::Object(seq![("data"@, list)]),
        ),
{
    reveal_strlit("name");
    reveal_strlit("filenames");
    reveal_strlit("regions");
    assert("name"@.len() == 4 && "filenames"@.len() == 9 && "regions"@.len() == 7);
    let m = seq![("name"@, name), ("filenames"@, files), ("regions"@, regions)];
    let o = JsonView::Object(m);
    let a = JsonView::Array(seq![name, files, regions]);
    assert(m[0].0 != m[1].0 && m[0].0 != m[2].0 && m[1].0 != m[2].0);
    lemma_member(m, 0);
    lemma_member(m, 1);
    lemma_member(m, 2);
    assert(o.field("name"@, 0) == a.field("name"@, 0));
    assert(o.field("filenames"@, 1) == a.field("filenames"@, 1));
    assert(o.field("regions"@, 2) == a.field("regions"@, 2));
    let f = seq![("functions"@, list)];
    lemma_member(f, 0);
    assert(JsonView::Object(f).field("functions"@, 0) == JsonView::Array(seq![list]).field("functions"@, 0));
    let d = seq![("data"@, list)];
    lemma_member(d, 0);
    assert(JsonView::Object(d).field("data"@, 0) == JsonView::Array(seq![list]).field("data"@, 0));
}

/// A name that the map holds has a range.
pub proof fn law_map_holds_no_empty_name(fs: Seq<CoverageFunctionView>, root: Seq<char>, windows: bool, name: Seq<char>)
    requires
        function_map::function_map_of(fs, root, windows).contains_key(name),
    ensures
        function_map::function_map_of(fs, root, windows)[name].len() > 0,
{
    let v = crate::ordered::values_of(function_map::all_ranges(fs, root, windows), name);
    function_map::lemma_distinct_ranges(v);
    assert(v.contains(v[0]));
}

/// A field of a list is the element at its place, and absent behind the end; a text has none.
pub proof fn law_field_of_a_list_is_at_its_place(a: Seq<JsonView>, name: Seq<char>, place: int)
    requires
        0 <= place,
    ensures
        place < a.len() ==> JsonView::Array(a).field(name, place) == Some(a[place]),
        place >= a.len() ==> JsonView::Array(a).field(name, place) is None,
        JsonView::Text(name).field(name, place) is None,
{
}

} // verus!

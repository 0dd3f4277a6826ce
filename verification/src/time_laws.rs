//! Laws of the calendar and of timestamps.

use vstd::prelude::*;
use crate::text;
use crate::time;

verus! {

/// The calendar goes day by day from the first of January 1970 on: through the month, into the next
/// month, and from December into the next year.
pub proof fn law_calendar_goes_day_by_day(year: int, month: int, day: int)
    requires
        time::valid_date(year, month, day),
    ensures
        time::day_number(1970, 1, 1) == 0,
        time::valid_date(year, month, day + 1) ==> time::day_number(year, month, day + 1) == time::day_number(
            year,
            month,
            day,
        ) + 1,
        !time::valid_date(year, month, day + 1) && month < 12 ==> time::valid_date(year, month + 1, 1)
            && time::day_number(year, month + 1, 1) == time::day_number(year, month, day) + 1,
        !time::valid_date(year, month, day + 1) && month == 12 ==> time::valid_date(year + 1, 1, 1)
            && time::day_number(year + 1, 1, 1) == time::day_number(year, month, day) + 1,
{
    time::lemma_month_starts(year);
}

/// February has a day more in years that four divides, but not in those that a hundred divides, unless
/// four hundred does; the other months alternate, with July and August both long. Any four hundred
/// years have the same number of days.
pub proof fn law_months_have_their_days(year: int, month: int)
    requires
        year >= 1970,
        1 <= month <= 12,
    ensures
        month != 2 ==> time::days_in_month(year, month) == 30 + (month + month / 8) % 2,
        month == 2 ==> (time::days_in_month(year, month) == 29 <==> (year % 4 == 0 && year % 100 != 0) || year % 400
            == 0),
        month == 2 ==> 28 <= time::days_in_month(year, month) <= 29,
        time::days_before_month(year, 13) == 337 + time::days_in_month(year, 2),
        time::days_before_year(year + 1) - time::days_before_year(year) == 337 + time::days_in_month(year, 2),
        time::days_before_year(year + 400) - time::days_before_year(year) == 146097,
{
    time::lemma_month_starts(year);
    time::lemma_four_hundred_years(year);
}

/// The number that two digits write.
pub open spec fn pair_at(t: Seq<char>, i: int) -> int {
    (t[i] as int - '0' as int) * 10 + (t[i + 1] as int - '0' as int)
}

/// From a timestamp the date and the time can be read back, each at its place.
pub proof fn law_timestamp_is_read_back(year: nat, month: nat, day: nat, second: nat)
    requires
        1000 <= year <= 9999,
        time::valid_date(year as int, month as int, day as int),
        second < 86400,
    ensures
        ({
            let t = time::timestamp_text(year, month, day, second);
            &&& t.len() == 20
            &&& pair_at(t, 0) * 100 + pair_at(t, 2) == year
            &&& pair_at(t, 5) == month
            &&& pair_at(t, 8) == day
            &&& pair_at(t, 11) * 3600 + pair_at(t, 14) * 60 + pair_at(t, 17) == second
            &&& pair_at(t, 14) < 60
            &&& pair_at(t, 17) < 60
            &&& t[4] == '-' && t[7] == '-' && t[10] == 'T' && t[13] == ':' && t[16] == ':' && t[19] == 'Z'
            &&& forall|i: int|
                0 <= i < 20 && i != 4 && i != 7 && i != 10 && i != 13 && i != 16 && i != 19 ==> '0' <= #[trigger] t[i]
                    <= '9'
        }),
{
    reveal_strlit("-");
    reveal_strlit("T");
    reveal_strlit(":");
    reveal_strlit("Z");
    reveal_with_fuel(text::decimal, 4);
    let y = text::decimal(year);
    assert(year / 10 / 10 / 10 < 10);
    assert(y =~= seq![
        text::digit_char(year / 10 / 10 / 10),
        text::digit_char(year / 10 / 10 % 10),
        text::digit_char(year / 10 % 10),
        text::digit_char(year % 10),
    ]);
    let t = time::timestamp_text(year, month, day, second);
    let h = second / 3600;
    let m = second % 3600 / 60;
    let s = second % 60;
    assert(h < 24 && m < 60 && s < 60 && h * 3600 + m * 60 + s == second);
    assert(t =~= y + seq!['-', text::digit_char(month / 10), text::digit_char(month % 10), '-', text::digit_char(
        day / 10,
    ), text::digit_char(day % 10), 'T', text::digit_char(h / 10), text::digit_char(h % 10), ':', text::digit_char(m / 10), text::digit_char(m % 10), ':', text::digit_char(s / 10), text::digit_char(s % 10), 'Z']);
}

/// Of two texts that differ first where one has the smaller digit, that one comes first.
proof fn lemma_first_difference(a: Seq<char>, b: Seq<char>, k: int)
    requires
        0 <= k < a.len(),
        k < b.len(),
        forall|i: int| 0 <= i < k ==> #[trigger] a[i] == b[i],
        '0' <= a[k] < b[k] <= '9',
    ensures
        text::text_before(a, b),
{
    let start = a.take(k);
    assert(a =~= start + seq![a[k]] + a.skip(k + 1));
    assert(b =~= start + seq![b[k]] + b.skip(k + 1));
    crate::text_laws::law_texts_are_ordered_by_characters(start, a[k], a.skip(k + 1), b[k], b.skip(k + 1));
}

/// The same where a number of two digits is smaller.
proof fn lemma_smaller_pair(a: Seq<char>, b: Seq<char>, k: int)
    requires
        0 <= k,
        k + 1 < a.len(),
        k + 1 < b.len(),
        forall|i: int| 0 <= i < k ==> #[trigger] a[i] == b[i],
        '0' <= a[k] <= '9',
        '0' <= b[k] <= '9',
        '0' <= a[k + 1] <= '9',
        '0' <= b[k + 1] <= '9',
        pair_at(a, k) < pair_at(b, k),
    ensures
        text::text_before(a, b),
{
    if a[k] == b[k] {
        lemma_first_difference(a, b, k + 1);
    } else {
        lemma_first_difference(a, b, k);
    }
}

/// Timestamps sort as texts in the order of time.
pub proof fn law_timestamps_sort_by_time(
    y1: nat,
    m1: nat,
    d1: nat,
    s1: nat,
    y2: nat,
    m2: nat,
    d2: nat,
    s2: nat,
)
    requires
        time::valid_date(y1 as int, m1 as int, d1 as int),
        time::valid_date(y2 as int, m2 as int, d2 as int),
        y1 <= 9999,
        y2 <= 9999,
        s1 < 86400,
        s2 < 86400,
        time::day_number(y1 as int, m1 as int, d1 as int) * 86400 + s1 < time::day_number(
            y2 as int,
            m2 as int,
            d2 as int,
        ) * 86400 + s2,
    ensures
        text::text_before(time::timestamp_text(y1, m1, d1, s1), time::timestamp_text(y2, m2, d2, s2)),
{
    law_timestamp_is_read_back(y1, m1, d1, s1);
    law_timestamp_is_read_back(y2, m2, d2, s2);
    lemma_dates_in_order(y1, m1, d1, s1, y2, m2, d2, s2);
    lemma_texts_in_order(
        time::timestamp_text(y1, m1, d1, s1),
        time::timestamp_text(y2, m2, d2, s2),
    );
}

/// What is earlier has the smaller year, month, day or second, whichever differs first.
proof fn lemma_dates_in_order(y1: nat, m1: nat, d1: nat, s1: nat, y2: nat, m2: nat, d2: nat, s2: nat)
    requires
        time::valid_date(y1 as int, m1 as int, d1 as int),
        time::valid_date(y2 as int, m2 as int, d2 as int),
        s1 < 86400,
        s2 < 86400,
        time::day_number(y1 as int, m1 as int, d1 as int) * 86400 + s1 < time::day_number(
            y2 as int,
            m2 as int,
            d2 as int,
        ) * 86400 + s2,
    ensures
        y1 < y2 || (y1 == y2 && (m1 < m2 || (m1 == m2 && (d1 < d2 || (d1 == d2 && s1 < s2))))),
{
    time::lemma_day_in_year(y1 as int, m1 as int, d1 as int);
    time::lemma_day_in_year(y2 as int, m2 as int, d2 as int);
    if y2 < y1 {
        time::lemma_years_grow(y2 as int + 1, y1 as int);
    } else if y1 == y2 {
        time::lemma_month_starts(y1 as int);
    }
}

/// Whether a text is written as timestamps are.
spec fn is_written(t: Seq<char>) -> bool {
    &&& t.len() == 20
    &&& t[4] == '-' && t[7] == '-' && t[10] == 'T' && t[13] == ':' && t[16] == ':' && t[19] == 'Z'
    &&& forall|i: int|
        0 <= i < 20 && i != 4 && i != 7 && i != 10 && i != 13 && i != 16 && i != 19 ==> '0' <= #[trigger] t[i] <= '9'
}

/// Whether two texts are the same up to a place.
spec fn same_up_to(a: Seq<char>, b: Seq<char>, n: int) -> bool {
    forall|i: int| 0 <= i < n ==> #[trigger] a[i] == b[i]
}

/// One step of a comparison: the number at a place decides, or the texts are the same beyond it.
proof fn lemma_step(a: Seq<char>, b: Seq<char>, k: int)
    requires
        is_written(a),
        is_written(b),
        k == 0 || k == 2 || k == 5 || k == 8 || k == 11 || k == 14 || k == 17,
        same_up_to(a, b, k),
    ensures
        pair_at(a, k) < pair_at(b, k) ==> text::text_before(a, b),
        pair_at(a, k) == pair_at(b, k) ==> same_up_to(a, b, if k == 0 { 2 } else { k + 3 }),
        0 <= pair_at(a, k) <= 99,
        0 <= pair_at(b, k) <= 99,
{
    lemma_same_pair(a, b, k);
    if pair_at(a, k) < pair_at(b, k) {
        lemma_smaller_pair(a, b, k);
    }
}

/// Texts of timestamps compare as what they write.
proof fn lemma_texts_in_order(a: Seq<char>, b: Seq<char>)
    requires
        is_written(a),
        is_written(b),
        pair_at(a, 14) < 60,
        pair_at(a, 17) < 60,
        pair_at(b, 14) < 60,
        pair_at(b, 17) < 60,
        ({
            let y1 = pair_at(a, 0) * 100 + pair_at(a, 2);
            let y2 = pair_at(b, 0) * 100 + pair_at(b, 2);
            let s1 = pair_at(a, 11) * 3600 + pair_at(a, 14) * 60 + pair_at(a, 17);
            let s2 = pair_at(b, 11) * 3600 + pair_at(b, 14) * 60 + pair_at(b, 17);
            y1 < y2 || (y1 == y2 && (pair_at(a, 5) < pair_at(b, 5) || (pair_at(a, 5) == pair_at(b, 5) && (pair_at(a, 8)
                < pair_at(b, 8) || (pair_at(a, 8) == pair_at(b, 8) && s1 < s2)))))
        }),
    ensures
        text::text_before(a, b),
{
    lemma_same_pair(a, b, 0);
    lemma_same_pair(a, b, 2);
    lemma_same_pair(a, b, 14);
    lemma_same_pair(a, b, 17);
    lemma_step(a, b, 0);
    if pair_at(a, 0) == pair_at(b, 0) {
        lemma_step(a, b, 2);
        if pair_at(a, 2) == pair_at(b, 2) {
            lemma_step(a, b, 5);
            if pair_at(a, 5) == pair_at(b, 5) {
                lemma_step(a, b, 8);
                if pair_at(a, 8) == pair_at(b, 8) {
                    lemma_step(a, b, 11);
                    if pair_at(a, 11) == pair_at(b, 11) {
                        lemma_step(a, b, 14);
                        if pair_at(a, 14) == pair_at(b, 14) {
                            lemma_step(a, b, 17);
                        }
                    }
                }
            }
        }
    }
}

proof fn lemma_same_pair(a: Seq<char>, b: Seq<char>, k: int)
    requires
        0 <= k,
        k + 1 < a.len(),
        k + 1 < b.len(),
        '0' <= a[k] <= '9',
        '0' <= b[k] <= '9',
        '0' <= a[k + 1] <= '9',
        '0' <= b[k + 1] <= '9',
    ensures
        pair_at(a, k) == pair_at(b, k) <==> a[k] == b[k] && a[k + 1] == b[k + 1],
        0 <= pair_at(a, k) <= 99,
        0 <= pair_at(b, k) <= 99,
{
}

} // verus!

//! Laws of the text helpers: what splitting, trimming and reading numbers give back.

use vstd::prelude::*;
use crate::text;

verus! {

/// A number is written with the digits `0` to `9`, the last of which is its remainder by ten, and
/// without a leading zero.
pub proof fn law_decimal_writes_digits(n: nat)
    ensures
        text::decimal(n).len() > 0,
        forall|i: int| 0 <= i < text::decimal(n).len() ==> '0' <= #[trigger] text::decimal(n)[i] <= '9',
        text::decimal(n).last() as nat == '0' as nat + n % 10,
        n < 10 <==> text::decimal(n).len() == 1,
        n >= 10 ==> text::decimal(n).drop_last() == text::decimal(n / 10),
        n > 0 ==> text::decimal(n)[0] != '0',
    decreases n,
{
    if n >= 10 {
        law_decimal_writes_digits(n / 10);
        assert(text::decimal(n).drop_last() =~= text::decimal(n / 10));
    }
}

/// What is written in decimal is read back, with or without a plus sign, and with its sign.
pub proof fn law_decimal_is_read_back(n: nat)
    ensures
        text::unsigned_value(text::decimal(n)) == Some(n),
        text::unsigned_value(seq!['+'] + text::decimal(n)) == Some(n),
        text::signed_value(text::decimal(n)) == Some(n as int),
        text::signed_value(seq!['+'] + text::decimal(n)) == Some(n as int),
        text::signed_value(seq!['-'] + text::decimal(n)) == Some(-(n as int)),
{
    lemma_decimal_value(n);
    law_decimal_writes_digits(n);
    let d = text::decimal(n);
    assert(d[0] >= '0');
    assert((seq!['+'] + d).drop_first() =~= d);
    assert((seq!['-'] + d).drop_first() =~= d);
}

proof fn lemma_decimal_value(n: nat)
    ensures
        text::all_digits(text::decimal(n)),
        text::digits_value(text::decimal(n)) == n,
    decreases n,
{
    law_decimal_writes_digits(n);
    assert forall|i: int| 0 <= i < text::decimal(n).len() implies text::is_digit(#[trigger] text::decimal(n)[i]) by {}
    if n >= 10 {
        lemma_decimal_value(n / 10);
    } else {
        assert(text::decimal(n).drop_last() =~= Seq::<char>::empty());
        assert(text::digits_value(text::decimal(n).drop_last()) == 0);
    }
}

/// Each further digit counts as the last place of a number ten times as large, and leading zeros do
/// not count.
pub proof fn law_digits_are_positional(s: Seq<char>, c: char)
    requires
        forall|i: int| 0 <= i < s.len() ==> '0' <= #[trigger] s[i] <= '9',
        s.len() > 0,
        '0' <= c <= '9',
    ensures
        text::unsigned_value(s) is Some,
        text::unsigned_value(s.push(c)) == Some((text::unsigned_value(s)->0 * 10 + (c as nat - '0' as nat)) as nat),
        text::unsigned_value(seq!['0'] + s) == text::unsigned_value(s),
{
    let t = s.push(c);
    assert(text::all_digits(s));
    assert forall|i: int| 0 <= i < t.len() implies text::is_digit(#[trigger] t[i]) by {}
    assert(t.drop_last() =~= s);
    assert(s[0] != '+' && t[0] == s[0]);
    lemma_leading_zero(s);
    let z = seq!['0'] + s;
    assert forall|i: int| 0 <= i < z.len() implies text::is_digit(#[trigger] z[i]) by {}
}

proof fn lemma_leading_zero(s: Seq<char>)
    ensures
        text::digits_value(seq!['0'] + s) == text::digits_value(s),
    decreases s.len(),
{
    let z = seq!['0'] + s;
    if s.len() == 0 {
        assert(z.drop_last() =~= s);
        assert(text::digits_value(s) == 0);
    } else {
        lemma_leading_zero(s.drop_last());
        assert(z.drop_last() =~= seq!['0'] + s.drop_last());
    }
}

/// A text with anything but digits behind its sign, or with nothing there, is no number.
pub proof fn law_only_digits_are_numbers(s: Seq<char>, i: int)
    requires
        s.len() == 0 || (0 <= i < s.len() && !('0' <= s[i] <= '9') && (i > 0 || (s[0] != '+' && s[0] != '-')))
            || (s.len() == 1 && (s[0] == '+' || s[0] == '-')),
    ensures
        text::unsigned_value(s) is None,
        text::signed_value(s) is None,
        s.len() > 0 && s[0] == '-' ==> text::unsigned_value(s) is None,
{
    let b = s.drop_first();
    if s.len() > 1 {
        if i > 0 {
            assert(b[i - 1] == s[i]);
            assert(!text::all_digits(b));
        }
        assert(!text::all_digits(s)) by {
            assert(!text::is_digit(s[i]));
        }
    } else if s.len() == 1 {
        assert(b.len() == 0);
        assert(!text::is_digit(s[0]));
        assert(!text::all_digits(s));
    }
    if s.len() > 0 && s[0] == '-' {
        assert(!text::is_digit(s[0]));
        assert(!text::all_digits(s));
    }
}

/// Splitting takes a sequence apart at every separator and nowhere else: without a separator it is
/// one piece, and around a separator the pieces of both sides follow each other.
pub proof fn law_pieces_are_separated<T>(a: Seq<T>, b: Seq<T>, sep: T)
    ensures
        text::pieces(a + seq![sep] + b, sep) == text::pieces(a, sep) + text::pieces(b, sep),
        !a.contains(sep) ==> text::pieces(a, sep) == seq![a],
    decreases a.len() + b.len(),
{
    let whole = a + seq![sep] + b;
    if b.len() > 0 {
        law_pieces_are_separated(a, b.drop_last(), sep);
        assert(whole.drop_last() =~= a + seq![sep] + b.drop_last());
        let p = text::pieces(b.drop_last(), sep);
        text::lemma_pieces_nonempty(b.drop_last(), sep);
        let q = text::pieces(a, sep) + p;
        assert(q.drop_last() =~= text::pieces(a, sep) + p.drop_last());
        assert(text::pieces(whole, sep) =~= text::pieces(a, sep) + text::pieces(b, sep));
    } else {
        assert(whole.drop_last() =~= a);
        assert(text::pieces(b, sep) =~= seq![Seq::<T>::empty()]);
        assert(text::pieces(whole, sep) =~= text::pieces(a, sep) + text::pieces(b, sep));
    }
    if !a.contains(sep) {
        lemma_one_piece(a, sep);
    }
}

proof fn lemma_one_piece<T>(a: Seq<T>, sep: T)
    requires
        !a.contains(sep),
    ensures
        text::pieces(a, sep) == seq![a],
    decreases a.len(),
{
    if a.len() > 0 {
        let b = a.drop_last();
        assert(a.contains(a[a.len() - 1]));
        assert(!b.contains(sep)) by {
            if b.contains(sep) {
                let i = choose|i: int| 0 <= i < b.len() && b[i] == sep;
                assert(a[i] == sep);
            }
        }
        lemma_one_piece(b, sep);
        assert(text::pieces(a, sep) =~= seq![b.push(a.last())]);
        assert(b.push(a.last()) =~= a);
    } else {
        assert(a =~= Seq::<T>::empty());
        assert(text::pieces(a, sep) =~= seq![a]);
    }
}

/// No piece holds the separator, and joining the pieces with it gives the text back.
pub proof fn law_pieces_join_to_the_text(s: Seq<char>, sep: char)
    ensures
        text::joined(text::pieces(s, sep), seq![sep]) == s,
        forall|i: int| 0 <= i < text::pieces(s, sep).len() ==> !(#[trigger] text::pieces(s, sep)[i]).contains(sep),
    decreases s.len(),
{
    let p = text::pieces(s, sep);
    if s.len() > 0 {
        let t = s.drop_last();
        law_pieces_join_to_the_text(t, sep);
        text::lemma_pieces_nonempty(t, sep);
        let q = text::pieces(t, sep);
        if s.last() == sep {
            assert(p.drop_last() =~= q);
            assert(text::joined(p, seq![sep]) =~= t + seq![sep] + Seq::<char>::empty());
            assert(text::joined(p, seq![sep]) =~= s);
        } else {
            assert(p.drop_last() =~= q.drop_last());
            if q.len() == 1 {
                assert(text::joined(p, seq![sep]) =~= q[0].push(s.last()));
            }
            assert(text::joined(p, seq![sep]) =~= text::joined(q, seq![sep]).push(s.last()));
            assert(text::joined(p, seq![sep]) =~= s);
        }
        assert forall|i: int| 0 <= i < p.len() implies !(#[trigger] p[i]).contains(sep) by {
            if i < q.len() && (s.last() == sep || i < q.len() - 1) {
                assert(p[i] == q[i]);
            } else if s.last() != sep {
                assert(!q[q.len() - 1].contains(sep));
                if p[i].contains(sep) {
                    let k = choose|k: int| 0 <= k < p[i].len() && p[i][k] == sep;
                    assert(q[q.len() - 1][k] == sep);
                }
            }
        }
    } else {
        assert(p =~= seq![Seq::<char>::empty()]);
    }
}

/// Joining puts the separator between neighbours: joined lists are joined by it.
pub proof fn law_joining_adds_up(a: Seq<Seq<char>>, b: Seq<Seq<char>>, sep: Seq<char>)
    requires
        a.len() > 0,
        b.len() > 0,
    ensures
        text::joined(a + b, sep) == text::joined(a, sep) + sep + text::joined(b, sep),
        a.len() == 1 ==> text::joined(a, sep) == a[0],
    decreases b.len(),
{
    let c = a + b;
    assert(c.last() == b.last());
    if b.len() == 1 {
        assert(c.drop_last() =~= a);
    } else {
        assert(c.drop_last() =~= a + b.drop_last());
        law_joining_adds_up(a, b.drop_last(), sep);
        assert(text::joined(c, sep) =~= text::joined(a, sep) + sep + text::joined(b, sep));
    }
}

/// Of the characters up to `~` the space and those from tab to carriage return are white, and no
/// other.
pub proof fn law_plain_white_space(c: char)
    requires
        c as u32 <= 0x7E,
    ensures
        text::is_white(c) <==> c == ' ' || c == '\t' || c == '\n' || c == '\r' || c as u32 == 0xB || c as u32 == 0xC,
{
}

/// Words are the stretches between white space: white space at the front does not count, a word ends
/// at white space, and a text without any is one word.
pub proof fn law_words_are_apart(w: Seq<char>, c: char, rest: Seq<char>)
    requires
        forall|i: int| 0 <= i < w.len() ==> !text::is_white(#[trigger] w[i]),
        text::is_white(c),
    ensures
        text::words(seq![c] + rest) == text::words(rest),
        w.len() > 0 ==> text::words(w + seq![c] + rest) == seq![w] + text::words(rest),
        w.len() > 0 ==> text::words(w) == seq![w],
        text::words(Seq::<char>::empty()) == Seq::<Seq<char>>::empty(),
{
    lemma_word_under_way(w);
    lemma_words_behind(w, c, rest);
    lemma_words_behind(Seq::empty(), c, rest);
    lemma_word_under_way(Seq::empty());
    assert(Seq::<char>::empty() + seq![c] + rest =~= seq![c] + rest);
    let (d, k) = text::words_so_far(rest);
    if w.len() > 0 {
        assert((seq![w] + d).push(k) =~= seq![w] + d.push(k));
        assert(text::words(w) =~= seq![w]);
    }
    assert(Seq::<Seq<char>>::empty() + d =~= d);
    assert(text::words(seq![c] + rest) =~= text::words(rest));
    assert(w.len() > 0 ==> text::words(w + seq![c] + rest) =~= seq![w] + text::words(rest));
}

proof fn lemma_word_under_way(w: Seq<char>)
    requires
        forall|i: int| 0 <= i < w.len() ==> !text::is_white(#[trigger] w[i]),
    ensures
        text::words_so_far(w) == (Seq::<Seq<char>>::empty(), w),
    decreases w.len(),
{
    if w.len() > 0 {
        let v = w.drop_last();
        assert forall|i: int| 0 <= i < v.len() implies !text::is_white(#[trigger] v[i]) by {
            assert(w[i] == v[i]);
        }
        lemma_word_under_way(v);
        assert(!text::is_white(w[w.len() - 1]));
        assert(v.push(w.last()) =~= w);
    } else {
        assert(w =~= Seq::<char>::empty());
    }
}

proof fn lemma_words_behind(w: Seq<char>, c: char, rest: Seq<char>)
    requires
        forall|i: int| 0 <= i < w.len() ==> !text::is_white(#[trigger] w[i]),
        text::is_white(c),
    ensures
        text::words_so_far(w + seq![c] + rest).1 == text::words_so_far(rest).1,
        text::words_so_far(w + seq![c] + rest).0 == (if w.len() > 0 {
            seq![w]
        } else {
            Seq::<Seq<char>>::empty()
        }) + text::words_so_far(rest).0,
    decreases rest.len(),
{
    let all = w + seq![c] + rest;
    let first = if w.len() > 0 {
        seq![w]
    } else {
        Seq::<Seq<char>>::empty()
    };
    if rest.len() == 0 {
        lemma_word_under_way(w);
        assert(all.drop_last() =~= w);
        assert(text::words_so_far(all).0 =~= first + text::words_so_far(rest).0);
    } else {
        lemma_words_behind(w, c, rest.drop_last());
        assert(all.drop_last() =~= w + seq![c] + rest.drop_last());
        assert(text::words_so_far(all).0 =~= first + text::words_so_far(rest).0);
    }
}

/// Trimming takes off white space and no more: what is taken off at either end is white, and what is
/// left neither begins nor ends with it.
pub proof fn law_trimming_takes_white_ends(s: Seq<char>) -> (cut: (int, int))
    ensures
        0 <= cut.0 <= cut.1 <= s.len(),
        text::trimmed(s) == s.subrange(cut.0, cut.1),
        forall|i: int| 0 <= i < cut.0 || cut.1 <= i < s.len() ==> text::is_white(#[trigger] s[i]),
        cut.0 < cut.1 ==> !text::is_white(s[cut.0]) && !text::is_white(s[cut.1 - 1]),
{
    let a = lemma_trimmed_start(s);
    let t = s.skip(a);
    let b = lemma_trimmed_end(t);
    assert(text::trimmed(s) =~= s.subrange(a, a + b));
    assert forall|i: int| 0 <= i < a || a + b <= i < s.len() implies text::is_white(#[trigger] s[i]) by {
        if i >= a {
            assert(t[i - a] == s[i]);
        }
    }
    if b > 0 {
        assert(t[0] == s[a] && t[b - 1] == s[a + b - 1]);
    }
    (a, a + b)
}

proof fn lemma_trimmed_start(s: Seq<char>) -> (n: int)
    ensures
        0 <= n <= s.len(),
        text::trimmed_start(s) == s.skip(n),
        forall|i: int| 0 <= i < n ==> text::is_white(#[trigger] s[i]),
        n < s.len() ==> !text::is_white(s[n]),
    decreases s.len(),
{
    if s.len() > 0 && text::is_white(s[0]) {
        let t = s.drop_first();
        let n = lemma_trimmed_start(t);
        assert(t.skip(n) =~= s.skip(n + 1));
        assert forall|i: int| 0 <= i < n + 1 implies text::is_white(#[trigger] s[i]) by {
            if i > 0 {
                assert(t[i - 1] == s[i]);
            }
        }
        if n + 1 < s.len() {
            assert(t[n] == s[n + 1]);
        }
        n + 1
    } else {
        assert(s.skip(0) =~= s);
        0
    }
}

proof fn lemma_trimmed_end(s: Seq<char>) -> (n: int)
    ensures
        0 <= n <= s.len(),
        text::trimmed_end(s) == s.take(n),
        forall|i: int| n <= i < s.len() ==> text::is_white(#[trigger] s[i]),
        n > 0 ==> !text::is_white(s[n - 1]),
    decreases s.len(),
{
    if s.len() > 0 && text::is_white(s.last()) {
        let t = s.drop_last();
        let n = lemma_trimmed_end(t);
        assert(t.take(n) =~= s.take(n));
        assert forall|i: int| n <= i < s.len() implies text::is_white(#[trigger] s[i]) by {
            if i < t.len() {
                assert(t[i] == s[i]);
            }
        }
        n
    } else {
        assert(s.take(s.len() as int) =~= s);
        s.len() as int
    }
}

/// A text without white space at its ends is not changed by trimming.
pub proof fn law_trimming_keeps_plain_text(s: Seq<char>)
    requires
        s.len() > 0 ==> !text::is_white(s[0]) && !text::is_white(s.last()),
    ensures
        text::trimmed(s) == s,
{
    if s.len() > 0 {
        assert(text::trimmed_start(s) == s);
        assert(text::trimmed_end(s) == s);
    }
}

/// A place that is found is the first: the pattern stands there and nowhere before. Where none is
/// found the pattern stands nowhere.
pub proof fn law_first_place_is_first<T>(s: Seq<T>, pat: Seq<T>, j: int)
    requires
        0 <= j,
        j + pat.len() <= s.len(),
        s.subrange(j, j + pat.len()) == pat,
    ensures
        text::first_place(s, pat) is Some,
        0 <= text::first_place(s, pat)->0 <= j,
        text::first_place(s, pat)->0 + pat.len() <= s.len(),
        s.subrange(text::first_place(s, pat)->0, text::first_place(s, pat)->0 + pat.len()) == pat,
    decreases j,
{
    assert(text::occurs_at(s, pat, j));
    if exists|k: int| 0 <= k < j && #[trigger] text::occurs_at(s, pat, k) {
        let k = choose|k: int| 0 <= k < j && #[trigger] text::occurs_at(s, pat, k);
        law_first_place_is_first(s, pat, k);
    } else {
        assert(text::first_at(s, pat, j));
        text::lemma_first_place(s, pat);
    }
}

/// A place that is found holds the pattern.
pub proof fn law_found_place_holds_the_pattern<T>(s: Seq<T>, pat: Seq<T>)
    ensures
        text::first_place(s, pat) matches Some(k) ==> 0 <= k && k + pat.len() <= s.len() && s.subrange(
            k,
            k + pat.len(),
        ) == pat,
{
    if text::first_place(s, pat) is Some {
        let k = text::first_place(s, pat)->0;
        assert(text::first_at(s, pat, k));
        assert(text::occurs_at(s, pat, k));
    }
}

/// Cutting at the first separator gives the part before it, which does not hold it, and all that
/// follows; a text without it is not cut.
pub proof fn law_cut_at_first(a: Seq<char>, b: Seq<char>, sep: char)
    requires
        !a.contains(sep),
    ensures
        text::around_first(a + seq![sep] + b, sep) == Some((a, b)),
        text::around_first(a, sep) is None,
{
    let s = a + seq![sep] + b;
    let n = a.len() as int;
    assert(s.subrange(n, n + 1) =~= seq![sep]);
    law_first_place_is_first(s, seq![sep], n);
    let k = text::first_place(s, seq![sep])->0;
    assert(s.subrange(k, k + 1)[0] == s[k]);
    if k < n {
        assert(a[k] == sep);
    }
    assert(k == n);
    assert(s.take(n) =~= a);
    assert(s.skip(n + 1) =~= b);
    lemma_not_found(a, sep);
}

proof fn lemma_not_found(a: Seq<char>, sep: char)
    requires
        !a.contains(sep),
    ensures
        text::around_first(a, sep) is None,
{
    if exists|i: int| #[trigger] text::first_at(a, seq![sep], i) {
        let i = choose|i: int| #[trigger] text::first_at(a, seq![sep], i);
        assert(text::occurs_at(a, seq![sep], i));
        assert(a.subrange(i, i + 1)[0] == a[i]);
        assert(a.contains(sep));
    }
}

/// Items one behind the other, each ended by a separator.
pub open spec fn terminated<T>(items: Seq<Seq<T>>, sep: T) -> Seq<T>
    decreases items.len(),
{
    if items.len() == 0 {
        Seq::empty()
    } else {
        items[0] + seq![sep] + terminated(items.drop_first(), sep)
    }
}

/// Items that are each ended by a separator come apart again, with nothing behind the last.
pub proof fn law_terminated_items_come_apart<T>(items: Seq<Seq<T>>, sep: T)
    requires
        forall|i: int| 0 <= i < items.len() ==> !(#[trigger] items[i]).contains(sep),
    ensures
        text::pieces(terminated(items, sep), sep) == items.push(Seq::empty()),
    decreases items.len(),
{
    let none = Seq::<T>::empty();
    if items.len() == 0 {
        assert(text::pieces(terminated(items, sep), sep) =~= items.push(none));
    } else {
        let rest = items.drop_first();
        assert forall|i: int| 0 <= i < rest.len() implies !(#[trigger] rest[i]).contains(sep) by {
            assert(rest[i] == items[i + 1]);
        }
        law_terminated_items_come_apart(rest, sep);
        law_pieces_are_separated(items[0], terminated(rest, sep), sep);
        assert(seq![items[0]] + rest.push(none) =~= items.push(none));
    }
}

/// Where two texts first differ, the one with the lower character comes first, as long as both
/// characters are plain; a text comes before whatever it begins.
pub proof fn law_texts_are_ordered_by_characters(start: Seq<char>, x: char, a: Seq<char>, y: char, b: Seq<char>)
    requires
        x as u32 <= 0x7F,
        y as u32 <= 0x7F,
        x < y,
    ensures
        text::text_before(start + seq![x] + a, start + seq![y] + b),
        !text::text_before(start + seq![y] + b, start + seq![x] + a),
        text::text_before(start, start + seq![x] + a),
{
    let p = vstd::utf8::encode_utf8(start);
    lemma_encode_add(start, seq![x] + a);
    lemma_encode_add(start, seq![y] + b);
    lemma_plain_head(x, a);
    lemma_plain_head(y, b);
    assert(start + (seq![x] + a) =~= start + seq![x] + a);
    assert(start + (seq![y] + b) =~= start + seq![y] + b);
    let u = text::byte_ranks(start + seq![x] + a);
    let v = text::byte_ranks(start + seq![y] + b);
    let s = text::byte_ranks(start);
    let k = p.len() as int;
    assert(text::lex_before_at(u, v, k));
    assert(text::lex_before_at(s, u, k));
    if text::lex_before(v, u) {
        text::lemma_lex_transitive(u, v, u);
        text::lemma_lex_irreflexive(u);
    }
}

/// A plain character is encoded as one byte.
pub proof fn lemma_plain_head(c: char, rest: Seq<char>)
    requires
        c as u32 <= 0x7F,
    ensures
        vstd::utf8::encode_utf8(seq![c] + rest) == seq![c as u8] + vstd::utf8::encode_utf8(rest),
{
    let s = seq![c] + rest;
    let x = c as u32;
    assert(s.drop_first() =~= rest);
    assert((x & 0x7F) as u8 == x as u8) by (bit_vector)
        requires
            x <= 0x7F,
    ;
    assert(vstd::utf8::encode_scalar(x) =~= seq![c as u8]);
}

proof fn lemma_encode_add(a: Seq<char>, b: Seq<char>)
    ensures
        vstd::utf8::encode_utf8(a + b) == vstd::utf8::encode_utf8(a) + vstd::utf8::encode_utf8(b),
    decreases a.len(),
{
    if a.len() == 0 {
        assert(a + b =~= b);
        assert(vstd::utf8::encode_utf8(a) + vstd::utf8::encode_utf8(b) =~= vstd::utf8::encode_utf8(b));
    } else {
        assert((a + b).drop_first() =~= a.drop_first() + b);
        lemma_encode_add(a.drop_first(), b);
        assert(vstd::utf8::encode_utf8(a + b) =~= vstd::utf8::encode_utf8(a) + vstd::utf8::encode_utf8(b));
    }
}

} // verus!

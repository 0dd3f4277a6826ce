//! Text helpers: comparison, decimal numbers, splitting and joining.

use vstd::prelude::*;

verus! {

/// Lexicographic order on sequences of ranks: `k` is the first position where `a` and `b`
/// differ, and there `a` has ended or holds the smaller rank.
pub open spec fn lex_before_at(a: Seq<int>, b: Seq<int>, k: int) -> bool {
    &&& 0 <= k <= a.len()
    &&& k < b.len()
    &&& forall|j: int| 0 <= j < k ==> #[trigger] a[j] == b[j]
    &&& (k == a.len() || a[k] < b[k])
}

/// `a` sorts strictly before `b` in lexicographic order.
pub open spec fn lex_before(a: Seq<int>, b: Seq<int>) -> bool {
    exists|k: int| #[trigger] lex_before_at(a, b, k)
}

pub proof fn lemma_lex_irreflexive(a: Seq<int>)
    ensures
        !lex_before(a, a),
{
}

pub proof fn lemma_lex_transitive(a: Seq<int>, b: Seq<int>, c: Seq<int>)
    requires
        lex_before(a, b),
        lex_before(b, c),
    ensures
        lex_before(a, c),
{
    let i = choose|k: int| #[trigger] lex_before_at(a, b, k);
    let j = choose|k: int| #[trigger] lex_before_at(b, c, k);
    if i <= j {
        assert(lex_before_at(a, c, i));
    } else {
        assert(a[j] == b[j]);
        assert(lex_before_at(a, c, j));
    }
}

pub proof fn lemma_lex_total(a: Seq<int>, b: Seq<int>)
    ensures
        a == b || lex_before(a, b) || lex_before(b, a),
    decreases a.len(),
{
    if a != b {
        if forall|k: int| 0 <= k < a.len() && k < b.len() ==> a[k] == b[k] {
            if a.len() < b.len() {
                assert(lex_before_at(a, b, a.len() as int));
            } else if b.len() < a.len() {
                assert(lex_before_at(b, a, b.len() as int));
            } else {
                assert(a =~= b);
            }
        } else {
            let k = choose|k: int| 0 <= k < a.len() && k < b.len() && a[k] != b[k];
            lemma_lex_first_difference(a, b, k);
        }
    }
}

proof fn lemma_lex_first_difference(a: Seq<int>, b: Seq<int>, k: int)
    requires
        0 <= k < a.len(),
        k < b.len(),
        a[k] != b[k],
    ensures
        lex_before(a, b) || lex_before(b, a),
    decreases k,
{
    if exists|j: int| 0 <= j < k && a[j] != b[j] {
        let j = choose|j: int| 0 <= j < k && a[j] != b[j];
        lemma_lex_first_difference(a, b, j);
    } else if a[k] < b[k] {
        assert(lex_before_at(a, b, k));
    } else {
        assert(lex_before_at(b, a, k));
    }
}

/// Ranks of a text: the bytes of its UTF-8 encoding.
pub open spec fn byte_ranks(s: Seq<char>) -> Seq<int> {
    vstd::utf8::encode_utf8(s).map_values(|b: u8| b as int)
}

/// `a` sorts strictly before `b` as strings do: by the bytes of their UTF-8 encoding.
pub open spec fn text_before(a: Seq<char>, b: Seq<char>) -> bool {
    lex_before(byte_ranks(a), byte_ranks(b))
}

pub proof fn lemma_byte_ranks_injective(a: Seq<char>, b: Seq<char>)
    requires
        byte_ranks(a) == byte_ranks(b),
    ensures
        a == b,
{
    let x = vstd::utf8::encode_utf8(a);
    let y = vstd::utf8::encode_utf8(b);
    assert(byte_ranks(a).len() == x.len() && byte_ranks(b).len() == y.len());
    assert forall|i: int| 0 <= i < x.len() implies x[i] == y[i] by {
        assert(byte_ranks(a)[i] == x[i] as int);
        assert(byte_ranks(b)[i] == y[i] as int);
    }
    assert(x =~= y);
    vstd::utf8::encode_utf8_decode_utf8(a);
    vstd::utf8::encode_utf8_decode_utf8(b);
}

pub proof fn lemma_text_before_total(a: Seq<char>, b: Seq<char>)
    ensures
        a == b || text_before(a, b) || text_before(b, a),
{
    lemma_lex_total(byte_ranks(a), byte_ranks(b));
    if byte_ranks(a) == byte_ranks(b) {
        lemma_byte_ranks_injective(a, b);
    }
}

/// Whether `a` sorts strictly before `b`.
pub fn text_is_before(a: &str, b: &str) -> (r: bool)
    ensures
        r == text_before(a@, b@),
{
    let x = a.as_bytes();
    let y = b.as_bytes();
    let mut k: usize = 0;
    while k < x.len() && k < y.len() && x[k] == y[k]
        invariant
            k <= x.len(),
            k <= y.len(),
            x@ == vstd::utf8::encode_utf8(a@),
            y@ == vstd::utf8::encode_utf8(b@),
            forall|j: int| 0 <= j < k ==> x@[j] == y@[j],
        decreases x.len() - k,
    {
        k += 1;
    }
    let r = k < y.len() && (k == x.len() || x[k] < y[k]);
    proof {
        let p = byte_ranks(a@);
        let q = byte_ranks(b@);
        assert forall|j: int| 0 <= j < k implies #[trigger] p[j] == q[j] by {
            assert(x@[j] == y@[j]);
        }
        if r {
            assert(lex_before_at(p, q, k as int));
        } else if lex_before(p, q) {
            let w = choose|w: int| #[trigger] lex_before_at(p, q, w);
            if w < k {
                assert(x@[w] == y@[w]);
            } else if w > k {
                assert(p[k as int] == q[k as int]);
            }
        }
    }
    r
}

/// Whether two texts are equal.
pub fn same_text(a: &str, b: &str) -> (r: bool)
    ensures
        r == (a@ == b@),
{
    let x = a.as_bytes();
    let y = b.as_bytes();
    proof {
        vstd::utf8::encode_utf8_decode_utf8(a@);
        vstd::utf8::encode_utf8_decode_utf8(b@);
    }
    if x.len() != y.len() {
        return false;
    }
    let mut k: usize = 0;
    while k < x.len()
        invariant
            k <= x.len(),
            x.len() == y.len(),
            x@ == vstd::utf8::encode_utf8(a@),
            y@ == vstd::utf8::encode_utf8(b@),
            forall|j: int| 0 <= j < k ==> x@[j] == y@[j],
        decreases x.len() - k,
    {
        if x[k] != y[k] {
            assert(x@[k as int] != y@[k as int]);
            return false;
        }
        k += 1;
    }
    assert(x@ =~= y@);
    true
}

/// `String::push` appends one character.
pub assume_specification[ String::push ](s: &mut String, c: char)
    ensures
        final(s)@ == old(s)@.push(c),
;

/// The characters of a text.
pub fn chars_of(s: &str) -> (r: Vec<char>)
    ensures
        r@ == s@,
{
    let mut r: Vec<char> = Vec::new();
    for c in it: s.chars()
        invariant
            r@ == s@.take(it.index()),
            it.seq() == s@,
    {
        r.push(c);
        assert(s@.take(it.index() + 1) =~= s@.take(it.index()).push(c));
    }
    assert(s@.take(s@.len() as int) =~= s@);
    r
}

/// The text made of `v[from..to]`.
pub fn text_of(v: &Vec<char>, from: usize, to: usize) -> (r: String)
    requires
        from <= to <= v.len(),
    ensures
        r@ == v@.subrange(from as int, to as int),
{
    let mut r = String::new();
    let mut i: usize = from;
    while i < to
        invariant
            from <= i <= to <= v.len(),
            r@ == v@.subrange(from as int, i as int),
        decreases to - i,
    {
        r.push(v[i]);
        assert(v@.subrange(from as int, i + 1) =~= v@.subrange(from as int, i as int).push(v@[i as int]));
        i += 1;
    }
    r
}

/// The decimal digit of a number below ten.
pub open spec fn digit_char(d: nat) -> char {
    (('0' as nat) + d) as char
}

/// A number in decimal, without leading zeros.
pub open spec fn decimal(n: nat) -> Seq<char>
    decreases n,
{
    if n < 10 {
        seq![digit_char(n)]
    } else {
        decimal(n / 10).push(digit_char(n % 10))
    }
}

/// The digit of a number below ten.
pub fn digit(d: u64) -> (r: char)
    requires
        d < 10,
    ensures
        r == digit_char(d as nat),
{
    (48 + d as u8) as char
}

/// Writes a number in decimal.
pub fn wide_number_text(n: u128) -> (r: String)
    ensures
        r@ == decimal(n as nat),
    decreases n,
{
    if n < 10 {
        let mut r = String::new();
        r.push(digit(n as u64));
        assert(r@ =~= decimal(n as nat));
        r
    } else {
        let mut r = wide_number_text(n / 10);
        r.push(digit((n % 10) as u64));
        r
    }
}

/// Writes a number in decimal.
pub fn number_text(n: u64) -> (r: String)
    ensures
        r@ == decimal(n as nat),
{
    wide_number_text(n as u128)
}

/// Writes a count in decimal.
pub fn count_text(n: usize) -> (r: String)
    ensures
        r@ == decimal(n as nat),
{
    number_text(n as u64)
}

/// The pieces of `s` between the occurrences of `sep`.
pub open spec fn pieces<T>(s: Seq<T>, sep: T) -> Seq<Seq<T>>
    decreases s.len(),
{
    if s.len() == 0 {
        seq![Seq::<T>::empty()]
    } else {
        let p = pieces(s.drop_last(), sep);
        if s.last() == sep {
            p.push(Seq::<T>::empty())
        } else {
            p.drop_last().push(p.last().push(s.last()))
        }
    }
}

/// There is always at least one piece.
pub proof fn lemma_pieces_nonempty<T>(s: Seq<T>, sep: T)
    ensures
        pieces(s, sep).len() >= 1,
    decreases s.len(),
{
    if s.len() > 0 {
        lemma_pieces_nonempty(s.drop_last(), sep);
    }
}

/// Splits a text at every `sep`.
pub fn split_text(s: &str, sep: char) -> (r: Vec<String>)
    ensures
        r.deep_view() == pieces(s@, sep),
{
    let v = chars_of(s);
    let mut done: Vec<String> = Vec::new();
    let mut cur = String::new();
    let mut i: usize = 0;
    assert(done.deep_view().push(cur@) =~= pieces(v@.take(0), sep));
    while i < v.len()
        invariant
            i <= v.len(),
            v@ == s@,
            done.deep_view().push(cur@) == pieces(v@.take(i as int), sep),
        decreases v.len() - i,
    {
        let c = v[i];
        let ghost before = done.deep_view();
        let ghost cur0 = cur@;
        assert(v@.take(i + 1).drop_last() =~= v@.take(i as int));
        assert(v@.take(i + 1).last() == c);
        assert(before.push(cur0).drop_last() =~= before);
        if c == sep {
            done.push(cur);
            cur = String::new();
            assert(done.deep_view() =~= before.push(cur0));
            assert(done.deep_view().push(cur@) =~= pieces(v@.take(i + 1), sep));
        } else {
            cur.push(c);
            assert(done.deep_view().push(cur@) =~= pieces(v@.take(i + 1), sep));
        }
        i += 1;
    }
    assert(v@.take(i as int) =~= s@);
    let ghost before = done.deep_view();
    let ghost cur0 = cur@;
    done.push(cur);
    assert(done.deep_view() =~= before.push(cur0));
    done
}

/// Splits bytes at every `sep`.
pub fn split_bytes(v: &[u8], sep: u8) -> (r: Vec<Vec<u8>>)
    ensures
        r.deep_view() == pieces(v@, sep),
{
    let mut done: Vec<Vec<u8>> = Vec::new();
    let mut cur: Vec<u8> = Vec::new();
    let mut i: usize = 0;
    assert(cur.deep_view() =~= Seq::<u8>::empty());
    assert(done.deep_view().push(cur.deep_view()) =~= pieces(v@.take(0), sep));
    while i < v.len()
        invariant
            i <= v.len(),
            done.deep_view().push(cur.deep_view()) == pieces(v@.take(i as int), sep),
        decreases v.len() - i,
    {
        let c = v[i];
        let ghost before = done.deep_view();
        let ghost cur0 = cur.deep_view();
        assert(v@.take(i + 1).drop_last() =~= v@.take(i as int));
        assert(v@.take(i + 1).last() == c);
        assert(before.push(cur0).drop_last() =~= before);
        if c == sep {
            done.push(cur);
            cur = Vec::new();
            assert(cur.deep_view() =~= Seq::<u8>::empty());
            assert(done.deep_view() =~= before.push(cur0));
            assert(done.deep_view().push(cur.deep_view()) =~= pieces(v@.take(i + 1), sep));
        } else {
            cur.push(c);
            assert(cur.deep_view() =~= cur0.push(c));
            assert(done.deep_view().push(cur.deep_view()) =~= pieces(v@.take(i + 1), sep));
        }
        i += 1;
    }
    assert(v@.take(i as int) =~= v@);
    let ghost before = done.deep_view();
    let ghost cur0 = cur.deep_view();
    done.push(cur);
    assert(done.deep_view() =~= before.push(cur0));
    done
}

/// The parts put together with `sep` between them.
pub open spec fn joined(parts: Seq<Seq<char>>, sep: Seq<char>) -> Seq<char>
    decreases parts.len(),
{
    if parts.len() == 0 {
        Seq::empty()
    } else if parts.len() == 1 {
        parts[0]
    } else {
        joined(parts.drop_last(), sep) + sep + parts.last()
    }
}

/// Puts the parts together with `sep` between them.
pub fn join_texts(parts: &Vec<String>, sep: &str) -> (r: String)
    ensures
        r@ == joined(parts.deep_view(), sep@),
{
    let mut r = String::new();
    let mut i: usize = 0;
    let ghost d = parts.deep_view();
    while i < parts.len()
        invariant
            i <= parts.len(),
            d == parts.deep_view(),
            r@ == joined(d.take(i as int), sep@),
        decreases parts.len() - i,
    {
        if i > 0 {
            r.append(sep);
        }
        r.append(parts[i].as_str());
        proof {
            let t = d.take(i + 1);
            assert(t.drop_last() =~= d.take(i as int));
            assert(t.last() == d[i as int]);
            assert(d[i as int] == parts@[i as int]@);
            assert(r@ =~= joined(t, sep@));
        }
        i += 1;
    }
    assert(d.take(i as int) =~= d);
    r
}

/// Whether a character is white space in the Unicode sense.
pub open spec fn is_white(c: char) -> bool {
    ||| 0x9 <= c as u32 <= 0xD
    ||| c as u32 == 0x20
    ||| c as u32 == 0x85
    ||| c as u32 == 0xA0
    ||| c as u32 == 0x1680
    ||| 0x2000 <= c as u32 <= 0x200A
    ||| c as u32 == 0x2028
    ||| c as u32 == 0x2029
    ||| c as u32 == 0x202F
    ||| c as u32 == 0x205F
    ||| c as u32 == 0x3000
}

/// Whether a character is white space.
pub fn white(c: char) -> (r: bool)
    ensures
        r == is_white(c),
{
    let n: u32 = c as u32;
    (0x9 <= n && n <= 0xD) || n == 0x20 || n == 0x85 || n == 0xA0 || n == 0x1680 || (0x2000 <= n && n <= 0x200A)
        || n == 0x2028 || n == 0x2029 || n == 0x202F || n == 0x205F || n == 0x3000
}

/// `s` without white space at its end.
pub open spec fn trimmed_end(s: Seq<char>) -> Seq<char>
    decreases s.len(),
{
    if s.len() > 0 && is_white(s.last()) {
        trimmed_end(s.drop_last())
    } else {
        s
    }
}

/// `s` without white space at its start.
pub open spec fn trimmed_start(s: Seq<char>) -> Seq<char>
    decreases s.len(),
{
    if s.len() > 0 && is_white(s[0]) {
        trimmed_start(s.drop_first())
    } else {
        s
    }
}

/// `s` without white space at either end.
pub open spec fn trimmed(s: Seq<char>) -> Seq<char> {
    trimmed_end(trimmed_start(s))
}

/// Strips white space from both ends.
pub fn trim_text(s: &str) -> (r: String)
    ensures
        r@ == trimmed(s@),
{
    let v = chars_of(s);
    let mut from: usize = 0;
    let mut to: usize = v.len();
    assert(v@.subrange(0, to as int) =~= s@);
    while from < to && white(v[from])
        invariant
            from <= to,
            to == v.len(),
            trimmed_start(v@.subrange(from as int, to as int)) == trimmed_start(s@),
        decreases to - from,
    {
        assert(v@.subrange(from as int, to as int).drop_first() =~= v@.subrange(from + 1, to as int));
        from += 1;
    }
    while from < to && white(v[to - 1])
        invariant
            from <= to <= v.len(),
            trimmed_end(v@.subrange(from as int, to as int)) == trimmed(s@),
        decreases to - from,
    {
        assert(v@.subrange(from as int, to as int).drop_last() =~= v@.subrange(from as int, to - 1));
        to -= 1;
    }
    text_of(&v, from, to)
}

/// Whether `s` begins with `p`.
pub fn starts_with(s: &str, p: &str) -> (r: bool)
    ensures
        r == p@.is_prefix_of(s@),
{
    let x = chars_of(s);
    let y = chars_of(p);
    if y.len() > x.len() {
        return false;
    }
    let mut i: usize = 0;
    while i < y.len()
        invariant
            i <= y.len() <= x.len(),
            x@ == s@,
            y@ == p@,
            forall|j: int| 0 <= j < i ==> x@[j] == y@[j],
        decreases y.len() - i,
    {
        if x[i] != y[i] {
            assert(s@.take(p@.len() as int)[i as int] != p@[i as int]);
            return false;
        }
        i += 1;
    }
    assert(p@ =~= s@.take(p@.len() as int));
    true
}

/// Whether `s` ends with `p`.
pub fn ends_with(s: &str, p: &str) -> (r: bool)
    ensures
        r == p@.is_suffix_of(s@),
{
    let x = chars_of(s);
    let y = chars_of(p);
    if y.len() > x.len() {
        return false;
    }
    let off: usize = x.len() - y.len();
    let mut i: usize = 0;
    while i < y.len()
        invariant
            i <= y.len() <= x.len(),
            off == x.len() - y.len(),
            x@ == s@,
            y@ == p@,
            forall|j: int| 0 <= j < i ==> x@[off + j] == y@[j],
        decreases y.len() - i,
    {
        if x[off + i] != y[i] {
            assert(s@.skip(off as int)[i as int] != p@[i as int]);
            return false;
        }
        i += 1;
    }
    assert(p@ =~= s@.skip(off as int));
    true
}

/// Whether `c` occurs in `s`.
pub fn has_char(s: &str, c: char) -> (r: bool)
    ensures
        r == s@.contains(c),
{
    let x = chars_of(s);
    let mut i: usize = 0;
    while i < x.len()
        invariant
            i <= x.len(),
            x@ == s@,
            forall|j: int| 0 <= j < i ==> x@[j] != c,
        decreases x.len() - i,
    {
        if x[i] == c {
            return true;
        }
        i += 1;
    }
    false
}

/// Whether a character is one of the ten decimal digits.
pub open spec fn is_digit(c: char) -> bool {
    '0' <= c <= '9'
}

/// Whether `s` is made of decimal digits only.
pub open spec fn all_digits(s: Seq<char>) -> bool {
    forall|i: int| 0 <= i < s.len() ==> is_digit(#[trigger] s[i])
}

/// The number that a row of decimal digits writes.
pub open spec fn digits_value(s: Seq<char>) -> nat
    decreases s.len(),
{
    if s.len() == 0 {
        0
    } else {
        digits_value(s.drop_last()) * 10 + (s.last() as nat - '0' as nat) as nat
    }
}

/// The number that `s` writes: an optional plus sign, then at least one digit.
pub open spec fn unsigned_value(s: Seq<char>) -> Option<nat> {
    let body = if s.len() > 0 && s[0] == '+' {
        s.drop_first()
    } else {
        s
    };
    if body.len() > 0 && all_digits(body) {
        Some(digits_value(body))
    } else {
        None
    }
}

/// The number that `s` writes: an optional sign, then at least one digit.
pub open spec fn signed_value(s: Seq<char>) -> Option<int> {
    if s.len() > 0 && s[0] == '-' {
        let body = s.drop_first();
        if body.len() > 0 && all_digits(body) {
            Some(-(digits_value(body) as int))
        } else {
            None
        }
    } else {
        match unsigned_value(s) {
            Some(n) => Some(n as int),
            None => None,
        }
    }
}

/// The value of a non-empty row of digits, if there is one and it fits.
fn parse_digits(v: &Vec<char>, from: usize) -> (r: Option<u64>)
    requires
        from <= v.len(),
    ensures
        match r {
            Some(n) => {
                let body = v@.skip(from as int);
                body.len() > 0 && all_digits(body) && n == digits_value(body)
            },
            None => {
                let body = v@.skip(from as int);
                body.len() == 0 || !all_digits(body) || digits_value(body) > u64::MAX
            },
        },
{
    let ghost body = v@.skip(from as int);
    if from == v.len() {
        return None;
    }
    let mut i: usize = from;
    let mut acc: u64 = 0;
    let mut fits: bool = true;
    while i < v.len()
        invariant
            from <= i <= v.len(),
            body == v@.skip(from as int),
            all_digits(body.take(i - from)),
            fits ==> acc == digits_value(body.take(i - from)),
            !fits ==> digits_value(body.take(i - from)) > u64::MAX,
        decreases v.len() - i,
    {
        let c = v[i];
        assert(body[i - from] == c);
        if !('0' <= c && c <= '9') {
            assert(!is_digit(body[i - from]));
            return None;
        }
        let d: u64 = (c as u32 - 48) as u64;
        let ghost t = body.take(i + 1 - from);
        proof {
            assert(t.drop_last() =~= body.take(i - from));
            assert(t.last() == c);
            assert(all_digits(t)) by {
                assert forall|j: int| 0 <= j < t.len() implies is_digit(#[trigger] t[j]) by {
                    if j < i - from {
                        assert(body.take(i - from)[j] == t[j]);
                    }
                }
            }
        }
        if fits {
            if acc > (u64::MAX - d) / 10 {
                fits = false;
            } else {
                acc = acc * 10 + d;
            }
        }
        i += 1;
    }
    assert(body.take(i - from) =~= body);
    if fits {
        Some(acc)
    } else {
        None
    }
}

/// Reads an unsigned 64-bit number.
pub fn parse_u64(s: &str) -> (r: Option<u64>)
    ensures
        r == (match unsigned_value(s@) {
            Some(n) => if n <= u64::MAX {
                Some(n as u64)
            } else {
                None
            },
            None => None,
        }),
{
    let v = chars_of(s);
    if v.len() > 0 && v[0] == '+' {
        assert(v@.skip(1) =~= s@.drop_first());
        parse_digits(&v, 1)
    } else {
        assert(v@.skip(0) =~= s@);
        parse_digits(&v, 0)
    }
}

/// What `str::parse::<u64>` says of a text that is no unsigned 64-bit number.
pub uninterp spec fn u64_error(s: Seq<char>) -> Seq<char>;

/// `str::parse::<u64>`, of a text that is no such number: the text of the error, which depends on
/// the parsed text alone.
#[verifier::external_body]
pub(crate) fn why_no_u64(s: &str) -> (r: String)
    requires
        match unsigned_value(s@) {
            Some(n) => n > u64::MAX,
            None => true,
        },
    ensures
        r@ == u64_error(s@),
{
    match s.parse::<u64>() {
        Ok(_) => String::new(),
        Err(e) => e.to_string(),
    }
}

/// What `str::parse::<u32>` says of a text that is no unsigned 32-bit number.
pub uninterp spec fn u32_error(s: Seq<char>) -> Seq<char>;

/// `str::parse::<u32>`, of a text that is no such number: the text of the error, which depends on
/// the parsed text alone.
#[verifier::external_body]
pub(crate) fn why_no_u32(s: &str) -> (r: String)
    requires
        match unsigned_value(s@) {
            Some(n) => n > u32::MAX,
            None => true,
        },
    ensures
        r@ == u32_error(s@),
{
    match s.parse::<u32>() {
        Ok(_) => String::new(),
        Err(e) => e.to_string(),
    }
}

/// Reads an unsigned 32-bit number.
pub fn parse_u32(s: &str) -> (r: Option<u32>)
    ensures
        r == (match unsigned_value(s@) {
            Some(n) => if n <= u32::MAX {
                Some(n as u32)
            } else {
                None
            },
            None => None,
        }),
{
    match parse_u64(s) {
        Some(n) => if n <= u32::MAX as u64 {
            Some(n as u32)
        } else {
            None
        },
        None => None,
    }
}

/// Reads a signed 64-bit number.
pub fn parse_i64(s: &str) -> (r: Option<i64>)
    ensures
        r == (match signed_value(s@) {
            Some(n) => if i64::MIN <= n <= i64::MAX {
                Some(n as i64)
            } else {
                None
            },
            None => None,
        }),
{
    let v = chars_of(s);
    if v.len() > 0 && v[0] == '-' {
        assert(v@.skip(1) =~= s@.drop_first());
        match parse_digits(&v, 1) {
            Some(n) => if n <= 9223372036854775807 {
                Some(-(n as i64))
            } else if n == 9223372036854775808 {
                Some(i64::MIN)
            } else {
                None
            },
            None => None,
        }
    } else {
        match parse_u64(s) {
            Some(n) => if n <= 9223372036854775807 {
                Some(n as i64)
            } else {
                None
            },
            None => None,
        }
    }
}

/// The words of `s` that are complete, and the word under way at its end.
pub open spec fn words_so_far(s: Seq<char>) -> (Seq<Seq<char>>, Seq<char>)
    decreases s.len(),
{
    if s.len() == 0 {
        (Seq::empty(), Seq::empty())
    } else {
        let (done, cur) = words_so_far(s.drop_last());
        if !is_white(s.last()) {
            (done, cur.push(s.last()))
        } else if cur.len() > 0 {
            (done.push(cur), Seq::empty())
        } else {
            (done, cur)
        }
    }
}

/// The words of `s`: its longest stretches without white space.
pub open spec fn words(s: Seq<char>) -> Seq<Seq<char>> {
    let (done, cur) = words_so_far(s);
    if cur.len() > 0 {
        done.push(cur)
    } else {
        done
    }
}

/// Splits a text at white space.
pub fn split_words(s: &str) -> (r: Vec<String>)
    ensures
        r.deep_view() == words(s@),
{
    let v = chars_of(s);
    let mut done: Vec<String> = Vec::new();
    let mut cur = String::new();
    let mut i: usize = 0;
    assert(done.deep_view() =~= words_so_far(v@.take(0)).0);
    while i < v.len()
        invariant
            i <= v.len(),
            v@ == s@,
            (done.deep_view(), cur@) == words_so_far(v@.take(i as int)),
        decreases v.len() - i,
    {
        let c = v[i];
        let ghost before = done.deep_view();
        let ghost cur0 = cur@;
        assert(v@.take(i + 1).drop_last() =~= v@.take(i as int));
        if !white(c) {
            cur.push(c);
        } else if !cur.as_str().is_empty() {
            done.push(cur);
            cur = String::new();
            assert(done.deep_view() =~= before.push(cur0));
        }
        i += 1;
    }
    assert(v@.take(i as int) =~= s@);
    if !cur.as_str().is_empty() {
        let ghost before = done.deep_view();
        let ghost cur0 = cur@;
        done.push(cur);
        assert(done.deep_view() =~= before.push(cur0));
    }
    done
}

/// `pat` occurs in `s` at index `i`.
pub open spec fn occurs_at<T>(s: Seq<T>, pat: Seq<T>, i: int) -> bool {
    0 <= i && i + pat.len() <= s.len() && s.subrange(i, i + pat.len()) == pat
}

/// `i` is the first place where `pat` occurs in `s`.
pub open spec fn first_at<T>(s: Seq<T>, pat: Seq<T>, i: int) -> bool {
    occurs_at(s, pat, i) && forall|j: int| 0 <= j < i ==> !#[trigger] occurs_at(s, pat, j)
}

/// The first place where `pat` occurs in `s`.
pub open spec fn first_place<T>(s: Seq<T>, pat: Seq<T>) -> Option<int> {
    if exists|i: int| #[trigger] first_at(s, pat, i) {
        Some(choose|i: int| #[trigger] first_at(s, pat, i))
    } else {
        None
    }
}

/// The first place is unique, and there is one wherever the pattern occurs.
pub proof fn lemma_first_place<T>(s: Seq<T>, pat: Seq<T>)
    ensures
        forall|i: int| #[trigger] first_at(s, pat, i) ==> first_place(s, pat) == Some(i),
        (forall|i: int| !#[trigger] occurs_at(s, pat, i)) ==> first_place(s, pat) is None,
{
    assert forall|i: int| #[trigger] first_at(s, pat, i) implies first_place(s, pat) == Some(i) by {
        let k = choose|k: int| #[trigger] first_at(s, pat, k);
        assert(occurs_at(s, pat, k) && occurs_at(s, pat, i));
    }
}

/// Finds the first place where `pat` occurs in `v`.
pub fn find_chars(v: &Vec<char>, pat: &Vec<char>) -> (r: Option<usize>)
    ensures
        match r {
            Some(i) => first_place(v@, pat@) == Some(i as int) && occurs_at(v@, pat@, i as int),
            None => first_place(v@, pat@) is None,
        },
{
    proof {
        lemma_first_place(v@, pat@);
    }
    if pat.len() > v.len() {
        return None;
    }
    let last: usize = v.len() - pat.len();
    let mut i: usize = 0;
    loop
        invariant
            i <= last,
            last + pat.len() == v.len(),
            forall|j: int| 0 <= j < i ==> !#[trigger] occurs_at(v@, pat@, j),
            forall|k: int| #[trigger] first_at(v@, pat@, k) ==> first_place(v@, pat@) == Some(k),
            (forall|k: int| !#[trigger] occurs_at(v@, pat@, k)) ==> first_place(v@, pat@) is None,
        decreases last - i,
    {
        let mut k: usize = 0;
        while k < pat.len() && v[i + k] == pat[k]
            invariant
                i <= last,
                last + pat.len() == v.len(),
                k <= pat.len(),
                forall|j: int| 0 <= j < k ==> v@[i + j] == pat@[j],
            decreases pat.len() - k,
        {
            k += 1;
        }
        if k == pat.len() {
            assert(v@.subrange(i as int, i + pat.len()) =~= pat@);
            assert(first_at(v@, pat@, i as int));
            return Some(i);
        }
        assert(!occurs_at(v@, pat@, i as int)) by {
            assert(v@.subrange(i as int, i + pat.len())[k as int] == v@[i + k]);
        }
        if i == last {
            return None;
        }
        i += 1;
    }
}

/// The texts around the first `sep`.
pub open spec fn around_first(s: Seq<char>, sep: char) -> Option<(Seq<char>, Seq<char>)> {
    match first_place(s, seq![sep]) {
        Some(i) => Some((s.take(i), s.skip(i + 1))),
        None => None,
    }
}

/// Splits a text at the first `sep`.
pub fn split_once(s: &str, sep: char) -> (r: Option<(String, String)>)
    ensures
        match r {
            Some(p) => around_first(s@, sep) == Some((p.0@, p.1@)),
            None => around_first(s@, sep) is None,
        },
{
    let v = chars_of(s);
    let mut pat: Vec<char> = Vec::new();
    pat.push(sep);
    assert(pat@ =~= seq![sep]);
    match find_chars(&v, &pat) {
        Some(i) => {
            assert(v@.subrange(0, i as int) =~= s@.take(i as int));
            assert(v@.subrange(i + 1, v.len() as int) =~= s@.skip(i + 1));
            Some((text_of(&v, 0, i), text_of(&v, i + 1, v.len())))
        },
        None => None,
    }
}

} // verus!

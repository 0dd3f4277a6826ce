//! Sets and maps kept as sorted vectors.

use vstd::prelude::*;
use crate::text::{text_is_before};

verus! {

/// A key with a strict total order on its mathematical value.
pub trait Key: DeepView + Sized {
    /// `a` sorts strictly before `b`.
    spec fn before(a: Self::V, b: Self::V) -> bool;

    proof fn before_irreflexive(a: Self::V)
        ensures
            !Self::before(a, a),
    ;

    proof fn before_transitive(a: Self::V, b: Self::V, c: Self::V)
        requires
            Self::before(a, b),
            Self::before(b, c),
        ensures
            Self::before(a, c),
    ;

    proof fn before_total(a: Self::V, b: Self::V)
        ensures
            a == b || Self::before(a, b) || Self::before(b, a),
    ;

    fn is_before(&self, other: &Self) -> (r: bool)
        ensures
            r == Self::before(self.deep_view(), other.deep_view()),
    ;

    fn duplicate(&self) -> (r: Self)
        ensures
            r.deep_view() == self.deep_view(),
    ;
}

/// Strictly increasing: sorted, and nothing occurs twice.
pub open spec fn increasing<K: Key>(s: Seq<K::V>) -> bool {
    forall|i: int, j: int| 0 <= i < j < s.len() ==> K::before(#[trigger] s[i], #[trigger] s[j])
}

impl Key for String {
    open spec fn before(a: Seq<char>, b: Seq<char>) -> bool {
        crate::text::text_before(a, b)
    }

    proof fn before_irreflexive(a: Seq<char>) {
        crate::text::lemma_lex_irreflexive(crate::text::byte_ranks(a));
    }

    proof fn before_transitive(a: Seq<char>, b: Seq<char>, c: Seq<char>) {
        crate::text::lemma_lex_transitive(
            crate::text::byte_ranks(a),
            crate::text::byte_ranks(b),
            crate::text::byte_ranks(c),
        );
    }

    proof fn before_total(a: Seq<char>, b: Seq<char>) {
        crate::text::lemma_text_before_total(a, b);
    }

    fn is_before(&self, other: &Self) -> (r: bool) {
        text_is_before(self.as_str(), other.as_str())
    }

    fn duplicate(&self) -> (r: Self) {
        self.clone()
    }
}

/// Lexicographic order: the first place where two sequences differ decides, and a proper prefix
/// comes first.
pub open spec fn list_before<K: Key>(a: Seq<K::V>, b: Seq<K::V>) -> bool
    decreases a.len(),
{
    if b.len() == 0 {
        false
    } else if a.len() == 0 {
        true
    } else if a[0] == b[0] {
        list_before::<K>(a.drop_first(), b.drop_first())
    } else {
        K::before(a[0], b[0])
    }
}

proof fn lemma_list_irreflexive<K: Key>(a: Seq<K::V>)
    ensures
        !list_before::<K>(a, a),
    decreases a.len(),
{
    if a.len() > 0 {
        lemma_list_irreflexive::<K>(a.drop_first());
    }
}

proof fn lemma_list_transitive<K: Key>(a: Seq<K::V>, b: Seq<K::V>, c: Seq<K::V>)
    requires
        list_before::<K>(a, b),
        list_before::<K>(b, c),
    ensures
        list_before::<K>(a, c),
    decreases a.len(),
{
    if a.len() > 0 {
        if a[0] == b[0] && b[0] == c[0] {
            lemma_list_transitive::<K>(a.drop_first(), b.drop_first(), c.drop_first());
        } else if a[0] != b[0] && b[0] != c[0] {
            K::before_transitive(a[0], b[0], c[0]);
            K::before_irreflexive(a[0]);
        }
    }
}

proof fn lemma_list_total<K: Key>(a: Seq<K::V>, b: Seq<K::V>)
    ensures
        a == b || list_before::<K>(a, b) || list_before::<K>(b, a),
    decreases a.len(),
{
    if a.len() == 0 || b.len() == 0 {
        if a.len() == b.len() {
            assert(a =~= b);
        }
    } else if a[0] == b[0] {
        lemma_list_total::<K>(a.drop_first(), b.drop_first());
        if a.drop_first() == b.drop_first() {
            assert(a =~= seq![a[0]] + a.drop_first());
            assert(b =~= seq![b[0]] + b.drop_first());
        }
    } else {
        K::before_total(a[0], b[0]);
    }
}

impl<K: Key> Key for Vec<K> {
    open spec fn before(a: Seq<K::V>, b: Seq<K::V>) -> bool {
        list_before::<K>(a, b)
    }

    proof fn before_irreflexive(a: Seq<K::V>) {
        lemma_list_irreflexive::<K>(a);
    }

    proof fn before_transitive(a: Seq<K::V>, b: Seq<K::V>, c: Seq<K::V>) {
        lemma_list_transitive::<K>(a, b, c);
    }

    proof fn before_total(a: Seq<K::V>, b: Seq<K::V>) {
        lemma_list_total::<K>(a, b);
    }

    fn is_before(&self, other: &Self) -> (r: bool) {
        let ghost a = self.deep_view();
        let ghost b = other.deep_view();
        let mut i: usize = 0;
        assert(a.skip(0) =~= a && b.skip(0) =~= b);
        while i < self.len() && i < other.len()
            invariant
                i <= self.len(),
                i <= other.len(),
                a == self.deep_view(),
                b == other.deep_view(),
                list_before::<K>(a, b) == list_before::<K>(a.skip(i as int), b.skip(i as int)),
            decreases self.len() - i,
        {
            proof {
                assert(a[i as int] == self@[i as int].deep_view());
                assert(b[i as int] == other@[i as int].deep_view());
                assert(a.skip(i as int)[0] == a[i as int]);
                assert(b.skip(i as int)[0] == b[i as int]);
                assert(a.skip(i as int).drop_first() =~= a.skip(i + 1));
                assert(b.skip(i as int).drop_first() =~= b.skip(i + 1));
                K::before_irreflexive(a[i as int]);
                K::before_total(a[i as int], b[i as int]);
            }
            if self[i].is_before(&other[i]) {
                return true;
            }
            if other[i].is_before(&self[i]) {
                proof {
                    if K::before(a[i as int], b[i as int]) {
                        K::before_transitive(a[i as int], b[i as int], a[i as int]);
                    }
                }
                return false;
            }
            i += 1;
        }
        i < other.len()
    }

    fn duplicate(&self) -> (r: Self) {
        let mut out: Vec<K> = Vec::new();
        let mut i: usize = 0;
        while i < self.len()
            invariant
                i <= self.len(),
                out.len() == i,
                forall|j: int| 0 <= j < i ==> (#[trigger] out@[j]).deep_view() == self@[j].deep_view(),
            decreases self.len() - i,
        {
            out.push(self[i].duplicate());
            i += 1;
        }
        assert(out.deep_view() =~= self.deep_view());
        out
    }
}

/// The elements of a filtered sequence.
pub proof fn lemma_filter_members<A>(s: Seq<A>, p: spec_fn(A) -> bool)
    ensures
        forall|x: A| #[trigger] s.filter(p).contains(x) <==> s.contains(x) && p(x),
    decreases s.len(),
{
    if s.len() == 0 {
        assert(s.filter(p) =~= s) by {
            reveal(Seq::filter);
        }
    } else {
        let t = s.drop_last();
        let y = s.last();
        lemma_filter_members(t, p);
        assert(s =~= t.push(y));
        t.lemma_filter_push(y, p);
        let f = s.filter(p);
        let g = t.filter(p);
        assert forall|x: A| #[trigger] f.contains(x) <==> s.contains(x) && p(x) by {
            if f.contains(x) {
                let i = choose|i: int| 0 <= i < f.len() && f[i] == x;
                if i < g.len() {
                    assert(g[i] == x);
                    assert(g.contains(x));
                    let k = choose|k: int| 0 <= k < t.len() && t[k] == x;
                    assert(s[k] == x);
                } else {
                    assert(s[s.len() - 1] == x);
                }
            }
            if s.contains(x) && p(x) {
                let k = choose|k: int| 0 <= k < s.len() && s[k] == x;
                if k < t.len() {
                    assert(t[k] == x);
                    assert(g.contains(x));
                    let i = choose|i: int| 0 <= i < g.len() && g[i] == x;
                    assert(f[i] == x);
                } else {
                    assert(f[f.len() - 1] == x);
                }
            }
        }
    }
}

/// A set of keys, held in increasing order.
#[derive(Debug, PartialEq, Eq)]
pub struct OrdSet<K: Key> {
    items: Vec<K>,
}

impl<K: Key> OrdSet<K> {
    #[verifier::type_invariant]
    spec fn wf(self) -> bool {
        increasing::<K>(self.items.deep_view())
    }

    /// The elements in increasing order.
    pub closed spec fn elems(self) -> Seq<K::V> {
        self.items.deep_view()
    }
}

impl<K: Key> View for OrdSet<K> {
    type V = Set<K::V>;

    open spec fn view(&self) -> Set<K::V> {
        self.elems().to_set()
    }
}

impl<K: Key> DeepView for OrdSet<K> {
    type V = Set<K::V>;

    open spec fn deep_view(&self) -> Set<K::V> {
        self@
    }
}

/// An increasing sequence holds as many elements as its set.
pub proof fn lemma_increasing_len<K: Key>(s: Seq<K::V>)
    requires
        increasing::<K>(s),
    ensures
        s.no_duplicates(),
        s.to_set().finite(),
        s.to_set().len() == s.len(),
{
    assert forall|i: int, j: int| 0 <= i < s.len() && 0 <= j < s.len() && i != j implies s[i] != s[j] by {
        if i < j {
            assert(K::before(s[i], s[j]));
        } else {
            assert(K::before(s[j], s[i]));
        }
        K::before_irreflexive(s[i]);
    }
    s.unique_seq_to_set();
}

/// Two increasing sequences with the same elements are equal.
pub proof fn lemma_increasing_unique<K: Key>(a: Seq<K::V>, b: Seq<K::V>)
    requires
        increasing::<K>(a),
        increasing::<K>(b),
        a.to_set() == b.to_set(),
    ensures
        a == b,
    decreases a.len(),
{
    lemma_increasing_len::<K>(a);
    lemma_increasing_len::<K>(b);
    if a.len() > 0 {
        let x = a.last();
        let y = b.last();
        assert(b.to_set().contains(x)) by {
            assert(a.to_set().contains(x));
        }
        assert(a.to_set().contains(y)) by {
            assert(b.to_set().contains(y));
        }
        let i = choose|i: int| 0 <= i < b.len() && b[i] == x;
        let j = choose|j: int| 0 <= j < a.len() && a[j] == y;
        if i < b.len() - 1 && j < a.len() - 1 {
            K::before_transitive(x, y, x);
            K::before_irreflexive(x);
        }
        if i < b.len() - 1 {
            assert(j == a.len() - 1);
            K::before_irreflexive(x);
        }
        if j < a.len() - 1 {
            K::before_irreflexive(x);
        }
        assert(x == y);
        let a1 = a.drop_last();
        let b1 = b.drop_last();
        assert(a1.to_set() =~= a.to_set().remove(x)) by {
            assert forall|v: K::V| a1.to_set().contains(v) <==> a.to_set().remove(x).contains(v) by {
                if a1.contains(v) {
                    let k = choose|k: int| 0 <= k < a1.len() && a1[k] == v;
                    assert(a[k] == v);
                }
                if a.contains(v) && v != x {
                    let k = choose|k: int| 0 <= k < a.len() && a[k] == v;
                    assert(a1[k] == v);
                }
            }
        }
        assert(b1.to_set() =~= b.to_set().remove(x)) by {
            assert forall|v: K::V| b1.to_set().contains(v) <==> b.to_set().remove(x).contains(v) by {
                if b1.contains(v) {
                    let k = choose|k: int| 0 <= k < b1.len() && b1[k] == v;
                    assert(b[k] == v);
                }
                if b.contains(v) && v != x {
                    let k = choose|k: int| 0 <= k < b.len() && b[k] == v;
                    assert(b1[k] == v);
                }
            }
        }
        lemma_increasing_unique::<K>(a1, b1);
        assert(a =~= a1.push(x));
        assert(b =~= b1.push(x));
    } else {
        assert(a =~= b);
    }
}

/// The elements of a finite set in increasing order.
pub open spec fn in_order<K: Key>(s: Set<K::V>) -> Seq<K::V> {
    choose|o: Seq<K::V>| increasing::<K>(o) && #[trigger] o.to_set() == s
}

/// An increasing sequence is its set in order.
pub proof fn lemma_in_order<K: Key>(o: Seq<K::V>)
    requires
        increasing::<K>(o),
    ensures
        in_order::<K>(o.to_set()) == o,
{
    let c = in_order::<K>(o.to_set());
    assert(increasing::<K>(c) && c.to_set() == o.to_set());
    lemma_increasing_unique::<K>(c, o);
}

/// Every finite set can be put in order.
pub proof fn lemma_in_order_of<K: Key>(s: Set<K::V>)
    requires
        s.finite(),
    ensures
        increasing::<K>(in_order::<K>(s)),
        in_order::<K>(s).to_set() == s,
        in_order::<K>(s).len() == s.len(),
{
    let o = lemma_orderable::<K>(s);
    assert(increasing::<K>(o) && o.to_set() == s);
    lemma_increasing_len::<K>(in_order::<K>(s));
}

/// An increasing sequence of the elements of a finite set.
proof fn lemma_orderable<K: Key>(s: Set<K::V>) -> (o: Seq<K::V>)
    requires
        s.finite(),
    ensures
        increasing::<K>(o),
        o.to_set() == s,
    decreases s.len(),
{
    if s.len() == 0 {
        let o = Seq::<K::V>::empty();
        assert(o.to_set() =~= s);
        o
    } else {
        let x = s.choose();
        let before = lemma_orderable::<K>(s.remove(x));
        let o = lemma_place::<K>(before, x);
        assert(o.to_set() =~= s) by {
            assert forall|y: K::V| o.to_set().contains(y) == s.contains(y) by {
                assert(before.to_set().contains(y) == s.remove(x).contains(y));
            }
        }
        o
    }
}

/// An increasing sequence with one element more.
proof fn lemma_place<K: Key>(s: Seq<K::V>, x: K::V) -> (o: Seq<K::V>)
    requires
        increasing::<K>(s),
        !s.contains(x),
    ensures
        increasing::<K>(o),
        forall|y: K::V| #[trigger] o.contains(y) <==> s.contains(y) || y == x,
    decreases s.len(),
{
    if s.len() == 0 {
        let o = seq![x];
        assert(o[0] == x);
        o
    } else {
        let last = s.last();
        let b = s.drop_last();
        K::before_total(last, x);
        assert(s[s.len() - 1] == last);
        if K::before(last, x) {
            let o = s.push(x);
            assert forall|i: int, j: int| 0 <= i < j < o.len() implies K::before(#[trigger] o[i], #[trigger] o[j]) by {
                if j == s.len() && i < s.len() - 1 {
                    assert(K::before(s[i], s[s.len() - 1]));
                    K::before_transitive(s[i], last, x);
                }
            }
            assert forall|y: K::V| #[trigger] o.contains(y) <==> s.contains(y) || y == x by {
                if s.contains(y) {
                    let i = choose|i: int| 0 <= i < s.len() && s[i] == y;
                    assert(o[i] == y);
                }
                assert(o[s.len() as int] == x);
            }
            o
        } else {
            assert(!b.contains(x)) by {
                if b.contains(x) {
                    let i = choose|i: int| 0 <= i < b.len() && b[i] == x;
                    assert(s[i] == x);
                }
            }
            let p = lemma_place::<K>(b, x);
            let o = p.push(last);
            assert forall|i: int, j: int| 0 <= i < j < o.len() implies K::before(#[trigger] o[i], #[trigger] o[j]) by {
                if j == p.len() {
                    assert(p.contains(p[i]));
                    if p[i] != x {
                        let k = choose|k: int| 0 <= k < b.len() && b[k] == p[i];
                        assert(K::before(s[k], s[s.len() - 1]));
                    }
                }
            }
            assert forall|y: K::V| #[trigger] o.contains(y) <==> s.contains(y) || y == x by {
                if o.contains(y) {
                    let i = choose|i: int| 0 <= i < o.len() && o[i] == y;
                    if i < p.len() {
                        assert(p[i] == y);
                        assert(p.contains(y));
                        if y != x {
                            let k = choose|k: int| 0 <= k < b.len() && b[k] == y;
                            assert(s[k] == y);
                        }
                    }
                }
                if s.contains(y) || y == x {
                    if y == last {
                        assert(o[p.len() as int] == y);
                    } else {
                        if y != x {
                            let k = choose|k: int| 0 <= k < s.len() && s[k] == y;
                            assert(b[k] == y);
                        }
                        assert(p.contains(y));
                        let i = choose|i: int| 0 <= i < p.len() && p[i] == y;
                        assert(o[i] == y);
                    }
                }
            }
            o
        }
    }
}

impl<K: Key> OrdSet<K> {
    /// The empty set.
    pub fn new() -> (r: Self)
        ensures
            r@ == Set::<K::V>::empty(),
            r.elems() == Seq::<K::V>::empty(),
    {
        let items: Vec<K> = Vec::new();
        assert(items.deep_view() =~= Seq::<K::V>::empty());
        let r = OrdSet { items };
        assert(r@ =~= Set::<K::V>::empty());
        r
    }

    /// The elements, in increasing order.
    pub fn items(&self) -> (r: &Vec<K>)
        ensures
            r.deep_view() == self.elems(),
            increasing::<K>(self.elems()),
    {
        proof {
            use_type_invariant(self);
        }
        &self.items
    }

    /// How many elements the set holds.
    pub fn len(&self) -> (r: usize)
        ensures
            r == self@.len(),
            r == self.elems().len(),
            self@.finite(),
    {
        proof {
            use_type_invariant(self);
            lemma_increasing_len::<K>(self.items.deep_view());
        }
        self.items.len()
    }

    /// Whether the set holds nothing.
    pub fn is_empty(&self) -> (r: bool)
        ensures
            r == (self@ == Set::<K::V>::empty()),
            r == (self.elems().len() == 0),
    {
        if self.items.len() == 0 {
            assert(self@ =~= Set::<K::V>::empty());
            true
        } else {
            assert(self.elems().contains(self.elems()[0]));
            assert(self@.contains(self.elems()[0]));
            false
        }
    }

    /// Index of the first element that does not sort before `key`.
    fn position(&self, key: &K) -> (r: usize)
        ensures
            r <= self.elems().len(),
            forall|j: int| 0 <= j < r ==> K::before(#[trigger] self.elems()[j], key.deep_view()),
            forall|j: int| r <= j < self.elems().len() ==> !K::before(#[trigger] self.elems()[j], key.deep_view()),
    {
        proof {
            use_type_invariant(self);
        }
        let ghost e = self.elems();
        let mut lo: usize = 0;
        let mut hi: usize = self.items.len();
        while lo < hi
            invariant
                lo <= hi <= self.items.len(),
                e == self.items.deep_view(),
                e.len() == self.items.len(),
                increasing::<K>(e),
                forall|j: int| 0 <= j < lo ==> K::before(#[trigger] e[j], key.deep_view()),
                forall|j: int| hi <= j < e.len() ==> !K::before(#[trigger] e[j], key.deep_view()),
            decreases hi - lo,
        {
            let mid: usize = lo + (hi - lo) / 2;
            let b = self.items[mid].is_before(key);
            assert(e[mid as int] == self.items@[mid as int].deep_view());
            if b {
                proof {
                    assert forall|j: int| 0 <= j < mid + 1 implies K::before(#[trigger] e[j], key.deep_view()) by {
                        if j < mid {
                            K::before_transitive(e[j], e[mid as int], key.deep_view());
                        }
                    }
                }
                lo = mid + 1;
            } else {
                proof {
                    assert forall|j: int| mid <= j < e.len() implies !K::before(#[trigger] e[j], key.deep_view()) by {
                        if j > mid && K::before(e[j], key.deep_view()) {
                            K::before_transitive(e[mid as int], e[j], key.deep_view());
                        }
                    }
                }
                hi = mid;
            }
        }
        lo
    }

    /// Whether `key` is in the set.
    pub fn contains(&self, key: &K) -> (r: bool)
        ensures
            r == self@.contains(key.deep_view()),
    {
        proof {
            use_type_invariant(self);
        }
        let i = self.position(key);
        let ghost e = self.elems();
        let ghost k = key.deep_view();
        if i < self.items.len() && !key.is_before(&self.items[i]) {
            proof {
                K::before_total(e[i as int], k);
                assert(e[i as int] == self.items@[i as int].deep_view());
                assert(e.contains(e[i as int]));
            }
            true
        } else {
            proof {
                if e.contains(k) {
                    let j = choose|j: int| 0 <= j < e.len() && e[j] == k;
                    K::before_irreflexive(k);
                    assert(j >= i);
                    assert(e[i as int] == self.items@[i as int].deep_view());
                    if j > i {
                        assert(K::before(e[i as int], e[j]));
                    }
                }
            }
            false
        }
    }

    /// Adds `key`; says whether it was new.
    pub fn insert(&mut self, key: K) -> (r: bool)
        ensures
            final(self)@ == old(self)@.insert(key.deep_view()),
            r == !old(self)@.contains(key.deep_view()),
    {
        proof {
            use_type_invariant(&*self);
        }
        let i = self.position(&key);
        let present = self.contains(&key);
        let ghost e = self.elems();
        let ghost k = key.deep_view();
        if present {
            assert(self@ =~= self@.insert(k));
            return false;
        }
        let mut items: Vec<K> = Vec::new();
        std::mem::swap(&mut items, &mut self.items);
        items.insert(i, key);
        proof {
            let n = items.deep_view();
            assert(n =~= e.insert(i as int, k));
            assert forall|p: int, q: int| 0 <= p < q < n.len() implies K::before(#[trigger] n[p], #[trigger] n[q]) by {
                if p == i {
                    K::before_total(k, e[q - 1]);
                    assert(e.contains(e[q - 1]));
                } else if p < i && q > i {
                    assert(n[q] == e[q - 1]);
                }
            }
            assert(n.to_set() =~= e.to_set().insert(k)) by {
                assert forall|v: K::V| n.to_set().contains(v) <==> e.to_set().insert(k).contains(v) by {
                    if n.contains(v) {
                        let j = choose|j: int| 0 <= j < n.len() && n[j] == v;
                        if j < i {
                            assert(e[j] == v);
                        } else if j > i {
                            assert(e[j - 1] == v);
                        }
                    }
                    if e.contains(v) {
                        let j = choose|j: int| 0 <= j < e.len() && e[j] == v;
                        if j < i {
                            assert(n[j] == v);
                        } else {
                            assert(n[j + 1] == v);
                        }
                    }
                    assert(n[i as int] == k);
                }
            }
        }
        self.items = items;
        true
    }

    /// A copy of the set.
    pub fn duplicate(&self) -> (r: Self)
        ensures
            r@ == self@,
            r.elems() == self.elems(),
    {
        proof {
            use_type_invariant(self);
        }
        let mut items: Vec<K> = Vec::new();
        let mut i: usize = 0;
        while i < self.items.len()
            invariant
                i <= self.items.len(),
                items.len() == i,
                forall|j: int| 0 <= j < i ==> (#[trigger] items@[j]).deep_view() == self.items@[j].deep_view(),
            decreases self.items.len() - i,
        {
            items.push(self.items[i].duplicate());
            i += 1;
        }
        assert(items.deep_view() =~= self.items.deep_view());
        OrdSet { items }
    }

    /// The set of the keys in `v`.
    pub fn from_vec(v: Vec<K>) -> (r: Self)
        ensures
            r@ == v.deep_view().to_set(),
    {
        let mut r = OrdSet::new();
        let mut i: usize = 0;
        let ghost d = v.deep_view();
        assert(d.take(0).to_set() =~= Set::<K::V>::empty());
        while i < v.len()
            invariant
                i <= v.len(),
                d == v.deep_view(),
                r@ == d.take(i as int).to_set(),
            decreases v.len() - i,
        {
            r.insert(v[i].duplicate());
            proof {
                assert(d.take(i + 1) =~= d.take(i as int).push(d[i as int]));
                d.take(i as int).lemma_push_to_set_commute(d[i as int]);
            }
            i += 1;
        }
        assert(d.take(i as int) =~= d);
        r
    }

    /// Adds every element of `other`.
    pub fn extend(&mut self, other: &Self)
        ensures
            final(self)@ == old(self)@.union(other@),
    {
        let v = other.items();
        let ghost d = other.elems();
        let mut i: usize = 0;
        assert(self@ =~= old(self)@.union(d.take(0).to_set()));
        while i < v.len()
            invariant
                i <= v.len(),
                d == v.deep_view(),
                self@ == old(self)@.union(d.take(i as int).to_set()),
            decreases v.len() - i,
        {
            self.insert(v[i].duplicate());
            proof {
                assert(d.take(i + 1) =~= d.take(i as int).push(d[i as int]));
                d.take(i as int).lemma_push_to_set_commute(d[i as int]);
                assert(self@ =~= old(self)@.union(d.take(i + 1).to_set()));
            }
            i += 1;
        }
        assert(d.take(i as int) =~= d);
    }
}

/// In an increasing sequence, as many elements satisfy `p` as in its set.
pub proof fn lemma_filter_count<K: Key>(s: Seq<K::V>, p: spec_fn(K::V) -> bool)
    requires
        increasing::<K>(s),
    ensures
        s.filter(p).len() == s.to_set().filter(p).len(),
        s.to_set().filter(p).finite(),
    decreases s.len(),
{
    lemma_increasing_len::<K>(s);
    if s.len() == 0 {
        assert(s.filter(p) =~= s) by {
            reveal(Seq::filter);
        }
        assert(s.to_set().filter(p) =~= Set::empty());
    } else {
        let t = s.drop_last();
        let x = s.last();
        lemma_filter_count::<K>(t, p);
        lemma_increasing_len::<K>(t);
        assert(s =~= t.push(x));
        t.lemma_filter_push(x, p);
        t.lemma_push_to_set_commute(x);
        assert(!t.to_set().contains(x)) by {
            if t.contains(x) {
                let i = choose|i: int| 0 <= i < t.len() && t[i] == x;
                assert(s[i] == s[s.len() - 1]);
            }
        }
        if p(x) {
            assert(s.to_set().filter(p) =~= t.to_set().filter(p).insert(x));
        } else {
            assert(s.to_set().filter(p) =~= t.to_set().filter(p));
        }
    }
}

impl<K: Key> OrdSet<K> {
    /// How many elements satisfy `test`, which decides `p`.
    pub(crate) fn count_where<F: Fn(&K) -> bool>(&self, test: F, Ghost(p): Ghost<spec_fn(K::V) -> bool>) -> (r: usize)
        requires
            forall|k: &K| #[trigger] test.requires((k,)),
            forall|k: &K, b: bool| #[trigger] test.ensures((k,), b) ==> b == p(k.deep_view()),
        ensures
            r == self@.filter(p).len(),
    {
        let v = self.items();
        let ghost e = self.elems();
        let mut n: usize = 0;
        let mut i: usize = 0;
        assert(e.take(0).filter(p).len() == 0) by {
            reveal(Seq::filter);
        }
        while i < v.len()
            invariant
                i <= v.len(),
                n <= i,
                e == v.deep_view(),
                forall|k: &K| #[trigger] test.requires((k,)),
                forall|k: &K, b: bool| #[trigger] test.ensures((k,), b) ==> b == p(k.deep_view()),
                n == e.take(i as int).filter(p).len(),
            decreases v.len() - i,
        {
            let hit = test(&v[i]);
            proof {
                assert(e[i as int] == v@[i as int].deep_view());
                assert(e.take(i + 1) =~= e.take(i as int).push(e[i as int]));
                e.take(i as int).lemma_filter_push(e[i as int], p);
            }
            if hit {
                n += 1;
            }
            i += 1;
        }
        proof {
            assert(e.take(i as int) =~= e);
            lemma_filter_count::<K>(e, p);
        }
        n
    }

    /// Keeps only the elements that satisfy `test`, which decides `p`.
    pub(crate) fn retain<F: Fn(&K) -> bool>(&mut self, test: F, Ghost(p): Ghost<spec_fn(K::V) -> bool>)
        requires
            forall|k: &K| #[trigger] test.requires((k,)),
            forall|k: &K, b: bool| #[trigger] test.ensures((k,), b) ==> b == p(k.deep_view()),
        ensures
            final(self)@ == old(self)@.filter(p),
    {
        let mut out: OrdSet<K> = OrdSet::new();
        {
            let v = self.items();
            let ghost e = self.elems();
            let mut i: usize = 0;
            assert(out@ =~= e.take(0).to_set().filter(p));
            while i < v.len()
                invariant
                    i <= v.len(),
                    e == v.deep_view(),
                    forall|k: &K| #[trigger] test.requires((k,)),
                    forall|k: &K, b: bool| #[trigger] test.ensures((k,), b) ==> b == p(k.deep_view()),
                    out@ == e.take(i as int).to_set().filter(p),
                decreases v.len() - i,
            {
                let hit = test(&v[i]);
                proof {
                    assert(e[i as int] == v@[i as int].deep_view());
                    assert(e.take(i + 1) =~= e.take(i as int).push(e[i as int]));
                    e.take(i as int).lemma_push_to_set_commute(e[i as int]);
                }
                let ghost o = out@;
                if hit {
                    out.insert(v[i].duplicate());
                    assert(out@ =~= e.take(i + 1).to_set().filter(p));
                } else {
                    assert(out@ =~= e.take(i + 1).to_set().filter(p));
                }
                i += 1;
            }
            assert(e.take(i as int) =~= e);
        }
        *self = out;
    }

    /// The set of what `pick`, which computes `g`, makes of the elements.
    pub(crate) fn select<T: Key, F: Fn(&K) -> Option<T>>(
        &self,
        pick: F,
        Ghost(g): Ghost<spec_fn(K::V) -> Option<T::V>>,
    ) -> (r: OrdSet<T>)
        requires
            forall|k: &K| #[trigger] pick.requires((k,)),
            forall|k: &K, o: Option<T>| #[trigger] pick.ensures((k,), o) ==> o.deep_view() == g(k.deep_view()),
        ensures
            forall|t: T::V| #[trigger]
                r@.contains(t) <==> exists|k: K::V| #[trigger] self@.contains(k) && g(k) == Some(t),
    {
        let mut out: OrdSet<T> = OrdSet::new();
        let v = self.items();
        let ghost e = self.elems();
        let mut i: usize = 0;
        while i < v.len()
            invariant
                i <= v.len(),
                e == v.deep_view(),
                forall|k: &K| #[trigger] pick.requires((k,)),
                forall|k: &K, o: Option<T>| #[trigger] pick.ensures((k,), o) ==> o.deep_view() == g(k.deep_view()),
                forall|t: T::V| #[trigger]
                    out@.contains(t) <==> exists|j: int| 0 <= j < i && g(#[trigger] e[j]) == Some(t),
            decreases v.len() - i,
        {
            let ghost o0 = out@;
            let o = pick(&v[i]);
            assert(e[i as int] == v@[i as int].deep_view());
            let ghost od = o.deep_view();
            match o {
                Some(t) => {
                    out.insert(t);
                },
                None => {},
            }
            proof {
                assert forall|t: T::V| #[trigger] out@.contains(t) <==> exists|j: int|
                    0 <= j < i + 1 && g(#[trigger] e[j]) == Some(t) by {
                    if out@.contains(t) {
                        if o0.contains(t) {
                            let j = choose|j: int| 0 <= j < i && g(#[trigger] e[j]) == Some(t);
                            assert(g(e[j]) == Some(t));
                        } else {
                            assert(g(e[i as int]) == Some(t));
                        }
                    }
                    if exists|j: int| 0 <= j < i + 1 && g(#[trigger] e[j]) == Some(t) {
                        let j = choose|j: int| 0 <= j < i + 1 && g(#[trigger] e[j]) == Some(t);
                        if j < i {
                            assert(o0.contains(t));
                        }
                    }
                }
            }
            i += 1;
        }
        proof {
            assert forall|t: T::V| #[trigger] out@.contains(t) <==> exists|k: K::V| #[trigger]
                self@.contains(k) && g(k) == Some(t) by {
                if out@.contains(t) {
                    let j = choose|j: int| 0 <= j < i && g(#[trigger] e[j]) == Some(t);
                    assert(e.contains(e[j]));
                    assert(self@.contains(e[j]));
                }
                if exists|k: K::V| #[trigger] self@.contains(k) && g(k) == Some(t) {
                    let k = choose|k: K::V| #[trigger] self@.contains(k) && g(k) == Some(t);
                    let j = choose|j: int| 0 <= j < e.len() && e[j] == k;
                    assert(g(e[j]) == Some(t));
                }
            }
        }
        out
    }
}

/// A key in the opposite order.
#[derive(Debug, PartialEq, Eq)]
pub struct Descending<K: Key>(pub K);

impl<K: Key> DeepView for Descending<K> {
    type V = K::V;

    open spec fn deep_view(&self) -> K::V {
        self.0.deep_view()
    }
}

impl<K: Key> Key for Descending<K> {
    open spec fn before(a: K::V, b: K::V) -> bool {
        K::before(b, a)
    }

    proof fn before_irreflexive(a: K::V) {
        K::before_irreflexive(a);
    }

    proof fn before_transitive(a: K::V, b: K::V, c: K::V) {
        K::before_transitive(c, b, a);
    }

    proof fn before_total(a: K::V, b: K::V) {
        K::before_total(a, b);
    }

    fn is_before(&self, other: &Self) -> (r: bool) {
        other.0.is_before(&self.0)
    }

    fn duplicate(&self) -> (r: Self) {
        Descending(self.0.duplicate())
    }
}

impl Key for u64 {
    open spec fn before(a: u64, b: u64) -> bool {
        a < b
    }

    proof fn before_irreflexive(a: u64) {
    }

    proof fn before_transitive(a: u64, b: u64, c: u64) {
    }

    proof fn before_total(a: u64, b: u64) {
    }

    fn is_before(&self, other: &Self) -> (r: bool) {
        *self < *other
    }

    fn duplicate(&self) -> (r: Self) {
        *self
    }
}

impl Key for i64 {
    open spec fn before(a: i64, b: i64) -> bool {
        a < b
    }

    proof fn before_irreflexive(a: i64) {
    }

    proof fn before_transitive(a: i64, b: i64, c: i64) {
    }

    proof fn before_total(a: i64, b: i64) {
    }

    fn is_before(&self, other: &Self) -> (r: bool) {
        *self < *other
    }

    fn duplicate(&self) -> (r: Self) {
        *self
    }
}

/// Pairs sort by their first part, then by their second.
impl<A: Key, B: Key> Key for (A, B) {
    open spec fn before(a: (A::V, B::V), b: (A::V, B::V)) -> bool {
        A::before(a.0, b.0) || (a.0 == b.0 && B::before(a.1, b.1))
    }

    proof fn before_irreflexive(a: (A::V, B::V)) {
        A::before_irreflexive(a.0);
        B::before_irreflexive(a.1);
    }

    proof fn before_transitive(a: (A::V, B::V), b: (A::V, B::V), c: (A::V, B::V)) {
        if A::before(a.0, b.0) && A::before(b.0, c.0) {
            A::before_transitive(a.0, b.0, c.0);
        } else if a.0 == b.0 && b.0 == c.0 {
            B::before_transitive(a.1, b.1, c.1);
        }
    }

    proof fn before_total(a: (A::V, B::V), b: (A::V, B::V)) {
        A::before_total(a.0, b.0);
        B::before_total(a.1, b.1);
    }

    fn is_before(&self, other: &Self) -> (r: bool) {
        proof {
            A::before_total(self.0.deep_view(), other.0.deep_view());
            A::before_irreflexive(self.0.deep_view());
            if A::before(self.0.deep_view(), other.0.deep_view()) && A::before(
                other.0.deep_view(),
                self.0.deep_view(),
            ) {
                A::before_transitive(self.0.deep_view(), other.0.deep_view(), self.0.deep_view());
            }
        }
        if self.0.is_before(&other.0) {
            true
        } else if other.0.is_before(&self.0) {
            false
        } else {
            self.1.is_before(&other.1)
        }
    }

    fn duplicate(&self) -> (r: Self) {
        (self.0.duplicate(), self.1.duplicate())
    }
}

/// The keys of a sequence of pairs.
pub open spec fn pair_keys<A, B>(pairs: Seq<(A, B)>) -> Seq<A> {
    pairs.map_values(|p: (A, B)| p.0)
}

/// `pairs` holds the key `k` at index `i`.
pub open spec fn holds_key_at<A, B>(pairs: Seq<(A, B)>, k: A, i: int) -> bool {
    0 <= i < pairs.len() && pairs[i].0 == k
}

/// The values that stand beside a key, in order.
pub open spec fn values_of<A, B>(pairs: Seq<(A, B)>, key: A) -> Seq<B>
    decreases pairs.len(),
{
    if pairs.len() == 0 {
        Seq::empty()
    } else if pairs.last().0 == key {
        values_of(pairs.drop_last(), key).push(pairs.last().1)
    } else {
        values_of(pairs.drop_last(), key)
    }
}

/// The values of a key are those that it is paired with.
pub proof fn lemma_values_of<A, B>(pairs: Seq<(A, B)>, key: A, b: B)
    ensures
        values_of(pairs, key).contains(b) <==> pairs.contains((key, b)),
    decreases pairs.len(),
{
    let v = values_of(pairs, key);
    if pairs.len() > 0 {
        let p = pairs.drop_last();
        lemma_values_of(p, key, b);
        let w = values_of(p, key);
        assert(pairs[pairs.len() - 1] == pairs.last());
        if v.contains(b) {
            let i = choose|i: int| 0 <= i < v.len() && v[i] == b;
            if i < w.len() {
                assert(w[i] == b);
                let k = choose|k: int| 0 <= k < p.len() && p[k] == (key, b);
                assert(pairs[k] == (key, b));
            }
        }
        if pairs.contains((key, b)) {
            let k = choose|k: int| 0 <= k < pairs.len() && pairs[k] == (key, b);
            if k < p.len() {
                assert(p[k] == (key, b));
                let i = choose|i: int| 0 <= i < w.len() && w[i] == b;
                assert(v[i] == b);
            } else {
                assert(v[w.len() as int] == b);
            }
        }
    }
}

/// The map that a sequence of pairs with distinct keys stands for.
pub open spec fn pairs_map<A, B>(pairs: Seq<(A, B)>) -> Map<A, B> {
    Map::new(
        |k: A| exists|i: int| #[trigger] holds_key_at(pairs, k, i),
        |k: A| pairs[choose|i: int| #[trigger] holds_key_at(pairs, k, i)].1,
    )
}

/// A sequence of pairs has finitely many keys.
pub proof fn lemma_pairs_map_finite<A, B>(pairs: Seq<(A, B)>)
    ensures
        pairs_map(pairs).dom().finite(),
{
    let keys = pair_keys(pairs);
    vstd::seq_lib::seq_to_set_is_finite(keys);
    assert(pairs_map(pairs).dom().subset_of(keys.to_set())) by {
        assert forall|k: A| pairs_map(pairs).dom().contains(k) implies keys.to_set().contains(k) by {
            let i = choose|i: int| #[trigger] holds_key_at(pairs, k, i);
            assert(keys[i] == k);
        }
    }
    vstd::set_lib::lemma_len_subset(pairs_map(pairs).dom(), keys.to_set());
}

/// Every pair of a sequence with increasing keys is in its map.
pub proof fn lemma_pairs_map<K: Key, B>(pairs: Seq<(K::V, B)>)
    requires
        increasing::<K>(pair_keys(pairs)),
    ensures
        forall|i: int| 0 <= i < pairs.len() ==> {
            &&& pairs_map(pairs).contains_key((#[trigger] pairs[i]).0)
            &&& pairs_map(pairs)[pairs[i].0] == pairs[i].1
        },
        pairs_map(pairs).dom() == pair_keys(pairs).to_set(),
{
    let keys = pair_keys(pairs);
    lemma_increasing_len::<K>(keys);
    assert forall|i: int| 0 <= i < pairs.len() implies {
        &&& pairs_map(pairs).contains_key((#[trigger] pairs[i]).0)
        &&& pairs_map(pairs)[pairs[i].0] == pairs[i].1
    } by {
        let k = pairs[i].0;
        assert(holds_key_at(pairs, k, i));
        let j = choose|j: int| #[trigger] holds_key_at(pairs, k, j);
        assert(keys[i] == k && keys[j] == k);
    }
    assert forall|k: K::V| pairs_map(pairs).dom().contains(k) <==> keys.to_set().contains(k) by {
        if pairs_map(pairs).dom().contains(k) {
            let j = choose|j: int| #[trigger] holds_key_at(pairs, k, j);
            assert(keys[j] == k);
        }
        if keys.contains(k) {
            let j = choose|j: int| 0 <= j < keys.len() && keys[j] == k;
            assert(holds_key_at(pairs, k, j));
        }
    }
    assert(pairs_map(pairs).dom() =~= keys.to_set());
}

/// The entries of a map with finitely many keys, in increasing order of the keys.
pub open spec fn listed_pairs<K: Key, B>(m: Map<K::V, B>) -> Seq<(K::V, B)> {
    in_order::<K>(m.dom()).map_values(|k: K::V| (k, m[k]))
}

/// Pairs with increasing keys are the entries of their map in order.
pub proof fn lemma_listed_pairs<K: Key, B>(pairs: Seq<(K::V, B)>)
    requires
        increasing::<K>(pair_keys(pairs)),
    ensures
        listed_pairs::<K, B>(pairs_map(pairs)) == pairs,
{
    lemma_pairs_map::<K, B>(pairs);
    lemma_in_order::<K>(pair_keys(pairs));
    assert(listed_pairs::<K, B>(pairs_map(pairs)) =~= pairs) by {
        assert forall|i: int| 0 <= i < pairs.len() implies listed_pairs::<K, B>(pairs_map(pairs))[i] == #[trigger] pairs[i] by {
            assert(pair_keys(pairs)[i] == pairs[i].0);
        }
    }
}

/// A map from keys to values, held in increasing order of the keys.
#[derive(Debug, PartialEq, Eq)]
pub struct OrdMap<K: Key, V: DeepView> {
    entries: Vec<(K, V)>,
}

impl<K: Key, V: DeepView> OrdMap<K, V> {
    #[verifier::type_invariant]
    spec fn wf(self) -> bool {
        increasing::<K>(pair_keys(self.entries.deep_view()))
    }

    /// The entries in increasing order of their keys.
    pub closed spec fn pairs(self) -> Seq<(K::V, V::V)> {
        self.entries.deep_view()
    }

    /// The keys in increasing order.
    pub open spec fn keys(self) -> Seq<K::V> {
        pair_keys(self.pairs())
    }
}

impl<K: Key, V: DeepView> View for OrdMap<K, V> {
    type V = Map<K::V, V::V>;

    open spec fn view(&self) -> Map<K::V, V::V> {
        pairs_map(self.pairs())
    }
}

impl<K: Key, V: DeepView> DeepView for OrdMap<K, V> {
    type V = Map<K::V, V::V>;

    open spec fn deep_view(&self) -> Map<K::V, V::V> {
        self@
    }
}

/// Every value of a map belongs to a value that is held.
pub proof fn lemma_value_of_pair<K: Key, V: DeepView>(m: OrdMap<K, V>, i: int) -> (v: V)
    requires
        0 <= i < m.pairs().len(),
    ensures
        v.deep_view() == m.pairs()[i].1,
{
    assert(m.pairs()[i] == m.entries@[i].deep_view());
    m.entries@[i].1
}

impl<K: Key, V: DeepView> OrdMap<K, V> {
    /// The empty map.
    pub fn new() -> (r: Self)
        ensures
            r@ == Map::<K::V, V::V>::empty(),
            r.pairs() == Seq::<(K::V, V::V)>::empty(),
    {
        let entries: Vec<(K, V)> = Vec::new();
        assert(entries.deep_view() =~= Seq::<(K::V, V::V)>::empty());
        let r = OrdMap { entries };
        assert(r@ =~= Map::<K::V, V::V>::empty());
        r
    }

    /// The entries, in increasing order of their keys.
    pub fn entries(&self) -> (r: &Vec<(K, V)>)
        ensures
            r.deep_view() == self.pairs(),
            r.len() == self.pairs().len(),
            increasing::<K>(self.keys()),
            self@.dom() == self.keys().to_set(),
            forall|i: int| 0 <= i < r.len() ==> {
                &&& (#[trigger] r@[i]).0.deep_view() == self.pairs()[i].0
                &&& r@[i].1.deep_view() == self.pairs()[i].1
                &&& self@.contains_key(r@[i].0.deep_view())
                &&& self@[r@[i].0.deep_view()] == r@[i].1.deep_view()
            },
    {
        proof {
            use_type_invariant(self);
            lemma_pairs_map::<K, V::V>(self.entries.deep_view());
            let p = self.pairs();
            assert forall|i: int| 0 <= i < self.entries.len() implies {
                &&& (#[trigger] self.entries@[i]).0.deep_view() == p[i].0
                &&& self.entries@[i].1.deep_view() == p[i].1
                &&& self@.contains_key(self.entries@[i].0.deep_view())
                &&& self@[self.entries@[i].0.deep_view()] == self.entries@[i].1.deep_view()
            } by {
                assert(p[i] == self.entries@[i].deep_view());
            }
        }
        &self.entries
    }

    /// How many entries the map holds.
    pub fn len(&self) -> (r: usize)
        ensures
            r == self@.dom().len(),
            r == self.pairs().len(),
            self@.dom().finite(),
    {
        proof {
            use_type_invariant(self);
            lemma_pairs_map::<K, V::V>(self.entries.deep_view());
            lemma_increasing_len::<K>(self.keys());
        }
        self.entries.len()
    }

    /// Whether the map holds nothing.
    pub fn is_empty(&self) -> (r: bool)
        ensures
            r == (self@ == Map::<K::V, V::V>::empty()),
            r == (self.pairs().len() == 0),
    {
        if self.entries.len() == 0 {
            assert(self@ =~= Map::<K::V, V::V>::empty());
            true
        } else {
            assert(holds_key_at(self.pairs(), self.pairs()[0].0, 0));
            assert(self@.contains_key(self.pairs()[0].0));
            false
        }
    }

    /// Index of the first entry whose key does not sort before `key`.
    fn position(&self, key: &K) -> (r: usize)
        ensures
            r <= self.pairs().len(),
            forall|j: int| 0 <= j < r ==> K::before((#[trigger] self.pairs()[j]).0, key.deep_view()),
            forall|j: int|
                r <= j < self.pairs().len() ==> !K::before((#[trigger] self.pairs()[j]).0, key.deep_view()),
    {
        proof {
            use_type_invariant(self);
        }
        let ghost e = self.pairs();
        let ghost ks = pair_keys(e);
        let mut lo: usize = 0;
        let mut hi: usize = self.entries.len();
        while lo < hi
            invariant
                lo <= hi <= self.entries.len(),
                e == self.entries.deep_view(),
                e.len() == self.entries.len(),
                ks == pair_keys(e),
                increasing::<K>(ks),
                forall|j: int| 0 <= j < lo ==> K::before((#[trigger] e[j]).0, key.deep_view()),
                forall|j: int| hi <= j < e.len() ==> !K::before((#[trigger] e[j]).0, key.deep_view()),
            decreases hi - lo,
        {
            let mid: usize = lo + (hi - lo) / 2;
            let b = self.entries[mid].0.is_before(key);
            assert(e[mid as int] == self.entries@[mid as int].deep_view());
            assert(ks[mid as int] == e[mid as int].0);
            if b {
                proof {
                    assert forall|j: int| 0 <= j < mid + 1 implies K::before((#[trigger] e[j]).0, key.deep_view()) by {
                        if j < mid {
                            assert(ks[j] == e[j].0);
                            K::before_transitive(e[j].0, e[mid as int].0, key.deep_view());
                        }
                    }
                }
                lo = mid + 1;
            } else {
                proof {
                    assert forall|j: int| mid <= j < e.len() implies !K::before((#[trigger] e[j]).0, key.deep_view()) by {
                        if j > mid && K::before(e[j].0, key.deep_view()) {
                            assert(ks[j] == e[j].0);
                            K::before_transitive(e[mid as int].0, e[j].0, key.deep_view());
                        }
                    }
                }
                hi = mid;
            }
        }
        lo
    }

    /// Index of `key`, if the map holds it.
    fn find(&self, key: &K) -> (r: Option<usize>)
        ensures
            match r {
                Some(i) => {
                    &&& i < self.pairs().len()
                    &&& self.pairs()[i as int].0 == key.deep_view()
                    &&& self@.contains_key(key.deep_view())
                    &&& self@[key.deep_view()] == self.pairs()[i as int].1
                },
                None => !self@.contains_key(key.deep_view()),
            },
    {
        proof {
            use_type_invariant(self);
            lemma_pairs_map::<K, V::V>(self.entries.deep_view());
        }
        let i = self.position(key);
        let ghost e = self.pairs();
        let ghost ks = pair_keys(e);
        let ghost k = key.deep_view();
        if i < self.entries.len() && !key.is_before(&self.entries[i].0) {
            proof {
                assert(e[i as int] == self.entries@[i as int].deep_view());
                K::before_total(e[i as int].0, k);
            }
            Some(i)
        } else {
            proof {
                if self@.contains_key(k) {
                    let j = choose|j: int| #[trigger] holds_key_at(e, k, j);
                    K::before_irreflexive(k);
                    assert(e[j].0 == k);
                    assert(j >= i);
                    assert(e[i as int] == self.entries@[i as int].deep_view());
                    if j > i {
                        assert(K::before(ks[i as int], ks[j]));
                    }
                }
            }
            None
        }
    }

    /// The value of `key`.
    pub fn get(&self, key: &K) -> (r: Option<&V>)
        ensures
            match r {
                Some(v) => self@.contains_key(key.deep_view()) && self@[key.deep_view()] == v.deep_view(),
                None => !self@.contains_key(key.deep_view()),
            },
    {
        match self.find(key) {
            Some(i) => {
                assert(self.pairs()[i as int] == self.entries@[i as int].deep_view());
                Some(&self.entries[i].1)
            },
            None => None,
        }
    }

    /// Whether the map holds `key`.
    pub fn contains_key(&self, key: &K) -> (r: bool)
        ensures
            r == self@.contains_key(key.deep_view()),
    {
        self.find(key).is_some()
    }

    /// Takes the entry of `key` out of the map.
    pub fn remove(&mut self, key: &K) -> (r: Option<V>)
        ensures
            final(self)@ == old(self)@.remove(key.deep_view()),
            match r {
                Some(v) => old(self)@.contains_key(key.deep_view()) && old(self)@[key.deep_view()]
                    == v.deep_view(),
                None => !old(self)@.contains_key(key.deep_view()),
            },
    {
        proof {
            use_type_invariant(&*self);
        }
        let ghost e = self.pairs();
        let ghost k = key.deep_view();
        match self.find(key) {
            Some(i) => {
                let mut entries: Vec<(K, V)> = Vec::new();
                std::mem::swap(&mut entries, &mut self.entries);
                let (_, v) = entries.remove(i);
                proof {
                    let n = entries.deep_view();
                    assert(n =~= e.remove(i as int));
                    assert(pair_keys(n) =~= pair_keys(e).remove(i as int));
                    assert(increasing::<K>(pair_keys(n)));
                    lemma_pairs_map::<K, V::V>(e);
                    lemma_pairs_map::<K, V::V>(n);
                    lemma_increasing_len::<K>(pair_keys(e));
                    assert(pairs_map(n) =~= pairs_map(e).remove(k)) by {
                        assert forall|q: K::V| pairs_map(n).contains_key(q) implies pairs_map(e).remove(k).contains_key(q) && pairs_map(
                            n,
                        )[q] == pairs_map(e)[q] by {
                            let j = choose|j: int| #[trigger] holds_key_at(n, q, j);
                            let j0 = if j < i { j } else { j + 1 };
                            assert(e[j0] == n[j]);
                            assert(pair_keys(e)[j0] == q);
                            assert(pair_keys(e)[i as int] == k);
                        }
                        assert forall|q: K::V| pairs_map(e).remove(k).contains_key(q) implies pairs_map(n).contains_key(q) by {
                            let j = choose|j: int| #[trigger] holds_key_at(e, q, j);
                            let j1 = if j < i { j } else { j - 1 };
                            assert(n[j1] == e[j]);
                            assert(holds_key_at(n, q, j1));
                        }
                    }
                    assert(e[i as int].1 == v.deep_view());
                }
                self.entries = entries;
                Some(v)
            },
            None => {
                assert(self@ =~= self@.remove(k));
                None
            },
        }
    }

    /// Sets the value of `key`.
    pub fn insert(&mut self, key: K, value: V)
        ensures
            final(self)@ == old(self)@.insert(key.deep_view(), value.deep_view()),
    {
        let ghost m0 = self@;
        let ghost k = key.deep_view();
        let ghost v = value.deep_view();
        let _ = self.remove(&key);
        proof {
            use_type_invariant(&*self);
        }
        let i = self.position(&key);
        let ghost e = self.pairs();
        let mut entries: Vec<(K, V)> = Vec::new();
        std::mem::swap(&mut entries, &mut self.entries);
        entries.insert(i, (key, value));
        proof {
            let n = entries.deep_view();
            assert(n =~= e.insert(i as int, (k, v)));
            let ks = pair_keys(n);
            assert forall|p: int, q: int| 0 <= p < q < ks.len() implies K::before(#[trigger] ks[p], #[trigger] ks[q]) by {
                if p == i {
                    assert(ks[q] == e[q - 1].0);
                    K::before_total(k, e[q - 1].0);
                    assert(holds_key_at(e, e[q - 1].0, q - 1));
                    assert(!pairs_map(e).contains_key(k));
                } else if q == i {
                    assert(ks[p] == e[p].0);
                } else {
                    let p0 = if p < i { p } else { p - 1 };
                    let q0 = if q < i { q } else { q - 1 };
                    assert(pair_keys(e)[p0] == ks[p]);
                    assert(pair_keys(e)[q0] == ks[q]);
                }
            }
            lemma_pairs_map::<K, V::V>(e);
            lemma_pairs_map::<K, V::V>(n);
            lemma_increasing_len::<K>(ks);
            assert(pairs_map(n) =~= m0.insert(k, v)) by {
                assert(n[i as int] == (k, v));
                assert(holds_key_at(n, k, i as int));
                assert(m0.remove(k) == pairs_map(e));
                assert forall|q: K::V| q != k && pairs_map(n).contains_key(q) implies m0.contains_key(q) && m0[q]
                    == pairs_map(n)[q] by {
                    let j = choose|j: int| #[trigger] holds_key_at(n, q, j);
                    let j0 = if j < i { j } else { j - 1 };
                    assert(e[j0] == n[j]);
                    assert(pairs_map(e).contains_key(q));
                    assert(m0.remove(k).contains_key(q));
                }
                assert forall|q: K::V| q != k && m0.contains_key(q) implies pairs_map(n).contains_key(q) by {
                    assert(m0.remove(k).contains_key(q));
                    let j = choose|j: int| #[trigger] holds_key_at(e, q, j);
                    let j1 = if j < i { j } else { j + 1 };
                    assert(n[j1] == e[j]);
                    assert(holds_key_at(n, q, j1));
                }
            }
        }
        self.entries = entries;
    }
}

impl<K: Key, V: DeepView> OrdMap<K, V> {
    /// Keeps only the entries whose key satisfies `test`, which decides `p`.
    pub(crate) fn retain_keys<F: Fn(&K) -> bool>(self, test: F, Ghost(p): Ghost<spec_fn(K::V) -> bool>) -> (r: Self)
        requires
            forall|k: &K| #[trigger] test.requires((k,)),
            forall|k: &K, b: bool| #[trigger] test.ensures((k,), b) ==> b == p(k.deep_view()),
        ensures
            r@ == self@.restrict(Set::new(p)),
    {
        proof {
            use_type_invariant(&self);
        }
        let ghost e = self.pairs();
        let ghost ks = self.keys();
        proof {
            lemma_pairs_map::<K, V::V>(e);
            lemma_increasing_len::<K>(ks);
        }
        let mut rest: Vec<(K, V)> = self.entries;
        let mut out: OrdMap<K, V> = OrdMap::new();
        proof {
            assert(e.skip(e.len() as int) =~= Seq::<(K::V, V::V)>::empty());
            assert(rest.deep_view() =~= e);
        }
        while rest.len() > 0
            invariant
                rest.deep_view() == e.take(rest.len() as int),
                rest.len() <= e.len(),
                ks == pair_keys(e),
                ks.no_duplicates(),
                forall|k: &K| #[trigger] test.requires((k,)),
                forall|k: &K, b: bool| #[trigger] test.ensures((k,), b) ==> b == p(k.deep_view()),
                forall|j: int| rest.len() <= j < e.len() ==> {
                    &&& out@.contains_key((#[trigger] e[j]).0) == p(e[j].0)
                    &&& p(e[j].0) ==> out@[e[j].0] == e[j].1
                },
                forall|q: K::V| #[trigger] out@.contains_key(q) ==> exists|j: int|
                    rest.len() <= j < e.len() && holds_key_at(e, q, j),
            decreases rest.len(),
        {
            let ghost n = rest.len() as int;
            let ghost d = rest.deep_view();
            let ghost o0 = out@;
            assert(d[n - 1] == rest@[n - 1].deep_view());
            assert(d[n - 1] == e[n - 1]);
            match rest.pop() {
                Some((k, v)) => {
                    assert(rest.deep_view() =~= e.take(n - 1));
                    assert(!o0.contains_key(e[n - 1].0)) by {
                        if o0.contains_key(e[n - 1].0) {
                            let q = e[n - 1].0;
                            let j = choose|j: int| n <= j < e.len() && #[trigger] holds_key_at(e, q, j);
                            assert(ks[j] == ks[n - 1]);
                        }
                    }
                    if test(&k) {
                        out.insert(k, v);
                    }
                    proof {
                        assert forall|j: int| n - 1 <= j < e.len() implies {
                            &&& out@.contains_key((#[trigger] e[j]).0) == p(e[j].0)
                            &&& p(e[j].0) ==> out@[e[j].0] == e[j].1
                        } by {
                            if j >= n {
                                assert(ks[j] != ks[n - 1]);
                                assert(ks[j] == e[j].0 && ks[n - 1] == e[n - 1].0);
                            }
                        }
                        assert forall|q: K::V| #[trigger] out@.contains_key(q) implies exists|j: int|
                            n - 1 <= j < e.len() && holds_key_at(e, q, j) by {
                            if o0.contains_key(q) {
                                let j = choose|j: int| n <= j < e.len() && holds_key_at(e, q, j);
                                assert(holds_key_at(e, q, j));
                            } else {
                                assert(holds_key_at(e, q, n - 1));
                            }
                        }
                    }
                },
                None => {},
            }
        }
        proof {
            let m = pairs_map(e);
            assert forall|q: K::V| out@.contains_key(q) <==> m.restrict(Set::new(p)).contains_key(q) by {
                if out@.contains_key(q) {
                    let j = choose|j: int| 0 <= j < e.len() && holds_key_at(e, q, j);
                    assert(e[j].0 == q);
                }
                if m.contains_key(q) && p(q) {
                    let j = choose|j: int| #[trigger] holds_key_at(e, q, j);
                    assert(e[j].0 == q);
                }
            }
            assert forall|q: K::V| out@.contains_key(q) implies out@[q] == m[q] by {
                let j = choose|j: int| 0 <= j < e.len() && holds_key_at(e, q, j);
                assert(e[j].0 == q);
            }
            assert(out@ =~= m.restrict(Set::new(p)));
        }
        out
    }
}

} // verus!

//! Stable sorting by key.

use vstd::prelude::*;
use crate::ordered::Key;

verus! {

/// An ordered list with one pair more, behind those that do not sort after it.
pub open spec fn placed<K: Key, B>(s: Seq<(K::V, B)>, x: (K::V, B)) -> Seq<(K::V, B)>
    decreases s.len(),
{
    if s.len() == 0 {
        seq![x]
    } else if K::before(x.0, s.last().0) {
        placed::<K, B>(s.drop_last(), x).push(s.last())
    } else {
        s.push(x)
    }
}

/// The pairs in the order of their keys; pairs with equal keys stay in their order.
pub open spec fn sorted_pairs<K: Key, B>(s: Seq<(K::V, B)>) -> Seq<(K::V, B)>
    decreases s.len(),
{
    if s.len() == 0 {
        s
    } else {
        placed::<K, B>(sorted_pairs::<K, B>(s.drop_last()), s.last())
    }
}

/// Whether no pair sorts before one that stands in front of it.
pub open spec fn in_key_order<K: Key, B>(s: Seq<(K::V, B)>) -> bool {
    forall|i: int, j: int| 0 <= i < j < s.len() ==> !K::before((#[trigger] s[j]).0, (#[trigger] s[i]).0)
}

proof fn lemma_placed<K: Key, B>(s: Seq<(K::V, B)>, x: (K::V, B))
    requires
        in_key_order::<K, B>(s),
    ensures
        in_key_order::<K, B>(placed::<K, B>(s, x)),
        placed::<K, B>(s, x).len() == s.len() + 1,
        forall|k: K::V|
            crate::ordered::values_of(placed::<K, B>(s, x), k) == #[trigger] crate::ordered::values_of(s.push(x), k),
        forall|y: (K::V, B)| #[trigger] placed::<K, B>(s, x).contains(y) ==> s.contains(y) || y == x,
    decreases s.len(),
{
    let r = placed::<K, B>(s, x);
    if s.len() == 0 {
        assert(r =~= s.push(x));
    } else if K::before(x.0, s.last().0) {
        let b = s.drop_last();
        lemma_placed::<K, B>(b, x);
        let p = placed::<K, B>(b, x);
        assert(r =~= p.push(s.last()));
        assert(s[s.len() - 1] == s.last());
        assert forall|i: int, j: int| 0 <= i < j < r.len() implies !K::before((#[trigger] r[j]).0, (#[trigger] r[i]).0) by {
            if j == p.len() {
                assert(p.contains(p[i]));
                if p[i] == x {
                    if K::before(s.last().0, x.0) {
                        K::before_transitive(s.last().0, x.0, s.last().0);
                        K::before_irreflexive(s.last().0);
                    }
                } else {
                    let k = choose|k: int| 0 <= k < b.len() && b[k] == p[i];
                    assert(s[k] == p[i]);
                }
            }
        }
        assert forall|k: K::V|
            crate::ordered::values_of(r, k) == #[trigger] crate::ordered::values_of(s.push(x), k) by {
            assert(r.drop_last() =~= p);
            assert(s.push(x).drop_last() =~= s);
            assert(b.push(x).drop_last() =~= b);
            K::before_irreflexive(x.0);
            let in_b = crate::ordered::values_of(b, k);
            assert(crate::ordered::values_of(b.push(x), k) == (if x.0 == k {
                in_b.push(x.1)
            } else {
                in_b
            }));
            assert(crate::ordered::values_of(p, k) == crate::ordered::values_of(b.push(x), k));
            assert(crate::ordered::values_of(s, k) == (if s.last().0 == k {
                in_b.push(s.last().1)
            } else {
                in_b
            }));
            assert(s.push(x).last() == x && r.last() == s.last());
        }
        assert forall|y: (K::V, B)| #[trigger] r.contains(y) implies s.contains(y) || y == x by {
            let i = choose|i: int| 0 <= i < r.len() && r[i] == y;
            if i < p.len() {
                assert(p[i] == y);
                assert(p.contains(y));
                if y != x {
                    let k = choose|k: int| 0 <= k < b.len() && b[k] == y;
                    assert(s[k] == y);
                }
            }
        }
    } else {
        let last = s.last();
        assert(s[s.len() - 1] == last);
        assert forall|i: int, j: int| 0 <= i < j < r.len() implies !K::before((#[trigger] r[j]).0, (#[trigger] r[i]).0) by {
            if j == s.len() && i < s.len() - 1 {
                K::before_total(s[i].0, last.0);
                if K::before(x.0, s[i].0) {
                    assert(!K::before(s[s.len() - 1].0, s[i].0));
                    if s[i].0 != last.0 {
                        K::before_transitive(x.0, s[i].0, last.0);
                    }
                }
            }
        }
        assert forall|y: (K::V, B)| #[trigger] r.contains(y) implies s.contains(y) || y == x by {
            let i = choose|i: int| 0 <= i < r.len() && r[i] == y;
            if i < s.len() {
                assert(s[i] == y);
            }
        }
    }
}

/// Sorting puts the pairs in the order of their keys, keeps all of them, and keeps the order of
/// those with equal keys.
pub proof fn law_sorting_is_stable<K: Key, B>(s: Seq<(K::V, B)>)
    ensures
        in_key_order::<K, B>(sorted_pairs::<K, B>(s)),
        sorted_pairs::<K, B>(s).len() == s.len(),
        forall|k: K::V| crate::ordered::values_of(sorted_pairs::<K, B>(s), k) == #[trigger] crate::ordered::values_of(s, k),
        forall|y: (K::V, B)| #[trigger] sorted_pairs::<K, B>(s).contains(y) ==> s.contains(y),
    decreases s.len(),
{
    if s.len() > 0 {
        let b = s.drop_last();
        law_sorting_is_stable::<K, B>(b);
        let p = sorted_pairs::<K, B>(b);
        lemma_placed::<K, B>(p, s.last());
        assert forall|y: (K::V, B)| #[trigger] sorted_pairs::<K, B>(s).contains(y) implies s.contains(y) by {
            assert(s[s.len() - 1] == s.last());
            if p.contains(y) {
                let i = choose|i: int| 0 <= i < b.len() && b[i] == y;
                assert(s[i] == y);
            }
        }
        assert forall|k: K::V|
            crate::ordered::values_of(sorted_pairs::<K, B>(s), k) == #[trigger] crate::ordered::values_of(s, k) by {
            assert(p.push(s.last()).drop_last() =~= p);
            assert(crate::ordered::values_of(p.push(s.last()), k) == crate::ordered::values_of(sorted_pairs::<K, B>(s), k));
            assert(crate::ordered::values_of(p, k) == crate::ordered::values_of(b, k));
        }
    }
}

/// The part of an ordered list in front of a pair that is put into it.
proof fn lemma_place_at<K: Key, B>(s: Seq<(K::V, B)>, x: (K::V, B), n: int)
    requires
        0 <= n <= s.len(),
        n > 0 ==> !K::before(x.0, s[n - 1].0),
        forall|j: int| n <= j < s.len() ==> K::before(x.0, (#[trigger] s[j]).0),
    ensures
        placed::<K, B>(s, x) == s.insert(n, x),
    decreases s.len() - n,
{
    if n == s.len() {
        if n > 0 {
            assert(s.last() == s[n - 1]);
        }
        assert(placed::<K, B>(s, x) =~= s.insert(n, x));
    } else {
        assert(s[s.len() - 1] == s.last());
        lemma_place_at::<K, B>(s.drop_last(), x, n);
        assert(placed::<K, B>(s, x) =~= s.insert(n, x));
    }
}

/// Sorts pairs by their keys; pairs with equal keys stay in their order.
pub fn sort_pairs<K: Key, B: DeepView>(v: Vec<(K, B)>) -> (r: Vec<(K, B)>)
    ensures
        r.deep_view() == sorted_pairs::<K, B::V>(v.deep_view()),
{
    let ghost d = v.deep_view();
    let mut rest = v;
    let mut out: Vec<(K, B)> = Vec::new();
    let ghost n = d.len();
    // The pairs are taken from the front, one by one.
    rest = reversed(rest);
    let ghost rev = rest.deep_view();
    assert(d.take(0) =~= Seq::<(K::V, B::V)>::empty());
    assert(out.deep_view() =~= Seq::<(K::V, B::V)>::empty());
    while rest.len() > 0
        invariant
            rest.len() <= n,
            n == d.len(),
            rev.len() == n,
            forall|i: int| 0 <= i < n ==> #[trigger] rev[i] == d[n - 1 - i],
            rest.deep_view() == rev.take(rest.len() as int),
            out.deep_view() == sorted_pairs::<K, B::V>(d.take(n - rest.len())),
        decreases rest.len(),
    {
        let ghost k = n - rest.len();
        let ghost r0 = rest.deep_view();
        let x = match rest.pop() {
            Some(x) => x,
            None => {
                return out;
            },
        };
        proof {
            assert(x.deep_view() == r0.last());
            assert(r0.last() == rev[n - 1 - k]);
            assert(x.deep_view() == d[k]);
            assert(rest.deep_view() =~= r0.drop_last());
            assert(rest.deep_view() =~= rev.take(rest.len() as int));
            assert(d.take(k + 1).drop_last() =~= d.take(k));
        }
        let ghost s = out.deep_view();
        let ghost xv = x.deep_view();
        proof {
            law_sorting_is_stable::<K, B::V>(d.take(k));
        }
        let mut at: usize = out.len();
        while at > 0 && x.0.is_before(&out[at - 1].0)
            invariant
                at <= out.len(),
                s == out.deep_view(),
                xv == x.deep_view(),
                forall|j: int| at <= j < s.len() ==> K::before(xv.0, (#[trigger] s[j]).0),
            decreases at,
        {
            assert(s[at - 1] == out@[at - 1].deep_view());
            at -= 1;
        }
        proof {
            if at > 0 {
                assert(s[at - 1] == out@[at - 1].deep_view());
            }
            lemma_place_at::<K, B::V>(s, xv, at as int);
        }
        out.insert(at, x);
        assert(out.deep_view() =~= s.insert(at as int, xv));
    }
    assert(d.take(n as int) =~= d);
    out
}

/// A list from its end to its start.
pub(crate) fn reversed<T: DeepView>(v: Vec<T>) -> (r: Vec<T>)
    ensures
        r.deep_view().len() == v.deep_view().len(),
        forall|i: int|
            0 <= i < r.deep_view().len() ==> #[trigger] r.deep_view()[i] == v.deep_view()[v.deep_view().len() - 1 - i],
{
    let ghost d = v.deep_view();
    let mut v = v;
    let mut out: Vec<T> = Vec::new();
    while v.len() > 0
        invariant
            v.len() + out.len() == d.len(),
            v.deep_view() == d.take(v.len() as int),
            forall|i: int| 0 <= i < out.len() ==> #[trigger] out.deep_view()[i] == d[d.len() - 1 - i],
        decreases v.len(),
    {
        let ghost v0 = v.deep_view();
        let ghost o0 = out.deep_view();
        match v.pop() {
            Some(x) => {
                assert(x.deep_view() == v0.last());
                let ghost xv = x.deep_view();
                out.push(x);
                assert(out.deep_view() =~= o0.push(xv));
                assert(v.deep_view() =~= v0.drop_last());
                assert(v.deep_view() =~= d.take(v.len() as int));
            },
            None => {},
        }
    }
    out
}

/// The values of pairs in the order of their keys; those with equal keys stay in their order.
pub open spec fn sorted_values<K: Key, B>(s: Seq<(K::V, B)>) -> Seq<B> {
    sorted_pairs::<K, B>(s).map_values(|p: (K::V, B)| p.1)
}

/// Sorts pairs by their keys and keeps the values.
pub fn sort_values<K: Key, B: DeepView>(v: Vec<(K, B)>) -> (r: Vec<B>)
    ensures
        r.deep_view() == sorted_values::<K, B::V>(v.deep_view()),
{
    let ghost all = sorted_values::<K, B::V>(v.deep_view());
    let mut rest = sort_pairs(v);
    let ghost sorted = rest.deep_view();
    let mut back: Vec<B> = Vec::new();
    while rest.len() > 0
        invariant
            all == sorted.map_values(|p: (K::V, B::V)| p.1),
            rest.len() + back.len() == sorted.len(),
            rest.deep_view() == sorted.take(rest.len() as int),
            forall|i: int| 0 <= i < back.len() ==> #[trigger] back.deep_view()[i] == all[all.len() - 1 - i],
        decreases rest.len(),
    {
        let ghost r0 = rest.deep_view();
        let ghost b0 = back.deep_view();
        match rest.pop() {
            Some(p) => {
                assert(p.deep_view() == r0.last());
                let ghost value = p.1.deep_view();
                back.push(p.1);
                assert(back.deep_view() =~= b0.push(value));
                assert(rest.deep_view() =~= r0.drop_last());
                assert(rest.deep_view() =~= sorted.take(rest.len() as int));
            },
            None => {},
        }
    }
    let r = reversed(back);
    assert(r.deep_view() =~= all);
    r
}

} // verus!

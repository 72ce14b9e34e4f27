//! Stable sorting by a key.

use crate::order::{Ordered, Relation};
use vstd::prelude::*;

verus! {

/// No item has a key that stands before the key of an earlier item.
pub open spec fn sorted<K: Ordered, T>(s: Seq<(K, T)>) -> bool {
    forall|i: int, j: int|
        0 <= i < j < s.len() ==> !K::before((#[trigger] s[j]).0@, (#[trigger] s[i]).0@)
}

/// The items with a key, in their order.
pub open spec fn with_key<K: Ordered, T>(s: Seq<(K, T)>, key: K::V) -> Seq<(K, T)> {
    s.filter(|p: (K, T)| p.0@ == key)
}

/// A list in the order of the keys, with items of the same key left in the order
/// they had.
pub open spec fn is_stable_sort<K: Ordered, T>(s: Seq<(K, T)>, r: Seq<(K, T)>) -> bool {
    sorted(r) && forall|key: K::V| #[trigger] with_key(r, key) == with_key(s, key)
}

/// Where an item belongs: behind all items that its key does not precede.
fn place_of<K: Ordered, T>(v: &Vec<(K, T)>, key: &K) -> (r: usize)
    requires
        sorted(v@),
    ensures
        r <= v@.len(),
        forall|j: int| 0 <= j < r ==> !K::before(key@, (#[trigger] v@[j]).0@),
        forall|j: int| r <= j < v@.len() ==> K::before(key@, (#[trigger] v@[j]).0@),
{
    let mut lo: usize = 0;
    let mut hi: usize = v.len();
    while lo < hi
        invariant
            lo <= hi <= v@.len(),
            sorted(v@),
            forall|j: int| 0 <= j < lo ==> !K::before(key@, (#[trigger] v@[j]).0@),
            forall|j: int| hi <= j < v@.len() ==> K::before(key@, (#[trigger] v@[j]).0@),
        decreases hi - lo,
    {
        let mid: usize = lo + (hi - lo) / 2;
        let ghost m = v@[mid as int].0@;
        match key.relate(&v[mid].0) {
            Relation::Before => {
                assert forall|j: int| mid <= j < v@.len() implies K::before(
                    key@,
                    (#[trigger] v@[j]).0@,
                ) by {
                    if j > mid {
                        let x = v@[j].0@;
                        K::connected(m, x);
                        if K::before(m, x) {
                            K::transitive(key@, m, x);
                        }
                    }
                }
                hi = mid;
            },
            _ => {
                assert forall|j: int| 0 <= j < mid + 1 implies !K::before(
                    key@,
                    (#[trigger] v@[j]).0@,
                ) by {
                    let x = v@[j].0@;
                    if K::before(key@, x) {
                        K::irreflexive(key@);
                        if j < mid {
                            assert(!K::before(m, x));
                            if K::before(m, key@) {
                                K::transitive(m, key@, x);
                            }
                        } else if K::before(m, key@) {
                            K::transitive(key@, m, key@);
                        }
                    }
                }
                lo = mid + 1;
            },
        }
    }
    lo
}

/// Inserting an item behind all that it does not precede keeps the items of each
/// key in the order in which they came.
proof fn lemma_insert_stable<K: Ordered, T>(v: Seq<(K, T)>, item: (K, T), at: int)
    requires
        sorted(v),
        0 <= at <= v.len(),
        forall|j: int| 0 <= j < at ==> !K::before(item.0@, (#[trigger] v[j]).0@),
        forall|j: int| at <= j < v.len() ==> K::before(item.0@, (#[trigger] v[j]).0@),
    ensures
        sorted(v.insert(at, item)),
        forall|key: K::V| #[trigger]
            with_key(v.insert(at, item), key) == with_key(v.push(item), key),
{
    let n = v.insert(at, item);
    assert forall|i: int, j: int| 0 <= i < j < n.len() implies !K::before(
        (#[trigger] n[j]).0@,
        (#[trigger] n[i]).0@,
    ) by {
        if i == at {
            let x = v[j - 1].0@;
            assert(K::before(item.0@, x));
            if K::before(x, item.0@) {
                K::transitive(item.0@, x, item.0@);
                K::irreflexive(item.0@);
            }
        }
    }
    assert forall|key: K::V| #[trigger] with_key(n, key) == with_key(v.push(item), key) by {
        let p = |p: (K, T)| p.0@ == key;
        let a = v.take(at);
        let b = v.skip(at);
        assert(n =~= a.push(item) + b);
        assert(v.push(item) =~= (a + b).push(item));
        Seq::filter_distributes_over_add(a.push(item), b, p);
        Seq::filter_distributes_over_add(a, b, p);
        a.lemma_filter_push(item, p);
        (a + b).lemma_filter_push(item, p);
        if item.0@ == key {
            assert forall|j: int| 0 <= j < b.len() implies !p(#[trigger] b[j]) by {
                assert(K::before(item.0@, v[at + j].0@));
                K::irreflexive(item.0@);
            }
            lemma_filter_none(b, p);
            assert(a.filter(p).push(item) + b.filter(p) =~= (a.filter(p) + b.filter(p)).push(
                item,
            ));
        }
    }
}

proof fn lemma_filter_none<A>(s: Seq<A>, p: spec_fn(A) -> bool)
    requires
        forall|j: int| 0 <= j < s.len() ==> !p(#[trigger] s[j]),
    ensures
        s.filter(p) == Seq::<A>::empty(),
    decreases s.len(),
{
    if s.len() > 0 {
        let rest = s.drop_last();
        assert forall|j: int| 0 <= j < rest.len() implies !p(#[trigger] rest[j]) by {
            assert(!p(s[j]));
        }
        lemma_filter_none(rest, p);
        assert(!p(s.last()));
        rest.lemma_filter_push(s.last(), p);
        assert(rest.push(s.last()) =~= s);
    } else {
        assert(s.filter(p) =~= Seq::<A>::empty());
    }
}

/// Sorts by key, keeping items of the same key in their order.
pub fn sort_stably<K: Ordered, T>(items: Vec<(K, T)>) -> (r: Vec<(K, T)>)
    ensures
        is_stable_sort(items@, r@),
{
    let mut out: Vec<(K, T)> = Vec::new();
    let ghost all = items@;
    assert forall|key: K::V| #[trigger] with_key(out@, key) == with_key(all.take(0), key) by {
        assert(out@ =~= all.take(0));
    }
    for item in it: items
        invariant
            it.seq() == all,
            sorted(out@),
            forall|key: K::V| #[trigger]
                with_key(out@, key) == with_key(all.take(it.index() as int), key),
    {
        let ghost before = out@;
        let ghost i = it.index() as int;
        let at: usize = place_of(&out, &item.0);
        proof {
            lemma_insert_stable(before, item, at as int);
            assert(all.take(i + 1) =~= all.take(i).push(item));
            assert forall|key: K::V| #[trigger] with_key(before.insert(at as int, item), key)
                == with_key(all.take(i + 1), key) by {
                let p = |p: (K, T)| p.0@ == key;
                before.lemma_filter_push(item, p);
                all.take(i).lemma_filter_push(item, p);
                assert(with_key(before, key) == with_key(all.take(i), key));
            }
        }
        out.insert(at, item);
    }
    assert(all.take(all.len() as int) =~= all);
    out
}

/// Nothing has a key that stands before the key of something earlier.
pub open spec fn in_key_order<A, W>(
    r: Seq<A>,
    key: spec_fn(A) -> W,
    before: spec_fn(W, W) -> bool,
) -> bool {
    forall|i: int, j: int|
        0 <= i < j < r.len() ==> !before(key(#[trigger] r[j]), key(#[trigger] r[i]))
}

/// The elements with a key, in their order.
pub open spec fn keyed<A, W>(s: Seq<A>, key: spec_fn(A) -> W, w: W) -> Seq<A> {
    s.filter(|a: A| key(a) == w)
}

/// `r` is `s` in the order of the keys, with elements of the same key left in the
/// order they had.
pub open spec fn is_stable_order<A, W>(
    s: Seq<A>,
    r: Seq<A>,
    key: spec_fn(A) -> W,
    before: spec_fn(W, W) -> bool,
) -> bool {
    in_key_order(r, key, before) && forall|w: W| #[trigger] keyed(r, key, w) == keyed(s, key, w)
}

proof fn lemma_filter_map<A, B>(
    s: Seq<A>,
    f: spec_fn(A) -> B,
    p: spec_fn(A) -> bool,
    q: spec_fn(B) -> bool,
)
    requires
        forall|i: int| 0 <= i < s.len() ==> p(#[trigger] s[i]) == q(f(s[i])),
    ensures
        s.map_values(f).filter(q) == s.filter(p).map_values(f),
    decreases s.len(),
{
    if s.len() == 0 {
        assert(s.map_values(f).filter(q) =~= s.filter(p).map_values(f));
    } else {
        let rest = s.drop_last();
        let x = s.last();
        assert forall|i: int| 0 <= i < rest.len() implies p(#[trigger] rest[i]) == q(
            f(rest[i]),
        ) by {
            assert(rest[i] == s[i]);
        }
        lemma_filter_map(rest, f, p, q);
        assert(rest.push(x) =~= s);
        assert(rest.map_values(f).push(f(x)) =~= s.map_values(f));
        rest.lemma_filter_push(x, p);
        rest.map_values(f).lemma_filter_push(f(x), q);
        assert(p(s[s.len() - 1]) == q(f(s[s.len() - 1])));
        assert(rest.filter(p).push(x).map_values(f) =~= rest.filter(p).map_values(f).push(f(x)));
    }
}

/// Sorted pairs, seen as something that knows its own key.
pub proof fn lemma_stable_view<K: Ordered, T, A>(
    s: Seq<(K, T)>,
    r: Seq<(K, T)>,
    f: spec_fn((K, T)) -> A,
    key: spec_fn(A) -> K::V,
)
    requires
        is_stable_sort(s, r),
        forall|i: int| 0 <= i < s.len() ==> (#[trigger] s[i]).0@ == key(f(s[i])),
    ensures
        is_stable_order(
            s.map_values(f),
            r.map_values(f),
            key,
            |a: K::V, b: K::V| K::before(a, b),
        ),
{
    let before = |a: K::V, b: K::V| K::before(a, b);
    let sv = s.map_values(f);
    let rv = r.map_values(f);
    assert forall|i: int| 0 <= i < r.len() implies (#[trigger] r[i]).0@ == key(f(r[i])) by {
        let k = r[i].0@;
        let p = |p: (K, T)| p.0@ == k;
        r.lemma_filter_contains(p, i);
        assert(with_key(r, k) == with_key(s, k));
        assert(with_key(s, k).contains(r[i]));
        s.lemma_filter_contains_rev(p, r[i]);
        assert(s.contains(r[i]));
        let j = choose|j: int| 0 <= j < s.len() && s[j] == r[i];
        assert(s[j].0@ == key(f(s[j])));
    }
    assert forall|i: int, j: int| 0 <= i < j < rv.len() implies !before(
        key(#[trigger] rv[j]),
        key(#[trigger] rv[i]),
    ) by {
        assert(r[i].0@ == key(f(r[i])));
        assert(r[j].0@ == key(f(r[j])));
    }
    assert forall|w: K::V| #[trigger] keyed(rv, key, w) == keyed(sv, key, w) by {
        let p = |p: (K, T)| p.0@ == w;
        let q = |a: A| key(a) == w;
        lemma_filter_map(s, f, p, q);
        lemma_filter_map(r, f, p, q);
        assert(with_key(r, w) == with_key(s, w));
    }
}

/// Sorting stably has one outcome only.
pub proof fn law_stable_order_is_unique<A, W>(
    a: Seq<A>,
    b: Seq<A>,
    key: spec_fn(A) -> W,
    before: spec_fn(W, W) -> bool,
)
    requires
        in_key_order(a, key, before),
        in_key_order(b, key, before),
        forall|w: W| #[trigger] keyed(a, key, w) == keyed(b, key, w),
        forall|x: W, y: W| x == y || #[trigger] before(x, y) || before(y, x),
    ensures
        a == b,
    decreases a.len(),
{
    if a.len() == 0 {
        if b.len() > 0 {
            let w = key(b[0]);
            b.lemma_filter_contains(|x: A| key(x) == w, 0);
            assert(keyed(a, key, w) == keyed(b, key, w));
            lemma_filter_none(a, |x: A| key(x) == w);
        }
        assert(a =~= b);
    } else {
        let w = key(a[0]);
        let p = |x: A| key(x) == w;
        a.lemma_filter_contains(p, 0);
        assert(keyed(a, key, w) == keyed(b, key, w));
        b.lemma_filter_contains_rev(p, a[0]);
        let j = choose|j: int| 0 <= j < b.len() && b[j] == a[0];
        let v = key(b[0]);
        let q = |x: A| key(x) == v;
        b.lemma_filter_contains(q, 0);
        assert(keyed(a, key, v) == keyed(b, key, v));
        a.lemma_filter_contains_rev(q, b[0]);
        let i = choose|i: int| 0 <= i < a.len() && a[i] == b[0];
        assert(v == w) by {
            if v != w {
                assert(before(v, w) || before(w, v));
                if j > 0 {
                    assert(!before(key(b[j]), key(b[0])));
                }
                if i > 0 {
                    assert(!before(key(a[i]), key(a[0])));
                }
            }
        }
        lemma_filter_first(a, p);
        lemma_filter_first(b, p);
        assert(a[0] == b[0]);
        let ra = a.drop_first();
        let rb = b.drop_first();
        assert forall|x: W| #[trigger] keyed(ra, key, x) == keyed(rb, key, x) by {
            let f = |y: A| key(y) == x;
            lemma_filter_head(a, f);
            lemma_filter_head(b, f);
            assert(keyed(a, key, x) == keyed(b, key, x));
            if key(a[0]) == x {
                assert(ra.filter(f) =~= a.filter(f).drop_first());
                assert(rb.filter(f) =~= b.filter(f).drop_first());
            }
        }
        assert forall|m: int, n: int| 0 <= m < n < ra.len() implies !before(
            key(#[trigger] ra[n]),
            key(#[trigger] ra[m]),
        ) by {
            assert(!before(key(a[n + 1]), key(a[m + 1])));
        }
        assert forall|m: int, n: int| 0 <= m < n < rb.len() implies !before(
            key(#[trigger] rb[n]),
            key(#[trigger] rb[m]),
        ) by {
            assert(!before(key(b[n + 1]), key(b[m + 1])));
        }
        law_stable_order_is_unique(ra, rb, key, before);
        assert(a =~= seq![a[0]] + ra);
        assert(b =~= seq![b[0]] + rb);
    }
}

proof fn lemma_filter_head<A>(s: Seq<A>, p: spec_fn(A) -> bool)
    requires
        s.len() > 0,
    ensures
        s.filter(p) == (if p(s[0]) {
            seq![s[0]] + s.drop_first().filter(p)
        } else {
            s.drop_first().filter(p)
        }),
{
    let head = seq![s[0]];
    assert(head + s.drop_first() =~= s);
    Seq::filter_distributes_over_add(head, s.drop_first(), p);
    let none = Seq::<A>::empty();
    assert(none.push(s[0]) =~= head);
    none.lemma_filter_push(s[0], p);
    assert(none.filter(p) =~= none);
    assert(none + s.drop_first().filter(p) =~= s.drop_first().filter(p));
}

proof fn lemma_filter_first<A>(s: Seq<A>, p: spec_fn(A) -> bool)
    requires
        s.len() > 0,
        p(s[0]),
    ensures
        s.filter(p).len() > 0,
        s.filter(p)[0] == s[0],
{
    lemma_filter_head(s, p);
}

} // verus!

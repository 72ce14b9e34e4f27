//! Strict total orders and sorted lists without repeats.

use crate::text::texts;
use vstd::prelude::*;
use vstd::utf8::*;

verus! {

/// How one value stands to another in an order.
#[derive(Debug, Clone, Copy, PartialEq, Eq)]
pub enum Relation {
    Before,
    Same,
    After,
}

/// A type whose views are strictly and totally ordered.
pub trait Ordered: View + Sized {
    spec fn before(a: Self::V, b: Self::V) -> bool;

    proof fn irreflexive(a: Self::V)
        ensures
            !Self::before(a, a),
    ;

    proof fn transitive(a: Self::V, b: Self::V, c: Self::V)
        requires
            Self::before(a, b),
            Self::before(b, c),
        ensures
            Self::before(a, c),
    ;

    proof fn connected(a: Self::V, b: Self::V)
        ensures
            a == b || Self::before(a, b) || Self::before(b, a),
    ;

    fn relate(&self, other: &Self) -> (r: Relation)
        ensures
            match r {
                Relation::Before => Self::before(self@, other@),
                Relation::Same => self@ == other@,
                Relation::After => Self::before(other@, self@),
            },
    ;
}

/// Lexicographic order of byte strings; a proper prefix comes first.
pub open spec fn bytes_before(a: Seq<u8>, b: Seq<u8>) -> bool
    decreases a.len(),
{
    if b.len() == 0 {
        false
    } else if a.len() == 0 {
        true
    } else if a[0] != b[0] {
        a[0] < b[0]
    } else {
        bytes_before(a.drop_first(), b.drop_first())
    }
}

/// The order of strings: by their UTF-8 bytes.
pub open spec fn text_before(a: Seq<char>, b: Seq<char>) -> bool {
    bytes_before(encode_utf8(a), encode_utf8(b))
}

proof fn lemma_bytes_irreflexive(a: Seq<u8>)
    ensures
        !bytes_before(a, a),
    decreases a.len(),
{
    if a.len() > 0 {
        lemma_bytes_irreflexive(a.drop_first());
    }
}

proof fn lemma_bytes_transitive(a: Seq<u8>, b: Seq<u8>, c: Seq<u8>)
    requires
        bytes_before(a, b),
        bytes_before(b, c),
    ensures
        bytes_before(a, c),
    decreases a.len(),
{
    if a.len() > 0 && b.len() > 0 && c.len() > 0 && a[0] == b[0] && b[0] == c[0] {
        lemma_bytes_transitive(a.drop_first(), b.drop_first(), c.drop_first());
    }
}

proof fn lemma_bytes_connected(a: Seq<u8>, b: Seq<u8>)
    ensures
        a == b || bytes_before(a, b) || bytes_before(b, a),
    decreases a.len(),
{
    if a.len() == 0 && b.len() == 0 {
        assert(a =~= b);
    } else if a.len() > 0 && b.len() > 0 && a[0] == b[0] {
        lemma_bytes_connected(a.drop_first(), b.drop_first());
        if a.drop_first() == b.drop_first() {
            assert(a =~= seq![a[0]] + a.drop_first());
            assert(b =~= seq![b[0]] + b.drop_first());
        }
    }
}

/// A common prefix decides nothing.
proof fn lemma_bytes_prefix(a: Seq<u8>, b: Seq<u8>, i: int)
    requires
        0 <= i <= a.len(),
        i <= b.len(),
        forall|j: int| 0 <= j < i ==> a[j] == b[j],
    ensures
        bytes_before(a, b) == bytes_before(a.skip(i), b.skip(i)),
    decreases i,
{
    if i == 0 {
        assert(a.skip(0) =~= a);
        assert(b.skip(0) =~= b);
    } else {
        assert(a[0] == b[0]);
        assert forall|j: int| 0 <= j < i - 1 implies a.drop_first()[j] == b.drop_first()[j] by {
            assert(a[j + 1] == b[j + 1]);
        }
        lemma_bytes_prefix(a.drop_first(), b.drop_first(), i - 1);
        assert(a.drop_first().skip(i - 1) =~= a.skip(i));
        assert(b.drop_first().skip(i - 1) =~= b.skip(i));
    }
}

/// Two texts with the same encoding are the same.
pub proof fn lemma_text_connected(a: Seq<char>, b: Seq<char>)
    ensures
        a == b || text_before(a, b) || text_before(b, a),
{
    encode_utf8_decode_utf8(a);
    encode_utf8_decode_utf8(b);
    lemma_bytes_connected(encode_utf8(a), encode_utf8(b));
}

pub proof fn lemma_text_irreflexive(a: Seq<char>)
    ensures
        !text_before(a, a),
{
    lemma_bytes_irreflexive(encode_utf8(a));
}

pub proof fn lemma_text_transitive(a: Seq<char>, b: Seq<char>, c: Seq<char>)
    requires
        text_before(a, b),
        text_before(b, c),
    ensures
        text_before(a, c),
{
    lemma_bytes_transitive(encode_utf8(a), encode_utf8(b), encode_utf8(c));
}

/// Compares two strings.
pub fn relate_text(a: &str, b: &str) -> (r: Relation)
    ensures
        match r {
            Relation::Before => text_before(a@, b@),
            Relation::Same => a@ == b@,
            Relation::After => text_before(b@, a@),
        },
{
    let x = a.as_bytes();
    let y = b.as_bytes();
    let mut i: usize = 0;
    while i < x.len() && i < y.len() && x[i] == y[i]
        invariant
            i <= x.len(),
            i <= y.len(),
            forall|j: int| 0 <= j < i ==> x@[j] == y@[j],
        decreases x.len() - i,
    {
        i += 1;
    }
    proof {
        lemma_bytes_prefix(x@, y@, i as int);
        lemma_bytes_prefix(y@, x@, i as int);
        encode_utf8_decode_utf8(a@);
        encode_utf8_decode_utf8(b@);
    }
    if i == x.len() && i == y.len() {
        assert(x@ =~= y@);
        Relation::Same
    } else if i == x.len() {
        Relation::Before
    } else if i == y.len() {
        Relation::After
    } else if x[i] < y[i] {
        Relation::Before
    } else {
        Relation::After
    }
}

impl Ordered for String {
    open spec fn before(a: Seq<char>, b: Seq<char>) -> bool {
        text_before(a, b)
    }

    proof fn irreflexive(a: Seq<char>) {
        lemma_text_irreflexive(a);
    }

    proof fn transitive(a: Seq<char>, b: Seq<char>, c: Seq<char>) {
        lemma_text_transitive(a, b, c);
    }

    proof fn connected(a: Seq<char>, b: Seq<char>) {
        lemma_text_connected(a, b);
    }

    fn relate(&self, other: &Self) -> Relation {
        relate_text(self.as_str(), other.as_str())
    }
}

/// The views of a list.
pub open spec fn views<T: View>(s: Seq<T>) -> Seq<T::V> {
    s.map_values(|t: T| t@)
}

/// Each element stands before every later one.
pub open spec fn ascending<T: Ordered>(s: Seq<T::V>) -> bool {
    forall|i: int, j: int| 0 <= i < j < s.len() ==> T::before(#[trigger] s[i], #[trigger] s[j])
}

/// The elements of a set listed in ascending order.
pub open spec fn in_order<T: Ordered>(s: Set<T::V>) -> Seq<T::V> {
    choose|q: Seq<T::V>| ascending::<T>(q) && q.to_set() == s
}

/// An ascending list is determined by its elements.
pub proof fn lemma_ascending_unique<T: Ordered>(a: Seq<T::V>, b: Seq<T::V>)
    requires
        ascending::<T>(a),
        ascending::<T>(b),
        a.to_set() == b.to_set(),
    ensures
        a == b,
    decreases a.len(),
{
    if a.len() == 0 {
        if b.len() > 0 {
            assert(b.to_set().contains(b[0]));
            assert(a.to_set().contains(b[0]));
        }
        assert(a =~= b);
    } else {
        assert(a.to_set().contains(a.last()));
        assert(b.contains(a.last()));
        let i = choose|i: int| 0 <= i < b.len() && b[i] == a.last();
        assert(b.to_set().contains(b.last()));
        assert(a.contains(b.last()));
        let j = choose|j: int| 0 <= j < a.len() && a[j] == b.last();
        if a.last() != b.last() {
            assert(T::before(b[i], b.last()));
            assert(T::before(a[j], a.last()));
            T::transitive(a.last(), b.last(), a.last());
            T::irreflexive(a.last());
        }
        let x = a.drop_last();
        let y = b.drop_last();
        assert forall|v: T::V| x.to_set().contains(v) == y.to_set().contains(v) by {
            lemma_drop_last_elements::<T>(a, v);
            lemma_drop_last_elements::<T>(b, v);
            assert(a.to_set().contains(v) == b.to_set().contains(v));
        }
        assert(x.to_set() =~= y.to_set());
        lemma_ascending_unique::<T>(x, y);
        assert(a =~= x.push(a.last()));
        assert(b =~= y.push(b.last()));
    }
}

/// Dropping the last element of an ascending list takes just that one away.
proof fn lemma_drop_last_elements<T: Ordered>(a: Seq<T::V>, v: T::V)
    requires
        ascending::<T>(a),
        a.len() > 0,
    ensures
        a.drop_last().to_set().contains(v) == (a.to_set().contains(v) && v != a.last()),
{
    let x = a.drop_last();
    if a.contains(v) && v != a.last() {
        let k = choose|k: int| 0 <= k < a.len() && a[k] == v;
        assert(x[k] == v);
    }
    if x.contains(v) {
        let k = choose|k: int| 0 <= k < x.len() && x[k] == v;
        assert(a[k] == v);
        assert(T::before(a[k], a.last()));
        T::irreflexive(v);
    }
}

/// An ascending list is its elements in order.
pub proof fn lemma_in_order<T: Ordered>(a: Seq<T::V>)
    requires
        ascending::<T>(a),
    ensures
        in_order::<T>(a.to_set()) == a,
{
    let q = in_order::<T>(a.to_set());
    assert(ascending::<T>(q) && q.to_set() == a.to_set());
    lemma_ascending_unique::<T>(q, a);
}

/// The elements in order are in order, whenever there is an order at all.
pub proof fn lemma_in_order_ascending<T: Ordered>(s: Set<T::V>)
    requires
        s.finite(),
    ensures
        ascending::<T>(in_order::<T>(s)),
        in_order::<T>(s).to_set() == s,
    decreases s.len(),
{
    if s.len() == 0 {
        let e = Seq::<T::V>::empty();
        assert(e.to_set() =~= s);
        lemma_in_order::<T>(e);
    } else {
        let x = s.choose();
        let rest = s.remove(x);
        lemma_in_order_ascending::<T>(rest);
        let q = in_order::<T>(rest);
        assert(!q.contains(x)) by {
            if q.contains(x) {
                assert(q.to_set().contains(x));
            }
        }
        let k = lemma_place::<T>(q, x);
        lemma_insert::<T>(q, x, k);
        assert(q.insert(k, x).to_set() =~= s);
        lemma_in_order::<T>(q.insert(k, x));
    }
}

/// The place where a new element belongs in an ascending list.
proof fn lemma_place<T: Ordered>(q: Seq<T::V>, x: T::V) -> (k: int)
    requires
        ascending::<T>(q),
        !q.contains(x),
    ensures
        0 <= k <= q.len(),
        forall|j: int| 0 <= j < k ==> T::before(#[trigger] q[j], x),
        forall|j: int| k <= j < q.len() ==> T::before(x, #[trigger] q[j]),
    decreases q.len(),
{
    if q.len() == 0 {
        0
    } else {
        T::connected(q.last(), x);
        assert(q.contains(q.last()));
        if T::before(q.last(), x) {
            assert forall|j: int| 0 <= j < q.len() implies T::before(#[trigger] q[j], x) by {
                if j < q.len() - 1 {
                    T::transitive(q[j], q.last(), x);
                }
            }
            q.len() as int
        } else {
            let r = q.drop_last();
            assert(!r.contains(x)) by {
                if r.contains(x) {
                    let m = choose|m: int| 0 <= m < r.len() && r[m] == x;
                    assert(q[m] == x);
                }
            }
            let k = lemma_place::<T>(r, x);
            assert forall|j: int| 0 <= j < k implies T::before(#[trigger] q[j], x) by {
                assert(r[j] == q[j]);
            }
            assert forall|j: int| k <= j < q.len() implies T::before(x, #[trigger] q[j]) by {
                if j < q.len() - 1 {
                    assert(r[j] == q[j]);
                }
            }
            k
        }
    }
}

/// Inserting at the right place keeps a list ascending and adds one element.
pub proof fn lemma_insert<T: Ordered>(q: Seq<T::V>, x: T::V, k: int)
    requires
        ascending::<T>(q),
        0 <= k <= q.len(),
        forall|j: int| 0 <= j < k ==> T::before(#[trigger] q[j], x),
        forall|j: int| k <= j < q.len() ==> T::before(x, #[trigger] q[j]),
    ensures
        ascending::<T>(q.insert(k, x)),
        q.insert(k, x).to_set() == q.to_set().insert(x),
{
    let n = q.insert(k, x);
    q.insert_ensures(k, x);
    assert forall|i: int, j: int| 0 <= i < j < n.len() implies T::before(
        #[trigger] n[i],
        #[trigger] n[j],
    ) by {
        let a = if i < k { q[i] } else if i == k { x } else { q[i - 1] };
        let b = if j < k { q[j] } else if j == k { x } else { q[j - 1] };
        assert(n[i] == a && n[j] == b);
    }
    assert forall|v: T::V| n.to_set().contains(v) == q.to_set().insert(x).contains(v) by {
        if n.contains(v) {
            let m = choose|m: int| 0 <= m < n.len() && n[m] == v;
            if m < k {
                assert(q[m] == v);
            } else if m > k {
                assert(q[m - 1] == v);
            }
        }
        if q.contains(v) {
            let m = choose|m: int| 0 <= m < q.len() && q[m] == v;
            if m < k {
                assert(n[m] == v);
            } else {
                assert(n[m + 1] == v);
            }
        }
        assert(n[k] == x);
    }
    assert(n.to_set() =~= q.to_set().insert(x));
}

/// Looks a value up in an ascending list: its position, or where it belongs.
pub fn locate<T: Ordered>(v: &[T], x: &T) -> (r: (bool, usize))
    requires
        ascending::<T>(views(v@)),
    ensures
        r.1 <= v@.len(),
        r.0 ==> r.1 < v@.len() && v@[r.1 as int]@ == x@,
        !r.0 ==> (forall|j: int| 0 <= j < r.1 ==> T::before(#[trigger] views(v@)[j], x@)),
        !r.0 ==> (forall|j: int| r.1 <= j < v@.len() ==> T::before(x@, #[trigger] views(v@)[j])),
        r.0 == views(v@).contains(x@),
{
    let mut lo: usize = 0;
    let mut hi: usize = v.len();
    let ghost q = views(v@);
    while lo < hi
        invariant
            lo <= hi <= v.len(),
            q == views(v@),
            ascending::<T>(q),
            forall|j: int| 0 <= j < lo ==> T::before(#[trigger] q[j], x@),
            forall|j: int| hi <= j < q.len() ==> T::before(x@, #[trigger] q[j]),
        decreases hi - lo,
    {
        let mid: usize = lo + (hi - lo) / 2;
        match v[mid].relate(x) {
            Relation::Same => {
                assert(q[mid as int] == x@);
                return (true, mid);
            },
            Relation::Before => {
                assert forall|j: int| 0 <= j < mid + 1 implies T::before(#[trigger] q[j], x@) by {
                    if j < mid {
                        T::transitive(q[j], q[mid as int], x@);
                    }
                }
                lo = mid + 1;
            },
            Relation::After => {
                assert forall|j: int| mid <= j < q.len() implies T::before(x@, #[trigger] q[j]) by {
                    if j > mid {
                        T::transitive(x@, q[mid as int], q[j]);
                    }
                }
                hi = mid;
            },
        }
    }
    proof {
        if q.contains(x@) {
            let m = choose|m: int| 0 <= m < q.len() && q[m] == x@;
            T::irreflexive(x@);
            assert(false);
        }
    }
    (false, lo)
}

/// Adds a value to an ascending list unless it is there already.
pub fn insert_unique<T: Ordered>(v: &mut Vec<T>, x: T)
    requires
        ascending::<T>(views(old(v)@)),
    ensures
        ascending::<T>(views(final(v)@)),
        views(final(v)@).to_set() == views(old(v)@).to_set().insert(x@),
{
    let (found, at) = locate(v.as_slice(), &x);
    let ghost q = views(v@);
    if found {
        assert(q[at as int] == x@);
        assert(q.to_set() =~= q.to_set().insert(x@));
    } else {
        proof {
            lemma_insert::<T>(q, x@, at as int);
        }
        let ghost y = x@;
        v.insert(at, x);
        assert(views(v@) =~= q.insert(at as int, y));
    }
}

/// Whether an ascending list holds a value.
pub fn holds<T: Ordered>(v: &[T], x: &T) -> (r: bool)
    requires
        ascending::<T>(views(v@)),
    ensures
        r == views(v@).contains(x@),
{
    locate(v, x).0
}

/// The texts of a list of strings are its views.
pub proof fn lemma_texts_are_views(v: Seq<String>)
    ensures
        texts(v) == views(v),
{
    assert(texts(v) =~= views(v));
}

/// Leaving elements out keeps a list ascending.
pub proof fn lemma_ascending_filter<T: Ordered>(q: Seq<T::V>, p: spec_fn(T::V) -> bool)
    requires
        ascending::<T>(q),
    ensures
        ascending::<T>(q.filter(p)),
        q.filter(p).to_set() == q.to_set().filter(p),
        q.filter(p) == in_order::<T>(q.to_set().filter(p)),
{
    lemma_filter_ascending::<T>(q, p);
    let f = q.filter(p);
    assert forall|x: T::V| f.to_set().contains(x) == q.to_set().filter(p).contains(x) by {
        if f.contains(x) {
            q.lemma_filter_contains_rev(p, x);
            let i = choose|i: int| 0 <= i < f.len() && f[i] == x;
            q.lemma_filter_pred(p, i);
        }
        if q.contains(x) && p(x) {
            let i = choose|i: int| 0 <= i < q.len() && q[i] == x;
            q.lemma_filter_contains(p, i);
        }
    }
    assert(f.to_set() =~= q.to_set().filter(p));
    lemma_in_order::<T>(f);
}

proof fn lemma_filter_ascending<T: Ordered>(q: Seq<T::V>, p: spec_fn(T::V) -> bool)
    requires
        ascending::<T>(q),
    ensures
        ascending::<T>(q.filter(p)),
    decreases q.len(),
{
    if q.len() > 0 {
        let rest = q.drop_last();
        let x = q.last();
        assert forall|i: int, j: int| 0 <= i < j < rest.len() implies T::before(
            #[trigger] rest[i],
            #[trigger] rest[j],
        ) by {
            assert(T::before(q[i], q[j]));
        }
        lemma_filter_ascending::<T>(rest, p);
        assert(rest.push(x) =~= q);
        rest.lemma_filter_push(x, p);
        let f = rest.filter(p);
        assert forall|i: int| 0 <= i < f.len() implies T::before(#[trigger] f[i], x) by {
            assert(f.contains(f[i]));
            rest.lemma_filter_contains_rev(p, f[i]);
            let k = choose|k: int| 0 <= k < rest.len() && rest[k] == f[i];
            assert(T::before(q[k], q[q.len() - 1]));
        }
    } else {
        assert(q.filter(p) =~= q);
    }
}

} // verus!

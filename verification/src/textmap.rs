//! A map with texts as keys, kept in the order of the keys.

use crate::order::{
    ascending, in_order, lemma_in_order, lemma_insert, lemma_texts_are_views, locate, views,
    Ordered,
};
use crate::text::{copied, owned};
use vstd::prelude::*;

verus! {

/// A map with texts as keys.
#[derive(Debug)]
pub struct TextMap<T> {
    keys: Vec<String>,
    values: Vec<T>,
}

impl<T> View for TextMap<T> {
    type V = Map<Seq<char>, T>;

    closed spec fn view(&self) -> Map<Seq<char>, T> {
        Map::new(
            |k: Seq<char>| views(self.keys@).contains(k),
            |k: Seq<char>| self.values@[place(views(self.keys@), k)],
        )
    }
}

/// Where a key stands in a list.
spec fn place(keys: Seq<Seq<char>>, k: Seq<char>) -> int {
    choose|i: int| 0 <= i < keys.len() && keys[i] == k
}

proof fn lemma_place(keys: Seq<Seq<char>>, i: int)
    requires
        ascending::<String>(keys),
        0 <= i < keys.len(),
    ensures
        keys.contains(keys[i]),
        place(keys, keys[i]) == i,
{
    let j = place(keys, keys[i]);
    if j != i {
        String::irreflexive(keys[i]);
    }
}

impl<T> TextMap<T> {
    pub closed spec fn wf(&self) -> bool {
        ascending::<String>(views(self.keys@)) && self.keys@.len() == self.values@.len()
    }

    /// The keys, in order.
    pub closed spec fn sorted_keys(&self) -> Seq<Seq<char>> {
        views(self.keys@)
    }

    pub proof fn lemma_sorted_keys(&self)
        requires
            self.wf(),
        ensures
            self.sorted_keys() == in_order::<String>(self@.dom()),
            self.sorted_keys().to_set() == self@.dom(),
            ascending::<String>(self.sorted_keys()),
    {
        lemma_in_order::<String>(views(self.keys@));
        assert(self@.dom() =~= views(self.keys@).to_set());
    }

    pub fn new() -> (r: TextMap<T>)
        ensures
            r.wf(),
            r@ == Map::<Seq<char>, T>::empty(),
    {
        let r = TextMap { keys: Vec::new(), values: Vec::new() };
        assert(r@ =~= Map::<Seq<char>, T>::empty());
        r
    }

    /// Sets the value of a key.
    pub fn insert(&mut self, key: String, value: T)
        requires
            old(self).wf(),
        ensures
            final(self).wf(),
            final(self)@ == old(self)@.insert(key@, value),
    {
        let (found, at) = locate(self.keys.as_slice(), &key);
        let ghost q = views(self.keys@);
        let ghost k = key@;
        let ghost old_map = self@;
        if found {
            self.values.set(at, value);
            proof {
                lemma_place(q, at as int);
                assert forall|x: Seq<char>| #[trigger] q.contains(x) && x != k implies self@[x]
                    == old_map[x] by {
                    assert(place(q, x) != at);
                }
                assert(self@ =~= old_map.insert(k, value));
            }
            return ;
        }
        proof {
            lemma_insert::<String>(q, k, at as int);
        }
        self.keys.insert(at, key);
        self.values.insert(at, value);
        proof {
            let n = views(self.keys@);
            assert(n =~= q.insert(at as int, k));
            assert forall|x: Seq<char>| n.contains(x) == (q.contains(x) || x == k) by {
                assert(n.to_set().contains(x) == q.to_set().insert(k).contains(x));
            }
            assert forall|x: Seq<char>| #[trigger] n.contains(x) implies self@[x] == old_map.insert(
                k,
                value,
            )[x] by {
                if x == k {
                    assert(n[at as int] == k);
                    lemma_place(n, at as int);
                } else {
                    let i = place(q, x);
                    assert(q.contains(x));
                    let m = if i < at {
                        i
                    } else {
                        i + 1
                    };
                    assert(n[m] == x);
                    lemma_place(n, m);
                }
            }
            assert(self@ =~= old_map.insert(k, value));
        }
    }

    /// The value of a key.
    pub fn get(&self, key: &str) -> (r: Option<&T>)
        requires
            self.wf(),
        ensures
            match r {
                Some(v) => self@.contains_key(key@) && *v == self@[key@],
                None => !self@.contains_key(key@),
            },
    {
        let (found, at) = locate(self.keys.as_slice(), &owned(key));
        if found {
            proof {
                lemma_place(views(self.keys@), at as int);
            }
            Some(&self.values[at])
        } else {
            None
        }
    }

    pub fn has(&self, key: &str) -> (r: bool)
        requires
            self.wf(),
        ensures
            r == self@.contains_key(key@),
    {
        locate(self.keys.as_slice(), &owned(key)).0
    }

    pub fn len(&self) -> (r: usize)
        requires
            self.wf(),
        ensures
            r == self.sorted_keys().len(),
    {
        self.keys.len()
    }

    /// The `i`th key in order, and its value.
    pub fn entry(&self, i: usize) -> (r: (&String, &T))
        requires
            self.wf(),
            i < self.sorted_keys().len(),
        ensures
            r.0@ == self.sorted_keys()[i as int],
            self@.contains_key(r.0@),
            *r.1 == self@[r.0@],
    {
        proof {
            lemma_place(views(self.keys@), i as int);
        }
        (&self.keys[i], &self.values[i])
    }
}

impl TextMap<usize> {
    /// A map with the same contents.
    pub fn duplicate(&self) -> (r: TextMap<usize>)
        ensures
            r@ == self@,
            self.wf() ==> r.wf(),
    {
        let r = TextMap { keys: copied(&self.keys), values: self.values.clone() };
        proof {
            lemma_texts_are_views(self.keys@);
            lemma_texts_are_views(r.keys@);
            assert(r.values@ =~= self.values@);
        }
        r
    }
}

} // verus!

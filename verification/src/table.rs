//! A small map from byte-string names to values.

use crate::text::bytes_eq;
use vstd::prelude::*;

verus! {

/// Entries with pairwise different names.
pub struct NameTable<T> {
    entries: Vec<(Vec<u8>, T)>,
}

spec fn distinct_names<T>(e: Seq<(Vec<u8>, T)>) -> bool {
    forall|i: int, j: int| 0 <= i < j < e.len() ==> #[trigger] e[i].0@ != #[trigger] e[j].0@
}

spec fn has_name<T>(e: Seq<(Vec<u8>, T)>, k: Seq<u8>) -> bool {
    exists|i: int| 0 <= i < e.len() && (#[trigger] e[i]).0@ == k
}

spec fn name_pos<T>(e: Seq<(Vec<u8>, T)>, k: Seq<u8>) -> int {
    choose|i: int| 0 <= i < e.len() && (#[trigger] e[i]).0@ == k
}

spec fn entries_map<T>(e: Seq<(Vec<u8>, T)>) -> Map<Seq<u8>, T> {
    Map::new(|k: Seq<u8>| has_name(e, k), |k: Seq<u8>| e[name_pos(e, k)].1)
}

proof fn lemma_entry<T>(e: Seq<(Vec<u8>, T)>, i: int)
    requires
        distinct_names(e),
        0 <= i < e.len(),
    ensures
        has_name(e, e[i].0@),
        name_pos(e, e[i].0@) == i,
        entries_map(e).contains_key(e[i].0@),
        entries_map(e)[e[i].0@] == e[i].1,
{
    let k = e[i].0@;
    assert(e[i].0@ == k);
    let p = name_pos(e, k);
    assert(e[p].0@ == k);
    if p < i {
        assert(e[p].0@ != e[i].0@);
    } else if i < p {
        assert(e[i].0@ != e[p].0@);
    }
}

impl<T> View for NameTable<T> {
    type V = Map<Seq<u8>, T>;

    closed spec fn view(&self) -> Map<Seq<u8>, T> {
        entries_map(self.entries@)
    }
}

impl<T> NameTable<T> {
    #[verifier::type_invariant]
    spec fn inv(self) -> bool {
        distinct_names(self.entries@)
    }

    /// The names, in the order in which they were first inserted.
    pub closed spec fn names(self) -> Seq<Seq<u8>> {
        self.entries@.map_values(|e: (Vec<u8>, T)| e.0@)
    }

    pub fn new() -> (r: Self)
        ensures
            r@ == Map::<Seq<u8>, T>::empty(),
            r.names() == Seq::<Seq<u8>>::empty(),
    {
        let r = NameTable { entries: Vec::new() };
        assert(r@ =~= Map::<Seq<u8>, T>::empty());
        assert(r.names() =~= Seq::<Seq<u8>>::empty());
        r
    }

    /// The number of names. They are pairwise different, and are exactly the keys.
    pub fn len(&self) -> (r: usize)
        ensures
            r == self.names().len(),
            self.names().no_duplicates(),
            forall|k: Seq<u8>| #[trigger] self@.contains_key(k) <==> self.names().contains(k),
    {
        proof {
            use_type_invariant(self);
            let e = self.entries@;
            assert forall|k: Seq<u8>|
                #[trigger] self@.contains_key(k) implies self.names().contains(k) by {
                assert(self.names()[name_pos(e, k)] == k);
            }
            assert forall|k: Seq<u8>|
                self.names().contains(k) implies #[trigger] self@.contains_key(k) by {
                let p = choose|p: int| 0 <= p < self.names().len() && self.names()[p] == k;
                lemma_entry(e, p);
            }
        }
        self.entries.len()
    }

    fn position(&self, name: &[u8]) -> (r: Option<usize>)
        ensures
            match r {
                Some(i) => i < self.entries@.len() && self.entries@[i as int].0@ == name@,
                None => forall|j: int|
                    0 <= j < self.entries@.len() ==> (#[trigger] self.entries@[j]).0@ != name@,
            },
    {
        let mut i: usize = 0;
        while i < self.entries.len()
            invariant
                i <= self.entries@.len(),
                forall|j: int| 0 <= j < i ==> (#[trigger] self.entries@[j]).0@ != name@,
            decreases self.entries@.len() - i,
        {
            if bytes_eq(self.entries[i].0.as_slice(), name) {
                return Some(i);
            }
            i += 1;
        }
        None
    }

    /// The value stored under `name`.
    pub fn get(&self, name: &[u8]) -> (r: Option<&T>)
        ensures
            match r {
                Some(v) => self@.contains_key(name@) && *v == self@[name@],
                None => !self@.contains_key(name@),
            },
    {
        proof {
            use_type_invariant(self);
        }
        match self.position(name) {
            Some(i) => {
                proof {
                    lemma_entry(self.entries@, i as int);
                }
                Some(&self.entries[i].1)
            },
            None => None,
        }
    }

    /// Name and value at a position of the insertion order.
    pub fn at(&self, i: usize) -> (r: (&Vec<u8>, &T))
        requires
            i < self.names().len(),
        ensures
            r.0@ == self.names()[i as int],
            self@.contains_key(r.0@),
            *r.1 == self@[r.0@],
    {
        proof {
            use_type_invariant(self);
            lemma_entry(self.entries@, i as int);
        }
        let e = &self.entries[i];
        (&e.0, &e.1)
    }

    /// Stores `value` under `name`, in place of an earlier value.
    pub fn insert(&mut self, name: Vec<u8>, value: T)
        ensures
            final(self)@ == old(self)@.insert(name@, value),
            final(self).names() == (if old(self)@.contains_key(name@) {
                old(self).names()
            } else {
                old(self).names().push(name@)
            }),
    {
        proof {
            use_type_invariant(&*self);
        }
        let ghost before = self.entries@;
        let ghost k = name@;
        match self.position(name.as_slice()) {
            Some(i) => {
                proof {
                    lemma_entry(before, i as int);
                    assert(distinct_names(before.update(i as int, (name, value)))) by {
                        let after = before.update(i as int, (name, value));
                        assert forall|a: int, b: int| 0 <= a < b < after.len() implies
                            #[trigger] after[a].0@ != #[trigger] after[b].0@ by {
                            assert(after[a].0@ == before[a].0@);
                            assert(after[b].0@ == before[b].0@);
                        }
                    }
                }
                let mut entries: Vec<(Vec<u8>, T)> = Vec::new();
                std::mem::swap(&mut self.entries, &mut entries);
                entries[i] = (name, value);
                self.entries = entries;
                proof {
                    let after = self.entries@;
                    assert(self.names() =~= old(self).names());
                    assert forall|q: Seq<u8>| has_name(after, q) == has_name(before, q) by {
                        if has_name(after, q) {
                            assert(before[name_pos(after, q)].0@ == q);
                        }
                        if has_name(before, q) {
                            assert(after[name_pos(before, q)].0@ == q);
                        }
                    }
                    assert forall|q: Seq<u8>| has_name(after, q) implies entries_map(after)[q]
                        == entries_map(before).insert(k, value)[q] by {
                        let p = name_pos(after, q);
                        lemma_entry(after, p);
                        lemma_entry(before, p);
                        if q == k {
                            assert(p == i as int) by {
                                lemma_entry(after, i as int);
                            }
                        } else {
                            assert(p != i);
                        }
                    }
                    assert(self@ =~= old(self)@.insert(k, value));
                }
            },
            None => {
                proof {
                    assert(!has_name(before, k));
                    assert(distinct_names(before.push((name, value))));
                }
                let mut entries: Vec<(Vec<u8>, T)> = Vec::new();
                std::mem::swap(&mut self.entries, &mut entries);
                entries.push((name, value));
                self.entries = entries;
                proof {
                    let after = self.entries@;
                    assert(self.names() =~= old(self).names().push(k));
                    assert forall|q: Seq<u8>|
                        has_name(after, q) == (has_name(before, q) || q == k) by {
                        if has_name(before, q) {
                            assert(after[name_pos(before, q)].0@ == q);
                        }
                        if q == k {
                            assert(after[before.len() as int].0@ == q);
                        }
                        if has_name(after, q) && q != k {
                            assert(before[name_pos(after, q)].0@ == q);
                        }
                    }
                    assert forall|q: Seq<u8>| has_name(after, q) implies entries_map(after)[q]
                        == entries_map(before).insert(k, value)[q] by {
                        let p = name_pos(after, q);
                        lemma_entry(after, p);
                        if q == k {
                            lemma_entry(after, before.len() as int);
                        } else {
                            lemma_entry(before, p);
                        }
                    }
                    assert(self@ =~= old(self)@.insert(k, value));
                }
            },
        }
    }
}

} // verus!

//! A map from header names to header values.
use vstd::prelude::*;

use crate::text::chars_of;

verus! {

/// The pairs of `v` taken by their views.
pub open spec fn pair_views(v: Seq<(String, String)>) -> Seq<(Seq<char>, Seq<char>)> {
    v.map_values(|e: (String, String)| (e.0@, e.1@))
}

/// No two pairs of `p` have the same name.
pub open spec fn names_distinct(p: Seq<(Seq<char>, Seq<char>)>) -> bool {
    forall|i: int, j: int| 0 <= i < p.len() && 0 <= j < p.len() && i != j ==> p[i].0 != p[j].0
}

/// `p` lists the entries of `m`, each once, in some order.
pub open spec fn lists_map(p: Seq<(Seq<char>, Seq<char>)>, m: Map<Seq<char>, Seq<char>>) -> bool {
    &&& names_distinct(p)
    &&& forall|i: int| 0 <= i < p.len() ==> #[trigger] m.contains_key(p[i].0) && m[p[i].0] == p[i].1
    &&& forall|k: Seq<char>| #[trigger] m.contains_key(k) ==> exists|i: int| 0 <= i < p.len() && p[i].0 == k
}

/// Header names mapped to values; a name occurs at most once.
#[derive(Debug)]
pub struct HeaderMap {
    entries: Vec<(String, String)>,
}

impl HeaderMap {
    #[verifier::type_invariant]
    closed spec fn distinct(&self) -> bool {
        names_distinct(pair_views(self.entries@))
    }

    closed spec fn has_at(&self, k: Seq<char>, i: int) -> bool {
        0 <= i < self.entries@.len() && self.entries@[i].0@ == k
    }
}

impl View for HeaderMap {
    type V = Map<Seq<char>, Seq<char>>;

    closed spec fn view(&self) -> Map<Seq<char>, Seq<char>> {
        Map::new(
            |k: Seq<char>| exists|i: int| self.has_at(k, i),
            |k: Seq<char>| self.entries@[choose|i: int| self.has_at(k, i)].1@,
        )
    }
}

impl HeaderMap {
    proof fn lemma_at(&self, i: int)
        requires
            self.distinct(),
            0 <= i < self.entries@.len(),
        ensures
            self@.contains_key(self.entries@[i].0@),
            self@[self.entries@[i].0@] == self.entries@[i].1@,
    {
        let k = self.entries@[i].0@;
        assert(self.has_at(k, i));
        let j = choose|j: int| self.has_at(k, j);
        assert(pair_views(self.entries@)[i].0 == k);
        assert(pair_views(self.entries@)[j].0 == k);
    }

    /// An empty map.
    pub fn new() -> (m: HeaderMap)
        ensures
            m@ == Map::<Seq<char>, Seq<char>>::empty(),
    {
        let m = HeaderMap { entries: Vec::new() };
        assert(m@ =~= Map::<Seq<char>, Seq<char>>::empty());
        m
    }

    /// The position of the entry named `key`, if there is one.
    fn find(&self, key: &String) -> (r: Option<usize>)
        ensures
            match r {
                Some(i) => self.has_at(key@, i as int),
                None => forall|i: int| !self.has_at(key@, i),
            },
    {
        for i in 0..self.entries.len()
            invariant
                forall|j: int| 0 <= j < i ==> !self.has_at(key@, j),
        {
            if self.entries[i].0 == *key {
                return Some(i);
            }
        }
        None
    }

    /// Maps `key` to `value`, in place of any value it had.
    pub fn insert(&mut self, key: String, value: String)
        ensures
            final(self)@ == old(self)@.insert(key@, value@),
    {
        proof {
            use_type_invariant(&*self);
        }
        let ghost before = *self;
        match self.find(&key) {
            Some(i) => {
                let mut entries: Vec<(String, String)> = Vec::new();
                std::mem::swap(&mut entries, &mut self.entries);
                entries.set(i, (key, value));
                assert(pair_views(entries@) =~= pair_views(before.entries@).update(
                    i as int,
                    (key@, value@),
                ));
                assert(forall|j: int|
                    0 <= j < entries@.len() ==> pair_views(entries@)[j].0 == pair_views(
                        before.entries@,
                    )[j].0);
                assert(names_distinct(pair_views(entries@)));
                self.entries = entries;
                proof {
                    assert(self.distinct());
                    assert(forall|j: int| 0 <= j < self.entries@.len() && j != i ==>
                        self.entries@[j] == before.entries@[j]);
                    assert forall|k: Seq<char>| #[trigger]
                        self@.contains_key(k) == before@.insert(key@, value@).contains_key(k) by {
                        if k != key@ && before@.contains_key(k) {
                            let j = choose|j: int| before.has_at(k, j);
                            assert(self.has_at(k, j));
                        }
                        if k == key@ {
                            assert(self.has_at(k, i as int));
                        }
                        if self@.contains_key(k) && k != key@ {
                            let j = choose|j: int| self.has_at(k, j);
                            assert(before.has_at(k, j));
                        }
                    }
                    assert forall|k: Seq<char>| #[trigger] self@.contains_key(k) implies self@[k]
                        == before@.insert(key@, value@)[k] by {
                        let j = choose|j: int| self.has_at(k, j);
                        if k == key@ {
                            self.lemma_at(i as int);
                            assert(self.entries@[i as int].1@ == value@);
                        } else {
                            assert(j != i);
                            assert(before.has_at(k, j));
                            before.lemma_at(j);
                            self.lemma_at(j);
                        }
                    }
                    assert(self@ =~= before@.insert(key@, value@));
                }
            },
            None => {
                let mut entries: Vec<(String, String)> = Vec::new();
                std::mem::swap(&mut entries, &mut self.entries);
                entries.push((key, value));
                assert(pair_views(entries@) =~= pair_views(before.entries@).push((key@, value@)));
                assert forall|j: int| 0 <= j < before.entries@.len() implies pair_views(
                    before.entries@,
                )[j].0 != key@ by {
                    assert(!before.has_at(key@, j));
                }
                assert(names_distinct(pair_views(entries@)));
                self.entries = entries;
                proof {
                    let n = before.entries@.len() as int;
                    assert(self.distinct());
                    assert(forall|j: int| 0 <= j < n ==> self.entries@[j] == before.entries@[j]);
                    assert(self.entries@[n].0@ == key@);
                    assert(pair_views(self.entries@) =~= pair_views(before.entries@).push(
                        (key@, value@),
                    ));
                    assert forall|k: Seq<char>| #[trigger]
                        self@.contains_key(k) == before@.insert(key@, value@).contains_key(k) by {
                        if k != key@ && before@.contains_key(k) {
                            let j = choose|j: int| before.has_at(k, j);
                            assert(self.has_at(k, j));
                        }
                        if k == key@ {
                            assert(self.has_at(k, n));
                        }
                        if self@.contains_key(k) && k != key@ {
                            let j = choose|j: int| self.has_at(k, j);
                            assert(before.has_at(k, j));
                        }
                    }
                    assert forall|k: Seq<char>| #[trigger] self@.contains_key(k) implies self@[k]
                        == before@.insert(key@, value@)[k] by {
                        let j = choose|j: int| self.has_at(k, j);
                        if k == key@ {
                            self.lemma_at(n);
                            assert(self.entries@[n].1@ == value@);
                        } else {
                            assert(j != n);
                            assert(before.has_at(k, j));
                            before.lemma_at(j);
                            self.lemma_at(j);
                        }
                    }
                    assert(self@ =~= before@.insert(key@, value@));
                }
            },
        }
    }

    /// The value mapped to `key`, if any.
    pub fn get(&self, key: &str) -> (r: Option<&String>)
        ensures
            match r {
                Some(v) => self@.contains_key(key@) && self@[key@] == v@,
                None => !self@.contains_key(key@),
            },
    {
        proof {
            use_type_invariant(self);
        }
        let k = String::from_str(key);
        match self.find(&k) {
            Some(i) => {
                proof {
                    self.lemma_at(i as int);
                }
                Some(&self.entries[i].1)
            },
            None => None,
        }
    }

    /// Whether some value is mapped to `key`.
    pub fn contains_key(&self, key: &str) -> (r: bool)
        ensures
            r == self@.contains_key(key@),
    {
        let k = String::from_str(key);
        self.find(&k).is_some()
    }

    /// A copy of the entries, in their order.
    fn copy_entries(&self) -> (r: Vec<(String, String)>)
        ensures
            pair_views(r@) == pair_views(self.entries@),
    {
        let mut r: Vec<(String, String)> = Vec::new();
        for i in 0..self.entries.len()
            invariant
                pair_views(r@) == pair_views(self.entries@).take(i as int),
        {
            let k = self.entries[i].0.clone();
            let v = self.entries[i].1.clone();
            let ghost prev = r@;
            r.push((k, v));
            assert(pair_views(r@) =~= pair_views(prev).push((k@, v@)));
            assert(pair_views(self.entries@).take(i + 1) =~= pair_views(self.entries@).take(
                i as int,
            ).push(pair_views(self.entries@)[i as int]));
        }
        assert(pair_views(self.entries@).take(self.entries@.len() as int) =~= pair_views(
            self.entries@,
        ));
        r
    }

    /// The entries as name and value pairs, each name once, in some order.
    pub fn entries(&self) -> (r: Vec<(String, String)>)
        ensures
            lists_map(pair_views(r@), self@),
    {
        proof {
            use_type_invariant(self);
        }
        let r = self.copy_entries();
        proof {
            let p = pair_views(r@);
            assert forall|i: int| 0 <= i < p.len() implies #[trigger] self@.contains_key(p[i].0)
                && self@[p[i].0] == p[i].1 by {
                self.lemma_at(i);
            }
            assert forall|k: Seq<char>| #[trigger] self@.contains_key(k) implies exists|i: int|
                0 <= i < p.len() && p[i].0 == k by {
                let j = choose|j: int| self.has_at(k, j);
                assert(p[j].0 == k);
            }
        }
        r
    }
}

impl Clone for HeaderMap {
    fn clone(&self) -> (r: HeaderMap)
        ensures
            r@ == self@,
    {
        proof {
            use_type_invariant(self);
        }
        let entries = self.copy_entries();
        let r = HeaderMap { entries };
        proof {
            assert forall|k: Seq<char>, i: int| r.has_at(k, i) == self.has_at(k, i) by {
                if 0 <= i < entries@.len() {
                    assert(pair_views(entries@)[i] == pair_views(self.entries@)[i]);
                }
            }
            assert forall|k: Seq<char>| #[trigger] r@.contains_key(k) implies r@[k] == self@[k] by {
                let j = choose|j: int| r.has_at(k, j);
                assert(pair_views(entries@)[j] == pair_views(self.entries@)[j]);
                assert(r.distinct());
                r.lemma_at(j);
                self.lemma_at(j);
            }
            assert(r@ =~= self@);
        }
        r
    }
}

} // verus!

//! Maps from names.

use vstd::prelude::*;
use crate::sorted_set::SortedSet;
use crate::text::str_eq;

verus! {

/// A finite map from names.
#[derive(Debug)]
pub struct NameMap<T> {
    entries: Vec<(String, T)>,
}

spec fn entry_names<T>(entries: Seq<(String, T)>) -> Seq<Seq<char>> {
    entries.map_values(|e: (String, T)| e.0@)
}

impl<T> View for NameMap<T> {
    type V = Map<Seq<char>, T>;

    closed spec fn view(&self) -> Map<Seq<char>, T> {
        Map::new(
            |n: Seq<char>| entry_names(self.entries@).contains(n),
            |n: Seq<char>| self.entries@[entry_names(self.entries@).index_of(n)].1,
        )
    }
}

impl<T> NameMap<T> {
    #[verifier::type_invariant]
    spec fn distinct(self) -> bool {
        entry_names(self.entries@).no_duplicates()
    }

    /// The empty map.
    pub fn new() -> (r: Self)
        ensures
            r@ == Map::<Seq<char>, T>::empty(),
    {
        let r = NameMap { entries: Vec::new() };
        assert(r@ =~= Map::empty());
        r
    }

    fn position(&self, name: &str) -> (r: Option<usize>)
        ensures
            match r {
                Some(i) => i < self.entries@.len() && entry_names(self.entries@)[i as int] == name@
                    && self@.contains_key(name@) && self@[name@] == self.entries@[i as int].1
                    && entry_names(self.entries@).index_of(name@) == i,
                None => !self@.contains_key(name@) && !entry_names(self.entries@).contains(name@),
            },
    {
        proof {
            use_type_invariant(self);
        }
        let mut i: usize = 0;
        while i < self.entries.len()
            invariant
                i <= self.entries@.len(),
                entry_names(self.entries@).no_duplicates(),
                forall|j: int| 0 <= j < i ==> (#[trigger] entry_names(self.entries@)[j]) != name@,
            decreases self.entries@.len() - i,
        {
            assert(entry_names(self.entries@)[i as int] == self.entries@[i as int].0@);
            if str_eq(self.entries[i].0.as_str(), name) {
                proof {
                    let ns = entry_names(self.entries@);
                    assert(ns.contains(name@));
                    let k = ns.index_of(name@);
                    assert(ns[k] == name@ && k == i);
                }
                return Some(i);
            }
            i += 1;
        }
        None
    }

    /// The value of a name.
    pub fn get(&self, name: &str) -> (r: Option<&T>)
        ensures
            match r {
                Some(t) => self@.contains_key(name@) && *t == self@[name@],
                None => !self@.contains_key(name@),
            },
    {
        match self.position(name) {
            Some(i) => Some(&self.entries[i].1),
            None => None,
        }
    }

    /// Whether a name has a value.
    pub fn contains(&self, name: &str) -> (r: bool)
        ensures
            r == self@.contains_key(name@),
    {
        self.position(name).is_some()
    }

    /// Sets the value of a name.
    pub fn put(&mut self, name: &str, value: T)
        ensures
            final(self)@ == old(self)@.insert(name@, value),
    {
        proof {
            use_type_invariant(&*self);
        }
        let found = self.position(name);
        let mut entries: Vec<(String, T)> = Vec::new();
        std::mem::swap(&mut entries, &mut self.entries);
        let ghost before = entries@;
        let ghost ns = entry_names(before);
        match found {
            Some(i) => {
                entries[i].1 = value;
                assert(entry_names(entries@) =~= ns);
                self.entries = entries;
                proof {
                    assert forall|n: Seq<char>| ns.contains(n) implies #[trigger] self@[n] == old(self)@.insert(name@, value)[n] by {
                        assert(ns[ns.index_of(n)] == n);
                    }
                }
            },
            None => {
                entries.push((name.to_owned(), value));
                proof {
                    assert(entry_names(entries@) =~= ns.push(name@));
                }
                self.entries = entries;
                proof {
                    let ms = entry_names(self.entries@);
                    assert(ms == ns.push(name@));
                    assert(ms.no_duplicates());
                    assert forall|n: Seq<char>| ms.contains(n) <==> (ns.contains(n) || n == name@) by {
                        if ns.contains(n) {
                            assert(ms[ns.index_of(n)] == n);
                        }
                        if n == name@ {
                            assert(ms[ns.len() as int] == n);
                        }
                        if ms.contains(n) && n != name@ {
                            assert(ns[ms.index_of(n)] == n);
                        }
                    }
                    assert forall|n: Seq<char>| ms.contains(n) implies #[trigger] self@[n] == old(self)@.insert(name@, value)[n] by {
                        let k = ms.index_of(n);
                        assert(ms[k] == n);
                        if n != name@ {
                            assert(ns[k] == n);
                            assert(ns.index_of(n) == k);
                        } else {
                            assert(ms[ns.len() as int] == n);
                        }
                    }
                }
            },
        }
        assert(self@ =~= old(self)@.insert(name@, value));
    }

    /// Takes the value of a name out.
    pub fn take(&mut self, name: &str) -> (r: Option<T>)
        ensures
            final(self)@ == old(self)@.remove(name@),
            match r {
                Some(t) => old(self)@.contains_key(name@) && t == old(self)@[name@],
                None => !old(self)@.contains_key(name@),
            },
    {
        proof {
            use_type_invariant(&*self);
        }
        let found = self.position(name);
        match found {
            None => {
                assert(self@ =~= old(self)@.remove(name@));
                None
            },
            Some(i) => {
                let mut entries: Vec<(String, T)> = Vec::new();
                std::mem::swap(&mut entries, &mut self.entries);
                let ghost ns = entry_names(entries@);
                let e = entries.remove(i);
                proof {
                    assert(entry_names(entries@) =~= ns.remove(i as int));
                    let ms = entry_names(entries@);
                    assert forall|a: int, b: int| 0 <= a < ms.len() && 0 <= b < ms.len() && a != b implies ms[a] != ms[b] by {
                        let a0 = if a < i { a } else { a + 1 };
                        let b0 = if b < i { b } else { b + 1 };
                        assert(ns[a0] != ns[b0]);
                    }
                }
                self.entries = entries;
                proof {
                    let ms = entry_names(self.entries@);
                    assert forall|n: Seq<char>| ms.contains(n) <==> (ns.contains(n) && n != name@) by {
                        if ms.contains(n) {
                            let k = ms.index_of(n);
                            let k0 = if k < i { k } else { k + 1 };
                            assert(ns[k0] == n);
                        }
                        if ns.contains(n) && n != name@ {
                            let k = ns.index_of(n);
                            assert(ns[k] == n);
                            let k0 = if k < i { k } else { k - 1 };
                            assert(ms[k0] == n);
                        }
                    }
                    assert forall|n: Seq<char>| ms.contains(n) implies #[trigger] self@[n] == old(self)@[n] by {
                        let k = ms.index_of(n);
                        assert(ms[k] == n);
                        let k0 = if k < i { k } else { k + 1 };
                        assert(ns[k0] == n);
                        assert(ns.index_of(n) == k0);
                    }
                    assert(self@ =~= old(self)@.remove(name@));
                }
                Some(e.1)
            },
        }
    }

    /// The names that have a value.
    pub fn names(&self) -> (r: SortedSet<String>)
        ensures
            r@ == self@.dom(),
    {
        let mut r: SortedSet<String> = SortedSet::new();
        let mut i: usize = 0;
        let ghost ns = entry_names(self.entries@);
        assert(ns.take(0).to_set() =~= Set::empty());
        while i < self.entries.len()
            invariant
                i <= self.entries@.len(),
                ns == entry_names(self.entries@),
                r@ == ns.take(i as int).to_set(),
            decreases self.entries@.len() - i,
        {
            r.insert(self.entries[i].0.clone());
            proof {
                assert(ns.take(i + 1) =~= ns.take(i as int).push(ns[i as int]));
                ns.take(i as int).lemma_push_to_set_commute(ns[i as int]);
            }
            i += 1;
        }
        assert(ns.take(ns.len() as int) =~= ns);
        assert(r@ =~= self@.dom());
        r
    }
}

impl<T: Copy> NameMap<T> {
    /// A copy.
    pub fn duplicate(&self) -> (r: Self)
        ensures
            r@ == self@,
    {
        proof {
            use_type_invariant(self);
        }
        let mut entries: Vec<(String, T)> = Vec::new();
        let mut i: usize = 0;
        while i < self.entries.len()
            invariant
                i <= self.entries@.len(),
                entries@.len() == i,
                forall|j: int| 0 <= j < i ==> (#[trigger] entries@[j]).0@ == self.entries@[j].0@ && entries@[j].1
                    == self.entries@[j].1,
            decreases self.entries@.len() - i,
        {
            entries.push((self.entries[i].0.clone(), self.entries[i].1));
            i += 1;
        }
        assert(entry_names(entries@) =~= entry_names(self.entries@));
        let r = NameMap { entries };
        proof {
            let ns = entry_names(self.entries@);
            assert forall|n: Seq<char>| ns.contains(n) implies #[trigger] r@[n] == self@[n] by {
                assert(ns[ns.index_of(n)] == n);
                let _ = r.entries@[ns.index_of(n)];
            }
            assert(r@ =~= self@);
        }
        r
    }
}

} // verus!

//! The fact store: named relations, the symbol table and the change record.

use vstd::prelude::*;
use crate::intern::Interner;
use crate::relation::{
    copy_pair, has_key, key_set, lemma_empty_wf, rel_empty, rel_insert, rel_merge, rel_remove, rel_wf, Ann, FactV, Key, KeyV, RelV,
    Relation, StoredFact, Support,
};
use crate::sorted_set::SortedSet;
use crate::text::{str_eq, texts};
use crate::value::{copy_key, Value};

verus! {

// --------------------------------------------------------- named relations

/// Relations by name.
#[derive(Debug)]
pub struct Relations {
    entries: Vec<(String, Relation)>,
}

/// The value of [`Relations`].
pub type RelsV = Map<Seq<char>, RelV>;

spec fn names_of(entries: Seq<(String, Relation)>) -> Seq<Seq<char>> {
    entries.map_values(|e: (String, Relation)| e.0@)
}

impl View for Relations {
    type V = RelsV;

    closed spec fn view(&self) -> RelsV {
        Map::new(
            |n: Seq<char>| names_of(self.entries@).contains(n),
            |n: Seq<char>| self.entries@[names_of(self.entries@).index_of(n)].1@,
        )
    }
}

/// Every relation is well formed.
pub open spec fn rels_wf(m: RelsV) -> bool {
    forall|n: Seq<char>| #[trigger] m.contains_key(n) ==> rel_wf(m[n])
}

/// The relation of a name, empty where there is none.
pub open spec fn rel_at(m: RelsV, n: Seq<char>) -> RelV {
    if m.contains_key(n) {
        m[n]
    } else {
        rel_empty()
    }
}

/// The fact is stored.
pub open spec fn holds(m: RelsV, k: KeyV) -> bool {
    m.contains_key(k.0) && has_key(m[k.0], k.1)
}

impl Relations {
    #[verifier::type_invariant]
    spec fn distinct(self) -> bool {
        names_of(self.entries@).no_duplicates()
    }

    /// There are finitely many relations.
    pub proof fn lemma_finite(&self)
        ensures
            self@.dom().finite(),
    {
        let ns = names_of(self.entries@);
        vstd::seq_lib::seq_to_set_is_finite(ns);
        assert(self@.dom() =~= ns.to_set());
    }

    /// No relations.
    pub fn new() -> (r: Relations)
        ensures
            r@ == Map::<Seq<char>, RelV>::empty(),
    {
        let r = Relations { entries: Vec::new() };
        assert(r@ =~= Map::empty());
        r
    }

    fn position(&self, name: &str) -> (r: Option<usize>)
        ensures
            match r {
                Some(i) => i < self.entries@.len() && names_of(self.entries@)[i as int] == name@
                    && self@.contains_key(name@) && self@[name@] == self.entries@[i as int].1@
                    && names_of(self.entries@).index_of(name@) == i,
                None => !self@.contains_key(name@) && !names_of(self.entries@).contains(name@),
            },
    {
        proof {
            use_type_invariant(self);
        }
        let mut i: usize = 0;
        while i < self.entries.len()
            invariant
                i <= self.entries@.len(),
                names_of(self.entries@).no_duplicates(),
                forall|j: int| 0 <= j < i ==> (#[trigger] names_of(self.entries@)[j]) != name@,
            decreases self.entries@.len() - i,
        {
            assert(names_of(self.entries@)[i as int] == self.entries@[i as int].0@);
            if str_eq(self.entries[i].0.as_str(), name) {
                proof {
                    let ns = names_of(self.entries@);
                    assert(ns.contains(name@));
                    let k = ns.index_of(name@);
                    assert(ns[k] == name@ && k == i);
                }
                return Some(i);
            }
            i += 1;
        }
        None
    }

    /// The relation of a name.
    pub fn get(&self, name: &str) -> (r: Option<&Relation>)
        ensures
            match r {
                Some(rel) => self@.contains_key(name@) && rel@ == self@[name@],
                None => !self@.contains_key(name@),
            },
    {
        match self.position(name) {
            Some(i) => Some(&self.entries[i].1),
            None => None,
        }
    }

    /// Whether there is a relation of the name.
    pub fn contains(&self, name: &str) -> (r: bool)
        ensures
            r == self@.contains_key(name@),
    {
        self.position(name).is_some()
    }

    /// Takes a relation out, to be put back changed.
    fn take(&mut self, name: &str) -> (r: Relation)
        ensures
            r@ == rel_at(old(self)@, name@),
            final(self)@ == old(self)@.insert(name@, rel_empty()),
    {
        proof {
            use_type_invariant(&*self);
        }
        match self.position(name) {
            Some(i) => {
                let mut entries: Vec<(String, Relation)> = Vec::new();
                std::mem::swap(&mut entries, &mut self.entries);
                let ghost before = entries@;
                let mut rel = Relation::new();
                std::mem::swap(&mut rel, &mut entries[i].1);
                assert(names_of(entries@) =~= names_of(before));
                self.entries = entries;
                proof {
                    let ns = names_of(before);
                    assert forall|n: Seq<char>| old(self)@.insert(name@, rel_empty()).contains_key(n) implies #[trigger] self@[n]
                        == old(self)@.insert(name@, rel_empty())[n] by {
                        if n != name@ {
                            assert(ns[ns.index_of(n)] == n);
                        }
                    }
                    assert(self@ =~= old(self)@.insert(name@, rel_empty()));
                }
                rel
            },
            None => {
                let rel = Relation::new();
                self.push_entry(name, Relation::new());
                rel
            },
        }
    }

    fn push_entry(&mut self, name: &str, rel: Relation)
        requires
            !old(self)@.contains_key(name@),
        ensures
            final(self)@ == old(self)@.insert(name@, rel@),
    {
        proof {
            use_type_invariant(&*self);
        }
        let mut entries: Vec<(String, Relation)> = Vec::new();
        std::mem::swap(&mut entries, &mut self.entries);
        let ghost before = entries@;
        entries.push((name.to_owned(), rel));
        proof {
            let ns = names_of(before);
            assert(names_of(entries@) =~= ns.push(name@));
            assert(!ns.contains(name@));
        }
        self.entries = entries;
        proof {
            let ns = names_of(before);
            let ms = names_of(self.entries@);
            assert(ms == ns.push(name@));
            assert(ms.no_duplicates());
            assert forall|n: Seq<char>| ms.contains(n) <==> (ns.contains(n) || n == name@) by {
                if ns.contains(n) {
                    assert(ms[ns.index_of(n)] == n);
                }
                if n == name@ {
                    assert(ms[ns.len() as int] == n);
                }
                if ms.contains(n) && n != name@ {
                    assert(ns[ms.index_of(n)] == n);
                }
            }
            assert forall|n: Seq<char>| ms.contains(n) implies #[trigger] self@[n] == old(self)@.insert(name@, rel@)[n] by {
                let k = ms.index_of(n);
                assert(ms[k] == n);
                if n != name@ {
                    assert(ns[k] == n);
                    assert(ns.index_of(n) == k);
                } else {
                    assert(ms[ns.len() as int] == n);
                }
            }
            assert(self@ =~= old(self)@.insert(name@, rel@));
        }
    }

    /// Puts a relation in the place of the one with that name.
    fn put(&mut self, name: &str, rel: Relation)
        ensures
            final(self)@ == old(self)@.insert(name@, rel@),
    {
        proof {
            use_type_invariant(&*self);
        }
        match self.position(name) {
            Some(i) => {
                let mut entries: Vec<(String, Relation)> = Vec::new();
                std::mem::swap(&mut entries, &mut self.entries);
                let ghost before = entries@;
                entries[i].1 = rel;
                assert(names_of(entries@) =~= names_of(before));
                self.entries = entries;
                proof {
                    let ns = names_of(before);
                    assert forall|n: Seq<char>| old(self)@.insert(name@, rel@).contains_key(n) implies #[trigger] self@[n]
                        == old(self)@.insert(name@, rel@)[n] by {
                        if n != name@ {
                            assert(ns[ns.index_of(n)] == n);
                        }
                    }
                    assert(self@ =~= old(self)@.insert(name@, rel@));
                }
            },
            None => {
                self.push_entry(name, rel);
            },
        }
    }

    /// Asserts a fact, creating the relation if need be; tells whether the
    /// tuple is new.
    pub fn insert(&mut self, name: &str, args: Vec<Value>, f: StoredFact) -> (r: bool)
        requires
            rels_wf(old(self)@),
        ensures
            final(self)@ == old(self)@.insert(name@, rel_insert(rel_at(old(self)@, name@), args@, f@)),
            r == !holds(old(self)@, (name@, args@)),
            rels_wf(final(self)@),
    {
        proof {
            lemma_empty_wf();
        }
        let mut rel = self.take(name);
        let r = rel.insert(args, f);
        self.put(name, rel);
        assert(self@ =~= old(self)@.insert(name@, rel_insert(rel_at(old(self)@, name@), args@, f@)));
        r
    }

    /// Removes a tuple, also from the pending ones; tells whether it was
    /// there.
    pub fn remove(&mut self, name: &str, args: &Vec<Value>) -> (r: bool)
        requires
            rels_wf(old(self)@),
        ensures
            r == holds(old(self)@, (name@, args@)),
            final(self)@ == rels_remove(old(self)@, name@, args@),
            rels_wf(final(self)@),
    {
        if !self.contains(name) {
            return false;
        }
        let mut rel = self.take(name);
        let r = rel.remove(args);
        rel.forget_pending(args);
        self.put(name, rel);
        assert(self@ =~= rels_remove(old(self)@, name@, args@));
        r
    }

    /// Merges an annotation and a support into a stored fact; tells whether
    /// the fact is stored.
    pub fn merge_ann(&mut self, name: &str, args: &Vec<Value>, ann: &Ann, support: Support) -> (r: bool)
        requires
            rels_wf(old(self)@),
        ensures
            r == holds(old(self)@, (name@, args@)),
            final(self)@ == (if r {
                old(self)@.insert(
                    name@,
                    rel_merge(old(self)@[name@], args@, FactV { ann: ann@, supports: seq![support@] }),
                )
            } else {
                old(self)@
            }),
            rels_wf(final(self)@),
    {
        if !self.contains(name) {
            return false;
        }
        let mut rel = self.take(name);
        let r = rel.merge_ann(args, ann, support);
        self.put(name, rel);
        assert(!r ==> self@ =~= old(self)@);
        assert(r ==> self@ =~= old(self)@.insert(
            name@,
            rel_merge(old(self)@[name@], args@, FactV { ann: ann@, supports: seq![support@] }),
        ));
        r
    }

    /// Empties a relation, where there is one.
    pub fn clear(&mut self, name: &str)
        requires
            rels_wf(old(self)@),
        ensures
            final(self)@ == (if old(self)@.contains_key(name@) {
                old(self)@.insert(name@, rel_empty())
            } else {
                old(self)@
            }),
            rels_wf(final(self)@),
    {
        proof {
            lemma_empty_wf();
        }
        if self.contains(name) {
            self.put(name, Relation::new());
        }
    }

    /// Makes every tuple of a relation pending.
    pub fn mark_all_pending(&mut self, name: &str)
        requires
            rels_wf(old(self)@),
        ensures
            final(self)@ == rels_seed(old(self)@, name@),
            rels_wf(final(self)@),
    {
        if self.contains(name) {
            let mut rel = self.take(name);
            rel.mark_all_pending();
            self.put(name, rel);
            assert(self@ =~= rels_seed(old(self)@, name@));
        }
    }

    /// Empties the pending tuples of a relation.
    fn clear_pending(&mut self, name: &str)
        requires
            rels_wf(old(self)@),
            old(self)@.contains_key(name@),
        ensures
            final(self)@ == old(self)@.insert(name@, RelV { pending: Set::empty(), ..old(self)@[name@] }),
            rels_wf(final(self)@),
    {
        let mut rel = self.take(name);
        rel.clear_pending();
        self.put(name, rel);
        assert(self@ =~= old(self)@.insert(name@, RelV { pending: Set::empty(), ..old(self)@[name@] }));
    }

    /// The names, each once.
    pub fn names(&self) -> (r: Vec<String>)
        ensures
            texts(r@).no_duplicates(),
            forall|n: Seq<char>| texts(r@).contains(n) <==> self@.contains_key(n),
    {
        proof {
            use_type_invariant(self);
        }
        let mut r: Vec<String> = Vec::new();
        let mut i: usize = 0;
        while i < self.entries.len()
            invariant
                i <= self.entries@.len(),
                r@.len() == i,
                forall|j: int| 0 <= j < i ==> (#[trigger] r@[j])@ == self.entries@[j].0@,
            decreases self.entries@.len() - i,
        {
            r.push(self.entries[i].0.clone());
            i += 1;
        }
        assert(texts(r@) =~= names_of(self.entries@));
        r
    }

    /// A copy.
    pub fn duplicate(&self) -> (r: Relations)
        ensures
            r@ == self@,
    {
        proof {
            use_type_invariant(self);
        }
        let mut entries: Vec<(String, Relation)> = Vec::new();
        let mut i: usize = 0;
        while i < self.entries.len()
            invariant
                i <= self.entries@.len(),
                entries@.len() == i,
                forall|j: int| 0 <= j < i ==> (#[trigger] entries@[j]).0@ == self.entries@[j].0@ && entries@[j].1@
                    == self.entries@[j].1@,
            decreases self.entries@.len() - i,
        {
            entries.push((self.entries[i].0.clone(), self.entries[i].1.duplicate()));
            i += 1;
        }
        assert(names_of(entries@) =~= names_of(self.entries@));
        let r = Relations { entries };
        proof {
            let ns = names_of(self.entries@);
            assert forall|n: Seq<char>| ns.contains(n) implies #[trigger] r@[n] == self@[n] by {
                assert(ns[ns.index_of(n)] == n);
                let _ = r.entries@[ns.index_of(n)];
            }
            assert(r@ =~= self@);
        }
        r
    }

    /// Makes every tuple of every relation pending.
    pub fn seed_all(&mut self)
        requires
            rels_wf(old(self)@),
        ensures
            final(self)@ == rels_seed_all(old(self)@),
            rels_wf(final(self)@),
    {
        let names = self.names();
        let ghost ns = texts(names@);
        let ghost start = self@;
        let mut i: usize = 0;
        while i < names.len()
            invariant
                i <= names@.len(),
                ns == texts(names@),
                ns.no_duplicates(),
                rels_wf(self@),
                forall|n: Seq<char>| ns.contains(n) <==> start.contains_key(n),
                forall|n: Seq<char>| self@.contains_key(n) <==> start.contains_key(n),
                forall|j: int| i <= j < ns.len() ==> self@[#[trigger] ns[j]] == start[ns[j]],
                forall|j: int| 0 <= j < i ==> self@[#[trigger] ns[j]] == rels_seed_all(start)[ns[j]],
            decreases names@.len() - i,
        {
            assert(ns.contains(ns[i as int]));
            self.mark_all_pending(names[i].as_str());
            i += 1;
        }
        assert forall|n: Seq<char>| start.contains_key(n) implies #[trigger] self@[n] == rels_seed_all(start)[n] by {
            assert(ns[ns.index_of(n)] == n);
        }
        assert(self@ =~= rels_seed_all(start));
    }

    /// Empties the pending tuples of every relation.
    pub fn settle(&mut self)
        requires
            rels_wf(old(self)@),
        ensures
            final(self)@ == rels_settled(old(self)@),
            rels_wf(final(self)@),
    {
        let names = self.names();
        let ghost ns = texts(names@);
        let ghost start = self@;
        let mut i: usize = 0;
        while i < names.len()
            invariant
                i <= names@.len(),
                ns == texts(names@),
                ns.no_duplicates(),
                rels_wf(self@),
                forall|n: Seq<char>| ns.contains(n) <==> start.contains_key(n),
                forall|n: Seq<char>| self@.contains_key(n) <==> start.contains_key(n),
                forall|j: int| i <= j < ns.len() ==> self@[#[trigger] ns[j]] == start[ns[j]],
                forall|j: int| 0 <= j < i ==> self@[#[trigger] ns[j]] == rels_settled(start)[ns[j]],
            decreases names@.len() - i,
        {
            assert(ns.contains(ns[i as int]));
            self.clear_pending(names[i].as_str());
            i += 1;
        }
        assert forall|n: Seq<char>| start.contains_key(n) implies #[trigger] self@[n] == rels_settled(start)[n] by {
            assert(ns[ns.index_of(n)] == n);
        }
        assert(self@ =~= rels_settled(start));
    }
}

/// The relations after removing a tuple.
pub open spec fn rels_remove(m: RelsV, name: Seq<char>, args: Seq<Value>) -> RelsV {
    if m.contains_key(name) {
        let r = rel_remove(m[name], args);
        m.insert(name, RelV { pending: r.pending.remove(args), ..r })
    } else {
        m
    }
}

/// The relation with all its tuples pending.
pub open spec fn rel_seeded(r: RelV) -> RelV {
    RelV { pending: r.pending.union(key_set(r)), ..r }
}

/// The relations after making the tuples of one pending.
pub open spec fn rels_seed(m: RelsV, name: Seq<char>) -> RelsV {
    if m.contains_key(name) {
        m.insert(name, rel_seeded(m[name]))
    } else {
        m
    }
}

/// The relations with all tuples pending.
pub open spec fn rels_seed_all(m: RelsV) -> RelsV {
    m.map_values(|r: RelV| rel_seeded(r))
}

/// The relations with nothing pending.
pub open spec fn rels_settled(m: RelsV) -> RelsV {
    m.map_values(|r: RelV| RelV { pending: Set::empty(), ..r })
}

// --------------------------------------------------------------- the store

/// One event of the change feed: additions, explicit removals, and relations
/// that were emptied to be rebuilt.
#[derive(Debug)]
pub enum Change {
    Added(u64, Key),
    Retracted(u64, Key),
    Cleared(u64, String),
}

/// The value of a [`Change`].
pub enum ChangeV {
    Added(u64, KeyV),
    Retracted(u64, KeyV),
    Cleared(u64, Seq<char>),
}

impl View for Change {
    type V = ChangeV;

    open spec fn view(&self) -> ChangeV {
        match *self {
            Change::Added(e, k) => ChangeV::Added(e, k@),
            Change::Retracted(e, k) => ChangeV::Retracted(e, k@),
            Change::Cleared(e, p) => ChangeV::Cleared(e, p@),
        }
    }
}

pub open spec fn change_epoch(c: ChangeV) -> u64 {
    match c {
        ChangeV::Added(e, _) => e,
        ChangeV::Retracted(e, _) => e,
        ChangeV::Cleared(e, _) => e,
    }
}

impl Change {
    /// The epoch in which the event happened.
    pub fn epoch(&self) -> (r: u64)
        ensures
            r == change_epoch(self@),
    {
        match self {
            Change::Added(e, _) => *e,
            Change::Retracted(e, _) => *e,
            Change::Cleared(e, _) => *e,
        }
    }

    /// A copy.
    pub fn duplicate(&self) -> (r: Change)
        ensures
            r@ == self@,
    {
        match self {
            Change::Added(e, k) => Change::Added(*e, copy_pair(k)),
            Change::Retracted(e, k) => Change::Retracted(*e, copy_pair(k)),
            Change::Cleared(e, p) => Change::Cleared(*e, p.clone()),
        }
    }
}

/// The values of a change feed.
pub open spec fn feed_view(s: Seq<Change>) -> Seq<ChangeV> {
    s.map_values(|c: Change| c@)
}

/// The values of a change log.
pub open spec fn log_view(s: Seq<(u64, Key)>) -> Seq<(u64, KeyV)> {
    s.map_values(|e: (u64, Key)| (e.0, e.1@))
}

/// Facts, symbols and what changed.
#[derive(Debug)]
pub struct Store {
    pub interner: Interner,
    pub relations: Relations,
    /// Every new fact with the epoch in which it was added.
    pub change_log: Vec<(u64, Key)>,
    /// Additions, removals and clears.
    pub feed: Vec<Change>,
    pub epoch: u64,
    /// Predicates that lost a fact since they were last taken into account.
    pub retracted: SortedSet<String>,
}

/// The value of a [`Store`].
#[verifier::ext_equal]
pub struct StoreV {
    pub names: Seq<Seq<char>>,
    pub rels: RelsV,
    pub log: Seq<(u64, KeyV)>,
    pub feed: Seq<ChangeV>,
    pub epoch: u64,
    pub retracted: Set<Seq<char>>,
}

impl View for Store {
    type V = StoreV;

    open spec fn view(&self) -> StoreV {
        StoreV {
            names: self.interner@,
            rels: self.relations@,
            log: log_view(self.change_log@),
            feed: feed_view(self.feed@),
            epoch: self.epoch,
            retracted: self.retracted@,
        }
    }
}

/// The store after asserting a fact: a new one is recorded as added.
pub open spec fn store_assert(st: StoreV, k: KeyV, f: FactV) -> StoreV {
    let rels = st.rels.insert(k.0, rel_insert(rel_at(st.rels, k.0), k.1, f));
    if holds(st.rels, k) {
        StoreV { rels, ..st }
    } else {
        StoreV {
            rels,
            log: st.log.push((st.epoch, k)),
            feed: st.feed.push(ChangeV::Added(st.epoch, k)),
            ..st
        }
    }
}

/// The store after removing a fact: if it was there, its removal is recorded.
pub open spec fn store_retract(st: StoreV, k: KeyV) -> StoreV {
    let rels = rels_remove(st.rels, k.0, k.1);
    if holds(st.rels, k) {
        StoreV {
            rels,
            feed: st.feed.push(ChangeV::Retracted(st.epoch, k)),
            retracted: st.retracted.insert(k.0),
            ..st
        }
    } else {
        StoreV { rels, ..st }
    }
}

/// The store after emptying a relation; the clear is recorded if there was
/// something to clear.
pub open spec fn store_clear(st: StoreV, name: Seq<char>) -> StoreV {
    if !st.rels.contains_key(name) {
        st
    } else {
        StoreV {
            rels: st.rels.insert(name, rel_empty()),
            feed: if st.rels[name].rows.len() > 0 {
                st.feed.push(ChangeV::Cleared(st.epoch, name))
            } else {
                st.feed
            },
            ..st
        }
    }
}

/// A copy of a change log.
pub fn copy_log(log: &Vec<(u64, Key)>) -> (r: Vec<(u64, Key)>)
    ensures
        log_view(r@) == log_view(log@),
{
    let mut r: Vec<(u64, Key)> = Vec::new();
    let mut i: usize = 0;
    while i < log.len()
        invariant
            i <= log@.len(),
            r@.len() == i,
            forall|j: int| 0 <= j < i ==> (#[trigger] r@[j]).0 == log@[j].0 && r@[j].1@ == log@[j].1@,
        decreases log@.len() - i,
    {
        r.push((log[i].0, copy_pair(&log[i].1)));
        i += 1;
    }
    assert(log_view(r@) =~= log_view(log@));
    r
}

/// A copy of a change feed.
pub fn copy_feed(feed: &Vec<Change>) -> (r: Vec<Change>)
    ensures
        feed_view(r@) == feed_view(feed@),
{
    let mut r: Vec<Change> = Vec::new();
    let mut i: usize = 0;
    while i < feed.len()
        invariant
            i <= feed@.len(),
            r@.len() == i,
            forall|j: int| 0 <= j < i ==> (#[trigger] r@[j])@ == feed@[j]@,
        decreases feed@.len() - i,
    {
        r.push(feed[i].duplicate());
        i += 1;
    }
    assert(feed_view(r@) =~= feed_view(feed@));
    r
}

impl Store {
    /// An empty store.
    pub fn new() -> (r: Store)
        ensures
            r@ == (StoreV {
                names: Seq::empty(),
                rels: Map::empty(),
                log: Seq::empty(),
                feed: Seq::empty(),
                epoch: 0,
                retracted: Set::empty(),
            }),
    {
        let r = Store {
            interner: Interner::new(),
            relations: Relations::new(),
            change_log: Vec::new(),
            feed: Vec::new(),
            epoch: 0,
            retracted: SortedSet::new(),
        };
        assert(r@.log =~= Seq::empty());
        assert(r@.feed =~= Seq::empty());
        r
    }

    /// Asserts a fact; tells whether it is new.
    pub fn assert_fact(&mut self, pred: &str, args: &Vec<Value>, f: StoredFact) -> (r: bool)
        requires
            rels_wf(old(self)@.rels),
        ensures
            final(self)@ == store_assert(old(self)@, (pred@, args@), f@),
            r == !holds(old(self)@.rels, (pred@, args@)),
            rels_wf(final(self)@.rels),
    {
        let is_new = self.relations.insert(pred, copy_key(args), f);
        if is_new {
            let key: Key = (pred.to_owned(), copy_key(args));
            let ghost feed0 = self@.feed;
            self.feed.push(Change::Added(self.epoch, copy_pair(&key)));
            assert(self@.feed =~= feed0.push(ChangeV::Added(self.epoch, key@)));
            let ghost log0 = self@.log;
            self.change_log.push((self.epoch, key));
            assert(self@.log =~= log0.push((self.epoch, key@)));
        }
        is_new
    }

    /// Removes a fact; tells whether it was there.
    pub fn retract(&mut self, pred: &str, args: &Vec<Value>) -> (r: bool)
        requires
            rels_wf(old(self)@.rels),
        ensures
            final(self)@ == store_retract(old(self)@, (pred@, args@)),
            r == holds(old(self)@.rels, (pred@, args@)),
            rels_wf(final(self)@.rels),
    {
        let existed = self.relations.remove(pred, args);
        if existed {
            let ghost feed0 = self@.feed;
            self.feed.push(Change::Retracted(self.epoch, (pred.to_owned(), copy_key(args))));
            assert(self@.feed =~= feed0.push(ChangeV::Retracted(self.epoch, (pred@, args@))));
            self.retracted.insert(pred.to_owned());
        }
        existed
    }

    /// Empties a relation, to be rebuilt.
    pub fn clear(&mut self, name: &str)
        requires
            rels_wf(old(self)@.rels),
        ensures
            final(self)@ == store_clear(old(self)@, name@),
            rels_wf(final(self)@.rels),
    {
        let filled = match self.relations.get(name) {
            Some(rel) => rel.len() > 0,
            None => false,
        };
        if filled {
            let ghost feed0 = self@.feed;
            self.feed.push(Change::Cleared(self.epoch, name.to_owned()));
            assert(self@.feed =~= feed0.push(ChangeV::Cleared(self.epoch, name@)));
        }
        self.relations.clear(name);
    }

    /// The names of the relations.
    pub fn sorted_names(&self) -> (r: SortedSet<String>)
        ensures
            r@ == self@.rels.dom(),
    {
        let names = self.relations.names();
        let ghost ns = texts(names@);
        let mut r: SortedSet<String> = SortedSet::new();
        let mut i: usize = 0;
        assert(ns.take(0).to_set() =~= Set::empty());
        while i < names.len()
            invariant
                i <= names@.len(),
                ns == texts(names@),
                r@ == ns.take(i as int).to_set(),
            decreases names@.len() - i,
        {
            r.insert(names[i].clone());
            proof {
                assert(ns.take(i + 1) =~= ns.take(i as int).push(ns[i as int]));
                ns.take(i as int).lemma_push_to_set_commute(ns[i as int]);
            }
            i += 1;
        }
        assert(ns.take(ns.len() as int) =~= ns);
        assert(r@ =~= self@.rels.dom()) by {
            assert forall|n: Seq<char>| r@.contains(n) <==> self@.rels.dom().contains(n) by {
                assert(ns.to_set().contains(n) <==> ns.contains(n));
                assert(self@.rels.contains_key(n) <==> ns.contains(n));
            }
        }
        r
    }
}

} // verus!

//! Relations: annotated tuples in insertion order, with secondary indexes.

use vstd::prelude::*;
use crate::confidence::{clamp, conf_max, conf_times, Conf, ONE_BITS};
use crate::sorted_set::{models, Item, SortedSet};
use crate::text::texts;
use crate::value::{copy_key, same_key, Value};

verus! {

// ------------------------------------------------------------ annotations

/// The annotation of a fact: a confidence (product on joins) and a set of
/// sources (union on joins).
#[derive(Debug)]
pub struct Ann {
    pub conf: Conf,
    pub prov: SortedSet<String>,
}

/// The value of an [`Ann`].
#[verifier::ext_equal]
pub struct AnnV {
    pub conf: u64,
    pub prov: Set<Seq<char>>,
}

impl View for Ann {
    type V = AnnV;

    open spec fn view(&self) -> AnnV {
        AnnV { conf: self.conf@, prov: self.prov@ }
    }
}

/// The neutral annotation: full confidence, no source.
pub open spec fn ann_unit() -> AnnV {
    AnnV { conf: ONE_BITS, prov: Set::empty() }
}

/// How annotations combine across a rule body.
pub open spec fn ann_join(a: AnnV, b: AnnV) -> AnnV {
    AnnV { conf: clamp(conf_times(a.conf, b.conf)), prov: a.prov.union(b.prov) }
}

/// How annotations of the same fact combine.
pub open spec fn ann_merge(a: AnnV, b: AnnV) -> AnnV {
    AnnV { conf: conf_max(a.conf, b.conf), prov: a.prov.union(b.prov) }
}

impl Default for Ann {
    fn default() -> (r: Self)
        ensures
            r@ == ann_unit(),
    {
        Ann::unit()
    }
}

impl Ann {
    /// An annotation with the confidence nearest to the number with the bit
    /// pattern `conf`, and the given sources.
    pub fn base(conf: u64, prov: &Vec<String>) -> (r: Self)
        ensures
            r@ == (AnnV { conf: clamp(conf), prov: texts(prov@).to_set() }),
    {
        let mut set: SortedSet<String> = SortedSet::new();
        let mut i: usize = 0;
        assert(texts(prov@).take(0).to_set() =~= Set::empty());
        while i < prov.len()
            invariant
                i <= prov@.len(),
                set@ == texts(prov@).take(i as int).to_set(),
            decreases prov@.len() - i,
        {
            set.insert(prov[i].clone());
            proof {
                let t = texts(prov@);
                assert(t.take(i + 1) =~= t.take(i as int).push(t[i as int]));
                t.take(i as int).lemma_push_to_set_commute(t[i as int]);
            }
            i += 1;
        }
        assert(texts(prov@).take(prov@.len() as int) =~= texts(prov@));
        Ann { conf: Conf::from_bits(conf), prov: set }
    }

    /// Full confidence, no sources.
    pub fn unit() -> (r: Self)
        ensures
            r@ == ann_unit(),
    {
        Ann { conf: Conf::one(), prov: SortedSet::new() }
    }

    /// How annotations combine across a rule body.
    pub fn join(&self, other: &Ann) -> (r: Ann)
        ensures
            r@ == ann_join(self@, other@),
    {
        let mut prov = self.prov.duplicate();
        prov.union_with(&other.prov);
        Ann { conf: self.conf.times(&other.conf), prov }
    }

    /// The greater confidence and all sources of both.
    pub fn merge(&mut self, other: &Ann)
        ensures
            final(self)@ == ann_merge(old(self)@, other@),
    {
        self.conf = self.conf.max(&other.conf);
        self.prov.union_with(&other.prov);
    }

    /// A copy.
    pub fn duplicate(&self) -> (r: Ann)
        ensures
            r@ == self@,
    {
        Ann { conf: self.conf, prov: self.prov.duplicate() }
    }
}

// ------------------------------------------------------------------ facts

/// A predicate and a tuple.
pub type Key = (String, Vec<Value>);

/// The value of a [`Key`].
pub type KeyV = (Seq<char>, Seq<Value>);

/// The values of a sequence of keys.
pub open spec fn keys_view(s: Seq<Key>) -> Seq<KeyV> {
    s.map_values(|k: Key| k@)
}

/// A copy of a key.
pub fn copy_pair(k: &Key) -> (r: Key)
    ensures
        r@ == k@,
{
    (k.0.clone(), copy_key(&k.1))
}

/// A copy of keys.
pub fn copy_keys(s: &Vec<Key>) -> (r: Vec<Key>)
    ensures
        keys_view(r@) == keys_view(s@),
{
    let mut r: Vec<Key> = Vec::new();
    let mut i: usize = 0;
    while i < s.len()
        invariant
            i <= s@.len(),
            r@.len() == i,
            forall|j: int| 0 <= j < i ==> (#[trigger] r@[j])@ == s@[j]@,
        decreases s@.len() - i,
    {
        r.push(copy_pair(&s[i]));
        i += 1;
    }
    assert(keys_view(r@) =~= keys_view(s@));
    r
}

/// Whether two sequences of keys are equal.
pub fn same_keys(a: &Vec<Key>, b: &Vec<Key>) -> (r: bool)
    ensures
        r == (keys_view(a@) == keys_view(b@)),
{
    assert(keys_view(a@).len() == a@.len() && keys_view(b@).len() == b@.len());
    if a.len() != b.len() {
        return false;
    }
    let mut i: usize = 0;
    while i < a.len()
        invariant
            a@.len() == b@.len(),
            i <= a@.len(),
            forall|j: int| 0 <= j < i ==> (#[trigger] a@[j])@ == b@[j]@,
        decreases a@.len() - i,
    {
        if a[i].0 != b[i].0 || !same_key(&a[i].1, &b[i].1) {
            assert(keys_view(a@)[i as int] != keys_view(b@)[i as int]);
            return false;
        }
        i += 1;
    }
    assert(keys_view(a@) =~= keys_view(b@));
    true
}

/// How a fact came to hold.
#[derive(Debug)]
pub enum Support {
    /// Asserted directly.
    Base,
    /// Derived by rule `rule` from the facts `body`.
    Rule { rule: String, body: Vec<Key> },
}

/// The value of a [`Support`].
pub enum SupportV {
    Base,
    Rule { rule: Seq<char>, body: Seq<KeyV> },
}

impl View for Support {
    type V = SupportV;

    open spec fn view(&self) -> SupportV {
        match *self {
            Support::Base => SupportV::Base,
            Support::Rule { rule, body } => SupportV::Rule { rule: rule@, body: keys_view(body@) },
        }
    }
}

/// The values of a sequence of supports.
pub open spec fn supports_view(s: Seq<Support>) -> Seq<SupportV> {
    s.map_values(|x: Support| x@)
}

impl Support {
    /// A copy.
    pub fn duplicate(&self) -> (r: Support)
        ensures
            r@ == self@,
    {
        match self {
            Support::Base => Support::Base,
            Support::Rule { rule, body } => Support::Rule { rule: rule.clone(), body: copy_keys(body) },
        }
    }

    /// Whether two supports are the same.
    pub fn same(&self, other: &Support) -> (r: bool)
        ensures
            r == (self@ == other@),
    {
        match (self, other) {
            (Support::Base, Support::Base) => true,
            (Support::Rule { rule: r1, body: b1 }, Support::Rule { rule: r2, body: b2 }) => {
                *r1 == *r2 && same_keys(b1, b2)
            },
            _ => false,
        }
    }
}

/// An annotated fact with the ways it came to hold.
#[derive(Debug)]
pub struct StoredFact {
    pub ann: Ann,
    pub supports: Vec<Support>,
}

/// The value of a [`StoredFact`].
#[verifier::ext_equal]
pub struct FactV {
    pub ann: AnnV,
    pub supports: Seq<SupportV>,
}

impl View for StoredFact {
    type V = FactV;

    open spec fn view(&self) -> FactV {
        FactV { ann: self.ann@, supports: supports_view(self.supports@) }
    }
}

/// At most this many supports are kept per fact.
pub const SUPPORT_CAP: usize = 4;

/// The supports after offering those of `more` in turn: each is kept while
/// there is room and it is not there yet.
pub open spec fn add_supports(have: Seq<SupportV>, more: Seq<SupportV>) -> Seq<SupportV>
    decreases more.len(),
{
    if more.len() == 0 || have.len() >= SUPPORT_CAP {
        have
    } else if have.contains(more[0]) {
        add_supports(have, more.drop_first())
    } else {
        add_supports(have.push(more[0]), more.drop_first())
    }
}

/// The stored fact after the same fact was asserted once more as `f`.
pub open spec fn fact_merge(have: FactV, f: FactV) -> FactV {
    FactV { ann: ann_merge(have.ann, f.ann), supports: add_supports(have.supports, f.supports) }
}

impl StoredFact {
    /// A copy.
    pub fn duplicate(&self) -> (r: StoredFact)
        ensures
            r@ == self@,
    {
        let mut supports: Vec<Support> = Vec::new();
        let mut i: usize = 0;
        while i < self.supports.len()
            invariant
                i <= self.supports@.len(),
                supports@.len() == i,
                forall|j: int| 0 <= j < i ==> (#[trigger] supports@[j])@ == self.supports@[j]@,
            decreases self.supports@.len() - i,
        {
            supports.push(self.supports[i].duplicate());
            i += 1;
        }
        assert(supports_view(supports@) =~= supports_view(self.supports@));
        StoredFact { ann: self.ann.duplicate(), supports }
    }

    /// Whether the support is recorded.
    fn has_support(&self, s: &Support) -> (r: bool)
        ensures
            r == self@.supports.contains(s@),
    {
        let mut i: usize = 0;
        while i < self.supports.len()
            invariant
                i <= self.supports@.len(),
                forall|j: int| 0 <= j < i ==> (#[trigger] self.supports@[j])@ != s@,
            decreases self.supports@.len() - i,
        {
            if self.supports[i].same(s) {
                assert(self@.supports[i as int] == s@);
                return true;
            }
            i += 1;
        }
        assert forall|j: int| 0 <= j < self@.supports.len() implies self@.supports[j] != s@ by {
            assert(self.supports@[j]@ == self@.supports[j]);
        }
        false
    }

    /// Merges another assertion of the same fact.
    fn absorb(&mut self, ann: &Ann, more: Vec<Support>)
        ensures
            final(self)@ == fact_merge(old(self)@, (FactV { ann: ann@, supports: supports_view(more@) })),
    {
        self.ann.merge(ann);
        let ghost start = self@.supports;
        let ghost all = supports_view(more@);
        let mut i: usize = 0;
        assert(all.skip(0) =~= all);
        while i < more.len() && self.supports.len() < SUPPORT_CAP
            invariant
                i <= more@.len(),
                all == supports_view(more@),
                self@.ann == ann_merge(old(self)@.ann, ann@),
                add_supports(self@.supports, all.skip(i as int)) == add_supports(start, all),
            decreases more@.len() - i,
        {
            proof {
                assert(all.skip(i as int).drop_first() =~= all.skip(i + 1));
                assert(all.skip(i as int)[0] == more@[i as int]@);
            }
            if !self.has_support(&more[i]) {
                let ghost before = self@.supports;
                self.supports.push(more[i].duplicate());
                assert(self@.supports =~= before.push(more@[i as int]@));
            }
            i += 1;
        }
        assert(add_supports(self@.supports, all.skip(i as int)) == self@.supports);
    }
}

/// A tuple with its fact.
#[derive(Debug)]
pub struct Row {
    pub key: Vec<Value>,
    pub fact: StoredFact,
}

/// The value of a [`Row`].
#[verifier::ext_equal]
pub struct RowV {
    pub key: Seq<Value>,
    pub fact: FactV,
}

impl View for Row {
    type V = RowV;

    open spec fn view(&self) -> RowV {
        RowV { key: self.key@, fact: self.fact@ }
    }
}

/// The values of a sequence of rows.
pub open spec fn rows_view(s: Seq<Row>) -> Seq<RowV> {
    s.map_values(|r: Row| r@)
}

// -------------------------------------------------------------- relations

/// The row ids whose tuple holds `value` at one position.
#[derive(Debug)]
struct Bucket {
    value: Value,
    ids: Vec<usize>,
}

/// Row ids as integers.
pub open spec fn ids_view(s: Seq<usize>) -> Seq<int> {
    s.map_values(|i: usize| i as int)
}

/// The ids in the first bucket for `v`.
spec fn bucket_ids(bs: Seq<Bucket>, v: Value) -> Seq<int>
    decreases bs.len(),
{
    if bs.len() == 0 {
        Seq::empty()
    } else if bs[0].value == v {
        ids_view(bs[0].ids@)
    } else {
        bucket_ids(bs.drop_first(), v)
    }
}

/// For each position and value, the ids of the rows indexed there.
pub type Index = Map<(int, Value), Seq<int>>;

spec fn index_view(idx: Seq<Vec<Bucket>>) -> Index {
    Map::new(
        |p: (int, Value)| true,
        |p: (int, Value)|
            if 0 <= p.0 < idx.len() {
                bucket_ids(idx[p.0]@, p.1)
            } else {
                Seq::empty()
            },
    )
}

/// The tuples of one predicate: rows in insertion order, an index per
/// position, and the tuples added since the last completed run.
#[derive(Debug)]
pub struct Relation {
    rows: Vec<Row>,
    idx: Vec<Vec<Bucket>>,
    pending: SortedSet<Vec<Value>>,
}

/// The value of a [`Relation`].
#[verifier::ext_equal]
pub struct RelV {
    pub rows: Seq<RowV>,
    pub idx: Index,
    pub pending: Set<Seq<Value>>,
}

impl View for Relation {
    type V = RelV;

    closed spec fn view(&self) -> RelV {
        RelV { rows: rows_view(self.rows@), idx: index_view(self.idx@), pending: self.pending@ }
    }
}

/// No row is indexed anywhere.
pub open spec fn empty_index() -> Index {
    Map::new(|p: (int, Value)| true, |p: (int, Value)| Seq::<int>::empty())
}

/// The relation without tuples.
pub open spec fn rel_empty() -> RelV {
    RelV { rows: Seq::empty(), idx: empty_index(), pending: Set::empty() }
}

/// The tuple is in the relation.
pub open spec fn has_key(r: RelV, key: Seq<Value>) -> bool {
    exists|i: int| 0 <= i < r.rows.len() && (#[trigger] r.rows[i]).key == key
}

/// The id of the row with the tuple.
pub open spec fn row_of(r: RelV, key: Seq<Value>) -> int {
    choose|i: int| 0 <= i < r.rows.len() && (#[trigger] r.rows[i]).key == key
}

/// The set of tuples.
pub open spec fn key_set(r: RelV) -> Set<Seq<Value>> {
    r.rows.map_values(|x: RowV| x.key).to_set()
}

/// The tuple holds the value at the position.
pub open spec fn holds_at(key: Seq<Value>, p: (int, Value)) -> bool {
    0 <= p.0 < key.len() && key[p.0] == p.1
}

/// The index after adding the first `n` positions of a row.
pub open spec fn index_add(idx: Index, id: int, key: Seq<Value>, n: int) -> Index {
    Map::new(
        |p: (int, Value)| true,
        |p: (int, Value)|
            if p.0 < n && holds_at(key, p) {
                idx[p].push(id)
            } else {
                idx[p]
            },
    )
}

pub open spec fn other_than(id: int) -> spec_fn(int) -> bool {
    |i: int| i != id
}

/// The index after taking the first `n` positions of a row out.
pub open spec fn index_drop(idx: Index, id: int, key: Seq<Value>, n: int) -> Index {
    Map::new(
        |p: (int, Value)| true,
        |p: (int, Value)|
            if p.0 < n && holds_at(key, p) {
                idx[p].filter(other_than(id))
            } else {
                idx[p]
            },
    )
}

/// The relation after asserting a fact.
pub open spec fn rel_insert(r: RelV, key: Seq<Value>, f: FactV) -> RelV {
    if has_key(r, key) {
        rel_merge(r, key, f)
    } else {
        RelV {
            rows: r.rows.push(RowV { key, fact: f }),
            idx: index_add(r.idx, r.rows.len() as int, key, key.len() as int),
            pending: r.pending.insert(key),
        }
    }
}

/// The relation after merging into an existing row.
pub open spec fn rel_merge(r: RelV, key: Seq<Value>, f: FactV) -> RelV {
    let i = row_of(r, key);
    RelV { rows: r.rows.update(i, RowV { key: r.rows[i].key, fact: fact_merge(r.rows[i].fact, f) }), ..r }
}

/// The relation after removing a tuple: the last row takes the free place.
pub open spec fn rel_remove(r: RelV, key: Seq<Value>) -> RelV {
    if !has_key(r, key) {
        r
    } else {
        let id = row_of(r, key);
        let last = r.rows.len() - 1;
        let without = index_drop(r.idx, id, key, key.len() as int);
        if id == last {
            RelV { rows: r.rows.drop_last(), idx: without, ..r }
        } else {
            let moved = r.rows[last].key;
            RelV {
                rows: r.rows.update(id, r.rows[last]).drop_last(),
                idx: index_add(index_drop(without, last, moved, moved.len() as int), id, moved, moved.len() as int),
                ..r
            }
        }
    }
}

/// The values that a pattern fixes are those of the tuple, as far as both
/// reach.
pub open spec fn fits(bound: Seq<Option<Value>>, key: Seq<Value>) -> bool {
    forall|i: int| 0 <= i < bound.len() && i < key.len() && (#[trigger] bound[i]) is Some ==> bound[i] == Some(key[i])
}

pub open spec fn fits_row(r: RelV, bound: Seq<Option<Value>>) -> spec_fn(int) -> bool {
    |id: int| fits(bound, r.rows[id].key)
}

/// The ids indexed at a position that the pattern fixes.
pub open spec fn bucket_at(r: RelV, bound: Seq<Option<Value>>, pos: int) -> Seq<int> {
    r.idx[(pos, bound[pos].unwrap())]
}

/// Among the first `n` positions, the first fixed one with the fewest rows.
pub open spec fn best_position(r: RelV, bound: Seq<Option<Value>>, n: int) -> Option<int>
    decreases n,
{
    if n <= 0 {
        None
    } else {
        let best = best_position(r, bound, n - 1);
        if bound[n - 1] is None {
            best
        } else {
            match best {
                None => Some(n - 1),
                Some(p) => if bucket_at(r, bound, n - 1).len() < bucket_at(r, bound, p).len() {
                    Some(n - 1)
                } else {
                    Some(p)
                },
            }
        }
    }
}

/// A fixed position among the first `n` has no rows.
pub open spec fn dead_end(r: RelV, bound: Seq<Option<Value>>, n: int) -> bool {
    exists|pos: int| 0 <= pos < n && (#[trigger] bound[pos]) is Some && bucket_at(r, bound, pos).len() == 0
}

/// The candidate rows for a pattern.
pub open spec fn rel_lookup(r: RelV, bound: Seq<Option<Value>>) -> Seq<int> {
    if dead_end(r, bound, bound.len() as int) {
        Seq::empty()
    } else {
        match best_position(r, bound, bound.len() as int) {
            Some(pos) => bucket_at(r, bound, pos).filter(fits_row(r, bound)),
            None => Seq::new(r.rows.len(), |i: int| i),
        }
    }
}

/// Tuples occur once, and the index lists, for each position and value, the
/// rows that hold it, each once.
pub open spec fn rel_wf(r: RelV) -> bool {
    &&& forall|i: int, j: int| 0 <= i < j < r.rows.len() ==> (#[trigger] r.rows[i]).key != (#[trigger] r.rows[j]).key
    &&& forall|p: (int, Value)| #[trigger] r.idx.dom().contains(p)
    &&& forall|p: (int, Value)| (#[trigger] r.idx[p]).no_duplicates()
    &&& forall|p: (int, Value), id: int|
        #[trigger] r.idx[p].contains(id) <==> (0 <= id < r.rows.len() && holds_at(r.rows[id].key, p))
}


proof fn lemma_bucket_ids(bs: Seq<Bucket>, v: Value, k: int)
    requires
        0 <= k <= bs.len(),
        forall|j: int| 0 <= j < k ==> (#[trigger] bs[j]).value != v,
        k < bs.len() ==> bs[k].value == v,
    ensures
        bucket_ids(bs, v) == (if k < bs.len() { ids_view(bs[k].ids@) } else { Seq::empty() }),
    decreases bs.len(),
{
    if bs.len() > 0 && k > 0 {
        assert(bs[0].value != v);
        let t = bs.drop_first();
        assert forall|j: int| 0 <= j < k - 1 implies (#[trigger] t[j]).value != v by {
            assert(t[j] == bs[j + 1]);
        }
        if k < bs.len() {
            assert(t[k - 1] == bs[k]);
        }
        lemma_bucket_ids(t, v, k - 1);
    }
}

/// Changing the ids of the first bucket for `v`, or adding that bucket at the
/// end, changes the ids of no other value.
proof fn lemma_bucket_set(bs: Seq<Bucket>, cs: Seq<Bucket>, v: Value, k: int, w: Value)
    requires
        0 <= k <= bs.len(),
        forall|j: int| 0 <= j < k ==> (#[trigger] bs[j]).value != v,
        k < bs.len() ==> bs[k].value == v && cs.len() == bs.len(),
        k == bs.len() ==> cs.len() == bs.len() + 1,
        forall|j: int| 0 <= j < bs.len() && j != k ==> #[trigger] cs[j] == bs[j],
        cs[k].value == v,
        w != v,
    ensures
        bucket_ids(cs, w) == bucket_ids(bs, w),
    decreases bs.len(),
{
    if bs.len() == 0 {
        assert(cs.drop_first().len() == 0);
        assert(bucket_ids(cs.drop_first(), w) == Seq::<int>::empty());
    } else {
        let b1 = bs.drop_first();
        let c1 = cs.drop_first();
        if k == 0 {
            assert(b1 =~= c1) by {
                assert forall|j: int| 0 <= j < b1.len() implies b1[j] == c1[j] by {
                    assert(cs[j + 1] == bs[j + 1]);
                }
            }
        } else {
            assert(cs[0] == bs[0]);
            assert forall|j: int| 0 <= j < k - 1 implies (#[trigger] b1[j]).value != v by {
                assert(b1[j] == bs[j + 1]);
            }
            assert forall|j: int| 0 <= j < b1.len() && j != k - 1 implies #[trigger] c1[j] == b1[j] by {
                assert(cs[j + 1] == bs[j + 1]);
            }
            lemma_bucket_set(b1, c1, v, k - 1, w);
        }
    }
}

/// The position of the first bucket for the value, or the number of buckets.
fn bucket_position(bs: &Vec<Bucket>, v: Value) -> (r: usize)
    ensures
        r <= bs@.len(),
        forall|j: int| 0 <= j < r ==> (#[trigger] bs@[j]).value != v,
        r < bs@.len() ==> bs@[r as int].value == v,
        bucket_ids(bs@, v) == (if r < bs@.len() { ids_view(bs@[r as int].ids@) } else { Seq::empty() }),
{
    let mut r: usize = 0;
    while r < bs.len() && bs[r].value != v
        invariant
            r <= bs@.len(),
            forall|j: int| 0 <= j < r ==> (#[trigger] bs@[j]).value != v,
        decreases bs@.len() - r,
    {
        r += 1;
    }
    proof {
        lemma_bucket_ids(bs@, v, r as int);
    }
    r
}

/// The ids other than `id`.
fn ids_without(ids: &Vec<usize>, id: usize) -> (r: Vec<usize>)
    ensures
        ids_view(r@) == ids_view(ids@).filter(other_than(id as int)),
{
    let mut r: Vec<usize> = Vec::new();
    let mut i: usize = 0;
    let ghost all = ids_view(ids@);
    let ghost keep = other_than(id as int);
    assert(all.take(0).filter(keep) =~= Seq::empty()) by {
        assert(all.take(0) =~= Seq::empty());
        reveal(Seq::filter);
    }
    while i < ids.len()
        invariant
            i <= ids@.len(),
            all == ids_view(ids@),
            keep == other_than(id as int),
            ids_view(r@) == all.take(i as int).filter(keep),
        decreases ids@.len() - i,
    {
        proof {
            assert(all.take(i + 1) =~= all.take(i as int).push(all[i as int]));
            all.take(i as int).lemma_filter_push(all[i as int], keep);
        }
        if ids[i] != id {
            let ghost before = r@;
            r.push(ids[i]);
            assert(ids_view(r@) =~= ids_view(before).push(all[i as int]));
        }
        i += 1;
    }
    assert(all.take(ids@.len() as int) =~= all);
    r
}

/// Adds a row at one position of the index.
fn index_put(idx: &mut Vec<Vec<Bucket>>, pos: usize, v: Value, id: usize)
    requires
        pos < old(idx)@.len(),
    ensures
        final(idx)@.len() == old(idx)@.len(),
        index_view(final(idx)@) == index_view(old(idx)@).insert((pos as int, v), index_view(old(idx)@)[(pos as int, v)].push(id as int)),
{
    let ghost before = idx@;
    let ghost p = (pos as int, v);
    let b = bucket_position(&idx[pos], v);
    if b < idx[pos].len() {
        let ghost ids0 = idx@[pos as int]@[b as int].ids@;
        idx[pos][b].ids.push(id);
        assert(ids_view(idx@[pos as int]@[b as int].ids@) =~= ids_view(ids0).push(id as int));
    } else {
        let mut ids: Vec<usize> = Vec::new();
        ids.push(id);
        assert(ids_view(ids@) =~= Seq::<int>::empty().push(id as int));
        idx[pos].push(Bucket { value: v, ids });
    }
    proof {
        lemma_bucket_ids(idx@[pos as int]@, v, b as int);
        assert forall|q: (int, Value)| index_view(idx@)[q] == index_view(before).insert(p, index_view(before)[p].push(id as int))[q] by {
            if q.0 == pos && q.1 != v {
                lemma_bucket_set(before[pos as int]@, idx@[pos as int]@, v, b as int, q.1);
            }
        }
        assert(index_view(idx@) =~= index_view(before).insert(p, index_view(before)[p].push(id as int)));
    }
}

/// Takes a row out at one position of the index.
fn index_cut(idx: &mut Vec<Vec<Bucket>>, pos: usize, v: Value, id: usize)
    ensures
        index_view(final(idx)@) == index_view(old(idx)@).insert(
            (pos as int, v),
            index_view(old(idx)@)[(pos as int, v)].filter(other_than(id as int)),
        ),
{
    let ghost before = idx@;
    let ghost p = (pos as int, v);
    let ghost want = index_view(before).insert(p, index_view(before)[p].filter(other_than(id as int)));
    assert(Seq::<int>::empty().filter(other_than(id as int)) =~= Seq::empty()) by {
        reveal(Seq::filter);
    }
    if pos >= idx.len() {
        assert(index_view(idx@) =~= want);
        return;
    }
    let b = bucket_position(&idx[pos], v);
    if b < idx[pos].len() {
        let kept = ids_without(&idx[pos][b].ids, id);
        idx[pos][b].ids = kept;
        proof {
            lemma_bucket_ids(idx@[pos as int]@, v, b as int);
            assert forall|q: (int, Value)| index_view(idx@)[q] == want[q] by {
                if q.0 == pos && q.1 != v {
                    lemma_bucket_set(before[pos as int]@, idx@[pos as int]@, v, b as int, q.1);
                }
            }
        }
    }
    assert(index_view(idx@) =~= want);
}

impl Relation {
    /// The empty relation.
    pub fn new() -> (r: Relation)
        ensures
            r@ == rel_empty(),
    {
        let r = Relation { rows: Vec::new(), idx: Vec::new(), pending: SortedSet::new() };
        assert(r@.rows =~= Seq::empty());
        assert(r@.idx =~= empty_index());
        r
    }

    /// The rows, in insertion order.
    pub fn rows(&self) -> (r: &Vec<Row>)
        ensures
            rows_view(r@) == self@.rows,
    {
        &self.rows
    }

    /// The tuples added since the last completed run.
    pub fn pending(&self) -> (r: &SortedSet<Vec<Value>>)
        ensures
            r@ == self@.pending,
    {
        &self.pending
    }

    /// The id of the row with the tuple.
    fn find(&self, args: &Vec<Value>) -> (r: Option<usize>)
        requires
            rel_wf(self@),
        ensures
            match r {
                Some(i) => has_key(self@, args@) && i == row_of(self@, args@) && i < self@.rows.len()
                    && self@.rows[i as int].key == args@,
                None => !has_key(self@, args@),
            },
            self.rows@.len() == self@.rows.len(),
    {
        let mut i: usize = 0;
        while i < self.rows.len()
            invariant
                i <= self.rows@.len(),
                rel_wf(self@),
                forall|j: int| 0 <= j < i ==> (#[trigger] self@.rows[j]).key != args@,
            decreases self.rows@.len() - i,
        {
            assert(self@.rows[i as int].key == self.rows@[i as int].key@);
            if same_key(&self.rows[i].key, args) {
                return Some(i);
            }
            i += 1;
        }
        None
    }

    fn index_row(&mut self, id: usize, key: &Vec<Value>)
        ensures
            final(self)@ == (RelV { idx: index_add(old(self)@.idx, id as int, key@, key@.len() as int), ..old(self)@ }),
            final(self).rows == old(self).rows,
            final(self).pending == old(self).pending,
    {
        let mut pos: usize = 0;
        let ghost start = self@.idx;
        assert(index_add(start, id as int, key@, 0) =~= start);
        while pos < key.len()
            invariant
                pos <= key@.len(),
                start == old(self)@.idx,
                self@.idx == index_add(start, id as int, key@, pos as int),
                self.rows == old(self).rows,
                self.pending == old(self).pending,
            decreases key@.len() - pos,
        {
            while self.idx.len() <= pos
                invariant
                    self@.idx == index_add(start, id as int, key@, pos as int),
                    self.rows == old(self).rows,
                    self.pending == old(self).pending,
                decreases pos + 1 - self.idx@.len(),
            {
                let ghost before = self.idx@;
                self.idx.push(Vec::new());
                assert(index_view(self.idx@) =~= index_view(before));
            }
            let ghost m = self@.idx;
            index_put(&mut self.idx, pos, key[pos], id);
            assert(self@.idx =~= index_add(start, id as int, key@, pos + 1));
            pos += 1;
        }
    }

    fn unindex_row(&mut self, id: usize)
        requires
            id < old(self)@.rows.len(),
        ensures
            final(self)@ == (RelV {
                idx: index_drop(
                    old(self)@.idx,
                    id as int,
                    old(self)@.rows[id as int].key,
                    old(self)@.rows[id as int].key.len() as int,
                ),
                ..old(self)@
            }),
            final(self).rows == old(self).rows,
            final(self).pending == old(self).pending,
    {
        let key = copy_key(&self.rows[id].key);
        let mut pos: usize = 0;
        let ghost start = self@.idx;
        assert(index_drop(start, id as int, key@, 0) =~= start);
        while pos < key.len()
            invariant
                pos <= key@.len(),
                start == old(self)@.idx,
                self@.idx == index_drop(start, id as int, key@, pos as int),
                self.rows == old(self).rows,
                self.pending == old(self).pending,
            decreases key@.len() - pos,
        {
            index_cut(&mut self.idx, pos, key[pos], id);
            assert(self@.idx =~= index_drop(start, id as int, key@, pos + 1));
            pos += 1;
        }
    }

    /// Inserts or merges; tells whether the tuple is new.
    pub fn insert(&mut self, args: Vec<Value>, f: StoredFact) -> (r: bool)
        requires
            rel_wf(old(self)@),
        ensures
            final(self)@ == rel_insert(old(self)@, args@, f@),
            r == !has_key(old(self)@, args@),
            rel_wf(final(self)@),
    {
        proof {
            lemma_insert_wf(self@, args@, f@);
        }
        match self.find(&args) {
            Some(id) => {
                let ghost rows0 = self@.rows;
                let StoredFact { ann, supports } = f;
                self.rows[id].fact.absorb(&ann, supports);
                assert(self@.rows =~= rel_merge(old(self)@, args@, f@).rows);
                false
            },
            None => {
                let id = self.rows.len();
                self.index_row(id, &args);
                self.pending.insert(copy_key(&args));
                self.rows.push(Row { key: args, fact: f });
                assert(self@.rows =~= old(self)@.rows.push(RowV { key: args@, fact: f@ }));
                true
            },
        }
    }

    /// Removes the tuple; tells whether it was there.
    pub fn remove(&mut self, args: &Vec<Value>) -> (r: bool)
        requires
            rel_wf(old(self)@),
        ensures
            final(self)@ == rel_remove(old(self)@, args@),
            r == has_key(old(self)@, args@),
            rel_wf(final(self)@),
    {
        proof {
            lemma_remove_wf(self@, args@);
        }
        match self.find(args) {
            None => false,
            Some(id) => {
                let last = self.rows.len() - 1;
                self.unindex_row(id);
                if id != last {
                    let moved = copy_key(&self.rows[last].key);
                    self.unindex_row(last);
                    let ghost rows0 = self@.rows;
                    let _ = self.rows.swap_remove(id);
                    assert(self@.rows =~= rows0.update(id as int, rows0[last as int]).drop_last());
                    self.index_row(id, &moved);
                } else {
                    let ghost rows0 = self@.rows;
                    let _ = self.rows.pop();
                    assert(self@.rows =~= rows0.drop_last());
                }
                true
            },
        }
    }

    /// Takes a tuple out of the pending set.
    pub fn forget_pending(&mut self, args: &Vec<Value>)
        ensures
            final(self)@ == (RelV { pending: old(self)@.pending.remove(args@), ..old(self)@ }),
    {
        self.pending.remove(args);
    }

    /// Empties the pending set.
    pub fn clear_pending(&mut self)
        ensures
            final(self)@ == (RelV { pending: Set::empty(), ..old(self)@ }),
    {
        self.pending = SortedSet::new();
    }

    /// Makes every tuple pending.
    pub fn mark_all_pending(&mut self)
        ensures
            final(self)@ == (RelV { pending: old(self)@.pending.union(key_set(old(self)@)), ..old(self)@ }),
    {
        let mut i: usize = 0;
        let ghost p0 = self.pending@;
        let ghost ks = self@.rows.map_values(|x: RowV| x.key);
        assert(p0.union(ks.take(0).to_set()) =~= p0);
        while i < self.rows.len()
            invariant
                i <= self.rows@.len(),
                self.rows == old(self).rows,
                self.idx == old(self).idx,
                ks == old(self)@.rows.map_values(|x: RowV| x.key),
                self.pending@ == p0.union(ks.take(i as int).to_set()),
            decreases self.rows@.len() - i,
        {
            self.pending.insert(copy_key(&self.rows[i].key));
            proof {
                assert(ks[i as int] == self.rows@[i as int].key@);
                assert(ks.take(i + 1) =~= ks.take(i as int).push(ks[i as int]));
                ks.take(i as int).lemma_push_to_set_commute(ks[i as int]);
                assert(self.pending@ =~= p0.union(ks.take(i + 1).to_set()));
            }
            i += 1;
        }
        assert(ks.take(ks.len() as int) =~= ks);
    }

    /// Clears all contents.
    pub fn clear(&mut self)
        ensures
            final(self)@ == rel_empty(),
    {
        *self = Relation::new();
    }

    /// Candidate row ids for a pattern: the rows indexed at the fixed
    /// position with the fewest rows, kept where every fixed value fits; all
    /// rows when nothing is fixed.
    pub fn lookup(&self, bound: &Vec<Option<Value>>) -> (r: Vec<usize>)
        requires
            rel_wf(self@),
        ensures
            ids_view(r@) == rel_lookup(self@, bound@),
    {
        let mut best: Option<(usize, usize)> = None;
        let mut pos: usize = 0;
        while pos < bound.len()
            invariant
                pos <= bound@.len(),
                !dead_end(self@, bound@, pos as int),
                match best {
                    Some((size, p)) => best_position(self@, bound@, pos as int) == Some(p as int) && p < pos
                        && bound@[p as int] is Some && size == bucket_at(self@, bound@, p as int).len(),
                    None => best_position(self@, bound@, pos as int) is None,
                },
            decreases bound@.len() - pos,
        {
            if let Some(v) = bound[pos] {
                let size = self.bucket_size(pos, v);
                if size == 0 {
                    assert(dead_end(self@, bound@, bound@.len() as int));
                    let none: Vec<usize> = Vec::new();
                    assert(ids_view(none@) =~= Seq::empty());
                    return none;
                }
                let better = match best {
                    Some((s, _)) => size < s,
                    None => true,
                };
                if better {
                    best = Some((size, pos));
                }
            }
            pos += 1;
        }
        match best {
            Some((_, p)) => self.filter_bucket(bound, p),
            None => {
                let mut r: Vec<usize> = Vec::new();
                let mut i: usize = 0;
                while i < self.rows.len()
                    invariant
                        i <= self.rows@.len(),
                        r@.len() == i,
                        forall|j: int| 0 <= j < i ==> r@[j] == j,
                    decreases self.rows@.len() - i,
                {
                    r.push(i);
                    i += 1;
                }
                assert(ids_view(r@) =~= Seq::new(self@.rows.len(), |i: int| i));
                r
            },
        }
    }

    fn bucket_size(&self, pos: usize, v: Value) -> (r: usize)
        ensures
            r == self@.idx[(pos as int, v)].len(),
    {
        if pos < self.idx.len() {
            let b = bucket_position(&self.idx[pos], v);
            if b < self.idx[pos].len() {
                return self.idx[pos][b].ids.len();
            }
        }
        0
    }

    fn filter_bucket(&self, bound: &Vec<Option<Value>>, pos: usize) -> (r: Vec<usize>)
        requires
            rel_wf(self@),
            pos < bound@.len(),
            bound@[pos as int] is Some,
        ensures
            ids_view(r@) == bucket_at(self@, bound@, pos as int).filter(fits_row(self@, bound@)),
    {
        let ghost keep = fits_row(self@, bound@);
        let ghost all = bucket_at(self@, bound@, pos as int);
        let mut r: Vec<usize> = Vec::new();
        assert(Seq::<int>::empty().filter(keep) =~= Seq::empty()) by {
            reveal(Seq::filter);
        }
        assert(ids_view(r@) =~= Seq::empty());
        let v = match bound[pos] {
            Some(v) => v,
            None => {
                return r;
            },
        };
        if pos >= self.idx.len() {
            return r;
        }
        let b = bucket_position(&self.idx[pos], v);
        if b >= self.idx[pos].len() {
            return r;
        }
        let ids = &self.idx[pos][b].ids;
        assert(all == ids_view(ids@));
        let mut i: usize = 0;
        assert(all.take(0) =~= Seq::empty());
        while i < ids.len()
            invariant
                rel_wf(self@),
                i <= ids@.len(),
                all == ids_view(ids@),
                all == self@.idx[(pos as int, v)],
                keep == fits_row(self@, bound@),
                ids_view(r@) == all.take(i as int).filter(keep),
            decreases ids@.len() - i,
        {
            let id = ids[i];
            assert(all.contains(all[i as int]));
            assert(0 <= id < self@.rows.len());
            proof {
                assert(all.take(i + 1) =~= all.take(i as int).push(all[i as int]));
                all.take(i as int).lemma_filter_push(all[i as int], keep);
            }
            if fits_pattern(bound, &self.rows[id].key) {
                let ghost before = r@;
                r.push(id);
                assert(ids_view(r@) =~= ids_view(before).push(id as int));
            }
            i += 1;
        }
        assert(all.take(ids@.len() as int) =~= all);
        r
    }

    /// If the tuple is there, merges the annotation and records the support
    /// while there is room; tells whether the tuple is there.
    pub fn merge_ann(&mut self, args: &Vec<Value>, ann: &Ann, support: Support) -> (r: bool)
        requires
            rel_wf(old(self)@),
        ensures
            r == has_key(old(self)@, args@),
            final(self)@ == (if r {
                rel_merge(old(self)@, args@, FactV { ann: ann@, supports: seq![support@] })
            } else {
                old(self)@
            }),
            rel_wf(final(self)@),
    {
        proof {
            lemma_insert_wf(self@, args@, FactV { ann: ann@, supports: seq![support@] });
        }
        match self.find(args) {
            Some(id) => {
                let mut more: Vec<Support> = Vec::new();
                more.push(support);
                assert(supports_view(more@) =~= seq![support@]);
                self.rows[id].fact.absorb(ann, more);
                assert(self@.rows =~= rel_merge(old(self)@, args@, FactV { ann: ann@, supports: seq![support@] }).rows);
                true
            },
            None => false,
        }
    }

    /// The fact with the given tuple.
    pub fn get(&self, args: &Vec<Value>) -> (r: Option<&StoredFact>)
        requires
            rel_wf(self@),
        ensures
            match r {
                Some(f) => has_key(self@, args@) && f@ == self@.rows[row_of(self@, args@)].fact,
                None => !has_key(self@, args@),
            },
    {
        match self.find(args) {
            Some(id) => Some(&self.rows[id].fact),
            None => None,
        }
    }

    /// Whether there is a fact with the given tuple.
    pub fn contains(&self, args: &Vec<Value>) -> (r: bool)
        requires
            rel_wf(self@),
        ensures
            r == has_key(self@, args@),
    {
        self.find(args).is_some()
    }

    /// How many facts there are.
    pub fn len(&self) -> (r: usize)
        ensures
            r == self@.rows.len(),
    {
        self.rows.len()
    }

    /// The tuples, in insertion order.
    pub fn keys(&self) -> (r: Vec<Vec<Value>>)
        ensures
            models(r@) == self@.rows.map_values(|x: RowV| x.key),
    {
        let mut r: Vec<Vec<Value>> = Vec::new();
        let mut i: usize = 0;
        while i < self.rows.len()
            invariant
                i <= self.rows@.len(),
                r@.len() == i,
                forall|j: int| 0 <= j < i ==> (#[trigger] r@[j])@ == self.rows@[j].key@,
            decreases self.rows@.len() - i,
        {
            r.push(copy_key(&self.rows[i].key));
            i += 1;
        }
        assert(models(r@) =~= self@.rows.map_values(|x: RowV| x.key));
        r
    }

    /// The set of tuples.
    pub fn key_set(&self) -> (r: SortedSet<Vec<Value>>)
        ensures
            r@ == key_set(self@),
    {
        let mut r: SortedSet<Vec<Value>> = SortedSet::new();
        let mut i: usize = 0;
        let ghost ks = self@.rows.map_values(|x: RowV| x.key);
        assert(ks.take(0).to_set() =~= Set::empty());
        while i < self.rows.len()
            invariant
                i <= self.rows@.len(),
                ks == self@.rows.map_values(|x: RowV| x.key),
                r@ == ks.take(i as int).to_set(),
            decreases self.rows@.len() - i,
        {
            r.insert(copy_key(&self.rows[i].key));
            proof {
                assert(ks[i as int] == self.rows@[i as int].key@);
                assert(ks.take(i + 1) =~= ks.take(i as int).push(ks[i as int]));
                ks.take(i as int).lemma_push_to_set_commute(ks[i as int]);
            }
            i += 1;
        }
        assert(ks.take(ks.len() as int) =~= ks);
        r
    }

    /// A copy.
    pub fn duplicate(&self) -> (r: Relation)
        ensures
            r@ == self@,
    {
        let mut rows: Vec<Row> = Vec::new();
        let mut i: usize = 0;
        while i < self.rows.len()
            invariant
                i <= self.rows@.len(),
                rows@.len() == i,
                forall|j: int| 0 <= j < i ==> (#[trigger] rows@[j])@ == self.rows@[j]@,
            decreases self.rows@.len() - i,
        {
            rows.push(Row { key: copy_key(&self.rows[i].key), fact: self.rows[i].fact.duplicate() });
            i += 1;
        }
        let idx = copy_index(&self.idx);
        let r = Relation { rows, idx, pending: self.pending.duplicate() };
        assert(r@.rows =~= self@.rows);
        r
    }
}

/// Whether the values that a pattern fixes are those of the tuple.
pub fn fits_pattern(bound: &Vec<Option<Value>>, key: &Vec<Value>) -> (r: bool)
    ensures
        r == fits(bound@, key@),
{
    let mut i: usize = 0;
    while i < bound.len() && i < key.len()
        invariant
            i <= bound@.len(),
            i <= key@.len(),
            forall|j: int| 0 <= j < i && (#[trigger] bound@[j]) is Some ==> bound@[j] == Some(key@[j]),
        decreases bound@.len() - i,
    {
        if let Some(v) = bound[i] {
            if v != key[i] {
                assert(bound@[i as int] is Some);
                return false;
            }
        }
        i += 1;
    }
    true
}

fn copy_index(idx: &Vec<Vec<Bucket>>) -> (r: Vec<Vec<Bucket>>)
    ensures
        index_view(r@) == index_view(idx@),
{
    let mut r: Vec<Vec<Bucket>> = Vec::new();
    let mut i: usize = 0;
    while i < idx.len()
        invariant
            i <= idx@.len(),
            r@.len() == i,
            forall|j: int, v: Value| 0 <= j < i ==> #[trigger] bucket_ids(r@[j]@, v) == bucket_ids(idx@[j]@, v),
        decreases idx@.len() - i,
    {
        r.push(copy_buckets(&idx[i]));
        i += 1;
    }
    assert(index_view(r@) =~= index_view(idx@));
    r
}

fn copy_buckets(bs: &Vec<Bucket>) -> (r: Vec<Bucket>)
    ensures
        forall|v: Value| #[trigger] bucket_ids(r@, v) == bucket_ids(bs@, v),
{
    let mut r: Vec<Bucket> = Vec::new();
    let mut i: usize = 0;
    while i < bs.len()
        invariant
            i <= bs@.len(),
            r@.len() == i,
            forall|j: int| 0 <= j < i ==> (#[trigger] r@[j]).value == bs@[j].value && r@[j].ids@ == bs@[j].ids@,
        decreases bs@.len() - i,
    {
        let mut ids: Vec<usize> = Vec::new();
        let mut k: usize = 0;
        while k < bs[i as usize].ids.len()
            invariant
                i < bs@.len(),
                k <= bs@[i as int].ids@.len(),
                ids@ == bs@[i as int].ids@.take(k as int),
            decreases bs@[i as int].ids@.len() - k,
        {
            ids.push(bs[i].ids[k]);
            assert(bs@[i as int].ids@.take(k + 1) =~= bs@[i as int].ids@.take(k as int).push(bs@[i as int].ids@[k as int]));
            k += 1;
        }
        assert(bs@[i as int].ids@.take(k as int) =~= bs@[i as int].ids@);
        r.push(Bucket { value: bs[i].value, ids });
        i += 1;
    }
    proof {
        assert forall|v: Value| #[trigger] bucket_ids(r@, v) == bucket_ids(bs@, v) by {
            lemma_same_buckets(r@, bs@, v);
        }
    }
    r
}

proof fn lemma_same_buckets(a: Seq<Bucket>, b: Seq<Bucket>, v: Value)
    requires
        a.len() == b.len(),
        forall|j: int| 0 <= j < a.len() ==> (#[trigger] a[j]).value == b[j].value && a[j].ids@ == b[j].ids@,
    ensures
        bucket_ids(a, v) == bucket_ids(b, v),
    decreases a.len(),
{
    if a.len() > 0 {
        assert(a[0].value == b[0].value);
        let a1 = a.drop_first();
        let b1 = b.drop_first();
        assert forall|j: int| 0 <= j < a1.len() implies (#[trigger] a1[j]).value == b1[j].value && a1[j].ids@ == b1[j].ids@ by {
            assert(a1[j] == a[j + 1] && b1[j] == b[j + 1]);
        }
        lemma_same_buckets(a1, b1, v);
    }
}

// --------------------------------------------------------- well-formedness

/// Removing a tuple keeps every other one.
pub proof fn lemma_remove_keys(r: RelV, key: Seq<Value>, other: Seq<Value>)
    requires
        rel_wf(r),
    ensures
        has_key(rel_remove(r, key), other) <==> has_key(r, other) && other != key,
{
    if has_key(r, key) {
        let id = row_of(r, key);
        let last = r.rows.len() - 1;
        let s = rel_remove(r, key);
        assert(r.rows[id].key == key);
        if has_key(s, other) {
            let i = choose|i: int| 0 <= i < s.rows.len() && (#[trigger] s.rows[i]).key == other;
            if i == id {
                assert(r.rows[last].key == other);
            } else {
                assert(r.rows[i].key == other);
            }
        }
        if has_key(r, other) && other != key {
            let i = choose|i: int| 0 <= i < r.rows.len() && (#[trigger] r.rows[i]).key == other;
            if i == last {
                assert(s.rows[id].key == other);
            } else {
                assert(s.rows[i].key == other);
            }
        }
    }
}

/// In a well-formed relation the candidates for a pattern are distinct rows.
/// Each fits the pattern as far as it reaches, and a row that reaches every
/// fixed position and fits is among them.
pub proof fn lemma_lookup(r: RelV, bound: Seq<Option<Value>>)
    requires
        rel_wf(r),
    ensures
        rel_lookup(r, bound).no_duplicates(),
        forall|id: int| #[trigger]
            rel_lookup(r, bound).contains(id) ==> 0 <= id < r.rows.len() && fits(bound, r.rows[id].key),
        forall|id: int|
            0 <= id < r.rows.len() && fits_fully(bound, r.rows[id].key) ==> #[trigger] rel_lookup(r, bound).contains(id),
        forall|k: int| 0 <= k < rel_lookup(r, bound).len() ==> 0 <= #[trigger] rel_lookup(r, bound)[k] < r.rows.len(),
{
    let n = bound.len() as int;
    let got = rel_lookup(r, bound);
    if dead_end(r, bound, n) {
        let pos = choose|pos: int| 0 <= pos < n && (#[trigger] bound[pos]) is Some && bucket_at(r, bound, pos).len() == 0;
        assert forall|id: int| 0 <= id < r.rows.len() implies !fits_fully(bound, r.rows[id].key) by {
            let p = (pos, bound[pos].unwrap());
            if fits_fully(bound, r.rows[id].key) {
                assert(bound[pos] is Some);
                assert(holds_at(r.rows[id].key, p));
                assert(r.idx[p].contains(id));
            }
        }
    } else {
        lemma_best_position(r, bound, n);
        match best_position(r, bound, n) {
            Some(pos) => {
                let all = bucket_at(r, bound, pos);
                let f = fits_row(r, bound);
                let p = (pos, bound[pos].unwrap());
                assert(all.no_duplicates());
                lemma_filter_no_duplicates(all, f);
                assert forall|id: int| #[trigger] got.contains(id) implies 0 <= id < r.rows.len() && fits(
                    bound,
                    r.rows[id].key,
                ) by {
                    assert(r.idx[p].contains(id) <==> (0 <= id < r.rows.len() && holds_at(r.rows[id].key, p)));
                    let k = choose|k: int| 0 <= k < got.len() && got[k] == id;
                    all.lemma_filter_pred(f, k);
                    all.lemma_filter_contains_rev(f, id);
                }
                assert forall|id: int| 0 <= id < r.rows.len() && fits_fully(bound, r.rows[id].key) implies #[trigger] got.contains(
                    id,
                ) by {
                    assert(bound[pos] is Some);
                    assert(holds_at(r.rows[id].key, p));
                    assert(r.idx[p].contains(id));
                    let k = choose|k: int| 0 <= k < all.len() && all[k] == id;
                    assert(f(all[k]));
                    all.lemma_filter_contains(f, k);
                }
            },
            None => {
                assert forall|id: int| 0 <= id < r.rows.len() implies #[trigger] got.contains(id) by {
                    assert(got[id] == id);
                }
            },
        }
    }
    assert forall|k: int| 0 <= k < got.len() implies 0 <= #[trigger] got[k] < r.rows.len() by {
        assert(got.contains(got[k]));
    }
}

/// The tuple reaches every position that the pattern fixes, and holds the
/// fixed value there.
pub open spec fn fits_fully(bound: Seq<Option<Value>>, key: Seq<Value>) -> bool {
    forall|i: int| 0 <= i < bound.len() && (#[trigger] bound[i]) is Some ==> i < key.len() && bound[i] == Some(key[i])
}

proof fn lemma_best_position(r: RelV, bound: Seq<Option<Value>>, n: int)
    requires
        0 <= n <= bound.len(),
    ensures
        match best_position(r, bound, n) {
            Some(p) => 0 <= p < n && bound[p] is Some,
            None => forall|i: int| 0 <= i < n ==> (#[trigger] bound[i]) is None,
        },
    decreases n,
{
    if n > 0 {
        lemma_best_position(r, bound, n - 1);
    }
}

/// The empty relation is well formed.
pub proof fn lemma_empty_wf()
    ensures
        rel_wf(rel_empty()),
{
}

/// Asserting a fact keeps a relation well formed.
pub proof fn lemma_insert_wf(r: RelV, key: Seq<Value>, f: FactV)
    requires
        rel_wf(r),
    ensures
        rel_wf(rel_insert(r, key, f)),
{
    let s = rel_insert(r, key, f);
    if has_key(r, key) {
        let i = row_of(r, key);
        assert forall|a: int| 0 <= a < r.rows.len() implies (#[trigger] s.rows[a]).key == r.rows[a].key by {}
    } else {
        let n = r.rows.len() as int;
        assert forall|p: (int, Value)| (#[trigger] s.idx[p]).no_duplicates() by {
            assert(r.idx[p].no_duplicates());
            if r.idx[p].contains(n) {
                assert(false);
            }
        }
        assert forall|p: (int, Value), id: int|
            #[trigger] s.idx[p].contains(id) <==> (0 <= id < s.rows.len() && holds_at(s.rows[id].key, p)) by {
            assert(r.idx[p].contains(id) <==> (0 <= id < r.rows.len() && holds_at(r.rows[id].key, p)));
            if holds_at(key, p) {
                assert(s.idx[p] == r.idx[p].push(n));
                assert(s.idx[p].last() == n);
                if r.idx[p].contains(id) {
                    let k = choose|k: int| 0 <= k < r.idx[p].len() && r.idx[p][k] == id;
                    assert(s.idx[p][k] == id);
                }
                if s.idx[p].contains(id) && id != n {
                    let k = choose|k: int| 0 <= k < s.idx[p].len() && s.idx[p][k] == id;
                    assert(r.idx[p][k] == id);
                }
            }
        }
    }
}

proof fn lemma_filter_other(s: Seq<int>, id: int)
    requires
        s.no_duplicates(),
    ensures
        s.filter(other_than(id)).no_duplicates(),
        forall|x: int| #[trigger] s.filter(other_than(id)).contains(x) <==> s.contains(x) && x != id,
{
    let f = other_than(id);
    let t = s.filter(f);
    broadcast use Seq::lemma_filter_pred;
    broadcast use Seq::lemma_filter_contains;
    broadcast use Seq::lemma_filter_contains_rev;
    lemma_filter_no_duplicates(s, f);
    assert forall|x: int| #[trigger] t.contains(x) <==> s.contains(x) && x != id by {
        if t.contains(x) {
            let k = choose|k: int| 0 <= k < t.len() && t[k] == x;
            s.lemma_filter_pred(f, k);
            s.lemma_filter_contains_rev(f, x);
        }
        if s.contains(x) && x != id {
            let k = choose|k: int| 0 <= k < s.len() && s[k] == x;
            s.lemma_filter_contains(f, k);
        }
    }
}

pub proof fn lemma_filter_no_duplicates(s: Seq<int>, f: spec_fn(int) -> bool)
    requires
        s.no_duplicates(),
    ensures
        s.filter(f).no_duplicates(),
    decreases s.len(),
{
    reveal(Seq::filter);
    if s.len() > 0 {
        let t = s.drop_last();
        lemma_filter_no_duplicates(t, f);
        if t.filter(f).contains(s.last()) {
            t.lemma_filter_contains_rev(f, s.last());
            let k = choose|k: int| 0 <= k < t.len() && t[k] == s.last();
            assert(s[k] == s[s.len() - 1]);
        }
    }
}

/// Removing a tuple keeps a relation well formed.
pub proof fn lemma_remove_wf(r: RelV, key: Seq<Value>)
    requires
        rel_wf(r),
    ensures
        rel_wf(rel_remove(r, key)),
{
    let s = rel_remove(r, key);
    if has_key(r, key) {
        let id = row_of(r, key);
        let last = r.rows.len() - 1;
        let moved = r.rows[last].key;
        let without = index_drop(r.idx, id, key, key.len() as int);
        assert forall|p: (int, Value)| (#[trigger] without[p]).no_duplicates() && forall|x: int| #[trigger]
            without[p].contains(x) <==> r.idx[p].contains(x) && x != id by {
            lemma_filter_other(r.idx[p], id);
            assert(r.idx[p].contains(id) <==> holds_at(key, p));
        }
        let w2 = index_drop(without, last, moved, moved.len() as int);
        assert forall|p: (int, Value)| (#[trigger] w2[p]).no_duplicates() && forall|x: int| #[trigger]
            w2[p].contains(x) <==> without[p].contains(x) && x != last by {
            assert(without[p].no_duplicates());
            lemma_filter_other(without[p], last);
            assert(r.idx[p].contains(last) <==> holds_at(moved, p));
        }
        if id != last {
            assert forall|p: (int, Value)| (#[trigger] s.idx[p]).no_duplicates() by {
                assert(w2[p].no_duplicates());
                assert(!without[p].contains(id));
                assert(!w2[p].contains(id));
            }
            assert forall|p: (int, Value), x: int|
                #[trigger] s.idx[p].contains(x) <==> (0 <= x < s.rows.len() && holds_at(s.rows[x].key, p)) by {
                assert(w2[p].contains(x) <==> without[p].contains(x) && x != last);
                assert(without[p].contains(x) <==> r.idx[p].contains(x) && x != id);
                assert(r.idx[p].contains(x) <==> (0 <= x < r.rows.len() && holds_at(r.rows[x].key, p)));
                if holds_at(moved, p) {
                    assert(s.idx[p] == w2[p].push(id));
                    assert(s.idx[p].last() == id);
                    if w2[p].contains(x) {
                        let k = choose|k: int| 0 <= k < w2[p].len() && w2[p][k] == x;
                        assert(s.idx[p][k] == x);
                    }
                    if s.idx[p].contains(x) && x != id {
                        let k = choose|k: int| 0 <= k < s.idx[p].len() && s.idx[p][k] == x;
                        assert(w2[p][k] == x);
                    }
                }
            }
        } else {
            assert forall|p: (int, Value)| (#[trigger] s.idx[p]).no_duplicates() by {
                assert(without[p].no_duplicates());
            }
            assert forall|p: (int, Value), x: int|
                #[trigger] s.idx[p].contains(x) <==> (0 <= x < s.rows.len() && holds_at(s.rows[x].key, p)) by {
                assert(without[p].contains(x) <==> r.idx[p].contains(x) && x != id);
                assert(r.idx[p].contains(x) <==> (0 <= x < r.rows.len() && holds_at(r.rows[x].key, p)));
            }
        }
    }
}

// ------------------------------------------------------- facts as set items

/// Facts are ordered by predicate, then by tuple.
pub open spec fn fact_before(a: KeyV, b: KeyV) -> bool {
    <String as Item>::before(a.0, b.0) || (a.0 == b.0 && <Vec<Value> as Item>::before(a.1, b.1))
}

impl Item for (String, Vec<Value>) {
    type V = KeyV;

    open spec fn model(&self) -> KeyV {
        self@
    }

    open spec fn before(a: KeyV, b: KeyV) -> bool {
        fact_before(a, b)
    }

    proof fn before_irreflexive(a: KeyV) {
        <String as Item>::before_irreflexive(a.0);
        <Vec<Value> as Item>::before_irreflexive(a.1);
    }

    proof fn before_transitive(a: KeyV, b: KeyV, c: KeyV) {
        if <String as Item>::before(a.0, b.0) && <String as Item>::before(b.0, c.0) {
            <String as Item>::before_transitive(a.0, b.0, c.0);
        }
        if <Vec<Value> as Item>::before(a.1, b.1) && <Vec<Value> as Item>::before(b.1, c.1) {
            <Vec<Value> as Item>::before_transitive(a.1, b.1, c.1);
        }
    }

    proof fn before_total(a: KeyV, b: KeyV) {
        <String as Item>::before_total(a.0, b.0);
        <Vec<Value> as Item>::before_total(a.1, b.1);
    }

    fn less(&self, other: &Self) -> (r: bool) {
        self.0.less(&other.0) || (self.0.same(&other.0) && self.1.less(&other.1))
    }

    fn same(&self, other: &Self) -> (r: bool) {
        self.0.same(&other.0) && self.1.same(&other.1)
    }

    fn duplicate(&self) -> (r: Self) {
        copy_pair(self)
    }
}

} // verus!

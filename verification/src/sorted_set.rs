//! Ordered sets: the elements are kept strictly ascending, so that iteration
//! order is a function of the set alone.

use vstd::prelude::*;

verus! {

/// Values with a strict total order on their models.
pub trait Item: Sized {
    type V;

    /// The mathematical value.
    spec fn model(&self) -> Self::V;

    /// The strict order.
    spec fn before(a: Self::V, b: Self::V) -> bool;

    proof fn before_irreflexive(a: Self::V)
        ensures
            !Self::before(a, a),
    ;

    proof fn before_transitive(a: Self::V, b: Self::V, c: Self::V)
        requires
            Self::before(a, b),
            Self::before(b, c),
        ensures
            Self::before(a, c),
    ;

    proof fn before_total(a: Self::V, b: Self::V)
        ensures
            Self::before(a, b) || a == b || Self::before(b, a),
    ;

    fn less(&self, other: &Self) -> (r: bool)
        ensures
            r == Self::before(self.model(), other.model()),
    ;

    fn same(&self, other: &Self) -> (r: bool)
        ensures
            r == (self.model() == other.model()),
    ;

    fn duplicate(&self) -> (r: Self)
        ensures
            r.model() == self.model(),
    ;
}

/// The models of a sequence of elements.
pub open spec fn models<T: Item>(s: Seq<T>) -> Seq<T::V> {
    s.map_values(|x: T| x.model())
}

/// Every element comes before all later ones.
pub open spec fn ascending<T: Item>(q: Seq<T::V>) -> bool {
    forall|i: int, j: int| 0 <= i < j < q.len() ==> T::before(#[trigger] q[i], #[trigger] q[j])
}

/// The ascending enumeration of a finite set.
pub open spec fn enumerate<T: Item>(s: Set<T::V>) -> Seq<T::V> {
    choose|q: Seq<T::V>| ascending::<T>(q) && #[trigger] q.to_set() == s
}

/// Two ascending sequences with the same elements are equal.
pub proof fn ascending_unique<T: Item>(p: Seq<T::V>, q: Seq<T::V>)
    requires
        ascending::<T>(p),
        ascending::<T>(q),
        p.to_set() == q.to_set(),
    ensures
        p == q,
    decreases p.len(),
{
    if p.len() == 0 {
        if q.len() > 0 {
            assert(q.to_set().contains(q[0]));
            assert(p.to_set().contains(q[0]));
        }
        assert(p =~= q);
    } else {
        assert(p.to_set().contains(p[0]));
        let k = choose|k: int| 0 <= k < q.len() && q[k] == p[0];
        assert(q.to_set().contains(q[0]));
        let m = choose|m: int| 0 <= m < p.len() && p[m] == q[0];
        if k > 0 {
            assert(T::before(q[0], q[k]));
            if m > 0 {
                assert(T::before(p[0], p[m]));
                T::before_transitive(p[0], q[0], p[0]);
            }
            T::before_irreflexive(p[0]);
        }
        let p1 = p.drop_first();
        let q1 = q.drop_first();
        assert(ascending::<T>(p1)) by {
            assert forall|i: int, j: int| 0 <= i < j < p1.len() implies T::before(#[trigger] p1[i], #[trigger] p1[j]) by {
                assert(p1[i] == p[i + 1] && p1[j] == p[j + 1]);
            }
        }
        assert(ascending::<T>(q1)) by {
            assert forall|i: int, j: int| 0 <= i < j < q1.len() implies T::before(#[trigger] q1[i], #[trigger] q1[j]) by {
                assert(q1[i] == q[i + 1] && q1[j] == q[j + 1]);
            }
        }
        assert forall|x: T::V| p1.to_set().contains(x) <==> q1.to_set().contains(x) by {
            if p1.to_set().contains(x) {
                let i = choose|i: int| 0 <= i < p1.len() && p1[i] == x;
                assert(p[i + 1] == x && p.to_set().contains(x));
                assert(q.to_set().contains(x));
                let j = choose|j: int| 0 <= j < q.len() && q[j] == x;
                if j == 0 {
                    assert(T::before(p[0], p[i + 1]));
                    T::before_irreflexive(x);
                }
                assert(q1[j - 1] == x);
            }
            if q1.to_set().contains(x) {
                let i = choose|i: int| 0 <= i < q1.len() && q1[i] == x;
                assert(q[i + 1] == x && q.to_set().contains(x));
                assert(p.to_set().contains(x));
                let j = choose|j: int| 0 <= j < p.len() && p[j] == x;
                if j == 0 {
                    assert(T::before(q[0], q[i + 1]));
                    T::before_irreflexive(x);
                }
                assert(p1[j - 1] == x);
            }
        }
        assert(p1.to_set() =~= q1.to_set());
        ascending_unique::<T>(p1, q1);
        assert(p =~= seq![p[0]] + p1);
        assert(q =~= seq![q[0]] + q1);
    }
}

/// An ascending sequence is the enumeration of its own set.
pub proof fn enumerate_of<T: Item>(q: Seq<T::V>)
    requires
        ascending::<T>(q),
    ensures
        enumerate::<T>(q.to_set()) == q,
{
    let e = enumerate::<T>(q.to_set());
    assert(ascending::<T>(q) && q.to_set() == q.to_set());
    ascending_unique::<T>(e, q);
}

/// A sequence with an item at its place in the order.
spec fn with_item<T: Item>(q: Seq<T::V>, x: T::V) -> Seq<T::V>
    decreases q.len(),
{
    if q.len() == 0 || T::before(x, q[0]) {
        seq![x] + q
    } else {
        seq![q[0]] + with_item::<T>(q.drop_first(), x)
    }
}

proof fn lemma_with_item<T: Item>(q: Seq<T::V>, x: T::V)
    requires
        ascending::<T>(q),
        !q.contains(x),
    ensures
        ascending::<T>(with_item::<T>(q, x)),
        with_item::<T>(q, x).to_set() == q.to_set().insert(x),
    decreases q.len(),
{
    let w = with_item::<T>(q, x);
    if q.len() == 0 || T::before(x, q[0]) {
        assert forall|i: int, j: int| 0 <= i < j < w.len() implies T::before(#[trigger] w[i], #[trigger] w[j]) by {
            assert(w[j] == q[j - 1]);
            if i == 0 {
                if j > 1 {
                    T::before_transitive(x, q[0], q[j - 1]);
                }
            } else {
                assert(w[i] == q[i - 1]);
            }
        }
        assert forall|y: T::V| w.to_set().contains(y) <==> q.to_set().insert(x).contains(y) by {
            if w.to_set().contains(y) {
                let i = choose|i: int| 0 <= i < w.len() && w[i] == y;
                if i > 0 {
                    assert(q[i - 1] == y);
                }
            }
            if q.to_set().contains(y) {
                let i = choose|i: int| 0 <= i < q.len() && q[i] == y;
                assert(w[i + 1] == y);
            }
            assert(w[0] == x);
        }
        assert(w.to_set() =~= q.to_set().insert(x));
    } else {
        let d = q.drop_first();
        assert forall|i: int, j: int| 0 <= i < j < d.len() implies T::before(#[trigger] d[i], #[trigger] d[j]) by {
            assert(d[i] == q[i + 1] && d[j] == q[j + 1]);
        }
        assert(!d.contains(x)) by {
            if d.contains(x) {
                let i = choose|i: int| 0 <= i < d.len() && d[i] == x;
                assert(q[i + 1] == x);
            }
        }
        lemma_with_item::<T>(d, x);
        let r = with_item::<T>(d, x);
        assert(q[0] != x) by {
            assert(q.contains(q[0]));
        }
        T::before_total(x, q[0]);
        assert forall|i: int, j: int| 0 <= i < j < w.len() implies T::before(#[trigger] w[i], #[trigger] w[j]) by {
            assert(w[j] == r[j - 1]);
            if i == 0 {
                assert(r.to_set().contains(r[j - 1]));
                if r[j - 1] != x {
                    assert(d.to_set().contains(r[j - 1]));
                    let k = choose|k: int| 0 <= k < d.len() && d[k] == r[j - 1];
                    assert(q[k + 1] == r[j - 1]);
                    assert(T::before(q[0], q[k + 1]));
                }
            } else {
                assert(w[i] == r[i - 1]);
            }
        }
        assert forall|y: T::V| w.to_set().contains(y) <==> q.to_set().insert(x).contains(y) by {
            if w.to_set().contains(y) {
                let i = choose|i: int| 0 <= i < w.len() && w[i] == y;
                if i > 0 {
                    assert(r[i - 1] == y);
                    assert(r.to_set().contains(y));
                    if y != x {
                        let k = choose|k: int| 0 <= k < d.len() && d[k] == y;
                        assert(q[k + 1] == y);
                    }
                } else {
                    assert(q[0] == y);
                }
            }
            if q.to_set().insert(x).contains(y) {
                if y == x {
                    assert(r.to_set().contains(x));
                    let k = choose|k: int| 0 <= k < r.len() && r[k] == x;
                    assert(w[k + 1] == x);
                } else {
                    let k = choose|k: int| 0 <= k < q.len() && q[k] == y;
                    if k == 0 {
                        assert(w[0] == y);
                    } else {
                        assert(d[k - 1] == y);
                        assert(d.to_set().contains(y));
                        assert(r.to_set().contains(y));
                        let m = choose|m: int| 0 <= m < r.len() && r[m] == y;
                        assert(w[m + 1] == y);
                    }
                }
            }
        }
        assert(w.to_set() =~= q.to_set().insert(x));
    }
}

/// A finite set has an enumeration.
pub proof fn lemma_enumerable<T: Item>(s: Set<T::V>)
    requires
        s.finite(),
    ensures
        ascending::<T>(enumerate::<T>(s)),
        enumerate::<T>(s).to_set() == s,
    decreases s.len(),
{
    if s.len() == 0 {
        let q = Seq::<T::V>::empty();
        assert(q.to_set() =~= s);
        assert(ascending::<T>(q));
    } else {
        let x = s.choose();
        let r = s.remove(x);
        lemma_enumerable::<T>(r);
        let q = enumerate::<T>(r);
        assert(!q.contains(x)) by {
            if q.contains(x) {
                assert(q.to_set().contains(x));
            }
        }
        lemma_with_item::<T>(q, x);
        assert(r.insert(x) =~= s);
        assert(ascending::<T>(with_item::<T>(q, x)) && with_item::<T>(q, x).to_set() == s);
    }
}

/// A finite set of items.
#[derive(Debug)]
pub struct SortedSet<T: Item> {
    items: Vec<T>,
}

impl<T: Item> View for SortedSet<T> {
    type V = Set<T::V>;

    closed spec fn view(&self) -> Set<T::V> {
        models(self.items@).to_set()
    }
}

impl<T: Item> SortedSet<T> {
    #[verifier::type_invariant]
    spec fn ordered(self) -> bool {
        ascending::<T>(models(self.items@))
    }

    /// The empty set.
    pub fn new() -> (r: Self)
        ensures
            r@ == Set::<T::V>::empty(),
    {
        let r = SortedSet { items: Vec::new() };
        assert(r@ =~= Set::empty());
        r
    }

    /// The elements in ascending order.
    pub fn items(&self) -> (r: &Vec<T>)
        ensures
            models(r@) == enumerate::<T>(self@),
            models(r@).to_set() == self@,
            ascending::<T>(models(r@)),
            self@.finite(),
    {
        proof {
            use_type_invariant(self);
            enumerate_of::<T>(models(self.items@));
            vstd::seq_lib::seq_to_set_is_finite(models(self.items@));
        }
        &self.items
    }

    /// How many items there are.
    pub fn len(&self) -> (r: usize)
        ensures
            r == self@.len(),
            r == enumerate::<T>(self@).len(),
            self@.finite(),
    {
        proof {
            use_type_invariant(self);
            let m = models(self.items@);
            enumerate_of::<T>(m);
            assert(m.no_duplicates()) by {
                assert forall|i: int, j: int| 0 <= i < m.len() && 0 <= j < m.len() && i != j implies m[i] != m[j] by {
                    T::before_irreflexive(m[i]);
                    if i < j {
                        assert(T::before(m[i], m[j]));
                    } else {
                        assert(T::before(m[j], m[i]));
                    }
                }
            }
            vstd::seq_lib::seq_to_set_is_finite(m);
            m.unique_seq_to_set();
        }
        self.items.len()
    }

    /// Whether there are no items.
    pub fn is_empty(&self) -> (r: bool)
        ensures
            r == (self@ == Set::<T::V>::empty()),
    {
        proof {
            use_type_invariant(self);
            let m = models(self.items@);
            if m.len() > 0 {
                assert(m.to_set().contains(m[0]));
            } else {
                assert(m.to_set() =~= Set::empty());
            }
        }
        self.items.len() == 0
    }

    /// The first position whose element does not come before `x`.
    fn position(&self, x: &T) -> (r: usize)
        ensures
            r <= self.items@.len(),
            forall|i: int| 0 <= i < r ==> T::before(#[trigger] models(self.items@)[i], x.model()),
            forall|i: int| r <= i < self.items@.len() ==> !T::before(#[trigger] models(self.items@)[i], x.model()),
            self@.contains(x.model()) <==> (r < self.items@.len() && models(self.items@)[r as int] == x.model()),
    {
        proof {
            use_type_invariant(self);
        }
        let mut lo: usize = 0;
        let mut hi: usize = self.items.len();
        let ghost m = models(self.items@);
        while lo < hi
            invariant
                lo <= hi <= self.items@.len(),
                m == models(self.items@),
                ascending::<T>(m),
                forall|i: int| 0 <= i < lo ==> T::before(#[trigger] m[i], x.model()),
                forall|i: int| hi <= i < m.len() ==> !T::before(#[trigger] m[i], x.model()),
            decreases hi - lo,
        {
            let mid: usize = lo + (hi - lo) / 2;
            if self.items[mid].less(x) {
                proof {
                    assert forall|i: int| 0 <= i < mid + 1 implies T::before(#[trigger] m[i], x.model()) by {
                        if i < mid {
                            T::before_transitive(m[i], m[mid as int], x.model());
                        }
                    }
                }
                lo = mid + 1;
            } else {
                proof {
                    assert forall|i: int| mid <= i < m.len() implies !T::before(#[trigger] m[i], x.model()) by {
                        if i > mid && T::before(m[i], x.model()) {
                            T::before_transitive(m[mid as int], m[i], x.model());
                        }
                    }
                }
                hi = mid;
            }
        }
        proof {
            if self@.contains(x.model()) {
                let k = choose|k: int| 0 <= k < m.len() && m[k] == x.model();
                T::before_irreflexive(x.model());
                if k > lo {
                    assert(T::before(m[lo as int], m[k]));
                }
            }
        }
        lo
    }

    /// Whether an item is in the set.
    pub fn contains(&self, x: &T) -> (r: bool)
        ensures
            r == self@.contains(x.model()),
    {
        let i = self.position(x);
        i < self.items.len() && self.items[i].same(x)
    }

    /// Adds an element; tells whether it is new.
    pub fn insert(&mut self, x: T) -> (r: bool)
        ensures
            final(self)@ == old(self)@.insert(x.model()),
            r == !old(self)@.contains(x.model()),
    {
        proof {
            use_type_invariant(&*self);
        }
        let i = self.position(&x);
        if i < self.items.len() && self.items[i].same(&x) {
            assert(self@ =~= old(self)@.insert(x.model()));
            return false;
        }
        let mut items: Vec<T> = Vec::new();
        std::mem::swap(&mut items, &mut self.items);
        let ghost m = models(items@);
        let ghost xv = x.model();
        items.insert(i, x);
        proof {
            let n = models(items@);
            assert(n =~= m.insert(i as int, xv));
            assert forall|a: int, b: int| 0 <= a < b < n.len() implies T::before(#[trigger] n[a], #[trigger] n[b]) by {
                let a0 = if a < i { a } else { a - 1 };
                let b0 = if b < i { b } else { b - 1 };
                if a == i {
                    T::before_total(m[b0], xv);
                    assert(!T::before(m[b0], xv));
                    if m[b0] == xv {
                        assert(b0 == i) by {
                            if b0 > i {
                                assert(T::before(m[i as int], m[b0]));
                            }
                        }
                    }
                } else if b == i {
                    assert(T::before(m[a0], xv));
                } else {
                    assert(T::before(m[a0], m[b0]));
                }
            }
            assert forall|y: T::V| n.to_set().contains(y) <==> m.to_set().insert(xv).contains(y) by {
                if n.to_set().contains(y) {
                    let k = choose|k: int| 0 <= k < n.len() && n[k] == y;
                    if k < i {
                        assert(m[k] == y);
                    } else if k > i {
                        assert(m[k - 1] == y);
                    }
                }
                if y == xv {
                    assert(n[i as int] == xv);
                } else if m.to_set().contains(y) {
                    let k = choose|k: int| 0 <= k < m.len() && m[k] == y;
                    if k < i {
                        assert(n[k] == y);
                    } else {
                        assert(n[k + 1] == y);
                    }
                }
            }
            assert(n.to_set() =~= m.to_set().insert(xv));
        }
        self.items = items;
        true
    }

    /// Takes an element out; tells whether it was there.
    pub fn remove(&mut self, x: &T) -> (r: bool)
        ensures
            final(self)@ == old(self)@.remove(x.model()),
            r == old(self)@.contains(x.model()),
    {
        proof {
            use_type_invariant(&*self);
        }
        let i = self.position(x);
        if !(i < self.items.len() && self.items[i].same(x)) {
            assert(self@ =~= old(self)@.remove(x.model()));
            return false;
        }
        let mut items: Vec<T> = Vec::new();
        std::mem::swap(&mut items, &mut self.items);
        let ghost m = models(items@);
        let _ = items.remove(i);
        proof {
            let n = models(items@);
            assert(n =~= m.remove(i as int));
            assert forall|a: int, b: int| 0 <= a < b < n.len() implies T::before(#[trigger] n[a], #[trigger] n[b]) by {
                let a0 = if a < i { a } else { a + 1 };
                let b0 = if b < i { b } else { b + 1 };
                assert(T::before(m[a0], m[b0]));
            }
            assert forall|y: T::V| n.to_set().contains(y) <==> m.to_set().remove(x.model()).contains(y) by {
                if n.to_set().contains(y) {
                    let k = choose|k: int| 0 <= k < n.len() && n[k] == y;
                    let k0 = if k < i { k } else { k + 1 };
                    assert(m[k0] == y);
                    T::before_irreflexive(y);
                    if k0 < i {
                        assert(T::before(m[k0], m[i as int]));
                    } else {
                        assert(T::before(m[i as int], m[k0]));
                    }
                }
                if m.to_set().remove(x.model()).contains(y) {
                    let k = choose|k: int| 0 <= k < m.len() && m[k] == y;
                    if k < i {
                        assert(n[k] == y);
                    } else {
                        assert(n[k - 1] == y);
                    }
                }
            }
            assert(n.to_set() =~= m.to_set().remove(x.model()));
        }
        self.items = items;
        true
    }

    /// Adds every element of `other`.
    pub fn union_with(&mut self, other: &SortedSet<T>)
        ensures
            final(self)@ == old(self)@.union(other@),
    {
        let v = other.items();
        let ghost start = self@;
        let mut i: usize = 0;
        while i < v.len()
            invariant
                i <= v@.len(),
                self@ == start.union(models(v@).take(i as int).to_set()),
            decreases v@.len() - i,
        {
            self.insert(v[i].duplicate());
            proof {
                let m = models(v@);
                assert(m.take(i + 1) =~= m.take(i as int).push(m[i as int]));
                m.take(i as int).lemma_push_to_set_commute(m[i as int]);
                assert(self@ =~= start.union(m.take(i + 1).to_set()));
            }
            i += 1;
        }
        assert(models(v@).take(v@.len() as int) =~= models(v@));
        assert(start.union(models(v@).take(0).to_set()) =~= start);
    }

    /// A copy.
    pub fn duplicate(&self) -> (r: Self)
        ensures
            r@ == self@,
    {
        let mut r = SortedSet::<T>::new();
        r.union_with(self);
        assert(r@ =~= self@);
        r
    }

    /// Whether the two sets have the same elements.
    pub fn equal(&self, other: &SortedSet<T>) -> (r: bool)
        ensures
            r == (self@ == other@),
    {
        let a = self.items();
        let b = other.items();
        assert(models(a@).len() == a@.len() && models(b@).len() == b@.len());
        if a.len() != b.len() {
            return false;
        }
        let mut i: usize = 0;
        while i < a.len()
            invariant
                a@.len() == b@.len(),
                i <= a@.len(),
                forall|k: int| 0 <= k < i ==> models(a@)[k] == models(b@)[k],
                models(a@) == enumerate::<T>(self@),
                models(b@) == enumerate::<T>(other@),
            decreases a@.len() - i,
        {
            if !a[i].same(&b[i]) {
                assert(models(a@)[i as int] != models(b@)[i as int]);
                return false;
            }
            i += 1;
        }
        assert(models(a@) =~= models(b@));
        true
    }
}

} // verus!

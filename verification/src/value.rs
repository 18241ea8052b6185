//! Constants, terms and the symbol table.

use vstd::prelude::*;
use crate::sorted_set::Item;

verus! {

/// An interned symbol.
#[derive(Debug, Clone, Copy, PartialEq, Eq, Structural, Hash)]
pub struct Sym(pub usize);

/// A constant: an interned symbol or an integer.
#[derive(Debug, Clone, Copy, PartialEq, Eq, Structural, Hash)]
pub enum Value {
    Sym(Sym),
    Int(i64),
}

/// Symbols come before integers; each kind is ordered by its number.
pub open spec fn value_before(a: Value, b: Value) -> bool {
    match (a, b) {
        (Value::Sym(x), Value::Sym(y)) => x.0 < y.0,
        (Value::Sym(_), Value::Int(_)) => true,
        (Value::Int(_), Value::Sym(_)) => false,
        (Value::Int(x), Value::Int(y)) => x < y,
    }
}

impl Value {
    /// The number, for an integer.
    pub fn as_int(&self) -> (r: Option<i64>)
        ensures
            r == as_int(*self),
    {
        match self {
            Value::Int(i) => Some(*i),
            Value::Sym(_) => None,
        }
    }

    /// Whether `self` is ordered before `other`.
    pub fn is_before(&self, other: &Value) -> (r: bool)
        ensures
            r == value_before(*self, *other),
    {
        match (*self, *other) {
            (Value::Sym(x), Value::Sym(y)) => x.0 < y.0,
            (Value::Sym(_), Value::Int(_)) => true,
            (Value::Int(_), Value::Sym(_)) => false,
            (Value::Int(x), Value::Int(y)) => x < y,
        }
    }
}

pub open spec fn as_int(v: Value) -> Option<i64> {
    match v {
        Value::Int(i) => Some(i),
        Value::Sym(_) => None,
    }
}

/// Lexicographic order on tuples.
pub open spec fn key_before(a: Seq<Value>, b: Seq<Value>) -> bool
    decreases a.len(),
{
    if b.len() == 0 {
        false
    } else if a.len() == 0 {
        true
    } else if a[0] == b[0] {
        key_before(a.drop_first(), b.drop_first())
    } else {
        value_before(a[0], b[0])
    }
}

proof fn key_before_irreflexive(a: Seq<Value>)
    ensures
        !key_before(a, a),
    decreases a.len(),
{
    if a.len() > 0 {
        key_before_irreflexive(a.drop_first());
    }
}

proof fn key_before_transitive(a: Seq<Value>, b: Seq<Value>, c: Seq<Value>)
    requires
        key_before(a, b),
        key_before(b, c),
    ensures
        key_before(a, c),
    decreases a.len(),
{
    if a.len() > 0 && a[0] == b[0] && b[0] == c[0] {
        key_before_transitive(a.drop_first(), b.drop_first(), c.drop_first());
    }
}

proof fn key_before_total(a: Seq<Value>, b: Seq<Value>)
    ensures
        key_before(a, b) || a == b || key_before(b, a),
    decreases a.len(),
{
    if a.len() > 0 && b.len() > 0 {
        if a[0] == b[0] {
            key_before_total(a.drop_first(), b.drop_first());
            assert(a =~= seq![a[0]] + a.drop_first());
            assert(b =~= seq![b[0]] + b.drop_first());
        }
    } else if a.len() == 0 && b.len() == 0 {
        assert(a =~= b);
    }
}

/// A copy of a tuple.
pub fn copy_key(k: &Vec<Value>) -> (r: Vec<Value>)
    ensures
        r@ == k@,
{
    let mut r: Vec<Value> = Vec::new();
    let mut i: usize = 0;
    while i < k.len()
        invariant
            i <= k@.len(),
            r@ == k@.take(i as int),
        decreases k@.len() - i,
    {
        r.push(k[i]);
        assert(k@.take(i + 1) =~= k@.take(i as int).push(k@[i as int]));
        i += 1;
    }
    assert(k@.take(k@.len() as int) =~= k@);
    r
}

/// Whether two tuples are equal.
pub fn same_key(a: &Vec<Value>, b: &Vec<Value>) -> (r: bool)
    ensures
        r == (a@ == b@),
{
    if a.len() != b.len() {
        return false;
    }
    let mut i: usize = 0;
    while i < a.len()
        invariant
            a@.len() == b@.len(),
            i <= a@.len(),
            forall|k: int| 0 <= k < i ==> a@[k] == b@[k],
        decreases a@.len() - i,
    {
        if a[i] != b[i] {
            return false;
        }
        i += 1;
    }
    assert(a@ =~= b@);
    true
}

impl Item for Vec<Value> {
    type V = Seq<Value>;

    open spec fn model(&self) -> Seq<Value> {
        self@
    }

    open spec fn before(a: Seq<Value>, b: Seq<Value>) -> bool {
        key_before(a, b)
    }

    proof fn before_irreflexive(a: Seq<Value>) {
        key_before_irreflexive(a);
    }

    proof fn before_transitive(a: Seq<Value>, b: Seq<Value>, c: Seq<Value>) {
        key_before_transitive(a, b, c);
    }

    proof fn before_total(a: Seq<Value>, b: Seq<Value>) {
        key_before_total(a, b);
    }

    fn less(&self, other: &Self) -> (r: bool) {
        let mut i: usize = 0;
        assert(self@.skip(0) =~= self@);
        assert(other@.skip(0) =~= other@);
        while i < self.len() && i < other.len()
            invariant
                i <= self@.len(),
                i <= other@.len(),
                key_before(self@, other@) == key_before(self@.skip(i as int), other@.skip(i as int)),
            decreases self@.len() - i,
        {
            proof {
                assert(self@.skip(i as int).drop_first() =~= self@.skip(i + 1));
                assert(other@.skip(i as int).drop_first() =~= other@.skip(i + 1));
            }
            if self[i] != other[i] {
                return self[i].is_before(&other[i]);
            }
            i += 1;
        }
        i < other.len()
    }

    fn same(&self, other: &Self) -> (r: bool) {
        same_key(self, other)
    }

    fn duplicate(&self) -> (r: Self) {
        copy_key(self)
    }
}

} // verus!

//! Variable bindings with an undo trail.

use vstd::prelude::*;
use crate::name_map::NameMap;
use crate::relation::{ann_unit, keys_view, Ann, AnnV, Key, KeyV};
use crate::value::Value;

verus! {

/// The bindings of a partial rule evaluation. Each binding is recorded on the
/// trail, so that a join can undo it instead of copying the bindings.
#[derive(Debug)]
pub struct Env {
    pub map: NameMap<Value>,
    pub ann: Ann,
    pub body_keys: Vec<Key>,
    pub trail: Vec<(String, Option<Value>)>,
}

/// Variable bindings.
pub type Bindings = Map<Seq<char>, Value>;

/// The value of an [`Env`]: the bindings, the joined annotation and the body
/// facts so far.
#[verifier::ext_equal]
pub struct EnvV {
    pub map: Bindings,
    pub ann: AnnV,
    pub keys: Seq<KeyV>,
}

impl View for Env {
    type V = EnvV;

    open spec fn view(&self) -> EnvV {
        EnvV { map: self.map@, ann: self.ann@, keys: keys_view(self.body_keys@) }
    }
}

/// One trail entry: a variable and the value it had before.
pub type Step = (Seq<char>, Option<Value>);

/// The bindings with a variable set back.
pub open spec fn set_back(map: Bindings, s: Step) -> Bindings {
    match s.1 {
        Some(x) => map.insert(s.0, x),
        None => map.remove(s.0),
    }
}

/// The bindings after undoing the trail down to `n` entries.
pub open spec fn unwind(map: Bindings, trail: Seq<Step>, n: int) -> Bindings
    decreases trail.len(),
{
    if trail.len() <= n || trail.len() == 0 {
        map
    } else {
        unwind(set_back(map, trail.last()), trail.drop_last(), n)
    }
}

/// The value of a variable, where it is bound.
pub open spec fn binding(map: Bindings, v: Seq<char>) -> Option<Value> {
    if map.contains_key(v) {
        Some(map[v])
    } else {
        None
    }
}

/// A backtrack point.
pub struct Mark {
    trail: usize,
    body: usize,
    ann: Ann,
}

impl Env {
    /// The trail.
    pub open spec fn steps(&self) -> Seq<Step> {
        self.trail@.map_values(|e: (String, Option<Value>)| (e.0@, e.1))
    }

    /// Undoing what was done since `base` gives the bindings and body facts
    /// of `base` again.
    pub open spec fn extends(&self, base: Env) -> bool {
        &&& base.steps().len() <= self.steps().len()
        &&& self.steps().take(base.steps().len() as int) == base.steps()
        &&& unwind(self.map@, self.steps(), base.steps().len() as int) == base.map@
        &&& base@.keys.len() <= self@.keys.len()
        &&& self@.keys.take(base@.keys.len() as int) == base@.keys
    }

    /// No bindings.
    pub fn new() -> (r: Env)
        ensures
            r@ == (EnvV { map: Map::empty(), ann: ann_unit(), keys: Seq::empty() }),
    {
        let r = Env { map: NameMap::new(), ann: Ann::unit(), body_keys: Vec::new(), trail: Vec::new() };
        assert(r@.keys =~= Seq::empty());
        r
    }

    /// Binds a variable.
    pub fn bind(&mut self, v: &str, val: Value)
        ensures
            final(self)@ == (EnvV { map: old(self)@.map.insert(v@, val), ..old(self)@ }),
            final(self).steps() == old(self).steps().push((v@, binding(old(self)@.map, v@))),
            final(self).extends(*old(self)),
    {
        let was = match self.map.get(v) {
            Some(x) => Some(*x),
            None => None,
        };
        let ghost before = self.trail@;
        self.trail.push((v.to_owned(), was));
        assert(self.steps() =~= old(self).steps().push((v@, was)));
        self.map.put(v, val);
        proof {
            lemma_bind_extends(*old(self), *self, v@, val);
        }
    }

    /// A point to come back to.
    pub fn mark(&self) -> (r: Mark)
        ensures
            r.of(*self),
    {
        Mark { trail: self.trail.len(), body: self.body_keys.len(), ann: self.ann.duplicate() }
    }

    /// Goes back to a mark.
    pub fn undo(&mut self, m: &Mark, base: Ghost<Env>)
        requires
            m.of(base@),
            old(self).extends(base@),
        ensures
            final(self)@ == base@@,
            final(self).steps() == base@.steps(),
    {
        let ghost map0 = self.map@;
        let ghost steps0 = self.steps();
        while self.trail.len() > m.trail
            invariant
                m.of(base@),
                self.steps().len() == self.trail@.len(),
                base@.steps().len() <= self.steps().len(),
                self.steps().take(base@.steps().len() as int) == base@.steps(),
                unwind(self.map@, self.steps(), base@.steps().len() as int) == base@.map@,
                self.body_keys == old(self).body_keys,
            decreases self.trail@.len(),
        {
            let ghost s = self.steps();
            if let Some((v, was)) = self.trail.pop() {
                assert(self.steps() =~= s.drop_last());
                assert(s.last() == (v@, was));
                match was {
                    Some(x) => {
                        self.map.put(v.as_str(), x);
                    },
                    None => {
                        let _ = self.map.take(v.as_str());
                    },
                }
                assert(s.drop_last().take(base@.steps().len() as int) =~= s.take(base@.steps().len() as int));
            }
        }
        assert(self.steps() =~= base@.steps());
        self.body_keys.truncate(m.body);
        assert(keys_view(self.body_keys@) =~= old(self)@.keys.take(m.body as int));
        self.ann = m.ann.duplicate();
    }

    /// The value of a variable, where it is bound.
    pub fn lookup(&self, v: &str) -> (r: Option<Value>)
        ensures
            r == binding(self@.map, v@),
    {
        match self.map.get(v) {
            Some(x) => Some(*x),
            None => None,
        }
    }
}

impl Mark {
    /// The mark was made of this environment.
    pub closed spec fn of(&self, e: Env) -> bool {
        self.trail == e.steps().len() && self.body == e@.keys.len() && self.ann@ == e@.ann
    }
}

proof fn lemma_bind_extends(a: Env, b: Env, v: Seq<char>, val: Value)
    requires
        b.map@ == a.map@.insert(v, val),
        b.body_keys == a.body_keys,
        b.steps() == a.steps().push((v, binding(a.map@, v))),
    ensures
        b.extends(a),
{
    assert(b.steps().take(a.steps().len() as int) =~= a.steps());
    assert(b.steps().drop_last() =~= a.steps());
    assert(set_back(b.map@, b.steps().last()) =~= a.map@);
    assert(unwind(a.map@, a.steps(), a.steps().len() as int) == a.map@);
    assert(b@.keys.take(a@.keys.len() as int) =~= a@.keys);
}

/// An environment extends itself.
pub proof fn lemma_extends_self(a: Env)
    ensures
        a.extends(a),
{
    assert(a.steps().take(a.steps().len() as int) =~= a.steps());
    assert(a@.keys.take(a@.keys.len() as int) =~= a@.keys);
}

proof fn lemma_unwind_split(map: Bindings, t: Seq<Step>, n: int, m: int)
    requires
        0 <= n <= m <= t.len(),
    ensures
        unwind(map, t, n) == unwind(unwind(map, t, m), t.take(m), n),
    decreases t.len(),
{
    if t.len() == m {
        assert(t.take(m) =~= t);
    } else {
        lemma_unwind_split(set_back(map, t.last()), t.drop_last(), n, m);
        assert(t.drop_last().take(m) =~= t.take(m));
    }
}

/// What extends an extension extends the base.
pub proof fn lemma_extends_trans(a: Env, b: Env, c: Env)
    requires
        b.extends(a),
        c.extends(b),
    ensures
        c.extends(a),
{
    let n = a.steps().len() as int;
    let m = b.steps().len() as int;
    lemma_unwind_split(c.map@, c.steps(), n, m);
    assert(c.steps().take(n) =~= c.steps().take(m).take(n));
    assert(c@.keys.take(a@.keys.len() as int) =~= c@.keys.take(b@.keys.len() as int).take(a@.keys.len() as int));
}

} // verus!

//! Seminaive evaluation of one stratum, with aggregation.

use vstd::prelude::*;
use vstd::string::StringExecFns;
use crate::ast::{clauses_view, copy_lits, terms_view, AggFn, Atom, AtomV, Clause, ClauseV, Lit, LitV, Term, TermV};
use crate::env::{Env, EnvV};
use crate::query::{starts_with, text_starts_with};
use crate::relation::{
    ann_join, ann_unit, copy_pair, ids_view, keys_view, lemma_lookup, lemma_remove_keys, rel_lookup, row_of, supports_view, Ann,
    FactV, Key, KeyV, RelV, RowV, StoredFact, Support, SupportV,
};
use crate::solve::{
    bind_all, bind_args, lemma_solve, lemma_store_extends_self, lemma_store_extends_trans, solve,
    solve_all, store_extends,
};
use crate::sorted_set::{ascending, enumerate, enumerate_of, models, Item, SortedSet};
use crate::store::{holds, log_view, rels_wf, store_assert, store_retract, RelsV, Store, StoreV};
use crate::stratify::{aggregates, is_agg_clause};
use crate::text::{nat_text, nat_to_text, str_eq, texts};
use crate::value::{copy_key, same_key, Value};

verus! {

// ----------------------------------------------------------------- deltas

/// A set of facts that are new to an evaluation round.
pub type Delta = SortedSet<Key>;

/// The tuples of a predicate in a delta.
pub open spec fn args_of(d: Set<KeyV>, p: Seq<char>) -> Set<Seq<Value>> {
    Set::new(|a: Seq<Value>| d.contains((p, a)))
}

/// The tuples of a predicate in a delta, in ascending order.
pub open spec fn delta_args(d: Set<KeyV>, p: Seq<char>) -> Seq<Seq<Value>> {
    enumerate::<Vec<Value>>(args_of(d, p))
}

fn delta_keys(d: &Delta, p: &str) -> (r: Vec<Vec<Value>>)
    ensures
        models(r@) == delta_args(d@, p@),
{
    let items = d.items();
    let ghost ks = models(items@);
    let mut r: Vec<Vec<Value>> = Vec::new();
    let mut i: usize = 0;
    while i < items.len()
        invariant
            i <= items@.len(),
            ks == models(items@),
            ascending::<Key>(ks),
            ascending::<Vec<Value>>(models(r@)),
            forall|x: int| 0 <= x < r@.len() ==> exists|j: int| 0 <= j < i && #[trigger] ks[j] == (p@, (#[trigger] models(r@)[x])),
            forall|j: int| 0 <= j < i && (#[trigger] ks[j]).0 == p@ ==> models(r@).contains(ks[j].1),
        decreases items@.len() - i,
    {
        assert(ks[i as int] == items@[i as int]@);
        let ghost r0 = models(r@);
        if str_eq(items[i].0.as_str(), p) {
            r.push(copy_key(&items[i].1));
            proof {
                let r1 = models(r@);
                assert(r1 =~= r0.push(ks[i as int].1));
                assert forall|x: int, y: int| 0 <= x < y < r1.len() implies <Vec<Value> as Item>::before(
                    #[trigger] r1[x],
                    #[trigger] r1[y],
                ) by {
                    if y == r0.len() {
                        let j = choose|j: int| 0 <= j < i && #[trigger] ks[j] == (p@, r0[x]);
                        assert(<Key as Item>::before(ks[j], ks[i as int]));
                        <String as Item>::before_irreflexive(p@);
                    } else {
                        assert(r1[x] == r0[x] && r1[y] == r0[y]);
                    }
                }
                assert forall|x: int| 0 <= x < r@.len() implies exists|j: int|
                    0 <= j < i + 1 && #[trigger] ks[j] == (p@, (#[trigger] models(r@)[x])) by {
                    if x < r0.len() {
                        let j = choose|j: int| 0 <= j < i && #[trigger] ks[j] == (p@, r0[x]);
                        assert(0 <= j < i + 1 && ks[j] == (p@, models(r@)[x]));
                    } else {
                        assert(ks[i as int] == (p@, models(r@)[x]));
                    }
                }
                assert forall|j: int| 0 <= j < i + 1 && (#[trigger] ks[j]).0 == p@ implies models(r@).contains(ks[j].1) by {
                    if j < i {
                        let x = choose|x: int| 0 <= x < r0.len() && r0[x] == ks[j].1;
                        assert(r1[x] == ks[j].1);
                    } else {
                        assert(r1[r0.len() as int] == ks[j].1);
                    }
                }
            }
        }
        i += 1;
    }
    proof {
        assert(models(r@).to_set() =~= args_of(d@, p@)) by {
            assert forall|a: Seq<Value>| models(r@).to_set().contains(a) <==> args_of(d@, p@).contains(a) by {
                if models(r@).to_set().contains(a) {
                    let x = choose|x: int| 0 <= x < models(r@).len() && models(r@)[x] == a;
                    let j = choose|j: int| 0 <= j < ks.len() && #[trigger] ks[j] == (p@, models(r@)[x]);
                    assert(ks.to_set().contains(ks[j]));
                }
                if d@.contains((p@, a)) {
                    assert(ks.to_set().contains((p@, a)));
                    let j = choose|j: int| 0 <= j < ks.len() && ks[j] == (p@, a);
                    assert(ks[j].0 == p@);
                }
            }
        }
        enumerate_of::<Vec<Value>>(models(r@));
    }
    r
}

/// The facts added since the last completed run.
pub open spec fn pending_delta(rels: RelsV) -> Set<KeyV> {
    Set::new(|k: KeyV| rels.contains_key(k.0) && rels[k.0].pending.contains(k.1))
}

fn initial_delta(store: &Store) -> (r: Delta)
    ensures
        r@ == pending_delta(store@.rels),
{
    let names = store.relations.names();
    let mut d: Delta = SortedSet::new();
    let mut i: usize = 0;
    while i < names.len()
        invariant
            i <= names@.len(),
            forall|n: Seq<char>| #[trigger] texts(names@).contains(n) <==> store@.rels.contains_key(n),
            forall|k: KeyV| #[trigger]
                d@.contains(k) <==> (pending_delta(store@.rels).contains(k) && texts(names@).take(i as int).contains(k.0)),
        decreases names@.len() - i,
    {
        let ghost d0 = d@;
        let name = names[i].as_str();
        assert(texts(names@)[i as int] == name@);
        assert(texts(names@).contains(name@));
        match store.relations.get(name) {
            Some(rel) => {
                let items = rel.pending().items();
                let ghost ms = models(items@);
                let mut j: usize = 0;
                while j < items.len()
                    invariant
                        j <= items@.len(),
                        ms == models(items@),
                        forall|k: KeyV| #[trigger]
                            d@.contains(k) <==> d0.contains(k) || (k.0 == name@ && ms.take(j as int).contains(k.1)),
                    decreases items@.len() - j,
                {
                    let ghost d1 = d@;
                    let key: Key = (name.to_owned(), copy_key(&items[j]));
                    let ghost kv = key@;
                    d.insert(key);
                    proof {
                        assert(kv == (name@, ms[j as int]));
                        assert forall|k: KeyV| #[trigger] d@.contains(k) <==> d0.contains(k) || (k.0 == name@ && ms.take(
                            j + 1,
                        ).contains(k.1)) by {
                            let t0 = ms.take(j as int);
                            let t1 = ms.take(j + 1);
                            assert(t1 =~= t0.push(ms[j as int]));
                            if t0.contains(k.1) {
                                let x = choose|x: int| 0 <= x < t0.len() && t0[x] == k.1;
                                assert(t1[x] == k.1);
                            }
                            if t1.contains(k.1) && !t0.contains(k.1) {
                                let x = choose|x: int| 0 <= x < t1.len() && t1[x] == k.1;
                                if x < j {
                                    assert(t0[x] == k.1);
                                }
                            }
                            assert(t1[j as int] == ms[j as int]);
                        }
                    }
                    j += 1;
                }
                assert(ms.take(ms.len() as int) =~= ms);
                assert(ms.to_set() == store@.rels[name@].pending);
                proof {
                    assert forall|a: Seq<Value>| ms.contains(a) <==> store@.rels[name@].pending.contains(a) by {
                        assert(ms.to_set().contains(a) <==> ms.contains(a));
                    }
                }
            },
            None => {},
        }
        proof {
            let ts = texts(names@);
            assert forall|k: KeyV| #[trigger] d@.contains(k) <==> (pending_delta(store@.rels).contains(k) && ts.take(
                i + 1,
            ).contains(k.0)) by {
                let t0 = ts.take(i as int);
                let t1 = ts.take(i + 1);
                assert(t1 =~= t0.push(name@));
                if t0.contains(k.0) {
                    let x = choose|x: int| 0 <= x < t0.len() && t0[x] == k.0;
                    assert(t1[x] == k.0);
                }
                assert(t1[i as int] == name@);
                if t1.contains(k.0) && k.0 != name@ {
                    let x = choose|x: int| 0 <= x < t1.len() && t1[x] == k.0;
                    assert(t0[x] == k.0);
                }
            }
        }
        i += 1;
    }
    proof {
        let ts = texts(names@);
        assert(ts.take(ts.len() as int) =~= ts);
        assert forall|k: KeyV| d@.contains(k) <==> pending_delta(store@.rels).contains(k) by {
            if store@.rels.contains_key(k.0) {
                assert(ts.contains(k.0));
            }
        }
        assert(d@ =~= pending_delta(store@.rels));
    }
    d
}

// ------------------------------------------------------------ delta rules

/// A store and the new facts found on the way to it.
#[verifier::ext_equal]
pub struct FireV {
    pub st: StoreV,
    pub out: Seq<KeyV>,
}

/// The environment for one tuple of the atom that a delta version starts
/// from, where they match.
pub open spec fn start_env(st: StoreV, a: AtomV, k: Seq<Value>) -> Option<EnvV> {
    if !holds(st.rels, (a.pred, k)) {
        None
    } else {
        match bind_all(st.names, a.args, k, Map::empty()) {
            Some(map) => Some(
                EnvV {
                    map,
                    ann: ann_join(ann_unit(), st.rels[a.pred].rows[row_of(st.rels[a.pred], k)].fact.ann),
                    keys: seq![(a.pred, k)],
                },
            ),
            None => None,
        }
    }
}

/// Firing a rule for each of the given tuples of its literal `ai`, in turn;
/// the other literals are solved against the whole store.
pub open spec fn fire_keys(
    st: StoreV,
    now: i64,
    c: ClauseV,
    ai: int,
    a: AtomV,
    keys: Seq<Seq<Value>>,
    out: Seq<KeyV>,
) -> FireV
    decreases keys.len(),
{
    if keys.len() == 0 {
        FireV { st, out }
    } else {
        match start_env(st, a, keys[0]) {
            None => fire_keys(st, now, c, ai, a, keys.drop_first(), out),
            Some(env) => {
                let r = solve(st, now, c, 0, ai, env, out);
                fire_keys(r.st, now, c, ai, a, keys.drop_first(), r.out)
            },
        }
    }
}

/// One delta version of a rule: literal `ai` ranges over the delta.
pub open spec fn fire(st: StoreV, now: i64, c: ClauseV, ai: int, delta: Set<KeyV>, out: Seq<KeyV>) -> FireV {
    match c.body[ai] {
        LitV::Pos(a) => fire_keys(st, now, c, ai, a, delta_args(delta, a.pred), out),
        _ => FireV { st, out },
    }
}

pub proof fn lemma_fire_keys(
    st: StoreV,
    now: i64,
    c: ClauseV,
    ai: int,
    a: AtomV,
    keys: Seq<Seq<Value>>,
    out: Seq<KeyV>,
)
    requires
        rels_wf(st.rels),
    ensures
        store_extends(st, fire_keys(st, now, c, ai, a, keys, out).st),
        fire_keys(st, now, c, ai, a, keys, out).st.log.len() - st.log.len() == fire_keys(
            st,
            now,
            c,
            ai,
            a,
            keys,
            out,
        ).out.len() - out.len(),
    decreases keys.len(),
{
    lemma_store_extends_self(st);
    if keys.len() > 0 {
        match start_env(st, a, keys[0]) {
            None => {
                lemma_fire_keys(st, now, c, ai, a, keys.drop_first(), out);
            },
            Some(env) => {
                let r = solve(st, now, c, 0, ai, env, out);
                lemma_solve(st, now, c, 0, ai, env, out);
                lemma_fire_keys(r.st, now, c, ai, a, keys.drop_first(), r.out);
                lemma_store_extends_trans(
                    st,
                    r.st,
                    fire_keys(r.st, now, c, ai, a, keys.drop_first(), r.out).st,
                );
            },
        }
    }
}

/// Fires one delta version of a rule: the atom at `ai` ranges over the
/// delta, all other atoms over the whole store.
pub fn fire_delta_version(store: &mut Store, now: i64, c: &Clause, ai: usize, delta: &Delta, out: &mut Vec<Key>)
    requires
        rels_wf(old(store)@.rels),
        ai < c.body@.len(),
    ensures
        final(store)@ == fire(old(store)@, now, c@, ai as int, delta@, keys_view(old(out)@)).st,
        keys_view(final(out)@) == fire(old(store)@, now, c@, ai as int, delta@, keys_view(old(out)@)).out,
        rels_wf(final(store)@.rels),
{
    assert(c@.body[ai as int] == c.body@[ai as int]@);
    let atom = match &c.body[ai] {
        Lit::Pos(a) => a,
        _ => {
            return;
        },
    };
    let keys = delta_keys(delta, atom.pred.as_str());
    let ghost ks = models(keys@);
    let ghost want = fire_keys(store@, now, c@, ai as int, atom@, ks, keys_view(out@));
    let mut i: usize = 0;
    assert(ks.skip(0) =~= ks);
    while i < keys.len()
        invariant
            i <= keys@.len(),
            ks == models(keys@),
            rels_wf(store@.rels),
            want == fire_keys(store@, now, c@, ai as int, atom@, ks.skip(i as int), keys_view(out@)),
        decreases keys@.len() - i,
    {
        let k = &keys[i];
        assert(ks.skip(i as int)[0] == k@);
        assert(ks.skip(i as int).drop_first() =~= ks.skip(i + 1));
        let ann = match store.relations.get(atom.pred.as_str()) {
            Some(rel) => match rel.get(k) {
                Some(f) => Some(f.ann.duplicate()),
                None => None,
            },
            None => None,
        };
        if let Some(ann) = ann {
            let mut env = Env::new();
            env.ann = Ann::unit().join(&ann);
            env.body_keys.push((atom.pred.clone(), copy_key(k)));
            assert(env@.keys =~= seq![(atom@.pred, k@)]);
            if bind_args(&store.interner, &atom.args, k, &mut env) {
                assert(start_env(store@, atom@, k@) == Some(env@));
                solve_all(store, now, c, 0, ai, &mut env, out);
            } else {
                assert(start_env(store@, atom@, k@) is None);
            }
        } else {
            assert(start_env(store@, atom@, k@) is None);
        }
        i += 1;
    }
}

// --------------------------------------------------------------- rounds

/// Some body literal is a positive atom.
pub open spec fn has_atom(c: ClauseV) -> bool {
    exists|i: int| 0 <= i < c.body.len() && #[trigger] c.body[i] is Pos
}

/// The delta versions of a rule from literal `i` on.
pub open spec fn fire_from(st: StoreV, now: i64, c: ClauseV, i: int, delta: Set<KeyV>, out: Seq<KeyV>) -> FireV
    decreases c.body.len() - i,
{
    if i < 0 || i >= c.body.len() {
        FireV { st, out }
    } else {
        let r = fire(st, now, c, i, delta, out);
        fire_from(r.st, now, c, i + 1, delta, r.out)
    }
}

/// Firing a rule without atoms: its body is solved with nothing bound.
pub open spec fn fire_builtins(st: StoreV, now: i64, c: ClauseV, out: Seq<KeyV>) -> FireV {
    let env = EnvV { map: Map::empty(), ann: ann_unit(), keys: Seq::empty() };
    let r = solve(st, now, c, 0, c.body.len() as int, env, out);
    FireV { st: r.st, out: r.out }
}

/// One rule in one round.
pub open spec fn fire_rule(st: StoreV, now: i64, c: ClauseV, delta: Set<KeyV>, out: Seq<KeyV>) -> FireV {
    if has_atom(c) {
        fire_from(st, now, c, 0, delta, out)
    } else {
        fire_builtins(st, now, c, out)
    }
}

/// The rules from position `i` on, in one round.
pub open spec fn round_from(st: StoreV, now: i64, cs: Seq<ClauseV>, i: int, delta: Set<KeyV>, out: Seq<KeyV>) -> FireV
    decreases cs.len() - i,
{
    if i < 0 || i >= cs.len() {
        FireV { st, out }
    } else {
        let r = fire_rule(st, now, cs[i], delta, out);
        round_from(r.st, now, cs, i + 1, delta, r.out)
    }
}

/// One round: each rule is fired on the delta.
pub open spec fn round(st: StoreV, now: i64, cs: Seq<ClauseV>, delta: Set<KeyV>) -> FireV {
    round_from(st, now, cs, 0, delta, Seq::empty())
}

/// A store and a number of new facts.
#[verifier::ext_equal]
pub struct EvalV {
    pub st: StoreV,
    pub new: nat,
}

/// At most `n` rounds, each on what the one before found.
pub open spec fn rounds(st: StoreV, now: i64, cs: Seq<ClauseV>, delta: Set<KeyV>, n: nat) -> EvalV
    decreases n,
{
    if n == 0 {
        EvalV { st, new: 0 }
    } else {
        let r = round(st, now, cs, delta);
        if r.out.len() == 0 {
            EvalV { st: r.st, new: 0 }
        } else {
            let rest = rounds(r.st, now, cs, r.out.to_set(), (n - 1) as nat);
            EvalV { st: rest.st, new: r.out.len() + rest.new }
        }
    }
}

/// Within `n` rounds one finds nothing new.
pub open spec fn settles(st: StoreV, now: i64, cs: Seq<ClauseV>, delta: Set<KeyV>, n: nat) -> bool
    decreases n,
{
    n > 0 && {
        let r = round(st, now, cs, delta);
        r.out.len() == 0 || settles(r.st, now, cs, r.out.to_set(), (n - 1) as nat)
    }
}

/// The outcome of rounds until one finds nothing new.
pub open spec fn fixpoint(st: StoreV, now: i64, cs: Seq<ClauseV>, delta: Set<KeyV>) -> EvalV {
    rounds(st, now, cs, delta, choose|n: nat| settles(st, now, cs, delta, n))
}

/// Once the rounds settle, their number does not matter.
pub proof fn rounds_unique(st: StoreV, now: i64, cs: Seq<ClauseV>, delta: Set<KeyV>, n: nat, m: nat)
    requires
        settles(st, now, cs, delta, n),
        settles(st, now, cs, delta, m),
    ensures
        rounds(st, now, cs, delta, n) == rounds(st, now, cs, delta, m),
    decreases n,
{
    let r = round(st, now, cs, delta);
    if r.out.len() > 0 {
        rounds_unique(r.st, now, cs, r.out.to_set(), (n - 1) as nat, (m - 1) as nat);
    }
}

/// The fixpoint is what any sufficient number of rounds gives.
pub proof fn lemma_fixpoint(st: StoreV, now: i64, cs: Seq<ClauseV>, delta: Set<KeyV>, n: nat)
    requires
        settles(st, now, cs, delta, n),
    ensures
        fixpoint(st, now, cs, delta) == rounds(st, now, cs, delta, n),
{
    rounds_unique(st, now, cs, delta, choose|m: nat| settles(st, now, cs, delta, m), n);
}

pub proof fn lemma_fire_from(st: StoreV, now: i64, c: ClauseV, i: int, delta: Set<KeyV>, out: Seq<KeyV>)
    requires
        rels_wf(st.rels),
    ensures
        store_extends(st, fire_from(st, now, c, i, delta, out).st),
        fire_from(st, now, c, i, delta, out).out.len() - out.len() == fire_from(st, now, c, i, delta, out).st.log.len()
            - st.log.len(),
    decreases c.body.len() - i,
{
    lemma_store_extends_self(st);
    if 0 <= i < c.body.len() {
        let r = fire(st, now, c, i, delta, out);
        if let LitV::Pos(a) = c.body[i] {
            lemma_fire_keys(st, now, c, i, a, delta_args(delta, a.pred), out);
        }
        lemma_fire_from(r.st, now, c, i + 1, delta, r.out);
        lemma_store_extends_trans(st, r.st, fire_from(r.st, now, c, i + 1, delta, r.out).st);
    }
}

pub proof fn lemma_fire_rule(st: StoreV, now: i64, c: ClauseV, delta: Set<KeyV>, out: Seq<KeyV>)
    requires
        rels_wf(st.rels),
    ensures
        store_extends(st, fire_rule(st, now, c, delta, out).st),
        fire_rule(st, now, c, delta, out).out.len() - out.len() == fire_rule(st, now, c, delta, out).st.log.len()
            - st.log.len(),
{
    if has_atom(c) {
        lemma_fire_from(st, now, c, 0, delta, out);
    } else {
        let env = EnvV { map: Map::empty(), ann: ann_unit(), keys: Seq::empty() };
        lemma_solve(st, now, c, 0, c.body.len() as int, env, out);
    }
}

pub proof fn lemma_round_from(st: StoreV, now: i64, cs: Seq<ClauseV>, i: int, delta: Set<KeyV>, out: Seq<KeyV>)
    requires
        rels_wf(st.rels),
    ensures
        store_extends(st, round_from(st, now, cs, i, delta, out).st),
        round_from(st, now, cs, i, delta, out).out.len() - out.len() == round_from(st, now, cs, i, delta, out).st.log.len()
            - st.log.len(),
    decreases cs.len() - i,
{
    lemma_store_extends_self(st);
    if 0 <= i < cs.len() {
        let r = fire_rule(st, now, cs[i], delta, out);
        lemma_fire_rule(st, now, cs[i], delta, out);
        lemma_round_from(r.st, now, cs, i + 1, delta, r.out);
        lemma_store_extends_trans(st, r.st, round_from(r.st, now, cs, i + 1, delta, r.out).st);
    }
}

pub proof fn lemma_rounds(st: StoreV, now: i64, cs: Seq<ClauseV>, delta: Set<KeyV>, n: nat)
    requires
        rels_wf(st.rels),
    ensures
        store_extends(st, rounds(st, now, cs, delta, n).st),
        rounds(st, now, cs, delta, n).new == rounds(st, now, cs, delta, n).st.log.len() - st.log.len(),
    decreases n,
{
    lemma_store_extends_self(st);
    if n > 0 {
        let r = round(st, now, cs, delta);
        lemma_round_from(st, now, cs, 0, delta, Seq::empty());
        if r.out.len() > 0 {
            lemma_rounds(r.st, now, cs, r.out.to_set(), (n - 1) as nat);
            lemma_store_extends_trans(st, r.st, rounds(r.st, now, cs, r.out.to_set(), (n - 1) as nat).st);
        }
    }
}

/// Evaluation only adds: symbols, rows, log and feed keep what they hold, and
/// the facts counted are those that were logged.
pub proof fn fixpoint_extends(st: StoreV, now: i64, cs: Seq<ClauseV>, delta: Set<KeyV>)
    requires
        rels_wf(st.rels),
    ensures
        store_extends(st, fixpoint(st, now, cs, delta).st),
        fixpoint(st, now, cs, delta).new == fixpoint(st, now, cs, delta).st.log.len() - st.log.len(),
{
    lemma_rounds(st, now, cs, delta, choose|n: nat| settles(st, now, cs, delta, n));
}

fn contains_atom(c: &Clause) -> (r: bool)
    ensures
        r == has_atom(c@),
{
    let mut i: usize = 0;
    while i < c.body.len()
        invariant
            i <= c.body@.len(),
            forall|j: int| 0 <= j < i ==> !(#[trigger] c@.body[j] is Pos),
        decreases c.body@.len() - i,
    {
        assert(c@.body[i as int] == c.body@[i as int]@);
        if let Lit::Pos(_) = &c.body[i] {
            return true;
        }
        i += 1;
    }
    false
}

/// Fires a rule without atoms.
pub fn solve_builtin_only(store: &mut Store, now: i64, c: &Clause, out: &mut Vec<Key>)
    requires
        rels_wf(old(store)@.rels),
    ensures
        final(store)@ == fire_builtins(old(store)@, now, c@, keys_view(old(out)@)).st,
        keys_view(final(out)@) == fire_builtins(old(store)@, now, c@, keys_view(old(out)@)).out,
        rels_wf(final(store)@.rels),
{
    let mut env = Env::new();
    solve_all(store, now, c, 0, c.body.len(), &mut env, out);
}

fn fire_clause(store: &mut Store, now: i64, c: &Clause, delta: &Delta, out: &mut Vec<Key>)
    requires
        rels_wf(old(store)@.rels),
    ensures
        final(store)@ == fire_rule(old(store)@, now, c@, delta@, keys_view(old(out)@)).st,
        keys_view(final(out)@) == fire_rule(old(store)@, now, c@, delta@, keys_view(old(out)@)).out,
        rels_wf(final(store)@.rels),
{
    if !contains_atom(c) {
        solve_builtin_only(store, now, c, out);
        return;
    }
    let ghost want = fire_from(store@, now, c@, 0, delta@, keys_view(out@));
    let mut i: usize = 0;
    while i < c.body.len()
        invariant
            i <= c.body@.len(),
            rels_wf(store@.rels),
            want == fire_from(store@, now, c@, i as int, delta@, keys_view(out@)),
        decreases c.body@.len() - i,
    {
        fire_delta_version(store, now, c, i, delta, out);
        i += 1;
    }
}

/// Fires the rules in rounds, each on what the one before found, until one
/// finds nothing new. Gives the number of new facts.
fn run_rounds(store: &mut Store, now: i64, cs: &Vec<Clause>, delta: Delta) -> (r: usize)
    requires
        rels_wf(old(store)@.rels),
    ensures
        final(store)@ == fixpoint(old(store)@, now, clauses_view(cs@), delta@).st,
        r == fixpoint(old(store)@, now, clauses_view(cs@), delta@).new,
        exists|n: nat| settles(old(store)@, now, clauses_view(cs@), delta@, n),
        rels_wf(final(store)@.rels),
        r <= final(store)@.log.len() - old(store)@.log.len(),
{
    let ghost v = clauses_view(cs@);
    let ghost st0 = store@;
    let ghost d0 = delta@;
    let mut delta = delta;
    let mut total: usize = 0;
    let ghost mut done: nat = 0;
    proof {
        lemma_store_extends_self(st0);
    }
    loop
        invariant_except_break
            forall|n: nat| #[trigger] settles(store@, now, v, delta@, n) ==> settles(st0, now, v, d0, n + done) && rounds(
                st0,
                now,
                v,
                d0,
                n + done,
            ) == (EvalV {
                st: rounds(store@, now, v, delta@, n).st,
                new: rounds(store@, now, v, delta@, n).new + total as nat,
            }),
        invariant
            v == clauses_view(cs@),
            rels_wf(store@.rels),
            st0.log.len() <= store@.log.len(),
            total <= store@.log.len() - st0.log.len(),
        ensures
            exists|n: nat| #[trigger] settles(st0, now, v, d0, n) && rounds(st0, now, v, d0, n) == (EvalV {
                st: store@,
                new: total as nat,
            }),
        decreases usize::MAX - store.change_log@.len(),
    {
        let ghost st1 = store@;
        let ghost d1 = delta@;
        let ghost want = round(store@, now, v, delta@);
        let mut out: Vec<Key> = Vec::new();
        assert(keys_view(out@) =~= Seq::empty());
        proof {
            lemma_round_from(store@, now, v, 0, delta@, Seq::empty());
        }
        let mut i: usize = 0;
        while i < cs.len()
            invariant
                i <= cs@.len(),
                v == clauses_view(cs@),
                rels_wf(store@.rels),
                want == round_from(store@, now, v, i as int, delta@, keys_view(out@)),
            decreases cs@.len() - i,
        {
            assert(v[i as int] == cs@[i as int]@);
            fire_clause(store, now, &cs[i], &delta, &mut out);
            i += 1;
        }
        assert(keys_view(out@).len() == out@.len());
        assert(store@ == want.st && keys_view(out@) == want.out);
        let n_log: usize = store.change_log.len();
        assert(n_log == store@.log.len());
        if out.len() == 0 {
            proof {
                assert(settles(st1, now, v, d1, 1));
                assert(settles(st0, now, v, d0, (1 + done) as nat));
            }
            break;
        }
        total += out.len();
        let mut next: Delta = SortedSet::new();
        let mut j: usize = 0;
        while j < out.len()
            invariant
                j <= out@.len(),
                next@ == keys_view(out@).take(j as int).to_set(),
            decreases out@.len() - j,
        {
            next.insert(copy_pair(&out[j]));
            proof {
                let ks = keys_view(out@);
                assert(ks.take(j + 1) =~= ks.take(j as int).push(ks[j as int]));
                ks.take(j as int).lemma_push_to_set_commute(ks[j as int]);
            }
            j += 1;
        }
        assert(keys_view(out@).take(out@.len() as int) =~= keys_view(out@));
        delta = next;
        proof {
            assert(delta@ == want.out.to_set());
            assert forall|n: nat| #[trigger] settles(store@, now, v, delta@, n) implies settles(
                st0,
                now,
                v,
                d0,
                n + (done + 1) as nat,
            ) && rounds(st0, now, v, d0, n + (done + 1) as nat) == (EvalV {
                st: rounds(store@, now, v, delta@, n).st,
                new: rounds(store@, now, v, delta@, n).new + total as nat,
            }) by {
                let m: nat = n + 1;
                assert((m - 1) as nat == n);
                assert(settles(st1, now, v, d1, m));
                assert(m + done == n + (done + 1) as nat);
            }
            done = (done + 1) as nat;
        }
    }
    proof {
        let n = choose|n: nat| #[trigger] settles(st0, now, v, d0, n) && rounds(st0, now, v, d0, n) == (EvalV {
            st: store@,
            new: total as nat,
        });
        lemma_fixpoint(st0, now, v, d0, n);
    }
    total
}

// ------------------------------------------------------------ aggregation

/// The relation that holds the body solutions of an aggregating rule.
pub open spec fn temp_name(c: ClauseV, ci: int) -> Seq<char> {
    "__agg:"@ + c.head.pred + ":"@ + nat_text(ci as nat)
}

/// The head arguments that are not aggregates, in order.
pub open spec fn group_terms(args: Seq<TermV>) -> Seq<TermV>
    decreases args.len(),
{
    if args.len() == 0 {
        Seq::empty()
    } else {
        match args.last() {
            TermV::Agg(_, _) => group_terms(args.drop_last()),
            t => group_terms(args.drop_last()).push(t),
        }
    }
}

/// The terms inside the aggregates of a head, in order.
pub open spec fn folded_terms(args: Seq<TermV>) -> Seq<TermV>
    decreases args.len(),
{
    if args.len() == 0 {
        Seq::empty()
    } else {
        match args.last() {
            TermV::Agg(_, inner) => folded_terms(args.drop_last()).push(*inner),
            _ => folded_terms(args.drop_last()),
        }
    }
}

/// An aggregating rule as an ordinary one that lists the body solutions.
pub open spec fn lowered(c: ClauseV, ci: int) -> ClauseV {
    ClauseV {
        name: c.name,
        head: AtomV { pred: temp_name(c, ci), args: group_terms(c.head.args) + folded_terms(c.head.args) },
        body: c.body,
        is_fact: false,
    }
}

/// The rule as it is evaluated.
pub open spec fn evaluated(c: ClauseV, ci: int) -> ClauseV {
    if aggregates(c) {
        lowered(c, ci)
    } else {
        c
    }
}

/// The rules of a stratum as they are evaluated.
pub open spec fn stratum_rules(cs: Seq<ClauseV>, idx: Seq<int>) -> Seq<ClauseV> {
    idx.map_values(|i: int| evaluated(cs[i], i))
}

/// The name of the relation that holds the body solutions of the rule with
/// the given index.
pub fn agg_temp_pred(c: &Clause, ci: usize) -> (r: String)
    ensures
        r@ == temp_name(c@, ci as int),
{
    let mut s = "__agg:".to_owned();
    s.append(c.head.pred.as_str());
    s.append(":");
    let n = nat_to_text(ci as u64);
    s.append(n.as_str());
    s
}

/// Rewrites an aggregating rule to list its body solutions.
pub fn lower_agg_clause(c: &Clause, ci: usize) -> (r: Clause)
    ensures
        r@ == lowered(c@, ci as int),
{
    let mut args: Vec<Term> = Vec::new();
    let mut inner_args: Vec<Term> = Vec::new();
    let ghost ts = c@.head.args;
    let mut i: usize = 0;
    assert(terms_view(args@) =~= group_terms(ts.take(0)));
    assert(terms_view(inner_args@) =~= folded_terms(ts.take(0)));
    while i < c.head.args.len()
        invariant
            i <= c.head.args@.len(),
            ts == terms_view(c.head.args@),
            terms_view(args@) == group_terms(ts.take(i as int)),
            terms_view(inner_args@) == folded_terms(ts.take(i as int)),
        decreases c.head.args@.len() - i,
    {
        let ghost a0 = terms_view(args@);
        let ghost b0 = terms_view(inner_args@);
        assert(ts.take(i + 1).drop_last() =~= ts.take(i as int));
        assert(ts.take(i + 1).last() == c.head.args@[i as int]@);
        match &c.head.args[i] {
            Term::Agg(_, inner) => {
                inner_args.push(inner.duplicate());
                assert(terms_view(inner_args@) =~= b0.push(inner@));
            },
            other => {
                args.push(other.duplicate());
                assert(terms_view(args@) =~= a0.push(other@));
            },
        }
        i += 1;
    }
    assert(ts.take(ts.len() as int) =~= ts);
    let ghost a1 = terms_view(args@);
    let ghost b1 = terms_view(inner_args@);
    args.append(&mut inner_args);
    assert(terms_view(args@) =~= a1 + b1);
    let name = match &c.name {
        Some(n) => Some(n.clone()),
        None => None,
    };
    let r = Clause {
        name,
        head: Atom { pred: agg_temp_pred(c, ci), args },
        body: copy_lits(&c.body),
        is_fact: false,
    };
    assert(r@.head.args =~= lowered(c@, ci as int).head.args);
    r
}

/// The number of head arguments that are not aggregates.
pub open spec fn group_len(args: Seq<TermV>) -> nat
    decreases args.len(),
{
    if args.len() == 0 {
        0
    } else {
        group_len(args.drop_last()) + (if args.last() is Agg {
            0nat
        } else {
            1nat
        })
    }
}

/// The aggregate functions of a head, in order.
pub open spec fn agg_fns(args: Seq<TermV>) -> Seq<AggFn>
    decreases args.len(),
{
    if args.len() == 0 {
        Seq::empty()
    } else {
        match args.last() {
            TermV::Agg(f, _) => agg_fns(args.drop_last()).push(f),
            _ => agg_fns(args.drop_last()),
        }
    }
}

fn head_shape(args: &Vec<Term>) -> (r: (usize, Vec<AggFn>))
    ensures
        r.0 == group_len(terms_view(args@)),
        r.1@ == agg_fns(terms_view(args@)),
{
    let mut n: usize = 0;
    let mut fns: Vec<AggFn> = Vec::new();
    let mut i: usize = 0;
    let ghost ts = terms_view(args@);
    assert(ts.take(0) =~= Seq::empty());
    assert(fns@ =~= Seq::empty());
    while i < args.len()
        invariant
            i <= args@.len(),
            ts == terms_view(args@),
            n <= i,
            n == group_len(ts.take(i as int)),
            fns@ == agg_fns(ts.take(i as int)),
        decreases args@.len() - i,
    {
        assert(ts[i as int] == args@[i as int]@);
        assert(ts.take(i + 1).drop_last() =~= ts.take(i as int));
        assert(ts.take(i + 1).last() == ts[i as int]);
        match &args[i] {
            Term::Agg(f, _) => {
                fns.push(*f);
            },
            _ => {
                n += 1;
            },
        }
        i += 1;
    }
    assert(ts.take(ts.len() as int) =~= ts);
    (n, fns)
}

/// The integers in a column, in row order.
pub open spec fn int_column(rows: Seq<Seq<Value>>, at: int) -> Seq<i64>
    decreases rows.len(),
{
    if rows.len() == 0 {
        Seq::empty()
    } else {
        let before = int_column(rows.drop_last(), at);
        let row = rows.last();
        if 0 <= at < row.len() {
            match row[at] {
                Value::Int(i) => before.push(i),
                Value::Sym(_) => before,
            }
        } else {
            before
        }
    }
}

/// The least of the numbers, 0 of none.
pub open spec fn least(s: Seq<i64>) -> i64
    decreases s.len(),
{
    if s.len() == 0 {
        0
    } else if s.len() == 1 {
        s[0]
    } else if s.last() < least(s.drop_last()) {
        s.last()
    } else {
        least(s.drop_last())
    }
}

/// The greatest of the numbers, 0 of none.
pub open spec fn greatest(s: Seq<i64>) -> i64
    decreases s.len(),
{
    if s.len() == 0 {
        0
    } else if s.len() == 1 {
        s[0]
    } else if s.last() > greatest(s.drop_last()) {
        s.last()
    } else {
        greatest(s.drop_last())
    }
}

/// The sum of the numbers, wrapping around.
pub open spec fn total(s: Seq<i64>) -> i64
    decreases s.len(),
{
    if s.len() == 0 {
        0
    } else {
        total(s.drop_last()).wrapping_add(s.last())
    }
}

/// A row holds a value in a column.
pub open spec fn in_column(rows: Seq<Seq<Value>>, at: int, v: Value) -> bool {
    exists|j: int| 0 <= j < rows.len() && at < (#[trigger] rows[j]).len() && rows[j][at] == v
}

/// The values in a column.
pub open spec fn column(rows: Seq<Seq<Value>>, at: int) -> Set<Value> {
    Set::new(|v: Value| in_column(rows, at, v))
}

/// One aggregate over the rows of a group: how many different values the
/// column holds, or the least, the greatest or the sum of its numbers.
pub open spec fn folded(f: AggFn, rows: Seq<Seq<Value>>, at: int) -> i64 {
    match f {
        AggFn::Count => column(rows, at).len() as i64,
        AggFn::Min => least(int_column(rows, at)),
        AggFn::Max => greatest(int_column(rows, at)),
        AggFn::Sum => total(int_column(rows, at)),
    }
}

/// The least of some numbers is one of them and no more than any.
pub proof fn least_is_least(s: Seq<i64>)
    requires
        s.len() > 0,
    ensures
        s.contains(least(s)),
        forall|i: int| 0 <= i < s.len() ==> least(s) <= #[trigger] s[i],
    decreases s.len(),
{
    if s.len() == 1 {
        assert(s[0] == least(s));
    } else {
        let d = s.drop_last();
        least_is_least(d);
        let k = choose|k: int| 0 <= k < d.len() && d[k] == least(d);
        assert(s[k] == least(d));
        assert(s[s.len() - 1] == s.last());
        assert forall|i: int| 0 <= i < s.len() implies least(s) <= #[trigger] s[i] by {
            if i < d.len() {
                assert(d[i] == s[i]);
            }
        }
    }
}

/// The greatest of some numbers is one of them and no less than any.
pub proof fn greatest_is_greatest(s: Seq<i64>)
    requires
        s.len() > 0,
    ensures
        s.contains(greatest(s)),
        forall|i: int| 0 <= i < s.len() ==> greatest(s) >= #[trigger] s[i],
    decreases s.len(),
{
    if s.len() == 1 {
        assert(s[0] == greatest(s));
    } else {
        let d = s.drop_last();
        greatest_is_greatest(d);
        let k = choose|k: int| 0 <= k < d.len() && d[k] == greatest(d);
        assert(s[k] == greatest(d));
        assert(s[s.len() - 1] == s.last());
        assert forall|i: int| 0 <= i < s.len() implies greatest(s) >= #[trigger] s[i] by {
            if i < d.len() {
                assert(d[i] == s[i]);
            }
        }
    }
}

proof fn lemma_in_column(rows: Seq<Seq<Value>>, at: int, i: int, v: Value)
    requires
        0 <= i < rows.len(),
    ensures
        in_column(rows.take(i + 1), at, v) <==> in_column(rows.take(i), at, v) || (at < rows[i].len() && rows[i][at] == v),
{
    let a = rows.take(i);
    let b = rows.take(i + 1);
    if in_column(a, at, v) {
        let j = choose|j: int| 0 <= j < a.len() && at < (#[trigger] a[j]).len() && a[j][at] == v;
        assert(b[j] == a[j]);
    }
    if at < rows[i].len() && rows[i][at] == v {
        assert(b[i] == rows[i]);
    }
    if in_column(b, at, v) {
        let j = choose|j: int| 0 <= j < b.len() && at < (#[trigger] b[j]).len() && b[j][at] == v;
        if j < i {
            assert(a[j] == b[j]);
        }
    }
}

/// How many different values a column holds.
fn count_column(rows: &Vec<Vec<Value>>, at: usize) -> (r: usize)
    ensures
        r == column(models(rows@), at as int).len(),
{
    let ghost rs = models(rows@);
    let mut seen: SortedSet<Vec<Value>> = SortedSet::new();
    let mut i: usize = 0;
    while i < rows.len()
        invariant
            i <= rows@.len(),
            rs == models(rows@),
            forall|t: Seq<Value>| #[trigger]
                seen@.contains(t) <==> t.len() == 1 && in_column(rs.take(i as int), at as int, t[0]),
        decreases rows@.len() - i,
    {
        let row = &rows[i];
        let ghost before = seen@;
        assert(rs[i as int] == row@);
        if at < row.len() {
            let mut t: Vec<Value> = Vec::new();
            t.push(row[at]);
            let ghost tv = t@;
            assert(t.model() == tv);
            seen.insert(t);
            assert(seen@ == before.insert(tv));
        }
        proof {
            assert forall|u: Seq<Value>| #[trigger] seen@.contains(u) <==> u.len() == 1 && in_column(
                rs.take(i + 1),
                at as int,
                u[0],
            ) by {
                lemma_in_column(rs, at as int, i as int, u[0]);
                if u.len() == 1 && at < row@.len() && u[0] == row@[at as int] {
                    assert(u =~= seq![row@[at as int]]);
                }
                assert(before.contains(u) <==> u.len() == 1 && in_column(rs.take(i as int), at as int, u[0]));
            }
        }
        i += 1;
    }
    let n: usize = seen.len();
    proof {
        let f = |t: Seq<Value>| t[0];
        let c = column(rs, at as int);
        assert(rs.take(i as int) =~= rs);
        assert forall|x: Seq<Value>, y: Seq<Value>| seen@.contains(x) && seen@.contains(y) && #[trigger] f(x) == #[trigger] f(
            y,
        ) implies x == y by {
            assert(x =~= y);
        }
        assert forall|v: Value| c.contains(v) implies #[trigger] seen@.map(f).contains(v) by {
            assert(seen@.contains(seq![v]));
            assert(f(seq![v]) == v);
        }
        assert(seen@.map(f) =~= c);
        vstd::set_lib::lemma_map_size(seen@, c, f);
    }
    n
}

fn fold_column(f: AggFn, rows: &Vec<Vec<Value>>, at: usize) -> (r: i64)
    ensures
        r == folded(f, models(rows@), at as int),
{
    let ghost rs = models(rows@);
    let mut any = false;
    let mut min: i64 = 0;
    let mut max: i64 = 0;
    let mut sum: i64 = 0;
    let mut i: usize = 0;
    assert(rs.take(0) =~= Seq::empty());
    while i < rows.len()
        invariant
            i <= rows@.len(),
            rs == models(rows@),
            any == (int_column(rs.take(i as int), at as int).len() > 0),
            min == least(int_column(rs.take(i as int), at as int)),
            max == greatest(int_column(rs.take(i as int), at as int)),
            sum == total(int_column(rs.take(i as int), at as int)),
        decreases rows@.len() - i,
    {
        let row = &rows[i];
        assert(rs.take(i + 1).drop_last() =~= rs.take(i as int));
        assert(rs.take(i + 1).last() == row@);
        let ghost before = int_column(rs.take(i as int), at as int);
        if at < row.len() {
            match row[at] {
                Value::Int(x) => {
                    assert(before.push(x).drop_last() =~= before);
                    if !any || x < min {
                        min = x;
                    }
                    if !any || x > max {
                        max = x;
                    }
                    sum = sum.wrapping_add(x);
                    any = true;
                },
                Value::Sym(_) => {},
            }
        }
        i += 1;
    }
    assert(rs.take(rs.len() as int) =~= rs);
    match f {
        AggFn::Count => count_column(rows, at) as i64,
        AggFn::Min => min,
        AggFn::Max => max,
        AggFn::Sum => sum,
    }
}

/// The folded values of a group, one for each aggregate.
pub open spec fn fold_values(fns: Seq<AggFn>, rows: Seq<Seq<Value>>) -> Seq<Value> {
    Seq::new(fns.len(), |i: int| Value::Int(folded(fns[i], rows, i)))
}

/// The tuple reaches past the group columns.
pub open spec fn in_group(gl: int, g: Seq<Value>) -> spec_fn(Seq<Value>) -> bool {
    |k: Seq<Value>| k.len() >= gl && k.take(gl) == g
}

/// The groups of some tuples: their prefixes of the given length. A tuple
/// too short to have one belongs to no group.
pub open spec fn groups(keys: Seq<Seq<Value>>, gl: int) -> Set<Seq<Value>> {
    Set::new(|g: Seq<Value>| exists|i: int| 0 <= i < keys.len() && #[trigger] in_group(gl, g)(keys[i]))
}

/// What follows the prefix in the tuples of a group.
pub open spec fn group_rows(keys: Seq<Seq<Value>>, gl: int, g: Seq<Value>) -> Seq<Seq<Value>> {
    keys.filter(in_group(gl, g)).map_values(|k: Seq<Value>| k.skip(gl))
}

/// The pattern of all tuples with a prefix and as many further values.
pub open spec fn prefix_pattern(g: Seq<Value>, n: nat) -> Seq<Option<Value>> {
    g.map_values(|v: Value| Some(v)) + Seq::new(n, |i: int| None::<Value>)
}

/// The stored tuples that fit a pattern.
pub open spec fn matching(rels: RelsV, p: Seq<char>, pattern: Seq<Option<Value>>) -> Seq<Seq<Value>> {
    if rels.contains_key(p) {
        rel_lookup(rels[p], pattern).map_values(|id: int| rels[p].rows[id].key)
    } else {
        Seq::empty()
    }
}

/// The store after removing each of the tuples other than `keep`, and how
/// many there were.
pub open spec fn retract_others(st: StoreV, p: Seq<char>, olds: Seq<Seq<Value>>, keep: Seq<Value>) -> EvalV
    decreases olds.len(),
{
    if olds.len() == 0 {
        EvalV { st, new: 0 }
    } else if olds[0] != keep {
        let r = retract_others(store_retract(st, (p, olds[0])), p, olds.drop_first(), keep);
        EvalV { st: r.st, new: r.new + 1 }
    } else {
        retract_others(st, p, olds.drop_first(), keep)
    }
}

/// The name under which a fold is recorded.
pub open spec fn fold_label(c: ClauseV) -> Seq<char> {
    match c.name {
        Some(n) => n,
        None => "agg:"@ + c.head.pred,
    }
}

/// Folding one group: the tuple with the folded values replaces those with
/// the same prefix. It is supported by the first row of the group.
pub open spec fn fold_group(
    st: StoreV,
    c: ClauseV,
    temp: Seq<char>,
    g: Seq<Value>,
    rows: Seq<Seq<Value>>,
) -> EvalV {
    let fns = agg_fns(c.head.args);
    let p = c.head.pred;
    let out = g + fold_values(fns, rows);
    let r = retract_others(st, p, matching(st.rels, p, prefix_pattern(g, fns.len())), out);
    if holds(r.st.rels, (p, out)) {
        r
    } else {
        let support = SupportV::Rule { rule: fold_label(c), body: seq![(temp, g + rows[0])] };
        EvalV {
            st: store_assert(r.st, (p, out), FactV { ann: ann_unit(), supports: seq![support] }),
            new: r.new + 1,
        }
    }
}

/// Folding the given groups in turn.
pub open spec fn fold_groups(
    st: StoreV,
    c: ClauseV,
    temp: Seq<char>,
    keys: Seq<Seq<Value>>,
    gs: Seq<Seq<Value>>,
) -> EvalV
    decreases gs.len(),
{
    if gs.len() == 0 {
        EvalV { st, new: 0 }
    } else {
        let r = fold_group(st, c, temp, gs[0], group_rows(keys, group_len(c.head.args) as int, gs[0]));
        let rest = fold_groups(r.st, c, temp, keys, gs.drop_first());
        EvalV { st: rest.st, new: r.new + rest.new }
    }
}

/// The tuples of a relation, in row order.
pub open spec fn row_keys(r: RelV) -> Seq<Seq<Value>> {
    r.rows.map_values(|x: RowV| x.key)
}

/// Folding the body solutions of an aggregating rule into its head
/// predicate, group by group in ascending order.
pub open spec fn fold_clause(st: StoreV, c: ClauseV, ci: int) -> EvalV {
    let temp = temp_name(c, ci);
    if !st.rels.contains_key(temp) {
        EvalV { st, new: 0 }
    } else {
        let keys = row_keys(st.rels[temp]);
        let gs = enumerate::<Vec<Value>>(groups(keys, group_len(c.head.args) as int));
        fold_groups(st, c, temp, keys, gs)
    }
}

fn copy_range(v: &Vec<Value>, a: usize, b: usize) -> (r: Vec<Value>)
    requires
        a <= b <= v@.len(),
    ensures
        r@ == v@.subrange(a as int, b as int),
{
    let mut r: Vec<Value> = Vec::new();
    let mut i: usize = a;
    while i < b
        invariant
            a <= i <= b <= v@.len(),
            r@.len() == i - a,
            forall|j: int| 0 <= j < i - a ==> #[trigger] r@[j] == v@[a + j],
        decreases b - i,
    {
        r.push(v[i]);
        i += 1;
    }
    assert(r@ =~= v@.subrange(a as int, b as int));
    r
}

/// The stored tuples that fit a pattern.
pub fn matching_keys(store: &Store, p: &str, pattern: &Vec<Option<Value>>) -> (r: Vec<Vec<Value>>)
    requires
        rels_wf(store@.rels),
    ensures
        models(r@) == matching(store@.rels, p@, pattern@),
        models(r@).no_duplicates(),
        forall|i: int| 0 <= i < r@.len() ==> holds(store@.rels, (p@, #[trigger] models(r@)[i])),
{
    let mut r: Vec<Vec<Value>> = Vec::new();
    match store.relations.get(p) {
        Some(rel) => {
            let ids = rel.lookup(pattern);
            let ghost m = matching(store@.rels, p@, pattern@);
            proof {
                lemma_lookup(rel@, pattern@);
            }
            let mut i: usize = 0;
            while i < ids.len()
                invariant
                    i <= ids@.len(),
                    store@.rels.contains_key(p@),
                    rel@ == store@.rels[p@],
                    ids_view(ids@) == rel_lookup(rel@, pattern@),
                    m == matching(store@.rels, p@, pattern@),
                    forall|k: int| 0 <= k < ids@.len() ==> 0 <= #[trigger] rel_lookup(rel@, pattern@)[k] < rel@.rows.len(),
                    r@.len() == i,
                    forall|j: int| 0 <= j < i ==> #[trigger] models(r@)[j] == m[j],
                decreases ids@.len() - i,
            {
                let ghost r0 = models(r@);
                assert(ids_view(ids@)[i as int] == ids@[i as int]);
                assert(rel_lookup(rel@, pattern@)[i as int] == ids@[i as int]);
                r.push(copy_key(&rel.rows()[ids[i]].key));
                proof {
                    assert forall|j: int| 0 <= j < i + 1 implies #[trigger] models(r@)[j] == m[j] by {
                        if j < i {
                            assert(r0[j] == m[j]);
                        }
                    }
                }
                i += 1;
            }
            proof {
                let ids = rel_lookup(rel@, pattern@);
                assert(models(r@) =~= m);
                assert forall|i: int, j: int| 0 <= i < m.len() && 0 <= j < m.len() && i != j implies m[i] != m[j] by {
                    assert(ids[i] != ids[j]);
                    assert(m[i] == rel@.rows[ids[i]].key);
                    assert(m[j] == rel@.rows[ids[j]].key);
                }
                assert forall|i: int| 0 <= i < r@.len() implies holds(store@.rels, (p@, #[trigger] models(r@)[i])) by {
                    assert(rel@.rows[ids[i]].key == m[i]);
                }
            }
        },
        None => {
            assert(models(r@) =~= matching(store@.rels, p@, pattern@));
        },
    }
    r
}

fn retract_all_but(store: &mut Store, p: &str, olds: &Vec<Vec<Value>>, keep: &Vec<Value>) -> (r: usize)
    requires
        rels_wf(old(store)@.rels),
        models(olds@).no_duplicates(),
        forall|i: int| 0 <= i < olds@.len() ==> holds(old(store)@.rels, (p@, #[trigger] models(olds@)[i])),
    ensures
        final(store)@ == retract_others(old(store)@, p@, models(olds@), keep@).st,
        r == retract_others(old(store)@, p@, models(olds@), keep@).new,
        rels_wf(final(store)@.rels),
        r == final(store)@.feed.len() - old(store)@.feed.len(),
        final(store)@.log == old(store)@.log,
{
    let ghost os = models(olds@);
    let ghost want = retract_others(store@, p@, os, keep@);
    let ghost st0 = store@;
    let mut n: usize = 0;
    let mut i: usize = 0;
    assert(os.skip(0) =~= os);
    while i < olds.len()
        invariant
            i <= olds@.len(),
            n <= i,
            os == models(olds@),
            os.no_duplicates(),
            rels_wf(store@.rels),
            forall|j: int| i <= j < olds@.len() ==> holds(store@.rels, (p@, #[trigger] os[j])),
            ({
                let rest = retract_others(store@, p@, os.skip(i as int), keep@);
                want == EvalV { st: rest.st, new: rest.new + n as nat }
            }),
            n == store@.feed.len() - st0.feed.len(),
            store@.log == st0.log,
        decreases olds@.len() - i,
    {
        assert(os.skip(i as int)[0] == os[i as int]);
        assert(os.skip(i as int).drop_first() =~= os.skip(i + 1));
        assert(os[i as int] == olds@[i as int]@);
        if !same_key(&olds[i], keep) {
            let ghost before = store@.rels;
            store.retract(p, &olds[i]);
            proof {
                assert(holds(before, (p@, os[i as int])));
                assert forall|j: int| i + 1 <= j < olds@.len() implies holds(store@.rels, (p@, #[trigger] os[j])) by {
                    assert(os[j] != os[i as int]);
                    assert(holds(before, (p@, os[j])));
                    lemma_remove_keys(before[p@], os[i as int], os[j]);
                    let r1 = crate::relation::rel_remove(before[p@], os[i as int]);
                    let q = choose|q: int| 0 <= q < r1.rows.len() && (#[trigger] r1.rows[q]).key == os[j];
                    assert(store@.rels[p@].rows[q].key == os[j]);
                }
            }
            n += 1;
        }
        i += 1;
    }
    n
}

fn fold_one(store: &mut Store, c: &Clause, temp: &str, fns: &Vec<AggFn>, g: &Vec<Value>, rows: &Vec<Vec<Value>>) -> (r:
    usize)
    requires
        rels_wf(old(store)@.rels),
        fns@ == agg_fns(c@.head.args),
        rows@.len() > 0,
    ensures
        final(store)@ == fold_group(old(store)@, c@, temp@, g@, models(rows@)).st,
        r == fold_group(old(store)@, c@, temp@, g@, models(rows@)).new,
        rels_wf(final(store)@.rels),
        r == final(store)@.feed.len() - old(store)@.feed.len(),
        final(store)@.log.len() >= old(store)@.log.len(),
{
    let mut out = copy_key(g);
    let ghost rs = models(rows@);
    let mut pattern: Vec<Option<Value>> = Vec::new();
    let mut i: usize = 0;
    while i < g.len()
        invariant
            i <= g@.len(),
            pattern@.len() == i,
            forall|j: int| 0 <= j < i ==> #[trigger] pattern@[j] == Some(g@[j]),
        decreases g@.len() - i,
    {
        pattern.push(Some(g[i]));
        i += 1;
    }
    let mut a: usize = 0;
    while a < fns.len()
        invariant
            a <= fns@.len(),
            rs == models(rows@),
            out@.len() == g@.len() + a,
            pattern@.len() == g@.len() + a,
            forall|j: int| 0 <= j < g@.len() ==> #[trigger] out@[j] == g@[j],
            forall|j: int| 0 <= j < g@.len() ==> #[trigger] pattern@[j] == Some(g@[j]),
            forall|j: int| 0 <= j < a ==> #[trigger] out@[g@.len() + j] == Value::Int(folded(fns@[j], rs, j)),
            forall|j: int| g@.len() <= j < pattern@.len() ==> (#[trigger] pattern@[j]) is None,
        decreases fns@.len() - a,
    {
        out.push(Value::Int(fold_column(fns[a], rows, a)));
        pattern.push(None);
        a += 1;
    }
    proof {
        let w = g@ + fold_values(fns@, rs);
        assert forall|j: int| 0 <= j < w.len() implies out@[j] == w[j] by {
            if j >= g@.len() {
                let x = j - g@.len();
                assert(out@[g@.len() + x] == Value::Int(folded(fns@[x], rs, x)));
            }
        }
        assert(out@ =~= w);
        assert(pattern@ =~= prefix_pattern(g@, fns@.len()));
    }
    let p = c.head.pred.as_str();
    let olds = matching_keys(store, p, &pattern);
    let n = retract_all_but(store, p, &olds, &out);
    let exists = match store.relations.get(p) {
        Some(rel) => rel.contains(&out),
        None => false,
    };
    if exists {
        return n;
    }
    let rule = match &c.name {
        Some(name) => name.clone(),
        None => {
            let mut s = "agg:".to_owned();
            s.append(p);
            s
        },
    };
    let mut witness = copy_key(g);
    let mut j: usize = 0;
    let first = &rows[0];
    while j < first.len()
        invariant
            j <= first@.len(),
            witness@ == g@ + first@.take(j as int),
        decreases first@.len() - j,
    {
        witness.push(first[j]);
        assert(g@ + first@.take(j + 1) =~= (g@ + first@.take(j as int)).push(first@[j as int]));
        j += 1;
    }
    assert(first@.take(first@.len() as int) =~= first@);
    let mut body: Vec<Key> = Vec::new();
    body.push((temp.to_owned(), witness));
    assert(rs[0] == first@);
    assert(keys_view(body@) =~= seq![(temp@, g@ + rs[0])]);
    let mut supports: Vec<Support> = Vec::new();
    supports.push(Support::Rule { rule, body });
    assert(supports_view(supports@) =~= seq![SupportV::Rule { rule: fold_label(c@), body: seq![(temp@, g@ + rs[0])] }]);
    let size: usize = store.feed.len();
    let is_new = store.assert_fact(p, &out, StoredFact { ann: Ann::unit(), supports });
    let size2: usize = store.feed.len();
    assert(is_new);
    assert(store@.feed.len() == size2);
    n + 1
}

/// Folds the body solutions of an aggregating rule into its head predicate.
/// Gives the number of tuples removed and added.
pub fn fold_agg_clause(store: &mut Store, c: &Clause, ci: usize) -> (r: usize)
    requires
        rels_wf(old(store)@.rels),
    ensures
        final(store)@ == fold_clause(old(store)@, c@, ci as int).st,
        r == fold_clause(old(store)@, c@, ci as int).new,
        rels_wf(final(store)@.rels),
        final(store)@.log.len() >= old(store)@.log.len(),
{
    let temp = agg_temp_pred(c, ci);
    let (gl, fns) = head_shape(&c.head.args);
    let ghost args = c@.head.args;
    let keys = match store.relations.get(temp.as_str()) {
        Some(rel) => rel.keys(),
        None => {
            return 0;
        },
    };
    let ghost ks = models(keys@);
    assert(ks =~= row_keys(store@.rels[temp@]));
    let mut gset: SortedSet<Vec<Value>> = SortedSet::new();
    let mut i: usize = 0;
    while i < keys.len()
        invariant
            i <= keys@.len(),
            ks == models(keys@),
            forall|g: Seq<Value>| #[trigger]
                gset@.contains(g) <==> exists|j: int| 0 <= j < i && #[trigger] in_group(gl as int, g)(ks[j]),
        decreases keys@.len() - i,
    {
        let ghost g0 = gset@;
        assert(ks[i as int] == keys@[i as int]@);
        if keys[i].len() >= gl {
            gset.insert(copy_range(&keys[i], 0, gl));
        }
        proof {
            assert(ks[i as int].len() >= gl ==> ks[i as int].take(gl as int) =~= ks[i as int].subrange(0, gl as int));
            assert forall|g: Seq<Value>| #[trigger] gset@.contains(g) <==> exists|j: int|
                0 <= j < i + 1 && #[trigger] in_group(gl as int, g)(ks[j]) by {
                if g0.contains(g) {
                    let j = choose|j: int| 0 <= j < i && #[trigger] in_group(gl as int, g)(ks[j]);
                    assert(0 <= j < i + 1 && in_group(gl as int, g)(ks[j]));
                }
                if gset@.contains(g) && !g0.contains(g) {
                    assert(in_group(gl as int, g)(ks[i as int]));
                }
                if in_group(gl as int, g)(ks[i as int]) {
                    assert(gset@.contains(g));
                }
            }
        }
        i += 1;
    }
    assert(gset@ =~= groups(ks, gl as int));
    let gs = gset.items();
    let ghost gv = models(gs@);
    let ghost want = fold_groups(store@, c@, temp@, ks, gv);
    let ghost st0 = store@;
    let mut n: usize = 0;
    let mut k: usize = 0;
    assert(gv.skip(0) =~= gv);
    while k < gs.len()
        invariant
            k <= gs@.len(),
            gv == models(gs@),
            gv.to_set() == groups(ks, gl as int),
            ks == models(keys@),
            args == c@.head.args,
            gl == group_len(args),
            fns@ == agg_fns(args),
            rels_wf(store@.rels),
            n == store@.feed.len() - st0.feed.len(),
            st0.log.len() <= store@.log.len(),
            ({
                let rest = fold_groups(store@, c@, temp@, ks, gv.skip(k as int));
                want == EvalV { st: rest.st, new: rest.new + n as nat }
            }),
        decreases gs@.len() - k,
    {
        let g = &gs[k];
        assert(gv.skip(k as int)[0] == g@);
        assert(gv.skip(k as int).drop_first() =~= gv.skip(k + 1));
        let rows = rows_of_group(&keys, gl, g);
        proof {
            assert(gv[k as int] == g@);
            assert(gv.to_set().contains(g@));
            let j = choose|j: int| 0 <= j < ks.len() && #[trigger] in_group(gl as int, g@)(ks[j]);
            ks.lemma_filter_contains(in_group(gl as int, g@), j);
            assert(models(rows@).len() > 0);
        }
        let added = fold_one(store, c, temp.as_str(), &fns, g, &rows);
        let size: usize = store.feed.len();
        assert(size == store@.feed.len());
        n += added;
        k += 1;
    }
    n
}

/// What follows the prefix in the tuples of a group.
fn rows_of_group(keys: &Vec<Vec<Value>>, gl: usize, g: &Vec<Value>) -> (r: Vec<Vec<Value>>)
    ensures
        models(r@) == group_rows(models(keys@), gl as int, g@),
{
    let ghost ks = models(keys@);
    let ghost f = in_group(gl as int, g@);
    let ghost m = |k: Seq<Value>| k.skip(gl as int);
    let mut r: Vec<Vec<Value>> = Vec::new();
    let mut i: usize = 0;
    assert(ks.take(0) =~= Seq::empty());
    assert(models(r@) =~= group_rows(ks.take(0), gl as int, g@)) by {
        reveal(Seq::filter);
    }
    while i < keys.len()
        invariant
            i <= keys@.len(),
            ks == models(keys@),
            f == in_group(gl as int, g@),
            models(r@) == group_rows(ks.take(i as int), gl as int, g@),
        decreases keys@.len() - i,
    {
        let key = &keys[i];
        let ghost r0 = models(r@);
        proof {
            assert(ks[i as int] == key@);
            assert(ks.take(i + 1) =~= ks.take(i as int).push(key@));
            ks.take(i as int).lemma_filter_push(key@, f);
        }
        if key.len() >= gl {
            let prefix = copy_range(key, 0, gl);
            assert(key@.take(gl as int) =~= key@.subrange(0, gl as int));
            if same_key(&prefix, g) {
                r.push(copy_range(key, gl, key.len()));
                proof {
                    assert(key@.skip(gl as int) =~= key@.subrange(gl as int, key@.len() as int));
                    assert(models(r@) =~= r0.push(key@.skip(gl as int)));
                    assert(models(r@) =~= group_rows(ks.take(i + 1), gl as int, g@));
                }
            }
        }
        i += 1;
    }
    assert(ks.take(ks.len() as int) =~= ks);
    r
}

// ----------------------------------------------------------- one stratum

/// Folding the aggregating rules of a stratum, from position `i` on.
pub open spec fn fold_stratum(st: StoreV, cs: Seq<ClauseV>, idx: Seq<int>, i: int) -> StoreV
    decreases idx.len() - i,
{
    if i < 0 || i >= idx.len() {
        st
    } else if aggregates(cs[idx[i]]) {
        fold_stratum(fold_clause(st, cs[idx[i]], idx[i]).st, cs, idx, i + 1)
    } else {
        fold_stratum(st, cs, idx, i + 1)
    }
}

/// Evaluating a stratum: its rules are fired until nothing new is found,
/// starting from what is pending; then its aggregates are folded.
pub open spec fn eval_stratum_of(st: StoreV, now: i64, cs: Seq<ClauseV>, idx: Seq<int>) -> EvalV {
    let f = fixpoint(st, now, stratum_rules(cs, idx), pending_delta(st.rels));
    let e = fold_stratum(f.st, cs, idx, 0);
    EvalV { st: e, new: counted(e.log.skip(st.log.len() as int)) }
}

/// A name of the kind that intermediate relations have.
pub open spec fn is_temp(p: Seq<char>) -> bool {
    starts_with(p, "__agg:"@)
}

/// The facts of a log that are not of intermediate relations.
pub open spec fn counted(log: Seq<(u64, KeyV)>) -> nat
    decreases log.len(),
{
    if log.len() == 0 {
        0
    } else {
        counted(log.drop_last()) + (if is_temp(log.last().1.0) {
            0nat
        } else {
            1nat
        })
    }
}

/// The indices are those of clauses.
pub open spec fn indices_of(idx: Seq<int>, n: int) -> bool {
    forall|i: int| 0 <= i < idx.len() ==> 0 <= #[trigger] idx[i] < n
}

/// The number of facts in the log from a position on that are not of
/// intermediate relations.
fn count_logged(store: &Store, from: usize) -> (r: usize)
    requires
        from <= store@.log.len(),
    ensures
        r == counted(store@.log.skip(from as int)),
        r <= store@.log.len() - from,
{
    let ghost log = store@.log;
    let mut n: usize = 0;
    let mut i: usize = from;
    assert(log.subrange(from as int, from as int) =~= Seq::empty());
    while i < store.change_log.len()
        invariant
            from <= i <= store.change_log@.len(),
            log == log_view(store.change_log@),
            n == counted(log.subrange(from as int, i as int)),
            n <= i - from,
        decreases store.change_log@.len() - i,
    {
        assert(log.subrange(from as int, i + 1).drop_last() =~= log.subrange(from as int, i as int));
        assert(log[i as int].1.0 == store.change_log@[i as int].1.0@);
        if !text_starts_with(store.change_log[i].1.0.as_str(), "__agg:") {
            n += 1;
        }
        i += 1;
    }
    assert(log.subrange(from as int, log.len() as int) =~= log.skip(from as int));
    n
}

/// Evaluates one stratum. Gives the number of new facts, those of intermediate
/// relations not counted.
pub fn eval_stratum(store: &mut Store, now: i64, cs: &Vec<Clause>, idx: &Vec<usize>) -> (r: usize)
    requires
        rels_wf(old(store)@.rels),
        indices_of(ids_view(idx@), cs@.len() as int),
    ensures
        final(store)@ == eval_stratum_of(old(store)@, now, clauses_view(cs@), ids_view(idx@)).st,
        r == eval_stratum_of(old(store)@, now, clauses_view(cs@), ids_view(idx@)).new,
        rels_wf(final(store)@.rels),
        final(store)@.log.len() >= old(store)@.log.len(),
        r <= final(store)@.log.len() - old(store)@.log.len(),
        exists|n: nat| settles(
            old(store)@,
            now,
            stratum_rules(clauses_view(cs@), ids_view(idx@)),
            pending_delta(old(store)@.rels),
            n,
        ),
{
    let ghost v = clauses_view(cs@);
    let ghost ix = ids_view(idx@);
    let from: usize = store.change_log.len();
    let mut rules: Vec<Clause> = Vec::new();
    let mut i: usize = 0;
    while i < idx.len()
        invariant
            i <= idx@.len(),
            v == clauses_view(cs@),
            ix == ids_view(idx@),
            indices_of(ix, cs@.len() as int),
            rules@.len() == i,
            forall|j: int| 0 <= j < i ==> (#[trigger] rules@[j])@ == evaluated(v[ix[j]], ix[j]),
        decreases idx@.len() - i,
    {
        let ci = idx[i];
        assert(ix[i as int] == ci);
        assert(v[ci as int] == cs@[ci as int]@);
        let rule = if is_agg_clause(&cs[ci]) {
            lower_agg_clause(&cs[ci], ci)
        } else {
            cs[ci].duplicate()
        };
        rules.push(rule);
        i += 1;
    }
    assert(clauses_view(rules@) =~= stratum_rules(v, ix));
    let delta = initial_delta(store);
    run_rounds(store, now, &rules, delta);
    let ghost want = fold_stratum(store@, v, ix, 0);
    let ghost mid = store@;
    let mut k: usize = 0;
    while k < idx.len()
        invariant
            k <= idx@.len(),
            v == clauses_view(cs@),
            ix == ids_view(idx@),
            indices_of(ix, cs@.len() as int),
            rels_wf(store@.rels),
            want == fold_stratum(store@, v, ix, k as int),
            mid.log.len() <= store@.log.len(),
        decreases idx@.len() - k,
    {
        let ci = idx[k];
        assert(ix[k as int] == ci);
        assert(v[ci as int] == cs@[ci as int]@);
        if is_agg_clause(&cs[ci]) {
            fold_agg_clause(store, &cs[ci], ci);
        }
        k += 1;
    }
    count_logged(store, from)
}

} // verus!

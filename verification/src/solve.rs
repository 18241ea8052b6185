//! Solving rule bodies: joins over relations, negation, builtins, and the
//! emission of rule heads.

use vstd::prelude::*;
use vstd::string::StringExecFns;
use crate::ast::{terms_view, Atom, AtomV, Clause, ClauseV, Lit, LitV, Term, TermV};
use crate::builtins::{after_builtin, step_builtin};
use crate::env::{binding, lemma_extends_self, lemma_extends_trans, Bindings, Env, EnvV};
use crate::intern::{interned, symbol_of, with_name, Interner};
use crate::relation::{
    ann_join, copy_keys, has_key, ids_view, keys_view, lemma_insert_wf, lemma_lookup, rel_lookup, row_of, supports_view, FactV, Key,
    KeyV, StoredFact, Support, SupportV,
};
use crate::store::{holds, rel_at, rels_wf, store_assert, RelsV, Store, StoreV};
use crate::value::{copy_key, Sym, Value};

verus! {

// ------------------------------------------------------------ argument lists

/// The value that a term fixes in a pattern. An unknown symbol fixes a value
/// that no symbol equals.
pub open spec fn term_bound(names: Seq<Seq<char>>, t: TermV, map: Bindings) -> Option<Value> {
    match t {
        TermV::Int(i) => Some(Value::Int(i)),
        TermV::Agg(_, _) => None,
        TermV::Var(v) => binding(map, v),
        TermV::Sym(s) => match symbol_of(names, s) {
            Some(x) => Some(Value::Sym(x)),
            None => Some(Value::Int(i64::MIN)),
        },
        TermV::Wildcard => None,
    }
}

/// The pattern of an argument list under the bindings.
pub open spec fn bound_pattern(names: Seq<Seq<char>>, pat: Seq<TermV>, map: Bindings) -> Seq<Option<Value>> {
    pat.map_values(|t: TermV| term_bound(names, t, map))
}

/// What the terms of a pattern are bound to.
pub fn resolve_bound(interner: &Interner, pat: &Vec<Term>, env: &Env) -> (r: Vec<Option<Value>>)
    ensures
        r@ == bound_pattern(interner@, terms_view(pat@), env@.map),
{
    let mut r: Vec<Option<Value>> = Vec::new();
    let mut i: usize = 0;
    while i < pat.len()
        invariant
            i <= pat@.len(),
            r@.len() == i,
            forall|j: int| 0 <= j < i ==> #[trigger] r@[j] == term_bound(interner@, pat@[j]@, env@.map),
        decreases pat@.len() - i,
    {
        let b = match &pat[i] {
            Term::Int(n) => Some(Value::Int(*n)),
            Term::Agg(_, _) => None,
            Term::Var(v) => env.lookup(v.as_str()),
            Term::Sym(s) => match interner.lookup(s.as_str()) {
                Some(x) => Some(Value::Sym(x)),
                None => Some(Value::Int(i64::MIN)),
            },
            Term::Wildcard => None,
        };
        r.push(b);
        i += 1;
    }
    assert(r@ =~= bound_pattern(interner@, terms_view(pat@), env@.map));
    r
}

/// The bindings after matching one term with a value, where they match.
pub open spec fn bind_term(names: Seq<Seq<char>>, t: TermV, a: Value, map: Bindings) -> Option<Bindings> {
    let ok = match t {
        TermV::Wildcard => true,
        TermV::Agg(_, _) => false,
        TermV::Var(v) => !map.contains_key(v) || map[v] == a,
        TermV::Int(i) => Value::Int(i) == a,
        TermV::Sym(s) => match (symbol_of(names, s), a) {
            (Some(x), Value::Sym(y)) => x == y,
            _ => false,
        },
    };
    if !ok {
        None
    } else {
        match t {
            TermV::Var(v) => if map.contains_key(v) {
                Some(map)
            } else {
                Some(map.insert(v, a))
            },
            _ => Some(map),
        }
    }
}

/// The bindings after matching the terms from position `i` on.
pub open spec fn bind_from(
    names: Seq<Seq<char>>,
    pat: Seq<TermV>,
    args: Seq<Value>,
    i: int,
    map: Bindings,
) -> Option<Bindings>
    decreases pat.len() - i,
{
    if i < 0 || i >= pat.len() {
        Some(map)
    } else {
        match bind_term(names, pat[i], args[i], map) {
            Some(m) => bind_from(names, pat, args, i + 1, m),
            None => None,
        }
    }
}

/// The bindings after matching an argument list with a tuple, where they
/// match.
pub open spec fn bind_all(names: Seq<Seq<char>>, pat: Seq<TermV>, args: Seq<Value>, map: Bindings) -> Option<Bindings> {
    if pat.len() != args.len() {
        None
    } else {
        bind_from(names, pat, args, 0, map)
    }
}

/// Matches an argument list with a tuple; on success the environment holds
/// the new bindings.
pub fn bind_args(interner: &Interner, pat: &Vec<Term>, args: &Vec<Value>, env: &mut Env) -> (r: bool)
    ensures
        r == bind_all(interner@, terms_view(pat@), args@, old(env)@.map) is Some,
        r ==> final(env)@ == (EnvV {
            map: bind_all(interner@, terms_view(pat@), args@, old(env)@.map).unwrap(),
            ..old(env)@
        }),
        final(env).extends(*old(env)),
{
    proof {
        lemma_extends_self(*env);
    }
    if pat.len() != args.len() {
        return false;
    }
    let mut i: usize = 0;
    let ghost want = bind_all(interner@, terms_view(pat@), args@, env@.map);
    while i < pat.len()
        invariant
            i <= pat@.len(),
            pat@.len() == args@.len(),
            want == bind_from(interner@, terms_view(pat@), args@, i as int, env@.map),
            want == bind_all(interner@, terms_view(pat@), args@, old(env)@.map),
            env@.ann == old(env)@.ann,
            env@.keys == old(env)@.keys,
            env.extends(*old(env)),
        decreases pat@.len() - i,
    {
        let a = args[i];
        let ghost before = *env;
        assert(terms_view(pat@)[i as int] == pat@[i as int]@);
        let ok = match &pat[i] {
            Term::Wildcard => true,
            Term::Agg(_, _) => false,
            Term::Var(v) => match env.lookup(v.as_str()) {
                Some(b) => b == a,
                None => {
                    env.bind(v.as_str(), a);
                    proof {
                        lemma_extends_trans(*old(env), before, *env);
                    }
                    true
                },
            },
            Term::Int(n) => Value::Int(*n) == a,
            Term::Sym(s) => match (interner.lookup(s.as_str()), a) {
                (Some(x), Value::Sym(y)) => x == y,
                _ => false,
            },
        };
        if !ok {
            return false;
        }
        i += 1;
    }
    true
}

// ------------------------------------------------------------- rule heads

/// The head arguments from position `i` on, appended to `acc`: constants are
/// interned as they are met; an unbound variable, a wildcard or an aggregate
/// ends the evaluation without a result.
pub open spec fn head_from(
    names: Seq<Seq<char>>,
    args: Seq<TermV>,
    i: int,
    map: Bindings,
    acc: Seq<Value>,
) -> (Seq<Seq<char>>, Option<Seq<Value>>)
    decreases args.len() - i,
{
    if i < 0 || i >= args.len() {
        (names, Some(acc))
    } else {
        match args[i] {
            TermV::Sym(s) => head_from(with_name(names, s), args, i + 1, map, acc.push(Value::Sym(interned(names, s)))),
            TermV::Int(n) => head_from(names, args, i + 1, map, acc.push(Value::Int(n))),
            TermV::Var(v) => match binding(map, v) {
                Some(x) => head_from(names, args, i + 1, map, acc.push(x)),
                None => (names, None),
            },
            TermV::Wildcard => (names, None),
            TermV::Agg(_, _) => (names, None),
        }
    }
}

/// The head arguments under the bindings.
pub open spec fn head_values(
    names: Seq<Seq<char>>,
    args: Seq<TermV>,
    map: Bindings,
) -> (Seq<Seq<char>>, Option<Seq<Value>>) {
    head_from(names, args, 0, map, Seq::empty())
}

/// The tuple of a head under the bindings.
pub fn ground_head(interner: &mut Interner, args: &Vec<Term>, env: &Env) -> (r: Option<Vec<Value>>)
    ensures
        final(interner)@ == head_values(old(interner)@, terms_view(args@), env@.map).0,
        match r {
            Some(v) => head_values(old(interner)@, terms_view(args@), env@.map).1 == Some(v@),
            None => head_values(old(interner)@, terms_view(args@), env@.map).1 is None,
        },
{
    let mut acc: Vec<Value> = Vec::new();
    let mut i: usize = 0;
    let ghost want = head_values(interner@, terms_view(args@), env@.map);
    assert(acc@ =~= Seq::empty());
    while i < args.len()
        invariant
            i <= args@.len(),
            want == head_from(interner@, terms_view(args@), i as int, env@.map, acc@),
            want == head_values(old(interner)@, terms_view(args@), env@.map),
        decreases args@.len() - i,
    {
        assert(terms_view(args@)[i as int] == args@[i as int]@);
        match &args[i] {
            Term::Sym(s) => {
                let x = interner.intern(s.as_str());
                acc.push(Value::Sym(x));
            },
            Term::Int(n) => {
                acc.push(Value::Int(*n));
            },
            Term::Var(v) => match env.lookup(v.as_str()) {
                Some(x) => {
                    acc.push(x);
                },
                None => {
                    return None;
                },
            },
            Term::Wildcard => {
                return None;
            },
            Term::Agg(_, _) => {
                return None;
            },
        }
        i += 1;
    }
    Some(acc)
}

/// The name under which a rule's derivations are recorded.
pub open spec fn rule_label(c: ClauseV) -> Seq<char> {
    match c.name {
        Some(n) => n,
        None => "rule/"@ + c.head.pred,
    }
}

/// The store after a rule fired under an environment, and the fact if it is
/// new.
pub open spec fn emit(st: StoreV, c: ClauseV, env: EnvV) -> (StoreV, Option<KeyV>) {
    let h = head_values(st.names, c.head.args, env.map);
    let st1 = StoreV { names: h.0, ..st };
    match h.1 {
        None => (st1, None),
        Some(args) => {
            let k = (c.head.pred, args);
            let f = FactV { ann: env.ann, supports: seq![SupportV::Rule { rule: rule_label(c), body: env.keys }] };
            (
                store_assert(st1, k, f),
                if holds(st.rels, k) {
                    None
                } else {
                    Some(k)
                },
            )
        },
    }
}

/// The value of an optional key.
pub open spec fn key_opt(k: Option<Key>) -> Option<KeyV> {
    match k {
        Some(x) => Some(x@),
        None => None,
    }
}

/// What a rule is called in witnesses.
pub fn label_of(c: &Clause) -> (r: String)
    ensures
        r@ == rule_label(c@),
{
    match &c.name {
        Some(n) => n.clone(),
        None => {
            let mut s = "rule/".to_owned();
            s.append(c.head.pred.as_str());
            s
        },
    }
}

/// Fires a rule head: the fact is added, or merged where it is known. Gives
/// the fact if it is new.
pub fn emit_head(store: &mut Store, c: &Clause, env: &Env) -> (r: Option<Key>)
    requires
        rels_wf(old(store)@.rels),
    ensures
        final(store)@ == emit(old(store)@, c@, env@).0,
        key_opt(r) == emit(old(store)@, c@, env@).1,
        rels_wf(final(store)@.rels),
{
    let args = match ground_head(&mut store.interner, &c.head.args, env) {
        Some(a) => a,
        None => {
            return None;
        },
    };
    let support = Support::Rule { rule: label_of(c), body: copy_keys(&env.body_keys) };
    let mut supports: Vec<Support> = Vec::new();
    supports.push(support);
    assert(supports_view(supports@) =~= seq![support@]);
    let f = StoredFact { ann: env.ann.duplicate(), supports };
    let is_new = store.assert_fact(c.head.pred.as_str(), &args, f);
    if is_new {
        Some((c.head.pred.clone(), args))
    } else {
        None
    }
}

// ------------------------------------------------------------ rule bodies

/// The outcome of solving a body: the store, the environment, the new facts
/// and whether any was found.
#[verifier::ext_equal]
pub struct SolveV {
    pub st: StoreV,
    pub env: EnvV,
    pub out: Seq<KeyV>,
    pub found: bool,
}

/// The candidate rows for an atom.
pub open spec fn atom_rows(st: StoreV, a: AtomV, map: Bindings) -> Seq<int> {
    if st.rels.contains_key(a.pred) {
        rel_lookup(st.rels[a.pred], bound_pattern(st.names, a.args, map))
    } else {
        Seq::empty()
    }
}

/// The environment for one row of an atom, where they match.
pub open spec fn env_with_row(st: StoreV, a: AtomV, id: int, env: EnvV) -> Option<EnvV> {
    let row = st.rels[a.pred].rows[id];
    match bind_all(st.names, a.args, row.key, env.map) {
        Some(map) => Some(
            EnvV { map, ann: ann_join(env.ann, row.fact.ann), keys: env.keys.push((a.pred, row.key)) },
        ),
        None => None,
    }
}

/// Some stored row matches the atom.
pub open spec fn atom_matches(st: StoreV, a: AtomV, map: Bindings) -> bool {
    exists|k: int| 0 <= k < atom_rows(st, a, map).len() && bind_all(
        st.names,
        a.args,
        st.rels[a.pred].rows[#[trigger] atom_rows(st, a, map)[k]].key,
        map,
    ) is Some
}

/// Solving the body literals from `i` on, except `skip`. Each solution fires
/// the head; what it adds is seen by the joins that start after it.
pub open spec fn solve(st: StoreV, now: i64, c: ClauseV, i: int, skip: int, env: EnvV, out: Seq<KeyV>) -> SolveV
    decreases c.body.len() - i, 1int, 0int,
{
    if i < 0 || i >= c.body.len() {
        let e = emit(st, c, env);
        match e.1 {
            Some(k) => SolveV { st: e.0, env, out: out.push(k), found: true },
            None => SolveV { st: e.0, env, out, found: true },
        }
    } else if i == skip {
        solve(st, now, c, i + 1, skip, env, out)
    } else {
        match c.body[i] {
            LitV::Pos(a) => {
                let r = solve_rows(st, now, c, i, skip, env, out, a, atom_rows(st, a, env.map));
                SolveV { env, ..r }
            },
            LitV::Neg(a) => if atom_matches(st, a, env.map) {
                SolveV { st, env, out, found: false }
            } else {
                solve(st, now, c, i + 1, skip, env, out)
            },
            lit => match after_builtin(st.names, now, lit, env.map) {
                Some(map) => solve(st, now, c, i + 1, skip, EnvV { map, ..env }, out),
                None => SolveV { st, env, out, found: false },
            },
        }
    }
}

/// Solving the rest of the body for each of the given rows of the atom at
/// position `i`, in turn.
pub open spec fn solve_rows(
    st: StoreV,
    now: i64,
    c: ClauseV,
    i: int,
    skip: int,
    env: EnvV,
    out: Seq<KeyV>,
    a: AtomV,
    ids: Seq<int>,
) -> SolveV
    decreases c.body.len() - i, 0int, ids.len(),
{
    if i < 0 || i >= c.body.len() || ids.len() == 0 {
        SolveV { st, env, out, found: false }
    } else {
        match env_with_row(st, a, ids[0], env) {
            None => solve_rows(st, now, c, i, skip, env, out, a, ids.drop_first()),
            Some(e) => {
                let r = solve(st, now, c, i + 1, skip, e, out);
                let rest = solve_rows(r.st, now, c, i, skip, env, r.out, a, ids.drop_first());
                SolveV { found: r.found || rest.found, ..rest }
            },
        }
    }
}

/// Every relation of `a` is in `b`, with at least the same rows under the
/// same ids.
pub open spec fn grown(a: RelsV, b: RelsV) -> bool {
    forall|n: Seq<char>| #[trigger] a.contains_key(n) ==> b.contains_key(n) && a[n].rows.len() <= b[n].rows.len() && (
    forall|i: int| 0 <= i < a[n].rows.len() ==> (#[trigger] b[n].rows[i]).key == a[n].rows[i].key)
}

pub proof fn lemma_grown_trans(a: RelsV, b: RelsV, c: RelsV)
    requires
        grown(a, b),
        grown(b, c),
    ensures
        grown(a, c),
{
    assert forall|n: Seq<char>| #[trigger] a.contains_key(n) implies c.contains_key(n) && a[n].rows.len()
        <= c[n].rows.len() && (forall|i: int| 0 <= i < a[n].rows.len() ==> (#[trigger] c[n].rows[i]).key
        == a[n].rows[i].key) by {
        assert(b.contains_key(n));
        assert forall|i: int| 0 <= i < a[n].rows.len() implies (#[trigger] c[n].rows[i]).key == a[n].rows[i].key by {
            assert(b[n].rows[i].key == a[n].rows[i].key);
        }
    }
}

/// The second store holds all that the first holds, under the same ids:
/// symbols, rows, log and feed were only added to.
pub open spec fn store_extends(a: StoreV, b: StoreV) -> bool {
    &&& a.names.is_prefix_of(b.names)
    &&& a.log.is_prefix_of(b.log)
    &&& a.feed.is_prefix_of(b.feed)
    &&& a.epoch == b.epoch
    &&& a.retracted == b.retracted
    &&& grown(a.rels, b.rels)
    &&& rels_wf(b.rels)
}

pub proof fn lemma_prefix_trans<A>(a: Seq<A>, b: Seq<A>, c: Seq<A>)
    requires
        a.is_prefix_of(b),
        b.is_prefix_of(c),
    ensures
        a.is_prefix_of(c),
{
    assert(a =~= c.subrange(0, a.len() as int)) by {
        assert forall|i: int| 0 <= i < a.len() implies a[i] == c[i] by {
            assert(b.subrange(0, a.len() as int)[i] == b[i]);
            assert(c.subrange(0, b.len() as int)[i] == c[i]);
        }
    }
}

pub proof fn lemma_store_extends_self(a: StoreV)
    requires
        rels_wf(a.rels),
    ensures
        store_extends(a, a),
{
    assert(a.names =~= a.names.subrange(0, a.names.len() as int));
    assert(a.log =~= a.log.subrange(0, a.log.len() as int));
    assert(a.feed =~= a.feed.subrange(0, a.feed.len() as int));
}

pub proof fn lemma_store_extends_trans(a: StoreV, b: StoreV, c: StoreV)
    requires
        store_extends(a, b),
        store_extends(b, c),
    ensures
        store_extends(a, c),
{
    lemma_prefix_trans(a.names, b.names, c.names);
    lemma_prefix_trans(a.log, b.log, c.log);
    lemma_prefix_trans(a.feed, b.feed, c.feed);
    lemma_grown_trans(a.rels, b.rels, c.rels);
}

pub proof fn lemma_head_names(names: Seq<Seq<char>>, args: Seq<TermV>, i: int, map: Bindings, acc: Seq<Value>)
    ensures
        names.is_prefix_of(head_from(names, args, i, map, acc).0),
    decreases args.len() - i,
{
    assert(names =~= names.subrange(0, names.len() as int));
    if 0 <= i < args.len() {
        match args[i] {
            TermV::Sym(s) => {
                let n1 = with_name(names, s);
                assert(names =~= n1.subrange(0, names.len() as int));
                lemma_head_names(n1, args, i + 1, map, acc.push(Value::Sym(interned(names, s))));
                lemma_prefix_trans(
                    names,
                    n1,
                    head_from(n1, args, i + 1, map, acc.push(Value::Sym(interned(names, s)))).0,
                );
            },
            TermV::Int(n) => {
                lemma_head_names(names, args, i + 1, map, acc.push(Value::Int(n)));
            },
            TermV::Var(v) => {
                if let Some(x) = binding(map, v) {
                    lemma_head_names(names, args, i + 1, map, acc.push(x));
                }
            },
            TermV::Wildcard => {},
            TermV::Agg(_, _) => {},
        }
    }
}

/// Asserting a fact only adds.
pub proof fn lemma_store_assert(st: StoreV, k: KeyV, f: FactV)
    requires
        rels_wf(st.rels),
    ensures
        store_extends(st, store_assert(st, k, f)),
        holds(store_assert(st, k, f).rels, k),
        store_assert(st, k, f).log.len() == st.log.len() + (if holds(st.rels, k) { 0int } else { 1 }),
{
    let s1 = store_assert(st, k, f);
    lemma_store_extends_self(st);
    crate::relation::lemma_empty_wf();
    lemma_insert_wf(rel_at(st.rels, k.0), k.1, f);
    assert(st.log =~= s1.log.subrange(0, st.log.len() as int));
    assert(st.feed =~= s1.feed.subrange(0, st.feed.len() as int));
    assert(grown(st.rels, s1.rels));
    let r0 = rel_at(st.rels, k.0);
    let r1 = s1.rels[k.0];
    if holds(st.rels, k) {
        assert(r1.rows[row_of(r0, k.1)].key == k.1);
    } else {
        assert(!has_key(r0, k.1));
        assert(r1.rows[r0.rows.len() as int].key == k.1);
    }
}

/// Firing a head only adds.
pub proof fn lemma_emit(st: StoreV, c: ClauseV, env: EnvV)
    requires
        rels_wf(st.rels),
    ensures
        store_extends(st, emit(st, c, env).0),
        emit(st, c, env).0.log.len() == st.log.len() + (if emit(st, c, env).1 is Some { 1int } else { 0 }),
{
    let h = head_values(st.names, c.head.args, env.map);
    lemma_head_names(st.names, c.head.args, 0, env.map, Seq::empty());
    let st1 = StoreV { names: h.0, ..st };
    lemma_store_extends_self(st);
    assert(store_extends(st, st1));
    if let Some(args) = h.1 {
        let f = FactV { ann: env.ann, supports: seq![SupportV::Rule { rule: rule_label(c), body: env.keys }] };
        lemma_store_assert(st1, (c.head.pred, args), f);
        lemma_store_extends_trans(st, st1, store_assert(st1, (c.head.pred, args), f));
    }
}

/// Solving only adds, and each new fact is logged.
pub proof fn lemma_solve(st: StoreV, now: i64, c: ClauseV, i: int, skip: int, env: EnvV, out: Seq<KeyV>)
    requires
        rels_wf(st.rels),
    ensures
        store_extends(st, solve(st, now, c, i, skip, env, out).st),
        solve(st, now, c, i, skip, env, out).st.log.len() - st.log.len() == solve(st, now, c, i, skip, env, out).out.len()
            - out.len(),
    decreases c.body.len() - i, 1int, 0int,
{
    lemma_store_extends_self(st);
    if i < 0 || i >= c.body.len() {
        lemma_emit(st, c, env);
    } else if i == skip {
        lemma_solve(st, now, c, i + 1, skip, env, out);
    } else {
        match c.body[i] {
            LitV::Pos(a) => {
                lemma_solve_rows(st, now, c, i, skip, env, out, a, atom_rows(st, a, env.map));
            },
            LitV::Neg(a) => {
                if !atom_matches(st, a, env.map) {
                    lemma_solve(st, now, c, i + 1, skip, env, out);
                }
            },
            lit => {
                match after_builtin(st.names, now, lit, env.map) {
                    Some(map) => {
                        lemma_solve(st, now, c, i + 1, skip, EnvV { map, ..env }, out);
                    },
                    None => {},
                }
            },
        }
    }
}

pub proof fn lemma_solve_rows(
    st: StoreV,
    now: i64,
    c: ClauseV,
    i: int,
    skip: int,
    env: EnvV,
    out: Seq<KeyV>,
    a: AtomV,
    ids: Seq<int>,
)
    requires
        rels_wf(st.rels),
    ensures
        store_extends(st, solve_rows(st, now, c, i, skip, env, out, a, ids).st),
        solve_rows(st, now, c, i, skip, env, out, a, ids).st.log.len() - st.log.len() == solve_rows(
            st,
            now,
            c,
            i,
            skip,
            env,
            out,
            a,
            ids,
        ).out.len() - out.len(),
    decreases c.body.len() - i, 0int, ids.len(),
{
    lemma_store_extends_self(st);
    if i < 0 || i >= c.body.len() || ids.len() == 0 {
    } else {
        match env_with_row(st, a, ids[0], env) {
            None => {
                lemma_solve_rows(st, now, c, i, skip, env, out, a, ids.drop_first());
            },
            Some(e) => {
                lemma_solve(st, now, c, i + 1, skip, e, out);
                let r = solve(st, now, c, i + 1, skip, e, out);
                lemma_solve_rows(r.st, now, c, i, skip, env, r.out, a, ids.drop_first());
                lemma_store_extends_trans(
                    st,
                    r.st,
                    solve_rows(r.st, now, c, i, skip, env, r.out, a, ids.drop_first()).st,
                );
            },
        }
    }
}

/// Whether some stored row matches the atom.
pub fn matches_any(store: &Store, atom: &Atom, env: &Env) -> (r: bool)
    requires
        rels_wf(store@.rels),
    ensures
        r == atom_matches(store@, atom@, env@.map),
{
    let rel = match store.relations.get(atom.pred.as_str()) {
        Some(rel) => rel,
        None => {
            return false;
        },
    };
    let bound = resolve_bound(&store.interner, &atom.args, env);
    let ids = rel.lookup(&bound);
    let ghost rows = atom_rows(store@, atom@, env@.map);
    assert(rows == ids_view(ids@));
    let mut i: usize = 0;
    while i < ids.len()
        invariant
            i <= ids@.len(),
            rels_wf(store@.rels),
            store@.rels.contains_key(atom@.pred),
            rel@ == store@.rels[atom@.pred],
            rows == atom_rows(store@, atom@, env@.map),
            rows == ids_view(ids@),
            forall|k: int| 0 <= k < i ==> bind_all(
                store@.names,
                atom@.args,
                store@.rels[atom@.pred].rows[#[trigger] rows[k]].key,
                env@.map,
            ) is None,
        decreases ids@.len() - i,
    {
        proof {
            assert(rows[i as int] == ids@[i as int]);
            lemma_lookup(rel@, bound_pattern(store@.names, atom@.args, env@.map));
            assert(rows.contains(rows[i as int]));
        }
        let mut e = Env::new();
        e.map = env.map.duplicate();
        if bind_args(&store.interner, &atom.args, &rel.rows()[ids[i]].key, &mut e) {
            return true;
        }
        i += 1;
    }
    false
}

/// Solves the body literals from `i` on, except `skip`, firing the head for
/// each solution; tells whether there was one. The facts that were not known
/// before are added to `out`.
pub fn solve_all(store: &mut Store, now: i64, c: &Clause, i: usize, skip: usize, env: &mut Env, out: &mut Vec<Key>) -> (r:
    bool)
    requires
        rels_wf(old(store)@.rels),
        i <= c.body@.len(),
    ensures
        final(store)@ == solve(old(store)@, now, c@, i as int, skip as int, old(env)@, keys_view(old(out)@)).st,
        final(env)@ == solve(old(store)@, now, c@, i as int, skip as int, old(env)@, keys_view(old(out)@)).env,
        keys_view(final(out)@) == solve(
            old(store)@,
            now,
            c@,
            i as int,
            skip as int,
            old(env)@,
            keys_view(old(out)@),
        ).out,
        r == solve(old(store)@, now, c@, i as int, skip as int, old(env)@, keys_view(old(out)@)).found,
        rels_wf(final(store)@.rels),
        final(env).extends(*old(env)),
    decreases c.body@.len() - i, 1int, 0int,
{
    proof {
        lemma_extends_self(*env);
    }
    if i == c.body.len() {
        let ghost out0 = keys_view(out@);
        if let Some(k) = emit_head(store, c, env) {
            out.push(k);
            assert(keys_view(out@) =~= out0.push(k@));
        }
        return true;
    }
    if i == skip {
        return solve_all(store, now, c, i + 1, skip, env, out);
    }
    assert(c@.body[i as int] == c.body@[i as int]@);
    match &c.body[i] {
        Lit::Pos(atom) => {
            let bound = resolve_bound(&store.interner, &atom.args, env);
            let ids = match store.relations.get(atom.pred.as_str()) {
                Some(rel) => rel.lookup(&bound),
                None => Vec::new(),
            };
            proof {
                if store@.rels.contains_key(atom@.pred) {
                    lemma_lookup(store@.rels[atom@.pred], bound_pattern(store@.names, atom@.args, env@.map));
                    assert forall|k: int| 0 <= k < ids@.len() implies (#[trigger] ids@[k])
                        < store@.rels[atom@.pred].rows.len() by {
                        assert(ids_view(ids@)[k] == ids@[k]);
                    }
                } else {
                    assert(ids_view(ids@) =~= Seq::empty());
                }
            }
            solve_candidates(store, now, c, i, skip, env, out, atom, &ids)
        },
        Lit::Neg(atom) => {
            if matches_any(store, atom, env) {
                return false;
            }
            solve_all(store, now, c, i + 1, skip, env, out)
        },
        lit => {
            let ghost base = *env;
            if step_builtin(&store.interner, now, lit, env) {
                let ghost mid = *env;
                let r = solve_all(store, now, c, i + 1, skip, env, out);
                proof {
                    lemma_extends_trans(base, mid, *env);
                }
                r
            } else {
                false
            }
        },
    }
}

/// Solves the rest of the body for each candidate row of the atom at
/// position `i`.
fn solve_candidates(
    store: &mut Store,
    now: i64,
    c: &Clause,
    i: usize,
    skip: usize,
    env: &mut Env,
    out: &mut Vec<Key>,
    atom: &Atom,
    ids: &Vec<usize>,
) -> (r: bool)
    requires
        rels_wf(old(store)@.rels),
        i < c.body@.len(),
        ids@.len() > 0 ==> old(store)@.rels.contains_key(atom@.pred),
        forall|k: int| 0 <= k < ids@.len() ==> (#[trigger] ids@[k]) < old(store)@.rels[atom@.pred].rows.len(),
    ensures
        ({
            let w = solve_rows(
                old(store)@,
                now,
                c@,
                i as int,
                skip as int,
                old(env)@,
                keys_view(old(out)@),
                atom@,
                ids_view(ids@),
            );
            &&& final(store)@ == w.st
            &&& keys_view(final(out)@) == w.out
            &&& r == w.found
        }),
        final(env)@ == old(env)@,
        rels_wf(final(store)@.rels),
        final(env).extends(*old(env)),
    decreases c.body@.len() - i, 0int, ids@.len(),
{
    let mut any = false;
    let n: usize = c.body.len();
    let ghost base = *env;
    let ghost all = ids_view(ids@);
    let ghost rels0 = store@.rels;
    let ghost want = solve_rows(store@, now, c@, i as int, skip as int, env@, keys_view(out@), atom@, all);
    let mut k: usize = 0;
    proof {
        assert(all.skip(0) =~= all);
        lemma_extends_self(*env);
    }
    while k < ids.len()
        invariant
            k <= ids@.len(),
            i < n,
            n == c.body@.len(),
            all == ids_view(ids@),
            rels_wf(store@.rels),
            grown(rels0, store@.rels),
            env@ == base@,
            env.extends(base),
            ids@.len() > 0 ==> rels0.contains_key(atom@.pred),
            forall|j: int| 0 <= j < ids@.len() ==> (#[trigger] ids@[j]) < rels0[atom@.pred].rows.len(),
            ({
                let w = solve_rows(
                    store@,
                    now,
                    c@,
                    i as int,
                    skip as int,
                    env@,
                    keys_view(out@),
                    atom@,
                    all.skip(k as int),
                );
                want == SolveV { found: any || w.found, ..w }
            }),
        decreases ids@.len() - k,
    {
        let id = ids[k];
        assert(all.skip(k as int)[0] == id);
        assert(all.skip(k as int).drop_first() =~= all.skip(k + 1));
        assert(rels0.contains_key(atom@.pred));
        assert(store@.rels.contains_key(atom@.pred));
        let (key, ann) = match store.relations.get(atom.pred.as_str()) {
            Some(rel) => {
                let row = &rel.rows()[id];
                assert(rel@.rows[id as int] == row@);
                (copy_key(&row.key), row.fact.ann.duplicate())
            },
            None => {
                return false;
            },
        };
        let mark = env.mark();
        let ghost start = *env;
        env.ann = env.ann.join(&ann);
        let ghost keys0 = env@.keys;
        env.body_keys.push((atom.pred.clone(), copy_key(&key)));
        assert(env@.keys =~= keys0.push((atom@.pred, key@)));
        proof {
            assert(env.steps() == start.steps());
            assert(env.steps().take(start.steps().len() as int) =~= start.steps());
            assert(env@.keys.take(start@.keys.len() as int) =~= start@.keys);
            assert(env.extends(start));
        }
        let ghost pushed = *env;
        let matched = bind_args(&store.interner, &atom.args, &key, env);
        proof {
            lemma_extends_trans(start, pushed, *env);
        }
        let ghost bound_env = *env;
        if matched {
            let ghost st1 = store@;
            assert(env_with_row(store@, atom@, id as int, start@) == Some(env@));
            proof {
                lemma_solve(store@, now, c@, i + 1, skip as int, env@, keys_view(out@));
            }
            let found = solve_all(store, now, c, i + 1, skip, env, out);
            proof {
                lemma_extends_trans(start, bound_env, *env);
                lemma_grown_trans(rels0, st1.rels, store@.rels);
            }
            if found {
                any = true;
            }
        } else {
            assert(env_with_row(store@, atom@, id as int, start@) is None);
        }
        env.undo(&mark, Ghost(start));
        proof {
            assert(env.steps() == start.steps());
            lemma_same_extends(*env, start, base);
        }
        k += 1;
    }
    proof {
        lemma_same_extends(*env, *env, base);
    }
    any
}

proof fn lemma_same_extends(a: Env, b: Env, base: Env)
    requires
        a@ == b@,
        a.steps() == b.steps(),
        b.extends(base),
    ensures
        a.extends(base),
{
}

} // verus!

//! What the rules mean: evaluation finds the least set of facts that contains
//! the given ones and is closed under the rules.

use vstd::prelude::*;
use crate::ast::{AtomV, ClauseV, CmpOp, ExprV, LitV, TermV};
use crate::builtins::{after_builtin, compared, linear, term_value};
use crate::env::{binding, Bindings, EnvV};
use crate::evaluate::{
    args_of, delta_args, fire, fire_from, fire_keys, fire_rule, fixpoint, has_atom, lemma_fire_from, lemma_fire_keys, lemma_fire_rule,
    lemma_fixpoint, lemma_round_from, lemma_rounds, round, round_from, rounds, settles, start_env,
};
use crate::frame::{lemma_rounds_spares, lemma_solve_spares, same_facts, spares};
use crate::intern::{interned, symbol_of, with_name};
use crate::relation::{fits_fully, has_key, lemma_lookup, rel_lookup, KeyV};
use crate::restore::{known_key, known_value};
use crate::solve::{
    atom_matches, atom_rows, bind_all, bind_from, bind_term, bound_pattern, emit, env_with_row, head_from, head_values,
    lemma_head_names, lemma_prefix_trans, lemma_solve, lemma_solve_rows, lemma_store_assert, solve, solve_rows,
    store_extends, term_bound,
};
use crate::sorted_set::lemma_enumerable;
use crate::store::{holds, rels_wf, store_assert, RelsV, StoreV};
use crate::value::{Sym, Value};

verus! {

// ------------------------------------------------------------------ meaning

/// The facts of a store.
pub open spec fn facts(rels: RelsV) -> Set<KeyV> {
    Set::new(|k: KeyV| holds(rels, k))
}

/// The term stands for the value, under a valuation of the variables.
pub open spec fn term_is(names: Seq<Seq<char>>, t: TermV, v: Value, s: Bindings) -> bool {
    match t {
        TermV::Wildcard => true,
        TermV::Agg(_, _) => false,
        TermV::Var(x) => s.contains_key(x) && s[x] == v,
        TermV::Int(i) => v == Value::Int(i),
        TermV::Sym(n) => symbol_of(names, n) is Some && v == Value::Sym(symbol_of(names, n)->Some_0),
    }
}

/// The tuple is an instance of the atom.
pub open spec fn is_instance(names: Seq<Seq<char>>, args: Seq<TermV>, key: Seq<Value>, s: Bindings) -> bool {
    args.len() == key.len() && forall|i: int| 0 <= i < args.len() ==> term_is(names, #[trigger] args[i], key[i], s)
}

/// The value of an expression.
pub open spec fn expr_value(names: Seq<Seq<char>>, e: ExprV, s: Bindings) -> Option<Value>
    decreases e,
{
    match e {
        ExprV::T(t) => term_value(names, t, s),
        ExprV::Add(a, b) => match (expr_value(names, *a, s), expr_value(names, *b, s)) {
            (Some(Value::Int(x)), Some(Value::Int(y))) => Some(Value::Int(x.wrapping_add(y))),
            _ => None,
        },
        ExprV::Sub(a, b) => match (expr_value(names, *a, s), expr_value(names, *b, s)) {
            (Some(Value::Int(x)), Some(Value::Int(y))) => Some(Value::Int(x.wrapping_sub(y))),
            _ => None,
        },
    }
}

/// Some fact of a set is an instance of the atom.
pub open spec fn has_instance(names: Seq<Seq<char>>, a: AtomV, m: Set<KeyV>, s: Bindings) -> bool {
    exists|key: Seq<Value>| m.contains((a.pred, key)) && #[trigger] is_instance(names, a.args, key, s)
}

/// A literal is true under a valuation: atoms in one set of facts, negated
/// atoms judged by another.
pub open spec fn lit_true(names: Seq<Seq<char>>, now: i64, l: LitV, m: Set<KeyV>, n: Set<KeyV>, s: Bindings) -> bool {
    match l {
        LitV::Pos(a) => has_instance(names, a, m, s),
        LitV::Neg(a) => !has_instance(names, a, n, s),
        LitV::Cmp(op, a, b) => match (term_value(names, a, s), expr_value(names, b, s)) {
            (Some(x), Some(y)) => compared(op, x, y),
            _ => false,
        },
        LitV::Now(t) => match t {
            TermV::Wildcard => true,
            TermV::Int(i) => i == now,
            TermV::Var(x) => s.contains_key(x) && s[x] == Value::Int(now),
            _ => false,
        },
    }
}

/// The body of a rule is true under a valuation.
pub open spec fn body_true(names: Seq<Seq<char>>, now: i64, c: ClauseV, m: Set<KeyV>, n: Set<KeyV>, s: Bindings) -> bool {
    forall|j: int| 0 <= j < c.body.len() ==> lit_true(names, now, #[trigger] c.body[j], m, n, s)
}

/// The fact that a rule derives under a valuation.
pub open spec fn head_fact(names: Seq<Seq<char>>, c: ClauseV, s: Bindings) -> Option<KeyV> {
    match head_values(names, c.head.args, s).1 {
        Some(args) => Some((c.head.pred, args)),
        None => None,
    }
}

/// Wherever the body of a rule is true in a set of facts, its head is in
/// another.
pub open spec fn leads_into(
    names: Seq<Seq<char>>,
    now: i64,
    c: ClauseV,
    m: Set<KeyV>,
    n: Set<KeyV>,
    into: Set<KeyV>,
) -> bool {
    forall|s: Bindings| #[trigger]
        body_true(names, now, c, m, n, s) && head_fact(names, c, s) is Some ==> into.contains(head_fact(names, c, s)->Some_0)
}

/// A set of facts is closed under rules, with negated atoms judged by
/// another.
pub open spec fn closed_under(names: Seq<Seq<char>>, now: i64, cs: Seq<ClauseV>, m: Set<KeyV>, n: Set<KeyV>) -> bool {
    forall|i: int| 0 <= i < cs.len() ==> leads_into(names, now, #[trigger] cs[i], m, n, m)
}

// ------------------------------------------------------------------- safety

/// A variable occurs among the terms.
pub open spec fn occurs(args: Seq<TermV>, v: Seq<char>) -> bool {
    exists|i: int| 0 <= i < args.len() && #[trigger] args[i] == TermV::Var(v)
}

/// A variable occurs in the expression.
pub open spec fn occurs_in(e: ExprV, v: Seq<char>) -> bool
    decreases e,
{
    match e {
        ExprV::T(t) => t == TermV::Var(v),
        ExprV::Add(a, b) => occurs_in(*a, v) || occurs_in(*b, v),
        ExprV::Sub(a, b) => occurs_in(*a, v) || occurs_in(*b, v),
    }
}

/// The literal gives the variable a value.
pub open spec fn gives(l: LitV, v: Seq<char>) -> bool {
    match l {
        LitV::Pos(a) => occurs(a.args, v),
        LitV::Now(t) => t == TermV::Var(v),
        LitV::Cmp(op, a, b) => op == CmpOp::Eq && a == TermV::Var(v),
        LitV::Neg(_) => false,
    }
}

/// The variable has a value before the literal at a position.
pub open spec fn given(c: ClauseV, i: int, v: Seq<char>) -> bool {
    exists|j: int| 0 <= j < i && j < c.body.len() && gives(#[trigger] c.body[j], v)
}

/// The variables that a literal reads have values before it.
pub open spec fn is_ready(c: ClauseV, i: int) -> bool {
    match c.body[i] {
        LitV::Pos(_) => true,
        LitV::Now(_) => true,
        LitV::Neg(a) => forall|v: Seq<char>| #[trigger] occurs(a.args, v) ==> given(c, i, v),
        LitV::Cmp(op, a, b) => (forall|v: Seq<char>| #[trigger] occurs_in(b, v) ==> given(c, i, v)) && (match a {
            TermV::Var(v) => given(c, i, v) || op == CmpOp::Eq,
            _ => true,
        }),
    }
}

/// A rule in which every variable has a value before it is read.
pub open spec fn is_safe(c: ClauseV) -> bool {
    &&& forall|i: int| 0 <= i < c.body.len() ==> #[trigger] is_ready(c, i)
    &&& forall|v: Seq<char>| #[trigger] occurs(c.head.args, v) ==> given(c, c.body.len() as int, v)
}

/// The constants of comparisons are known symbols.
pub open spec fn constants_known(names: Seq<Seq<char>>, c: ClauseV) -> bool {
    forall|i: int| 0 <= i < c.body.len() ==> lit_constants_known(names, #[trigger] c.body[i])
}

pub open spec fn lit_constants_known(names: Seq<Seq<char>>, l: LitV) -> bool {
    match l {
        LitV::Cmp(_, a, b) => term_known(names, a) && expr_known(names, b),
        _ => true,
    }
}

pub open spec fn term_known(names: Seq<Seq<char>>, t: TermV) -> bool {
    match t {
        TermV::Sym(s) => names.contains(s),
        _ => true,
    }
}

pub open spec fn expr_known(names: Seq<Seq<char>>, e: ExprV) -> bool
    decreases e,
{
    match e {
        ExprV::T(t) => term_known(names, t),
        ExprV::Add(a, b) => expr_known(names, *a) && expr_known(names, *b),
        ExprV::Sub(a, b) => expr_known(names, *a) && expr_known(names, *b),
    }
}

// ---------------------------------------------------------------- valuations

/// The bindings agree with a valuation.
pub open spec fn within(map: Bindings, s: Bindings) -> bool {
    forall|v: Seq<char>| #[trigger] map.contains_key(v) ==> s.contains_key(v) && s[v] == map[v]
}

/// The values of bindings are known.
pub open spec fn known_map(names: Seq<Seq<char>>, map: Bindings) -> bool {
    forall|v: Seq<char>| #[trigger] map.contains_key(v) ==> known_value(names, map[v])
}

/// Symbols that both know are the same.
pub proof fn lemma_symbol(a: Seq<Seq<char>>, b: Seq<Seq<char>>, s: Seq<char>)
    requires
        a.is_prefix_of(b),
        b.no_duplicates(),
        b.len() < usize::MAX,
    ensures
        a.contains(s) ==> symbol_of(a, s) == symbol_of(b, s),
        symbol_of(b, s) is Some && symbol_of(b, s)->Some_0.0 < a.len() ==> symbol_of(a, s) == symbol_of(b, s),
{
    assert forall|i: int| 0 <= i < a.len() implies a[i] == b[i] by {}
    if a.contains(s) {
        let i = a.index_of(s);
        assert(a[i] == s && b[i] == s);
        assert(b.contains(s));
        let j = b.index_of(s);
        assert(b[j] == s);
        assert(i == j);
    }
    if b.contains(s) {
        let j = b.index_of(s);
        assert(b[j] == s);
        if j < a.len() {
            assert(a[j] == s);
            assert(a.contains(s));
        }
    }
}

pub proof fn lemma_bind_from_keeps(names: Seq<Seq<char>>, pat: Seq<TermV>, args: Seq<Value>, i: int, map: Bindings)
    requires
        bind_from(names, pat, args, i, map) is Some,
    ensures
        within(map, bind_from(names, pat, args, i, map)->Some_0),
    decreases pat.len() - i,
{
    if 0 <= i < pat.len() {
        let m = bind_term(names, pat[i], args[i], map)->Some_0;
        lemma_bind_from_keeps(names, pat, args, i + 1, m);
        let r = bind_from(names, pat, args, i, map)->Some_0;
        assert forall|v: Seq<char>| #[trigger] map.contains_key(v) implies r.contains_key(v) && r[v] == map[v] by {
            assert(m.contains_key(v));
        }
    }
}

/// An instance can be bound, within the valuation.
pub proof fn lemma_bind_from_finds(
    a: Seq<Seq<char>>,
    b: Seq<Seq<char>>,
    pat: Seq<TermV>,
    args: Seq<Value>,
    i: int,
    map: Bindings,
    s: Bindings,
)
    requires
        a.is_prefix_of(b),
        b.no_duplicates(),
        b.len() < usize::MAX,
        0 <= i <= pat.len(),
        is_instance(b, pat, args, s),
        known_key(a, args),
        within(map, s),
    ensures
        bind_from(a, pat, args, i, map) is Some,
        within(bind_from(a, pat, args, i, map)->Some_0, s),
    decreases pat.len() - i,
{
    if i < pat.len() {
        assert(term_is(b, pat[i], args[i], s));
        assert(known_value(a, args[i]));
        if let TermV::Sym(n) = pat[i] {
            lemma_symbol(a, b, n);
        }
        let m = bind_term(a, pat[i], args[i], map);
        assert(m is Some);
        lemma_bind_from_finds(a, b, pat, args, i + 1, m->Some_0, s);
    }
}

/// What was bound is an instance, under every valuation that agrees.
pub proof fn lemma_bind_from_means(
    a: Seq<Seq<char>>,
    b: Seq<Seq<char>>,
    pat: Seq<TermV>,
    args: Seq<Value>,
    i: int,
    map: Bindings,
    s: Bindings,
)
    requires
        a.is_prefix_of(b),
        b.no_duplicates(),
        b.len() < usize::MAX,
        0 <= i <= pat.len(),
        bind_from(a, pat, args, i, map) is Some,
        within(bind_from(a, pat, args, i, map)->Some_0, s),
    ensures
        forall|k: int| i <= k < pat.len() ==> term_is(b, #[trigger] pat[k], args[k], s),
    decreases pat.len() - i,
{
    if i < pat.len() {
        let m = bind_term(a, pat[i], args[i], map)->Some_0;
        lemma_bind_from_means(a, b, pat, args, i + 1, m, s);
        lemma_bind_from_keeps(a, pat, args, i + 1, m);
        assert(term_is(b, pat[i], args[i], s)) by {
            match pat[i] {
                TermV::Var(v) => {
                    assert(m.contains_key(v) && m[v] == args[i]);
                },
                TermV::Sym(n) => {
                    lemma_symbol(a, b, n);
                },
                _ => {},
            }
        }
    }
}

/// Binding gives values to the variables of the pattern and to no others.
pub proof fn lemma_bind_from_vars(names: Seq<Seq<char>>, pat: Seq<TermV>, args: Seq<Value>, i: int, map: Bindings)
    requires
        0 <= i <= pat.len(),
        pat.len() == args.len(),
        bind_from(names, pat, args, i, map) is Some,
    ensures
        ({
            let m = bind_from(names, pat, args, i, map)->Some_0;
            &&& forall|k: int| i <= k < pat.len() ==> (match #[trigger] pat[k] {
                TermV::Var(v) => m.contains_key(v),
                _ => true,
            })
            &&& forall|v: Seq<char>| #[trigger] m.contains_key(v) ==> map.contains_key(v) || occurs(pat, v)
            &&& forall|n: Seq<Seq<char>>|
                #[trigger] known_map(n, map) && known_key(n, args) ==> known_map(n, m)
        }),
    decreases pat.len() - i,
{
    if i < pat.len() {
        let m1 = bind_term(names, pat[i], args[i], map)->Some_0;
        lemma_bind_from_vars(names, pat, args, i + 1, m1);
        lemma_bind_from_keeps(names, pat, args, i + 1, m1);
        let m = bind_from(names, pat, args, i, map)->Some_0;
        assert forall|k: int| i <= k < pat.len() implies (match #[trigger] pat[k] {
            TermV::Var(v) => m.contains_key(v),
            _ => true,
        }) by {
            if k == i {
                if let TermV::Var(v) = pat[i] {
                    assert(m1.contains_key(v));
                }
            }
        }
        assert forall|v: Seq<char>| #[trigger] m.contains_key(v) implies map.contains_key(v) || occurs(pat, v) by {
            if m1.contains_key(v) && !map.contains_key(v) {
                assert(pat[i] == TermV::Var(v));
            }
        }
        assert forall|n: Seq<Seq<char>>| #[trigger] known_map(n, map) && known_key(n, args) implies known_map(n, m) by {
            assert(known_value(n, args[i]));
            assert(known_map(n, m1));
        }
    }
}

/// A fact that can be bound is among the rows looked up.
pub proof fn lemma_found(st: StoreV, a: AtomV, map: Bindings, key: Seq<Value>) -> (k: int)
    requires
        rels_wf(st.rels),
        holds(st.rels, (a.pred, key)),
        bind_all(st.names, a.args, key, map) is Some,
    ensures
        0 <= k < atom_rows(st, a, map).len(),
        0 <= atom_rows(st, a, map)[k] < st.rels[a.pred].rows.len(),
        st.rels[a.pred].rows[atom_rows(st, a, map)[k]].key == key,
{
    let r = st.rels[a.pred];
    let b = bound_pattern(st.names, a.args, map);
    lemma_lookup(r, b);
    let id = choose|i: int| 0 <= i < r.rows.len() && (#[trigger] r.rows[i]).key == key;
    assert(fits_fully(b, r.rows[id].key)) by {
        assert forall|i: int| 0 <= i < b.len() && (#[trigger] b[i]) is Some implies i < key.len() && b[i] == Some(key[i]) by {
            assert(b[i] == term_bound(st.names, a.args[i], map));
            lemma_bound_agrees(st.names, a.args, key, 0, i, map);
        }
    }
    assert(rel_lookup(r, b).contains(id));
    let k = choose|k: int| 0 <= k < rel_lookup(r, b).len() && rel_lookup(r, b)[k] == id;
    k
}

/// A bound position agrees with what was bound to it.
proof fn lemma_bound_agrees(names: Seq<Seq<char>>, pat: Seq<TermV>, args: Seq<Value>, i: int, k: int, map: Bindings)
    requires
        0 <= i <= k < pat.len(),
        pat.len() == args.len(),
        bind_from(names, pat, args, i, map) is Some,
        term_bound(names, pat[k], map) is Some,
    ensures
        term_bound(names, pat[k], map) == Some(args[k]),
    decreases k - i,
{
    if i < k {
        let m = bind_term(names, pat[i], args[i], map)->Some_0;
        assert(term_bound(names, pat[k], m) == term_bound(names, pat[k], map));
        lemma_bound_agrees(names, pat, args, i + 1, k, m);
    }
}

// ----------------------------------------------------------------- builtins

proof fn lemma_term_value(a: Seq<Seq<char>>, b: Seq<Seq<char>>, t: TermV, map: Bindings, s: Bindings)
    requires
        a.is_prefix_of(b),
        b.no_duplicates(),
        b.len() < usize::MAX,
        term_known(a, t),
        within(map, s),
        match t {
            TermV::Var(v) => map.contains_key(v),
            _ => true,
        },
    ensures
        term_value(a, t, map) == term_value(b, t, s),
{
    if let TermV::Sym(n) = t {
        lemma_symbol(a, b, n);
    }
}

/// With all its variables bound an expression is linear exactly if it has an
/// integer value, and that value is its shift.
pub proof fn lemma_linear(a: Seq<Seq<char>>, b: Seq<Seq<char>>, e: ExprV, map: Bindings, s: Bindings)
    requires
        a.is_prefix_of(b),
        b.no_duplicates(),
        b.len() < usize::MAX,
        expr_known(a, e),
        within(map, s),
        forall|v: Seq<char>| #[trigger] occurs_in(e, v) ==> map.contains_key(v),
    ensures
        match linear(e, map) {
            Some(f) => f.coeff == 0 && f.var is None && expr_value(b, e, s) == Some(Value::Int(f.shift)),
            None => match expr_value(b, e, s) {
                Some(Value::Int(_)) => false,
                _ => true,
            },
        },
    decreases e,
{
    match e {
        ExprV::T(t) => {
            match t {
                TermV::Var(v) => {
                    assert(occurs_in(e, v));
                    assert(map.contains_key(v));
                },
                _ => {},
            }
        },
        ExprV::Add(x, y) => {
            assert forall|v: Seq<char>| #[trigger] occurs_in(*x, v) implies map.contains_key(v) by {
                assert(occurs_in(e, v));
            }
            assert forall|v: Seq<char>| #[trigger] occurs_in(*y, v) implies map.contains_key(v) by {
                assert(occurs_in(e, v));
            }
            lemma_linear(a, b, *x, map, s);
            lemma_linear(a, b, *y, map, s);
        },
        ExprV::Sub(x, y) => {
            assert forall|v: Seq<char>| #[trigger] occurs_in(*x, v) implies map.contains_key(v) by {
                assert(occurs_in(e, v));
            }
            assert forall|v: Seq<char>| #[trigger] occurs_in(*y, v) implies map.contains_key(v) by {
                assert(occurs_in(e, v));
            }
            lemma_linear(a, b, *x, map, s);
            lemma_linear(a, b, *y, map, s);
        },
    }
}

/// The variables that a built-in reads are bound.
pub open spec fn builtin_ready(l: LitV, map: Bindings) -> bool {
    match l {
        LitV::Now(_) => true,
        LitV::Cmp(op, a, b) => (forall|v: Seq<char>| #[trigger] occurs_in(b, v) ==> map.contains_key(v)) && (match a {
            TermV::Var(v) => map.contains_key(v) || op == CmpOp::Eq,
            _ => true,
        }),
        _ => false,
    }
}

/// A built-in that is true succeeds, within the valuation.
pub proof fn lemma_builtin_finds(
    a: Seq<Seq<char>>,
    b: Seq<Seq<char>>,
    now: i64,
    l: LitV,
    map: Bindings,
    s: Bindings,
    m: Set<KeyV>,
    n: Set<KeyV>,
)
    requires
        a.is_prefix_of(b),
        b.no_duplicates(),
        b.len() < usize::MAX,
        lit_constants_known(a, l),
        within(map, s),
        builtin_ready(l, map),
        lit_true(b, now, l, m, n, s),
    ensures
        after_builtin(a, now, l, map) is Some,
        within(after_builtin(a, now, l, map)->Some_0, s),
{
    match l {
        LitV::Cmp(op, x, y) => {
            lemma_linear(a, b, y, map, s);
            if let ExprV::T(t) = y {
                if let TermV::Var(v) = t {
                    assert(occurs_in(y, v));
                }
                lemma_term_value(a, b, t, map, s);
            }
            match x {
                TermV::Var(v) => {
                    if map.contains_key(v) {
                        lemma_term_value(a, b, x, map, s);
                    }
                },
                _ => {
                    lemma_term_value(a, b, x, map, s);
                },
            }
        },
        _ => {},
    }
}

/// A built-in that succeeds is true, under every valuation that agrees.
proof fn lemma_builtin_means(
    a: Seq<Seq<char>>,
    b: Seq<Seq<char>>,
    now: i64,
    l: LitV,
    map: Bindings,
    s: Bindings,
    m: Set<KeyV>,
    n: Set<KeyV>,
)
    requires
        a.is_prefix_of(b),
        b.no_duplicates(),
        b.len() < usize::MAX,
        lit_constants_known(a, l),
        builtin_ready(l, map),
        after_builtin(a, now, l, map) is Some,
        within(after_builtin(a, now, l, map)->Some_0, s),
    ensures
        within(map, after_builtin(a, now, l, map)->Some_0),
        lit_true(b, now, l, m, n, s),
{
    let r = after_builtin(a, now, l, map)->Some_0;
    match l {
        LitV::Cmp(op, x, y) => {
            assert(within(map, r)) by {
                lemma_linear(a, a, y, map, map);
            }
            assert(within(map, s)) by {
                assert forall|v: Seq<char>| #[trigger] map.contains_key(v) implies s.contains_key(v) && s[v] == map[v] by {
                    assert(r.contains_key(v));
                }
            }
            lemma_linear(a, b, y, map, s);
            if let ExprV::T(t) = y {
                if let TermV::Var(v) = t {
                    assert(occurs_in(y, v));
                }
                lemma_term_value(a, b, t, map, s);
            }
            match x {
                TermV::Var(v) => {
                    if map.contains_key(v) {
                        lemma_term_value(a, b, x, map, s);
                    } else {
                        assert(r.contains_key(v));
                    }
                },
                _ => {
                    lemma_term_value(a, b, x, map, s);
                },
            }
        },
        LitV::Now(t) => {
            if let TermV::Var(v) = t {
                assert(r.contains_key(v));
            }
        },
        _ => {},
    }
}

/// A built-in binds known values, and what it gives.
pub proof fn lemma_builtin_vars(names: Seq<Seq<char>>, now: i64, l: LitV, map: Bindings)
    requires
        builtin_ready(l, map),
        after_builtin(names, now, l, map) is Some,
    ensures
        known_map(names, map) ==> known_map(names, after_builtin(names, now, l, map)->Some_0),
        forall|v: Seq<char>| #[trigger] gives(l, v) ==> after_builtin(names, now, l, map)->Some_0.contains_key(v),
        within(map, after_builtin(names, now, l, map)->Some_0),
{
    let r = after_builtin(names, now, l, map)->Some_0;
    if let LitV::Cmp(op, x, y) = l {
        lemma_linear_bound(y, map);
        if let ExprV::T(t) = y {
            if let TermV::Sym(n) = t {
                if names.contains(n) {
                    let i = names.index_of(n);
                    assert(names[i] == n);
                }
            }
            if let TermV::Var(v) = t {
                assert(occurs_in(y, v));
                assert(map.contains_key(v));
            }
        }
    }
}

/// With all its variables bound an expression has no unbound variable.
proof fn lemma_linear_bound(e: ExprV, map: Bindings)
    requires
        forall|v: Seq<char>| #[trigger] occurs_in(e, v) ==> map.contains_key(v),
    ensures
        linear(e, map) is Some ==> linear(e, map)->Some_0.coeff == 0 && linear(e, map)->Some_0.var is None,
    decreases e,
{
    match e {
        ExprV::T(t) => {
            if let TermV::Var(v) = t {
                assert(occurs_in(e, v));
            }
        },
        ExprV::Add(x, y) => {
            assert forall|v: Seq<char>| #[trigger] occurs_in(*x, v) implies map.contains_key(v) by {
                assert(occurs_in(e, v));
            }
            assert forall|v: Seq<char>| #[trigger] occurs_in(*y, v) implies map.contains_key(v) by {
                assert(occurs_in(e, v));
            }
            lemma_linear_bound(*x, map);
            lemma_linear_bound(*y, map);
        },
        ExprV::Sub(x, y) => {
            assert forall|v: Seq<char>| #[trigger] occurs_in(*x, v) implies map.contains_key(v) by {
                assert(occurs_in(e, v));
            }
            assert forall|v: Seq<char>| #[trigger] occurs_in(*y, v) implies map.contains_key(v) by {
                assert(occurs_in(e, v));
            }
            lemma_linear_bound(*x, map);
            lemma_linear_bound(*y, map);
        },
    }
}

// -------------------------------------------------------------------- heads

/// A head with all its variables bound is the same under every valuation that
/// agrees.
pub proof fn lemma_head_same(
    a: Seq<Seq<char>>,
    b: Seq<Seq<char>>,
    args: Seq<TermV>,
    i: int,
    map: Bindings,
    s: Bindings,
    acc: Seq<Value>,
)
    requires
        b.no_duplicates(),
        b.len() < usize::MAX,
        0 <= i <= args.len(),
        within(map, s),
        forall|v: Seq<char>| #[trigger] occurs(args, v) ==> map.contains_key(v),
        a.is_prefix_of(b),
        head_from(a, args, i, map, acc).0.is_prefix_of(b),
    ensures
        head_from(a, args, i, map, acc).1 == head_from(b, args, i, s, acc).1,
    decreases args.len() - i,
{
    if i < args.len() {
        match args[i] {
            TermV::Sym(n) => {
                let a1 = with_name(a, n);
                let x = Value::Sym(interned(a, n));
                lemma_head_names(a1, args, i + 1, map, acc.push(x));
                lemma_prefix_trans(a1, head_from(a, args, i, map, acc).0, b);
                lemma_interned(a, b, n);
                lemma_head_same(a1, b, args, i + 1, map, s, acc.push(x));
            },
            TermV::Int(n) => {
                lemma_head_same(a, b, args, i + 1, map, s, acc.push(Value::Int(n)));
            },
            TermV::Var(v) => {
                assert(occurs(args, v));
                assert(map.contains_key(v));
                lemma_head_same(a, b, args, i + 1, map, s, acc.push(map[v]));
            },
            _ => {},
        }
    }
}

/// A name that was interned is the same symbol later on.
pub proof fn lemma_interned(a: Seq<Seq<char>>, b: Seq<Seq<char>>, n: Seq<char>)
    requires
        with_name(a, n).is_prefix_of(b),
        b.no_duplicates(),
        b.len() < usize::MAX,
    ensures
        interned(a, n) == interned(b, n),
        with_name(b, n) == b,
        interned(a, n).0 < with_name(a, n).len(),
{
    let a1 = with_name(a, n);
    assert(a1.contains(n)) by {
        if !a.contains(n) {
            assert(a1[a.len() as int] == n);
        }
    }
    lemma_symbol(a1, b, n);
    let j = a1.index_of(n);
    assert(a1[j] == n && b[j] == n);
    assert(b.contains(n));
    if a.contains(n) {
        let i = a.index_of(n);
        assert(a[i] == n);
    } else {
        assert(a1[a.len() as int] == n && b[a.len() as int] == n);
        assert(b[j] == n);
        assert(j == a.len());
    }
    let m = b.index_of(n);
    assert(b[m] == n && b[j] == n);
}

/// The values of a head are known.
pub proof fn lemma_head_known(names: Seq<Seq<char>>, args: Seq<TermV>, i: int, map: Bindings, acc: Seq<Value>)
    requires
        0 <= i <= args.len(),
        known_map(names, map),
        known_key(names, acc),
        head_from(names, args, i, map, acc).1 is Some,
        head_from(names, args, i, map, acc).0.len() < usize::MAX,
    ensures
        known_key(head_from(names, args, i, map, acc).0, head_from(names, args, i, map, acc).1->Some_0),
    decreases args.len() - i,
{
    if i < args.len() {
        match args[i] {
            TermV::Sym(n) => {
                let a1 = with_name(names, n);
                let x = Value::Sym(interned(names, n));
                lemma_head_names(a1, args, i + 1, map, acc.push(x));
                assert(known_value(a1, x)) by {
                    if names.contains(n) {
                        let j = names.index_of(n);
                        assert(names[j] == n);
                    }
                }
                assert(known_map(a1, map));
                assert forall|k: int| 0 <= k < acc.push(x).len() implies known_value(a1, #[trigger] acc.push(x)[k]) by {
                    if k < acc.len() {
                        assert(acc.push(x)[k] == acc[k]);
                        assert(known_value(names, acc[k]));
                    }
                }
                lemma_head_known(a1, args, i + 1, map, acc.push(x));
            },
            TermV::Int(n) => {
                let x = Value::Int(n);
                assert forall|k: int| 0 <= k < acc.push(x).len() implies known_value(names, #[trigger] acc.push(x)[k]) by {
                    if k < acc.len() {
                        assert(acc.push(x)[k] == acc[k]);
                    }
                }
                lemma_head_known(names, args, i + 1, map, acc.push(x));
            },
            TermV::Var(v) => {
                let x = map[v];
                assert forall|k: int| 0 <= k < acc.push(x).len() implies known_value(names, #[trigger] acc.push(x)[k]) by {
                    if k < acc.len() {
                        assert(acc.push(x)[k] == acc[k]);
                    }
                }
                lemma_head_known(names, args, i + 1, map, acc.push(x));
            },
            _ => {},
        }
    }
}

// ------------------------------------------------------------------ solving

/// The facts of a store speak of known symbols.
pub open spec fn all_known(st: StoreV) -> bool {
    forall|k: KeyV| #[trigger] holds(st.rels, k) ==> known_key(st.names, k.1)
}

pub proof fn lemma_known_grows(a: Seq<Seq<char>>, b: Seq<Seq<char>>, key: Seq<Value>)
    requires
        a.is_prefix_of(b),
        known_key(a, key),
    ensures
        known_key(b, key),
{
    assert forall|i: int| 0 <= i < key.len() implies known_value(b, #[trigger] key[i]) by {
        assert(known_value(a, key[i]));
    }
}

/// A store in the course of an evaluation that ends with the given names.
pub open spec fn fine(st: StoreV, b: Seq<Seq<char>>) -> bool {
    &&& rels_wf(st.rels)
    &&& st.names.is_prefix_of(b)
    &&& b.no_duplicates()
    &&& b.len() < usize::MAX
    &&& all_known(st)
}

/// Bindings in the course of solving a rule: the variables given before the
/// literal, and those of the atom that was taken first, have known values.
pub open spec fn env_fine(names: Seq<Seq<char>>, c: ClauseV, i: int, skip: int, map: Bindings) -> bool {
    &&& known_map(names, map)
    &&& forall|v: Seq<char>| #[trigger] given(c, i, v) ==> map.contains_key(v)
    &&& 0 <= skip < c.body.len() ==> (match c.body[skip] {
        LitV::Pos(a) => forall|v: Seq<char>| #[trigger] occurs(a.args, v) ==> map.contains_key(v),
        _ => true,
    })
}

/// Asserting a fact adds that fact.
pub proof fn lemma_assert_facts(st: StoreV, k: KeyV, f: crate::relation::FactV)
    requires
        rels_wf(st.rels),
    ensures
        forall|j: KeyV| #[trigger] holds(store_assert(st, k, f).rels, j) <==> j == k || holds(st.rels, j),
{
    lemma_store_assert(st, k, f);
    let st2 = store_assert(st, k, f);
    let r = crate::store::rel_at(st.rels, k.0);
    let r2 = crate::relation::rel_insert(r, k.1, f);
    assert forall|j: KeyV| #[trigger] holds(st2.rels, j) implies j == k || holds(st.rels, j) by {
        if j.0 == k.0 {
            let i = choose|i: int| 0 <= i < r2.rows.len() && (#[trigger] r2.rows[i]).key == j.1;
            if i < r.rows.len() {
                assert(r.rows[i].key == j.1);
                assert(has_key(r, j.1));
                assert(st.rels.contains_key(k.0)) by {
                    if !st.rels.contains_key(k.0) {
                        assert(r.rows.len() == 0);
                    }
                }
            } else {
                assert(j.1 == k.1);
            }
        }
    }
    assert forall|j: KeyV| #[trigger] holds(st.rels, j) implies holds(st2.rels, j) by {
        if j.0 == k.0 {
            let i = choose|i: int| 0 <= i < r.rows.len() && (#[trigger] r.rows[i]).key == j.1;
            assert(r2.rows[i].key == j.1);
        }
    }
}

/// The new facts are those put out.
pub open spec fn adds(a: RelsV, b: RelsV, out: Seq<KeyV>, out2: Seq<KeyV>) -> bool {
    &&& out.len() <= out2.len()
    &&& forall|j: int| 0 <= j < out.len() ==> #[trigger] out2[j] == out[j]
    &&& forall|k: KeyV| #[trigger] holds(b, k) <==> holds(a, k) || put_out(out2, out.len() as int, k)
    &&& forall|j: int| out.len() <= j < out2.len() ==> !holds(a, #[trigger] out2[j])
}

pub open spec fn put_out(out: Seq<KeyV>, from: int, k: KeyV) -> bool {
    exists|j: int| from <= j < out.len() && #[trigger] out[j] == k
}

proof fn lemma_adds_trans(a: RelsV, b: RelsV, c: RelsV, o1: Seq<KeyV>, o2: Seq<KeyV>, o3: Seq<KeyV>)
    requires
        adds(a, b, o1, o2),
        adds(b, c, o2, o3),
    ensures
        adds(a, c, o1, o3),
{
    assert forall|j: int| 0 <= j < o1.len() implies #[trigger] o3[j] == o1[j] by {
        assert(o2[j] == o1[j]);
        assert(o3[j] == o2[j]);
    }
    assert forall|k: KeyV| #[trigger] holds(c, k) <==> holds(a, k) || put_out(o3, o1.len() as int, k) by {
        if holds(c, k) && !holds(a, k) {
            if holds(b, k) {
                let j = choose|j: int| o1.len() <= j < o2.len() && #[trigger] o2[j] == k;
                assert(o3[j] == k);
            } else {
                let j = choose|j: int| o2.len() <= j < o3.len() && #[trigger] o3[j] == k;
                assert(o3[j] == k);
            }
        }
        if put_out(o3, o1.len() as int, k) {
            let j = choose|j: int| o1.len() <= j < o3.len() && #[trigger] o3[j] == k;
            if j < o2.len() {
                assert(o2[j] == k);
                assert(holds(b, k));
            } else {
                assert(put_out(o3, o2.len() as int, k));
            }
        }
        if holds(a, k) {
            assert(holds(b, k));
        }
    }
    assert forall|j: int| o1.len() <= j < o3.len() implies !holds(a, #[trigger] o3[j]) by {
        if j < o2.len() {
            assert(o3[j] == o2[j]);
        } else {
            assert(!holds(b, o3[j]));
        }
    }
}

proof fn lemma_emit_adds(st: StoreV, c: ClauseV, env: EnvV, out: Seq<KeyV>, b: Seq<Seq<char>>)
    requires
        fine(st, b),
        known_map(st.names, env.map),
        emit(st, c, env).0.names.is_prefix_of(b),
    ensures
        ({
            let e = emit(st, c, env);
            let out2 = match e.1 {
                Some(k) => out.push(k),
                None => out,
            };
            adds(st.rels, e.0.rels, out, out2) && fine(e.0, b)
        }),
{
    let e = emit(st, c, env);
    let h = head_values(st.names, c.head.args, env.map);
    let st1 = StoreV { names: h.0, ..st };
    lemma_head_names(st.names, c.head.args, 0, env.map, Seq::empty());
    crate::solve::lemma_emit(st, c, env);
    let out2 = match e.1 {
        Some(k) => out.push(k),
        None => out,
    };
    match h.1 {
        None => {
            assert forall|k: KeyV| #[trigger] holds(e.0.rels, k) implies known_key(e.0.names, k.1) by {
                assert(holds(st.rels, k));
                lemma_known_grows(st.names, e.0.names, k.1);
            }
        },
        Some(args) => {
            let k = (c.head.pred, args);
            let f = crate::relation::FactV {
                ann: env.ann,
                supports: seq![crate::relation::SupportV::Rule { rule: crate::solve::rule_label(c), body: env.keys }],
            };
            lemma_assert_facts(st1, k, f);
            lemma_head_known(st.names, c.head.args, 0, env.map, Seq::empty());
            assert(e.0 == store_assert(st1, k, f));
            assert forall|j: KeyV| #[trigger] holds(e.0.rels, j) implies known_key(e.0.names, j.1) by {
                if j != k {
                    assert(holds(st1.rels, j));
                    assert(holds(st.rels, j));
                    lemma_known_grows(st.names, e.0.names, j.1);
                }
            }
            assert forall|j: KeyV| #[trigger] holds(e.0.rels, j) <==> holds(st.rels, j) || put_out(out2, out.len() as int, j) by {
                if j == k && !holds(st.rels, k) {
                    assert(out2[out.len() as int] == k);
                }
                if put_out(out2, out.len() as int, j) {
                    let x = choose|x: int| out.len() <= x < out2.len() && #[trigger] out2[x] == j;
                    assert(j == k);
                }
            }
        },
    }
}

proof fn lemma_given_step(c: ClauseV, i: int, v: Seq<char>)
    requires
        0 <= i < c.body.len(),
        given(c, i + 1, v),
    ensures
        given(c, i, v) || gives(c.body[i], v),
{
    let j = choose|j: int| 0 <= j < i + 1 && j < c.body.len() && gives(#[trigger] c.body[j], v);
    if j < i {
        assert(gives(c.body[j], v));
    }
}

/// A built-in is ready where the rule is safe.
pub proof fn lemma_ready(names: Seq<Seq<char>>, c: ClauseV, i: int, skip: int, map: Bindings)
    requires
        is_safe(c),
        0 <= i < c.body.len(),
        env_fine(names, c, i, skip, map),
        c.body[i] is Now || c.body[i] is Cmp,
    ensures
        builtin_ready(c.body[i], map),
{
    assert(is_ready(c, i));
    if let LitV::Cmp(op, a, b) = c.body[i] {
        assert forall|v: Seq<char>| #[trigger] occurs_in(b, v) implies map.contains_key(v) by {
            assert(given(c, i, v));
        }
        if let TermV::Var(v) = a {
            if given(c, i, v) {
                assert(map.contains_key(v));
            }
        }
    }
}

/// Bindings after a built-in.
pub proof fn lemma_env_builtin(names: Seq<Seq<char>>, now: i64, c: ClauseV, i: int, skip: int, map: Bindings)
    requires
        is_safe(c),
        0 <= i < c.body.len(),
        env_fine(names, c, i, skip, map),
        c.body[i] is Now || c.body[i] is Cmp,
        after_builtin(names, now, c.body[i], map) is Some,
    ensures
        env_fine(names, c, i + 1, skip, after_builtin(names, now, c.body[i], map)->Some_0),
{
    lemma_ready(names, c, i, skip, map);
    lemma_builtin_vars(names, now, c.body[i], map);
    let m = after_builtin(names, now, c.body[i], map)->Some_0;
    assert forall|v: Seq<char>| #[trigger] given(c, i + 1, v) implies m.contains_key(v) by {
        lemma_given_step(c, i, v);
        if given(c, i, v) {
            assert(map.contains_key(v));
        } else {
            assert(gives(c.body[i], v));
        }
    }
    if 0 <= skip < c.body.len() {
        if let LitV::Pos(a) = c.body[skip] {
            assert forall|v: Seq<char>| #[trigger] occurs(a.args, v) implies m.contains_key(v) by {
                assert(map.contains_key(v));
            }
        }
    }
}

/// Bindings after an atom.
pub proof fn lemma_env_atom(names: Seq<Seq<char>>, c: ClauseV, i: int, skip: int, map: Bindings, a: AtomV, key: Seq<Value>)
    requires
        0 <= i < c.body.len(),
        c.body[i] == LitV::Pos(a),
        env_fine(names, c, i, skip, map),
        known_key(names, key),
        bind_all(names, a.args, key, map) is Some,
    ensures
        env_fine(names, c, i + 1, skip, bind_all(names, a.args, key, map)->Some_0),
{
    let m = bind_all(names, a.args, key, map)->Some_0;
    lemma_bind_from_vars(names, a.args, key, 0, map);
    lemma_bind_from_keeps(names, a.args, key, 0, map);
    assert(known_map(names, m));
    assert forall|v: Seq<char>| #[trigger] given(c, i + 1, v) implies m.contains_key(v) by {
        lemma_given_step(c, i, v);
        if given(c, i, v) {
            assert(map.contains_key(v));
        } else {
            assert(occurs(a.args, v));
            let k = choose|k: int| 0 <= k < a.args.len() && #[trigger] a.args[k] == TermV::Var(v);
            assert(a.args[k] == TermV::Var(v));
        }
    }
    if 0 <= skip < c.body.len() {
        if let LitV::Pos(x) = c.body[skip] {
            assert forall|v: Seq<char>| #[trigger] occurs(x.args, v) implies m.contains_key(v) by {
                assert(map.contains_key(v));
            }
        }
    }
}

/// Bindings stay fine past the atom that was taken first, and past a negated
/// one.
pub proof fn lemma_env_pass(names: Seq<Seq<char>>, c: ClauseV, i: int, skip: int, map: Bindings)
    requires
        0 <= i < c.body.len(),
        env_fine(names, c, i, skip, map),
        (i == skip && c.body[i] is Pos) || c.body[i] is Neg,
    ensures
        env_fine(names, c, i + 1, skip, map),
{
    assert forall|v: Seq<char>| #[trigger] given(c, i + 1, v) implies map.contains_key(v) by {
        lemma_given_step(c, i, v);
        if !given(c, i, v) {
            assert(gives(c.body[i], v));
        }
    }
}

/// The atom that was taken first is an atom.
pub open spec fn skip_fine(c: ClauseV, skip: int) -> bool {
    0 <= skip < c.body.len() ==> c.body[skip] is Pos
}

pub proof fn lemma_solve_adds(
    st: StoreV,
    now: i64,
    c: ClauseV,
    i: int,
    skip: int,
    env: EnvV,
    out: Seq<KeyV>,
    b: Seq<Seq<char>>,
)
    requires
        fine(st, b),
        is_safe(c),
        skip_fine(c, skip),
        0 <= i <= c.body.len(),
        env_fine(st.names, c, i, skip, env.map),
        solve(st, now, c, i, skip, env, out).st.names.is_prefix_of(b),
    ensures
        ({
            let r = solve(st, now, c, i, skip, env, out);
            adds(st.rels, r.st.rels, out, r.out) && fine(r.st, b)
        }),
    decreases c.body.len() - i, 1int, 0int,
{
    if i >= c.body.len() {
        lemma_emit_adds(st, c, env, out, b);
    } else if i == skip {
        lemma_env_pass(st.names, c, i, skip, env.map);
        lemma_solve_adds(st, now, c, i + 1, skip, env, out, b);
    } else {
        match c.body[i] {
            LitV::Pos(a) => {
                let ids = atom_rows(st, a, env.map);
                lemma_ids(st, a, env.map);
                lemma_solve_rows_adds(st, now, c, i, skip, env, out, a, ids, b);
            },
            LitV::Neg(a) => {
                if !atom_matches(st, a, env.map) {
                    lemma_env_pass(st.names, c, i, skip, env.map);
                    lemma_solve_adds(st, now, c, i + 1, skip, env, out, b);
                }
            },
            lit => {
                if let Some(map) = after_builtin(st.names, now, lit, env.map) {
                    lemma_env_builtin(st.names, now, c, i, skip, env.map);
                    lemma_solve_adds(st, now, c, i + 1, skip, EnvV { map, ..env }, out, b);
                }
            },
        }
    }
}

/// The rows looked up for an atom are rows.
pub proof fn lemma_ids(st: StoreV, a: AtomV, map: Bindings)
    requires
        rels_wf(st.rels),
    ensures
        ids_fine(st, a, atom_rows(st, a, map)),
{
    if st.rels.contains_key(a.pred) {
        lemma_lookup(st.rels[a.pred], bound_pattern(st.names, a.args, map));
    }
}

pub open spec fn ids_fine(st: StoreV, a: AtomV, ids: Seq<int>) -> bool {
    ids.len() > 0 ==> st.rels.contains_key(a.pred) && forall|k: int|
        0 <= k < ids.len() ==> 0 <= #[trigger] ids[k] < st.rels[a.pred].rows.len()
}

pub proof fn lemma_ids_grow(a: StoreV, b: StoreV, x: AtomV, ids: Seq<int>)
    requires
        store_extends(a, b),
        ids.len() > 0,
        ids_fine(a, x, ids),
    ensures
        ids_fine(b, x, ids.drop_first()),
{
    assert(a.rels.contains_key(x.pred));
    assert forall|k: int| 0 <= k < ids.drop_first().len() implies 0 <= #[trigger] ids.drop_first()[k]
        < b.rels[x.pred].rows.len() by {
        assert(ids.drop_first()[k] == ids[k + 1]);
    }
}

proof fn lemma_env_grows(a: Seq<Seq<char>>, b: Seq<Seq<char>>, c: ClauseV, i: int, skip: int, map: Bindings)
    requires
        a.is_prefix_of(b),
        env_fine(a, c, i, skip, map),
    ensures
        env_fine(b, c, i, skip, map),
{
    assert forall|v: Seq<char>| #[trigger] map.contains_key(v) implies known_value(b, map[v]) by {
        assert(known_value(a, map[v]));
    }
}

proof fn lemma_solve_rows_adds(
    st: StoreV,
    now: i64,
    c: ClauseV,
    i: int,
    skip: int,
    env: EnvV,
    out: Seq<KeyV>,
    a: AtomV,
    ids: Seq<int>,
    b: Seq<Seq<char>>,
)
    requires
        fine(st, b),
        is_safe(c),
        skip_fine(c, skip),
        0 <= i < c.body.len(),
        c.body[i] == LitV::Pos(a),
        env_fine(st.names, c, i, skip, env.map),
        ids_fine(st, a, ids),
        solve_rows(st, now, c, i, skip, env, out, a, ids).st.names.is_prefix_of(b),
    ensures
        ({
            let r = solve_rows(st, now, c, i, skip, env, out, a, ids);
            adds(st.rels, r.st.rels, out, r.out) && fine(r.st, b)
        }),
    decreases c.body.len() - i, 0int, ids.len(),
{
    if ids.len() > 0 {
        crate::solve::lemma_store_extends_self(st);
        lemma_ids_grow(st, st, a, ids);
        match env_with_row(st, a, ids[0], env) {
            None => {
                lemma_solve_rows_adds(st, now, c, i, skip, env, out, a, ids.drop_first(), b);
            },
            Some(e) => {
                let row = st.rels[a.pred].rows[ids[0]];
                assert(holds(st.rels, (a.pred, row.key)));
                lemma_env_atom(st.names, c, i, skip, env.map, a, row.key);
                let r = solve(st, now, c, i + 1, skip, e, out);
                lemma_solve(st, now, c, i + 1, skip, e, out);
                lemma_solve_rows(r.st, now, c, i, skip, env, r.out, a, ids.drop_first());
                let rest = solve_rows(r.st, now, c, i, skip, env, r.out, a, ids.drop_first());
                lemma_prefix_trans(r.st.names, rest.st.names, b);
                lemma_solve_adds(st, now, c, i + 1, skip, e, out, b);
                lemma_ids_grow(st, r.st, a, ids);
                lemma_env_grows(st.names, r.st.names, c, i, skip, env.map);
                lemma_solve_rows_adds(r.st, now, c, i, skip, env, r.out, a, ids.drop_first(), b);
                lemma_adds_trans(st.rels, r.st.rels, rest.st.rels, out, r.out, rest.out);
            },
        }
    }
}

// ------------------------------------------------------------ completeness

/// Outside some predicates a set holds exactly the facts of the relations.
pub open spec fn agrees(n: Set<KeyV>, rels: RelsV, t: Set<Seq<char>>) -> bool {
    forall|k: KeyV| #![trigger n.contains(k)] #![trigger holds(rels, k)] !t.contains(k.0) ==> (n.contains(k) <==> holds(rels, k))
}

/// No negated atom of a rule has one of the predicates.
pub open spec fn negates_outside(c: ClauseV, t: Set<Seq<char>>) -> bool {
    forall|i: int| 0 <= i < c.body.len() ==> (match #[trigger] c.body[i] {
        LitV::Neg(a) => !t.contains(a.pred),
        _ => true,
    })
}

/// A rule in the course of being solved.
pub open spec fn going(
    st: StoreV,
    c: ClauseV,
    i: int,
    skip: int,
    map: Bindings,
    b: Seq<Seq<char>>,
    n: Set<KeyV>,
    t: Set<Seq<char>>,
) -> bool {
    &&& fine(st, b)
    &&& is_safe(c)
    &&& skip_fine(c, skip)
    &&& 0 <= i <= c.body.len()
    &&& env_fine(st.names, c, i, skip, map)
    &&& constants_known(st.names, c)
    &&& t.contains(c.head.pred)
    &&& negates_outside(c, t)
    &&& agrees(n, st.rels, t)
}

pub proof fn lemma_within_trans(a: Bindings, b: Bindings, c: Bindings)
    requires
        within(a, b),
        within(b, c),
    ensures
        within(a, c),
{
    assert forall|v: Seq<char>| #[trigger] a.contains_key(v) implies c.contains_key(v) && c[v] == a[v] by {
        assert(b.contains_key(v));
    }
}

pub proof fn lemma_agrees_kept(n: Set<KeyV>, a: RelsV, b: RelsV, t: Set<Seq<char>>)
    requires
        agrees(n, a, t),
        spares(a, b, t),
    ensures
        agrees(n, b, t),
{
    assert forall|k: KeyV| #![trigger n.contains(k)] #![trigger holds(b, k)] !t.contains(k.0) implies (n.contains(k) <==> holds(
        b,
        k,
    )) by {
        assert(same_facts(a, b, k.0));
        assert(holds(a, k) <==> holds(b, k));
    }
}

proof fn lemma_expr_known(a: Seq<Seq<char>>, b: Seq<Seq<char>>, e: ExprV)
    requires
        a.is_prefix_of(b),
        expr_known(a, e),
    ensures
        expr_known(b, e),
    decreases e,
{
    match e {
        ExprV::T(t) => {
            lemma_term_known(a, b, t);
        },
        ExprV::Add(x, y) => {
            lemma_expr_known(a, b, *x);
            lemma_expr_known(a, b, *y);
        },
        ExprV::Sub(x, y) => {
            lemma_expr_known(a, b, *x);
            lemma_expr_known(a, b, *y);
        },
    }
}

proof fn lemma_term_known(a: Seq<Seq<char>>, b: Seq<Seq<char>>, t: TermV)
    requires
        a.is_prefix_of(b),
        term_known(a, t),
    ensures
        term_known(b, t),
{
    if let TermV::Sym(s) = t {
        let i = a.index_of(s);
        assert(a[i] == s);
        assert(b[i] == s);
    }
}

pub proof fn lemma_constants_known(a: Seq<Seq<char>>, b: Seq<Seq<char>>, c: ClauseV)
    requires
        a.is_prefix_of(b),
        constants_known(a, c),
    ensures
        constants_known(b, c),
{
    assert forall|i: int| 0 <= i < c.body.len() implies lit_constants_known(b, #[trigger] c.body[i]) by {
        assert(lit_constants_known(a, c.body[i]));
        if let LitV::Cmp(_, x, y) = c.body[i] {
            lemma_term_known(a, b, x);
            lemma_expr_known(a, b, y);
        }
    }
}

/// Solving goes on over the store that a part of it has left.
pub proof fn lemma_going_on(
    st: StoreV,
    st2: StoreV,
    c: ClauseV,
    i: int,
    skip: int,
    map: Bindings,
    b: Seq<Seq<char>>,
    n: Set<KeyV>,
    t: Set<Seq<char>>,
)
    requires
        going(st, c, i, skip, map, b, n, t),
        store_extends(st, st2),
        fine(st2, b),
        spares(st.rels, st2.rels, t),
    ensures
        going(st2, c, i, skip, map, b, n, t),
{
    lemma_env_grows(st.names, st2.names, c, i, skip, map);
    lemma_constants_known(st.names, st2.names, c);
    lemma_agrees_kept(n, st.rels, st2.rels, t);
}

/// With all its variables bound, an atom binds nothing more.
proof fn lemma_bind_from_bound(names: Seq<Seq<char>>, pat: Seq<TermV>, args: Seq<Value>, i: int, map: Bindings)
    requires
        0 <= i <= pat.len(),
        forall|v: Seq<char>| #[trigger] occurs(pat, v) ==> map.contains_key(v),
        bind_from(names, pat, args, i, map) is Some,
    ensures
        bind_from(names, pat, args, i, map) == Some(map),
    decreases pat.len() - i,
{
    if i < pat.len() {
        if let TermV::Var(v) = pat[i] {
            assert(occurs(pat, v));
        }
        lemma_bind_from_bound(names, pat, args, i + 1, map);
    }
}

/// A negated atom matches no row exactly if it has no instance.
pub proof fn lemma_negated(
    st: StoreV,
    c: ClauseV,
    i: int,
    skip: int,
    map: Bindings,
    b: Seq<Seq<char>>,
    n: Set<KeyV>,
    t: Set<Seq<char>>,
    a: AtomV,
    s: Bindings,
)
    requires
        going(st, c, i, skip, map, b, n, t),
        i < c.body.len(),
        c.body[i] == LitV::Neg(a),
        within(map, s),
    ensures
        atom_matches(st, a, map) <==> has_instance(b, a, n, s),
{
    assert(is_ready(c, i));
    assert(!t.contains(a.pred));
    assert forall|v: Seq<char>| #[trigger] occurs(a.args, v) implies map.contains_key(v) by {
        assert(given(c, i, v));
    }
    if atom_matches(st, a, map) {
        let ids = atom_rows(st, a, map);
        let k = choose|k: int| 0 <= k < atom_rows(st, a, map).len() && bind_all(
            st.names,
            a.args,
            st.rels[a.pred].rows[#[trigger] atom_rows(st, a, map)[k]].key,
            map,
        ) is Some;
        lemma_ids(st, a, map);
        let id = ids[k];
        let key = st.rels[a.pred].rows[id].key;
        assert(holds(st.rels, (a.pred, key)));
        lemma_bind_from_bound(st.names, a.args, key, 0, map);
        lemma_bind_from_means(st.names, b, a.args, key, 0, map, s);
        assert(is_instance(b, a.args, key, s));
        assert(n.contains((a.pred, key)));
    }
    if has_instance(b, a, n, s) {
        let key = choose|key: Seq<Value>| n.contains((a.pred, key)) && #[trigger] is_instance(b, a.args, key, s);
        assert(holds(st.rels, (a.pred, key)));
        lemma_bind_from_finds(st.names, b, a.args, key, 0, map, s);
        let k = lemma_found(st, a, map, key);
        assert(bind_all(st.names, a.args, st.rels[a.pred].rows[atom_rows(st, a, map)[k]].key, map) is Some);
    }
}

/// Every fact of a set is stored.
pub open spec fn stored(m: Set<KeyV>, rels: RelsV) -> bool {
    forall|k: KeyV| #[trigger] m.contains(k) ==> holds(rels, k)
}

pub proof fn lemma_extends_holds(a: StoreV, b: StoreV, k: KeyV)
    requires
        store_extends(a, b),
        holds(a.rels, k),
    ensures
        holds(b.rels, k),
{
    let i = choose|i: int| 0 <= i < a.rels[k.0].rows.len() && (#[trigger] a.rels[k.0].rows[i]).key == k.1;
    assert(a.rels.contains_key(k.0));
    assert(b.rels[k.0].rows[i].key == k.1);
}

proof fn lemma_solve_finds(
    st: StoreV,
    now: i64,
    c: ClauseV,
    i: int,
    skip: int,
    env: EnvV,
    out: Seq<KeyV>,
    b: Seq<Seq<char>>,
    m: Set<KeyV>,
    n: Set<KeyV>,
    t: Set<Seq<char>>,
    s: Bindings,
)
    requires
        going(st, c, i, skip, env.map, b, n, t),
        solve(st, now, c, i, skip, env, out).st.names.is_prefix_of(b),
        within(env.map, s),
        body_true(b, now, c, m, n, s),
        stored(m, st.rels),
        head_fact(b, c, s) is Some,
    ensures
        holds(solve(st, now, c, i, skip, env, out).st.rels, head_fact(b, c, s)->Some_0),
    decreases c.body.len() - i, 1int, 0int,
{
    if i >= c.body.len() {
        crate::solve::lemma_emit(st, c, env);
        assert forall|v: Seq<char>| #[trigger] occurs(c.head.args, v) implies env.map.contains_key(v) by {
            assert(given(c, i, v));
        }
        lemma_head_same(st.names, b, c.head.args, 0, env.map, s, Seq::empty());
        let h = head_values(st.names, c.head.args, env.map);
        let k = (c.head.pred, h.1->Some_0);
        let f = crate::relation::FactV {
            ann: env.ann,
            supports: seq![crate::relation::SupportV::Rule { rule: crate::solve::rule_label(c), body: env.keys }],
        };
        lemma_assert_facts(StoreV { names: h.0, ..st }, k, f);
        assert(holds(emit(st, c, env).0.rels, k));
    } else if i == skip {
        lemma_env_pass(st.names, c, i, skip, env.map);
        lemma_solve_finds(st, now, c, i + 1, skip, env, out, b, m, n, t, s);
    } else {
        assert(lit_true(b, now, c.body[i], m, n, s));
        match c.body[i] {
            LitV::Pos(a) => {
                let key = choose|key: Seq<Value>| m.contains((a.pred, key)) && #[trigger] is_instance(b, a.args, key, s);
                assert(holds(st.rels, (a.pred, key)));
                lemma_bind_from_finds(st.names, b, a.args, key, 0, env.map, s);
                let k = lemma_found(st, a, env.map, key);
                lemma_ids(st, a, env.map);
                lemma_solve_rows_finds(st, now, c, i, skip, env, out, a, atom_rows(st, a, env.map), b, m, n, t, s, key, k);
            },
            LitV::Neg(a) => {
                lemma_negated(st, c, i, skip, env.map, b, n, t, a, s);
                lemma_env_pass(st.names, c, i, skip, env.map);
                lemma_solve_finds(st, now, c, i + 1, skip, env, out, b, m, n, t, s);
            },
            lit => {
                lemma_ready(st.names, c, i, skip, env.map);
                assert(lit_constants_known(st.names, c.body[i]));
                lemma_builtin_finds(st.names, b, now, lit, env.map, s, m, n);
                lemma_env_builtin(st.names, now, c, i, skip, env.map);
                let map = after_builtin(st.names, now, lit, env.map)->Some_0;
                lemma_solve_finds(st, now, c, i + 1, skip, EnvV { map, ..env }, out, b, m, n, t, s);
            },
        }
    }
}

proof fn lemma_solve_rows_finds(
    st: StoreV,
    now: i64,
    c: ClauseV,
    i: int,
    skip: int,
    env: EnvV,
    out: Seq<KeyV>,
    a: AtomV,
    ids: Seq<int>,
    b: Seq<Seq<char>>,
    m: Set<KeyV>,
    n: Set<KeyV>,
    t: Set<Seq<char>>,
    s: Bindings,
    key: Seq<Value>,
    k: int,
)
    requires
        going(st, c, i, skip, env.map, b, n, t),
        i < c.body.len(),
        c.body[i] == LitV::Pos(a),
        ids_fine(st, a, ids),
        solve_rows(st, now, c, i, skip, env, out, a, ids).st.names.is_prefix_of(b),
        within(env.map, s),
        body_true(b, now, c, m, n, s),
        stored(m, st.rels),
        head_fact(b, c, s) is Some,
        is_instance(b, a.args, key, s),
        known_key(st.names, key),
        0 <= k < ids.len(),
        st.rels[a.pred].rows[ids[k]].key == key,
    ensures
        holds(solve_rows(st, now, c, i, skip, env, out, a, ids).st.rels, head_fact(b, c, s)->Some_0),
    decreases c.body.len() - i, 0int, ids.len(),
{
    let more = ids.drop_first();
    crate::solve::lemma_store_extends_self(st);
    lemma_ids_grow(st, st, a, ids);
    if k == 0 {
        lemma_bind_from_finds(st.names, b, a.args, key, 0, env.map, s);
    } else {
        assert(more[k - 1] == ids[k]);
    }
    match env_with_row(st, a, ids[0], env) {
        None => {
            lemma_solve_rows_finds(st, now, c, i, skip, env, out, a, more, b, m, n, t, s, key, k - 1);
        },
        Some(e) => {
            let row = st.rels[a.pred].rows[ids[0]];
            assert(holds(st.rels, (a.pred, row.key)));
            lemma_env_atom(st.names, c, i, skip, env.map, a, row.key);
            let r = solve(st, now, c, i + 1, skip, e, out);
            let rest = solve_rows(r.st, now, c, i, skip, env, r.out, a, more);
            lemma_solve(st, now, c, i + 1, skip, e, out);
            lemma_solve_rows(r.st, now, c, i, skip, env, r.out, a, more);
            lemma_prefix_trans(r.st.names, rest.st.names, b);
            lemma_solve_adds(st, now, c, i + 1, skip, e, out, b);
            if k == 0 {
                lemma_solve_finds(st, now, c, i + 1, skip, e, out, b, m, n, t, s);
                lemma_extends_holds(r.st, rest.st, head_fact(b, c, s)->Some_0);
            } else {
                lemma_solve_spares(st, now, c, i + 1, skip, e, out, t);
                lemma_going_on(st, r.st, c, i, skip, env.map, b, n, t);
                lemma_ids_grow(st, r.st, a, ids);
                lemma_known_grows(st.names, r.st.names, key);
                assert(st.rels.contains_key(a.pred));
                assert(0 <= ids[k] < st.rels[a.pred].rows.len());
                assert(r.st.rels[a.pred].rows[more[k - 1]].key == key);
                assert(stored(m, r.st.rels)) by {
                    assert forall|x: KeyV| #[trigger] m.contains(x) implies holds(r.st.rels, x) by {
                        lemma_extends_holds(st, r.st, x);
                    }
                }
                lemma_solve_rows_finds(r.st, now, c, i, skip, env, r.out, a, more, b, m, n, t, s, key, k - 1);
            }
        },
    }
}

// --------------------------------------------------------------- soundness

/// Every stored fact is in a set.
spec fn kept_in(rels: RelsV, m: Set<KeyV>) -> bool {
    forall|k: KeyV| #[trigger] holds(rels, k) ==> m.contains(k)
}

/// The literals before a position, and the one that was taken first, are
/// true.
spec fn true_before(
    b: Seq<Seq<char>>,
    now: i64,
    c: ClauseV,
    i: int,
    skip: int,
    m: Set<KeyV>,
    n: Set<KeyV>,
    s: Bindings,
) -> bool {
    forall|j: int|
        0 <= j < c.body.len() && (j < i || j == skip) ==> lit_true(b, now, #[trigger] c.body[j], m, n, s)
}

/// They are true under every valuation that agrees with the bindings.
spec fn always_before(
    b: Seq<Seq<char>>,
    now: i64,
    c: ClauseV,
    i: int,
    skip: int,
    m: Set<KeyV>,
    n: Set<KeyV>,
    map: Bindings,
) -> bool {
    forall|s: Bindings| #[trigger] within(map, s) ==> true_before(b, now, c, i, skip, m, n, s)
}

proof fn lemma_solve_only(
    st: StoreV,
    now: i64,
    c: ClauseV,
    i: int,
    skip: int,
    env: EnvV,
    out: Seq<KeyV>,
    b: Seq<Seq<char>>,
    m: Set<KeyV>,
    n: Set<KeyV>,
    t: Set<Seq<char>>,
)
    requires
        going(st, c, i, skip, env.map, b, n, t),
        solve(st, now, c, i, skip, env, out).st.names.is_prefix_of(b),
        kept_in(st.rels, m),
        leads_into(b, now, c, m, n, m),
        always_before(b, now, c, i, skip, m, n, env.map),
    ensures
        kept_in(solve(st, now, c, i, skip, env, out).st.rels, m),
    decreases c.body.len() - i, 1int, 0int,
{
    if i >= c.body.len() {
        crate::solve::lemma_emit(st, c, env);
        assert forall|v: Seq<char>| #[trigger] occurs(c.head.args, v) implies env.map.contains_key(v) by {
            assert(given(c, i, v));
        }
        lemma_head_same(st.names, b, c.head.args, 0, env.map, env.map, Seq::empty());
        let h = head_values(st.names, c.head.args, env.map);
        if let Some(args) = h.1 {
            let k = (c.head.pred, args);
            let f = crate::relation::FactV {
                ann: env.ann,
                supports: seq![crate::relation::SupportV::Rule { rule: crate::solve::rule_label(c), body: env.keys }],
            };
            lemma_assert_facts(StoreV { names: h.0, ..st }, k, f);
            assert(within(env.map, env.map));
            assert(body_true(b, now, c, m, n, env.map));
            assert(m.contains(k));
        }
    } else if i == skip {
        lemma_env_pass(st.names, c, i, skip, env.map);
        assert forall|s: Bindings| #[trigger] within(env.map, s) implies true_before(b, now, c, i + 1, skip, m, n, s) by {
            assert(true_before(b, now, c, i, skip, m, n, s));
        }
        lemma_solve_only(st, now, c, i + 1, skip, env, out, b, m, n, t);
    } else {
        match c.body[i] {
            LitV::Pos(a) => {
                lemma_ids(st, a, env.map);
                lemma_solve_rows_only(st, now, c, i, skip, env, out, a, atom_rows(st, a, env.map), b, m, n, t);
            },
            LitV::Neg(a) => {
                if !atom_matches(st, a, env.map) {
                    lemma_env_pass(st.names, c, i, skip, env.map);
                    assert forall|s: Bindings| #[trigger] within(env.map, s) implies true_before(b, now, c, i + 1, skip, m, n, s) by {
                        assert(true_before(b, now, c, i, skip, m, n, s));
                        lemma_negated(st, c, i, skip, env.map, b, n, t, a, s);
                    }
                    lemma_solve_only(st, now, c, i + 1, skip, env, out, b, m, n, t);
                }
            },
            lit => {
                if let Some(map) = after_builtin(st.names, now, lit, env.map) {
                    lemma_ready(st.names, c, i, skip, env.map);
                    assert(lit_constants_known(st.names, c.body[i]));
                    lemma_builtin_vars(st.names, now, lit, env.map);
                    lemma_env_builtin(st.names, now, c, i, skip, env.map);
                    assert forall|s: Bindings| #[trigger] within(map, s) implies true_before(b, now, c, i + 1, skip, m, n, s) by {
                        lemma_builtin_means(st.names, b, now, lit, env.map, s, m, n);
                        lemma_within_trans(env.map, map, s);
                        assert(true_before(b, now, c, i, skip, m, n, s));
                    }
                    lemma_solve_only(st, now, c, i + 1, skip, EnvV { map, ..env }, out, b, m, n, t);
                }
            },
        }
    }
}

proof fn lemma_solve_rows_only(
    st: StoreV,
    now: i64,
    c: ClauseV,
    i: int,
    skip: int,
    env: EnvV,
    out: Seq<KeyV>,
    a: AtomV,
    ids: Seq<int>,
    b: Seq<Seq<char>>,
    m: Set<KeyV>,
    n: Set<KeyV>,
    t: Set<Seq<char>>,
)
    requires
        going(st, c, i, skip, env.map, b, n, t),
        i < c.body.len(),
        c.body[i] == LitV::Pos(a),
        ids_fine(st, a, ids),
        solve_rows(st, now, c, i, skip, env, out, a, ids).st.names.is_prefix_of(b),
        kept_in(st.rels, m),
        leads_into(b, now, c, m, n, m),
        always_before(b, now, c, i, skip, m, n, env.map),
    ensures
        kept_in(solve_rows(st, now, c, i, skip, env, out, a, ids).st.rels, m),
    decreases c.body.len() - i, 0int, ids.len(),
{
    if ids.len() > 0 {
        let more = ids.drop_first();
        crate::solve::lemma_store_extends_self(st);
        lemma_ids_grow(st, st, a, ids);
        match env_with_row(st, a, ids[0], env) {
            None => {
                lemma_solve_rows_only(st, now, c, i, skip, env, out, a, more, b, m, n, t);
            },
            Some(e) => {
                let row = st.rels[a.pred].rows[ids[0]];
                assert(holds(st.rels, (a.pred, row.key)));
                lemma_env_atom(st.names, c, i, skip, env.map, a, row.key);
                let r = solve(st, now, c, i + 1, skip, e, out);
                let rest = solve_rows(r.st, now, c, i, skip, env, r.out, a, more);
                lemma_solve(st, now, c, i + 1, skip, e, out);
                lemma_solve_rows(r.st, now, c, i, skip, env, r.out, a, more);
                lemma_prefix_trans(r.st.names, rest.st.names, b);
                lemma_bind_from_keeps(st.names, a.args, row.key, 0, env.map);
                assert forall|s: Bindings| #[trigger] within(e.map, s) implies true_before(b, now, c, i + 1, skip, m, n, s) by {
                    lemma_within_trans(env.map, e.map, s);
                    assert(true_before(b, now, c, i, skip, m, n, s));
                    lemma_bind_from_means(st.names, b, a.args, row.key, 0, env.map, s);
                    assert(is_instance(b, a.args, row.key, s));
                    assert(m.contains((a.pred, row.key)));
                }
                lemma_solve_only(st, now, c, i + 1, skip, e, out, b, m, n, t);
                lemma_solve_adds(st, now, c, i + 1, skip, e, out, b);
                lemma_solve_spares(st, now, c, i + 1, skip, e, out, t);
                lemma_going_on(st, r.st, c, i, skip, env.map, b, n, t);
                lemma_ids_grow(st, r.st, a, ids);
                lemma_solve_rows_only(r.st, now, c, i, skip, env, r.out, a, more, b, m, n, t);
            },
        }
    }
}

// ------------------------------------------------------------------- firing

/// A rule whose firing is complete: it is safe, compares with known constants
/// only, and negates none of the predicates being derived.
pub open spec fn is_plain(names: Seq<Seq<char>>, c: ClauseV, t: Set<Seq<char>>) -> bool {
    &&& is_safe(c)
    &&& constants_known(names, c)
    &&& t.contains(c.head.pred)
    &&& negates_outside(c, t)
}

/// A store over which rules are fired.
pub open spec fn firing(st: StoreV, b: Seq<Seq<char>>, n: Set<KeyV>, t: Set<Seq<char>>) -> bool {
    fine(st, b) && agrees(n, st.rels, t)
}

/// Solving starts from a fact of the delta.
pub proof fn lemma_start(
    st: StoreV,
    c: ClauseV,
    ai: int,
    a: AtomV,
    key: Seq<Value>,
    b: Seq<Seq<char>>,
    n: Set<KeyV>,
    t: Set<Seq<char>>,
)
    requires
        firing(st, b, n, t),
        is_plain(st.names, c, t),
        0 <= ai < c.body.len(),
        c.body[ai] == LitV::Pos(a),
        start_env(st, a, key) is Some,
    ensures
        going(st, c, 0, ai, start_env(st, a, key)->Some_0.map, b, n, t),
{
    let e = Map::<Seq<char>, Value>::empty();
    let map = start_env(st, a, key)->Some_0.map;
    lemma_bind_from_vars(st.names, a.args, key, 0, e);
    assert(holds(st.rels, (a.pred, key)));
    assert(known_map(st.names, e));
    assert(known_map(st.names, map));
    assert forall|v: Seq<char>| #[trigger] occurs(a.args, v) implies map.contains_key(v) by {
        let k = choose|k: int| 0 <= k < a.args.len() && #[trigger] a.args[k] == TermV::Var(v);
        assert(a.args[k] == TermV::Var(v));
    }
}

pub proof fn lemma_plain_grows(a: Seq<Seq<char>>, b: Seq<Seq<char>>, c: ClauseV, t: Set<Seq<char>>)
    requires
        a.is_prefix_of(b),
        is_plain(a, c, t),
    ensures
        is_plain(b, c, t),
{
    lemma_constants_known(a, b, c);
}

pub proof fn lemma_fire_keys_adds(
    st: StoreV,
    now: i64,
    c: ClauseV,
    ai: int,
    a: AtomV,
    keys: Seq<Seq<Value>>,
    out: Seq<KeyV>,
    b: Seq<Seq<char>>,
    n: Set<KeyV>,
    t: Set<Seq<char>>,
)
    requires
        firing(st, b, n, t),
        is_plain(st.names, c, t),
        0 <= ai < c.body.len(),
        c.body[ai] == LitV::Pos(a),
        fire_keys(st, now, c, ai, a, keys, out).st.names.is_prefix_of(b),
    ensures
        ({
            let r = fire_keys(st, now, c, ai, a, keys, out);
            adds(st.rels, r.st.rels, out, r.out) && firing(r.st, b, n, t)
        }),
    decreases keys.len(),
{
    if keys.len() > 0 {
        match start_env(st, a, keys[0]) {
            None => {
                lemma_fire_keys_adds(st, now, c, ai, a, keys.drop_first(), out, b, n, t);
            },
            Some(env) => {
                lemma_start(st, c, ai, a, keys[0], b, n, t);
                let r = solve(st, now, c, 0, ai, env, out);
                lemma_solve(st, now, c, 0, ai, env, out);
                lemma_fire_keys(r.st, now, c, ai, a, keys.drop_first(), r.out);
                let f = fire_keys(r.st, now, c, ai, a, keys.drop_first(), r.out);
                lemma_prefix_trans(r.st.names, f.st.names, b);
                lemma_solve_adds(st, now, c, 0, ai, env, out, b);
                lemma_solve_spares(st, now, c, 0, ai, env, out, t);
                lemma_agrees_kept(n, st.rels, r.st.rels, t);
                lemma_plain_grows(st.names, r.st.names, c, t);
                lemma_fire_keys_adds(r.st, now, c, ai, a, keys.drop_first(), r.out, b, n, t);
                lemma_adds_trans(st.rels, r.st.rels, f.st.rels, out, r.out, f.out);
            },
        }
    }
}

proof fn lemma_stored_grows(m: Set<KeyV>, a: StoreV, b: StoreV)
    requires
        store_extends(a, b),
        stored(m, a.rels),
    ensures
        stored(m, b.rels),
{
    assert forall|x: KeyV| #[trigger] m.contains(x) implies holds(b.rels, x) by {
        lemma_extends_holds(a, b, x);
    }
}

/// Firing on a fact finds every head whose body is true with that fact at
/// the atom.
proof fn lemma_fire_keys_finds(
    st: StoreV,
    now: i64,
    c: ClauseV,
    ai: int,
    a: AtomV,
    keys: Seq<Seq<Value>>,
    out: Seq<KeyV>,
    b: Seq<Seq<char>>,
    m: Set<KeyV>,
    n: Set<KeyV>,
    t: Set<Seq<char>>,
    s: Bindings,
    k: int,
)
    requires
        firing(st, b, n, t),
        is_plain(st.names, c, t),
        0 <= ai < c.body.len(),
        c.body[ai] == LitV::Pos(a),
        fire_keys(st, now, c, ai, a, keys, out).st.names.is_prefix_of(b),
        body_true(b, now, c, m, n, s),
        stored(m, st.rels),
        head_fact(b, c, s) is Some,
        0 <= k < keys.len(),
        m.contains((a.pred, keys[k])),
        is_instance(b, a.args, keys[k], s),
    ensures
        holds(fire_keys(st, now, c, ai, a, keys, out).st.rels, head_fact(b, c, s)->Some_0),
    decreases keys.len(),
{
    let more = keys.drop_first();
    if k == 0 {
        assert(holds(st.rels, (a.pred, keys[0])));
        assert(within(Map::<Seq<char>, Value>::empty(), s));
        lemma_bind_from_finds(st.names, b, a.args, keys[0], 0, Map::empty(), s);
    } else {
        assert(more[k - 1] == keys[k]);
    }
    match start_env(st, a, keys[0]) {
        None => {
            lemma_fire_keys_finds(st, now, c, ai, a, more, out, b, m, n, t, s, k - 1);
        },
        Some(env) => {
            lemma_start(st, c, ai, a, keys[0], b, n, t);
            let r = solve(st, now, c, 0, ai, env, out);
            lemma_solve(st, now, c, 0, ai, env, out);
            lemma_fire_keys(r.st, now, c, ai, a, more, r.out);
            let f = fire_keys(r.st, now, c, ai, a, more, r.out);
            lemma_prefix_trans(r.st.names, f.st.names, b);
            if k == 0 {
                lemma_solve_finds(st, now, c, 0, ai, env, out, b, m, n, t, s);
                lemma_extends_holds(r.st, f.st, head_fact(b, c, s)->Some_0);
            } else {
                lemma_solve_adds(st, now, c, 0, ai, env, out, b);
                lemma_solve_spares(st, now, c, 0, ai, env, out, t);
                lemma_agrees_kept(n, st.rels, r.st.rels, t);
                lemma_plain_grows(st.names, r.st.names, c, t);
                lemma_stored_grows(m, st, r.st);
                lemma_fire_keys_finds(r.st, now, c, ai, a, more, r.out, b, m, n, t, s, k - 1);
            }
        },
    }
}

/// Firing derives only what any set closed under the rule holds.
proof fn lemma_fire_keys_only(
    st: StoreV,
    now: i64,
    c: ClauseV,
    ai: int,
    a: AtomV,
    keys: Seq<Seq<Value>>,
    out: Seq<KeyV>,
    b: Seq<Seq<char>>,
    m: Set<KeyV>,
    n: Set<KeyV>,
    t: Set<Seq<char>>,
)
    requires
        firing(st, b, n, t),
        is_plain(st.names, c, t),
        0 <= ai < c.body.len(),
        c.body[ai] == LitV::Pos(a),
        fire_keys(st, now, c, ai, a, keys, out).st.names.is_prefix_of(b),
        kept_in(st.rels, m),
        leads_into(b, now, c, m, n, m),
    ensures
        kept_in(fire_keys(st, now, c, ai, a, keys, out).st.rels, m),
    decreases keys.len(),
{
    if keys.len() > 0 {
        match start_env(st, a, keys[0]) {
            None => {
                lemma_fire_keys_only(st, now, c, ai, a, keys.drop_first(), out, b, m, n, t);
            },
            Some(env) => {
                lemma_start(st, c, ai, a, keys[0], b, n, t);
                let r = solve(st, now, c, 0, ai, env, out);
                lemma_solve(st, now, c, 0, ai, env, out);
                lemma_fire_keys(r.st, now, c, ai, a, keys.drop_first(), r.out);
                let f = fire_keys(r.st, now, c, ai, a, keys.drop_first(), r.out);
                lemma_prefix_trans(r.st.names, f.st.names, b);
                assert forall|s: Bindings| #[trigger] within(env.map, s) implies true_before(b, now, c, 0, ai, m, n, s) by {
                    lemma_bind_from_means(st.names, b, a.args, keys[0], 0, Map::empty(), s);
                    assert(is_instance(b, a.args, keys[0], s));
                    assert(holds(st.rels, (a.pred, keys[0])));
                    assert(m.contains((a.pred, keys[0])));
                }
                lemma_solve_only(st, now, c, 0, ai, env, out, b, m, n, t);
                lemma_solve_adds(st, now, c, 0, ai, env, out, b);
                lemma_solve_spares(st, now, c, 0, ai, env, out, t);
                lemma_agrees_kept(n, st.rels, r.st.rels, t);
                lemma_plain_grows(st.names, r.st.names, c, t);
                lemma_fire_keys_only(r.st, now, c, ai, a, keys.drop_first(), r.out, b, m, n, t);
            },
        }
    }
}

proof fn lemma_fire_from_adds(
    st: StoreV,
    now: i64,
    c: ClauseV,
    i: int,
    delta: Set<KeyV>,
    out: Seq<KeyV>,
    b: Seq<Seq<char>>,
    n: Set<KeyV>,
    t: Set<Seq<char>>,
)
    requires
        firing(st, b, n, t),
        is_plain(st.names, c, t),
        0 <= i <= c.body.len(),
        fire_from(st, now, c, i, delta, out).st.names.is_prefix_of(b),
    ensures
        ({
            let r = fire_from(st, now, c, i, delta, out);
            adds(st.rels, r.st.rels, out, r.out) && firing(r.st, b, n, t)
        }),
    decreases c.body.len() - i,
{
    if i < c.body.len() {
        let r = fire(st, now, c, i, delta, out);
        let f = fire_from(r.st, now, c, i + 1, delta, r.out);
        crate::solve::lemma_store_extends_self(st);
        if let LitV::Pos(a) = c.body[i] {
            lemma_fire_keys(st, now, c, i, a, delta_args(delta, a.pred), out);
        }
        lemma_fire_from(r.st, now, c, i + 1, delta, r.out);
        lemma_prefix_trans(r.st.names, f.st.names, b);
        if let LitV::Pos(a) = c.body[i] {
            lemma_fire_keys_adds(st, now, c, i, a, delta_args(delta, a.pred), out, b, n, t);
        }
        lemma_plain_grows(st.names, r.st.names, c, t);
        lemma_fire_from_adds(r.st, now, c, i + 1, delta, r.out, b, n, t);
        lemma_adds_trans(st.rels, r.st.rels, f.st.rels, out, r.out, f.out);
    }
}

/// The facts of the delta are fired on.
pub proof fn lemma_delta(delta: Set<KeyV>, p: Seq<char>, key: Seq<Value>) -> (k: int)
    requires
        delta.finite(),
        delta.contains((p, key)),
    ensures
        0 <= k < delta_args(delta, p).len(),
        delta_args(delta, p)[k] == key,
{
    let s = args_of(delta, p);
    assert(s.subset_of(delta.map(|k: KeyV| k.1))) by {
        assert forall|a: Seq<Value>| #[trigger] s.contains(a) implies delta.map(|k: KeyV| k.1).contains(a) by {
            let k: KeyV = (p, a);
            assert(delta.contains(k) && k.1 == a);
        }
    }
    delta.lemma_map_finite(|k: KeyV| k.1);
    vstd::set_lib::lemma_set_subset_finite(delta.map(|k: KeyV| k.1), s);
    lemma_enumerable::<Vec<Value>>(s);
    assert(s.contains(key));
    let q = delta_args(delta, p);
    assert(q.to_set().contains(key));
    let k = choose|k: int| 0 <= k < q.len() && q[k] == key;
    k
}

/// Firing a rule finds every head whose body is true with a fact of the delta
/// at one of its atoms.
proof fn lemma_fire_from_finds(
    st: StoreV,
    now: i64,
    c: ClauseV,
    i: int,
    delta: Set<KeyV>,
    out: Seq<KeyV>,
    b: Seq<Seq<char>>,
    m: Set<KeyV>,
    n: Set<KeyV>,
    t: Set<Seq<char>>,
    s: Bindings,
    ai: int,
    a: AtomV,
    key: Seq<Value>,
)
    requires
        firing(st, b, n, t),
        is_plain(st.names, c, t),
        0 <= i <= ai < c.body.len(),
        c.body[ai] == LitV::Pos(a),
        fire_from(st, now, c, i, delta, out).st.names.is_prefix_of(b),
        body_true(b, now, c, m, n, s),
        stored(m, st.rels),
        head_fact(b, c, s) is Some,
        delta.finite(),
        delta.contains((a.pred, key)),
        m.contains((a.pred, key)),
        is_instance(b, a.args, key, s),
    ensures
        holds(fire_from(st, now, c, i, delta, out).st.rels, head_fact(b, c, s)->Some_0),
    decreases c.body.len() - i,
{
    let r = fire(st, now, c, i, delta, out);
    let f = fire_from(r.st, now, c, i + 1, delta, r.out);
    crate::solve::lemma_store_extends_self(st);
    if let LitV::Pos(x) = c.body[i] {
        lemma_fire_keys(st, now, c, i, x, delta_args(delta, x.pred), out);
    }
    lemma_fire_from(r.st, now, c, i + 1, delta, r.out);
    lemma_prefix_trans(r.st.names, f.st.names, b);
    if i == ai {
        let k = lemma_delta(delta, a.pred, key);
        lemma_fire_keys_finds(st, now, c, i, a, delta_args(delta, a.pred), out, b, m, n, t, s, k);
        lemma_extends_holds(r.st, f.st, head_fact(b, c, s)->Some_0);
    } else {
        if let LitV::Pos(x) = c.body[i] {
            lemma_fire_keys_adds(st, now, c, i, x, delta_args(delta, x.pred), out, b, n, t);
        }
        lemma_plain_grows(st.names, r.st.names, c, t);
        lemma_stored_grows(m, st, r.st);
        lemma_fire_from_finds(r.st, now, c, i + 1, delta, r.out, b, m, n, t, s, ai, a, key);
    }
}

proof fn lemma_fire_from_only(
    st: StoreV,
    now: i64,
    c: ClauseV,
    i: int,
    delta: Set<KeyV>,
    out: Seq<KeyV>,
    b: Seq<Seq<char>>,
    m: Set<KeyV>,
    n: Set<KeyV>,
    t: Set<Seq<char>>,
)
    requires
        firing(st, b, n, t),
        is_plain(st.names, c, t),
        0 <= i <= c.body.len(),
        fire_from(st, now, c, i, delta, out).st.names.is_prefix_of(b),
        kept_in(st.rels, m),
        leads_into(b, now, c, m, n, m),
    ensures
        kept_in(fire_from(st, now, c, i, delta, out).st.rels, m),
    decreases c.body.len() - i,
{
    if i < c.body.len() {
        let r = fire(st, now, c, i, delta, out);
        let f = fire_from(r.st, now, c, i + 1, delta, r.out);
        crate::solve::lemma_store_extends_self(st);
        if let LitV::Pos(a) = c.body[i] {
            lemma_fire_keys(st, now, c, i, a, delta_args(delta, a.pred), out);
        }
        lemma_fire_from(r.st, now, c, i + 1, delta, r.out);
        lemma_prefix_trans(r.st.names, f.st.names, b);
        if let LitV::Pos(a) = c.body[i] {
            lemma_fire_keys_adds(st, now, c, i, a, delta_args(delta, a.pred), out, b, n, t);
            lemma_fire_keys_only(st, now, c, i, a, delta_args(delta, a.pred), out, b, m, n, t);
        }
        lemma_plain_grows(st.names, r.st.names, c, t);
        lemma_fire_from_only(r.st, now, c, i + 1, delta, r.out, b, m, n, t);
    }
}

/// Solving starts with nothing bound.
pub proof fn lemma_start_empty(st: StoreV, c: ClauseV, b: Seq<Seq<char>>, n: Set<KeyV>, t: Set<Seq<char>>)
    requires
        firing(st, b, n, t),
        is_plain(st.names, c, t),
    ensures
        going(st, c, 0, c.body.len() as int, Map::empty(), b, n, t),
{
    assert(known_map(st.names, Map::<Seq<char>, Value>::empty()));
}

proof fn lemma_fire_rule_adds(
    st: StoreV,
    now: i64,
    c: ClauseV,
    delta: Set<KeyV>,
    out: Seq<KeyV>,
    b: Seq<Seq<char>>,
    n: Set<KeyV>,
    t: Set<Seq<char>>,
)
    requires
        firing(st, b, n, t),
        is_plain(st.names, c, t),
        fire_rule(st, now, c, delta, out).st.names.is_prefix_of(b),
    ensures
        ({
            let r = fire_rule(st, now, c, delta, out);
            adds(st.rels, r.st.rels, out, r.out) && firing(r.st, b, n, t)
        }),
{
    if has_atom(c) {
        lemma_fire_from_adds(st, now, c, 0, delta, out, b, n, t);
    } else {
        let env = EnvV { map: Map::empty(), ann: crate::relation::ann_unit(), keys: Seq::empty() };
        let skip = c.body.len() as int;
        lemma_start_empty(st, c, b, n, t);
        lemma_solve_adds(st, now, c, 0, skip, env, out, b);
        lemma_solve_spares(st, now, c, 0, skip, env, out, t);
        lemma_agrees_kept(n, st.rels, solve(st, now, c, 0, skip, env, out).st.rels, t);
    }
}

/// Firing a rule without atoms finds every head whose body is true.
proof fn lemma_builtins_find(
    st: StoreV,
    now: i64,
    c: ClauseV,
    delta: Set<KeyV>,
    out: Seq<KeyV>,
    b: Seq<Seq<char>>,
    m: Set<KeyV>,
    n: Set<KeyV>,
    t: Set<Seq<char>>,
    s: Bindings,
)
    requires
        firing(st, b, n, t),
        is_plain(st.names, c, t),
        !has_atom(c),
        fire_rule(st, now, c, delta, out).st.names.is_prefix_of(b),
        body_true(b, now, c, m, n, s),
        stored(m, st.rels),
        head_fact(b, c, s) is Some,
    ensures
        holds(fire_rule(st, now, c, delta, out).st.rels, head_fact(b, c, s)->Some_0),
{
    let env = EnvV { map: Map::empty(), ann: crate::relation::ann_unit(), keys: Seq::empty() };
    lemma_start_empty(st, c, b, n, t);
    assert(within(env.map, s));
    lemma_solve_finds(st, now, c, 0, c.body.len() as int, env, out, b, m, n, t, s);
}

proof fn lemma_fire_rule_only(
    st: StoreV,
    now: i64,
    c: ClauseV,
    delta: Set<KeyV>,
    out: Seq<KeyV>,
    b: Seq<Seq<char>>,
    m: Set<KeyV>,
    n: Set<KeyV>,
    t: Set<Seq<char>>,
)
    requires
        firing(st, b, n, t),
        is_plain(st.names, c, t),
        fire_rule(st, now, c, delta, out).st.names.is_prefix_of(b),
        kept_in(st.rels, m),
        leads_into(b, now, c, m, n, m),
    ensures
        kept_in(fire_rule(st, now, c, delta, out).st.rels, m),
{
    if has_atom(c) {
        lemma_fire_from_only(st, now, c, 0, delta, out, b, m, n, t);
    } else {
        let env = EnvV { map: Map::empty(), ann: crate::relation::ann_unit(), keys: Seq::empty() };
        lemma_start_empty(st, c, b, n, t);
        assert(always_before(b, now, c, 0, c.body.len() as int, m, n, env.map));
        lemma_solve_only(st, now, c, 0, c.body.len() as int, env, out, b, m, n, t);
    }
}

// ------------------------------------------------------------------- rounds

/// All rules are plain.
pub open spec fn all_plain(names: Seq<Seq<char>>, cs: Seq<ClauseV>, t: Set<Seq<char>>) -> bool {
    forall|i: int| 0 <= i < cs.len() ==> is_plain(names, #[trigger] cs[i], t)
}

proof fn lemma_all_plain_grows(a: Seq<Seq<char>>, b: Seq<Seq<char>>, cs: Seq<ClauseV>, t: Set<Seq<char>>)
    requires
        a.is_prefix_of(b),
        all_plain(a, cs, t),
    ensures
        all_plain(b, cs, t),
{
    assert forall|i: int| 0 <= i < cs.len() implies is_plain(b, #[trigger] cs[i], t) by {
        lemma_plain_grows(a, b, cs[i], t);
    }
}

proof fn lemma_round_adds(
    st: StoreV,
    now: i64,
    cs: Seq<ClauseV>,
    i: int,
    delta: Set<KeyV>,
    out: Seq<KeyV>,
    b: Seq<Seq<char>>,
    n: Set<KeyV>,
    t: Set<Seq<char>>,
)
    requires
        firing(st, b, n, t),
        all_plain(st.names, cs, t),
        0 <= i <= cs.len(),
        round_from(st, now, cs, i, delta, out).st.names.is_prefix_of(b),
    ensures
        ({
            let r = round_from(st, now, cs, i, delta, out);
            adds(st.rels, r.st.rels, out, r.out) && firing(r.st, b, n, t)
        }),
    decreases cs.len() - i,
{
    if i < cs.len() {
        assert(is_plain(st.names, cs[i], t));
        let r = fire_rule(st, now, cs[i], delta, out);
        let f = round_from(r.st, now, cs, i + 1, delta, r.out);
        lemma_fire_rule(st, now, cs[i], delta, out);
        lemma_round_from(r.st, now, cs, i + 1, delta, r.out);
        lemma_prefix_trans(r.st.names, f.st.names, b);
        lemma_fire_rule_adds(st, now, cs[i], delta, out, b, n, t);
        lemma_all_plain_grows(st.names, r.st.names, cs, t);
        lemma_round_adds(r.st, now, cs, i + 1, delta, r.out, b, n, t);
        lemma_adds_trans(st.rels, r.st.rels, f.st.rels, out, r.out, f.out);
    }
}

proof fn lemma_round_finds(
    st: StoreV,
    now: i64,
    cs: Seq<ClauseV>,
    i: int,
    delta: Set<KeyV>,
    out: Seq<KeyV>,
    b: Seq<Seq<char>>,
    m: Set<KeyV>,
    n: Set<KeyV>,
    t: Set<Seq<char>>,
    s: Bindings,
    ci: int,
    ai: int,
    a: AtomV,
    key: Seq<Value>,
)
    requires
        firing(st, b, n, t),
        all_plain(st.names, cs, t),
        0 <= i <= ci < cs.len(),
        round_from(st, now, cs, i, delta, out).st.names.is_prefix_of(b),
        0 <= ai < cs[ci].body.len(),
        cs[ci].body[ai] == LitV::Pos(a),
        body_true(b, now, cs[ci], m, n, s),
        stored(m, st.rels),
        head_fact(b, cs[ci], s) is Some,
        delta.finite(),
        delta.contains((a.pred, key)),
        m.contains((a.pred, key)),
        is_instance(b, a.args, key, s),
    ensures
        holds(round_from(st, now, cs, i, delta, out).st.rels, head_fact(b, cs[ci], s)->Some_0),
    decreases cs.len() - i,
{
    assert(is_plain(st.names, cs[i], t));
    let r = fire_rule(st, now, cs[i], delta, out);
    let f = round_from(r.st, now, cs, i + 1, delta, r.out);
    lemma_fire_rule(st, now, cs[i], delta, out);
    lemma_round_from(r.st, now, cs, i + 1, delta, r.out);
    lemma_prefix_trans(r.st.names, f.st.names, b);
    if i == ci {
        assert(has_atom(cs[i]));
        lemma_fire_from_finds(st, now, cs[i], 0, delta, out, b, m, n, t, s, ai, a, key);
        lemma_extends_holds(r.st, f.st, head_fact(b, cs[ci], s)->Some_0);
    } else {
        lemma_fire_rule_adds(st, now, cs[i], delta, out, b, n, t);
        lemma_all_plain_grows(st.names, r.st.names, cs, t);
        lemma_stored_grows(m, st, r.st);
        lemma_round_finds(r.st, now, cs, i + 1, delta, r.out, b, m, n, t, s, ci, ai, a, key);
    }
}

/// A round finds what a rule without atoms derives.
proof fn lemma_round_builtins(
    st: StoreV,
    now: i64,
    cs: Seq<ClauseV>,
    i: int,
    delta: Set<KeyV>,
    out: Seq<KeyV>,
    b: Seq<Seq<char>>,
    m: Set<KeyV>,
    n: Set<KeyV>,
    t: Set<Seq<char>>,
    s: Bindings,
    ci: int,
)
    requires
        firing(st, b, n, t),
        all_plain(st.names, cs, t),
        0 <= i <= ci < cs.len(),
        !has_atom(cs[ci]),
        round_from(st, now, cs, i, delta, out).st.names.is_prefix_of(b),
        body_true(b, now, cs[ci], m, n, s),
        stored(m, st.rels),
        head_fact(b, cs[ci], s) is Some,
    ensures
        holds(round_from(st, now, cs, i, delta, out).st.rels, head_fact(b, cs[ci], s)->Some_0),
    decreases cs.len() - i,
{
    assert(is_plain(st.names, cs[i], t));
    let r = fire_rule(st, now, cs[i], delta, out);
    let f = round_from(r.st, now, cs, i + 1, delta, r.out);
    lemma_fire_rule(st, now, cs[i], delta, out);
    lemma_round_from(r.st, now, cs, i + 1, delta, r.out);
    lemma_prefix_trans(r.st.names, f.st.names, b);
    if i == ci {
        lemma_builtins_find(st, now, cs[i], delta, out, b, m, n, t, s);
        lemma_extends_holds(r.st, f.st, head_fact(b, cs[ci], s)->Some_0);
    } else {
        lemma_fire_rule_adds(st, now, cs[i], delta, out, b, n, t);
        lemma_all_plain_grows(st.names, r.st.names, cs, t);
        lemma_stored_grows(m, st, r.st);
        lemma_round_builtins(r.st, now, cs, i + 1, delta, r.out, b, m, n, t, s, ci);
    }
}

proof fn lemma_round_only(
    st: StoreV,
    now: i64,
    cs: Seq<ClauseV>,
    i: int,
    delta: Set<KeyV>,
    out: Seq<KeyV>,
    b: Seq<Seq<char>>,
    m: Set<KeyV>,
    n: Set<KeyV>,
    t: Set<Seq<char>>,
)
    requires
        firing(st, b, n, t),
        all_plain(st.names, cs, t),
        0 <= i <= cs.len(),
        round_from(st, now, cs, i, delta, out).st.names.is_prefix_of(b),
        kept_in(st.rels, m),
        closed_under(b, now, cs, m, n),
    ensures
        kept_in(round_from(st, now, cs, i, delta, out).st.rels, m),
    decreases cs.len() - i,
{
    if i < cs.len() {
        assert(is_plain(st.names, cs[i], t));
        assert(leads_into(b, now, cs[i], m, n, m));
        let r = fire_rule(st, now, cs[i], delta, out);
        let f = round_from(r.st, now, cs, i + 1, delta, r.out);
        lemma_fire_rule(st, now, cs[i], delta, out);
        lemma_round_from(r.st, now, cs, i + 1, delta, r.out);
        lemma_prefix_trans(r.st.names, f.st.names, b);
        lemma_fire_rule_adds(st, now, cs[i], delta, out, b, n, t);
        lemma_fire_rule_only(st, now, cs[i], delta, out, b, m, n, t);
        lemma_all_plain_grows(st.names, r.st.names, cs, t);
        lemma_round_only(r.st, now, cs, i + 1, delta, r.out, b, m, n, t);
    }
}

/// What a rule with an atom derives from the facts outside the delta is
/// stored: it has been fired on them.
pub open spec fn used(
    names: Seq<Seq<char>>,
    now: i64,
    cs: Seq<ClauseV>,
    all: Set<KeyV>,
    delta: Set<KeyV>,
    n: Set<KeyV>,
) -> bool {
    forall|i: int|
        0 <= i < cs.len() && has_atom(#[trigger] cs[i]) ==> leads_into(names, now, cs[i], all.difference(delta), n, all)
}

/// A round derives what a rule derives from the facts before it.
proof fn lemma_round_leads(
    st: StoreV,
    now: i64,
    cs: Seq<ClauseV>,
    delta: Set<KeyV>,
    b: Seq<Seq<char>>,
    n: Set<KeyV>,
    t: Set<Seq<char>>,
    i: int,
)
    requires
        firing(st, b, n, t),
        all_plain(st.names, cs, t),
        round(st, now, cs, delta).st.names.is_prefix_of(b),
        delta.finite(),
        0 <= i < cs.len(),
        has_atom(cs[i]) ==> leads_into(b, now, cs[i], facts(st.rels).difference(delta), n, facts(st.rels)),
    ensures
        leads_into(b, now, cs[i], facts(st.rels), n, facts(round(st, now, cs, delta).st.rels)),
{
    let r = round(st, now, cs, delta);
    let m = facts(st.rels);
    let c = cs[i];
    lemma_round_from(st, now, cs, 0, delta, Seq::empty());
    assert forall|s: Bindings| #[trigger] body_true(b, now, c, m, n, s) && head_fact(b, c, s) is Some implies facts(
        r.st.rels,
    ).contains(head_fact(b, c, s)->Some_0) by {
        let k = head_fact(b, c, s)->Some_0;
        if !has_atom(c) {
            lemma_round_builtins(st, now, cs, 0, delta, Seq::empty(), b, m, n, t, s, i);
        } else if body_true(b, now, c, m.difference(delta), n, s) {
            assert(m.contains(k));
            lemma_extends_holds(st, r.st, k);
        } else {
            let ai = choose|j: int|
                0 <= j < c.body.len() && !lit_true(b, now, #[trigger] c.body[j], m.difference(delta), n, s);
            assert(lit_true(b, now, c.body[ai], m, n, s));
            let a = c.body[ai]->Pos_0;
            assert(has_instance(b, a, m, s));
            let key = choose|key: Seq<Value>| m.contains((a.pred, key)) && #[trigger] is_instance(b, a.args, key, s);
            assert(delta.contains((a.pred, key)));
            assert(stored(m, st.rels));
            lemma_round_finds(st, now, cs, 0, delta, Seq::empty(), b, m, n, t, s, i, ai, a, key);
        }
    }
}

/// Once the rounds settle, the facts are closed under each rule that was
/// fired on what is outside the delta.
proof fn lemma_rounds_leads(
    st: StoreV,
    now: i64,
    cs: Seq<ClauseV>,
    delta: Set<KeyV>,
    k: nat,
    b: Seq<Seq<char>>,
    n: Set<KeyV>,
    t: Set<Seq<char>>,
    i: int,
)
    requires
        firing(st, b, n, t),
        all_plain(st.names, cs, t),
        settles(st, now, cs, delta, k),
        rounds(st, now, cs, delta, k).st.names.is_prefix_of(b),
        delta.finite(),
        0 <= i < cs.len(),
        has_atom(cs[i]) ==> leads_into(b, now, cs[i], facts(st.rels).difference(delta), n, facts(st.rels)),
    ensures
        leads_into(
            b,
            now,
            cs[i],
            facts(rounds(st, now, cs, delta, k).st.rels),
            n,
            facts(rounds(st, now, cs, delta, k).st.rels),
        ),
    decreases k,
{
    let r = round(st, now, cs, delta);
    lemma_round_from(st, now, cs, 0, delta, Seq::empty());
    if r.out.len() == 0 {
        lemma_round_leads(st, now, cs, delta, b, n, t, i);
        lemma_round_adds(st, now, cs, 0, delta, Seq::empty(), b, n, t);
        assert(facts(st.rels) =~= facts(r.st.rels));
    } else {
        let d = r.out.to_set();
        let rest = rounds(r.st, now, cs, d, (k - 1) as nat);
        lemma_rounds(r.st, now, cs, d, (k - 1) as nat);
        lemma_prefix_trans(r.st.names, rest.st.names, b);
        lemma_round_leads(st, now, cs, delta, b, n, t, i);
        lemma_round_adds(st, now, cs, 0, delta, Seq::empty(), b, n, t);
        lemma_all_plain_grows(st.names, r.st.names, cs, t);
        assert(facts(r.st.rels).difference(d) =~= facts(st.rels)) by {
            assert forall|x: KeyV| facts(r.st.rels).difference(d).contains(x) <==> facts(st.rels).contains(x) by {
                if holds(r.st.rels, x) && !d.contains(x) {
                    if put_out(r.out, 0, x) {
                        let j = choose|j: int| 0 <= j < r.out.len() && #[trigger] r.out[j] == x;
                        assert(r.out.contains(x));
                    }
                }
                if holds(st.rels, x) {
                    if d.contains(x) {
                        let j = choose|j: int| 0 <= j < r.out.len() && r.out[j] == x;
                        assert(!holds(st.rels, r.out[j]));
                    }
                    assert(holds(r.st.rels, x));
                }
            }
        }
        vstd::seq_lib::seq_to_set_is_finite(r.out);
        lemma_rounds_leads(r.st, now, cs, d, (k - 1) as nat, b, n, t, i);
    }
}

proof fn lemma_rounds_firing(
    st: StoreV,
    now: i64,
    cs: Seq<ClauseV>,
    delta: Set<KeyV>,
    k: nat,
    b: Seq<Seq<char>>,
    n: Set<KeyV>,
    t: Set<Seq<char>>,
)
    requires
        firing(st, b, n, t),
        all_plain(st.names, cs, t),
        rounds(st, now, cs, delta, k).st.names.is_prefix_of(b),
    ensures
        firing(rounds(st, now, cs, delta, k).st, b, n, t),
    decreases k,
{
    if k > 0 {
        let r = round(st, now, cs, delta);
        lemma_round_from(st, now, cs, 0, delta, Seq::empty());
        if r.out.len() > 0 {
            let d = r.out.to_set();
            let rest = rounds(r.st, now, cs, d, (k - 1) as nat);
            lemma_rounds(r.st, now, cs, d, (k - 1) as nat);
            lemma_prefix_trans(r.st.names, rest.st.names, b);
            lemma_round_adds(st, now, cs, 0, delta, Seq::empty(), b, n, t);
            lemma_all_plain_grows(st.names, r.st.names, cs, t);
            lemma_rounds_firing(r.st, now, cs, d, (k - 1) as nat, b, n, t);
        } else {
            lemma_round_adds(st, now, cs, 0, delta, Seq::empty(), b, n, t);
        }
    }
}

/// Rounds derive only what any closed set holds.
proof fn lemma_rounds_only(
    st: StoreV,
    now: i64,
    cs: Seq<ClauseV>,
    delta: Set<KeyV>,
    k: nat,
    b: Seq<Seq<char>>,
    m: Set<KeyV>,
    n: Set<KeyV>,
    t: Set<Seq<char>>,
)
    requires
        firing(st, b, n, t),
        all_plain(st.names, cs, t),
        rounds(st, now, cs, delta, k).st.names.is_prefix_of(b),
        kept_in(st.rels, m),
        closed_under(b, now, cs, m, n),
    ensures
        kept_in(rounds(st, now, cs, delta, k).st.rels, m),
    decreases k,
{
    if k > 0 {
        let r = round(st, now, cs, delta);
        lemma_round_from(st, now, cs, 0, delta, Seq::empty());
        if r.out.len() > 0 {
            let d = r.out.to_set();
            let rest = rounds(r.st, now, cs, d, (k - 1) as nat);
            lemma_rounds(r.st, now, cs, d, (k - 1) as nat);
            lemma_prefix_trans(r.st.names, rest.st.names, b);
            lemma_round_only(st, now, cs, 0, delta, Seq::empty(), b, m, n, t);
            lemma_round_adds(st, now, cs, 0, delta, Seq::empty(), b, n, t);
            lemma_all_plain_grows(st.names, r.st.names, cs, t);
            lemma_rounds_only(r.st, now, cs, d, (k - 1) as nat, b, m, n, t);
        } else {
            lemma_round_only(st, now, cs, 0, delta, Seq::empty(), b, m, n, t);
        }
    }
}

// --------------------------------------------------------------- invariants

/// A property of stores that the firing of a rule keeps.
pub open spec fn kept_by(p: spec_fn(StoreV) -> bool, c: ClauseV) -> bool {
    forall|st: StoreV, env: EnvV| p(st) ==> #[trigger] p(emit(st, c, env).0)
}

/// A property of stores that the firing of each rule keeps.
pub open spec fn lasting(p: spec_fn(StoreV) -> bool, cs: Seq<ClauseV>) -> bool {
    forall|i: int| 0 <= i < cs.len() ==> kept_by(p, #[trigger] cs[i])
}

pub proof fn lemma_solve_keeps(
    p: spec_fn(StoreV) -> bool,
    st: StoreV,
    now: i64,
    c: ClauseV,
    i: int,
    skip: int,
    env: EnvV,
    out: Seq<KeyV>,
)
    requires
        kept_by(p, c),
        p(st),
    ensures
        p(solve(st, now, c, i, skip, env, out).st),
    decreases c.body.len() - i, 1int, 0int,
{
    if i < 0 || i >= c.body.len() {
        assert(p(emit(st, c, env).0));
    } else if i == skip {
        lemma_solve_keeps(p, st, now, c, i + 1, skip, env, out);
    } else {
        match c.body[i] {
            LitV::Pos(a) => {
                lemma_solve_rows_keeps(p, st, now, c, i, skip, env, out, a, atom_rows(st, a, env.map));
            },
            LitV::Neg(a) => {
                lemma_solve_keeps(p, st, now, c, i + 1, skip, env, out);
            },
            lit => {
                if let Some(map) = after_builtin(st.names, now, lit, env.map) {
                    lemma_solve_keeps(p, st, now, c, i + 1, skip, EnvV { map, ..env }, out);
                }
            },
        }
    }
}

pub proof fn lemma_solve_rows_keeps(
    p: spec_fn(StoreV) -> bool,
    st: StoreV,
    now: i64,
    c: ClauseV,
    i: int,
    skip: int,
    env: EnvV,
    out: Seq<KeyV>,
    a: AtomV,
    ids: Seq<int>,
)
    requires
        kept_by(p, c),
        p(st),
    ensures
        p(solve_rows(st, now, c, i, skip, env, out, a, ids).st),
    decreases c.body.len() - i, 0int, ids.len(),
{
    if 0 <= i < c.body.len() && ids.len() > 0 {
        match env_with_row(st, a, ids[0], env) {
            None => {
                lemma_solve_rows_keeps(p, st, now, c, i, skip, env, out, a, ids.drop_first());
            },
            Some(e) => {
                let r = solve(st, now, c, i + 1, skip, e, out);
                lemma_solve_keeps(p, st, now, c, i + 1, skip, e, out);
                lemma_solve_rows_keeps(p, r.st, now, c, i, skip, env, r.out, a, ids.drop_first());
            },
        }
    }
}

pub proof fn lemma_fire_keys_keeps(
    p: spec_fn(StoreV) -> bool,
    st: StoreV,
    now: i64,
    c: ClauseV,
    ai: int,
    a: AtomV,
    keys: Seq<Seq<Value>>,
    out: Seq<KeyV>,
)
    requires
        kept_by(p, c),
        p(st),
    ensures
        p(fire_keys(st, now, c, ai, a, keys, out).st),
    decreases keys.len(),
{
    if keys.len() > 0 {
        match start_env(st, a, keys[0]) {
            None => {
                lemma_fire_keys_keeps(p, st, now, c, ai, a, keys.drop_first(), out);
            },
            Some(env) => {
                let r = solve(st, now, c, 0, ai, env, out);
                lemma_solve_keeps(p, st, now, c, 0, ai, env, out);
                lemma_fire_keys_keeps(p, r.st, now, c, ai, a, keys.drop_first(), r.out);
            },
        }
    }
}

pub proof fn lemma_fire_from_keeps(
    p: spec_fn(StoreV) -> bool,
    st: StoreV,
    now: i64,
    c: ClauseV,
    i: int,
    delta: Set<KeyV>,
    out: Seq<KeyV>,
)
    requires
        kept_by(p, c),
        p(st),
    ensures
        p(fire_from(st, now, c, i, delta, out).st),
    decreases c.body.len() - i,
{
    if 0 <= i < c.body.len() {
        if let LitV::Pos(a) = c.body[i] {
            lemma_fire_keys_keeps(p, st, now, c, i, a, delta_args(delta, a.pred), out);
        }
        let r = fire(st, now, c, i, delta, out);
        lemma_fire_from_keeps(p, r.st, now, c, i + 1, delta, r.out);
    }
}

proof fn lemma_round_keeps(
    p: spec_fn(StoreV) -> bool,
    st: StoreV,
    now: i64,
    cs: Seq<ClauseV>,
    i: int,
    delta: Set<KeyV>,
    out: Seq<KeyV>,
)
    requires
        lasting(p, cs),
        p(st),
    ensures
        p(round_from(st, now, cs, i, delta, out).st),
    decreases cs.len() - i,
{
    if 0 <= i < cs.len() {
        assert(kept_by(p, cs[i]));
        let r = fire_rule(st, now, cs[i], delta, out);
        if has_atom(cs[i]) {
            lemma_fire_from_keeps(p, st, now, cs[i], 0, delta, out);
        } else {
            let env = EnvV { map: Map::empty(), ann: crate::relation::ann_unit(), keys: Seq::empty() };
            lemma_solve_keeps(p, st, now, cs[i], 0, cs[i].body.len() as int, env, out);
        }
        lemma_round_keeps(p, r.st, now, cs, i + 1, delta, r.out);
    }
}

/// What the firing of rules keeps, rounds of it keep.
pub proof fn lemma_rounds_keeps(p: spec_fn(StoreV) -> bool, st: StoreV, now: i64, cs: Seq<ClauseV>, delta: Set<KeyV>, k: nat)
    requires
        lasting(p, cs),
        p(st),
    ensures
        p(rounds(st, now, cs, delta, k).st),
    decreases k,
{
    if k > 0 {
        let r = round(st, now, cs, delta);
        lemma_round_keeps(p, st, now, cs, 0, delta, Seq::empty());
        if r.out.len() > 0 {
            lemma_rounds_keeps(p, r.st, now, cs, r.out.to_set(), (k - 1) as nat);
        }
    }
}

pub proof fn lemma_head_distinct(names: Seq<Seq<char>>, args: Seq<TermV>, i: int, map: Bindings, acc: Seq<Value>)
    requires
        names.no_duplicates(),
    ensures
        head_from(names, args, i, map, acc).0.no_duplicates(),
    decreases args.len() - i,
{
    if 0 <= i < args.len() {
        match args[i] {
            TermV::Sym(n) => {
                lemma_head_distinct(with_name(names, n), args, i + 1, map, acc.push(Value::Sym(interned(names, n))));
            },
            TermV::Int(n) => {
                lemma_head_distinct(names, args, i + 1, map, acc.push(Value::Int(n)));
            },
            TermV::Var(v) => {
                if let Some(x) = binding(map, v) {
                    lemma_head_distinct(names, args, i + 1, map, acc.push(x));
                }
            },
            _ => {},
        }
    }
}

/// The names of a store are distinct.
pub open spec fn distinct_names() -> spec_fn(StoreV) -> bool {
    |st: StoreV| st.names.no_duplicates()
}

/// The firing of rules keeps names distinct.
pub proof fn lemma_distinct_lasting(cs: Seq<ClauseV>)
    ensures
        lasting(distinct_names(), cs),
{
    assert forall|i: int| 0 <= i < cs.len() implies kept_by(distinct_names(), #[trigger] cs[i]) by {
        let c = cs[i];
        assert forall|st: StoreV, env: EnvV| distinct_names()(st) implies #[trigger] distinct_names()(emit(st, c, env).0) by {
            lemma_head_distinct(st.names, c.head.args, 0, env.map, Seq::empty());
        }
    }
}

// ------------------------------------------------------------- least models

/// The predicates that rules derive.
pub open spec fn heads(cs: Seq<ClauseV>) -> Set<Seq<char>> {
    Set::new(|p: Seq<char>| exists|i: int| 0 <= i < cs.len() && (#[trigger] cs[i]).head.pred == p)
}

/// The facts are the least that contain the given ones and are closed under
/// the rules, with negated atoms judged by a further set.
pub open spec fn is_least(
    names: Seq<Seq<char>>,
    now: i64,
    cs: Seq<ClauseV>,
    given: Set<KeyV>,
    all: Set<KeyV>,
    n: Set<KeyV>,
) -> bool {
    &&& given.subset_of(all)
    &&& closed_under(names, now, cs, all, n)
    &&& forall|m: Set<KeyV>| #[trigger]
        closed_under(names, now, cs, m, n) && given.subset_of(m) ==> all.subset_of(m)
}

/// What a fixpoint of plain rules starts from: names and negated atoms are
/// judged by what comes later.
pub open spec fn can_fire(
    st: StoreV,
    now: i64,
    cs: Seq<ClauseV>,
    delta: Set<KeyV>,
    b: Seq<Seq<char>>,
    n: Set<KeyV>,
    t: Set<Seq<char>>,
) -> bool {
    &&& rels_wf(st.rels)
    &&& all_known(st)
    &&& b.no_duplicates()
    &&& b.len() < usize::MAX
    &&& fixpoint(st, now, cs, delta).st.names.is_prefix_of(b)
    &&& exists|k: nat| settles(st, now, cs, delta, k)
    &&& all_plain(st.names, cs, t)
    &&& agrees(n, st.rels, t)
    &&& delta.finite()
}

/// The fixpoint is closed under each rule that was fired on what is outside
/// the delta.
pub proof fn lemma_fixpoint_leads(
    st: StoreV,
    now: i64,
    cs: Seq<ClauseV>,
    delta: Set<KeyV>,
    b: Seq<Seq<char>>,
    n: Set<KeyV>,
    t: Set<Seq<char>>,
    i: int,
)
    requires
        can_fire(st, now, cs, delta, b, n, t),
        0 <= i < cs.len(),
        has_atom(cs[i]) ==> leads_into(b, now, cs[i], facts(st.rels).difference(delta), n, facts(st.rels)),
    ensures
        leads_into(
            b,
            now,
            cs[i],
            facts(fixpoint(st, now, cs, delta).st.rels),
            n,
            facts(fixpoint(st, now, cs, delta).st.rels),
        ),
{
    let k = choose|k: nat| settles(st, now, cs, delta, k);
    let f = rounds(st, now, cs, delta, k).st;
    lemma_fixpoint(st, now, cs, delta, k);
    lemma_rounds(st, now, cs, delta, k);
    lemma_prefix_trans(st.names, f.names, b);
    lemma_rounds_leads(st, now, cs, delta, k, b, n, t, i);
}

/// The fixpoint holds only what any closed set holds.
pub proof fn lemma_fixpoint_only(
    st: StoreV,
    now: i64,
    cs: Seq<ClauseV>,
    delta: Set<KeyV>,
    b: Seq<Seq<char>>,
    n: Set<KeyV>,
    t: Set<Seq<char>>,
)
    requires
        can_fire(st, now, cs, delta, b, n, t),
    ensures
        forall|m: Set<KeyV>| #[trigger]
            closed_under(b, now, cs, m, n) && facts(st.rels).subset_of(m) ==> facts(
                fixpoint(st, now, cs, delta).st.rels,
            ).subset_of(m),
        facts(st.rels).subset_of(facts(fixpoint(st, now, cs, delta).st.rels)),
        all_known(fixpoint(st, now, cs, delta).st),
        store_extends(st, fixpoint(st, now, cs, delta).st),
{
    let k = choose|k: nat| settles(st, now, cs, delta, k);
    let f = rounds(st, now, cs, delta, k).st;
    lemma_fixpoint(st, now, cs, delta, k);
    lemma_rounds(st, now, cs, delta, k);
    lemma_prefix_trans(st.names, f.names, b);
    lemma_rounds_firing(st, now, cs, delta, k, b, n, t);
    assert forall|m: Set<KeyV>| #[trigger] closed_under(b, now, cs, m, n) && facts(st.rels).subset_of(m) implies facts(
        f.rels,
    ).subset_of(m) by {
        assert(kept_in(st.rels, m)) by {
            assert forall|x: KeyV| #[trigger] holds(st.rels, x) implies m.contains(x) by {
                assert(facts(st.rels).contains(x));
            }
        }
        lemma_rounds_only(st, now, cs, delta, k, b, m, n, t);
    }
    assert forall|x: KeyV| #[trigger] facts(st.rels).contains(x) implies facts(f.rels).contains(x) by {
        lemma_extends_holds(st, f, x);
    }
}

/// The fixpoint of plain rules is the least closed set.
pub proof fn lemma_fixpoint_least(
    st: StoreV,
    now: i64,
    cs: Seq<ClauseV>,
    delta: Set<KeyV>,
    b: Seq<Seq<char>>,
    n: Set<KeyV>,
    t: Set<Seq<char>>,
)
    requires
        can_fire(st, now, cs, delta, b, n, t),
        used(b, now, cs, facts(st.rels), delta, n),
    ensures
        is_least(b, now, cs, facts(st.rels), facts(fixpoint(st, now, cs, delta).st.rels), n),
        all_known(fixpoint(st, now, cs, delta).st),
        store_extends(st, fixpoint(st, now, cs, delta).st),
{
    let f = fixpoint(st, now, cs, delta).st;
    lemma_fixpoint_only(st, now, cs, delta, b, n, t);
    assert forall|i: int| 0 <= i < cs.len() implies leads_into(b, now, #[trigger] cs[i], facts(f.rels), n, facts(f.rels)) by {
        lemma_fixpoint_leads(st, now, cs, delta, b, n, t, i);
    }
}

/// Evaluating rules to their fixpoint gives the least facts that contain the
/// stored ones and are closed under the rules. The rules are plain and negate
/// none of the predicates they derive, and the delta holds every fact that
/// they have not been fired on.
pub proof fn fixpoint_is_least(st: StoreV, now: i64, cs: Seq<ClauseV>, delta: Set<KeyV>)
    requires
        rels_wf(st.rels),
        st.names.no_duplicates(),
        fixpoint(st, now, cs, delta).st.names.len() < usize::MAX,
        all_known(st),
        exists|k: nat| settles(st, now, cs, delta, k),
        all_plain(st.names, cs, heads(cs)),
        delta.finite(),
        used(
            fixpoint(st, now, cs, delta).st.names,
            now,
            cs,
            facts(st.rels),
            delta,
            facts(fixpoint(st, now, cs, delta).st.rels),
        ),
    ensures
        ({
            let f = fixpoint(st, now, cs, delta).st;
            is_least(f.names, now, cs, facts(st.rels), facts(f.rels), facts(f.rels))
        }),
{
    let k = choose|k: nat| settles(st, now, cs, delta, k);
    let f = rounds(st, now, cs, delta, k).st;
    let t = heads(cs);
    lemma_fixpoint(st, now, cs, delta, k);
    lemma_distinct_lasting(cs);
    assert(distinct_names()(st));
    lemma_rounds_keeps(distinct_names(), st, now, cs, delta, k);
    assert forall|i: int| 0 <= i < cs.len() implies t.contains((#[trigger] cs[i]).head.pred) by {}
    lemma_rounds_spares(st, now, cs, delta, k, t);
    lemma_agrees_before(st.rels, f.rels, t);
    assert(f.names.is_prefix_of(f.names));
    lemma_fixpoint_least(st, now, cs, delta, f.names, facts(f.rels), t);
}

/// Later facts agree with earlier ones outside the predicates that changed.
pub proof fn lemma_agrees_before(a: RelsV, b: RelsV, t: Set<Seq<char>>)
    requires
        spares(a, b, t),
    ensures
        agrees(facts(b), a, t),
{
    let n = facts(b);
    assert forall|x: KeyV| #![trigger n.contains(x)] #![trigger holds(a, x)] !t.contains(x.0) implies (n.contains(x) <==> holds(
        a,
        x,
    )) by {
        assert(same_facts(a, b, x.0));
        assert(holds(a, x) <==> holds(b, x));
    }
}

} // verus!

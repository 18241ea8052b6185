//! Comparisons and integer expressions.

use vstd::prelude::*;
use crate::ast::{CmpOp, Expr, ExprV, Lit, LitV, Term, TermV};
use crate::env::{binding, lemma_extends_self, Bindings, Env, EnvV};
use crate::intern::{symbol_of, Interner};
use crate::text::str_eq;
use crate::value::{as_int, value_before, Value};

verus! {

/// Whether the comparison holds.
pub open spec fn compared(op: CmpOp, a: Value, b: Value) -> bool {
    match op {
        CmpOp::Lt => value_before(a, b),
        CmpOp::Le => !value_before(b, a),
        CmpOp::Gt => value_before(b, a),
        CmpOp::Ge => !value_before(a, b),
        CmpOp::Eq => a == b,
        CmpOp::Ne => a != b,
    }
}

/// Whether the comparison holds. Symbols come before integers.
pub fn cmp_holds(op: CmpOp, a: Value, b: Value) -> (r: bool)
    ensures
        r == compared(op, a, b),
{
    match op {
        CmpOp::Lt => a.is_before(&b),
        CmpOp::Le => !b.is_before(&a),
        CmpOp::Gt => b.is_before(&a),
        CmpOp::Ge => !a.is_before(&b),
        CmpOp::Eq => a == b,
        CmpOp::Ne => a != b,
    }
}

/// The constant that a term stands for under the bindings.
pub open spec fn term_value(names: Seq<Seq<char>>, t: TermV, map: Bindings) -> Option<Value> {
    match t {
        TermV::Var(v) => binding(map, v),
        TermV::Int(i) => Some(Value::Int(i)),
        TermV::Sym(s) => match symbol_of(names, s) {
            Some(x) => Some(Value::Sym(x)),
            None => None,
        },
        TermV::Wildcard => None,
        TermV::Agg(_, _) => None,
    }
}

/// The value of a term, where it has one.
pub fn resolve_term(interner: &Interner, t: &Term, env: &Env) -> (r: Option<Value>)
    ensures
        r == term_value(interner@, t@, env@.map),
{
    match t {
        Term::Var(v) => env.lookup(v.as_str()),
        Term::Int(i) => Some(Value::Int(*i)),
        Term::Sym(s) => match interner.lookup(s.as_str()) {
            Some(x) => Some(Value::Sym(x)),
            None => None,
        },
        Term::Wildcard => None,
        Term::Agg(_, _) => None,
    }
}

/// An expression `coeff * var + shift`; without a variable, the constant
/// `shift`.
#[verifier::ext_equal]
pub struct LinearV {
    pub coeff: i64,
    pub shift: i64,
    pub var: Option<Seq<char>>,
}

/// The sum of two expressions as a linear form: where both have a variable,
/// it is the same.
pub open spec fn combined(
    v1: Option<Seq<char>>,
    v2: Option<Seq<char>>,
    c: i64,
    k: i64,
) -> Option<LinearV> {
    match (v1, v2) {
        (None, None) => Some(LinearV { coeff: c, shift: k, var: None }),
        (Some(v), None) => Some(LinearV { coeff: c, shift: k, var: Some(v) }),
        (None, Some(v)) => Some(LinearV { coeff: c, shift: k, var: Some(v) }),
        (Some(v), Some(w)) => if v == w {
            Some(LinearV { coeff: c, shift: k, var: Some(v) })
        } else {
            None
        },
    }
}

/// An additive expression as a linear form around its only unbound variable.
/// There is none for two different unbound variables, nor for symbols.
/// Sums wrap around at 64 bits.
pub open spec fn linear(e: ExprV, map: Bindings) -> Option<LinearV>
    decreases e,
{
    match e {
        ExprV::T(TermV::Int(i)) => Some(LinearV { coeff: 0, shift: i, var: None }),
        ExprV::T(TermV::Var(v)) => match binding(map, v) {
            Some(Value::Int(x)) => Some(LinearV { coeff: 0, shift: x, var: None }),
            None => Some(LinearV { coeff: 1, shift: 0, var: Some(v) }),
            Some(Value::Sym(_)) => None,
        },
        ExprV::T(_) => None,
        ExprV::Add(a, b) => match (linear(*a, map), linear(*b, map)) {
            (Some(x), Some(y)) => combined(
                x.var,
                y.var,
                x.coeff.wrapping_add(y.coeff),
                x.shift.wrapping_add(y.shift),
            ),
            _ => None,
        },
        ExprV::Sub(a, b) => match (linear(*a, map), linear(*b, map)) {
            (Some(x), Some(y)) => combined(
                x.var,
                y.var,
                x.coeff.wrapping_sub(y.coeff),
                x.shift.wrapping_sub(y.shift),
            ),
            _ => None,
        },
    }
}

/// The value of an optional linear form.
pub open spec fn linear_view(r: Option<(i64, i64, Option<String>)>) -> Option<LinearV> {
    match r {
        Some((c, k, v)) => Some(
            LinearV {
                coeff: c,
                shift: k,
                var: match v {
                    Some(s) => Some(s@),
                    None => None,
                },
            },
        ),
        None => None,
    }
}

pub open spec fn name_view(v: Option<String>) -> Option<Seq<char>> {
    match v {
        Some(s) => Some(s@),
        None => None,
    }
}

/// Puts a linear form together; there is none with two different variables.
pub fn combine(v1: Option<String>, v2: Option<String>, c: i64, k: i64) -> (r: Option<(i64, i64, Option<String>)>)
    ensures
        linear_view(r) == combined(name_view(v1), name_view(v2), c, k),
{
    match (v1, v2) {
        (None, None) => Some((c, k, None)),
        (Some(v), None) => Some((c, k, Some(v))),
        (None, Some(v)) => Some((c, k, Some(v))),
        (Some(v), Some(w)) => if str_eq(v.as_str(), w.as_str()) {
            Some((c, k, Some(v)))
        } else {
            None
        },
    }
}

/// The linear form of an additive expression.
pub fn linearize(e: &Expr, env: &Env) -> (r: Option<(i64, i64, Option<String>)>)
    ensures
        linear_view(r) == linear(e@, env@.map),
    decreases e,
{
    match e {
        Expr::T(t) => match t {
            Term::Int(i) => Some((0, *i, None)),
            Term::Var(v) => match env.lookup(v.as_str()) {
                Some(Value::Int(x)) => Some((0, x, None)),
                None => Some((1, 0, Some(v.clone()))),
                Some(Value::Sym(_)) => None,
            },
            _ => None,
        },
        Expr::Add(a, b) => {
            let x = linearize(a, env);
            let y = linearize(b, env);
            match (x, y) {
                (Some((c1, k1, v1)), Some((c2, k2, v2))) => combine(v1, v2, c1.wrapping_add(c2), k1.wrapping_add(k2)),
                _ => None,
            }
        },
        Expr::Sub(a, b) => {
            let x = linearize(a, env);
            let y = linearize(b, env);
            match (x, y) {
                (Some((c1, k1, v1)), Some((c2, k2, v2))) => combine(v1, v2, c1.wrapping_sub(c2), k1.wrapping_sub(k2)),
                _ => None,
            }
        },
    }
}

/// The bindings after a comparison with a linear right-hand side: checked
/// where both sides are known, solved for the one unknown otherwise.
pub open spec fn after_linear(op: CmpOp, a: TermV, av: Option<Value>, f: LinearV, map: Bindings) -> Option<Bindings> {
    match av {
        Some(x) => if f.coeff == 0 {
            if compared(op, x, Value::Int(f.shift)) {
                Some(map)
            } else {
                None
            }
        } else if f.coeff == 1 && op == CmpOp::Eq {
            match (f.var, as_int(x)) {
                (Some(v), Some(i)) => Some(map.insert(v, Value::Int(i.wrapping_sub(f.shift)))),
                _ => None,
            }
        } else {
            None
        },
        None => if f.coeff == 0 {
            match a {
                TermV::Var(v) => Some(map.insert(v, Value::Int(f.shift))),
                _ => None,
            }
        } else {
            None
        },
    }
}

/// The bindings after a comparison literal, where it holds. An unbound
/// variable on the left takes the value of the right-hand side.
pub open spec fn after_comparison(
    names: Seq<Seq<char>>,
    op: CmpOp,
    a: TermV,
    b: ExprV,
    map: Bindings,
) -> Option<Bindings> {
    let av = term_value(names, a, map);
    let bv = match b {
        ExprV::T(t) => term_value(names, t, map),
        _ => None,
    };
    match bv {
        Some(y) => match av {
            Some(x) => if compared(op, x, y) {
                Some(map)
            } else {
                None
            },
            None => match a {
                TermV::Var(v) => Some(map.insert(v, y)),
                _ => None,
            },
        },
        None => match linear(b, map) {
            Some(f) => after_linear(op, a, av, f, map),
            None => None,
        },
    }
}

/// The bindings after `now(t)`, where it holds.
pub open spec fn after_now(now: i64, t: TermV, map: Bindings) -> Option<Bindings> {
    match t {
        TermV::Wildcard => Some(map),
        TermV::Int(v) => if v == now {
            Some(map)
        } else {
            None
        },
        TermV::Var(v) => match binding(map, v) {
            Some(x) => if x == Value::Int(now) {
                Some(map)
            } else {
                None
            },
            None => Some(map.insert(v, Value::Int(now))),
        },
        TermV::Agg(_, _) => None,
        TermV::Sym(_) => None,
    }
}

/// The bindings after a comparison or clock literal, where it holds.
pub open spec fn after_builtin(names: Seq<Seq<char>>, now: i64, lit: LitV, map: Bindings) -> Option<Bindings> {
    match lit {
        LitV::Now(t) => after_now(now, t, map),
        LitV::Cmp(op, a, b) => after_comparison(names, op, a, b, map),
        _ => None,
    }
}

/// Evaluates a comparison or clock literal, binding at most one variable;
/// tells whether it holds.
pub fn step_builtin(interner: &Interner, now: i64, lit: &Lit, env: &mut Env) -> (r: bool)
    ensures
        r == after_builtin(interner@, now, lit@, old(env)@.map) is Some,
        r ==> final(env)@ == (EnvV { map: after_builtin(interner@, now, lit@, old(env)@.map).unwrap(), ..old(env)@ }),
        !r ==> final(env)@ == old(env)@,
        final(env).extends(*old(env)),
{
    proof {
        lemma_extends_self(*env);
    }
    match lit {
        Lit::Now(t) => match t {
            Term::Wildcard => true,
            Term::Int(v) => *v == now,
            Term::Var(v) => match env.lookup(v.as_str()) {
                Some(x) => x == Value::Int(now),
                None => {
                    env.bind(v.as_str(), Value::Int(now));
                    true
                },
            },
            Term::Agg(_, _) => false,
            Term::Sym(_) => false,
        },
        Lit::Cmp(op, a, b) => step_comparison(interner, *op, a, b, env),
        _ => false,
    }
}

fn step_comparison(interner: &Interner, op: CmpOp, a: &Term, b: &Expr, env: &mut Env) -> (r: bool)
    ensures
        r == after_comparison(interner@, op, a@, b@, old(env)@.map) is Some,
        r ==> final(env)@ == (EnvV { map: after_comparison(interner@, op, a@, b@, old(env)@.map).unwrap(), ..old(env)@ }),
        !r ==> final(env)@ == old(env)@,
        final(env).extends(*old(env)),
{
    proof {
        lemma_extends_self(*env);
    }
    let av = resolve_term(interner, a, env);
    let bv = match b {
        Expr::T(t) => resolve_term(interner, t, env),
        _ => None,
    };
    if let Some(y) = bv {
        return match av {
            Some(x) => cmp_holds(op, x, y),
            None => match a {
                Term::Var(v) => {
                    env.bind(v.as_str(), y);
                    true
                },
                _ => false,
            },
        };
    }
    let f = linearize(b, env);
    match f {
        None => false,
        Some((coeff, shift, var)) => match av {
            Some(x) => if coeff == 0 {
                cmp_holds(op, x, Value::Int(shift))
            } else if coeff == 1 && op == CmpOp::Eq {
                match (var, x.as_int()) {
                    (Some(v), Some(i)) => {
                        env.bind(v.as_str(), Value::Int(i.wrapping_sub(shift)));
                        true
                    },
                    _ => false,
                }
            } else {
                false
            },
            None => if coeff == 0 {
                match a {
                    Term::Var(v) => {
                        env.bind(v.as_str(), Value::Int(shift));
                        true
                    },
                    _ => false,
                }
            } else {
                false
            },
        },
    }
}

} // verus!

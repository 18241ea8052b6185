//! Deep queries: evaluating only what a goal needs gives the same facts for
//! it as evaluating the whole program.

use vstd::prelude::*;
use crate::ast::{ClauseV, LitV, TermV};
use crate::demand::{demand_atom, demand_clause, demand_lit, demand_name, demand_program, demand_upto, materialized, on_demand, ran_demand, takes_part};
use crate::engine::{declare_facts, declared, eval_strata, prepared, ran, EngineV};
use crate::env::{Bindings, EnvV};
use crate::evaluate::{eval_stratum_of, pending_delta, settles, stratum_rules};
use crate::query::has_clause;
use crate::intern::{interned, with_name};
use crate::model::{
    body_true, facts, given, gives, head_fact, is_instance, is_ready, kept_by, leads_into, lemma_assert_facts, lemma_rounds_keeps,
    lit_constants_known, lit_true, occurs,
};
use crate::perfect::{
    all_simple, is_model, is_rule_at, is_simple, lemma_edge_at, lemma_stratum, lemma_stratum_spares, leveled, program_closed,
    strata_settle,
};
use crate::recompute::{clear_each, in_heads, rebuilt};
use crate::relation::{ann_unit, FactV, KeyV, SupportV};
use crate::runs::{
    all_positive, is_positive, is_sound, lemma_declare_grows, lemma_ran_strata, lemma_rebuilt, no_aggregates, run_gives_model,
};
use crate::solve::{emit, head_from, head_values};
use crate::sorted_set::{enumerate, lemma_enumerable};
use crate::store::{holds, rels_wf, store_clear, StoreV};
use crate::stratify::{
    aggregate_error, aggregated, aggregates, body_edges, defined, edges_of, edges_upto, lemma_linked_self, lemma_linked_step,
    lemma_linked_trans, linked, mixed_error, negation_error, reads, strata_error, strata_of, EdgeV,
};
use crate::value::Value;

verus! {

// ---------------------------------------------------------- positive programs

proof fn lemma_no_negative_body(cs: Seq<ClauseV>, c: ClauseV, n: int)
    requires
        is_positive(c),
        n <= c.body.len(),
    ensures
        forall|k: int| 0 <= k < body_edges(cs, c, n).len() ==> !(#[trigger] body_edges(cs, c, n)[k]).neg,
    decreases n,
{
    if n > 0 {
        lemma_no_negative_body(cs, c, n - 1);
        let b = body_edges(cs, c, n - 1);
        assert(!(c.body[n - 1] is Neg));
        assert forall|k: int| 0 <= k < body_edges(cs, c, n).len() implies !(#[trigger] body_edges(cs, c, n)[k]).neg by {
            if k < b.len() {
                assert(body_edges(cs, c, n)[k] == b[k]);
            }
        }
    }
}

proof fn lemma_no_negative(cs: Seq<ClauseV>, n: int)
    requires
        all_positive(cs),
        0 <= n <= cs.len(),
    ensures
        forall|k: int| 0 <= k < edges_upto(cs, n).len() ==> !(#[trigger] edges_upto(cs, n)[k]).neg,
    decreases n,
{
    if n > 0 {
        lemma_no_negative(cs, n - 1);
        let c = cs[n - 1];
        let a = edges_upto(cs, n - 1);
        let b = body_edges(cs, c, c.body.len() as int);
        if !c.is_fact {
            lemma_no_negative_body(cs, c, c.body.len() as int);
            assert forall|k: int| 0 <= k < edges_upto(cs, n).len() implies !(#[trigger] edges_upto(cs, n)[k]).neg by {
                if k < a.len() {
                    assert((a + b)[k] == a[k]);
                } else {
                    assert((a + b)[k] == b[k - a.len()]);
                }
            }
        }
    }
}

proof fn lemma_no_negation_error(es: Seq<EdgeV>, i: int)
    requires
        forall|k: int| 0 <= k < es.len() ==> !(#[trigger] es[k]).neg,
    ensures
        negation_error(es, i) is None,
    decreases es.len() - i,
{
    if 0 <= i < es.len() {
        assert(!es[i].neg);
        lemma_no_negation_error(es, i + 1);
    }
}

/// Without aggregates there is nothing to reject about them.
pub proof fn lemma_no_aggregate_error(cs: Seq<ClauseV>, es: Seq<EdgeV>, i: int)
    requires
        no_aggregates(cs),
    ensures
        aggregate_error(cs, es, i) is None,
        mixed_error(cs, i) is None,
    decreases cs.len() - i,
{
    if 0 <= i < cs.len() {
        assert(cs[i].is_fact || !aggregates(cs[i]));
        assert(!aggregated(cs, cs[i].head.pred)) by {
            if aggregated(cs, cs[i].head.pred) {
                let j = choose|j: int|
                    0 <= j < cs.len() && !(#[trigger] cs[j]).is_fact && aggregates(cs[j]) && cs[j].head.pred == cs[i].head.pred;
                assert(!aggregates(cs[j]));
            }
        }
        lemma_no_aggregate_error(cs, es, i + 1);
    }
}

/// Law: a program without negation and aggregates is always accepted.
pub proof fn positive_is_stratified(cs: Seq<ClauseV>)
    requires
        all_positive(cs),
        no_aggregates(cs),
    ensures
        strata_error(cs) is None,
{
    lemma_no_negative(cs, cs.len() as int);
    lemma_no_negation_error(edges_of(cs), 0);
    lemma_no_aggregate_error(cs, edges_of(cs), 0);
}

// --------------------------------------------------------------- known heads

/// The constants of a head are known.
pub open spec fn head_known(names: Seq<Seq<char>>, args: Seq<TermV>) -> bool {
    forall|i: int| 0 <= i < args.len() ==> (match #[trigger] args[i] {
        TermV::Sym(n) => names.contains(n),
        _ => true,
    })
}

/// The constants of all heads are known.
pub open spec fn heads_known(names: Seq<Seq<char>>, cs: Seq<ClauseV>) -> bool {
    forall|i: int| 0 <= i < cs.len() ==> head_known(names, (#[trigger] cs[i]).head.args)
}

/// A head with known constants adds no names.
pub proof fn lemma_head_fixed(names: Seq<Seq<char>>, args: Seq<TermV>, i: int, map: Bindings, acc: Seq<Value>)
    requires
        head_known(names, args),
    ensures
        head_from(names, args, i, map, acc).0 == names,
    decreases args.len() - i,
{
    if 0 <= i < args.len() {
        match args[i] {
            TermV::Sym(n) => {
                assert(with_name(names, n) == names);
                lemma_head_fixed(names, args, i + 1, map, acc.push(Value::Sym(interned(names, n))));
            },
            TermV::Int(n) => {
                lemma_head_fixed(names, args, i + 1, map, acc.push(Value::Int(n)));
            },
            TermV::Var(v) => {
                if map.contains_key(v) {
                    lemma_head_fixed(names, args, i + 1, map, acc.push(map[v]));
                }
            },
            _ => {},
        }
    }
}

/// The names of a store are the given ones.
pub open spec fn named_as(names: Seq<Seq<char>>) -> spec_fn(StoreV) -> bool {
    |st: StoreV| st.names == names
}

proof fn lemma_names_fixed(
    st: StoreV,
    now: i64,
    cs: Seq<ClauseV>,
    l: Map<Seq<char>, nat>,
    strata: Seq<Seq<int>>,
    s: int,
)
    requires
        leveled(cs, l, strata),
        all_simple(st.names, cs),
        heads_known(st.names, cs),
        0 <= s <= strata.len(),
        rels_wf(st.rels),
    ensures
        eval_strata(st, now, cs, strata, s).st.names == st.names,
    decreases strata.len() - s,
{
    if s < strata.len() {
        let rules = stratum_rules(cs, strata[s]);
        let delta = pending_delta(st.rels);
        let e = eval_stratum_of(st, now, cs, strata[s]).st;
        let p = named_as(st.names);
        lemma_stratum(cs, l, strata, s, st.names);
        lemma_stratum_spares(st, now, cs, l, strata, s);
        assert forall|j: int| 0 <= j < rules.len() implies kept_by(p, #[trigger] rules[j]) by {
            let i = strata[s][j];
            assert(is_rule_at(cs, l, s, rules[j], i));
            assert(head_known(st.names, cs[i].head.args));
            assert forall|x: StoreV, env: EnvV| p(x) implies #[trigger] p(emit(x, rules[j], env).0) by {
                lemma_head_fixed(st.names, cs[i].head.args, 0, env.map, Seq::empty());
            }
        }
        assert(p(st));
        lemma_rounds_keeps(p, st, now, rules, delta, choose|n: nat| settles(st, now, rules, delta, n));
        assert(p(e));
        lemma_names_fixed(e, now, cs, l, strata, s + 1);
    }
}

// ------------------------------------------------------------- stated facts

/// A fact that a program states from a position on.
pub open spec fn states(names: Seq<Seq<char>>, cs: Seq<ClauseV>, i: int, k: KeyV) -> bool {
    exists|j: int|
        i <= j < cs.len() && (#[trigger] cs[j]).is_fact && head_values(names, cs[j].head.args, Map::empty()).1 == Some(k.1)
            && cs[j].head.pred == k.0
}

proof fn lemma_declared_facts(st: StoreV, cs: Seq<ClauseV>, i: int)
    requires
        rels_wf(st.rels),
        heads_known(st.names, cs),
        0 <= i <= cs.len(),
    ensures
        declare_facts(st, cs, i).names == st.names,
        forall|k: KeyV| #[trigger]
            holds(declare_facts(st, cs, i).rels, k) <==> holds(st.rels, k) || states(st.names, cs, i, k),
    decreases cs.len() - i,
{
    let r = declare_facts(st, cs, i);
    if i < cs.len() {
        let c = cs[i];
        assert(head_known(st.names, c.head.args));
        lemma_head_fixed(st.names, c.head.args, 0, Map::empty(), Seq::empty());
        let h = head_values(st.names, c.head.args, Map::empty());
        let st1 = StoreV { names: h.0, ..st };
        assert(st1 == st);
        let st2 = if !c.is_fact {
            st
        } else {
            match h.1 {
                Some(args) => declared(st1, (c.head.pred, args), ann_unit()),
                None => st1,
            }
        };
        if c.is_fact {
            if let Some(args) = h.1 {
                let f = FactV { ann: ann_unit(), supports: seq![SupportV::Base] };
                crate::solve::lemma_store_assert(st1, (c.head.pred, args), f);
                lemma_assert_facts(st1, (c.head.pred, args), f);
            }
        }
        lemma_declared_facts(st2, cs, i + 1);
        assert forall|k: KeyV| #[trigger] holds(r.rels, k) <==> holds(st.rels, k) || states(st.names, cs, i, k) by {
            assert(holds(r.rels, k) <==> holds(st2.rels, k) || states(st.names, cs, i + 1, k));
            if states(st.names, cs, i, k) {
                let j = choose|j: int|
                    i <= j < cs.len() && (#[trigger] cs[j]).is_fact && head_values(st.names, cs[j].head.args, Map::empty()).1
                        == Some(k.1) && cs[j].head.pred == k.0;
                if j > i {
                    assert(states(st.names, cs, i + 1, k));
                }
            }
            if states(st.names, cs, i + 1, k) {
                let j = choose|j: int|
                    i + 1 <= j < cs.len() && (#[trigger] cs[j]).is_fact && head_values(
                        st.names,
                        cs[j].head.args,
                        Map::empty(),
                    ).1 == Some(k.1) && cs[j].head.pred == k.0;
                assert(cs[j].is_fact);
            }
            if c.is_fact && h.1 is Some && k == (c.head.pred, h.1->Some_0) {
                assert(cs[i].is_fact);
                assert(states(st.names, cs, i, k));
            }
        }
    } else {
        assert forall|k: KeyV| !states(st.names, cs, i, k) by {}
    }
}

pub proof fn lemma_clear_each_facts(st: StoreV, ps: Seq<Seq<char>>)
    requires
        rels_wf(st.rels),
    ensures
        forall|k: KeyV| #[trigger] holds(clear_each(st, ps).rels, k) <==> holds(st.rels, k) && !ps.contains(k.0),
    decreases ps.len(),
{
    let r = clear_each(st, ps);
    if ps.len() > 0 {
        let st1 = store_clear(st, ps[0]);
        let d = ps.drop_first();
        crate::relation::lemma_empty_wf();
        lemma_clear_each_facts(st1, d);
        assert(r == clear_each(st1, d));
        assert forall|k: KeyV| #[trigger] holds(r.rels, k) <==> holds(st.rels, k) && !ps.contains(k.0) by {
            assert(holds(r.rels, k) <==> holds(st1.rels, k) && !d.contains(k.0));
            if ps.contains(k.0) {
                let i = choose|i: int| 0 <= i < ps.len() && ps[i] == k.0;
                if i > 0 {
                    assert(d[i - 1] == k.0);
                }
            }
            if d.contains(k.0) {
                let i = choose|i: int| 0 <= i < d.len() && d[i] == k.0;
                assert(ps[i + 1] == k.0);
            }
            assert(ps[0] == ps[0]);
        }
    }
}

/// Starting over loses only facts of the cleared predicates.
pub proof fn lemma_rebuilt_facts(st: StoreV, cs: Seq<ClauseV>, strata: Seq<Seq<int>>, ever: Set<Seq<char>>)
    requires
        rels_wf(st.rels),
        Set::new(|p: Seq<char>| ever.contains(p) || in_heads(cs, strata, p)).finite(),
    ensures
        forall|k: KeyV| #[trigger]
            holds(rebuilt(st, cs, strata, ever).rels, k) <==> holds(st.rels, k) && !ever.contains(k.0) && !in_heads(
                cs,
                strata,
                k.0,
            ),
{
    let all = Set::new(|p: Seq<char>| ever.contains(p) || in_heads(cs, strata, p));
    let ps = enumerate::<String>(all);
    let c = clear_each(st, ps);
    let r = rebuilt(st, cs, strata, ever);
    lemma_enumerable::<String>(all);
    lemma_clear_each_facts(st, ps);
    assert forall|k: KeyV| #[trigger] holds(r.rels, k) <==> holds(st.rels, k) && !ever.contains(k.0) && !in_heads(
        cs,
        strata,
        k.0,
    ) by {
        assert(r.rels.contains_key(k.0) <==> c.rels.contains_key(k.0));
        assert(holds(r.rels, k) <==> holds(c.rels, k)) by {
            if c.rels.contains_key(k.0) {
                assert(r.rels[k.0].rows == c.rels[k.0].rows);
            }
        }
        assert(ps.contains(k.0) <==> all.contains(k.0)) by {
            assert(ps.to_set().contains(k.0) <==> all.contains(k.0));
        }
    }
}

// ---------------------------------------------------------- demand programs

/// A name of the kind that demand programs use for their own relations.
pub open spec fn is_demand(p: Seq<char>) -> bool {
    "demand:"@.is_prefix_of(p)
}

/// No predicate of an engine has such a name.
pub open spec fn no_demand_names(e: EngineV) -> bool {
    &&& forall|k: KeyV| #[trigger] holds(e.st.rels, k) ==> !is_demand(k.0)
    &&& forall|i: int, j: int|
        0 <= i < e.clauses.len() && 0 <= j < e.clauses[i].body.len() ==> (match #[trigger] e.clauses[i].body[j] {
            LitV::Pos(a) => !is_demand(a.pred),
            LitV::Neg(a) => !is_demand(a.pred),
            _ => true,
        })
}

/// Demand names are such, and stand for one name each.
pub proof fn lemma_demand_name(p: Seq<char>, q: Seq<char>)
    ensures
        is_demand("demand:"@ + p),
        "demand:"@ + p == "demand:"@ + q ==> p == q,
{
    let d = "demand:"@;
    assert((d + p).subrange(0, d.len() as int) =~= d);
    if d + p == d + q {
        assert((d + p).skip(d.len() as int) =~= p);
        assert((d + q).skip(d.len() as int) =~= q);
    }
}

/// The clauses of a demand program are those that take part, renamed.
pub proof fn lemma_demand_upto(e: EngineV, goal: Seq<char>, n: int)
    requires
        0 <= n <= e.clauses.len(),
    ensures
        demand_upto(e, goal, n).len() <= n,
        forall|j: int|
            0 <= j < demand_upto(e, goal, n).len() ==> renames(e, goal, n, #[trigger] demand_upto(e, goal, n)[j]),
        forall|i: int|
            0 <= i < n && takes_part(e, goal, #[trigger] e.clauses[i]) ==> demand_upto(e, goal, n).contains(
                demand_clause(e, e.clauses[i]),
            ),
    decreases n,
{
    if n > 0 {
        lemma_demand_upto(e, goal, n - 1);
        let before = demand_upto(e, goal, n - 1);
        let d = demand_upto(e, goal, n);
        assert forall|j: int| 0 <= j < d.len() implies renames(e, goal, n, #[trigger] d[j]) by {
            if j < before.len() {
                assert(d[j] == before[j]);
                assert(renames(e, goal, n - 1, before[j]));
                let i = choose|i: int|
                    0 <= i < n - 1 && takes_part(e, goal, #[trigger] e.clauses[i]) && before[j] == demand_clause(e, e.clauses[i]);
                assert(takes_part(e, goal, e.clauses[i]));
            } else {
                assert(takes_part(e, goal, e.clauses[n - 1]));
            }
        }
        assert forall|i: int| 0 <= i < n && takes_part(e, goal, #[trigger] e.clauses[i]) implies d.contains(
            demand_clause(e, e.clauses[i]),
        ) by {
            if i < n - 1 {
                let j = choose|j: int| 0 <= j < before.len() && before[j] == demand_clause(e, e.clauses[i]);
                assert(d[j] == before[j]);
            } else {
                assert(d[d.len() - 1] == demand_clause(e, e.clauses[i]));
            }
        }
    }
}

/// A clause of a demand program stands for one of the first clauses.
pub open spec fn renames(e: EngineV, goal: Seq<char>, n: int, d: ClauseV) -> bool {
    exists|i: int| 0 <= i < n && takes_part(e, goal, #[trigger] e.clauses[i]) && d == demand_clause(e, e.clauses[i])
}

/// Renaming predicates changes nothing about the variables and constants of a
/// rule.
pub proof fn lemma_renamed_simple(e: EngineV, names: Seq<Seq<char>>, c: ClauseV)
    requires
        is_simple(names, c),
    ensures
        is_simple(names, demand_clause(e, c)),
        is_positive(c) ==> is_positive(demand_clause(e, c)),
{
    let d = demand_clause(e, c);
    assert forall|j: int| 0 <= j < c.body.len() implies #[trigger] d.body[j] == demand_lit(e, c.body[j]) by {}
    assert forall|i: int, v: Seq<char>| given(c, i, v) implies #[trigger] given(d, i, v) by {
        let j = choose|j: int| 0 <= j < i && j < c.body.len() && gives(#[trigger] c.body[j], v);
        assert(gives(d.body[j], v));
    }
    assert forall|i: int| 0 <= i < d.body.len() implies #[trigger] is_ready(d, i) by {
        assert(is_ready(c, i));
        assert(d.body[i] == demand_lit(e, c.body[i]));
    }
    assert forall|i: int| 0 <= i < d.body.len() implies lit_constants_known(names, #[trigger] d.body[i]) by {
        assert(lit_constants_known(names, c.body[i]));
        assert(d.body[i] == demand_lit(e, c.body[i]));
    }
    assert forall|v: Seq<char>| #[trigger] occurs(d.head.args, v) implies given(d, d.body.len() as int, v) by {
        assert(occurs(c.head.args, v));
        assert(given(c, c.body.len() as int, v));
    }
    if is_positive(c) {
        assert forall|j: int| 0 <= j < d.body.len() implies !(#[trigger] d.body[j] is Neg) by {
            assert(!(c.body[j] is Neg));
        }
    }
}

/// The engine that evaluates a demand program.
pub open spec fn demand_engine(e: EngineV, goal: Seq<char>) -> EngineV {
    EngineV {
        st: StoreV { retracted: Set::empty(), ..e.st },
        clauses: demand_program(e, goal),
        dirty: true,
        ever: Set::empty(),
        mark: e.st.log.len() as int,
        ..e
    }
}

/// The facts of a predicate as the demand program sees them.
pub open spec fn seen_as(e: EngineV, k: KeyV) -> KeyV {
    (demand_name(e, k.0), k.1)
}

/// A body is true under renaming exactly if its atoms have the instances.
proof fn lemma_renamed_body(
    e: EngineV,
    names: Seq<Seq<char>>,
    now: i64,
    c: ClauseV,
    m: Set<KeyV>,
    d: Set<KeyV>,
    n: Set<KeyV>,
    n2: Set<KeyV>,
    s: Bindings,
)
    requires
        is_positive(c),
        body_true(names, now, c, m, n, s),
        forall|j: int, key: Seq<Value>|
            0 <= j < c.body.len() && #[trigger] c.body[j] is Pos && #[trigger] m.contains((c.body[j]->Pos_0.pred, key)) ==> d.contains(
                seen_as(e, (c.body[j]->Pos_0.pred, key)),
            ),
    ensures
        body_true(names, now, demand_clause(e, c), d, n2, s),
{
    let dc = demand_clause(e, c);
    assert forall|j: int| 0 <= j < dc.body.len() implies lit_true(names, now, #[trigger] dc.body[j], d, n2, s) by {
        assert(lit_true(names, now, c.body[j], m, n, s));
        assert(dc.body[j] == demand_lit(e, c.body[j]));
        assert(!(c.body[j] is Neg));
        if let LitV::Pos(a) = c.body[j] {
            let key = choose|key: Seq<Value>| m.contains((a.pred, key)) && #[trigger] is_instance(names, a.args, key, s);
            let b = demand_atom(e, a);
            assert(m.contains((c.body[j]->Pos_0.pred, key)));
            assert(d.contains(seen_as(e, (a.pred, key))));
            assert(d.contains((b.pred, key)) && is_instance(names, b.args, key, s));
        }
    }
}

/// The other way round.
proof fn lemma_unrenamed_body(
    e: EngineV,
    names: Seq<Seq<char>>,
    now: i64,
    c: ClauseV,
    d: Set<KeyV>,
    m: Set<KeyV>,
    n: Set<KeyV>,
    n2: Set<KeyV>,
    s: Bindings,
)
    requires
        is_positive(c),
        body_true(names, now, demand_clause(e, c), d, n, s),
        forall|j: int, key: Seq<Value>|
            0 <= j < c.body.len() && #[trigger] c.body[j] is Pos && #[trigger] d.contains(
                seen_as(e, (c.body[j]->Pos_0.pred, key)),
            ) ==> m.contains((c.body[j]->Pos_0.pred, key)),
    ensures
        body_true(names, now, c, m, n2, s),
{
    let dc = demand_clause(e, c);
    assert forall|j: int| 0 <= j < c.body.len() implies lit_true(names, now, #[trigger] c.body[j], m, n2, s) by {
        assert(dc.body[j] == demand_lit(e, c.body[j]));
        assert(lit_true(names, now, dc.body[j], d, n, s));
        assert(!(c.body[j] is Neg));
        if let LitV::Pos(a) = c.body[j] {
            let b = demand_atom(e, a);
            let key = choose|key: Seq<Value>| d.contains((b.pred, key)) && #[trigger] is_instance(names, b.args, key, s);
            assert(d.contains(seen_as(e, (a.pred, key))));
            assert(is_instance(names, a.args, key, s));
            assert(m.contains((a.pred, key)));
        }
    }
}

// ----------------------------------------------------------------------- law

/// An engine whose program was not evaluated yet: what it derives, or ever
/// derived, has no rows.
pub open spec fn is_unevaluated(e: EngineV) -> bool {
    e.dirty && forall|p: Seq<char>| has_clause(e.clauses, p) || e.ever.contains(p) ==> !(#[trigger] materialized(e.st, p))
}

/// A predicate that the demand program for a goal derives.
spec fn is_relevant(e: EngineV, goal: Seq<char>, p: Seq<char>) -> bool {
    on_demand(e, p) && (linked(edges_of(e.clauses), goal, p) || !defined(e.clauses, p))
}

/// What the whole program gives for what the demand program derives.
spec fn demand_image(e: EngineV, full: Set<KeyV>) -> Set<KeyV> {
    Set::new(
        |k: KeyV| (!is_demand(k.0) && full.contains(k)) || exists|p: Seq<char>| #[trigger]
            demand_name(e, p) == k.0 && on_demand(e, p) && full.contains((p, k.1)),
    )
}

/// What the demand program gives, put back in place.
spec fn demand_merge(e: EngineV, goal: Seq<char>, full: Set<KeyV>, d: Set<KeyV>) -> Set<KeyV> {
    Set::new(
        |k: KeyV|
            if is_relevant(e, goal, k.0) {
                d.contains(seen_as(e, k))
            } else {
                full.contains(k)
            },
    )
}

/// The demand program derives only what the whole program does.
proof fn lemma_demand_sound(e: EngineV, goal: Seq<char>, names: Seq<Seq<char>>, full: Set<KeyV>, d: Set<KeyV>, n: Set<KeyV>)
    requires
        all_positive(e.clauses),
        no_demand_names(e),
        program_closed(names, e.now, e.clauses, full, full),
    ensures
        program_closed(names, e.now, demand_program(e, goal), demand_image(e, full), n),
{
    let dcs = demand_program(e, goal);
    let m = demand_image(e, full);
    lemma_demand_upto(e, goal, e.clauses.len() as int);
    assert forall|j: int| 0 <= j < dcs.len() && !(#[trigger] dcs[j]).is_fact implies leads_into(
        names,
        e.now,
        dcs[j],
        m,
        n,
        m,
    ) by {
        assert(renames(e, goal, e.clauses.len() as int, dcs[j]));
        let i = choose|i: int|
            0 <= i < e.clauses.len() && takes_part(e, goal, #[trigger] e.clauses[i]) && dcs[j] == demand_clause(e, e.clauses[i]);
        let c = e.clauses[i];
        assert(!c.is_fact);
        assert(is_positive(c));
        assert(leads_into(names, e.now, c, full, full, full));
        assert forall|s: Bindings| #[trigger] body_true(names, e.now, dcs[j], m, n, s) && head_fact(names, dcs[j], s) is Some implies m.contains(
            head_fact(names, dcs[j], s)->Some_0,
        ) by {
            assert forall|x: int, key: Seq<Value>|
                0 <= x < c.body.len() && #[trigger] c.body[x] is Pos && #[trigger] m.contains(
                    seen_as(e, (c.body[x]->Pos_0.pred, key)),
                ) implies full.contains((c.body[x]->Pos_0.pred, key)) by {
                let q = c.body[x]->Pos_0.pred;
                assert(!is_demand(q)) by {
                    assert(e.clauses[i].body[x] is Pos);
                }
                if on_demand(e, q) {
                    lemma_demand_name(q, q);
                    let p = choose|p: Seq<char>| #[trigger]
                        demand_name(e, p) == demand_name(e, q) && on_demand(e, p) && full.contains((p, key));
                    lemma_demand_name(p, q);
                } else if !full.contains((q, key)) {
                    let p = choose|p: Seq<char>| #[trigger] demand_name(e, p) == q && on_demand(e, p) && full.contains((p, key));
                    lemma_demand_name(p, p);
                }
            }
            lemma_unrenamed_body(e, names, e.now, c, m, full, n, full, s);
            let k = head_fact(names, c, s)->Some_0;
            assert(full.contains(k));
            assert(demand_name(e, c.head.pred) == head_fact(names, dcs[j], s)->Some_0.0);
        }
    }
}

/// The whole program derives, for what the goal needs, only what the demand
/// program does.
proof fn lemma_demand_complete(e: EngineV, goal: Seq<char>, names: Seq<Seq<char>>, full: Set<KeyV>, d: Set<KeyV>)
    requires
        all_positive(e.clauses),
        no_demand_names(e),
        program_closed(names, e.now, e.clauses, full, full),
        program_closed(names, e.now, demand_program(e, goal), d, d),
        d.subset_of(demand_image(e, full)),
        forall|k: KeyV| #[trigger] full.contains(k) && !on_demand(e, k.0) ==> d.contains(k),
    ensures
        program_closed(names, e.now, e.clauses, demand_merge(e, goal, full, d), full),
{
    let cs = e.clauses;
    let dcs = demand_program(e, goal);
    let m = demand_merge(e, goal, full, d);
    lemma_demand_upto(e, goal, cs.len() as int);
    assert forall|k: KeyV| #[trigger] m.contains(k) implies full.contains(k) by {
        if is_relevant(e, goal, k.0) {
            let sk = seen_as(e, k);
            assert(demand_image(e, full).contains(sk));
            lemma_demand_name(k.0, k.0);
            let p = choose|p: Seq<char>| #[trigger] demand_name(e, p) == sk.0 && on_demand(e, p) && full.contains((p, sk.1));
            lemma_demand_name(p, k.0);
        }
    }
    assert forall|i: int| 0 <= i < cs.len() && !(#[trigger] cs[i]).is_fact implies leads_into(names, e.now, cs[i], m, full, m) by {
        let c = cs[i];
        assert(is_positive(c));
        assert(leads_into(names, e.now, c, full, full, full));
        let dc = demand_clause(e, c);
        assert forall|s: Bindings| #[trigger] body_true(names, e.now, c, m, full, s) && head_fact(names, c, s) is Some implies m.contains(
            head_fact(names, c, s)->Some_0,
        ) by {
            if is_relevant(e, goal, c.head.pred) {
                assert(defined(cs, c.head.pred));
                assert(takes_part(e, goal, c));
                assert(dcs.contains(dc));
                let j = choose|j: int| 0 <= j < dcs.len() && dcs[j] == dc;
                assert(!dcs[j].is_fact);
                assert(leads_into(names, e.now, dcs[j], d, d, d));
                assert forall|x: int, key: Seq<Value>|
                    0 <= x < c.body.len() && #[trigger] c.body[x] is Pos && #[trigger] m.contains(
                        (c.body[x]->Pos_0.pred, key),
                    ) implies d.contains(seen_as(e, (c.body[x]->Pos_0.pred, key))) by {
                    let q = c.body[x]->Pos_0.pred;
                    if on_demand(e, q) {
                        if defined(cs, q) {
                            let k = lemma_edge_at(cs, cs.len() as int, i, x);
                            let es = edges_of(cs);
                            assert(reads(es, c.head.pred, q));
                            lemma_linked_step(es, c.head.pred, q);
                            lemma_linked_trans(es, goal, c.head.pred, q);
                        }
                        assert(is_relevant(e, goal, q));
                    } else {
                        assert(full.contains((q, key)));
                    }
                }
                lemma_renamed_body(e, names, e.now, c, m, d, full, d, s);
                assert(head_fact(names, dc, s) is Some);
                assert(d.contains(head_fact(names, dc, s)->Some_0));
                assert(head_fact(names, dc, s)->Some_0 == seen_as(e, head_fact(names, c, s)->Some_0));
            } else {
                assert(body_true(names, e.now, c, full, full, s)) by {
                    assert forall|x: int| 0 <= x < c.body.len() implies lit_true(
                        names,
                        e.now,
                        #[trigger] c.body[x],
                        full,
                        full,
                        s,
                    ) by {
                        assert(lit_true(names, e.now, c.body[x], m, full, s));
                        if let LitV::Pos(a) = c.body[x] {
                            let key = choose|key: Seq<Value>|
                                m.contains((a.pred, key)) && #[trigger] is_instance(names, a.args, key, s);
                            assert(full.contains((a.pred, key)));
                        }
                    }
                }
            }
        }
    }
}

/// The predicates of heads are finitely many.
pub proof fn lemma_heads_finite(cs: Seq<ClauseV>, strata: Seq<Seq<int>>, ever: Set<Seq<char>>)
    requires
        crate::recompute::strata_fit(strata, cs.len() as int),
        ever.finite(),
    ensures
        Set::new(|p: Seq<char>| ever.contains(p) || in_heads(cs, strata, p)).finite(),
{
    let preds = cs.map_values(|c: ClauseV| c.head.pred);
    let all = Set::new(|p: Seq<char>| ever.contains(p) || in_heads(cs, strata, p));
    vstd::seq_lib::seq_to_set_is_finite(preds);
    let big = ever.union(preds.to_set());
    assert forall|p: Seq<char>| #[trigger] all.contains(p) implies big.contains(p) by {
        if !ever.contains(p) {
            let (s, i) = choose|s: int, i: int|
                0 <= s < strata.len() && 0 <= i < strata[s].len() && cs[#[trigger] strata[s][i]].head.pred == p;
            assert(crate::evaluate::indices_of(strata[s], cs.len() as int));
            assert(0 <= strata[s][i] < cs.len());
            assert(preds[strata[s][i]] == p);
        }
    }
    vstd::set_lib::lemma_set_subset_finite(big, all);
}

/// What a program starts from when nothing it derives has rows.
pub proof fn lemma_prepared_facts(e: EngineV)
    requires
        is_sound(e.st),
        e.dirty,
        e.ever.finite(),
        e.clauses.len() <= usize::MAX,
        strata_error(e.clauses) is None,
        heads_known(e.st.names, e.clauses),
        forall|k: KeyV| #[trigger] holds(e.st.rels, k) ==> !e.ever.contains(k.0) && !has_clause(e.clauses, k.0),
    ensures
        prepared(e).st.names == e.st.names,
        rels_wf(prepared(e).st.rels),
        forall|k: KeyV| #[trigger]
            holds(prepared(e).st.rels, k) <==> holds(e.st.rels, k) || states(e.st.names, e.clauses, 0, k),
{
    let cs = e.clauses;
    let strata = strata_of(cs);
    crate::stratify::strata_exist(cs);
    crate::engine::lemma_strata_fit(cs, strata);
    lemma_heads_finite(cs, strata, e.ever);
    let st1 = rebuilt(e.st, cs, strata, e.ever);
    lemma_rebuilt(e.st, cs, strata, e.ever);
    lemma_rebuilt_facts(e.st, cs, strata, e.ever);
    lemma_declare_grows(st1, cs, 0);
    lemma_declared_facts(st1, cs, 0);
    assert forall|k: KeyV| #[trigger] holds(prepared(e).st.rels, k) <==> holds(e.st.rels, k) || states(
        e.st.names,
        cs,
        0,
        k,
    ) by {
        assert(holds(st1.rels, k) <==> holds(e.st.rels, k) && !e.ever.contains(k.0) && !in_heads(cs, strata, k.0));
        if holds(e.st.rels, k) && in_heads(cs, strata, k.0) {
            let (s, i) = choose|s: int, i: int|
                0 <= s < strata.len() && 0 <= i < strata[s].len() && cs[#[trigger] strata[s][i]].head.pred == k.0;
            assert(crate::evaluate::indices_of(strata[s], cs.len() as int));
            assert(0 <= strata[s][i] < cs.len());
            assert(has_clause(cs, k.0));
        }
    }
}

/// What a program without negation starts from, and the names it ends with,
/// when nothing it derives has rows.
pub proof fn lemma_prepared(e: EngineV)
    requires
        is_sound(e.st),
        e.dirty,
        e.ever.finite(),
        e.clauses.len() <= usize::MAX,
        strata_error(e.clauses) is None,
        all_simple(e.st.names, e.clauses),
        heads_known(e.st.names, e.clauses),
        forall|k: KeyV| #[trigger] holds(e.st.rels, k) ==> !e.ever.contains(k.0) && !has_clause(e.clauses, k.0),
    ensures
        prepared(e).st.names == e.st.names,
        rels_wf(prepared(e).st.rels),
        forall|k: KeyV| #[trigger]
            holds(prepared(e).st.rels, k) <==> holds(e.st.rels, k) || states(e.st.names, e.clauses, 0, k),
        eval_strata(prepared(e).st, e.now, e.clauses, strata_of(e.clauses), 0).st.names == e.st.names,
{
    let cs = e.clauses;
    let strata = strata_of(cs);
    lemma_prepared_facts(e);
    crate::stratify::strata_exist(cs);
    let l = choose|l: Map<Seq<char>, nat>| #[trigger]
        crate::stratify::is_levels(cs, l) && crate::stratify::grouped(cs, l, strata);
    assert(leveled(cs, l, strata));
    lemma_names_fixed(prepared(e).st, e.now, cs, l, strata, 0);
}

/// A program derives facts of its heads only.
proof fn lemma_only_heads(names: Seq<Seq<char>>, now: i64, cs: Seq<ClauseV>, given: Set<KeyV>, all: Set<KeyV>)
    requires
        is_model(names, now, cs, given, all),
        all_positive(cs),
    ensures
        forall|k: KeyV| #[trigger] all.contains(k) && !has_clause(cs, k.0) ==> given.contains(k),
{
    let m = all.filter(|k: KeyV| has_clause(cs, k.0) || given.contains(k));
    assert(program_closed(names, now, cs, m, all)) by {
        assert forall|i: int| 0 <= i < cs.len() && !(#[trigger] cs[i]).is_fact implies leads_into(names, now, cs[i], m, all, m) by {
            let c = cs[i];
            assert(is_positive(c));
            assert(leads_into(names, now, c, all, all, all));
            assert(has_clause(cs, c.head.pred));
            assert forall|s: Bindings| #[trigger] body_true(names, now, c, m, all, s) && head_fact(names, c, s) is Some implies m.contains(
                head_fact(names, c, s)->Some_0,
            ) by {
                assert(body_true(names, now, c, all, all, s)) by {
                    assert forall|x: int| 0 <= x < c.body.len() implies lit_true(names, now, #[trigger] c.body[x], all, all, s) by {
                        assert(lit_true(names, now, c.body[x], m, all, s));
                        if let LitV::Pos(a) = c.body[x] {
                            let key = choose|key: Seq<Value>|
                                m.contains((a.pred, key)) && #[trigger] is_instance(names, a.args, key, s);
                            assert(all.contains((a.pred, key)));
                        }
                    }
                }
            }
        }
    }
    assert(given.subset_of(m));
    assert(all.subset_of(m));
    assert forall|k: KeyV| #[trigger] all.contains(k) && !has_clause(cs, k.0) implies given.contains(k) by {
        assert(m.contains(k));
    }
}

/// What a program starts from.
pub open spec fn starts_from(e: EngineV, cs: Seq<ClauseV>, g: Set<KeyV>) -> bool {
    forall|k: KeyV| #[trigger] g.contains(k) <==> holds(e.st.rels, k) || states(e.st.names, cs, 0, k)
}

/// The demand program starts from no more than the whole program gives.
proof fn lemma_given_image(e: EngineV, goal: Seq<char>, g: Set<KeyV>, dg: Set<KeyV>, full: Set<KeyV>)
    requires
        no_demand_names(e),
        starts_from(e, e.clauses, g),
        starts_from(e, demand_program(e, goal), dg),
        g.subset_of(full),
    ensures
        dg.subset_of(demand_image(e, full)),
{
    let cs = e.clauses;
    let dcs = demand_program(e, goal);
    let names = e.st.names;
    lemma_demand_upto(e, goal, cs.len() as int);
    assert forall|k: KeyV| #[trigger] dg.contains(k) implies demand_image(e, full).contains(k) by {
        if holds(e.st.rels, k) {
            assert(g.contains(k));
        } else {
            assert(states(names, dcs, 0, k));
            let j = choose|j: int|
                0 <= j < dcs.len() && (#[trigger] dcs[j]).is_fact && head_values(names, dcs[j].head.args, Map::empty()).1
                    == Some(k.1) && dcs[j].head.pred == k.0;
            assert(renames(e, goal, cs.len() as int, dcs[j]));
            let i = choose|i: int|
                0 <= i < cs.len() && takes_part(e, goal, #[trigger] cs[i]) && dcs[j] == demand_clause(e, cs[i]);
            let p = cs[i].head.pred;
            assert(cs[i].is_fact);
            assert(states(names, cs, 0, (p, k.1)));
            assert(g.contains((p, k.1)));
            assert(demand_name(e, p) == k.0);
        }
    }
}

/// What the whole program starts from is there, once put back in place.
proof fn lemma_given_merged(e: EngineV, goal: Seq<char>, g: Set<KeyV>, dg: Set<KeyV>, full: Set<KeyV>, d: Set<KeyV>)
    requires
        starts_from(e, e.clauses, g),
        starts_from(e, demand_program(e, goal), dg),
        g.subset_of(full),
        dg.subset_of(d),
    ensures
        g.subset_of(demand_merge(e, goal, full, d)),
{
    let cs = e.clauses;
    let dcs = demand_program(e, goal);
    let names = e.st.names;
    let m = demand_merge(e, goal, full, d);
    lemma_demand_upto(e, goal, cs.len() as int);
    assert forall|k: KeyV| #[trigger] g.contains(k) implies m.contains(k) by {
        assert(full.contains(k));
        if is_relevant(e, goal, k.0) {
            assert(!holds(e.st.rels, k)) by {
                if holds(e.st.rels, k) {
                    assert(materialized(e.st, k.0));
                }
            }
            assert(states(names, cs, 0, k));
            let j = choose|j: int|
                0 <= j < cs.len() && (#[trigger] cs[j]).is_fact && head_values(names, cs[j].head.args, Map::empty()).1 == Some(
                    k.1,
                ) && cs[j].head.pred == k.0;
            assert(takes_part(e, goal, cs[j]));
            let dc = demand_clause(e, cs[j]);
            assert(dcs.contains(dc));
            let x = choose|x: int| 0 <= x < dcs.len() && dcs[x] == dc;
            assert(dcs[x].is_fact);
            assert(states(names, dcs, 0, seen_as(e, k)));
            assert(dg.contains(seen_as(e, k)));
        }
    }
}

/// What the program does not derive is seen by the demand program.
proof fn lemma_base_seen(e: EngineV, goal: Seq<char>, g: Set<KeyV>, dg: Set<KeyV>, full: Set<KeyV>, d: Set<KeyV>)
    requires
        is_unevaluated(e),
        all_positive(e.clauses),
        starts_from(e, e.clauses, g),
        starts_from(e, demand_program(e, goal), dg),
        is_model(e.st.names, e.now, e.clauses, g, full),
        dg.subset_of(d),
    ensures
        forall|k: KeyV| #[trigger] full.contains(k) && !on_demand(e, k.0) ==> d.contains(k),
{
    let cs = e.clauses;
    let names = e.st.names;
    lemma_only_heads(names, e.now, cs, g, full);
    assert forall|k: KeyV| #[trigger] full.contains(k) && !on_demand(e, k.0) implies d.contains(k) by {
        assert(!has_clause(cs, k.0)) by {
            assert(!materialized(e.st, k.0) || !has_clause(cs, k.0));
        }
        assert(g.contains(k));
        if states(names, cs, 0, k) {
            let j = choose|j: int|
                0 <= j < cs.len() && (#[trigger] cs[j]).is_fact && head_values(names, cs[j].head.args, Map::empty()).1 == Some(
                    k.1,
                ) && cs[j].head.pred == k.0;
            assert(has_clause(cs, k.0));
        }
        assert(dg.contains(k));
    }
}

/// Two models, one of the program and one of its demand program, agree on the
/// goal.
proof fn lemma_models_agree(e: EngineV, goal: Seq<char>, g: Set<KeyV>, dg: Set<KeyV>, full: Set<KeyV>, d: Set<KeyV>, args: Seq<Value>)
    requires
        is_unevaluated(e),
        no_demand_names(e),
        all_positive(e.clauses),
        has_clause(e.clauses, goal),
        starts_from(e, e.clauses, g),
        starts_from(e, demand_program(e, goal), dg),
        is_model(e.st.names, e.now, e.clauses, g, full),
        is_model(e.st.names, e.now, demand_program(e, goal), dg, d),
    ensures
        d.contains(("demand:"@ + goal, args)) <==> full.contains((goal, args)),
{
    let names = e.st.names;
    let k: KeyV = (goal, args);
    lemma_demand_sound(e, goal, names, full, d, d);
    lemma_given_image(e, goal, g, dg, full);
    assert(d.subset_of(demand_image(e, full)));
    lemma_base_seen(e, goal, g, dg, full, d);
    lemma_demand_complete(e, goal, names, full, d);
    lemma_given_merged(e, goal, g, dg, full, d);
    let m = demand_merge(e, goal, full, d);
    assert(full.subset_of(m));
    assert(!materialized(e.st, goal));
    assert(on_demand(e, goal));
    lemma_linked_self(edges_of(e.clauses), goal);
    assert(is_relevant(e, goal, goal));
    let sk = seen_as(e, k);
    assert(sk == ("demand:"@ + goal, args));
    if full.contains(k) {
        assert(m.contains(k));
    }
    if d.contains(sk) {
        assert(demand_image(e, full).contains(sk));
        lemma_demand_name(goal, goal);
        let p = choose|p: Seq<char>| #[trigger] demand_name(e, p) == sk.0 && on_demand(e, p) && full.contains((p, sk.1));
        lemma_demand_name(p, goal);
    }
}

/// The model of the program of an engine that was not evaluated yet.
proof fn lemma_whole_model(e: EngineV)
    requires
        is_sound(e.st),
        e.st.retracted == Set::<Seq<char>>::empty(),
        e.dirty,
        e.ever.finite(),
        e.st.names.len() < usize::MAX,
        e.clauses.len() <= usize::MAX,
        all_positive(e.clauses),
        no_aggregates(e.clauses),
        all_simple(e.st.names, e.clauses),
        heads_known(e.st.names, e.clauses),
        forall|k: KeyV| #[trigger] holds(e.st.rels, k) ==> !e.ever.contains(k.0) && !has_clause(e.clauses, k.0),
        strata_settle(prepared(e).st, e.now, e.clauses, strata_of(e.clauses), 0),
    ensures
        starts_from(e, e.clauses, facts(prepared(e).st.rels)),
        is_model(e.st.names, e.now, e.clauses, facts(prepared(e).st.rels), facts(ran(e).0.st.rels)),
{
    positive_is_stratified(e.clauses);
    lemma_prepared(e);
    lemma_ran_strata(e);
    run_gives_model(e, e.st.names);
    let g = facts(prepared(e).st.rels);
    assert forall|k: KeyV| #[trigger] g.contains(k) <==> holds(e.st.rels, k) || states(e.st.names, e.clauses, 0, k) by {
        assert(g.contains(k) <==> holds(prepared(e).st.rels, k));
    }
}

/// Law: a deep query sees what a query after a run would see. For a program
/// without negation and aggregates that was not evaluated yet, the relation
/// that stands for the goal holds the same tuples as the goal's own relation
/// after a run.
pub proof fn deep_query_agrees(e: EngineV, goal: Seq<char>)
    requires
        is_sound(e.st),
        e.st.retracted == Set::<Seq<char>>::empty(),
        e.ever.finite(),
        e.st.names.len() < usize::MAX,
        e.clauses.len() <= usize::MAX,
        is_unevaluated(e),
        no_demand_names(e),
        all_positive(e.clauses),
        all_simple(e.st.names, e.clauses),
        heads_known(e.st.names, e.clauses),
        has_clause(e.clauses, goal),
        strata_settle(prepared(e).st, e.now, e.clauses, strata_of(e.clauses), 0),
        ({
            let d = demand_engine(e, goal);
            strata_settle(prepared(d).st, d.now, d.clauses, strata_of(d.clauses), 0)
        }),
    ensures
        forall|args: Seq<Value>| #[trigger]
            holds(ran_demand(e, goal).st.rels, ("demand:"@ + goal, args)) <==> holds(ran(e).0.st.rels, (goal, args)),
{
    let cs = e.clauses;
    let names = e.st.names;
    let de = demand_engine(e, goal);
    let dcs = de.clauses;
    lemma_demand_upto(e, goal, cs.len() as int);
    lemma_demand_fine(e, goal);
    assert forall|i: int| 0 <= i < cs.len() && !(#[trigger] cs[i]).is_fact implies !aggregates(cs[i]) by {
        assert(is_simple(names, cs[i]));
    }
    assert forall|k: KeyV| #[trigger] holds(e.st.rels, k) implies !e.ever.contains(k.0) && !has_clause(cs, k.0) by {
        assert(materialized(e.st, k.0));
    }
    assert forall|k: KeyV| #[trigger] holds(de.st.rels, k) implies !de.ever.contains(k.0) && !has_clause(dcs, k.0) by {
        assert(holds(e.st.rels, k));
        if has_clause(dcs, k.0) {
            let j = choose|j: int| 0 <= j < dcs.len() && (#[trigger] dcs[j]).head.pred == k.0;
            assert(renames(e, goal, cs.len() as int, dcs[j]));
            let i = choose|i: int|
                0 <= i < cs.len() && takes_part(e, goal, #[trigger] cs[i]) && dcs[j] == demand_clause(e, cs[i]);
            lemma_demand_name(cs[i].head.pred, cs[i].head.pred);
        }
    }
    lemma_whole_model(e);
    lemma_whole_model(de);
    let g = facts(prepared(e).st.rels);
    let dg = facts(prepared(de).st.rels);
    let full = facts(ran(e).0.st.rels);
    let d = facts(ran(de).0.st.rels);
    assert(ran_demand(e, goal) == ran(de).0);
    assert(starts_from(e, dcs, dg)) by {
        assert forall|k: KeyV| #[trigger] dg.contains(k) <==> holds(e.st.rels, k) || states(names, dcs, 0, k) by {
            assert(dg.contains(k) <==> holds(de.st.rels, k) || states(names, dcs, 0, k));
        }
    }
    assert forall|args: Seq<Value>| #[trigger]
        holds(ran_demand(e, goal).st.rels, ("demand:"@ + goal, args)) <==> holds(ran(e).0.st.rels, (goal, args)) by {
        lemma_models_agree(e, goal, g, dg, full, d, args);
        assert(full.contains((goal, args)) <==> holds(ran(e).0.st.rels, (goal, args)));
        assert(d.contains(("demand:"@ + goal, args)) <==> holds(ran(de).0.st.rels, ("demand:"@ + goal, args)));
    }
}

/// A demand program is as simple as the program that it comes from.
proof fn lemma_demand_fine(e: EngineV, goal: Seq<char>)
    requires
        all_positive(e.clauses),
        all_simple(e.st.names, e.clauses),
        heads_known(e.st.names, e.clauses),
    ensures
        all_positive(demand_program(e, goal)),
        all_simple(e.st.names, demand_program(e, goal)),
        heads_known(e.st.names, demand_program(e, goal)),
        no_aggregates(demand_program(e, goal)),
{
    let cs = e.clauses;
    let dcs = demand_program(e, goal);
    lemma_demand_upto(e, goal, cs.len() as int);
    assert forall|j: int| 0 <= j < dcs.len() implies head_known(e.st.names, (#[trigger] dcs[j]).head.args) && (!dcs[j].is_fact
        ==> is_positive(dcs[j]) && is_simple(e.st.names, dcs[j])) by {
        assert(renames(e, goal, cs.len() as int, dcs[j]));
        let i = choose|i: int| 0 <= i < cs.len() && takes_part(e, goal, #[trigger] cs[i]) && dcs[j] == demand_clause(e, cs[i]);
        assert(head_known(e.st.names, cs[i].head.args));
        if !dcs[j].is_fact {
            assert(is_simple(e.st.names, cs[i]));
            assert(is_positive(cs[i]));
            lemma_renamed_simple(e, e.st.names, cs[i]);
        }
    }
}

} // verus!

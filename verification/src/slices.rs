//! Deep queries under negation: the part of a program that a goal needs gives
//! the same facts for it as the whole.

use vstd::prelude::*;
use crate::ast::{LitV, TermV};
use crate::deep::{
    demand_engine, head_known, heads_known, is_demand, is_unevaluated, lemma_demand_name, lemma_demand_upto, lemma_head_fixed,
    lemma_prepared, lemma_renamed_simple, named_as, no_demand_names, renames, seen_as, starts_from, states,
};
use crate::demand::{demand_atom, demand_clause, demand_lit, demand_name, demand_program, materialized, on_demand, ran_demand, takes_part};
use crate::engine::{lemma_strata_fit, prepared, ran, EngineV};
use crate::env::Bindings;
use crate::evaluate::{evaluated, stratum_rules};
use crate::exact::{facts_supported, follows_by, lemma_body_moves};
use crate::follow::stated_underived;
use crate::model::{body_true, facts, has_instance, head_fact, is_instance, leads_into, lit_true};
use crate::perfect::{all_simple, is_model, is_simple, lemma_edge_at, lemma_reads_below, program_closed};
use crate::query::has_clause;
use crate::ranks::{layered_is_accepted, reads_within};
use crate::relation::KeyV;
use crate::runs::{is_sound, no_aggregates};
use crate::scope::{rebuild_gives_model, run_settles};
use crate::solve::head_values;
use crate::store::{holds, StoreV};
use crate::stratify::{
    aggregates, defined, edges_of, grouped, is_levels, lemma_linked_self, lemma_linked_step, lemma_linked_trans, linked, lit_dep, reads,
    strata_error, strata_exist, strata_of,
};
use crate::upkeep::{heads_have, lemma_run_keeps_for, with_names};
use crate::value::Value;

verus! {

/// Two sets hold the same of a predicate, as the demand program names it in
/// the second.
pub open spec fn shows_alike(e: EngineV, full: Set<KeyV>, d: Set<KeyV>, q: Seq<char>) -> bool {
    forall|args: Seq<Value>|
        #![trigger full.contains((q, args))]
        #![trigger d.contains(seen_as(e, (q, args)))]
        full.contains((q, args)) <==> d.contains(seen_as(e, (q, args)))
}

/// The model of a program and that of its demand program for a goal. What the
/// demand program does not derive, the store holds as the model does; what it
/// derives was not given, but for what the program states.
pub open spec fn is_sliced(
    e: EngineV,
    goal: Seq<char>,
    l: Map<Seq<char>, nat>,
    g: Set<KeyV>,
    dg: Set<KeyV>,
    full: Set<KeyV>,
    d: Set<KeyV>,
) -> bool {
    let names = e.st.names;
    &&& strata_error(e.clauses) is None
    &&& is_levels(e.clauses, l)
    &&& no_demand_names(e)
    &&& is_model(names, e.now, e.clauses, g, full)
    &&& is_model(names, e.now, demand_program(e, goal), dg, d)
    &&& starts_from(e, demand_program(e, goal), dg)
    &&& forall|k: KeyV| on_demand(e, k.0) ==> (#[trigger] g.contains(k) <==> states(names, e.clauses, 0, k))
    &&& forall|k: KeyV|
        !is_demand(k.0) && !on_demand(e, k.0) ==> (#[trigger] full.contains(k) <==> holds(e.st.rels, k))
}

/// A clause of the demand program comes from one of the program.
pub proof fn lemma_slice_clause(e: EngineV, goal: Seq<char>, j: int) -> (i: int)
    requires
        0 <= j < demand_program(e, goal).len(),
    ensures
        0 <= i < e.clauses.len(),
        takes_part(e, goal, e.clauses[i]),
        demand_program(e, goal)[j] == demand_clause(e, e.clauses[i]),
        demand_program(e, goal)[j].head.pred == "demand:"@ + e.clauses[i].head.pred,
{
    lemma_demand_upto(e, goal, e.clauses.len() as int);
    assert(renames(e, goal, e.clauses.len() as int, demand_program(e, goal)[j]));
    choose|i: int|
        0 <= i < e.clauses.len() && takes_part(e, goal, #[trigger] e.clauses[i]) && demand_program(e, goal)[j] == demand_clause(
            e,
            e.clauses[i],
        )
}

/// A demand program states no fact of what its rules derive where the program
/// states none.
pub proof fn lemma_slice_stated(e: EngineV, goal: Seq<char>)
    requires
        stated_underived(e.clauses),
    ensures
        stated_underived(demand_program(e, goal)),
{
    let cs = e.clauses;
    let dcs = demand_program(e, goal);
    assert forall|j: int| 0 <= j < dcs.len() && (#[trigger] dcs[j]).is_fact implies !defined(dcs, dcs[j].head.pred) by {
        let i = lemma_slice_clause(e, goal, j);
        if defined(dcs, dcs[j].head.pred) {
            let y = choose|y: int| 0 <= y < dcs.len() && !(#[trigger] dcs[y]).is_fact && dcs[y].head.pred == dcs[j].head.pred;
            let z = lemma_slice_clause(e, goal, y);
            lemma_demand_name(cs[z].head.pred, cs[i].head.pred);
            assert(cs[i].is_fact && !cs[z].is_fact);
            assert(defined(cs, cs[i].head.pred));
        }
    }
}

/// What the demand program states is what the program does.
pub proof fn lemma_stated_alike(e: EngineV, goal: Seq<char>, q: Seq<char>, args: Seq<Value>)
    requires
        on_demand(e, q),
    ensures
        states(e.st.names, e.clauses, 0, (q, args)) <==> states(
            e.st.names,
            demand_program(e, goal),
            0,
            ("demand:"@ + q, args),
        ),
{
    let cs = e.clauses;
    let dcs = demand_program(e, goal);
    let names = e.st.names;
    let k = (q, args);
    let dk = ("demand:"@ + q, args);
    lemma_demand_upto(e, goal, cs.len() as int);
    if states(names, cs, 0, k) {
        let i = choose|i: int|
            0 <= i < cs.len() && (#[trigger] cs[i]).is_fact && head_values(names, cs[i].head.args, Map::empty()).1 == Some(k.1)
                && cs[i].head.pred == k.0;
        assert(takes_part(e, goal, cs[i]));
        let dc = demand_clause(e, cs[i]);
        assert(dcs.contains(dc));
        let j = choose|j: int| 0 <= j < dcs.len() && dcs[j] == dc;
        assert(dcs[j].is_fact && dcs[j].head.pred == dk.0);
    }
    if states(names, dcs, 0, dk) {
        let j = choose|j: int|
            0 <= j < dcs.len() && (#[trigger] dcs[j]).is_fact && head_values(names, dcs[j].head.args, Map::empty()).1 == Some(
                dk.1,
            ) && dcs[j].head.pred == dk.0;
        let i = lemma_slice_clause(e, goal, j);
        lemma_demand_name(cs[i].head.pred, q);
        assert(cs[i].is_fact && cs[i].head.pred == q);
    }
}

/// What no rule derives is alike.
proof fn lemma_underived_alike(
    e: EngineV,
    goal: Seq<char>,
    l: Map<Seq<char>, nat>,
    g: Set<KeyV>,
    dg: Set<KeyV>,
    full: Set<KeyV>,
    d: Set<KeyV>,
    q: Seq<char>,
)
    requires
        is_sliced(e, goal, l, g, dg, full, d),
        on_demand(e, q) ==> !defined(e.clauses, q),
        !on_demand(e, q) ==> !is_demand(q),
    ensures
        shows_alike(e, full, d, q),
{
    let cs = e.clauses;
    let dcs = demand_program(e, goal);
    let names = e.st.names;
    assert forall|args: Seq<Value>| full.contains((q, args)) <==> d.contains(seen_as(e, (q, args))) by {
        let k = (q, args);
        let dk = seen_as(e, k);
        facts_supported(names, e.now, cs, g, full, k);
        facts_supported(names, e.now, dcs, dg, d, dk);
        lemma_demand_name(q, q);
        if d.contains(dk) && !dg.contains(dk) {
            let (j, x) = choose|j: int, x: Bindings|
                0 <= j < dcs.len() && #[trigger] follows_by(names, e.now, dcs[j], d, dk, x);
            let i = lemma_slice_clause(e, goal, j);
            lemma_demand_name(cs[i].head.pred, q);
            assert(dcs[j].head.pred == dk.0);
            assert(cs[i].head.pred == q);
            assert(!cs[i].is_fact);
            assert(defined(cs, q));
        }
        if on_demand(e, q) {
            if full.contains(k) && !g.contains(k) {
                let (i, x) = choose|i: int, x: Bindings|
                    0 <= i < cs.len() && #[trigger] follows_by(names, e.now, cs[i], full, k, x);
                assert(cs[i].head.pred == q && !cs[i].is_fact);
                assert(defined(cs, q));
            }
            lemma_stated_alike(e, goal, q, args);
            assert(g.contains(k) <==> states(names, cs, 0, k));
            assert(dg.contains(dk) <==> holds(e.st.rels, dk) || states(names, dcs, 0, dk));
            assert(is_demand(dk.0));
            assert(!holds(e.st.rels, dk));
        } else {
            assert(dg.contains(k) <==> holds(e.st.rels, k) || states(names, dcs, 0, k));
            if states(names, dcs, 0, k) {
                let j = choose|j: int|
                    0 <= j < dcs.len() && (#[trigger] dcs[j]).is_fact && head_values(names, dcs[j].head.args, Map::empty()).1
                        == Some(k.1) && dcs[j].head.pred == k.0;
                let i = lemma_slice_clause(e, goal, j);
                lemma_demand_name(cs[i].head.pred, q);
            }
        }
    }
}

/// A predicate that the demand program derives by rules.
pub open spec fn is_sought(e: EngineV, goal: Seq<char>, q: Seq<char>) -> bool {
    on_demand(e, q) && defined(e.clauses, q) && linked(edges_of(e.clauses), goal, q)
}

/// What is sought below a level is alike.
pub open spec fn alike_below(
    e: EngineV,
    goal: Seq<char>,
    l: Map<Seq<char>, nat>,
    full: Set<KeyV>,
    d: Set<KeyV>,
    s: int,
) -> bool {
    forall|q: Seq<char>| is_sought(e, goal, q) && l[q] < s ==> #[trigger] shows_alike(e, full, d, q)
}

/// What a rule reads for something sought at a level: at that level and sought
/// too, or alike; what it negates is alike.
proof fn lemma_reads_alike(
    e: EngineV,
    goal: Seq<char>,
    l: Map<Seq<char>, nat>,
    g: Set<KeyV>,
    dg: Set<KeyV>,
    full: Set<KeyV>,
    d: Set<KeyV>,
    s: int,
    i: int,
    j: int,
)
    requires
        is_sliced(e, goal, l, g, dg, full, d),
        alike_below(e, goal, l, full, d, s),
        0 <= i < e.clauses.len(),
        !e.clauses[i].is_fact,
        is_sought(e, goal, e.clauses[i].head.pred),
        l[e.clauses[i].head.pred] == s,
        0 <= j < e.clauses[i].body.len(),
    ensures
        match e.clauses[i].body[j] {
            LitV::Pos(a) => shows_alike(e, full, d, a.pred) || (is_sought(e, goal, a.pred) && l[a.pred] == s),
            LitV::Neg(a) => shows_alike(e, full, d, a.pred),
            _ => true,
        },
{
    let cs = e.clauses;
    let c = cs[i];
    if let Some(dep) = lit_dep(c.body[j]) {
        let q = dep.0;
        assert(!is_demand(q)) by {
            assert(match cs[i].body[j] {
                LitV::Pos(a) => !is_demand(a.pred),
                LitV::Neg(a) => !is_demand(a.pred),
                _ => true,
            });
        }
        if on_demand(e, q) && defined(cs, q) {
            let k = lemma_edge_at(cs, cs.len() as int, i, j);
            let es = edges_of(cs);
            assert(reads(es, c.head.pred, q));
            lemma_linked_step(es, c.head.pred, q);
            lemma_linked_trans(es, goal, c.head.pred, q);
            assert(is_sought(e, goal, q));
            lemma_reads_below(cs, l, i, j);
            assert(l.contains_key(q));
            if l[q] < s {
                assert(shows_alike(e, full, d, q));
            }
        } else {
            lemma_underived_alike(e, goal, l, g, dg, full, d, q);
        }
    }
}

/// What the demand program derives at a level, the program does.
proof fn lemma_level_sound(
    e: EngineV,
    goal: Seq<char>,
    l: Map<Seq<char>, nat>,
    g: Set<KeyV>,
    dg: Set<KeyV>,
    full: Set<KeyV>,
    d: Set<KeyV>,
    s: int,
    p: Seq<char>,
    args: Seq<Value>,
)
    requires
        is_sliced(e, goal, l, g, dg, full, d),
        alike_below(e, goal, l, full, d, s),
        is_sought(e, goal, p),
        l[p] == s,
        d.contains(("demand:"@ + p, args)),
    ensures
        full.contains((p, args)),
{
    let cs = e.clauses;
    let dcs = demand_program(e, goal);
    let names = e.st.names;
    let keep = |k: KeyV|
        forall|q: Seq<char>|
            is_sought(e, goal, q) && l[q] == s && k.0 == #[trigger] demand_name(e, q) ==> full.contains((q, k.1));
    let m = d.filter(keep);
    assert forall|j: int| 0 <= j < dcs.len() && !(#[trigger] dcs[j]).is_fact implies leads_into(names, e.now, dcs[j], m, d, m) by {
        let i = lemma_slice_clause(e, goal, j);
        let c = cs[i];
        let dc = dcs[j];
        assert(!c.is_fact);
        assert forall|x: Bindings| #[trigger]
            body_true(names, e.now, dc, m, d, x) && head_fact(names, dc, x) is Some implies m.contains(
            head_fact(names, dc, x)->Some_0,
        ) by {
            let k = head_fact(names, dc, x)->Some_0;
            lemma_body_moves(names, e.now, dc, m, d, d, d, x);
            assert(leads_into(names, e.now, dc, d, d, d));
            assert(d.contains(k));
            assert(defined(cs, c.head.pred));
            assert(is_sought(e, goal, c.head.pred));
            if l[c.head.pred] == s {
                assert(body_true(names, e.now, c, full, full, x)) by {
                    assert forall|y: int| 0 <= y < c.body.len() implies lit_true(names, e.now, #[trigger] c.body[y], full, full, x) by {
                        assert(dc.body[y] == demand_lit(e, c.body[y]));
                        assert(lit_true(names, e.now, dc.body[y], m, d, x));
                        lemma_reads_alike(e, goal, l, g, dg, full, d, s, i, y);
                        match c.body[y] {
                            LitV::Pos(a) => {
                                let b = demand_atom(e, a);
                                let key = choose|key: Seq<Value>|
                                    m.contains((b.pred, key)) && #[trigger] is_instance(names, b.args, key, x);
                                assert(d.contains(seen_as(e, (a.pred, key))));
                                if !shows_alike(e, full, d, a.pred) {
                                    assert(keep((b.pred, key)));
                                    assert(b.pred == demand_name(e, a.pred));
                                }
                                assert(full.contains((a.pred, key)) && is_instance(names, a.args, key, x));
                            },
                            LitV::Neg(a) => {
                                let b = demand_atom(e, a);
                                if has_instance(names, a, full, x) {
                                    let key = choose|key: Seq<Value>|
                                        full.contains((a.pred, key)) && #[trigger] is_instance(names, a.args, key, x);
                                    assert(d.contains(seen_as(e, (a.pred, key))));
                                    assert(d.contains((b.pred, key)) && is_instance(names, b.args, key, x));
                                }
                            },
                            _ => {},
                        }
                    }
                }
                assert(leads_into(names, e.now, c, full, full, full));
                assert(head_fact(names, c, x) == Some((c.head.pred, k.1)));
                assert(full.contains((c.head.pred, k.1)));
            }
            assert forall|q: Seq<char>|
                is_sought(e, goal, q) && l[q] == s && k.0 == #[trigger] demand_name(e, q) implies full.contains((q, k.1)) by {
                lemma_demand_name(q, c.head.pred);
            }
            assert(keep(k));
        }
    }
    assert(program_closed(names, e.now, dcs, m, d));
    assert forall|k: KeyV| dg.contains(k) implies m.contains(k) by {
        assert forall|q: Seq<char>|
            is_sought(e, goal, q) && l[q] == s && k.0 == #[trigger] demand_name(e, q) implies full.contains((q, k.1)) by {
            lemma_demand_name(q, q);
            assert(is_demand(k.0));
            assert(!holds(e.st.rels, k));
            assert(states(names, dcs, 0, k));
            lemma_stated_alike(e, goal, q, k.1);
            assert(g.contains((q, k.1)));
        }
        assert(keep(k));
    }
    assert(d.subset_of(m));
    let k = ("demand:"@ + p, args);
    assert(keep(k));
    assert(k.0 == demand_name(e, p));
}

/// What the program derives at a level, the demand program does.
proof fn lemma_level_complete(
    e: EngineV,
    goal: Seq<char>,
    l: Map<Seq<char>, nat>,
    g: Set<KeyV>,
    dg: Set<KeyV>,
    full: Set<KeyV>,
    d: Set<KeyV>,
    s: int,
    p: Seq<char>,
    args: Seq<Value>,
)
    requires
        is_sliced(e, goal, l, g, dg, full, d),
        alike_below(e, goal, l, full, d, s),
        is_sought(e, goal, p),
        l[p] == s,
        full.contains((p, args)),
    ensures
        d.contains(("demand:"@ + p, args)),
{
    let cs = e.clauses;
    let dcs = demand_program(e, goal);
    let names = e.st.names;
    let keep = |k: KeyV| is_sought(e, goal, k.0) && l[k.0] == s ==> d.contains(seen_as(e, k));
    let m = full.filter(keep);
    lemma_demand_upto(e, goal, cs.len() as int);
    assert forall|i: int| 0 <= i < cs.len() && !(#[trigger] cs[i]).is_fact implies leads_into(names, e.now, cs[i], m, full, m) by {
        let c = cs[i];
        assert forall|x: Bindings| #[trigger]
            body_true(names, e.now, c, m, full, x) && head_fact(names, c, x) is Some implies m.contains(
            head_fact(names, c, x)->Some_0,
        ) by {
            let k = head_fact(names, c, x)->Some_0;
            lemma_body_moves(names, e.now, c, m, full, full, full, x);
            assert(leads_into(names, e.now, c, full, full, full));
            assert(full.contains(k));
            if is_sought(e, goal, k.0) && l[k.0] == s {
                let dc = demand_clause(e, c);
                assert(takes_part(e, goal, c));
                assert(dcs.contains(dc));
                let j = choose|j: int| 0 <= j < dcs.len() && dcs[j] == dc;
                assert(body_true(names, e.now, dc, d, d, x)) by {
                    assert forall|y: int| 0 <= y < dc.body.len() implies lit_true(names, e.now, #[trigger] dc.body[y], d, d, x) by {
                        assert(dc.body[y] == demand_lit(e, c.body[y]));
                        assert(lit_true(names, e.now, c.body[y], m, full, x));
                        lemma_reads_alike(e, goal, l, g, dg, full, d, s, i, y);
                        match c.body[y] {
                            LitV::Pos(a) => {
                                let b = demand_atom(e, a);
                                let key = choose|key: Seq<Value>|
                                    m.contains((a.pred, key)) && #[trigger] is_instance(names, a.args, key, x);
                                assert(full.contains((a.pred, key)));
                                assert(keep((a.pred, key)));
                                assert(d.contains(seen_as(e, (a.pred, key))));
                                assert(d.contains((b.pred, key)) && is_instance(names, b.args, key, x));
                            },
                            LitV::Neg(a) => {
                                let b = demand_atom(e, a);
                                if has_instance(names, b, d, x) {
                                    let key = choose|key: Seq<Value>|
                                        d.contains((b.pred, key)) && #[trigger] is_instance(names, b.args, key, x);
                                    assert(d.contains(seen_as(e, (a.pred, key))));
                                    assert(full.contains((a.pred, key)) && is_instance(names, a.args, key, x));
                                }
                            },
                            _ => {},
                        }
                    }
                }
                assert(leads_into(names, e.now, dcs[j], d, d, d));
                assert(head_fact(names, dc, x) == Some(seen_as(e, k)));
            }
            assert(keep(k));
        }
    }
    assert(program_closed(names, e.now, cs, m, full));
    assert forall|k: KeyV| g.contains(k) implies m.contains(k) by {
        if is_sought(e, goal, k.0) && l[k.0] == s {
            assert(states(names, cs, 0, k));
            lemma_stated_alike(e, goal, k.0, k.1);
            assert(dg.contains(seen_as(e, k)));
        }
        assert(keep(k));
    }
    assert(full.subset_of(m));
    assert(keep((p, args)));
}

/// What is sought is alike.
pub proof fn lemma_sought_alike(
    e: EngineV,
    goal: Seq<char>,
    l: Map<Seq<char>, nat>,
    g: Set<KeyV>,
    dg: Set<KeyV>,
    full: Set<KeyV>,
    d: Set<KeyV>,
    s: nat,
)
    requires
        is_sliced(e, goal, l, g, dg, full, d),
    ensures
        alike_below(e, goal, l, full, d, s as int),
    decreases s,
{
    if s > 0 {
        lemma_sought_alike(e, goal, l, g, dg, full, d, (s - 1) as nat);
        assert forall|q: Seq<char>| is_sought(e, goal, q) && l[q] < s implies #[trigger] shows_alike(e, full, d, q) by {
            if l[q] == s - 1 {
                assert forall|args: Seq<Value>| full.contains((q, args)) <==> d.contains(seen_as(e, (q, args))) by {
                    if d.contains(seen_as(e, (q, args))) {
                        lemma_level_sound(e, goal, l, g, dg, full, d, s - 1, q, args);
                    }
                    if full.contains((q, args)) {
                        lemma_level_complete(e, goal, l, g, dg, full, d, s - 1, q, args);
                    }
                }
            }
        }
    }
}

// ----------------------------------------------------------------------- laws

/// Heads with known constants.
pub open spec fn known_heads(names: Seq<Seq<char>>) -> spec_fn(Seq<TermV>) -> bool {
    |args: Seq<TermV>| head_known(names, args)
}

/// A run of a program whose heads are known adds no names.
proof fn lemma_run_names(e: EngineV)
    requires
        e.clauses.len() <= usize::MAX,
        strata_error(e.clauses) is None,
        no_aggregates(e.clauses),
        heads_known(e.st.names, e.clauses),
    ensures
        ran(e).0.st.names == e.st.names,
{
    let cs = e.clauses;
    let names = e.st.names;
    let p = named_as(names);
    let hs = known_heads(names);
    let strata = strata_of(cs);
    strata_exist(cs);
    lemma_strata_fit(cs, strata);
    assert forall|s: int| 0 <= s < strata.len() implies heads_have(stratum_rules(cs, #[trigger] strata[s]), hs) by {
        let rules = stratum_rules(cs, strata[s]);
        assert forall|j: int| 0 <= j < rules.len() implies hs((#[trigger] rules[j]).head.args) by {
            let i = strata[s][j];
            assert(0 <= i < cs.len());
            assert(rules[j] == evaluated(cs[i], i));
            assert(!aggregates(cs[i]));
            assert(head_known(names, cs[i].head.args));
        }
    }
    assert forall|st: StoreV, args: Seq<TermV>, map: Bindings| p(st) && hs(args) implies #[trigger] p(
        with_names(st, head_values(st.names, args, map).0),
    ) by {
        lemma_head_fixed(names, args, 0, map, Seq::empty());
    }
    lemma_run_keeps_for(p, hs, e);
}

proof fn lemma_demand_simple(e: EngineV, goal: Seq<char>, l: Map<Seq<char>, nat>)
    requires
        e.clauses.len() <= usize::MAX,
        strata_error(e.clauses) is None,
        is_levels(e.clauses, l),
        all_simple(e.st.names, e.clauses),
        heads_known(e.st.names, e.clauses),
        no_demand_names(e),
    ensures
        demand_program(e, goal).len() <= usize::MAX,
        all_simple(e.st.names, demand_program(e, goal)),
        heads_known(e.st.names, demand_program(e, goal)),
        no_aggregates(demand_program(e, goal)),
        strata_error(demand_program(e, goal)) is None,
{
    let cs = e.clauses;
    let dcs = demand_program(e, goal);
    let names = e.st.names;
    lemma_demand_upto(e, goal, cs.len() as int);
    let rank = |p: Seq<char>|
        if is_demand(p) && l.contains_key(p.skip("demand:"@.len() as int)) {
            l[p.skip("demand:"@.len() as int)] + 1
        } else {
            0nat
        };
    assert forall|j: int| 0 <= j < dcs.len() implies head_known(names, (#[trigger] dcs[j]).head.args) by {
        let i = lemma_slice_clause(e, goal, j);
        assert(head_known(names, cs[i].head.args));
    }
    assert forall|j: int| 0 <= j < dcs.len() && !(#[trigger] dcs[j]).is_fact implies is_simple(names, dcs[j]) && reads_within(
        dcs[j],
        rank,
    ) by {
        let i = lemma_slice_clause(e, goal, j);
        let c = cs[i];
        assert(is_simple(names, c));
        lemma_renamed_simple(e, names, c);
        lemma_demand_rank(c.head.pred);
        assert(defined(cs, c.head.pred));
        assert forall|y: int| 0 <= y < dcs[j].body.len() implies (match #[trigger] dcs[j].body[y] {
            LitV::Pos(a) => rank(a.pred) <= rank(dcs[j].head.pred),
            LitV::Neg(a) => rank(a.pred) < rank(dcs[j].head.pred),
            _ => true,
        }) by {
            assert(dcs[j].body[y] == demand_lit(e, c.body[y]));
            lemma_reads_below(cs, l, i, y);
            if let Some(dep) = lit_dep(c.body[y]) {
                assert(!is_demand(dep.0)) by {
                    assert(match cs[i].body[y] {
                        LitV::Pos(a) => !is_demand(a.pred),
                        LitV::Neg(a) => !is_demand(a.pred),
                        _ => true,
                    });
                }
                lemma_demand_rank(dep.0);
            }
        }
    }
    layered_is_accepted(dcs, rank);
}

pub proof fn lemma_demand_rank(p: Seq<char>)
    ensures
        is_demand("demand:"@ + p),
        ("demand:"@ + p).skip("demand:"@.len() as int) == p,
{
    lemma_demand_name(p, p);
    assert(("demand:"@ + p).skip("demand:"@.len() as int) =~= p);
}

/// The demand program, evaluated, gives its model.
proof fn lemma_demand_model(e: EngineV, goal: Seq<char>, l: Map<Seq<char>, nat>)
    requires
        is_sound(e.st),
        e.st.names.len() < usize::MAX,
        e.clauses.len() <= usize::MAX,
        strata_error(e.clauses) is None,
        is_levels(e.clauses, l),
        all_simple(e.st.names, e.clauses),
        heads_known(e.st.names, e.clauses),
        no_demand_names(e),
        stated_underived(demand_program(e, goal)),
        forall|k: KeyV| on_demand(e, k.0) && #[trigger] states(e.st.names, e.clauses, 0, k) ==> !defined(e.clauses, k.0),
        run_settles(demand_engine(e, goal)),
    ensures
        starts_from(e, demand_program(e, goal), facts(prepared(demand_engine(e, goal)).st.rels)),
        is_model(
            e.st.names,
            e.now,
            demand_program(e, goal),
            facts(prepared(demand_engine(e, goal)).st.rels),
            facts(ran_demand(e, goal).st.rels),
        ),
{
    let cs = e.clauses;
    let de = demand_engine(e, goal);
    let dcs = de.clauses;
    let names = e.st.names;
    lemma_demand_simple(e, goal, l);
    assert forall|k: KeyV| #[trigger] holds(de.st.rels, k) implies !de.ever.contains(k.0) && !has_clause(dcs, k.0) by {
        assert(holds(e.st.rels, k));
        if has_clause(dcs, k.0) {
            let j = choose|j: int| 0 <= j < dcs.len() && (#[trigger] dcs[j]).head.pred == k.0;
            let i = lemma_slice_clause(e, goal, j);
            lemma_demand_name(cs[i].head.pred, cs[i].head.pred);
        }
    }
    assert(is_sound(de.st));
    lemma_prepared(de);
    lemma_run_names(de);
    assert forall|k: KeyV| #[trigger] holds(prepared(de).st.rels, k) implies !defined(dcs, k.0) by {
        if holds(de.st.rels, k) {
            assert(!has_clause(dcs, k.0));
            if defined(dcs, k.0) {
                let j = choose|j: int| 0 <= j < dcs.len() && !(#[trigger] dcs[j]).is_fact && dcs[j].head.pred == k.0;
                assert(has_clause(dcs, k.0));
            }
        } else {
            assert(states(names, dcs, 0, k));
            let j = choose|j: int|
                0 <= j < dcs.len() && (#[trigger] dcs[j]).is_fact && head_values(names, dcs[j].head.args, Map::empty()).1 == Some(
                    k.1,
                ) && dcs[j].head.pred == k.0;
            let i = lemma_slice_clause(e, goal, j);
            let q = cs[i].head.pred;
            assert(on_demand(e, q));
            lemma_stated_alike(e, goal, q, k.1);
            assert(states(names, cs, 0, (q, k.1)));
            if defined(dcs, k.0) {
                let y = choose|y: int| 0 <= y < dcs.len() && !(#[trigger] dcs[y]).is_fact && dcs[y].head.pred == k.0;
                let z = lemma_slice_clause(e, goal, y);
                lemma_demand_name(cs[z].head.pred, q);
                assert(!cs[z].is_fact && cs[z].head.pred == q);
                assert(defined(cs, q));
            }
        }
    }
    rebuild_gives_model(de);
    assert(ran_demand(e, goal) == ran(de).0);
    let dg = facts(prepared(de).st.rels);
    assert forall|k: KeyV| #[trigger] dg.contains(k) <==> holds(e.st.rels, k) || states(names, dcs, 0, k) by {
        assert(dg.contains(k) <==> holds(prepared(de).st.rels, k));
        assert(holds(de.st.rels, k) <==> holds(e.st.rels, k));
    }
}

/// Law: a deep query sees what a query after a run would see, negation
/// included. The program was not evaluated yet, does not aggregate, and states
/// no facts of what its rules derive; the relation that stands for the goal
/// holds the same tuples as the goal's own relation after a run.
pub proof fn stratified_deep_query_agrees(e: EngineV, goal: Seq<char>)
    requires
        is_sound(e.st),
        e.ever.finite(),
        e.st.names.len() < usize::MAX,
        e.clauses.len() <= usize::MAX,
        is_unevaluated(e),
        no_demand_names(e),
        strata_error(e.clauses) is None,
        all_simple(e.st.names, e.clauses),
        heads_known(e.st.names, e.clauses),
        stated_underived(e.clauses),
        has_clause(e.clauses, goal),
        run_settles(e),
        run_settles(demand_engine(e, goal)),
    ensures
        forall|args: Seq<Value>| #[trigger]
            holds(ran_demand(e, goal).st.rels, ("demand:"@ + goal, args)) <==> holds(ran(e).0.st.rels, (goal, args)),
{
    let cs = e.clauses;
    let names = e.st.names;
    let de = demand_engine(e, goal);
    strata_exist(cs);
    let l = choose|l: Map<Seq<char>, nat>| #[trigger] is_levels(cs, l) && grouped(cs, l, strata_of(cs));
    assert forall|k: KeyV| #[trigger] holds(e.st.rels, k) implies !e.ever.contains(k.0) && !has_clause(cs, k.0) by {
        assert(materialized(e.st, k.0));
    }
    assert forall|i: int| 0 <= i < cs.len() && !(#[trigger] cs[i]).is_fact implies !aggregates(cs[i]) by {
        assert(is_simple(names, cs[i]));
    }
    lemma_prepared(e);
    lemma_run_names(e);
    assert forall|k: KeyV| #[trigger] states(names, cs, 0, k) implies !defined(cs, k.0) && has_clause(cs, k.0) by {
        let j = choose|j: int|
            0 <= j < cs.len() && (#[trigger] cs[j]).is_fact && head_values(names, cs[j].head.args, Map::empty()).1 == Some(k.1)
                && cs[j].head.pred == k.0;
        assert(!defined(cs, cs[j].head.pred));
    }
    assert forall|k: KeyV| #[trigger] holds(prepared(e).st.rels, k) implies !defined(cs, k.0) by {
        if holds(e.st.rels, k) && defined(cs, k.0) {
            let i = choose|i: int| 0 <= i < cs.len() && !(#[trigger] cs[i]).is_fact && cs[i].head.pred == k.0;
            assert(has_clause(cs, k.0));
        }
    }
    rebuild_gives_model(e);
    lemma_slice_stated(e, goal);
    lemma_demand_model(e, goal, l);
    let g = facts(prepared(e).st.rels);
    let dg = facts(prepared(de).st.rels);
    let full = facts(ran(e).0.st.rels);
    let d = facts(ran_demand(e, goal).st.rels);
    assert forall|k: KeyV| on_demand(e, k.0) implies (#[trigger] g.contains(k) <==> states(names, cs, 0, k)) by {
        assert(g.contains(k) <==> holds(prepared(e).st.rels, k));
    }
    assert forall|k: KeyV| !is_demand(k.0) && !on_demand(e, k.0) implies (#[trigger] full.contains(k) <==> holds(
        e.st.rels,
        k,
    )) by {
        assert(g.contains(k) <==> holds(prepared(e).st.rels, k));
        assert(!has_clause(cs, k.0)) by {
            assert(!(has_clause(cs, k.0) && materialized(e.st, k.0)));
        }
        facts_supported(names, e.now, cs, g, full, k);
        if full.contains(k) && !g.contains(k) {
            let (i, x) = choose|i: int, x: Bindings| 0 <= i < cs.len() && #[trigger] follows_by(names, e.now, cs[i], full, k, x);
            assert(cs[i].head.pred == k.0);
            assert(has_clause(cs, k.0));
        }
    }
    assert(is_sliced(e, goal, l, g, dg, full, d));
    assert(!materialized(e.st, goal));
    lemma_goal_alike(e, goal, l, g, dg, full, d);
    assert forall|args: Seq<Value>| #[trigger]
        holds(ran_demand(e, goal).st.rels, ("demand:"@ + goal, args)) <==> holds(ran(e).0.st.rels, (goal, args)) by {
        assert(full.contains((goal, args)) <==> holds(ran(e).0.st.rels, (goal, args)));
        assert(d.contains(seen_as(e, (goal, args))) <==> holds(ran_demand(e, goal).st.rels, ("demand:"@ + goal, args)));
    }
}

proof fn lemma_goal_alike(
    e: EngineV,
    goal: Seq<char>,
    l: Map<Seq<char>, nat>,
    g: Set<KeyV>,
    dg: Set<KeyV>,
    full: Set<KeyV>,
    d: Set<KeyV>,
)
    requires
        is_sliced(e, goal, l, g, dg, full, d),
        on_demand(e, goal),
    ensures
        shows_alike(e, full, d, goal),
{
    if defined(e.clauses, goal) {
        lemma_linked_self(edges_of(e.clauses), goal);
        assert(is_sought(e, goal, goal));
        lemma_sought_alike(e, goal, l, g, dg, full, d, l[goal] + 1);
        assert(shows_alike(e, full, d, goal));
    } else {
        lemma_underived_alike(e, goal, l, g, dg, full, d, goal);
    }
}

/// Law: where the stored facts are the model of the program, a deep query of
/// what has no facts finds none.
pub proof fn deep_query_after_run(e: EngineV, goal: Seq<char>, given: Set<KeyV>)
    requires
        is_sound(e.st),
        e.st.names.len() < usize::MAX,
        e.clauses.len() <= usize::MAX,
        no_demand_names(e),
        strata_error(e.clauses) is None,
        all_simple(e.st.names, e.clauses),
        heads_known(e.st.names, e.clauses),
        is_model(e.st.names, e.now, e.clauses, given, facts(e.st.rels)),
        forall|k: KeyV| #[trigger] states(e.st.names, e.clauses, 0, k) ==> holds(e.st.rels, k),
        stated_underived(demand_program(e, goal)),
        has_clause(e.clauses, goal),
        !materialized(e.st, goal),
        run_settles(demand_engine(e, goal)),
    ensures
        forall|args: Seq<Value>| !#[trigger] holds(ran_demand(e, goal).st.rels, ("demand:"@ + goal, args)),
{
    let cs = e.clauses;
    let names = e.st.names;
    let de = demand_engine(e, goal);
    let full = facts(e.st.rels);
    let dg = facts(prepared(de).st.rels);
    let d = facts(ran_demand(e, goal).st.rels);
    strata_exist(cs);
    let l = choose|l: Map<Seq<char>, nat>| #[trigger] is_levels(cs, l) && grouped(cs, l, strata_of(cs));
    assert forall|k: KeyV| on_demand(e, k.0) implies !#[trigger] holds(e.st.rels, k) by {
        if holds(e.st.rels, k) {
            assert(materialized(e.st, k.0));
        }
    }
    lemma_demand_model(e, goal, l);
    assert forall|k: KeyV| on_demand(e, k.0) implies (#[trigger] given.contains(k) <==> states(names, cs, 0, k)) by {
        if given.contains(k) {
            assert(full.contains(k));
            assert(holds(e.st.rels, k));
        }
    }
    assert(is_sliced(e, goal, l, given, dg, full, d));
    lemma_goal_alike(e, goal, l, given, dg, full, d);
    assert forall|args: Seq<Value>| !#[trigger] holds(ran_demand(e, goal).st.rels, ("demand:"@ + goal, args)) by {
        assert(d.contains(seen_as(e, (goal, args))) <==> holds(ran_demand(e, goal).st.rels, ("demand:"@ + goal, args)));
        assert(!full.contains((goal, args))) by {
            assert(!holds(e.st.rels, (goal, args)));
        }
    }
}

} // verus!

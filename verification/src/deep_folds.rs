//! Deep queries under negation and aggregates: the part of a program that a
//! goal needs gives the same facts for it as the whole, folds included.

use vstd::prelude::*;
use crate::ast::{ClauseV, LitV, TermV};
use crate::deep::{
    demand_engine, head_known, heads_known, is_demand, is_unevaluated, lemma_demand_name, lemma_demand_upto, lemma_head_fixed,
    lemma_prepared_facts, named_as, no_demand_names, seen_as, starts_from, states,
};
use crate::demand::{
    demand_atom, demand_clause, demand_lit, demand_name, demand_program, demand_upto, materialized, on_demand, ran_demand, takes_part,
};
use crate::engine::{lemma_strata_fit, prepared, ran, EngineV};
use crate::env::Bindings;
use crate::evaluate::{evaluated, group_terms, is_temp, stratum_rules, temp_name};
use crate::exact::{facts_supported, follows_by};
use crate::folds::{all_foldable, folds_of, is_foldable, lemma_reads_folded, lowered_program};
use crate::follow::stated_underived;
use crate::frame::lemma_temp_prefix;
use crate::model::{
    body_true, facts, given, gives, has_instance, head_fact, is_instance, is_ready, leads_into, lit_constants_known, lit_true, occurs,
};
use crate::order::{same_listed, tallies_alike};
use crate::perfect::{is_model, lemma_edge_at, lemma_reads_below, leveled, program_closed};
use crate::query::has_clause;
use crate::ranks::{layered_folds_are_accepted, reads_lower, reads_within};
use crate::recompute::{body_reads, lit_reads, owner};
use crate::refold::{lemma_solutions, stratified_run_gives_folds};
use crate::relation::KeyV;
use crate::runs::{is_sound, run_consumes};
use crate::scope::run_settles;
use crate::slices::{
    alike_below, is_sought, known_heads, lemma_demand_rank, lemma_slice_clause, lemma_slice_stated, lemma_stated_alike, shows_alike,
};
use crate::solve::head_values;
use crate::store::{holds, rels_wf, RelsV, StoreV};
use crate::stratify::{
    aggregated, aggregates, defined, edges_of, grouped, is_levels, lemma_linked_self, lemma_linked_step, lemma_linked_trans, lit_dep,
    reads, strata_error, strata_exist, strata_of,
};
use crate::tally::{
    all_tallied, folds_apart, groups_of, is_fold, is_tallied, is_tally, lemma_apart, lemma_only_rule, lemma_rule_list, reads_no_temp,
    solutions, tally,
};
use crate::upkeep::{heads_have, lemma_run_keeps_for, with_names};
use crate::value::Value;

verus! {

/// The facts of a program and those of its demand program for a goal, each a
/// model with its folds. What the demand program does not derive, the store
/// holds as the first does; what it derives was not given, but for what the
/// program states.
pub open spec fn is_sliced_folded(
    e: EngineV,
    goal: Seq<char>,
    l: Map<Seq<char>, nat>,
    g: Set<KeyV>,
    dg: Set<KeyV>,
    r: RelsV,
    dr: RelsV,
) -> bool {
    let names = e.st.names;
    let cs = e.clauses;
    let dcs = demand_program(e, goal);
    &&& folds_apart(cs)
    &&& folds_apart(dcs)
    &&& is_levels(cs, l)
    &&& no_demand_names(e)
    &&& rels_wf(r)
    &&& rels_wf(dr)
    &&& is_model(names, e.now, lowered_program(cs), g.union(folds_of(cs, facts(r))), facts(r))
    &&& is_model(names, e.now, lowered_program(dcs), dg.union(folds_of(dcs, facts(dr))), facts(dr))
    &&& all_tallied(r, cs)
    &&& all_tallied(dr, dcs)
    &&& starts_from(e, dcs, dg)
    &&& forall|k: KeyV| on_demand(e, k.0) ==> (#[trigger] g.contains(k) <==> states(names, cs, 0, k))
    &&& forall|k: KeyV|
        !is_demand(k.0) && !on_demand(e, k.0) && !is_temp(k.0) ==> (#[trigger] facts(r).contains(k) <==> holds(e.st.rels, k))
    &&& forall|k: KeyV| #[trigger] g.contains(k) ==> !is_temp(k.0)
    &&& forall|k: KeyV| #[trigger] holds(e.st.rels, k) ==> !is_temp(k.0)
}

/// A name of one kind is not of the other.
proof fn lemma_kinds(p: Seq<char>)
    ensures
        !(is_temp(p) && is_demand(p)),
{
    reveal_strlit("demand:");
    reveal_strlit("__agg:");
    if is_temp(p) && is_demand(p) {
        assert("__agg:"@[0] == '_' && "demand:"@[0] == 'd');
        assert(p.take(6)[0] == p[0]);
        assert(p.subrange(0, 7)[0] == p[0]);
    }
}

/// What a rule derives as it is evaluated: its predicate, or its intermediate
/// relation.
proof fn lemma_lowered(cs: Seq<ClauseV>, i: int)
    requires
        0 <= i < cs.len(),
        !cs[i].is_fact,
    ensures
        lowered_program(cs)[i] == evaluated(cs[i], i),
        !evaluated(cs[i], i).is_fact,
        evaluated(cs[i], i).body == cs[i].body,
        evaluated(cs[i], i).head.pred == owner(cs[i], i),
        aggregates(cs[i]) ==> owner(cs[i], i) == temp_name(cs[i], i) && is_temp(owner(cs[i], i)),
        !aggregates(cs[i]) ==> evaluated(cs[i], i) == cs[i],
{
    lemma_temp_prefix(cs[i], i);
}

/// A clause of the demand program aggregates as the one it stands for.
proof fn lemma_folds_as(e: EngineV, c: ClauseV)
    ensures
        aggregates(demand_clause(e, c)) == aggregates(c),
        demand_clause(e, c).head.args == c.head.args,
        demand_clause(e, c).body.len() == c.body.len(),
        forall|y: int| 0 <= y < c.body.len() ==> #[trigger] demand_clause(e, c).body[y] == demand_lit(e, c.body[y]),
{
}

/// What no rule derives is alike.
proof fn lemma_underived_folded(
    e: EngineV,
    goal: Seq<char>,
    l: Map<Seq<char>, nat>,
    g: Set<KeyV>,
    dg: Set<KeyV>,
    r: RelsV,
    dr: RelsV,
    q: Seq<char>,
)
    requires
        is_sliced_folded(e, goal, l, g, dg, r, dr),
        on_demand(e, q) ==> !defined(e.clauses, q),
        !on_demand(e, q) ==> !is_demand(q),
        !is_temp(q),
    ensures
        shows_alike(e, facts(r), facts(dr), q),
{
    let cs = e.clauses;
    let dcs = demand_program(e, goal);
    let names = e.st.names;
    let full = facts(r);
    let d = facts(dr);
    let low = lowered_program(cs);
    let dlow = lowered_program(dcs);
    assert forall|args: Seq<Value>| full.contains((q, args)) <==> d.contains(seen_as(e, (q, args))) by {
        let k = (q, args);
        let dk = seen_as(e, k);
        facts_supported(names, e.now, low, g.union(folds_of(cs, full)), full, k);
        facts_supported(names, e.now, dlow, dg.union(folds_of(dcs, d)), d, dk);
        lemma_demand_name(q, q);
        lemma_kinds(dk.0);
        if d.contains(dk) && !dg.contains(dk) {
            let j = if folds_of(dcs, d).contains(dk) {
                choose|j: int| 0 <= j < dcs.len() && !(#[trigger] dcs[j]).is_fact && aggregates(dcs[j]) && dcs[j].head.pred == dk.0
            } else {
                let (j, x) = choose|j: int, x: Bindings|
                    0 <= j < dlow.len() && #[trigger] follows_by(names, e.now, dlow[j], d, dk, x);
                assert(!dcs[j].is_fact);
                lemma_lowered(dcs, j);
                j
            };
            let i = lemma_slice_clause(e, goal, j);
            lemma_demand_name(cs[i].head.pred, q);
            assert(cs[i].head.pred == q);
            assert(!cs[i].is_fact);
            assert(defined(cs, q));
        }
        if on_demand(e, q) {
            if full.contains(k) && !g.contains(k) {
                if folds_of(cs, full).contains(k) {
                    assert(aggregated(cs, q));
                } else {
                    let (i, x) = choose|i: int, x: Bindings|
                        0 <= i < low.len() && #[trigger] follows_by(names, e.now, low[i], full, k, x);
                    assert(!cs[i].is_fact);
                    lemma_lowered(cs, i);
                    assert(cs[i].head.pred == q);
                }
                assert(defined(cs, q));
            }
            lemma_stated_alike(e, goal, q, args);
            assert(g.contains(k) <==> states(names, cs, 0, k));
            assert(dg.contains(dk) <==> holds(e.st.rels, dk) || states(names, dcs, 0, dk));
            assert(is_demand(dk.0));
            assert(!holds(e.st.rels, dk));
        } else {
            assert(dg.contains(k) <==> holds(e.st.rels, k) || states(names, dcs, 0, k));
            if states(names, dcs, 0, k) {
                let j = choose|j: int|
                    0 <= j < dcs.len() && (#[trigger] dcs[j]).is_fact && head_values(names, dcs[j].head.args, Map::empty()).1
                        == Some(k.1) && dcs[j].head.pred == k.0;
                let i = lemma_slice_clause(e, goal, j);
                lemma_demand_name(cs[i].head.pred, q);
            }
        }
    }
}

/// What a rule reads for something sought at a level: at that level, sought
/// too and not aggregated, or alike; what it negates is alike.
proof fn lemma_reads_folded_alike(
    e: EngineV,
    goal: Seq<char>,
    l: Map<Seq<char>, nat>,
    g: Set<KeyV>,
    dg: Set<KeyV>,
    r: RelsV,
    dr: RelsV,
    s: int,
    i: int,
    j: int,
)
    requires
        is_sliced_folded(e, goal, l, g, dg, r, dr),
        alike_below(e, goal, l, facts(r), facts(dr), s),
        0 <= i < e.clauses.len(),
        !e.clauses[i].is_fact,
        is_sought(e, goal, e.clauses[i].head.pred),
        l[e.clauses[i].head.pred] == s,
        0 <= j < e.clauses[i].body.len(),
    ensures
        match e.clauses[i].body[j] {
            LitV::Pos(a) => shows_alike(e, facts(r), facts(dr), a.pred) || (is_sought(e, goal, a.pred) && l[a.pred] == s && !aggregated(
                e.clauses,
                a.pred,
            )),
            LitV::Neg(a) => shows_alike(e, facts(r), facts(dr), a.pred),
            _ => true,
        },
{
    let cs = e.clauses;
    let c = cs[i];
    if let Some(dep) = lit_dep(c.body[j]) {
        let q = dep.0;
        assert(!is_demand(q)) by {
            assert(match cs[i].body[j] {
                LitV::Pos(a) => !is_demand(a.pred),
                LitV::Neg(a) => !is_demand(a.pred),
                _ => true,
            });
        }
        assert(lit_reads(c.body[j], q));
        assert(body_reads(c, q));
        assert(!is_temp(q));
        if on_demand(e, q) && defined(cs, q) {
            let k = lemma_edge_at(cs, cs.len() as int, i, j);
            let es = edges_of(cs);
            assert(reads(es, c.head.pred, q));
            lemma_linked_step(es, c.head.pred, q);
            lemma_linked_trans(es, goal, c.head.pred, q);
            assert(is_sought(e, goal, q));
            lemma_reads_below(cs, l, i, j);
            assert(l.contains_key(q));
            if aggregated(cs, q) {
                lemma_reads_folded(cs, l, i, j);
            }
            if l[q] < s {
                assert(shows_alike(e, facts(r), facts(dr), q));
            }
        } else {
            lemma_underived_folded(e, goal, l, g, dg, r, dr, q);
        }
    }
}

/// A predicate that is sought at a level and not aggregated.
pub open spec fn is_plain_at(e: EngineV, goal: Seq<char>, l: Map<Seq<char>, nat>, s: int, q: Seq<char>) -> bool {
    is_sought(e, goal, q) && l[q] == s && !aggregated(e.clauses, q)
}

/// A literal is true under renaming where what it reads is alike. A fact of a
/// predicate of the level is taken from a set of which that is known.
proof fn lemma_lit_back(
    e: EngineV,
    goal: Seq<char>,
    l: Map<Seq<char>, nat>,
    s: int,
    lit: LitV,
    full: Set<KeyV>,
    d: Set<KeyV>,
    m: Set<KeyV>,
    x: Bindings,
)
    requires
        match lit {
            LitV::Pos(a) => shows_alike(e, full, d, a.pred) || is_plain_at(e, goal, l, s, a.pred),
            LitV::Neg(a) => shows_alike(e, full, d, a.pred),
            _ => true,
        },
        m.subset_of(d),
        forall|q: Seq<char>, args: Seq<Value>|
            is_plain_at(e, goal, l, s, q) && #[trigger] m.contains((demand_name(e, q), args)) ==> full.contains((q, args)),
        lit_true(e.st.names, e.now, demand_lit(e, lit), m, d, x),
    ensures
        lit_true(e.st.names, e.now, lit, full, full, x),
{
    let names = e.st.names;
    match lit {
        LitV::Pos(a) => {
            let b = demand_atom(e, a);
            let key = choose|key: Seq<Value>| m.contains((b.pred, key)) && #[trigger] is_instance(names, b.args, key, x);
            assert(m.contains((demand_name(e, a.pred), key)));
            assert(d.contains(seen_as(e, (a.pred, key))));
            assert(full.contains((a.pred, key)) && is_instance(names, a.args, key, x));
        },
        LitV::Neg(a) => {
            let b = demand_atom(e, a);
            if has_instance(names, a, full, x) {
                let key = choose|key: Seq<Value>| full.contains((a.pred, key)) && #[trigger] is_instance(names, a.args, key, x);
                assert(d.contains(seen_as(e, (a.pred, key))));
                assert(d.contains((b.pred, key)) && is_instance(names, b.args, key, x));
            }
        },
        _ => {},
    }
}

/// The same the other way round.
proof fn lemma_lit_forth(
    e: EngineV,
    goal: Seq<char>,
    l: Map<Seq<char>, nat>,
    s: int,
    lit: LitV,
    full: Set<KeyV>,
    d: Set<KeyV>,
    m: Set<KeyV>,
    x: Bindings,
)
    requires
        match lit {
            LitV::Pos(a) => shows_alike(e, full, d, a.pred) || is_plain_at(e, goal, l, s, a.pred),
            LitV::Neg(a) => shows_alike(e, full, d, a.pred),
            _ => true,
        },
        m.subset_of(full),
        forall|k: KeyV| is_plain_at(e, goal, l, s, k.0) && #[trigger] m.contains(k) ==> d.contains(seen_as(e, k)),
        lit_true(e.st.names, e.now, lit, m, full, x),
    ensures
        lit_true(e.st.names, e.now, demand_lit(e, lit), d, d, x),
{
    let names = e.st.names;
    match lit {
        LitV::Pos(a) => {
            let b = demand_atom(e, a);
            let key = choose|key: Seq<Value>| m.contains((a.pred, key)) && #[trigger] is_instance(names, a.args, key, x);
            assert(full.contains((a.pred, key)));
            assert(d.contains(seen_as(e, (a.pred, key))));
            assert(d.contains((b.pred, key)) && is_instance(names, b.args, key, x));
        },
        LitV::Neg(a) => {
            let b = demand_atom(e, a);
            if has_instance(names, b, d, x) {
                let key = choose|key: Seq<Value>| d.contains((b.pred, key)) && #[trigger] is_instance(names, b.args, key, x);
                assert(d.contains(seen_as(e, (a.pred, key))));
                assert(full.contains((a.pred, key)) && is_instance(names, a.args, key, x));
            }
        },
        _ => {},
    }
}

/// What the demand program derives at a level, the program does.
proof fn lemma_plain_sound(
    e: EngineV,
    goal: Seq<char>,
    l: Map<Seq<char>, nat>,
    g: Set<KeyV>,
    dg: Set<KeyV>,
    r: RelsV,
    dr: RelsV,
    s: int,
    p: Seq<char>,
    args: Seq<Value>,
)
    requires
        is_sliced_folded(e, goal, l, g, dg, r, dr),
        alike_below(e, goal, l, facts(r), facts(dr), s),
        is_plain_at(e, goal, l, s, p),
        facts(dr).contains(("demand:"@ + p, args)),
    ensures
        facts(r).contains((p, args)),
{
    let cs = e.clauses;
    let dcs = demand_program(e, goal);
    let dlow = lowered_program(dcs);
    let names = e.st.names;
    let full = facts(r);
    let d = facts(dr);
    let keep = |k: KeyV| forall|q: Seq<char>| is_plain_at(e, goal, l, s, q) && k.0 == #[trigger] demand_name(e, q) ==> full.contains((q, k.1));
    let m = d.filter(keep);
    assert forall|q: Seq<char>, y: Seq<Value>|
        is_plain_at(e, goal, l, s, q) && #[trigger] m.contains((demand_name(e, q), y)) implies full.contains((q, y)) by {
        assert(keep((demand_name(e, q), y)));
    }
    assert forall|j: int| 0 <= j < dlow.len() && !(#[trigger] dlow[j]).is_fact implies leads_into(names, e.now, dlow[j], m, d, m) by {
        let i = lemma_slice_clause(e, goal, j);
        let c = cs[i];
        let dc = dlow[j];
        assert(!dcs[j].is_fact && !c.is_fact);
        lemma_lowered(dcs, j);
        lemma_folds_as(e, c);
        assert(leads_into(names, e.now, dc, d, d, d));
        assert forall|x: Bindings| #[trigger]
            body_true(names, e.now, dc, m, d, x) && head_fact(names, dc, x) is Some implies m.contains(
            head_fact(names, dc, x)->Some_0,
        ) by {
            let k = head_fact(names, dc, x)->Some_0;
            crate::scope::lemma_body_grows(names, e.now, dc, m, d, d, x);
            assert(d.contains(k));
            assert forall|q: Seq<char>| is_plain_at(e, goal, l, s, q) && k.0 == #[trigger] demand_name(e, q) implies full.contains((q, k.1)) by {
                lemma_demand_name(q, c.head.pred);
                lemma_kinds(k.0);
                assert(k.0 == dc.head.pred);
                assert(!aggregates(c));
                assert(c.head.pred == q);
                assert(body_true(names, e.now, c, full, full, x)) by {
                    assert forall|y: int| 0 <= y < c.body.len() implies lit_true(names, e.now, #[trigger] c.body[y], full, full, x) by {
                        assert(dc.body[y] == demand_lit(e, c.body[y]));
                        assert(lit_true(names, e.now, dc.body[y], m, d, x));
                        lemma_reads_folded_alike(e, goal, l, g, dg, r, dr, s, i, y);
                        lemma_lit_back(e, goal, l, s, c.body[y], full, d, m, x);
                    }
                }
                lemma_lowered(cs, i);
                assert(leads_into(names, e.now, lowered_program(cs)[i], full, full, full));
                assert(head_fact(names, c, x) == Some((c.head.pred, k.1)));
            }
            assert(keep(k));
        }
    }
    assert(program_closed(names, e.now, dlow, m, d));
    assert forall|k: KeyV| dg.union(folds_of(dcs, d)).contains(k) implies m.contains(k) by {
        assert forall|q: Seq<char>| is_plain_at(e, goal, l, s, q) && k.0 == #[trigger] demand_name(e, q) implies full.contains((q, k.1)) by {
            lemma_demand_name(q, q);
            if dg.contains(k) {
                assert(is_demand(k.0));
                assert(!holds(e.st.rels, k));
                assert(states(names, dcs, 0, k));
                lemma_stated_alike(e, goal, q, k.1);
                assert(g.contains((q, k.1)));
                assert(g.union(folds_of(cs, full)).contains((q, k.1)));
            } else {
                let j = choose|j: int| 0 <= j < dcs.len() && !(#[trigger] dcs[j]).is_fact && aggregates(dcs[j]) && dcs[j].head.pred == k.0;
                let i = lemma_slice_clause(e, goal, j);
                lemma_folds_as(e, cs[i]);
                lemma_demand_name(cs[i].head.pred, q);
                assert(!cs[i].is_fact);
                assert(aggregated(cs, q));
            }
        }
        assert(keep(k));
        assert(d.contains(k));
    }
    assert(d.subset_of(m));
    let k = ("demand:"@ + p, args);
    assert(keep(k));
    assert(k.0 == demand_name(e, p));
}

/// What the program derives at a level, the demand program does.
proof fn lemma_plain_complete(
    e: EngineV,
    goal: Seq<char>,
    l: Map<Seq<char>, nat>,
    g: Set<KeyV>,
    dg: Set<KeyV>,
    r: RelsV,
    dr: RelsV,
    s: int,
    p: Seq<char>,
    args: Seq<Value>,
)
    requires
        is_sliced_folded(e, goal, l, g, dg, r, dr),
        alike_below(e, goal, l, facts(r), facts(dr), s),
        is_plain_at(e, goal, l, s, p),
        facts(r).contains((p, args)),
    ensures
        facts(dr).contains(("demand:"@ + p, args)),
{
    let cs = e.clauses;
    let dcs = demand_program(e, goal);
    let low = lowered_program(cs);
    let names = e.st.names;
    let full = facts(r);
    let d = facts(dr);
    let keep = |k: KeyV| is_plain_at(e, goal, l, s, k.0) ==> d.contains(seen_as(e, k));
    let m = full.filter(keep);
    assert forall|k: KeyV| is_plain_at(e, goal, l, s, k.0) && #[trigger] m.contains(k) implies d.contains(seen_as(e, k)) by {
        assert(keep(k));
    }
    lemma_demand_upto(e, goal, cs.len() as int);
    assert forall|i: int| 0 <= i < low.len() && !(#[trigger] low[i]).is_fact implies leads_into(names, e.now, low[i], m, full, m) by {
        let c = low[i];
        assert(!cs[i].is_fact);
        lemma_lowered(cs, i);
        assert(leads_into(names, e.now, c, full, full, full));
        assert forall|x: Bindings| #[trigger]
            body_true(names, e.now, c, m, full, x) && head_fact(names, c, x) is Some implies m.contains(
            head_fact(names, c, x)->Some_0,
        ) by {
            let k = head_fact(names, c, x)->Some_0;
            crate::scope::lemma_body_grows(names, e.now, c, m, full, full, x);
            assert(full.contains(k));
            if is_plain_at(e, goal, l, s, k.0) {
                assert(k.0 == c.head.pred);
                if aggregates(cs[i]) {
                    let y = choose|y: int| 0 <= y < cs.len() && (#[trigger] cs[y]).head.pred == k.0;
                    assert(!is_temp(cs[y].head.pred));
                }
                let dc = demand_clause(e, cs[i]);
                lemma_folds_as(e, cs[i]);
                assert(takes_part(e, goal, cs[i]));
                assert(dcs.contains(dc));
                let j = choose|j: int| 0 <= j < dcs.len() && dcs[j] == dc;
                lemma_lowered(dcs, j);
                assert(body_true(names, e.now, dc, d, d, x)) by {
                    assert forall|y: int| 0 <= y < dc.body.len() implies lit_true(names, e.now, #[trigger] dc.body[y], d, d, x) by {
                        assert(dc.body[y] == demand_lit(e, c.body[y]));
                        assert(lit_true(names, e.now, c.body[y], m, full, x));
                        lemma_reads_folded_alike(e, goal, l, g, dg, r, dr, s, i, y);
                        lemma_lit_forth(e, goal, l, s, c.body[y], full, d, m, x);
                    }
                }
                assert(leads_into(names, e.now, lowered_program(dcs)[j], d, d, d));
                assert(head_fact(names, dc, x) == Some(seen_as(e, k)));
            }
            assert(keep(k));
        }
    }
    assert(program_closed(names, e.now, low, m, full));
    assert forall|k: KeyV| g.union(folds_of(cs, full)).contains(k) implies m.contains(k) by {
        assert(full.contains(k));
        if is_plain_at(e, goal, l, s, k.0) {
            assert(g.contains(k));
            assert(states(names, cs, 0, k));
            lemma_stated_alike(e, goal, k.0, k.1);
            assert(dg.contains(seen_as(e, k)));
            assert(dg.union(folds_of(dcs, d)).contains(seen_as(e, k)));
        }
        assert(keep(k));
    }
    assert(full.subset_of(m));
    assert(keep((p, args)));
}

/// What is sought at a level and not aggregated is alike.
pub open spec fn plain_alike(e: EngineV, goal: Seq<char>, l: Map<Seq<char>, nat>, full: Set<KeyV>, d: Set<KeyV>, s: int) -> bool {
    forall|q: Seq<char>| is_plain_at(e, goal, l, s, q) ==> #[trigger] shows_alike(e, full, d, q)
}

/// The solutions of an aggregating rule are alike.
proof fn lemma_solutions_shown(
    e: EngineV,
    goal: Seq<char>,
    l: Map<Seq<char>, nat>,
    g: Set<KeyV>,
    dg: Set<KeyV>,
    r: RelsV,
    dr: RelsV,
    s: int,
    i: int,
    j: int,
    args: Seq<Value>,
)
    requires
        is_sliced_folded(e, goal, l, g, dg, r, dr),
        alike_below(e, goal, l, facts(r), facts(dr), s),
        plain_alike(e, goal, l, facts(r), facts(dr), s),
        is_fold(e.clauses, i),
        is_sought(e, goal, e.clauses[i].head.pred),
        l[e.clauses[i].head.pred] == s,
        0 <= j < demand_program(e, goal).len(),
        demand_program(e, goal)[j] == demand_clause(e, e.clauses[i]),
    ensures
        holds(r, (temp_name(e.clauses[i], i), args)) <==> holds(dr, (temp_name(demand_program(e, goal)[j], j), args)),
{
    let cs = e.clauses;
    let dcs = demand_program(e, goal);
    let low = lowered_program(cs);
    let dlow = lowered_program(dcs);
    let names = e.st.names;
    let full = facts(r);
    let d = facts(dr);
    let c = cs[i];
    let dc = dcs[j];
    let k: KeyV = (temp_name(c, i), args);
    let dk: KeyV = (temp_name(dc, j), args);
    lemma_folds_as(e, c);
    lemma_lowered(cs, i);
    lemma_lowered(dcs, j);
    assert(is_fold(dcs, j));
    lemma_kinds(dk.0);
    assert forall|y: int| 0 <= y < c.body.len() implies (match #[trigger] c.body[y] {
        LitV::Pos(a) => shows_alike(e, full, d, a.pred),
        LitV::Neg(a) => shows_alike(e, full, d, a.pred),
        _ => true,
    }) by {
        lemma_reads_folded_alike(e, goal, l, g, dg, r, dr, s, i, y);
        if let LitV::Pos(a) = c.body[y] {
            if is_plain_at(e, goal, l, s, a.pred) {
                assert(shows_alike(e, full, d, a.pred));
            }
        }
    }
    facts_supported(names, e.now, low, g.union(folds_of(cs, full)), full, k);
    facts_supported(names, e.now, dlow, dg.union(folds_of(dcs, d)), d, dk);
    // No level is left, so that every literal is alike.
    let none = -1int;
    if full.contains(k) {
        if folds_of(cs, full).contains(k) {
            let y = choose|y: int| 0 <= y < cs.len() && !(#[trigger] cs[y]).is_fact && aggregates(cs[y]) && cs[y].head.pred == k.0;
            lemma_apart(cs, i, y);
        }
        let (a, x) = choose|a: int, x: Bindings| 0 <= a < low.len() && #[trigger] follows_by(names, e.now, low[a], full, k, x);
        assert(!cs[a].is_fact);
        lemma_lowered(cs, a);
        lemma_apart(cs, i, a);
        assert(a == i);
        assert(body_true(names, e.now, dlow[j], d, d, x)) by {
            assert forall|y: int| 0 <= y < dlow[j].body.len() implies lit_true(names, e.now, #[trigger] dlow[j].body[y], d, d, x) by {
                assert(dlow[j].body[y] == demand_lit(e, c.body[y]));
                assert(lit_true(names, e.now, low[i].body[y], full, full, x));
                lemma_lit_forth(e, goal, l, none, c.body[y], full, d, full, x);
            }
        }
        assert(leads_into(names, e.now, dlow[j], d, d, d));
        assert(head_fact(names, dlow[j], x) == Some(dk));
        assert(d.contains(dk));
    }
    if d.contains(dk) {
        if folds_of(dcs, d).contains(dk) {
            let y = choose|y: int| 0 <= y < dcs.len() && !(#[trigger] dcs[y]).is_fact && aggregates(dcs[y]) && dcs[y].head.pred == dk.0;
            lemma_apart(dcs, j, y);
        }
        if dg.contains(dk) {
            if states(names, dcs, 0, dk) {
                let y = choose|y: int|
                    0 <= y < dcs.len() && (#[trigger] dcs[y]).is_fact && head_values(names, dcs[y].head.args, Map::empty()).1 == Some(
                        dk.1,
                    ) && dcs[y].head.pred == dk.0;
                let z = lemma_slice_clause(e, goal, y);
                lemma_demand_name(cs[z].head.pred, cs[z].head.pred);
            }
        }
        let (a, x) = choose|a: int, x: Bindings| 0 <= a < dlow.len() && #[trigger] follows_by(names, e.now, dlow[a], d, dk, x);
        assert(!dcs[a].is_fact);
        lemma_lowered(dcs, a);
        lemma_apart(dcs, j, a);
        assert(a == j);
        assert(body_true(names, e.now, low[i], full, full, x)) by {
            assert forall|y: int| 0 <= y < low[i].body.len() implies lit_true(names, e.now, #[trigger] low[i].body[y], full, full, x) by {
                assert(dlow[j].body[y] == demand_lit(e, c.body[y]));
                assert(lit_true(names, e.now, dlow[j].body[y], d, d, x));
                lemma_lit_back(e, goal, l, none, c.body[y], full, d, d, x);
            }
        }
        assert(leads_into(names, e.now, low[i], full, full, full));
        assert(head_fact(names, low[i], x) == Some(k));
        assert(full.contains(k));
    }
    assert(full.contains(k) <==> holds(r, k));
    assert(d.contains(dk) <==> holds(dr, dk));
}

/// What solutions fold to depends on the arguments of the head alone.
proof fn lemma_same_tally(c: ClauseV, dc: ClauseV, keys: Seq<Seq<Value>>, key: Seq<Value>)
    requires
        c.head.args == dc.head.args,
        is_tally(dc, keys, key),
    ensures
        is_tally(c, keys, key),
{
    let x = choose|x: Seq<Value>| #[trigger] groups_of(dc, keys).contains(x) && key == tally(dc, keys, x);
    assert(groups_of(c, keys).contains(x));
    assert(key == tally(c, keys, x));
}

/// An aggregated predicate that is sought is alike.
proof fn lemma_fold_shown(
    e: EngineV,
    goal: Seq<char>,
    l: Map<Seq<char>, nat>,
    g: Set<KeyV>,
    dg: Set<KeyV>,
    r: RelsV,
    dr: RelsV,
    s: int,
    p: Seq<char>,
)
    requires
        is_sliced_folded(e, goal, l, g, dg, r, dr),
        alike_below(e, goal, l, facts(r), facts(dr), s),
        plain_alike(e, goal, l, facts(r), facts(dr), s),
        is_sought(e, goal, p),
        l[p] == s,
        aggregated(e.clauses, p),
    ensures
        shows_alike(e, facts(r), facts(dr), p),
{
    let cs = e.clauses;
    let dcs = demand_program(e, goal);
    let i = choose|i: int| 0 <= i < cs.len() && !(#[trigger] cs[i]).is_fact && aggregates(cs[i]) && cs[i].head.pred == p;
    let c = cs[i];
    let dc = demand_clause(e, c);
    lemma_demand_upto(e, goal, cs.len() as int);
    assert(takes_part(e, goal, c));
    assert(dcs.contains(dc));
    let j = choose|j: int| 0 <= j < dcs.len() && dcs[j] == dc;
    lemma_folds_as(e, c);
    assert(is_fold(cs, i) && is_fold(dcs, j));
    let a = solutions(r, c, i);
    let b = solutions(dr, dc, j);
    lemma_solutions(r, c, i);
    lemma_solutions(dr, dc, j);
    assert forall|y: Seq<Value>| #[trigger] a.contains(y) <==> b.contains(y) by {
        lemma_solutions_shown(e, goal, l, g, dg, r, dr, s, i, j, y);
        assert(b.contains(y) <==> holds(dr, (temp_name(dc, j), y)));
    }
    assert(same_listed(a, b));
    tallies_alike(c, a, b);
    assert(is_tallied(r, c, i) && is_tallied(dr, dc, j));
    assert forall|args: Seq<Value>| facts(r).contains((p, args)) <==> facts(dr).contains(seen_as(e, (p, args))) by {
        assert(holds(r, (c.head.pred, args)) <==> is_tally(c, a, args));
        assert(holds(dr, (dc.head.pred, args)) <==> is_tally(dc, b, args));
        if is_tally(dc, b, args) {
            lemma_same_tally(c, dc, b, args);
        }
        if is_tally(c, b, args) {
            lemma_same_tally(dc, c, b, args);
        }
        assert(dc.head.pred == demand_name(e, p));
    }
}

/// What is sought is alike.
proof fn lemma_sought_folded(
    e: EngineV,
    goal: Seq<char>,
    l: Map<Seq<char>, nat>,
    g: Set<KeyV>,
    dg: Set<KeyV>,
    r: RelsV,
    dr: RelsV,
    s: nat,
)
    requires
        is_sliced_folded(e, goal, l, g, dg, r, dr),
    ensures
        alike_below(e, goal, l, facts(r), facts(dr), s as int),
    decreases s,
{
    if s > 0 {
        let full = facts(r);
        let d = facts(dr);
        let t = s - 1;
        lemma_sought_folded(e, goal, l, g, dg, r, dr, (s - 1) as nat);
        assert forall|q: Seq<char>| is_plain_at(e, goal, l, t, q) implies #[trigger] shows_alike(e, full, d, q) by {
            assert forall|args: Seq<Value>| full.contains((q, args)) <==> d.contains(seen_as(e, (q, args))) by {
                if d.contains(seen_as(e, (q, args))) {
                    lemma_plain_sound(e, goal, l, g, dg, r, dr, t, q, args);
                }
                if full.contains((q, args)) {
                    lemma_plain_complete(e, goal, l, g, dg, r, dr, t, q, args);
                }
            }
        }
        assert forall|q: Seq<char>| is_sought(e, goal, q) && l[q] < s implies #[trigger] shows_alike(e, full, d, q) by {
            if l[q] == t {
                if aggregated(e.clauses, q) {
                    lemma_fold_shown(e, goal, l, g, dg, r, dr, t, q);
                } else {
                    assert(is_plain_at(e, goal, l, t, q));
                }
            }
        }
    }
}

// ----------------------------------------------------------------------- laws

/// A head argument that is not an aggregate is among the group terms.
proof fn lemma_group_term(args: Seq<TermV>, y: int) -> (z: int)
    requires
        0 <= y < args.len(),
        !(args[y] is Agg),
    ensures
        0 <= z < group_terms(args).len(),
        group_terms(args)[z] == args[y],
    decreases args.len(),
{
    if y == args.len() - 1 {
        group_terms(args).len() - 1
    } else {
        let z = lemma_group_term(args.drop_last(), y);
        assert(group_terms(args)[z] == group_terms(args.drop_last())[z]);
        z
    }
}

/// Heads that are known as they are evaluated are known as they stand.
proof fn lemma_heads_known(names: Seq<Seq<char>>, cs: Seq<ClauseV>)
    requires
        heads_known(names, lowered_program(cs)),
    ensures
        heads_known(names, cs),
{
    let low = lowered_program(cs);
    assert forall|i: int| 0 <= i < cs.len() implies head_known(names, (#[trigger] cs[i]).head.args) by {
        assert(head_known(names, low[i].head.args));
        assert forall|y: int| 0 <= y < cs[i].head.args.len() implies (match #[trigger] cs[i].head.args[y] {
            TermV::Sym(n) => names.contains(n),
            _ => true,
        }) by {
            if cs[i].head.args[y] is Sym {
                if aggregates(cs[i]) && !cs[i].is_fact {
                    let z = lemma_group_term(cs[i].head.args, y);
                    assert(low[i].head.args[z] == cs[i].head.args[y]);
                } else {
                    assert(low[i].head.args[y] == cs[i].head.args[y]);
                }
            }
        }
    }
}

/// A run of a program whose heads are known adds no names.
proof fn lemma_folded_names(e: EngineV)
    requires
        e.clauses.len() <= usize::MAX,
        strata_error(e.clauses) is None,
        heads_known(e.st.names, lowered_program(e.clauses)),
    ensures
        ran(e).0.st.names == e.st.names,
{
    let cs = e.clauses;
    let names = e.st.names;
    let p = named_as(names);
    let hs = known_heads(names);
    let strata = strata_of(cs);
    strata_exist(cs);
    lemma_strata_fit(cs, strata);
    lemma_heads_known(names, cs);
    let l = choose|l: Map<Seq<char>, nat>| #[trigger] is_levels(cs, l) && grouped(cs, l, strata);
    assert(leveled(cs, l, strata));
    assert forall|s: int| 0 <= s < strata.len() implies heads_have(stratum_rules(cs, #[trigger] strata[s]), hs) by {
        let rules = stratum_rules(cs, strata[s]);
        lemma_rule_list(cs, l, strata, s);
        assert forall|j: int| 0 <= j < rules.len() implies hs((#[trigger] rules[j]).head.args) by {
            let i = strata[s][j];
            assert(0 <= i < cs.len() && !cs[i].is_fact);
            assert(rules[j] == lowered_program(cs)[i]);
            assert(head_known(names, lowered_program(cs)[i].head.args));
        }
    }
    assert forall|st: StoreV, args: Seq<TermV>, map: Bindings| p(st) && hs(args) implies #[trigger] p(
        with_names(st, head_values(st.names, args, map).0),
    ) by {
        lemma_head_fixed(names, args, 0, map, Seq::empty());
    }
    lemma_run_keeps_for(p, hs, e);
}

/// Renaming predicates changes nothing about the variables and constants of a
/// rule as it is evaluated.
proof fn lemma_renamed_foldable(e: EngineV, names: Seq<Seq<char>>, c: ClauseV, i: int, j: int)
    requires
        is_foldable(names, c, i),
    ensures
        is_foldable(names, demand_clause(e, c), j),
{
    let a = evaluated(c, i);
    let d = evaluated(demand_clause(e, c), j);
    let dc = demand_clause(e, c);
    lemma_folds_as(e, c);
    assert(a.body == c.body && d.body == dc.body && d.head.args == a.head.args);
    assert forall|x: int, v: Seq<char>| given(a, x, v) implies #[trigger] given(d, x, v) by {
        let y = choose|y: int| 0 <= y < x && y < a.body.len() && gives(#[trigger] a.body[y], v);
        assert(gives(d.body[y], v));
    }
    assert forall|x: int| 0 <= x < d.body.len() implies #[trigger] is_ready(d, x) by {
        assert(is_ready(a, x));
        assert(d.body[x] == demand_lit(e, a.body[x]));
    }
    assert forall|x: int| 0 <= x < dc.body.len() implies lit_constants_known(names, #[trigger] dc.body[x]) by {
        assert(lit_constants_known(names, c.body[x]));
        assert(dc.body[x] == demand_lit(e, c.body[x]));
    }
    assert forall|v: Seq<char>| #[trigger] occurs(d.head.args, v) implies given(d, d.body.len() as int, v) by {
        assert(occurs(a.head.args, v));
        assert(given(a, a.body.len() as int, v));
    }
}

/// The clause that a clause of the demand program stands for.
spec fn origin(e: EngineV, goal: Seq<char>, n: int, j: int) -> int
    decreases n,
{
    if n <= 0 {
        0
    } else if takes_part(e, goal, e.clauses[n - 1]) && j == demand_upto(e, goal, n).len() - 1 {
        n - 1
    } else {
        origin(e, goal, n - 1, j)
    }
}

proof fn lemma_origin(e: EngineV, goal: Seq<char>, n: int, j: int)
    requires
        0 <= n <= e.clauses.len(),
        0 <= j < demand_upto(e, goal, n).len(),
    ensures
        0 <= origin(e, goal, n, j) < n,
        takes_part(e, goal, e.clauses[origin(e, goal, n, j)]),
        demand_upto(e, goal, n)[j] == demand_clause(e, e.clauses[origin(e, goal, n, j)]),
        forall|i: int| 0 <= i < j ==> #[trigger] origin(e, goal, n, i) < origin(e, goal, n, j),
    decreases n,
{
    let before = demand_upto(e, goal, n - 1);
    if takes_part(e, goal, e.clauses[n - 1]) && j == before.len() {
        assert forall|i: int| 0 <= i < j implies #[trigger] origin(e, goal, n, i) < n - 1 by {
            lemma_origin(e, goal, n - 1, i);
        }
    } else {
        lemma_origin(e, goal, n - 1, j);
        assert(demand_upto(e, goal, n)[j] == before[j]);
        assert forall|i: int| 0 <= i < j implies #[trigger] origin(e, goal, n, i) < origin(e, goal, n, j) by {
            assert(origin(e, goal, n, i) == origin(e, goal, n - 1, i));
        }
    }
}

/// How a demand program is layered: by the levels of what it stands for, each
/// aggregated predicate above the others of its level.
spec fn demand_rank(cs: Seq<ClauseV>, l: Map<Seq<char>, nat>) -> spec_fn(Seq<char>) -> nat {
    |p: Seq<char>|
        {
            let q = p.skip("demand:"@.len() as int);
            if is_demand(p) && l.contains_key(q) {
                if aggregated(cs, q) {
                    (2 * l[q] + 2) as nat
                } else {
                    (2 * l[q] + 1) as nat
                }
            } else {
                0nat
            }
        }
}

/// What a clause of the demand program reads is ranked below it.
proof fn lemma_reads_ranked(e: EngineV, l: Map<Seq<char>, nat>, i: int, y: int)
    requires
        folds_apart(e.clauses),
        is_levels(e.clauses, l),
        no_demand_names(e),
        0 <= i < e.clauses.len(),
        !e.clauses[i].is_fact,
        on_demand(e, e.clauses[i].head.pred),
        0 <= y < e.clauses[i].body.len(),
    ensures
        ({
            let rank = demand_rank(e.clauses, l);
            let c = demand_clause(e, e.clauses[i]);
            match lit_dep(c.body[y]) {
                Some(d) => rank(d.0) <= rank(c.head.pred) && (d.1 || aggregates(c) ==> rank(d.0) < rank(c.head.pred)),
                None => true,
            }
        }),
{
    let cs = e.clauses;
    let c = cs[i];
    let p = c.head.pred;
    lemma_folds_as(e, c);
    lemma_demand_rank(p);
    assert(defined(cs, p));
    assert(l.contains_key(p));
    lemma_reads_below(cs, l, i, y);
    if aggregates(c) {
        assert(aggregated(cs, p));
    }
    if let Some(dep) = lit_dep(c.body[y]) {
        assert(!is_demand(dep.0)) by {
            assert(match cs[i].body[y] {
                LitV::Pos(a) => !is_demand(a.pred),
                LitV::Neg(a) => !is_demand(a.pred),
                _ => true,
            });
        }
        lemma_demand_rank(dep.0);
        if aggregated(cs, dep.0) {
            lemma_reads_folded(cs, l, i, y);
        }
    }
}

/// A demand program keeps its aggregates apart as the program does.
proof fn lemma_demand_apart(e: EngineV, goal: Seq<char>, l: Map<Seq<char>, nat>)
    requires
        folds_apart(e.clauses),
        is_levels(e.clauses, l),
        no_demand_names(e),
    ensures
        folds_apart(demand_program(e, goal)),
{
    let cs = e.clauses;
    let dcs = demand_program(e, goal);
    let rank = demand_rank(cs, l);
    assert forall|j: int| 0 <= j < dcs.len() implies !is_temp((#[trigger] dcs[j]).head.pred) && reads_no_temp(dcs[j]) by {
        let i = lemma_slice_clause(e, goal, j);
        lemma_demand_name(cs[i].head.pred, cs[i].head.pred);
        lemma_kinds(dcs[j].head.pred);
        lemma_folds_as(e, cs[i]);
        assert forall|p: Seq<char>| #[trigger] body_reads(dcs[j], p) implies !is_temp(p) by {
            let y = choose|y: int| 0 <= y < dcs[j].body.len() && lit_reads(#[trigger] dcs[j].body[y], p);
            let q = lit_dep(cs[i].body[y])->Some_0.0;
            assert(lit_reads(cs[i].body[y], q));
            assert(body_reads(cs[i], q));
            assert(p == demand_name(e, q));
            lemma_demand_name(q, q);
            lemma_kinds(p);
        }
    }
    assert forall|a: int, b: int| a != b && #[trigger] is_fold(dcs, a) && #[trigger] is_fold(dcs, b) implies dcs[a].head.pred
        != dcs[b].head.pred by {
        if dcs[a].head.pred == dcs[b].head.pred {
            let n = cs.len() as int;
            lemma_origin(e, goal, n, a);
            lemma_origin(e, goal, n, b);
            let x = origin(e, goal, n, a);
            let y = origin(e, goal, n, b);
            lemma_folds_as(e, cs[x]);
            lemma_folds_as(e, cs[y]);
            lemma_demand_name(cs[x].head.pred, cs[y].head.pred);
            assert(is_fold(cs, x) && is_fold(cs, y));
            if a < b {
                assert(x < y);
            } else {
                assert(y < x);
            }
        }
    }
    assert forall|j: int| 0 <= j < dcs.len() && !(#[trigger] dcs[j]).is_fact implies reads_within(dcs[j], rank) && (aggregates(dcs[j])
        ==> reads_lower(dcs[j], rank)) by {
        let i = lemma_slice_clause(e, goal, j);
        lemma_folds_as(e, cs[i]);
        assert forall|y: int| 0 <= y < dcs[j].body.len() implies (match lit_dep(#[trigger] dcs[j].body[y]) {
            Some(d) => rank(d.0) <= rank(dcs[j].head.pred) && (d.1 || aggregates(dcs[j]) ==> rank(d.0) < rank(dcs[j].head.pred)),
            None => true,
        }) by {
            lemma_reads_ranked(e, l, i, y);
        }
    }
    assert forall|j: int| 0 <= j < dcs.len() && !(#[trigger] dcs[j]).is_fact && !aggregates(dcs[j]) implies !aggregated(
        dcs,
        dcs[j].head.pred,
    ) by {
        if aggregated(dcs, dcs[j].head.pred) {
            let a = choose|a: int|
                0 <= a < dcs.len() && !(#[trigger] dcs[a]).is_fact && aggregates(dcs[a]) && dcs[a].head.pred == dcs[j].head.pred;
            let x = lemma_slice_clause(e, goal, a);
            let y = lemma_slice_clause(e, goal, j);
            lemma_folds_as(e, cs[x]);
            lemma_folds_as(e, cs[y]);
            lemma_demand_name(cs[x].head.pred, cs[y].head.pred);
            assert(is_fold(cs, x));
            lemma_only_rule(cs, x, y);
        }
    }
    layered_folds_are_accepted(dcs, rank);
}

/// The demand program, evaluated, gives its model with its folds.
proof fn lemma_demand_folds(e: EngineV, goal: Seq<char>)
    requires
        is_sound(e.st),
        e.st.names.len() < usize::MAX,
        e.clauses.len() <= usize::MAX,
        folds_apart(e.clauses),
        folds_apart(demand_program(e, goal)),
        all_foldable(e.st.names, e.clauses),
        heads_known(e.st.names, lowered_program(e.clauses)),
        no_demand_names(e),
        stated_underived(e.clauses),
        forall|k: KeyV| #[trigger] holds(e.st.rels, k) ==> !is_temp(k.0),
        run_settles(demand_engine(e, goal)),
    ensures
        starts_from(e, demand_program(e, goal), facts(prepared(demand_engine(e, goal)).st.rels)),
        is_model(
            e.st.names,
            e.now,
            lowered_program(demand_program(e, goal)),
            facts(prepared(demand_engine(e, goal)).st.rels).union(
                folds_of(demand_program(e, goal), facts(ran_demand(e, goal).st.rels)),
            ),
            facts(ran_demand(e, goal).st.rels),
        ),
        all_tallied(ran_demand(e, goal).st.rels, demand_program(e, goal)),
        rels_wf(ran_demand(e, goal).st.rels),
{
    let cs = e.clauses;
    let de = demand_engine(e, goal);
    let dcs = de.clauses;
    let names = e.st.names;
    lemma_demand_upto(e, goal, cs.len() as int);
    assert forall|j: int| 0 <= j < dcs.len() && !(#[trigger] dcs[j]).is_fact implies is_foldable(names, dcs[j], j) by {
        let i = lemma_slice_clause(e, goal, j);
        assert(is_foldable(names, cs[i], i));
        lemma_renamed_foldable(e, names, cs[i], i, j);
    }
    assert forall|j: int| 0 <= j < dcs.len() implies head_known(names, (#[trigger] lowered_program(dcs)[j]).head.args) by {
        let i = lemma_slice_clause(e, goal, j);
        lemma_folds_as(e, cs[i]);
        assert(head_known(names, lowered_program(cs)[i].head.args));
        assert(lowered_program(dcs)[j].head.args == lowered_program(cs)[i].head.args);
    }
    lemma_heads_known(names, dcs);
    assert forall|k: KeyV| #[trigger] holds(de.st.rels, k) implies !de.ever.contains(k.0) && !has_clause(dcs, k.0) by {
        assert(holds(e.st.rels, k));
        if has_clause(dcs, k.0) {
            let j = choose|j: int| 0 <= j < dcs.len() && (#[trigger] dcs[j]).head.pred == k.0;
            let i = lemma_slice_clause(e, goal, j);
            lemma_demand_name(cs[i].head.pred, cs[i].head.pred);
        }
    }
    assert(is_sound(de.st));
    lemma_prepared_facts(de);
    lemma_folded_names(de);
    assert forall|k: KeyV| #[trigger] holds(prepared(de).st.rels, k) implies !defined(dcs, k.0) && !is_temp(k.0) by {
        if holds(de.st.rels, k) {
            assert(holds(e.st.rels, k));
            if defined(dcs, k.0) {
                let j = choose|j: int| 0 <= j < dcs.len() && !(#[trigger] dcs[j]).is_fact && dcs[j].head.pred == k.0;
                assert(has_clause(dcs, k.0));
            }
        } else {
            assert(states(names, dcs, 0, k));
            let j = choose|j: int|
                0 <= j < dcs.len() && (#[trigger] dcs[j]).is_fact && head_values(names, dcs[j].head.args, Map::empty()).1 == Some(
                    k.1,
                ) && dcs[j].head.pred == k.0;
            let i = lemma_slice_clause(e, goal, j);
            let q = cs[i].head.pred;
            lemma_demand_name(q, q);
            lemma_kinds(k.0);
            assert(cs[i].is_fact);
            if defined(dcs, k.0) {
                let y = choose|y: int| 0 <= y < dcs.len() && !(#[trigger] dcs[y]).is_fact && dcs[y].head.pred == k.0;
                let z = lemma_slice_clause(e, goal, y);
                lemma_demand_name(cs[z].head.pred, q);
                assert(!cs[z].is_fact && cs[z].head.pred == q);
                assert(defined(cs, q));
            }
        }
    }
    lemma_slice_stated(e, goal);
    stratified_run_gives_folds(de);
    assert(ran_demand(e, goal) == ran(de).0);
    run_consumes(de);
    let dg = facts(prepared(de).st.rels);
    assert forall|k: KeyV| #[trigger] dg.contains(k) <==> holds(e.st.rels, k) || states(names, dcs, 0, k) by {
        assert(dg.contains(k) <==> holds(prepared(de).st.rels, k));
        assert(holds(de.st.rels, k) <==> holds(e.st.rels, k));
    }
}

/// Law: a deep query sees what a query after a run would see, negation and
/// aggregates included. The program was not evaluated yet and states no facts
/// of what its rules derive, and each aggregated predicate has one rule; the
/// relation that stands for the goal holds the same tuples as the goal's own
/// relation after a run.
pub proof fn folded_deep_query_agrees(e: EngineV, goal: Seq<char>)
    requires
        is_sound(e.st),
        e.ever.finite(),
        e.st.names.len() < usize::MAX,
        e.clauses.len() <= usize::MAX,
        is_unevaluated(e),
        no_demand_names(e),
        folds_apart(e.clauses),
        all_foldable(e.st.names, e.clauses),
        heads_known(e.st.names, lowered_program(e.clauses)),
        stated_underived(e.clauses),
        forall|k: KeyV| #[trigger] holds(e.st.rels, k) ==> !is_temp(k.0),
        has_clause(e.clauses, goal),
        run_settles(e),
        run_settles(demand_engine(e, goal)),
    ensures
        forall|args: Seq<Value>| #[trigger]
            holds(ran_demand(e, goal).st.rels, ("demand:"@ + goal, args)) <==> holds(ran(e).0.st.rels, (goal, args)),
{
    let cs = e.clauses;
    let names = e.st.names;
    let de = demand_engine(e, goal);
    let low = lowered_program(cs);
    strata_exist(cs);
    let l = choose|l: Map<Seq<char>, nat>| #[trigger] is_levels(cs, l) && grouped(cs, l, strata_of(cs));
    assert forall|k: KeyV| #[trigger] holds(e.st.rels, k) implies !e.ever.contains(k.0) && !has_clause(cs, k.0) by {
        assert(materialized(e.st, k.0));
    }
    lemma_heads_known(names, cs);
    lemma_prepared_facts(e);
    lemma_folded_names(e);
    assert forall|k: KeyV| #[trigger] holds(prepared(e).st.rels, k) implies !defined(cs, k.0) && !is_temp(k.0) by {
        if holds(e.st.rels, k) {
            if defined(cs, k.0) {
                let i = choose|i: int| 0 <= i < cs.len() && !(#[trigger] cs[i]).is_fact && cs[i].head.pred == k.0;
                assert(has_clause(cs, k.0));
            }
        } else {
            let j = choose|j: int|
                0 <= j < cs.len() && (#[trigger] cs[j]).is_fact && head_values(names, cs[j].head.args, Map::empty()).1 == Some(k.1)
                    && cs[j].head.pred == k.0;
            assert(!defined(cs, cs[j].head.pred));
            assert(!is_temp(cs[j].head.pred));
        }
    }
    stratified_run_gives_folds(e);
    run_consumes(e);
    lemma_demand_apart(e, goal, l);
    lemma_demand_folds(e, goal);
    let g = facts(prepared(e).st.rels);
    let dg = facts(prepared(de).st.rels);
    let r = ran(e).0.st.rels;
    let dr = ran_demand(e, goal).st.rels;
    let full = facts(r);
    assert forall|k: KeyV| on_demand(e, k.0) implies (#[trigger] g.contains(k) <==> states(names, cs, 0, k)) by {
        assert(g.contains(k) <==> holds(prepared(e).st.rels, k));
    }
    assert forall|k: KeyV| !is_demand(k.0) && !on_demand(e, k.0) && !is_temp(k.0) implies (#[trigger] full.contains(k) <==> holds(
        e.st.rels,
        k,
    )) by {
        assert(g.contains(k) <==> holds(prepared(e).st.rels, k));
        assert(!has_clause(cs, k.0)) by {
            assert(!(has_clause(cs, k.0) && materialized(e.st, k.0)));
        }
        facts_supported(names, e.now, low, g.union(folds_of(cs, full)), full, k);
        if full.contains(k) && !g.contains(k) {
            if folds_of(cs, full).contains(k) {
                let y = choose|y: int| 0 <= y < cs.len() && !(#[trigger] cs[y]).is_fact && aggregates(cs[y]) && cs[y].head.pred == k.0;
                assert(has_clause(cs, k.0));
            } else {
                let (i, x) = choose|i: int, x: Bindings| 0 <= i < low.len() && #[trigger] follows_by(names, e.now, low[i], full, k, x);
                assert(!cs[i].is_fact);
                lemma_lowered(cs, i);
                assert(cs[i].head.pred == k.0);
                assert(has_clause(cs, k.0));
            }
        }
        if g.contains(k) && !holds(e.st.rels, k) {
            assert(states(names, cs, 0, k));
            let j = choose|j: int|
                0 <= j < cs.len() && (#[trigger] cs[j]).is_fact && head_values(names, cs[j].head.args, Map::empty()).1 == Some(k.1)
                    && cs[j].head.pred == k.0;
            assert(has_clause(cs, k.0));
        }
    }
    assert forall|k: KeyV| #[trigger] g.contains(k) implies !is_temp(k.0) by {
        assert(holds(prepared(e).st.rels, k));
    }
    assert(is_sliced_folded(e, goal, l, g, dg, r, dr));
    assert(!materialized(e.st, goal));
    assert(on_demand(e, goal));
    if defined(cs, goal) {
        lemma_linked_self(edges_of(cs), goal);
        assert(is_sought(e, goal, goal));
        lemma_sought_folded(e, goal, l, g, dg, r, dr, l[goal] + 1);
        assert(shows_alike(e, full, facts(dr), goal));
    } else {
        let i = choose|i: int| 0 <= i < cs.len() && (#[trigger] cs[i]).head.pred == goal;
        assert(!is_temp(cs[i].head.pred));
        lemma_underived_folded(e, goal, l, g, dg, r, dr, goal);
    }
    assert forall|args: Seq<Value>| #[trigger] holds(dr, ("demand:"@ + goal, args)) <==> holds(r, (goal, args)) by {
        assert(full.contains((goal, args)) <==> holds(r, (goal, args)));
        assert(facts(dr).contains(seen_as(e, (goal, args))) <==> holds(dr, ("demand:"@ + goal, args)));
    }
}

} // verus!

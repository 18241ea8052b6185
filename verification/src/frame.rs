//! What a run leaves alone: facts that no rule defines, and what was logged.

use vstd::prelude::*;
use crate::ast::{AtomV, ClauseV, LitV};
use crate::builtins::after_builtin;
use crate::engine::{declare_facts, declared, engine_wf, eval_strata, invalidate, lemma_strata_fit, prepared, ran, stale_readers, EngineV};
use crate::env::EnvV;
use crate::evaluate::{
    agg_fns, delta_args, eval_stratum_of, evaluated, fire, fire_from, fire_keys, fire_rule, fixpoint, fixpoint_extends, fold_clause,
    fold_group, fold_groups, fold_stratum, fold_values, group_len, group_rows, groups, indices_of, matching, pending_delta,
    prefix_pattern, retract_others, round, round_from, rounds, row_keys, settles, start_env, stratum_rules, temp_name,
};
use crate::query::{derived_pred, has_clause, starts_with};
use crate::recompute::{
    clear_each, filled_by, in_heads, rebuilt, rels_seed_set, scope_here, scope_pass, scope_passes, scope_seeds, scope_start, scope_step,
    scoped, stated_in, strata_fit, ScopeV,
};
use crate::relation::{ann_unit, lemma_empty_wf, lemma_remove_wf, FactV, KeyV, SupportV};
use crate::solve::{emit, env_with_row, head_values, lemma_head_names, lemma_prefix_trans, lemma_store_assert, solve, solve_rows};
use crate::sorted_set::enumerate;
use crate::store::{holds, rels_seed_all, rels_wf, store_assert, store_clear, store_retract, RelsV, StoreV};
use crate::stratify::{aggregates, strata_error, strata_exist, strata_of};
use crate::value::Value;

verus! {

/// A predicate has the same facts in both.
pub open spec fn same_facts(a: RelsV, b: RelsV, p: Seq<char>) -> bool {
    &&& a.contains_key(p) <==> b.contains_key(p)
    &&& a.contains_key(p) ==> a[p].rows == b[p].rows && a[p].idx == b[p].idx
}

/// Every predicate but the given ones has the same facts in both.
pub open spec fn spares(a: RelsV, b: RelsV, t: Set<Seq<char>>) -> bool {
    forall|p: Seq<char>| !t.contains(p) ==> #[trigger] same_facts(a, b, p)
}

pub proof fn lemma_spares_trans(a: RelsV, b: RelsV, c: RelsV, t: Set<Seq<char>>)
    requires
        spares(a, b, t),
        spares(b, c, t),
    ensures
        spares(a, c, t),
{
    assert forall|p: Seq<char>| !t.contains(p) implies #[trigger] same_facts(a, c, p) by {
        assert(same_facts(a, b, p));
        assert(same_facts(b, c, p));
    }
}

/// Logs and names only grow, within an epoch.
pub open spec fn appends(a: StoreV, b: StoreV) -> bool {
    &&& a.names.is_prefix_of(b.names)
    &&& a.log.is_prefix_of(b.log)
    &&& a.feed.is_prefix_of(b.feed)
    &&& a.epoch == b.epoch
    &&& rels_wf(b.rels)
}

/// Logs and names only grow, and every predicate but the given ones keeps its
/// facts.
pub open spec fn touches(a: StoreV, b: StoreV, t: Set<Seq<char>>) -> bool {
    appends(a, b) && spares(a.rels, b.rels, t)
}

pub proof fn lemma_touches_trans(a: StoreV, b: StoreV, c: StoreV, t: Set<Seq<char>>)
    requires
        touches(a, b, t),
        touches(b, c, t),
    ensures
        touches(a, c, t),
{
    lemma_spares_trans(a.rels, b.rels, c.rels, t);
    lemma_prefix_trans(a.names, b.names, c.names);
    lemma_prefix_trans(a.log, b.log, c.log);
    lemma_prefix_trans(a.feed, b.feed, c.feed);
}

// ---------------------------------------------------------------- deriving

proof fn lemma_emit_spares(st: StoreV, c: ClauseV, env: EnvV, t: Set<Seq<char>>)
    requires
        t.contains(c.head.pred),
    ensures
        spares(st.rels, emit(st, c, env).0.rels, t),
{
}

pub proof fn lemma_solve_spares(
    st: StoreV,
    now: i64,
    c: ClauseV,
    i: int,
    skip: int,
    env: EnvV,
    out: Seq<KeyV>,
    t: Set<Seq<char>>,
)
    requires
        t.contains(c.head.pred),
    ensures
        spares(st.rels, solve(st, now, c, i, skip, env, out).st.rels, t),
    decreases c.body.len() - i, 1int, 0int,
{
    if i < 0 || i >= c.body.len() {
        lemma_emit_spares(st, c, env, t);
    } else if i == skip {
        lemma_solve_spares(st, now, c, i + 1, skip, env, out, t);
    } else {
        match c.body[i] {
            LitV::Pos(a) => {
                lemma_solve_rows_spares(st, now, c, i, skip, env, out, a, crate::solve::atom_rows(st, a, env.map), t);
            },
            LitV::Neg(a) => {
                if !crate::solve::atom_matches(st, a, env.map) {
                    lemma_solve_spares(st, now, c, i + 1, skip, env, out, t);
                }
            },
            lit => {
                if let Some(map) = after_builtin(st.names, now, lit, env.map) {
                    lemma_solve_spares(st, now, c, i + 1, skip, EnvV { map, ..env }, out, t);
                }
            },
        }
    }
}

pub proof fn lemma_solve_rows_spares(
    st: StoreV,
    now: i64,
    c: ClauseV,
    i: int,
    skip: int,
    env: EnvV,
    out: Seq<KeyV>,
    a: AtomV,
    ids: Seq<int>,
    t: Set<Seq<char>>,
)
    requires
        t.contains(c.head.pred),
    ensures
        spares(st.rels, solve_rows(st, now, c, i, skip, env, out, a, ids).st.rels, t),
    decreases c.body.len() - i, 0int, ids.len(),
{
    if !(i < 0 || i >= c.body.len() || ids.len() == 0) {
        match env_with_row(st, a, ids[0], env) {
            None => {
                lemma_solve_rows_spares(st, now, c, i, skip, env, out, a, ids.drop_first(), t);
            },
            Some(e) => {
                let r = solve(st, now, c, i + 1, skip, e, out);
                lemma_solve_spares(st, now, c, i + 1, skip, e, out, t);
                lemma_solve_rows_spares(r.st, now, c, i, skip, env, r.out, a, ids.drop_first(), t);
                let rest = solve_rows(r.st, now, c, i, skip, env, r.out, a, ids.drop_first());
                lemma_spares_trans(st.rels, r.st.rels, rest.st.rels, t);
            },
        }
    }
}

pub proof fn lemma_fire_keys_spares(
    st: StoreV,
    now: i64,
    c: ClauseV,
    ai: int,
    a: AtomV,
    keys: Seq<Seq<Value>>,
    out: Seq<KeyV>,
    t: Set<Seq<char>>,
)
    requires
        t.contains(c.head.pred),
    ensures
        spares(st.rels, fire_keys(st, now, c, ai, a, keys, out).st.rels, t),
    decreases keys.len(),
{
    if keys.len() > 0 {
        match start_env(st, a, keys[0]) {
            None => {
                lemma_fire_keys_spares(st, now, c, ai, a, keys.drop_first(), out, t);
            },
            Some(env) => {
                let r = solve(st, now, c, 0, ai, env, out);
                lemma_solve_spares(st, now, c, 0, ai, env, out, t);
                lemma_fire_keys_spares(r.st, now, c, ai, a, keys.drop_first(), r.out, t);
                let f = fire_keys(r.st, now, c, ai, a, keys.drop_first(), r.out);
                lemma_spares_trans(st.rels, r.st.rels, f.st.rels, t);
            },
        }
    }
}

pub proof fn lemma_fire_from_spares(
    st: StoreV,
    now: i64,
    c: ClauseV,
    i: int,
    delta: Set<KeyV>,
    out: Seq<KeyV>,
    t: Set<Seq<char>>,
)
    requires
        t.contains(c.head.pred),
    ensures
        spares(st.rels, fire_from(st, now, c, i, delta, out).st.rels, t),
    decreases c.body.len() - i,
{
    if 0 <= i < c.body.len() {
        if let LitV::Pos(a) = c.body[i] {
            lemma_fire_keys_spares(st, now, c, i, a, delta_args(delta, a.pred), out, t);
        }
        let r = fire(st, now, c, i, delta, out);
        lemma_fire_from_spares(r.st, now, c, i + 1, delta, r.out, t);
        let f = fire_from(r.st, now, c, i + 1, delta, r.out);
        lemma_spares_trans(st.rels, r.st.rels, f.st.rels, t);
    }
}

pub proof fn lemma_fire_rule_spares(st: StoreV, now: i64, c: ClauseV, delta: Set<KeyV>, out: Seq<KeyV>, t: Set<Seq<char>>)
    requires
        t.contains(c.head.pred),
    ensures
        spares(st.rels, fire_rule(st, now, c, delta, out).st.rels, t),
{
    if crate::evaluate::has_atom(c) {
        lemma_fire_from_spares(st, now, c, 0, delta, out, t);
    } else {
        let env = EnvV { map: Map::empty(), ann: ann_unit(), keys: Seq::empty() };
        lemma_solve_spares(st, now, c, 0, c.body.len() as int, env, out, t);
    }
}

/// The predicates of all heads are among the given ones.
pub open spec fn heads_in(cs: Seq<ClauseV>, t: Set<Seq<char>>) -> bool {
    forall|i: int| 0 <= i < cs.len() ==> t.contains((#[trigger] cs[i]).head.pred)
}

pub proof fn lemma_round_from_spares(
    st: StoreV,
    now: i64,
    cs: Seq<ClauseV>,
    i: int,
    delta: Set<KeyV>,
    out: Seq<KeyV>,
    t: Set<Seq<char>>,
)
    requires
        heads_in(cs, t),
    ensures
        spares(st.rels, round_from(st, now, cs, i, delta, out).st.rels, t),
    decreases cs.len() - i,
{
    if 0 <= i < cs.len() {
        assert(t.contains(cs[i].head.pred));
        lemma_fire_rule_spares(st, now, cs[i], delta, out, t);
        let r = fire_rule(st, now, cs[i], delta, out);
        lemma_round_from_spares(r.st, now, cs, i + 1, delta, r.out, t);
        let f = round_from(r.st, now, cs, i + 1, delta, r.out);
        lemma_spares_trans(st.rels, r.st.rels, f.st.rels, t);
    }
}

pub proof fn lemma_rounds_spares(st: StoreV, now: i64, cs: Seq<ClauseV>, delta: Set<KeyV>, n: nat, t: Set<Seq<char>>)
    requires
        heads_in(cs, t),
    ensures
        spares(st.rels, rounds(st, now, cs, delta, n).st.rels, t),
    decreases n,
{
    if n > 0 {
        let r = round(st, now, cs, delta);
        lemma_round_from_spares(st, now, cs, 0, delta, Seq::empty(), t);
        if r.out.len() > 0 {
            lemma_rounds_spares(r.st, now, cs, r.out.to_set(), (n - 1) as nat, t);
            lemma_spares_trans(
                st.rels,
                r.st.rels,
                rounds(r.st, now, cs, r.out.to_set(), (n - 1) as nat).st.rels,
                t,
            );
        }
    }
}

pub proof fn lemma_fixpoint_touches(st: StoreV, now: i64, cs: Seq<ClauseV>, delta: Set<KeyV>, t: Set<Seq<char>>)
    requires
        rels_wf(st.rels),
        heads_in(cs, t),
    ensures
        touches(st, fixpoint(st, now, cs, delta).st, t),
{
    fixpoint_extends(st, now, cs, delta);
    lemma_rounds_spares(st, now, cs, delta, choose|n: nat| settles(st, now, cs, delta, n), t);
}

// ----------------------------------------------------------------- folding

proof fn lemma_assert_touches(st: StoreV, k: KeyV, f: FactV, t: Set<Seq<char>>)
    requires
        rels_wf(st.rels),
        t.contains(k.0),
    ensures
        touches(st, store_assert(st, k, f), t),
{
    lemma_store_assert(st, k, f);
}

proof fn lemma_retract_touches(st: StoreV, k: KeyV, t: Set<Seq<char>>)
    requires
        rels_wf(st.rels),
        t.contains(k.0),
    ensures
        touches(st, store_retract(st, k), t),
{
    if st.rels.contains_key(k.0) {
        lemma_remove_wf(st.rels[k.0], k.1);
    }
}

proof fn lemma_retract_others_touches(
    st: StoreV,
    p: Seq<char>,
    olds: Seq<Seq<Value>>,
    keep: Seq<Value>,
    t: Set<Seq<char>>,
)
    requires
        rels_wf(st.rels),
        t.contains(p),
    ensures
        touches(st, retract_others(st, p, olds, keep).st, t),
    decreases olds.len(),
{
    if olds.len() > 0 {
        if olds[0] != keep {
            let s = store_retract(st, (p, olds[0]));
            lemma_retract_touches(st, (p, olds[0]), t);
            lemma_retract_others_touches(s, p, olds.drop_first(), keep, t);
            lemma_touches_trans(st, s, retract_others(s, p, olds.drop_first(), keep).st, t);
        } else {
            lemma_retract_others_touches(st, p, olds.drop_first(), keep, t);
        }
    }
}

proof fn lemma_fold_group_touches(
    st: StoreV,
    c: ClauseV,
    temp: Seq<char>,
    g: Seq<Value>,
    rows: Seq<Seq<Value>>,
    t: Set<Seq<char>>,
)
    requires
        rels_wf(st.rels),
        t.contains(c.head.pred),
    ensures
        touches(st, fold_group(st, c, temp, g, rows).st, t),
{
    let fns = agg_fns(c.head.args);
    let p = c.head.pred;
    let out = g + fold_values(fns, rows);
    let olds = matching(st.rels, p, prefix_pattern(g, fns.len()));
    let r = retract_others(st, p, olds, out);
    lemma_retract_others_touches(st, p, olds, out, t);
    if !holds(r.st.rels, (p, out)) {
        let support = SupportV::Rule { rule: crate::evaluate::fold_label(c), body: seq![(temp, g + rows[0])] };
        let f = FactV { ann: ann_unit(), supports: seq![support] };
        lemma_assert_touches(r.st, (p, out), f, t);
        lemma_touches_trans(st, r.st, store_assert(r.st, (p, out), f), t);
    }
}

pub proof fn lemma_fold_groups_touches(
    st: StoreV,
    c: ClauseV,
    temp: Seq<char>,
    keys: Seq<Seq<Value>>,
    gs: Seq<Seq<Value>>,
    t: Set<Seq<char>>,
)
    requires
        rels_wf(st.rels),
        t.contains(c.head.pred),
    ensures
        touches(st, fold_groups(st, c, temp, keys, gs).st, t),
    decreases gs.len(),
{
    if gs.len() > 0 {
        let rows = group_rows(keys, group_len(c.head.args) as int, gs[0]);
        let r = fold_group(st, c, temp, gs[0], rows);
        lemma_fold_group_touches(st, c, temp, gs[0], rows, t);
        lemma_fold_groups_touches(r.st, c, temp, keys, gs.drop_first(), t);
        lemma_touches_trans(st, r.st, fold_groups(r.st, c, temp, keys, gs.drop_first()).st, t);
    }
}

pub proof fn lemma_fold_stratum_touches(st: StoreV, cs: Seq<ClauseV>, idx: Seq<int>, i: int, t: Set<Seq<char>>)
    requires
        rels_wf(st.rels),
        forall|j: int|
            0 <= j < idx.len() && i <= j && aggregates(cs[#[trigger] idx[j]]) ==> t.contains(cs[idx[j]].head.pred),
    ensures
        touches(st, fold_stratum(st, cs, idx, i), t),
    decreases idx.len() - i,
{
    if 0 <= i < idx.len() {
        let ci = idx[i];
        let c = cs[ci];
        if aggregates(c) {
            let f = fold_clause(st, c, ci);
            let temp = temp_name(c, ci);
            if st.rels.contains_key(temp) {
                let keys = row_keys(st.rels[temp]);
                let gs = enumerate::<Vec<Value>>(groups(keys, group_len(c.head.args) as int));
                lemma_fold_groups_touches(st, c, temp, keys, gs, t);
            }
            lemma_fold_stratum_touches(f.st, cs, idx, i + 1, t);
            lemma_touches_trans(st, f.st, fold_stratum(f.st, cs, idx, i + 1), t);
        } else {
            lemma_fold_stratum_touches(st, cs, idx, i + 1, t);
        }
    }
}

/// The predicates that rules write are among the given ones: heads, and the
/// intermediate relations of aggregates.
pub open spec fn writes_in(cs: Seq<ClauseV>, t: Set<Seq<char>>) -> bool {
    heads_in(cs, t) && forall|ci: int| 0 <= ci < cs.len() && aggregates(cs[ci]) ==> t.contains(#[trigger] temp_name(cs[ci], ci))
}

pub proof fn lemma_stratum_touches(st: StoreV, now: i64, cs: Seq<ClauseV>, idx: Seq<int>, t: Set<Seq<char>>)
    requires
        rels_wf(st.rels),
        writes_in(cs, t),
        indices_of(idx, cs.len() as int),
    ensures
        touches(st, eval_stratum_of(st, now, cs, idx).st, t),
{
    let rules = stratum_rules(cs, idx);
    assert forall|i: int| 0 <= i < rules.len() implies t.contains((#[trigger] rules[i]).head.pred) by {
        let ci = idx[i];
        assert(0 <= idx[i] < cs.len());
        assert(rules[i] == evaluated(cs[ci], ci));
        assert(t.contains(cs[ci].head.pred));
        if aggregates(cs[ci]) {
            assert(t.contains(temp_name(cs[ci], ci)));
        }
    }
    let delta = pending_delta(st.rels);
    lemma_fixpoint_touches(st, now, rules, delta, t);
    let f = fixpoint(st, now, rules, delta);
    lemma_fold_stratum_touches(f.st, cs, idx, 0, t);
    lemma_touches_trans(st, f.st, fold_stratum(f.st, cs, idx, 0), t);
}

pub proof fn lemma_strata_touches(st: StoreV, now: i64, cs: Seq<ClauseV>, strata: Seq<Seq<int>>, s: int, t: Set<Seq<char>>)
    requires
        rels_wf(st.rels),
        writes_in(cs, t),
        strata_fit(strata, cs.len() as int),
    ensures
        touches(st, eval_strata(st, now, cs, strata, s).st, t),
    decreases strata.len() - s,
{
    if 0 <= s < strata.len() {
        assert(indices_of(strata[s], cs.len() as int));
        let e = eval_stratum_of(st, now, cs, strata[s]);
        lemma_stratum_touches(st, now, cs, strata[s], t);
        lemma_strata_touches(e.st, now, cs, strata, s + 1, t);
        lemma_touches_trans(st, e.st, eval_strata(e.st, now, cs, strata, s + 1).st, t);
    }
}

// ------------------------------------------------------------- recomputing

proof fn lemma_clear_touches(st: StoreV, p: Seq<char>, t: Set<Seq<char>>)
    requires
        rels_wf(st.rels),
        t.contains(p),
    ensures
        touches(st, store_clear(st, p), t),
{
    lemma_empty_wf();
}

pub proof fn lemma_clear_each_touches(st: StoreV, ps: Seq<Seq<char>>, t: Set<Seq<char>>)
    requires
        rels_wf(st.rels),
        forall|i: int| 0 <= i < ps.len() ==> t.contains(#[trigger] ps[i]),
    ensures
        touches(st, clear_each(st, ps), t),
    decreases ps.len(),
{
    if ps.len() > 0 {
        let s = store_clear(st, ps[0]);
        lemma_clear_touches(st, ps[0], t);
        let d = ps.drop_first();
        assert forall|i: int| 0 <= i < d.len() implies t.contains(#[trigger] d[i]) by {
            assert(d[i] == ps[i + 1]);
        }
        lemma_clear_each_touches(s, d, t);
        lemma_touches_trans(st, s, clear_each(s, d), t);
    }
}

/// The names of an enumeration are in the set, where the set can be
/// enumerated.
pub proof fn lemma_enumerated(s: Set<Seq<char>>, i: int)
    requires
        s.finite(),
        0 <= i < enumerate::<String>(s).len(),
    ensures
        s.contains(enumerate::<String>(s)[i]),
{
    crate::sorted_set::lemma_enumerable::<String>(s);
    let q = enumerate::<String>(s);
    assert(q.to_set().contains(q[i]));
}

pub proof fn lemma_step_touches(
    sc: ScopeV,
    now: i64,
    cs: Seq<ClauseV>,
    strata: Seq<Seq<int>>,
    stratum: Seq<int>,
    t: Set<Seq<char>>,
)
    requires
        rels_wf(sc.st.rels),
        writes_in(cs, t),
        indices_of(stratum, cs.len() as int),
    ensures
        touches(sc.st, scope_step(sc, now, cs, strata, stratum).st, t),
{
    let here = scope_here(cs, stratum, sc.to_clear);
    if here != Set::<Seq<char>>::empty() {
        let ps = enumerate::<String>(here);
        lemma_here_finite(cs, stratum, sc.to_clear);
        assert forall|i: int| 0 <= i < ps.len() implies t.contains(#[trigger] ps[i]) by {
            lemma_enumerated(here, i);
            let p = ps[i];
            let k = choose|k: int| 0 <= k < stratum.len() && filled_by(cs, #[trigger] stratum[k], p);
            let ci = stratum[k];
            assert(0 <= stratum[k] < cs.len());
            assert(t.contains(cs[ci].head.pred));
            if aggregates(cs[ci]) {
                assert(t.contains(temp_name(cs[ci], ci)));
            }
        }
        let cleared = clear_each(sc.st, ps);
        lemma_clear_each_touches(sc.st, ps, t);
        let seeded = StoreV { rels: rels_seed_set(cleared.rels, scope_seeds(cs, here)), ..cleared };
        assert(touches(cleared, seeded, t));
        lemma_touches_trans(sc.st, cleared, seeded, t);
        let stated = stated_in(cs, here);
        let restated = declare_facts(seeded, stated, 0);
        assert forall|j: int| 0 <= j < stated.len() && (#[trigger] stated[j]).is_fact implies t.contains(stated[j].head.pred) by {
            assert(t.contains(cs[j].head.pred));
        }
        lemma_declare_touches(seeded, stated, 0, t);
        lemma_touches_trans(sc.st, seeded, restated, t);
        lemma_stratum_touches(restated, now, cs, stratum, t);
        lemma_touches_trans(sc.st, restated, eval_stratum_of(restated, now, cs, stratum).st, t);
    }
}

/// Only finitely many predicates are cleared in a stratum.
pub proof fn lemma_here_finite(cs: Seq<ClauseV>, stratum: Seq<int>, to_clear: Set<Seq<char>>)
    ensures
        scope_here(cs, stratum, to_clear).finite(),
{
    let heads = stratum.map_values(|ci: int| cs[ci].head.pred);
    let temps = stratum.map_values(|ci: int| temp_name(cs[ci], ci));
    let all = heads.to_set().union(temps.to_set());
    vstd::seq_lib::seq_to_set_is_finite(heads);
    vstd::seq_lib::seq_to_set_is_finite(temps);
    assert(scope_here(cs, stratum, to_clear).subset_of(all)) by {
        assert forall|p: Seq<char>| #[trigger] scope_here(cs, stratum, to_clear).contains(p) implies all.contains(p) by {
            let k = choose|k: int| 0 <= k < stratum.len() && filled_by(cs, #[trigger] stratum[k], p);
            assert(heads[k] == cs[stratum[k]].head.pred);
            assert(temps[k] == temp_name(cs[stratum[k]], stratum[k]));
        }
    }
    vstd::set_lib::lemma_set_subset_finite(all, scope_here(cs, stratum, to_clear));
}

pub proof fn lemma_pass_touches(sc: ScopeV, now: i64, cs: Seq<ClauseV>, strata: Seq<Seq<int>>, s: int, t: Set<Seq<char>>)
    requires
        rels_wf(sc.st.rels),
        writes_in(cs, t),
        strata_fit(strata, cs.len() as int),
    ensures
        touches(sc.st, scope_pass(sc, now, cs, strata, s).st, t),
    decreases strata.len() - s,
{
    if 0 <= s < strata.len() {
        assert(indices_of(strata[s], cs.len() as int));
        let n = scope_step(sc, now, cs, strata, strata[s]);
        lemma_step_touches(sc, now, cs, strata, strata[s], t);
        lemma_pass_touches(n, now, cs, strata, s + 1, t);
        lemma_touches_trans(sc.st, n.st, scope_pass(n, now, cs, strata, s + 1).st, t);
    }
}

pub proof fn lemma_passes_touches(sc: ScopeV, now: i64, cs: Seq<ClauseV>, strata: Seq<Seq<int>>, n: nat, t: Set<Seq<char>>)
    requires
        rels_wf(sc.st.rels),
        writes_in(cs, t),
        strata_fit(strata, cs.len() as int),
    ensures
        touches(sc.st, scope_passes(sc, now, cs, strata, n).st, t),
    decreases n,
{
    if !(n == 0 || sc.to_clear == Set::<Seq<char>>::empty()) {
        let m = scope_pass(sc, now, cs, strata, 0);
        lemma_pass_touches(sc, now, cs, strata, 0, t);
        lemma_passes_touches(m, now, cs, strata, (n - 1) as nat, t);
        lemma_touches_trans(sc.st, m.st, scope_passes(m, now, cs, strata, (n - 1) as nat).st, t);
    }
}

pub proof fn lemma_invalidate_touches(
    st: StoreV,
    now: i64,
    cs: Seq<ClauseV>,
    strata: Seq<Seq<int>>,
    mark: int,
    n: nat,
    t: Set<Seq<char>>,
)
    requires
        rels_wf(st.rels),
        writes_in(cs, t),
        strata_fit(strata, cs.len() as int),
    ensures
        touches(st, invalidate(st, now, cs, strata, mark, n).st, t),
    decreases n,
{
    let extra = stale_readers(st, cs, mark);
    if !(n == 0 || (st.retracted == Set::<Seq<char>>::empty() && extra == Set::<Seq<char>>::empty())) {
        let sc = ScopeV {
            st: StoreV { retracted: Set::empty(), ..st },
            to_clear: scope_start(cs, strata, st.retracted, extra),
            derived: 0,
            before: Map::empty(),
        };
        assert(touches(st, sc.st, t));
        lemma_passes_touches(sc, now, cs, strata, strata.len() + 2, t);
        let r = scoped(st, now, cs, strata, extra);
        lemma_touches_trans(st, sc.st, r.st, t);
        lemma_invalidate_touches(r.st, now, cs, strata, mark, (n - 1) as nat, t);
        lemma_touches_trans(st, r.st, invalidate(r.st, now, cs, strata, mark, (n - 1) as nat).st, t);
    }
}

// ------------------------------------------------------------------ running

pub proof fn lemma_declare_touches(st: StoreV, cs: Seq<ClauseV>, i: int, t: Set<Seq<char>>)
    requires
        rels_wf(st.rels),
        forall|j: int| 0 <= j < cs.len() && (#[trigger] cs[j]).is_fact ==> t.contains(cs[j].head.pred),
    ensures
        touches(st, declare_facts(st, cs, i), t),
    decreases cs.len() - i,
{
    if 0 <= i < cs.len() {
        if !cs[i].is_fact {
            lemma_declare_touches(st, cs, i + 1, t);
        } else {
            let h = head_values(st.names, cs[i].head.args, Map::empty());
            let st1 = StoreV { names: h.0, ..st };
            lemma_head_names(st.names, cs[i].head.args, 0, Map::empty(), Seq::empty());
            assert(touches(st, st1, t));
            match h.1 {
                Some(args) => {
                    assert(t.contains(cs[i].head.pred));
                    let f = FactV { ann: ann_unit(), supports: seq![SupportV::Base] };
                    let st2 = declared(st1, (cs[i].head.pred, args), ann_unit());
                    lemma_assert_touches(st1, (cs[i].head.pred, args), f, t);
                    lemma_touches_trans(st, st1, st2, t);
                    lemma_declare_touches(st2, cs, i + 1, t);
                    lemma_touches_trans(st, st2, declare_facts(st2, cs, i + 1), t);
                },
                None => {
                    lemma_declare_touches(st1, cs, i + 1, t);
                    lemma_touches_trans(st, st1, declare_facts(st1, cs, i + 1), t);
                },
            }
        }
    }
}

/// The predicates that rules define, or ever defined, and those that the
/// program states facts of.
pub open spec fn written_preds(e: EngineV) -> Set<Seq<char>> {
    Set::new(|p: Seq<char>| derived_pred(e, p) || has_clause(e.clauses, p))
}

pub proof fn lemma_temp_prefix(c: ClauseV, ci: int)
    ensures
        starts_with(temp_name(c, ci), "__agg:"@),
{
    let s = temp_name(c, ci);
    let p = "__agg:"@;
    assert(s.take(p.len() as int) =~= p);
}

pub proof fn lemma_writes_written(e: EngineV)
    ensures
        writes_in(e.clauses, written_preds(e)),
{
    assert forall|i: int| 0 <= i < e.clauses.len() implies written_preds(e).contains((#[trigger] e.clauses[i]).head.pred) by {
        assert(has_clause(e.clauses, e.clauses[i].head.pred));
    }
    assert forall|ci: int| 0 <= ci < e.clauses.len() implies written_preds(e).contains(#[trigger] temp_name(e.clauses[ci], ci)) by {
        lemma_temp_prefix(e.clauses[ci], ci);
    }
}

/// Law: a run leaves the base facts alone. A predicate that no rule defines,
/// or ever defined, and that the program states no fact of, has the same facts
/// after a run; the logs and the symbols only grow.
pub proof fn run_keeps_base(e: EngineV)
    requires
        engine_wf(e),
        e.ever.finite(),
        e.clauses.len() <= usize::MAX,
    ensures
        spares(e.st.rels, ran(e).0.st.rels, written_preds(e)),
        e.st.names.is_prefix_of(ran(e).0.st.names),
        e.st.log.is_prefix_of(ran(e).0.st.log),
        e.st.feed.is_prefix_of(ran(e).0.st.feed),
{
    let t = written_preds(e);
    let cs = e.clauses;
    lemma_writes_written(e);
    let ok = strata_error(cs) is None;
    let strata = strata_of(cs);
    let st1 = if e.dirty && ok {
        rebuilt(e.st, cs, strata, e.ever)
    } else {
        e.st
    };
    strata_exist(cs);
    lemma_strata_fit(cs, strata);
    assert(touches(e.st, st1, t)) by {
        if e.dirty && ok {
            let all = Set::new(|p: Seq<char>| e.ever.contains(p) || in_heads(cs, strata, p));
            lemma_all_finite(e, strata);
            let ps = enumerate::<String>(all);
            assert forall|i: int| 0 <= i < ps.len() implies t.contains(#[trigger] ps[i]) by {
                lemma_enumerated(all, i);
                let p = ps[i];
                if !e.ever.contains(p) {
                    let (s, k) = choose|s: int, k: int|
                        0 <= s < strata.len() && 0 <= k < strata[s].len() && cs[#[trigger] strata[s][k]].head.pred == p;
                    assert(indices_of(strata[s], cs.len() as int));
                    assert(0 <= strata[s][k] < cs.len());
                    assert(has_clause(cs, p));
                }
            }
            lemma_clear_each_touches(e.st, ps, t);
            let c = clear_each(e.st, ps);
            let d = StoreV { rels: rels_seed_all(c.rels), ..c };
            assert(touches(c, d, t));
            lemma_touches_trans(e.st, c, d, t);
        }
    }
    let p = prepared(e);
    lemma_declare_touches(st1, cs, 0, t);
    lemma_touches_trans(e.st, st1, p.st, t);
    if ok {
        let ev = eval_strata(p.st, e.now, cs, strata, 0);
        lemma_strata_touches(p.st, e.now, cs, strata, 0, t);
        lemma_touches_trans(e.st, p.st, ev.st, t);
        let inv = invalidate(ev.st, e.now, cs, strata, e.mark, strata.len() + 2);
        lemma_invalidate_touches(ev.st, e.now, cs, strata, e.mark, strata.len() + 2, t);
        lemma_touches_trans(e.st, ev.st, inv.st, t);
        assert forall|q: Seq<char>| !t.contains(q) implies #[trigger] same_facts(e.st.rels, ran(e).0.st.rels, q) by {
            assert(same_facts(e.st.rels, inv.st.rels, q));
        }
    }
}

pub proof fn lemma_all_finite(e: EngineV, strata: Seq<Seq<int>>)
    requires
        e.ever.finite(),
        strata_fit(strata, e.clauses.len() as int),
    ensures
        Set::new(|p: Seq<char>| e.ever.contains(p) || in_heads(e.clauses, strata, p)).finite(),
{
    let all = Set::new(|p: Seq<char>| e.ever.contains(p) || in_heads(e.clauses, strata, p));
    let heads = e.clauses.map_values(|c: ClauseV| c.head.pred);
    vstd::seq_lib::seq_to_set_is_finite(heads);
    let u = e.ever.union(heads.to_set());
    assert(all.subset_of(u)) by {
        assert forall|p: Seq<char>| #[trigger] all.contains(p) implies u.contains(p) by {
            if !e.ever.contains(p) {
                let (s, k) = choose|s: int, k: int|
                    0 <= s < strata.len() && 0 <= k < strata[s].len() && e.clauses[#[trigger] strata[s][k]].head.pred == p;
                assert(indices_of(strata[s], e.clauses.len() as int));
                assert(0 <= strata[s][k] < e.clauses.len());
                assert(heads[strata[s][k]] == p);
            }
        }
    }
    vstd::set_lib::lemma_set_subset_finite(u, all);
}

} // verus!

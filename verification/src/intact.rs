//! Order in the store: the calls of an engine keep names distinct, facts over
//! known symbols, and annotations with finitely many sources and confidences
//! between nought and one.

use vstd::prelude::*;
use crate::agent::{edges_for, fresh_engine, ingested, maintained, memory_of, rules_installed, rules_uninstalled, supposed, MemoryV};
use crate::ast::{AtomV, ClauseV, ExprV, LitV, TermV};
use crate::builtins::{after_builtin, term_value};
use crate::canonical::{canonicalized, names_in, seeded, with_alias, with_aliases, CANONICAL_RULES};
use crate::confidence::{clamp, unit_bits};
use crate::demand::{after_demand, assumed, demand_program};
use crate::engine::{declare_facts, declared, engine_new, eval_strata, invalidate, lemma_strata_fit, prepared, ran, stale_readers, EngineV};
use crate::env::EnvV;
use crate::evaluate::{
    agg_fns, delta_args, eval_stratum_of, fire, fire_from, fire_keys, fire_rule, fixpoint, fold_clause, fold_group, fold_groups,
    fold_label, fold_stratum, fold_values, group_len, group_rows, groups, has_atom, indices_of, matching, pending_delta, prefix_pattern,
    retract_others, round, round_from, rounds, settles, start_env, stratum_rules, temp_name,
};
use crate::extract::{EpisodeV, NINE_TENTHS};
use crate::frame::{
    lemma_invalidate_touches, lemma_pass_touches, lemma_passes_touches, lemma_step_touches, lemma_strata_touches, lemma_stratum_touches,
    writes_in,
};
use crate::intern::{interned, with_name};
use crate::model::{known_map, lemma_bind_from_vars, lemma_head_distinct, lemma_head_known, lemma_known_grows};
use crate::policy::{ann_from, applied, applied_all, edge_to, is_open, new_edge, open_edges, with_closed, with_edge, with_symbol, ReportV};
use crate::protocol::CandV;
use crate::query::query_of;
use crate::recompute::{clear_each, rebuilt, scope_here, scope_pass, scope_passes, scope_step, scoped, stated_in, strata_fit, ScopeV};
use crate::relation::{ann_join, ann_unit, has_key, rel_insert, row_of, AnnV, FactV, KeyV, RowV, SupportV};
use crate::restore::{in_order, known_key, known_value, lemma_resolved_prefix};
use crate::rules::installed;
use crate::runs::lemma_groups_finite;
use crate::scope::{anything, reset};
use crate::snapshot::{loaded, resolved, snapshot_read, with_record, with_records, with_rules, ArgV, FactRecordV};
use crate::solve::{
    atom_rows, emit, env_with_row, head_values, lemma_head_names, lemma_prefix_trans, lemma_solve, lemma_solve_rows, lemma_store_assert,
    rule_label, solve, solve_rows,
};
use crate::sorted_set::{enumerate, lemma_enumerable};
use crate::store::{holds, rel_at, rels_wf, store_assert, store_clear, store_retract, RelsV, StoreV};
use crate::stratify::{aggregates, strata_error, strata_exist, strata_of};
use crate::tally::{groups_of, is_tally, solutions, tally};
use crate::value::Value;

verus! {

// -------------------------------------------------------------- single changes

/// An annotation with finitely many sources and a confidence between nought
/// and one.
pub open spec fn is_note(a: AnnV) -> bool {
    a.prov.finite() && unit_bits(a.conf)
}

/// A row over known symbols, annotated in order.
pub open spec fn row_intact(names: Seq<Seq<char>>, row: RowV) -> bool {
    known_key(names, row.key) && is_note(row.fact.ann)
}

/// A store in order.
pub open spec fn intact(st: StoreV) -> bool {
    &&& rels_wf(st.rels)
    &&& st.rels.dom().finite()
    &&& st.names.no_duplicates()
    &&& forall|p: Seq<char>, i: int|
        st.rels.contains_key(p) && 0 <= i < st.rels[p].rows.len() ==> row_intact(st.names, #[trigger] st.rels[p].rows[i])
}

/// The facts of a memory are in order where its store is.
pub proof fn lemma_in_order(e: EngineV)
    ensures
        in_order(e) <==> intact(e.st),
{
    if in_order(e) {
        assert forall|p: Seq<char>, i: int| e.st.rels.contains_key(p) && 0 <= i < e.st.rels[p].rows.len() implies row_intact(
            e.st.names,
            #[trigger] e.st.rels[p].rows[i],
        ) by {
            let k: KeyV = (p, e.st.rels[p].rows[i].key);
            assert(holds(e.st.rels, k));
        }
    }
    if intact(e.st) {
        assert forall|k: KeyV| #[trigger] holds(e.st.rels, k) implies known_key(e.st.names, k.1) by {
            let r = e.st.rels[k.0];
            let i = choose|i: int| 0 <= i < r.rows.len() && (#[trigger] r.rows[i]).key == k.1;
            assert(row_intact(e.st.names, e.st.rels[k.0].rows[i]));
        }
    }
}

proof fn lemma_assert_intact(st: StoreV, k: KeyV, f: FactV)
    requires
        intact(st),
        known_key(st.names, k.1),
        is_note(f.ann),
    ensures
        intact(store_assert(st, k, f)),
{
    let r = store_assert(st, k, f);
    lemma_store_assert(st, k, f);
    let old = rel_at(st.rels, k.0);
    let new = rel_insert(old, k.1, f);
    assert forall|p: Seq<char>, i: int| r.rels.contains_key(p) && 0 <= i < r.rels[p].rows.len() implies row_intact(
        r.names,
        #[trigger] r.rels[p].rows[i],
    ) by {
        if p == k.0 {
            assert(r.rels[p] == new);
            if has_key(old, k.1) {
                let at = row_of(old, k.1);
                assert(st.rels.contains_key(p));
                assert(row_intact(st.names, st.rels[p].rows[i]));
            } else if i < old.rows.len() {
                assert(st.rels.contains_key(p));
                assert(row_intact(st.names, st.rels[p].rows[i]));
            }
        } else {
            assert(row_intact(st.names, st.rels[p].rows[i]));
        }
    }
}

proof fn lemma_retract_intact(st: StoreV, k: KeyV)
    requires
        intact(st),
    ensures
        intact(store_retract(st, k)),
{
    let r = store_retract(st, k);
    crate::feed::lemma_retract_facts(st, k);
    assert forall|p: Seq<char>, i: int| r.rels.contains_key(p) && 0 <= i < r.rels[p].rows.len() implies row_intact(
        r.names,
        #[trigger] r.rels[p].rows[i],
    ) by {
        assert(st.rels.contains_key(p));
        let rows = st.rels[p].rows;
        assert(i < rows.len());
        assert(row_intact(st.names, st.rels[p].rows[i]));
        assert(row_intact(st.names, st.rels[p].rows[rows.len() - 1]));
    }
    if st.rels.contains_key(k.0) {
        assert(r.rels.dom() =~= st.rels.dom());
    }
}

proof fn lemma_clear_intact(st: StoreV, n: Seq<char>)
    requires
        intact(st),
    ensures
        intact(store_clear(st, n)),
{
    let r = store_clear(st, n);
    crate::relation::lemma_empty_wf();
    assert forall|p: Seq<char>, i: int| r.rels.contains_key(p) && 0 <= i < r.rels[p].rows.len() implies row_intact(
        r.names,
        #[trigger] r.rels[p].rows[i],
    ) by {
        assert(row_intact(st.names, st.rels[p].rows[i]));
    }
}

proof fn lemma_clear_each_intact(st: StoreV, ps: Seq<Seq<char>>)
    requires
        intact(st),
    ensures
        intact(clear_each(st, ps)),
    decreases ps.len(),
{
    if ps.len() > 0 {
        lemma_clear_intact(st, ps[0]);
        lemma_clear_each_intact(store_clear(st, ps[0]), ps.drop_first());
    }
}

/// More names, and other notes of what is pending, keep a store in order.
proof fn lemma_same_intact(a: StoreV, b: StoreV)
    requires
        intact(a),
        a.names.is_prefix_of(b.names),
        b.names.no_duplicates(),
        a.rels.dom() == b.rels.dom(),
        forall|n: Seq<char>| #[trigger] a.rels.contains_key(n) ==> b.rels[n].rows == a.rels[n].rows && b.rels[n].idx == a.rels[n].idx,
    ensures
        intact(b),
{
    assert forall|n: Seq<char>| #[trigger] b.rels.contains_key(n) implies crate::relation::rel_wf(b.rels[n]) by {
        assert(a.rels.contains_key(n));
        assert(crate::relation::rel_wf(a.rels[n]));
    }
    assert forall|p: Seq<char>, i: int| b.rels.contains_key(p) && 0 <= i < b.rels[p].rows.len() implies row_intact(
        b.names,
        #[trigger] b.rels[p].rows[i],
    ) by {
        assert(a.rels.contains_key(p));
        assert(row_intact(a.names, a.rels[p].rows[i]));
        lemma_known_grows(a.names, b.names, a.rels[p].rows[i].key);
    }
}

// --------------------------------------------------------------------- solving

/// Bindings and notes of a search, in order.
spec fn env_intact(names: Seq<Seq<char>>, env: EnvV) -> bool {
    known_map(names, env.map) && is_note(env.ann)
}

proof fn lemma_env_grows(a: Seq<Seq<char>>, b: Seq<Seq<char>>, env: EnvV)
    requires
        a.is_prefix_of(b),
        env_intact(a, env),
    ensures
        env_intact(b, env),
{
    assert forall|v: Seq<char>| #[trigger] env.map.contains_key(v) implies known_value(b, env.map[v]) by {
        lemma_known_grows(a, b, seq![env.map[v]]);
        assert(known_key(a, seq![env.map[v]]));
        assert(known_value(b, seq![env.map[v]][0]));
    }
}

proof fn lemma_emit_intact(st: StoreV, c: ClauseV, env: EnvV)
    requires
        intact(st),
        env_intact(st.names, env),
        emit(st, c, env).0.names.len() < usize::MAX,
    ensures
        intact(emit(st, c, env).0),
{
    let h = head_values(st.names, c.head.args, env.map);
    let st1 = StoreV { names: h.0, ..st };
    lemma_head_names(st.names, c.head.args, 0, env.map, Seq::empty());
    lemma_head_distinct(st.names, c.head.args, 0, env.map, Seq::empty());
    lemma_same_intact(st, st1);
    if let Some(args) = h.1 {
        let f = FactV { ann: env.ann, supports: seq![SupportV::Rule { rule: rule_label(c), body: env.keys }] };
        lemma_head_known(st.names, c.head.args, 0, env.map, Seq::empty());
        lemma_assert_intact(st1, (c.head.pred, args), f);
    }
}

/// A built-in binds known values.
proof fn lemma_builtin_intact(names: Seq<Seq<char>>, now: i64, l: LitV, map: crate::env::Bindings)
    requires
        known_map(names, map),
        names.len() < usize::MAX,
        after_builtin(names, now, l, map) is Some,
    ensures
        known_map(names, after_builtin(names, now, l, map)->Some_0),
{
    let r = after_builtin(names, now, l, map)->Some_0;
    assert forall|t: TermV| (#[trigger] term_value(names, t, map)) is Some implies known_value(names, term_value(names, t, map)->Some_0) by {
        if let TermV::Sym(s) = t {
            if names.contains(s) {
                assert(0 <= names.index_of(s) < names.len());
            }
        }
    }
    assert forall|v: Seq<char>| #[trigger] r.contains_key(v) implies known_value(names, r[v]) by {
        if map.contains_key(v) {
            assert(known_value(names, map[v]));
        }
        if let LitV::Cmp(op, x, y) = l {
            if let ExprV::T(t) = y {
                let u = term_value(names, t, map);
                assert(u is Some ==> known_value(names, u->Some_0));
            }
        }
    }
}

/// The rows of the list are rows of the relation.
spec fn rows_of(rels: RelsV, p: Seq<char>, ids: Seq<int>) -> bool {
    forall|k: int| 0 <= k < ids.len() ==> rels.contains_key(p) && 0 <= #[trigger] ids[k] < rels[p].rows.len()
}

proof fn lemma_solve_intact(st: StoreV, now: i64, c: ClauseV, i: int, skip: int, env: EnvV, out: Seq<KeyV>)
    requires
        intact(st),
        env_intact(st.names, env),
        solve(st, now, c, i, skip, env, out).st.names.len() < usize::MAX,
    ensures
        intact(solve(st, now, c, i, skip, env, out).st),
    decreases c.body.len() - i, 1int, 0int,
{
    lemma_solve(st, now, c, i, skip, env, out);
    if i < 0 || i >= c.body.len() {
        lemma_emit_intact(st, c, env);
    } else if i == skip {
        lemma_solve_intact(st, now, c, i + 1, skip, env, out);
    } else {
        match c.body[i] {
            LitV::Pos(a) => {
                let ids = atom_rows(st, a, env.map);
                assert(rows_of(st.rels, a.pred, ids)) by {
                    if st.rels.contains_key(a.pred) {
                        crate::relation::lemma_lookup(
                            st.rels[a.pred],
                            crate::solve::bound_pattern(st.names, a.args, env.map),
                        );
                    }
                }
                lemma_solve_rows_intact(st, now, c, i, skip, env, out, a, ids);
            },
            LitV::Neg(a) => {
                if !crate::solve::atom_matches(st, a, env.map) {
                    lemma_solve_intact(st, now, c, i + 1, skip, env, out);
                }
            },
            lit => {
                if let Some(map) = after_builtin(st.names, now, lit, env.map) {
                    lemma_builtin_intact(st.names, now, lit, env.map);
                    lemma_solve_intact(st, now, c, i + 1, skip, EnvV { map, ..env }, out);
                }
            },
        }
    }
}

proof fn lemma_solve_rows_intact(
    st: StoreV,
    now: i64,
    c: ClauseV,
    i: int,
    skip: int,
    env: EnvV,
    out: Seq<KeyV>,
    a: AtomV,
    ids: Seq<int>,
)
    requires
        intact(st),
        env_intact(st.names, env),
        rows_of(st.rels, a.pred, ids),
        solve_rows(st, now, c, i, skip, env, out, a, ids).st.names.len() < usize::MAX,
    ensures
        intact(solve_rows(st, now, c, i, skip, env, out, a, ids).st),
    decreases c.body.len() - i, 0int, ids.len(),
{
    lemma_solve_rows(st, now, c, i, skip, env, out, a, ids);
    if !(i < 0 || i >= c.body.len() || ids.len() == 0) {
        let d = ids.drop_first();
        assert(rows_of(st.rels, a.pred, d)) by {
            assert forall|k: int| 0 <= k < d.len() implies st.rels.contains_key(a.pred) && 0 <= #[trigger] d[k] < st.rels[a.pred].rows.len() by {
                assert(d[k] == ids[k + 1]);
            }
        }
        match env_with_row(st, a, ids[0], env) {
            None => {
                lemma_solve_rows_intact(st, now, c, i, skip, env, out, a, d);
            },
            Some(e) => {
                let r = solve(st, now, c, i + 1, skip, e, out);
                assert(0 <= ids[0] < st.rels[a.pred].rows.len());
                let row = st.rels[a.pred].rows[ids[0]];
                assert(row_intact(st.names, row));
                lemma_bind_from_vars(st.names, a.args, row.key, 0, env.map);
                assert(known_map(st.names, env.map) && known_key(st.names, row.key));
                lemma_joined_note(env.ann, row.fact.ann);
                lemma_solve(st, now, c, i + 1, skip, e, out);
                lemma_solve_rows(r.st, now, c, i, skip, env, r.out, a, d);
                lemma_solve_intact(st, now, c, i + 1, skip, e, out);
                lemma_env_grows(st.names, r.st.names, env);
                assert(rows_of(r.st.rels, a.pred, d)) by {
                    assert forall|k: int| 0 <= k < d.len() implies r.st.rels.contains_key(a.pred) && 0 <= #[trigger] d[k]
                        < r.st.rels[a.pred].rows.len() by {
                        assert(st.rels.contains_key(a.pred));
                    }
                }
                lemma_solve_rows_intact(r.st, now, c, i, skip, env, r.out, a, d);
            },
        }
    }
}

proof fn lemma_joined_note(a: AnnV, b: AnnV)
    requires
        is_note(a),
        is_note(b),
    ensures
        is_note(ann_join(a, b)),
{
}

proof fn lemma_fire_keys_intact(
    st: StoreV,
    now: i64,
    c: ClauseV,
    ai: int,
    a: AtomV,
    keys: Seq<Seq<Value>>,
    out: Seq<KeyV>,
)
    requires
        intact(st),
        fire_keys(st, now, c, ai, a, keys, out).st.names.len() < usize::MAX,
    ensures
        intact(fire_keys(st, now, c, ai, a, keys, out).st),
    decreases keys.len(),
{
    if keys.len() > 0 {
        match start_env(st, a, keys[0]) {
            None => lemma_fire_keys_intact(st, now, c, ai, a, keys.drop_first(), out),
            Some(env) => {
                let r = solve(st, now, c, 0, ai, env, out);
                let rel = st.rels[a.pred];
                let at = row_of(rel, keys[0]);
                assert(holds(st.rels, (a.pred, keys[0])));
                assert(0 <= at < rel.rows.len() && rel.rows[at].key == keys[0]);
                assert(row_intact(st.names, st.rels[a.pred].rows[at]));
                lemma_bind_from_vars(st.names, a.args, keys[0], 0, Map::empty());
                assert(known_map(st.names, Map::<Seq<char>, Value>::empty()) && known_key(st.names, keys[0]));
                lemma_joined_note(ann_unit(), rel.rows[at].fact.ann);
                lemma_solve(st, now, c, 0, ai, env, out);
                crate::evaluate::lemma_fire_keys(r.st, now, c, ai, a, keys.drop_first(), r.out);
                lemma_solve_intact(st, now, c, 0, ai, env, out);
                lemma_fire_keys_intact(r.st, now, c, ai, a, keys.drop_first(), r.out);
            },
        }
    }
}

proof fn lemma_fire_from_intact(st: StoreV, now: i64, c: ClauseV, i: int, delta: Set<KeyV>, out: Seq<KeyV>)
    requires
        intact(st),
        fire_from(st, now, c, i, delta, out).st.names.len() < usize::MAX,
    ensures
        intact(fire_from(st, now, c, i, delta, out).st),
    decreases c.body.len() - i,
{
    if 0 <= i < c.body.len() {
        let r = fire(st, now, c, i, delta, out);
        if let LitV::Pos(a) = c.body[i] {
            crate::evaluate::lemma_fire_keys(st, now, c, i, a, delta_args(delta, a.pred), out);
        }
        crate::evaluate::lemma_fire_from(r.st, now, c, i + 1, delta, r.out);
        if let LitV::Pos(a) = c.body[i] {
            lemma_fire_keys_intact(st, now, c, i, a, delta_args(delta, a.pred), out);
        }
        lemma_fire_from_intact(r.st, now, c, i + 1, delta, r.out);
    }
}

proof fn lemma_fire_intact(st: StoreV, now: i64, c: ClauseV, delta: Set<KeyV>, out: Seq<KeyV>)
    requires
        intact(st),
        fire_rule(st, now, c, delta, out).st.names.len() < usize::MAX,
    ensures
        intact(fire_rule(st, now, c, delta, out).st),
{
    if has_atom(c) {
        lemma_fire_from_intact(st, now, c, 0, delta, out);
    } else {
        let env = EnvV { map: Map::empty(), ann: ann_unit(), keys: Seq::empty() };
        lemma_solve_intact(st, now, c, 0, c.body.len() as int, env, out);
    }
}

proof fn lemma_round_intact(st: StoreV, now: i64, cs: Seq<ClauseV>, i: int, delta: Set<KeyV>, out: Seq<KeyV>)
    requires
        intact(st),
        round_from(st, now, cs, i, delta, out).st.names.len() < usize::MAX,
    ensures
        intact(round_from(st, now, cs, i, delta, out).st),
    decreases cs.len() - i,
{
    if 0 <= i < cs.len() {
        let r = fire_rule(st, now, cs[i], delta, out);
        crate::evaluate::lemma_fire_rule(st, now, cs[i], delta, out);
        crate::evaluate::lemma_round_from(r.st, now, cs, i + 1, delta, r.out);
        lemma_fire_intact(st, now, cs[i], delta, out);
        lemma_round_intact(r.st, now, cs, i + 1, delta, r.out);
    }
}

proof fn lemma_rounds_intact(st: StoreV, now: i64, cs: Seq<ClauseV>, delta: Set<KeyV>, n: nat)
    requires
        intact(st),
        rounds(st, now, cs, delta, n).st.names.len() < usize::MAX,
    ensures
        intact(rounds(st, now, cs, delta, n).st),
    decreases n,
{
    if n > 0 {
        let r = round(st, now, cs, delta);
        crate::evaluate::lemma_round_from(st, now, cs, 0, delta, Seq::empty());
        if r.out.len() > 0 {
            crate::evaluate::lemma_rounds(r.st, now, cs, r.out.to_set(), (n - 1) as nat);
            lemma_round_intact(st, now, cs, 0, delta, Seq::empty());
            lemma_rounds_intact(r.st, now, cs, r.out.to_set(), (n - 1) as nat);
        } else {
            lemma_round_intact(st, now, cs, 0, delta, Seq::empty());
        }
    }
}

// --------------------------------------------------------------------- folding

proof fn lemma_retract_others_intact(st: StoreV, p: Seq<char>, olds: Seq<Seq<Value>>, keep: Seq<Value>)
    requires
        intact(st),
    ensures
        intact(retract_others(st, p, olds, keep).st),
        retract_others(st, p, olds, keep).st.names == st.names,
    decreases olds.len(),
{
    if olds.len() > 0 {
        if olds[0] != keep {
            lemma_retract_intact(st, (p, olds[0]));
            lemma_retract_others_intact(store_retract(st, (p, olds[0])), p, olds.drop_first(), keep);
        } else {
            lemma_retract_others_intact(st, p, olds.drop_first(), keep);
        }
    }
}

proof fn lemma_fold_groups_intact(st: StoreV, c: ClauseV, temp: Seq<char>, keys: Seq<Seq<Value>>, gs: Seq<Seq<Value>>)
    requires
        intact(st),
        forall|i: int| 0 <= i < gs.len() ==> known_key(st.names, tally(c, keys, #[trigger] gs[i])),
    ensures
        intact(fold_groups(st, c, temp, keys, gs).st),
        fold_groups(st, c, temp, keys, gs).st.names == st.names,
    decreases gs.len(),
{
    if gs.len() > 0 {
        let g = gs[0];
        let rows = group_rows(keys, group_len(c.head.args) as int, g);
        let fns = agg_fns(c.head.args);
        let out = g + fold_values(fns, rows);
        assert(out == tally(c, keys, g));
        let olds = matching(st.rels, c.head.pred, prefix_pattern(g, fns.len()));
        let r = retract_others(st, c.head.pred, olds, out);
        lemma_retract_others_intact(st, c.head.pred, olds, out);
        let support = SupportV::Rule { rule: fold_label(c), body: seq![(temp, g + rows[0])] };
        let f = FactV { ann: ann_unit(), supports: seq![support] };
        assert(known_key(st.names, tally(c, keys, gs[0])));
        lemma_assert_intact(r.st, (c.head.pred, out), f);
        let m = fold_group(st, c, temp, g, rows).st;
        let d = gs.drop_first();
        assert forall|i: int| 0 <= i < d.len() implies known_key(m.names, tally(c, keys, #[trigger] d[i])) by {
            assert(d[i] == gs[i + 1]);
        }
        lemma_fold_groups_intact(m, c, temp, keys, d);
    }
}

proof fn lemma_fold_clause_intact(st: StoreV, c: ClauseV, ci: int)
    requires
        intact(st),
    ensures
        intact(fold_clause(st, c, ci).st),
        fold_clause(st, c, ci).st.names == st.names,
{
    let temp = temp_name(c, ci);
    if st.rels.contains_key(temp) {
        let keys = solutions(st.rels, c, ci);
        let gl = group_len(c.head.args) as int;
        let gs = enumerate::<Vec<Value>>(groups(keys, gl));
        lemma_groups_finite(keys, gl);
        lemma_enumerable::<Vec<Value>>(groups(keys, gl));
        assert forall|k: KeyV| #[trigger] holds(st.rels, k) implies known_key(st.names, k.1) by {
            let r = st.rels[k.0];
            let i = choose|i: int| 0 <= i < r.rows.len() && (#[trigger] r.rows[i]).key == k.1;
            assert(row_intact(st.names, st.rels[k.0].rows[i]));
        }
        assert forall|i: int| 0 <= i < gs.len() implies known_key(st.names, tally(c, keys, #[trigger] gs[i])) by {
            assert(gs.to_set().contains(gs[i]));
            assert(groups_of(c, keys).contains(gs[i]));
            assert(is_tally(c, keys, tally(c, keys, gs[i])));
            crate::folds::lemma_tally_known(st.names, st.rels, c, ci, tally(c, keys, gs[i]));
        }
        lemma_fold_groups_intact(st, c, temp, keys, gs);
    }
}

proof fn lemma_fold_stratum_intact(st: StoreV, cs: Seq<ClauseV>, idx: Seq<int>, i: int)
    requires
        intact(st),
    ensures
        intact(fold_stratum(st, cs, idx, i)),
        fold_stratum(st, cs, idx, i).names == st.names,
    decreases idx.len() - i,
{
    if 0 <= i < idx.len() {
        if aggregates(cs[idx[i]]) {
            lemma_fold_clause_intact(st, cs[idx[i]], idx[i]);
            lemma_fold_stratum_intact(fold_clause(st, cs[idx[i]], idx[i]).st, cs, idx, i + 1);
        } else {
            lemma_fold_stratum_intact(st, cs, idx, i + 1);
        }
    }
}

// --------------------------------------------------------------------- running

proof fn lemma_eval_intact(st: StoreV, now: i64, cs: Seq<ClauseV>, idx: Seq<int>)
    requires
        intact(st),
        eval_stratum_of(st, now, cs, idx).st.names.len() < usize::MAX,
    ensures
        intact(eval_stratum_of(st, now, cs, idx).st),
{
    let rules = stratum_rules(cs, idx);
    let delta = pending_delta(st.rels);
    let x = fixpoint(st, now, rules, delta).st;
    let n = choose|n: nat| settles(st, now, rules, delta, n);
    assert(x == rounds(st, now, rules, delta, n).st);
    if x.names.len() < usize::MAX {
        lemma_rounds_intact(st, now, rules, delta, n);
        lemma_fold_stratum_intact(x, cs, idx, 0);
    } else {
        assert(writes_in(cs, anything()));
        crate::evaluate::fixpoint_extends(st, now, rules, delta);
        crate::frame::lemma_fold_stratum_touches(x, cs, idx, 0, anything());
        assert(false);
    }
}

proof fn lemma_strata_intact(st: StoreV, now: i64, cs: Seq<ClauseV>, strata: Seq<Seq<int>>, s: int)
    requires
        intact(st),
        strata_fit(strata, cs.len() as int),
        eval_strata(st, now, cs, strata, s).st.names.len() < usize::MAX,
    ensures
        intact(eval_strata(st, now, cs, strata, s).st),
    decreases strata.len() - s,
{
    if 0 <= s < strata.len() {
        let e = eval_stratum_of(st, now, cs, strata[s]).st;
        assert(indices_of(strata[s], cs.len() as int));
        assert(writes_in(cs, anything()));
        lemma_stratum_touches(st, now, cs, strata[s], anything());
        lemma_strata_touches(e, now, cs, strata, s + 1, anything());
        lemma_eval_intact(st, now, cs, strata[s]);
        lemma_strata_intact(e, now, cs, strata, s + 1);
    }
}

proof fn lemma_step_intact(sc: ScopeV, now: i64, cs: Seq<ClauseV>, strata: Seq<Seq<int>>, stratum: Seq<int>)
    requires
        intact(sc.st),
        indices_of(stratum, cs.len() as int),
        scope_step(sc, now, cs, strata, stratum).st.names.len() < usize::MAX,
    ensures
        intact(scope_step(sc, now, cs, strata, stratum).st),
{
    let here = scope_here(cs, stratum, sc.to_clear);
    if here != Set::<Seq<char>>::empty() {
        let cleared = clear_each(sc.st, enumerate::<String>(here));
        let r = reset(sc, cs, here);
        lemma_clear_each_intact(sc.st, enumerate::<String>(here));
        let seeded = crate::scope::seeded_store(sc, cs, here);
        assert(seeded.rels.dom() =~= cleared.rels.dom());
        assert(cleared.names =~= cleared.names.subrange(0, cleared.names.len() as int));
        lemma_same_intact(cleared, seeded);
        crate::runs::lemma_declare_grows(seeded, stated_in(cs, here), 0);
        assert(writes_in(cs, anything()));
        lemma_stratum_touches(r, now, cs, stratum, anything());
        lemma_declare_intact(seeded, stated_in(cs, here), 0);
        lemma_eval_intact(r, now, cs, stratum);
    }
}

proof fn lemma_pass_intact(sc: ScopeV, now: i64, cs: Seq<ClauseV>, strata: Seq<Seq<int>>, s: int)
    requires
        intact(sc.st),
        strata_fit(strata, cs.len() as int),
        scope_pass(sc, now, cs, strata, s).st.names.len() < usize::MAX,
    ensures
        intact(scope_pass(sc, now, cs, strata, s).st),
    decreases strata.len() - s,
{
    if 0 <= s < strata.len() {
        let next = scope_step(sc, now, cs, strata, strata[s]);
        assert(indices_of(strata[s], cs.len() as int));
        assert(writes_in(cs, anything()));
        lemma_step_touches(sc, now, cs, strata, strata[s], anything());
        lemma_pass_touches(next, now, cs, strata, s + 1, anything());
        lemma_step_intact(sc, now, cs, strata, strata[s]);
        lemma_pass_intact(next, now, cs, strata, s + 1);
    }
}

proof fn lemma_passes_intact(sc: ScopeV, now: i64, cs: Seq<ClauseV>, strata: Seq<Seq<int>>, n: nat)
    requires
        intact(sc.st),
        strata_fit(strata, cs.len() as int),
        scope_passes(sc, now, cs, strata, n).st.names.len() < usize::MAX,
    ensures
        intact(scope_passes(sc, now, cs, strata, n).st),
    decreases n,
{
    if !(n == 0 || sc.to_clear == Set::<Seq<char>>::empty()) {
        let next = scope_pass(sc, now, cs, strata, 0);
        assert(writes_in(cs, anything()));
        lemma_pass_touches(sc, now, cs, strata, 0, anything());
        lemma_passes_touches(next, now, cs, strata, (n - 1) as nat, anything());
        lemma_pass_intact(sc, now, cs, strata, 0);
        lemma_passes_intact(next, now, cs, strata, (n - 1) as nat);
    }
}

proof fn lemma_invalidate_intact(st: StoreV, now: i64, cs: Seq<ClauseV>, strata: Seq<Seq<int>>, mark: int, n: nat)
    requires
        intact(st),
        strata_fit(strata, cs.len() as int),
        invalidate(st, now, cs, strata, mark, n).st.names.len() < usize::MAX,
    ensures
        intact(invalidate(st, now, cs, strata, mark, n).st),
    decreases n,
{
    let extra = stale_readers(st, cs, mark);
    if !(n == 0 || (st.retracted == Set::<Seq<char>>::empty() && extra == Set::<Seq<char>>::empty())) {
        let sc = crate::scope::scope_begun(st, cs, strata, extra);
        let r = scoped(st, now, cs, strata, extra).st;
        assert(writes_in(cs, anything()));
        assert(r == scope_passes(sc, now, cs, strata, strata.len() + 2).st);
        lemma_passes_touches(sc, now, cs, strata, strata.len() + 2, anything());
        lemma_invalidate_touches(r, now, cs, strata, mark, (n - 1) as nat, anything());
        assert(intact(sc.st));
        lemma_passes_intact(sc, now, cs, strata, strata.len() + 2);
        lemma_invalidate_intact(r, now, cs, strata, mark, (n - 1) as nat);
    }
}

proof fn lemma_declare_intact(st: StoreV, cs: Seq<ClauseV>, i: int)
    requires
        intact(st),
        declare_facts(st, cs, i).names.len() < usize::MAX,
    ensures
        intact(declare_facts(st, cs, i)),
    decreases cs.len() - i,
{
    if 0 <= i < cs.len() {
        if !cs[i].is_fact {
            lemma_declare_intact(st, cs, i + 1);
        } else {
            let args = cs[i].head.args;
            let h = head_values(st.names, args, Map::empty());
            let st1 = StoreV { names: h.0, ..st };
            lemma_head_names(st.names, args, 0, Map::empty(), Seq::empty());
            lemma_head_distinct(st.names, args, 0, Map::empty(), Seq::empty());
            lemma_same_intact(st, st1);
            match h.1 {
                Some(vs) => {
                    let k: KeyV = (cs[i].head.pred, vs);
                    let f = FactV { ann: ann_unit(), supports: seq![SupportV::Base] };
                    let st2 = declared(st1, k, ann_unit());
                    lemma_store_assert(st1, k, f);
                    crate::runs::lemma_declare_grows(st2, cs, i + 1);
                    lemma_head_known(st.names, args, 0, Map::empty(), Seq::empty());
                    lemma_assert_intact(st1, k, f);
                    lemma_declare_intact(st2, cs, i + 1);
                },
                None => lemma_declare_intact(st1, cs, i + 1),
            }
        }
    }
}

// ------------------------------------------------------------------------ laws

/// Law: a run keeps the facts in order, whatever the program.
pub proof fn running_keeps_order(e: EngineV)
    requires
        in_order(e),
        e.clauses.len() <= usize::MAX,
        ran(e).0.st.names.len() < usize::MAX,
    ensures
        in_order(ran(e).0),
{
    let cs = e.clauses;
    let strata = strata_of(cs);
    let p = prepared(e).st;
    let ok = strata_error(cs) is None;
    let st1 = if e.dirty && ok {
        rebuilt(e.st, cs, strata, e.ever)
    } else {
        e.st
    };
    lemma_in_order(e);
    lemma_in_order(ran(e).0);
    if e.dirty && ok {
        let all = Set::new(|p: Seq<char>| e.ever.contains(p) || crate::recompute::in_heads(cs, strata, p));
        let c = clear_each(e.st, enumerate::<String>(all));
        lemma_clear_each_intact(e.st, enumerate::<String>(all));
        assert(st1.rels.dom() =~= c.rels.dom());
        assert(c.names =~= c.names.subrange(0, c.names.len() as int));
        lemma_same_intact(c, st1);
    }
    crate::runs::lemma_declare_grows(st1, cs, 0);
    if ok {
        let f = eval_strata(p, e.now, cs, strata, 0).st;
        let inv = invalidate(f, e.now, cs, strata, e.mark, strata.len() + 2).st;
        let r = ran(e).0.st;
        strata_exist(cs);
        lemma_strata_fit(cs, strata);
        assert(writes_in(cs, anything()));
        lemma_strata_touches(p, e.now, cs, strata, 0, anything());
        lemma_invalidate_touches(f, e.now, cs, strata, e.mark, strata.len() + 2, anything());
        lemma_declare_intact(st1, cs, 0);
        lemma_strata_intact(p, e.now, cs, strata, 0);
        lemma_invalidate_intact(f, e.now, cs, strata, e.mark, strata.len() + 2);
        assert(r.rels.dom() =~= inv.rels.dom());
        assert(inv.names =~= inv.names.subrange(0, inv.names.len() as int));
        lemma_same_intact(inv, r);
    } else {
        lemma_declare_intact(st1, cs, 0);
    }
}

/// Law: declaring a fact over known symbols keeps the facts in order.
pub proof fn declaring_keeps_order(e: EngineV, k: KeyV, ann: AnnV)
    requires
        in_order(e),
        known_key(e.st.names, k.1),
        is_note(ann),
    ensures
        in_order(EngineV { st: declared(e.st, k, ann), ..e }),
{
    lemma_in_order(e);
    lemma_in_order(EngineV { st: declared(e.st, k, ann), ..e });
    lemma_assert_intact(e.st, k, FactV { ann, supports: seq![SupportV::Base] });
}

/// Law: retracting a fact keeps the facts in order.
pub proof fn retracting_keeps_order(e: EngineV, k: KeyV)
    requires
        in_order(e),
    ensures
        in_order(EngineV { st: store_retract(e.st, k), ..e }),
{
    lemma_in_order(e);
    lemma_in_order(EngineV { st: store_retract(e.st, k), ..e });
    lemma_retract_intact(e.st, k);
}

/// Law: making a symbol keeps the facts in order, and the symbol is known.
pub proof fn naming_keeps_order(e: EngineV, s: Seq<char>)
    requires
        in_order(e),
        with_name(e.st.names, s).len() < usize::MAX,
    ensures
        in_order(EngineV { st: StoreV { names: with_name(e.st.names, s), ..e.st }, ..e }),
        known_value(with_name(e.st.names, s), Value::Sym(crate::intern::interned(e.st.names, s))),
{
    let r = StoreV { names: with_name(e.st.names, s), ..e.st };
    lemma_in_order(e);
    lemma_in_order(EngineV { st: r, ..e });
    assert(e.st.names =~= r.names.subrange(0, e.st.names.len() as int));
    lemma_same_intact(e.st, r);
    if e.st.names.contains(s) {
        assert(0 <= e.st.names.index_of(s) < e.st.names.len());
    }
}

// ------------------------------------------------------------------ the memory

proof fn lemma_symbol_grows(names: Seq<Seq<char>>, s: Seq<char>)
    ensures
        names.is_prefix_of(with_name(names, s)),
        names.len() <= with_name(names, s).len(),
{
    assert(names =~= with_name(names, s).subrange(0, names.len() as int));
}

proof fn lemma_three_symbols(e: EngineV, a: Seq<char>, b: Seq<char>, c: Seq<char>)
    requires
        in_order(e),
        with_symbol(with_symbol(with_symbol(e, a), b), c).st.names.len() < usize::MAX,
    ensures
        ({
            let e1 = with_symbol(e, a);
            let e2 = with_symbol(e1, b);
            let e3 = with_symbol(e2, c);
            &&& in_order(e3)
            &&& known_value(e3.st.names, Value::Sym(interned(e.st.names, a)))
            &&& known_value(e3.st.names, Value::Sym(interned(e1.st.names, b)))
            &&& known_value(e3.st.names, Value::Sym(interned(e2.st.names, c)))
        }),
{
    let e1 = with_symbol(e, a);
    let e2 = with_symbol(e1, b);
    lemma_symbol_grows(e.st.names, a);
    lemma_symbol_grows(e1.st.names, b);
    lemma_symbol_grows(e2.st.names, c);
    naming_keeps_order(e, a);
    naming_keeps_order(e1, b);
    naming_keeps_order(e2, c);
}

/// The open edges of a subject are stored.
proof fn lemma_open_known(e: EngineV, s: Value, p: Value)
    requires
        in_order(e),
    ensures
        forall|i: int|
            0 <= i < open_edges(e, s, p).len() ==> known_key(e.st.names, #[trigger] open_edges(e, s, p)[i])
                && open_edges(e, s, p)[i].len() == 6,
{
    let pat = seq![Some(s), Some(p), None, None, None, None];
    let q = query_of(e.st, "edge"@, pat);
    let ks = q.map_values(|h: (Seq<Value>, AnnV)| h.0);
    let open = open_edges(e, s, p);
    lemma_in_order(e);
    assert forall|i: int| 0 <= i < open.len() implies known_key(e.st.names, #[trigger] open[i]) && open[i].len() == 6 by {
        ks.lemma_filter_contains_rev(is_open(), open[i]);
        let j = choose|j: int| 0 <= j < ks.len() && ks[j] == open[i];
        let rel = e.st.rels["edge"@];
        let ids = crate::query::rows_for(rel, pat);
        crate::relation::lemma_lookup(rel, pat);
        assert(pat[0] is Some);
        crate::policy::lemma_hit_len(e.st, "edge"@, pat, j);
        assert(q[j].0 == rel.rows[ids[j]].key);
        assert(row_intact(e.st.names, e.st.rels["edge"@].rows[ids[j]]));
    }
}

proof fn lemma_closed_in_order(e: EngineV, open: Seq<Seq<Value>>, i: int)
    requires
        in_order(e),
        forall|j: int| 0 <= j < open.len() ==> known_key(e.st.names, #[trigger] open[j]) && open[j].len() == 6,
    ensures
        in_order(with_closed(e, open, i)),
        with_closed(e, open, i).st.names == e.st.names,
    decreases open.len() - i,
{
    if 0 <= i < open.len() {
        let gone = EngineV { st: store_retract(e.st, ("edge"@, open[i])), ..e };
        let k = open[i].update(4, Value::Int(e.now));
        let next = with_edge(gone, k, ann_from(NINE_TENTHS, "superseded"@));
        retracting_keeps_order(e, ("edge"@, open[i]));
        assert(known_key(gone.st.names, k)) by {
            assert(known_key(e.st.names, open[i]) && open[i].len() == 6);
            assert forall|j: int| 0 <= j < k.len() implies known_value(e.st.names, #[trigger] k[j]) by {
                if j != 4 {
                    assert(k[j] == open[i][j]);
                    assert(known_value(e.st.names, open[i][j]));
                }
            }
        }
        declaring_keeps_order(gone, ("edge"@, k), ann_from(NINE_TENTHS, "superseded"@));
        lemma_closed_in_order(next, open, i + 1);
    }
}

/// Law: taking in a candidate fact keeps the facts in order.
pub proof fn applying_keeps_order(e: EngineV, c: CandV, source: Seq<char>, rep: ReportV)
    requires
        in_order(e),
        applied(e, c, source, rep).0.st.names.len() < usize::MAX,
    ensures
        in_order(applied(e, c, source, rep).0),
        e.st.names.len() <= applied(e, c, source, rep).0.st.names.len(),
{
    let s = Value::Sym(interned(e.st.names, c.subj));
    let e1 = with_symbol(e, c.subj);
    let p = Value::Sym(interned(e1.st.names, c.pred));
    let e2 = with_symbol(e1, c.pred);
    let o = Value::Sym(interned(e2.st.names, c.obj));
    let e3 = with_symbol(e2, c.obj);
    let open = open_edges(e3, s, p);
    let ann = ann_from(c.confidence, source);
    let r = applied(e, c, source, rep).0;
    let e4 = with_closed(e3, open, 0);
    lemma_closed_names(e3, open, 0);
    assert(r.st.names == e3.st.names);
    lemma_symbol_grows(e.st.names, c.subj);
    lemma_symbol_grows(e1.st.names, c.pred);
    lemma_symbol_grows(e2.st.names, c.obj);
    lemma_three_symbols(e, c.subj, c.pred, c.obj);
    lemma_open_known(e3, s, p);
    lemma_closed_in_order(e3, open, 0);
    assert(known_key(e3.st.names, new_edge(e3, s, p, o)));
    assert(known_key(e4.st.names, new_edge(e4, s, p, o)));
    declaring_keeps_order(e3, ("edge"@, new_edge(e3, s, p, o)), ann);
    declaring_keeps_order(e4, ("edge"@, new_edge(e4, s, p, o)), ann);
    if let Some(i) = edge_to(open, o, 0) {
        lemma_edge_to(open, o, 0);
        assert(known_key(e3.st.names, open[i]));
        declaring_keeps_order(e3, ("edge"@, open[i]), ann);
    }
}

proof fn lemma_edge_to(open: Seq<Seq<Value>>, o: Value, i: int)
    requires
        0 <= i,
        edge_to(open, o, i) is Some,
    ensures
        i <= edge_to(open, o, i)->Some_0 < open.len(),
    decreases open.len() - i,
{
    if i < open.len() && open[i][2] != o {
        lemma_edge_to(open, o, i + 1);
    }
}

proof fn lemma_closed_names(e: EngineV, open: Seq<Seq<Value>>, i: int)
    ensures
        with_closed(e, open, i).st.names == e.st.names,
    decreases open.len() - i,
{
    if 0 <= i < open.len() {
        let gone = EngineV { st: store_retract(e.st, ("edge"@, open[i])), ..e };
        lemma_closed_names(
            with_edge(gone, open[i].update(4, Value::Int(e.now)), ann_from(NINE_TENTHS, "superseded"@)),
            open,
            i + 1,
        );
    }
}

proof fn lemma_applied_names(e: EngineV, cs: Seq<CandV>, source: Seq<char>, rep: ReportV, i: int)
    ensures
        e.st.names.len() <= applied_all(e, cs, source, rep, i).0.st.names.len(),
    decreases cs.len() - i,
{
    if 0 <= i < cs.len() {
        let c = cs[i];
        let r = applied(e, c, source, rep);
        let e1 = with_symbol(e, c.subj);
        let e2 = with_symbol(e1, c.pred);
        let e3 = with_symbol(e2, c.obj);
        let s = Value::Sym(interned(e.st.names, c.subj));
        let p = Value::Sym(interned(e1.st.names, c.pred));
        lemma_closed_names(e3, open_edges(e3, s, p), 0);
        lemma_applied_names(r.0, cs, source, r.1, i + 1);
    }
}

proof fn lemma_applied_in_order(e: EngineV, cs: Seq<CandV>, source: Seq<char>, rep: ReportV, i: int)
    requires
        in_order(e),
        applied_all(e, cs, source, rep, i).0.st.names.len() < usize::MAX,
    ensures
        in_order(applied_all(e, cs, source, rep, i).0),
    decreases cs.len() - i,
{
    if 0 <= i < cs.len() {
        let r = applied(e, cs[i], source, rep);
        lemma_applied_names(r.0, cs, source, r.1, i + 1);
        applying_keeps_order(e, cs[i], source, rep);
        lemma_applied_in_order(r.0, cs, source, r.1, i + 1);
    }
}

/// Law: a new memory is in order.
pub proof fn fresh_in_order(extra: Seq<char>)
    requires
        fresh_engine(extra) is Ok,
    ensures
        in_order(fresh_engine(extra)->Ok_0),
{
    let e = fresh_engine(extra)->Ok_0;
    assert(e.st == engine_new().st);
    lemma_in_order(e);
}

/// Law: ingesting an episode keeps a memory in order.
pub proof fn ingesting_keeps_order(m: MemoryV, ep: EpisodeV, facts: Seq<CandV>)
    requires
        in_order(m.engine),
        ingested(m, ep, facts).0.engine.st.names.len() < usize::MAX,
    ensures
        in_order(ingested(m, ep, facts).0.engine),
{
    lemma_applied_in_order(m.engine, facts, ep.id, crate::policy::report_new(), 0);
}

/// Law: maintenance keeps a memory in order.
pub proof fn maintaining_keeps_order(m: MemoryV, now: i64)
    requires
        in_order(m.engine),
        m.engine.clauses.len() <= usize::MAX,
        maintained(m, now).0.engine.st.names.len() < usize::MAX,
    ensures
        in_order(maintained(m, now).0.engine),
{
    let e = EngineV { now, ..m.engine };
    lemma_in_order(m.engine);
    lemma_in_order(e);
    running_keeps_order(e);
}

/// Law: installing and uninstalling rules keep a memory in order.
pub proof fn programs_keep_order(m: MemoryV, src: Seq<char>, id: Seq<char>)
    requires
        in_order(m.engine),
    ensures
        rules_installed(m, src) is Ok ==> in_order(rules_installed(m, src)->Ok_0.0.engine),
        in_order(rules_uninstalled(m, id).engine),
{
    lemma_in_order(m.engine);
    lemma_in_order(rules_uninstalled(m, id).engine);
    if rules_installed(m, src) is Ok {
        lemma_in_order(rules_installed(m, src)->Ok_0.0.engine);
    }
}

/// Law: asserting an alias keeps the facts in order.
pub proof fn aliasing_keeps_order(e: EngineV, local: Seq<char>, canonical: Seq<char>, conf: u64)
    requires
        in_order(e),
        with_alias(e, local, canonical, conf).st.names.len() < usize::MAX,
    ensures
        in_order(with_alias(e, local, canonical, conf)),
{
    let l = Value::Sym(interned(e.st.names, local));
    let e1 = with_symbol(e, local);
    let c = Value::Sym(interned(e1.st.names, canonical));
    let e2 = with_symbol(e1, canonical);
    lemma_symbol_grows(e.st.names, local);
    lemma_symbol_grows(e1.st.names, canonical);
    naming_keeps_order(e, local);
    naming_keeps_order(e1, canonical);
    assert(known_key(e2.st.names, seq![l, c]));
    declaring_keeps_order(e2, ("alias"@, seq![l, c]), ann_from(conf, "reconcile"@));
}

proof fn lemma_seeded_names(e: EngineV, names: Seq<Seq<char>>, i: int)
    ensures
        e.st.names.len() <= seeded(e, names, i).0.st.names.len(),
    decreases names.len() - i,
{
    if 0 <= i < names.len() {
        let k = ("entity"@, seq![Value::Sym(interned(e.st.names, names[i]))]);
        let e1 = with_symbol(e, names[i]);
        lemma_seeded_names(EngineV { st: declared(e1.st, k, ann_unit()), ..e1 }, names, i + 1);
    }
}

/// Law: declaring names to be entities keeps the facts in order.
pub proof fn seeding_keeps_order(e: EngineV, names: Seq<Seq<char>>, i: int)
    requires
        in_order(e),
        seeded(e, names, i).0.st.names.len() < usize::MAX,
    ensures
        in_order(seeded(e, names, i).0),
    decreases names.len() - i,
{
    if 0 <= i < names.len() {
        let x = Value::Sym(interned(e.st.names, names[i]));
        let k = ("entity"@, seq![x]);
        let e1 = with_symbol(e, names[i]);
        let next = EngineV { st: declared(e1.st, k, ann_unit()), ..e1 };
        lemma_seeded_names(next, names, i + 1);
        naming_keeps_order(e, names[i]);
        assert(known_key(e1.st.names, seq![x]));
        declaring_keeps_order(e1, k, ann_unit());
        seeding_keeps_order(next, names, i + 1);
    }
}

/// Law: a demand-driven query keeps the facts in order.
pub proof fn asking_keeps_order(e: EngineV, goal: AtomV)
    requires
        in_order(e),
        demand_program(e, goal.pred).len() <= usize::MAX,
        after_demand(e, goal).st.names.len() < usize::MAX,
    ensures
        in_order(after_demand(e, goal)),
{
    if !crate::demand::is_plain(e, goal) {
        let d = EngineV {
            st: StoreV { retracted: Set::empty(), ..e.st },
            clauses: demand_program(e, goal.pred),
            dirty: true,
            ever: Set::empty(),
            mark: e.st.log.len() as int,
            ..e
        };
        let r = after_demand(e, goal);
        lemma_in_order(e);
        lemma_in_order(d);
        running_keeps_order(d);
        lemma_ran_names(d);
        lemma_same_intact(e.st, r.st);
        lemma_in_order(r);
    }
}

proof fn lemma_clear_names(st: StoreV, ps: Seq<Seq<char>>)
    ensures
        clear_each(st, ps).names == st.names,
    decreases ps.len(),
{
    if ps.len() > 0 {
        lemma_clear_names(store_clear(st, ps[0]), ps.drop_first());
    }
}

/// A run only adds names.
proof fn lemma_ran_names(e: EngineV)
    requires
        rels_wf(e.st.rels),
        e.clauses.len() <= usize::MAX,
    ensures
        e.st.names.is_prefix_of(ran(e).0.st.names),
        rels_wf(ran(e).0.st.rels),
{
    let cs = e.clauses;
    let strata = strata_of(cs);
    let p = prepared(e).st;
    let ok = strata_error(cs) is None;
    let st1 = if e.dirty && ok {
        rebuilt(e.st, cs, strata, e.ever)
    } else {
        e.st
    };
    assert(rels_wf(st1.rels) && st1.names == e.st.names) by {
        if e.dirty && ok {
            let all = Set::new(|p: Seq<char>| e.ever.contains(p) || crate::recompute::in_heads(cs, strata, p));
            let c = clear_each(e.st, enumerate::<String>(all));
            crate::runs::lemma_clear_retracts_none(e.st, enumerate::<String>(all));
            lemma_clear_names(e.st, enumerate::<String>(all));
            assert forall|n: Seq<char>| #[trigger] st1.rels.contains_key(n) implies crate::relation::rel_wf(st1.rels[n]) by {
                assert(c.rels.contains_key(n));
            }
        }
    }
    crate::runs::lemma_declare_grows(st1, cs, 0);
    if ok {
        let f = eval_strata(p, e.now, cs, strata, 0).st;
        strata_exist(cs);
        lemma_strata_fit(cs, strata);
        assert(writes_in(cs, anything()));
        lemma_strata_touches(p, e.now, cs, strata, 0, anything());
        lemma_invalidate_touches(f, e.now, cs, strata, e.mark, strata.len() + 2, anything());
        lemma_prefix_trans(p.names, f.names, ran(e).0.st.names);
        lemma_prefix_trans(e.st.names, p.names, ran(e).0.st.names);
        crate::runs::run_consumes(e);
    }
}

proof fn lemma_edges_grow(e: EngineV, cs: Seq<CandV>, i: int)
    ensures
        e.st.names.is_prefix_of(edges_for(e, cs, i).0.st.names),
        edges_for(e, cs, i).0.st.rels == e.st.rels,
        edges_for(e, cs, i).0.clauses == e.clauses,
    decreases cs.len() - i,
{
    if 0 <= i < cs.len() {
        let e1 = with_symbol(e, cs[i].subj);
        let e2 = with_symbol(e1, cs[i].pred);
        let e3 = with_symbol(e2, cs[i].obj);
        let f = edges_for(e, cs, i).0;
        lemma_symbol_grows(e.st.names, cs[i].subj);
        lemma_symbol_grows(e1.st.names, cs[i].pred);
        lemma_symbol_grows(e2.st.names, cs[i].obj);
        lemma_edges_grow(e3, cs, i + 1);
        lemma_prefix_trans(e2.st.names, e3.st.names, f.st.names);
        lemma_prefix_trans(e1.st.names, e2.st.names, f.st.names);
        lemma_prefix_trans(e.st.names, e1.st.names, f.st.names);
    } else {
        assert(e.st.names =~= e.st.names.subrange(0, e.st.names.len() as int));
    }
}

proof fn lemma_edges_in_order(e: EngineV, cs: Seq<CandV>, i: int)
    requires
        in_order(e),
        edges_for(e, cs, i).0.st.names.len() < usize::MAX,
    ensures
        in_order(edges_for(e, cs, i).0),
        forall|j: int|
            0 <= j < edges_for(e, cs, i).1.len() ==> known_key(edges_for(e, cs, i).0.st.names, (#[trigger] edges_for(e, cs, i).1[j]).1),
    decreases cs.len() - i,
{
    if 0 <= i < cs.len() {
        let s = Value::Sym(interned(e.st.names, cs[i].subj));
        let e1 = with_symbol(e, cs[i].subj);
        let p = Value::Sym(interned(e1.st.names, cs[i].pred));
        let e2 = with_symbol(e1, cs[i].pred);
        let o = Value::Sym(interned(e2.st.names, cs[i].obj));
        let e3 = with_symbol(e2, cs[i].obj);
        let rest = edges_for(e3, cs, i + 1);
        let f = edges_for(e, cs, i);
        lemma_edges_grow(e3, cs, i + 1);
        lemma_three_symbols(e, cs[i].subj, cs[i].pred, cs[i].obj);
        lemma_edges_in_order(e3, cs, i + 1);
        let k = new_edge(e, s, p, o);
        assert(known_key(e3.st.names, k));
        lemma_known_grows(e3.st.names, rest.0.st.names, k);
        assert forall|j: int| 0 <= j < f.1.len() implies known_key(f.0.st.names, (#[trigger] f.1[j]).1) by {
            if j > 0 {
                assert(f.1[j] == rest.1[j - 1]);
            }
        }
    }
}

proof fn lemma_assumed_wf(st: StoreV, extra: Seq<KeyV>, i: int)
    requires
        rels_wf(st.rels),
    ensures
        rels_wf(assumed(st, extra, i).rels),
        assumed(st, extra, i).names == st.names,
    decreases extra.len() - i,
{
    if 0 <= i < extra.len() {
        lemma_store_assert(st, extra[i], FactV { ann: ann_unit(), supports: seq![SupportV::Base] });
        lemma_assumed_wf(declared(st, extra[i], ann_unit()), extra, i + 1);
    }
}

proof fn lemma_assumed_in_order(e: EngineV, extra: Seq<KeyV>, i: int)
    requires
        in_order(e),
        forall|j: int| 0 <= j < extra.len() ==> known_key(e.st.names, (#[trigger] extra[j]).1),
    ensures
        in_order(EngineV { st: assumed(e.st, extra, i), ..e }),
    decreases extra.len() - i,
{
    if 0 <= i < extra.len() {
        let next = EngineV { st: declared(e.st, extra[i], ann_unit()), ..e };
        declaring_keeps_order(e, extra[i], ann_unit());
        lemma_assumed_in_order(next, extra, i + 1);
    }
}

/// Law: supposing facts keeps the facts in order.
pub proof fn supposing_keeps_order(e: EngineV, cs: Seq<CandV>, goal: Seq<char>)
    requires
        in_order(e),
        e.clauses.len() <= usize::MAX,
        supposed(e, cs, goal) is Ok,
        supposed(e, cs, goal)->Ok_0.0.st.names.len() < usize::MAX,
    ensures
        in_order(supposed(e, cs, goal)->Ok_0.0),
{
    let x = edges_for(e, cs, 0);
    let base = ran(x.0).0;
    let with = EngineV { st: assumed(base.st, x.1, 0), ..base };
    let r = ran(with).0;
    let done = supposed(e, cs, goal)->Ok_0.0;
    lemma_edges_grow(e, cs, 0);
    lemma_ran_names(x.0);
    lemma_assumed_wf(base.st, x.1, 0);
    lemma_ran_names(with);
    lemma_prefix_trans(x.0.st.names, base.st.names, r.st.names);
    lemma_edges_in_order(e, cs, 0);
    running_keeps_order(x.0);
    assert forall|j: int| 0 <= j < x.1.len() implies known_key(base.st.names, (#[trigger] x.1[j]).1) by {
        lemma_known_grows(x.0.st.names, base.st.names, x.1[j].1);
    }
    lemma_assumed_in_order(base, x.1, 0);
    running_keeps_order(with);
    lemma_in_order(x.0);
    lemma_in_order(r);
    lemma_same_intact(x.0.st, done.st);
    lemma_in_order(done);
}

pub proof fn lemma_aliases_names(e: EngineV, fs: Seq<CandV>, i: int)
    ensures
        e.st.names.len() <= with_aliases(e, fs, i).0.st.names.len(),
    decreases fs.len() - i,
{
    if 0 <= i < fs.len() {
        if fs[i].pred == "alias_of"@ {
            lemma_aliases_names(with_alias(e, fs[i].subj, fs[i].obj, fs[i].confidence), fs, i + 1);
        } else {
            lemma_aliases_names(e, fs, i + 1);
        }
    }
}

/// Law: asserting the aliases among facts keeps the facts in order.
pub proof fn aliases_keep_order(e: EngineV, fs: Seq<CandV>, i: int)
    requires
        in_order(e),
        with_aliases(e, fs, i).0.st.names.len() < usize::MAX,
    ensures
        in_order(with_aliases(e, fs, i).0),
    decreases fs.len() - i,
{
    if 0 <= i < fs.len() {
        if fs[i].pred == "alias_of"@ {
            let next = with_alias(e, fs[i].subj, fs[i].obj, fs[i].confidence);
            lemma_aliases_names(next, fs, i + 1);
            aliasing_keeps_order(e, fs[i].subj, fs[i].obj, fs[i].confidence);
            aliases_keep_order(next, fs, i + 1);
        } else {
            aliases_keep_order(e, fs, i + 1);
        }
    }
}

/// Law: installing canonicalization keeps the facts in order.
pub proof fn canonicalizing_keeps_order(e: EngineV, preds: Seq<Seq<char>>)
    requires
        in_order(e),
        canonicalized(e, preds).0.st.names.len() < usize::MAX,
    ensures
        in_order(canonicalized(e, preds).0),
{
    if let Ok(e1) = installed(e, CANONICAL_RULES@) {
        let names = names_in(e1, preds, 0, Seq::empty());
        let e2 = seeded(e1, names, 0).0;
        lemma_in_order(e);
        lemma_in_order(e1);
        lemma_in_order(e2);
        lemma_in_order(canonicalized(e, preds).0);
        seeding_keeps_order(e1, names, 0);
    }
}

proof fn lemma_resolved_in_order(e: EngineV, args: Seq<ArgV>, i: int, acc: Seq<Value>)
    requires
        in_order(e),
        known_key(e.st.names, acc),
        resolved(e, args, i, acc).0.st.names.len() < usize::MAX,
    ensures
        in_order(resolved(e, args, i, acc).0),
        known_key(resolved(e, args, i, acc).0.st.names, resolved(e, args, i, acc).1),
    decreases args.len() - i,
{
    if 0 <= i < args.len() {
        match args[i] {
            ArgV::S(name) => {
                let x = Value::Sym(interned(e.st.names, name));
                let e1 = with_symbol(e, name);
                lemma_resolved_prefix(e1, args, i + 1, acc.push(x));
                lemma_symbol_grows(e.st.names, name);
                naming_keeps_order(e, name);
                lemma_known_grows(e.st.names, e1.st.names, acc);
                lemma_resolved_in_order(e1, args, i + 1, acc.push(x));
            },
            ArgV::I(n) => lemma_resolved_in_order(e, args, i + 1, acc.push(Value::Int(n))),
        }
    }
}

proof fn lemma_records_names(e: EngineV, fs: Seq<FactRecordV>, i: int)
    ensures
        e.st.names.len() <= with_records(e, fs, i).st.names.len(),
    decreases fs.len() - i,
{
    if 0 <= i < fs.len() {
        lemma_resolved_prefix(e, fs[i].args, 0, Seq::empty());
        lemma_records_names(with_record(e, fs[i]), fs, i + 1);
    }
}

proof fn lemma_records_in_order(e: EngineV, fs: Seq<FactRecordV>, i: int)
    requires
        in_order(e),
        with_records(e, fs, i).st.names.len() < usize::MAX,
    ensures
        in_order(with_records(e, fs, i)),
    decreases fs.len() - i,
{
    if 0 <= i < fs.len() {
        let f = fs[i];
        let r = resolved(e, f.args, 0, Seq::empty());
        let ann = AnnV { conf: clamp(f.conf), prov: f.prov.to_set() };
        lemma_records_names(with_record(e, f), fs, i + 1);
        lemma_resolved_in_order(e, f.args, 0, Seq::empty());
        vstd::seq_lib::seq_to_set_is_finite(f.prov);
        declaring_keeps_order(r.0, (f.pred, r.1), ann);
        lemma_records_in_order(with_record(e, f), fs, i + 1);
    }
}

/// Law: a memory that was loaded is in order, whatever the text held.
pub proof fn loading_gives_order(text: Seq<char>)
    requires
        loaded(text) is Ok,
        loaded(text)->Ok_0.engine.clauses.len() <= usize::MAX,
        loaded(text)->Ok_0.engine.st.names.len() < usize::MAX,
    ensures
        in_order(loaded(text)->Ok_0.engine),
{
    let s = snapshot_read(text)->Ok_0;
    let e0 = fresh_engine(s.rules)->Ok_0;
    let m = with_rules(s)->Ok_0;
    let e1 = with_records(m.engine, s.facts, 0);
    let e2 = EngineV { now: s.now, ..e1 };
    crate::restore::lemma_batches_store(memory_of(e0, s.rules), s.batches, 0);
    fresh_in_order(s.rules);
    lemma_in_order(e0);
    lemma_in_order(m.engine);
    lemma_records_wf(m.engine, s.facts, 0);
    lemma_ran_names(e2);
    lemma_records_in_order(m.engine, s.facts, 0);
    lemma_in_order(e1);
    lemma_in_order(e2);
    running_keeps_order(e2);
}

proof fn lemma_records_wf(e: EngineV, fs: Seq<FactRecordV>, i: int)
    requires
        rels_wf(e.st.rels),
    ensures
        rels_wf(with_records(e, fs, i).st.rels),
        with_records(e, fs, i).clauses == e.clauses,
    decreases fs.len() - i,
{
    if 0 <= i < fs.len() {
        let f = fs[i];
        let r = resolved(e, f.args, 0, Seq::empty());
        lemma_resolved_store(e, f.args, 0, Seq::empty());
        lemma_store_assert(
            r.0.st,
            (f.pred, r.1),
            FactV { ann: AnnV { conf: clamp(f.conf), prov: f.prov.to_set() }, supports: seq![SupportV::Base] },
        );
        lemma_records_wf(with_record(e, f), fs, i + 1);
    }
}

proof fn lemma_resolved_store(e: EngineV, args: Seq<ArgV>, i: int, acc: Seq<Value>)
    ensures
        resolved(e, args, i, acc).0.st.rels == e.st.rels,
        resolved(e, args, i, acc).0.clauses == e.clauses,
    decreases args.len() - i,
{
    if 0 <= i < args.len() {
        match args[i] {
            ArgV::S(name) => lemma_resolved_store(
                with_symbol(e, name),
                args,
                i + 1,
                acc.push(Value::Sym(interned(e.st.names, name))),
            ),
            ArgV::I(n) => lemma_resolved_store(e, args, i + 1, acc.push(Value::Int(n))),
        }
    }
}

} // verus!

//! What every operation keeps: a property that the single changes of a store
//! keep is kept by a whole run.

use vstd::prelude::*;
use crate::ast::{ClauseV, TermV};
use crate::engine::{declare_facts, declared, engine_new, eval_strata, invalidate, prepared, ran, stale_readers, EngineV};
use crate::env::{Bindings, EnvV};
use crate::evaluate::{
    agg_fns, eval_stratum_of, fixpoint, fold_clause, fold_group, fold_groups, fold_label, fold_stratum, fold_values, group_len,
    group_rows, groups, matching, pending_delta, prefix_pattern, retract_others, row_keys, settles, stratum_rules, temp_name,
};
use crate::model::{kept_by, lasting, lemma_rounds_keeps};
use crate::recompute::{
    clear_each, in_heads, rebuilt, rels_seed_set, scope_here, scope_pass, scope_passes, scope_seeds, scope_start, scope_step, scoped,
    stated_in, ScopeV,
};
use crate::relation::{
    add_supports, ann_unit, has_key, key_set, lemma_empty_wf, lemma_remove_wf, rel_insert, rel_remove, rel_wf, row_of, AnnV, FactV,
    KeyV, RelV, SUPPORT_CAP, SupportV,
};
use crate::solve::{emit, head_values, lemma_store_assert, rule_label};
use crate::sorted_set::enumerate;
use crate::store::{rel_at, rels_seed_all, rels_settled, rels_wf, store_assert, store_clear, store_retract, RelsV, StoreV};
use crate::stratify::{aggregates, strata_error, strata_of};
use crate::value::Value;

verus! {

/// The same relations, with some facts pending that were not, or no longer.
pub open spec fn reseeded(a: RelsV, b: RelsV) -> bool {
    &&& a.dom() == b.dom()
    &&& forall|n: Seq<char>| #[trigger]
        a.contains_key(n) ==> b[n].rows == a[n].rows && b[n].idx == a[n].idx && b[n].pending.subset_of(
            a[n].pending.union(key_set(a[n])),
        )
}

pub open spec fn with_names(st: StoreV, names: Seq<Seq<char>>) -> StoreV {
    StoreV { names, ..st }
}

pub open spec fn with_rels(st: StoreV, rels: RelsV) -> StoreV {
    StoreV { rels, ..st }
}

pub open spec fn with_retracted(st: StoreV, retracted: Set<Seq<char>>) -> StoreV {
    StoreV { retracted, ..st }
}

/// Any arguments.
pub open spec fn any_args() -> spec_fn(Seq<TermV>) -> bool {
    |args: Seq<TermV>| true
}

/// The single changes that deriving makes to a store keep the property:
/// interning the constants of a head with such arguments, asserting a fact
/// with a support, and retracting one.
pub open spec fn outlasts_for(p: spec_fn(StoreV) -> bool, hs: spec_fn(Seq<TermV>) -> bool) -> bool {
    &&& forall|st: StoreV, args: Seq<TermV>, map: Bindings|
        p(st) && hs(args) ==> #[trigger] p(with_names(st, head_values(st.names, args, map).0))
    &&& forall|st: StoreV, k: KeyV, f: FactV| p(st) && f.supports.len() == 1 ==> #[trigger] p(store_assert(st, k, f))
    &&& forall|st: StoreV, k: KeyV| p(st) ==> #[trigger] p(store_retract(st, k))
}

/// The single changes that deriving makes to a store keep the property,
/// whatever the heads.
pub open spec fn outlasts(p: spec_fn(StoreV) -> bool) -> bool {
    outlasts_for(p, any_args())
}

/// The single changes of a store keep the property: those of deriving, and
/// clearing, and marking facts pending or not.
pub open spec fn upheld_for(p: spec_fn(StoreV) -> bool, hs: spec_fn(Seq<TermV>) -> bool) -> bool {
    &&& outlasts_for(p, hs)
    &&& forall|st: StoreV, n: Seq<char>| p(st) ==> #[trigger] p(store_clear(st, n))
    &&& forall|st: StoreV, rels: RelsV| p(st) && reseeded(st.rels, rels) ==> #[trigger] p(with_rels(st, rels))
    &&& forall|st: StoreV, r: Set<Seq<char>>| p(st) ==> #[trigger] p(with_retracted(st, r))
}

/// The single changes of a store keep the property, whatever the heads.
pub open spec fn upheld(p: spec_fn(StoreV) -> bool) -> bool {
    upheld_for(p, any_args())
}

/// The heads of clauses have such arguments.
pub open spec fn heads_have(cs: Seq<ClauseV>, hs: spec_fn(Seq<TermV>) -> bool) -> bool {
    forall|i: int| 0 <= i < cs.len() ==> hs((#[trigger] cs[i]).head.args)
}

/// The heads of the rules of strata have such arguments.
pub open spec fn strata_have(cs: Seq<ClauseV>, strata: Seq<Seq<int>>, hs: spec_fn(Seq<TermV>) -> bool) -> bool {
    forall|s: int| 0 <= s < strata.len() ==> heads_have(stratum_rules(cs, #[trigger] strata[s]), hs)
}

proof fn lemma_upheld_lasting(p: spec_fn(StoreV) -> bool, hs: spec_fn(Seq<TermV>) -> bool, cs: Seq<ClauseV>)
    requires
        outlasts_for(p, hs),
        heads_have(cs, hs),
    ensures
        lasting(p, cs),
{
    assert forall|i: int| 0 <= i < cs.len() implies kept_by(p, #[trigger] cs[i]) by {
        lemma_upheld_kept(p, hs, cs[i]);
    }
}

proof fn lemma_upheld_kept(p: spec_fn(StoreV) -> bool, hs: spec_fn(Seq<TermV>) -> bool, c: ClauseV)
    requires
        outlasts_for(p, hs),
        hs(c.head.args),
    ensures
        kept_by(p, c),
{
    assert forall|st: StoreV, env: EnvV| p(st) implies #[trigger] p(emit(st, c, env).0) by {
        let h = head_values(st.names, c.head.args, env.map);
        let st1 = with_names(st, h.0);
        assert(p(st1));
        if let Some(args) = h.1 {
            let f = FactV { ann: env.ann, supports: seq![SupportV::Rule { rule: rule_label(c), body: env.keys }] };
            assert(p(store_assert(st1, (c.head.pred, args), f)));
        }
    }
}

// ------------------------------------------------------------------ deriving

proof fn lemma_retract_others_keeps(
    p: spec_fn(StoreV) -> bool,
    hs: spec_fn(Seq<TermV>) -> bool,
    st: StoreV,
    n: Seq<char>,
    olds: Seq<Seq<Value>>,
    keep: Seq<Value>,
)
    requires
        outlasts_for(p, hs),
        p(st),
    ensures
        p(retract_others(st, n, olds, keep).st),
    decreases olds.len(),
{
    if olds.len() > 0 {
        if olds[0] != keep {
            assert(p(store_retract(st, (n, olds[0]))));
            lemma_retract_others_keeps(p, hs, store_retract(st, (n, olds[0])), n, olds.drop_first(), keep);
        } else {
            lemma_retract_others_keeps(p, hs, st, n, olds.drop_first(), keep);
        }
    }
}

proof fn lemma_fold_groups_keeps(
    p: spec_fn(StoreV) -> bool,
    hs: spec_fn(Seq<TermV>) -> bool,
    st: StoreV,
    c: ClauseV,
    temp: Seq<char>,
    keys: Seq<Seq<Value>>,
    gs: Seq<Seq<Value>>,
)
    requires
        outlasts_for(p, hs),
        p(st),
    ensures
        p(fold_groups(st, c, temp, keys, gs).st),
    decreases gs.len(),
{
    if gs.len() > 0 {
        let g = gs[0];
        let rows = group_rows(keys, group_len(c.head.args) as int, g);
        let fns = agg_fns(c.head.args);
        let out = g + fold_values(fns, rows);
        let olds = matching(st.rels, c.head.pred, prefix_pattern(g, fns.len()));
        lemma_retract_others_keeps(p, hs, st, c.head.pred, olds, out);
        let r = retract_others(st, c.head.pred, olds, out).st;
        let support = SupportV::Rule { rule: fold_label(c), body: seq![(temp, g + rows[0])] };
        let f = FactV { ann: ann_unit(), supports: seq![support] };
        assert(p(store_assert(r, (c.head.pred, out), f)));
        assert(p(fold_group(st, c, temp, g, rows).st));
        lemma_fold_groups_keeps(p, hs, fold_group(st, c, temp, g, rows).st, c, temp, keys, gs.drop_first());
    }
}

proof fn lemma_fold_stratum_keeps(p: spec_fn(StoreV) -> bool, hs: spec_fn(Seq<TermV>) -> bool, st: StoreV, cs: Seq<ClauseV>, idx: Seq<int>, i: int)
    requires
        outlasts_for(p, hs),
        p(st),
    ensures
        p(fold_stratum(st, cs, idx, i)),
    decreases idx.len() - i,
{
    if 0 <= i < idx.len() {
        let c = cs[idx[i]];
        if aggregates(c) {
            let temp = temp_name(c, idx[i]);
            if st.rels.contains_key(temp) {
                let keys = row_keys(st.rels[temp]);
                let gs = enumerate::<Vec<Value>>(groups(keys, group_len(c.head.args) as int));
                lemma_fold_groups_keeps(p, hs, st, c, temp, keys, gs);
            }
            lemma_fold_stratum_keeps(p, hs, fold_clause(st, c, idx[i]).st, cs, idx, i + 1);
        } else {
            lemma_fold_stratum_keeps(p, hs, st, cs, idx, i + 1);
        }
    }
}

/// Evaluating a stratum keeps the property.
pub proof fn lemma_stratum_keeps_for(p: spec_fn(StoreV) -> bool, hs: spec_fn(Seq<TermV>) -> bool, st: StoreV, now: i64, cs: Seq<ClauseV>, idx: Seq<int>)
    requires
        outlasts_for(p, hs),
        heads_have(stratum_rules(cs, idx), hs),
        p(st),
    ensures
        p(eval_stratum_of(st, now, cs, idx).st),
{
    let rules = stratum_rules(cs, idx);
    let delta = pending_delta(st.rels);
    lemma_upheld_lasting(p, hs, rules);
    lemma_rounds_keeps(p, st, now, rules, delta, choose|n: nat| settles(st, now, rules, delta, n));
    lemma_fold_stratum_keeps(p, hs, fixpoint(st, now, rules, delta).st, cs, idx, 0);
}

pub proof fn lemma_strata_keeps_for(p: spec_fn(StoreV) -> bool, hs: spec_fn(Seq<TermV>) -> bool, st: StoreV, now: i64, cs: Seq<ClauseV>, strata: Seq<Seq<int>>, s: int)
    requires
        outlasts_for(p, hs),
        strata_have(cs, strata, hs),
        0 <= s,
        p(st),
    ensures
        p(eval_strata(st, now, cs, strata, s).st),
    decreases strata.len() - s,
{
    if 0 <= s < strata.len() {
        lemma_stratum_keeps_for(p, hs, st, now, cs, strata[s]);
        lemma_strata_keeps_for(p, hs, eval_stratum_of(st, now, cs, strata[s]).st, now, cs, strata, s + 1);
    }
}

/// Evaluating a stratum keeps the property.
pub proof fn lemma_stratum_keeps(p: spec_fn(StoreV) -> bool, st: StoreV, now: i64, cs: Seq<ClauseV>, idx: Seq<int>)
    requires
        outlasts(p),
        p(st),
    ensures
        p(eval_stratum_of(st, now, cs, idx).st),
{
    lemma_stratum_keeps_for(p, any_args(), st, now, cs, idx);
}

/// Evaluating the strata keeps the property.
pub proof fn lemma_strata_keeps(p: spec_fn(StoreV) -> bool, st: StoreV, now: i64, cs: Seq<ClauseV>, strata: Seq<Seq<int>>)
    requires
        outlasts(p),
        p(st),
    ensures
        p(eval_strata(st, now, cs, strata, 0).st),
{
    lemma_strata_keeps_for(p, any_args(), st, now, cs, strata, 0);
}

// --------------------------------------------------------------- recomputing

proof fn lemma_clear_each_keeps(p: spec_fn(StoreV) -> bool, hs: spec_fn(Seq<TermV>) -> bool, st: StoreV, ps: Seq<Seq<char>>)
    requires
        upheld_for(p, hs),
        p(st),
    ensures
        p(clear_each(st, ps)),
    decreases ps.len(),
{
    if ps.len() > 0 {
        assert(p(store_clear(st, ps[0])));
        lemma_clear_each_keeps(p, hs, store_clear(st, ps[0]), ps.drop_first());
    }
}

proof fn lemma_step_keeps(
    p: spec_fn(StoreV) -> bool,
    hs: spec_fn(Seq<TermV>) -> bool,
    sc: ScopeV,
    now: i64,
    cs: Seq<ClauseV>,
    strata: Seq<Seq<int>>,
    stratum: Seq<int>,
)
    requires
        upheld_for(p, hs),
        heads_have(stratum_rules(cs, stratum), hs),
        heads_have(cs, hs),
        p(sc.st),
    ensures
        p(scope_step(sc, now, cs, strata, stratum).st),
{
    let here = scope_here(cs, stratum, sc.to_clear);
    if here != Set::<Seq<char>>::empty() {
        let cleared = clear_each(sc.st, enumerate::<String>(here));
        lemma_clear_each_keeps(p, hs, sc.st, enumerate::<String>(here));
        let rels = rels_seed_set(cleared.rels, scope_seeds(cs, here));
        assert(rels.dom() =~= cleared.rels.dom());
        assert(reseeded(cleared.rels, rels));
        assert(p(with_rels(cleared, rels)));
        let stated = stated_in(cs, here);
        assert forall|i: int| 0 <= i < stated.len() implies hs((#[trigger] stated[i]).head.args) by {
            assert(stated[i].head == cs[i].head);
        }
        lemma_declare_keeps(p, hs, with_rels(cleared, rels), stated, 0);
        lemma_stratum_keeps_for(p, hs, declare_facts(with_rels(cleared, rels), stated, 0), now, cs, stratum);
    }
}

proof fn lemma_pass_keeps(p: spec_fn(StoreV) -> bool, hs: spec_fn(Seq<TermV>) -> bool, sc: ScopeV, now: i64, cs: Seq<ClauseV>, strata: Seq<Seq<int>>, s: int)
    requires
        upheld_for(p, hs),
        strata_have(cs, strata, hs),
        heads_have(cs, hs),
        p(sc.st),
    ensures
        p(scope_pass(sc, now, cs, strata, s).st),
    decreases strata.len() - s,
{
    if 0 <= s < strata.len() {
        lemma_step_keeps(p, hs, sc, now, cs, strata, strata[s]);
        lemma_pass_keeps(p, hs, scope_step(sc, now, cs, strata, strata[s]), now, cs, strata, s + 1);
    }
}

proof fn lemma_passes_keeps(p: spec_fn(StoreV) -> bool, hs: spec_fn(Seq<TermV>) -> bool, sc: ScopeV, now: i64, cs: Seq<ClauseV>, strata: Seq<Seq<int>>, n: nat)
    requires
        upheld_for(p, hs),
        strata_have(cs, strata, hs),
        heads_have(cs, hs),
        p(sc.st),
    ensures
        p(scope_passes(sc, now, cs, strata, n).st),
    decreases n,
{
    if !(n == 0 || sc.to_clear == Set::<Seq<char>>::empty()) {
        lemma_pass_keeps(p, hs, sc, now, cs, strata, 0);
        lemma_passes_keeps(p, hs, scope_pass(sc, now, cs, strata, 0), now, cs, strata, (n - 1) as nat);
    }
}

/// The passes of a recomputation keep the property.
pub proof fn lemma_scope_keeps(p: spec_fn(StoreV) -> bool, sc: ScopeV, now: i64, cs: Seq<ClauseV>, strata: Seq<Seq<int>>, n: nat)
    requires
        upheld(p),
        p(sc.st),
    ensures
        p(scope_passes(sc, now, cs, strata, n).st),
{
    lemma_passes_keeps(p, any_args(), sc, now, cs, strata, n);
}

proof fn lemma_invalidate_keeps(
    p: spec_fn(StoreV) -> bool,
    hs: spec_fn(Seq<TermV>) -> bool,
    st: StoreV,
    now: i64,
    cs: Seq<ClauseV>,
    strata: Seq<Seq<int>>,
    mark: int,
    n: nat,
)
    requires
        upheld_for(p, hs),
        strata_have(cs, strata, hs),
        heads_have(cs, hs),
        p(st),
    ensures
        p(invalidate(st, now, cs, strata, mark, n).st),
    decreases n,
{
    let extra = stale_readers(st, cs, mark);
    if !(n == 0 || (st.retracted == Set::<Seq<char>>::empty() && extra == Set::<Seq<char>>::empty())) {
        let sc = ScopeV {
            st: with_retracted(st, Set::empty()),
            to_clear: scope_start(cs, strata, st.retracted, extra),
            derived: 0,
            before: Map::empty(),
        };
        lemma_passes_keeps(p, hs, sc, now, cs, strata, strata.len() + 2);
        let r = scoped(st, now, cs, strata, extra);
        lemma_invalidate_keeps(p, hs, r.st, now, cs, strata, mark, (n - 1) as nat);
    }
}

// ------------------------------------------------------------------- running

pub proof fn lemma_declare_keeps(p: spec_fn(StoreV) -> bool, hs: spec_fn(Seq<TermV>) -> bool, st: StoreV, cs: Seq<ClauseV>, i: int)
    requires
        outlasts_for(p, hs),
        heads_have(cs, hs),
        p(st),
    ensures
        p(declare_facts(st, cs, i)),
    decreases cs.len() - i,
{
    if 0 <= i < cs.len() {
        if !cs[i].is_fact {
            lemma_declare_keeps(p, hs, st, cs, i + 1);
        } else {
            let h = head_values(st.names, cs[i].head.args, Map::empty());
            let st1 = with_names(st, h.0);
            assert(p(st1));
            match h.1 {
                Some(args) => {
                    let f = FactV { ann: ann_unit(), supports: seq![SupportV::Base] };
                    assert(p(store_assert(st1, (cs[i].head.pred, args), f)));
                    lemma_declare_keeps(p, hs, declared(st1, (cs[i].head.pred, args), ann_unit()), cs, i + 1);
                },
                None => {
                    lemma_declare_keeps(p, hs, st1, cs, i + 1);
                },
            }
        }
    }
}

/// The store of a run before it is settled.
pub open spec fn invalidated(e: EngineV) -> StoreV {
    let strata = strata_of(e.clauses);
    let ev = eval_strata(prepared(e).st, e.now, e.clauses, strata, 0);
    invalidate(ev.st, e.now, e.clauses, strata, e.mark, strata.len() + 2).st
}

/// The store at the end of a run, before the epoch advances.
pub open spec fn run_end(e: EngineV) -> StoreV {
    if strata_error(e.clauses) is None {
        with_rels(invalidated(e), rels_settled(invalidated(e).rels))
    } else {
        prepared(e).st
    }
}

/// What the single changes of a store keep, given the heads of the program, a
/// run keeps.
pub proof fn lemma_run_keeps_for(p: spec_fn(StoreV) -> bool, hs: spec_fn(Seq<TermV>) -> bool, e: EngineV)
    requires
        upheld_for(p, hs),
        heads_have(e.clauses, hs),
        strata_error(e.clauses) is None ==> strata_have(e.clauses, strata_of(e.clauses), hs),
        p(e.st),
    ensures
        p(run_end(e)),
        strata_error(e.clauses) is None ==> ran(e).0.st == (StoreV {
            epoch: run_end(e).epoch.wrapping_add(1),
            ..run_end(e)
        }),
        strata_error(e.clauses) is Some ==> ran(e).0.st == run_end(e),
{
    let cs = e.clauses;
    let strata = strata_of(cs);
    let ok = strata_error(cs) is None;
    let st1 = if e.dirty && ok {
        rebuilt(e.st, cs, strata, e.ever)
    } else {
        e.st
    };
    assert(p(st1)) by {
        if e.dirty && ok {
            let all = Set::new(|q: Seq<char>| e.ever.contains(q) || in_heads(cs, strata, q));
            let c = clear_each(e.st, enumerate::<String>(all));
            lemma_clear_each_keeps(p, hs, e.st, enumerate::<String>(all));
            let rels = rels_seed_all(c.rels);
            assert(rels.dom() =~= c.rels.dom());
            assert(reseeded(c.rels, rels));
            assert(p(with_rels(c, rels)));
        }
    }
    lemma_declare_keeps(p, hs, st1, cs, 0);
    if ok {
        let pst = prepared(e).st;
        let ev = eval_strata(pst, e.now, cs, strata, 0);
        lemma_strata_keeps_for(p, hs, pst, e.now, cs, strata, 0);
        let inv = invalidate(ev.st, e.now, cs, strata, e.mark, strata.len() + 2);
        lemma_invalidate_keeps(p, hs, ev.st, e.now, cs, strata, e.mark, strata.len() + 2);
        let rels = rels_settled(inv.st.rels);
        assert(rels.dom() =~= inv.st.rels.dom());
        assert(reseeded(inv.st.rels, rels));
        assert(p(with_rels(inv.st, rels)));
    }
}

/// What the single changes of a store keep, a run keeps.
pub proof fn lemma_run_keeps(p: spec_fn(StoreV) -> bool, e: EngineV)
    requires
        upheld(p),
        p(e.st),
    ensures
        p(run_end(e)),
        strata_error(e.clauses) is None ==> ran(e).0.st == (StoreV {
            epoch: run_end(e).epoch.wrapping_add(1),
            ..run_end(e)
        }),
        strata_error(e.clauses) is Some ==> ran(e).0.st == run_end(e),
{
    lemma_run_keeps_for(p, any_args(), e);
}

// ----------------------------------------------------------------- witnesses

/// A relation whose facts have a witness each, and no more than are kept.
pub open spec fn rel_witnessed(r: RelV) -> bool {
    forall|i: int| 0 <= i < r.rows.len() ==> 1 <= (#[trigger] r.rows[i]).fact.supports.len() <= SUPPORT_CAP
}

/// Every fact has a witness, and no more than are kept.
pub open spec fn witnessed() -> spec_fn(StoreV) -> bool {
    |st: StoreV| rels_wf(st.rels) && forall|n: Seq<char>| #[trigger] st.rels.contains_key(n) ==> rel_witnessed(st.rels[n])
}

proof fn lemma_add_supports(have: Seq<SupportV>, more: Seq<SupportV>)
    requires
        have.len() <= SUPPORT_CAP,
    ensures
        have.len() <= add_supports(have, more).len() <= SUPPORT_CAP,
    decreases more.len(),
{
    if !(more.len() == 0 || have.len() >= SUPPORT_CAP) {
        if have.contains(more[0]) {
            lemma_add_supports(have, more.drop_first());
        } else {
            lemma_add_supports(have.push(more[0]), more.drop_first());
        }
    }
}

proof fn lemma_insert_witnessed(r: RelV, key: Seq<Value>, f: FactV)
    requires
        rel_witnessed(r),
        f.supports.len() == 1,
    ensures
        rel_witnessed(rel_insert(r, key, f)),
{
    let s = rel_insert(r, key, f);
    if has_key(r, key) {
        let i = row_of(r, key);
        assert(0 <= i < r.rows.len());
        assert(1 <= r.rows[i].fact.supports.len() <= SUPPORT_CAP);
        lemma_add_supports(r.rows[i].fact.supports, f.supports);
        assert forall|j: int| 0 <= j < s.rows.len() implies 1 <= (#[trigger] s.rows[j]).fact.supports.len() <= SUPPORT_CAP by {
            if j != i {
                assert(s.rows[j] == r.rows[j]);
            }
        }
    } else {
        assert forall|j: int| 0 <= j < s.rows.len() implies 1 <= (#[trigger] s.rows[j]).fact.supports.len() <= SUPPORT_CAP by {
            if j < r.rows.len() {
                assert(s.rows[j] == r.rows[j]);
            }
        }
    }
}

proof fn lemma_remove_witnessed(r: RelV, key: Seq<Value>)
    requires
        rel_witnessed(r),
    ensures
        rel_witnessed(rel_remove(r, key)),
{
    let s = rel_remove(r, key);
    if has_key(r, key) {
        let id = row_of(r, key);
        let last = r.rows.len() - 1;
        assert forall|j: int| 0 <= j < s.rows.len() implies 1 <= (#[trigger] s.rows[j]).fact.supports.len() <= SUPPORT_CAP by {
            assert(s.rows[j] == r.rows[j] || s.rows[j] == r.rows[last]);
            assert(1 <= r.rows[j].fact.supports.len() <= SUPPORT_CAP);
            assert(1 <= r.rows[last].fact.supports.len() <= SUPPORT_CAP);
        }
    }
}

proof fn lemma_witnessed_upheld()
    ensures
        upheld(witnessed()),
{
    let p = witnessed();
    lemma_empty_wf();
    assert forall|st: StoreV, k: KeyV, f: FactV| p(st) && f.supports.len() == 1 implies #[trigger] p(store_assert(st, k, f)) by {
        lemma_store_assert(st, k, f);
        lemma_insert_witnessed(rel_at(st.rels, k.0), k.1, f);
    }
    assert forall|st: StoreV, k: KeyV| p(st) implies #[trigger] p(store_retract(st, k)) by {
        if st.rels.contains_key(k.0) {
            lemma_remove_wf(st.rels[k.0], k.1);
            lemma_remove_witnessed(st.rels[k.0], k.1);
            let r = rel_remove(st.rels[k.0], k.1);
            let s = store_retract(st, k).rels[k.0];
            assert(s.rows == r.rows && s.idx == r.idx);
        }
    }
    assert forall|st: StoreV, rels: RelsV| p(st) && reseeded(st.rels, rels) implies #[trigger] p(with_rels(st, rels)) by {
        assert forall|n: Seq<char>| #[trigger] rels.contains_key(n) implies rel_wf(rels[n]) && rel_witnessed(rels[n]) by {
            assert(st.rels.contains_key(n));
        }
    }
}

/// Law: every fact has a witness, and no more than the cap, after a fact is
/// declared or retracted and after a run.
pub proof fn witnesses_capped(e: EngineV, k: KeyV, ann: AnnV)
    requires
        witnessed()(e.st),
    ensures
        witnessed()(engine_new().st),
        witnessed()(declared(e.st, k, ann)),
        witnessed()(store_retract(e.st, k)),
        witnessed()(ran(e).0.st),
{
    lemma_witnessed_upheld();
    assert(witnessed()(store_assert(e.st, k, FactV { ann, supports: seq![SupportV::Base] })));
    assert(witnessed()(store_retract(e.st, k)));
    lemma_run_keeps(witnessed(), e);
    assert(witnessed()(run_end(e)));
}

/// The relations of a store are well formed.
pub open spec fn formed() -> spec_fn(StoreV) -> bool {
    |st: StoreV| rels_wf(st.rels)
}

/// The single changes of a store keep its relations well formed.
pub proof fn lemma_formed_upheld()
    ensures
        upheld(formed()),
{
    let p = formed();
    lemma_empty_wf();
    assert forall|st: StoreV, k: KeyV, f: FactV| p(st) && f.supports.len() == 1 implies #[trigger] p(store_assert(st, k, f)) by {
        lemma_store_assert(st, k, f);
    }
    assert forall|st: StoreV, k: KeyV| p(st) implies #[trigger] p(store_retract(st, k)) by {
        if st.rels.contains_key(k.0) {
            lemma_remove_wf(st.rels[k.0], k.1);
            let r = rel_remove(st.rels[k.0], k.1);
            let s = store_retract(st, k).rels[k.0];
            assert(s.rows == r.rows && s.idx == r.idx);
        }
    }
    assert forall|st: StoreV, rels: RelsV| p(st) && reseeded(st.rels, rels) implies #[trigger] p(with_rels(st, rels)) by {
        assert forall|n: Seq<char>| #[trigger] rels.contains_key(n) implies rel_wf(rels[n]) by {
            assert(st.rels.contains_key(n));
        }
    }
}

} // verus!

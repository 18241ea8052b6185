//! Runs with nothing left to do: a run forgets the retractions that it
//! followed up, and a run right after it derives nothing and changes nothing.

use vstd::prelude::*;
use crate::ast::ClauseV;
use crate::engine::{eval_strata, invalidate, lemma_strata_fit, negates_grown, prepared, ran, reads_grown, stale_readers, EngineV};
use crate::env::EnvV;
use crate::evaluate::{
    agg_fns, eval_stratum_of, fixpoint, fold_clause, fold_group, fold_groups, fold_stratum, fold_values, group_len, group_rows, groups,
    in_group, is_temp, matching, pending_delta, prefix_pattern, settles, stratum_rules, temp_name,
};
use crate::exact::{alike, comparisons_known, defined_in, lemma_exact_later, lemma_model_exact};
use crate::folds::{all_foldable, folds_of, is_foldable, lemma_foldable_grows, lemma_part_closed, lowered_program};
use crate::follow::{
    changes_followed_up, given_in, keeps_up, lemma_given_underived, lemma_layout, lemma_run_names, lemma_still_stated,
    rebuilding_keeps_up, stated_underived,
};
use crate::frame::{
    lemma_invalidate_touches, lemma_pass_touches, lemma_passes_touches, lemma_step_touches, lemma_strata_touches, same_facts, writes_in,
};
use crate::laid::{base_levels, laid, lemma_eval_laid, lemma_list_laid, lemma_rule_laid, lemma_strata_laid};
use crate::model::{
    all_known, constants_known, distinct_names, facts, kept_by, lasting, lemma_assert_facts, lemma_fixpoint_only, lemma_rounds_keeps,
};
use crate::order::tallies_alike;
use crate::perfect::{above, leveled, program_closed, strata_settle};
use crate::recompute::{owner, scope_here, scope_pass, scope_passes, scope_step, scoped, ScopeV};
use crate::refold::{
    lemma_pass_refolds, lemma_passes_refold, lemma_solutions_alike, lemma_step_derives, lemma_step_refolds, stands_folded,
    stratified_run_gives_folds,
};
use crate::relation::{ann_unit, FactV, KeyV, SupportV};
use crate::renew::{going_on, lemma_evaluated_known, lemma_fires, lemma_passes_stand, tidy, unwritten};
use crate::runs::{
    facts_stated, is_sound, lemma_clear_retracts_none, lemma_declare_again, lemma_declare_grows, lemma_folded_again,
    lemma_groups_finite, lemma_retract_none, lemma_same_keys, lemma_same_rows, run_consumes,
};
use crate::scope::{
    anything, invalidate_settles, lemma_distinct_upheld, lemma_none_restated, lemma_none_stated, lemma_orderly_upheld, lemma_reset,
    orderly, pass_settles, passes_settle, reset, run_settles, scope_begun, seeded_store, step_settles,
};
use crate::solve::{emit, head_values, lemma_prefix_trans, lemma_store_assert, rule_label};
use crate::sorted_set::{enumerate, lemma_enumerable};
use crate::store::{holds, rels_settled, rels_wf, store_assert, RelsV, StoreV};
use crate::stratify::{aggregated, aggregates, defined, strata_of};
use crate::tally::{
    all_tallied, folds_apart, groups_of, is_fold, is_tallied, is_tally, lemma_apart, lemma_fold_clause_touches, lemma_matching,
    lemma_rule_list, lemma_tallied_folded, lemma_tally_group, rule_list, solutions, spans_groups, tally, width,
};
use crate::upkeep::{lemma_run_keeps, lemma_stratum_keeps, run_end};
use crate::value::Value;

verus! {

// -------------------------------------------------------------------- folding

/// Every fact of an aggregated predicate is the fold of a group of the given
/// solutions.
pub open spec fn only_tallies(rels: RelsV, c: ClauseV, keys: Seq<Seq<Value>>) -> bool {
    forall|key: Seq<Value>| #[trigger] holds(rels, (c.head.pred, key)) ==> is_tally(c, keys, key)
}

/// Folding a group retracts nothing where the predicate holds folds of groups
/// only.
proof fn lemma_group_kept(st: StoreV, c: ClauseV, temp: Seq<char>, keys: Seq<Seq<Value>>, g: Seq<Value>)
    requires
        rels_wf(st.rels),
        only_tallies(st.rels, c, keys),
        groups_of(c, keys).contains(g),
    ensures
        ({
            let r = fold_group(st, c, temp, g, group_rows(keys, group_len(c.head.args) as int, g)).st;
            r.retracted == st.retracted && rels_wf(r.rels) && only_tallies(r.rels, c, keys)
        }),
{
    let p = c.head.pred;
    let gl = group_len(c.head.args) as int;
    let rows = group_rows(keys, gl, g);
    let fns = agg_fns(c.head.args);
    let out = g + fold_values(fns, rows);
    assert(out == tally(c, keys, g));
    assert(is_tally(c, keys, out));
    assert forall|x: Seq<Value>| #[trigger] groups_of(c, keys).contains(x) implies x.len() == gl by {
        let z = choose|z: int| 0 <= z < keys.len() && #[trigger] in_group(gl, x)(keys[z]);
        assert(keys[z].take(gl).len() == gl);
    }
    assert(spans_groups(st.rels, c)) by {
        assert forall|key: Seq<Value>| #[trigger] holds(st.rels, (p, key)) implies key.len() == width(c) by {
            let x = choose|x: Seq<Value>| #[trigger] groups_of(c, keys).contains(x) && key == tally(c, keys, x);
            lemma_tally_group(c, keys, x);
        }
    }
    let olds = matching(st.rels, p, prefix_pattern(g, fns.len()));
    assert forall|i: int| 0 <= i < olds.len() implies #[trigger] olds[i] == out by {
        let key = olds[i];
        assert(olds.contains(key));
        lemma_matching(st.rels, c, g, key);
        let x = choose|x: Seq<Value>| #[trigger] groups_of(c, keys).contains(x) && key == tally(c, keys, x);
        lemma_tally_group(c, keys, x);
    }
    lemma_retract_none(st, p, olds, out);
    let support = SupportV::Rule { rule: crate::evaluate::fold_label(c), body: seq![(temp, g + rows[0])] };
    let f = FactV { ann: ann_unit(), supports: seq![support] };
    lemma_assert_facts(st, (p, out), f);
    lemma_store_assert(st, (p, out), f);
    let r = fold_group(st, c, temp, g, rows).st;
    assert forall|key: Seq<Value>| #[trigger] holds(r.rels, (p, key)) implies is_tally(c, keys, key) by {
        if key != out {
            assert(holds(st.rels, (p, key)));
        }
    }
}

proof fn lemma_groups_kept(st: StoreV, c: ClauseV, temp: Seq<char>, keys: Seq<Seq<Value>>, gs: Seq<Seq<Value>>)
    requires
        rels_wf(st.rels),
        only_tallies(st.rels, c, keys),
        forall|i: int| 0 <= i < gs.len() ==> groups_of(c, keys).contains(#[trigger] gs[i]),
    ensures
        fold_groups(st, c, temp, keys, gs).st.retracted == st.retracted,
    decreases gs.len(),
{
    if gs.len() > 0 {
        let d = gs.drop_first();
        assert(groups_of(c, keys).contains(gs[0]));
        lemma_group_kept(st, c, temp, keys, gs[0]);
        assert forall|i: int| 0 <= i < d.len() implies groups_of(c, keys).contains(#[trigger] d[i]) by {
            assert(d[i] == gs[i + 1]);
        }
        lemma_groups_kept(
            fold_group(st, c, temp, gs[0], group_rows(keys, group_len(c.head.args) as int, gs[0])).st,
            c,
            temp,
            keys,
            d,
        );
    }
}

proof fn lemma_clause_kept(st: StoreV, c: ClauseV, ci: int)
    requires
        rels_wf(st.rels),
        only_tallies(st.rels, c, solutions(st.rels, c, ci)),
    ensures
        fold_clause(st, c, ci).st.retracted == st.retracted,
{
    let temp = temp_name(c, ci);
    if st.rels.contains_key(temp) {
        let keys = solutions(st.rels, c, ci);
        let gl = group_len(c.head.args) as int;
        let gs = enumerate::<Vec<Value>>(groups(keys, gl));
        lemma_groups_finite(keys, gl);
        lemma_enumerable::<Vec<Value>>(groups(keys, gl));
        assert forall|i: int| 0 <= i < gs.len() implies groups_of(c, keys).contains(#[trigger] gs[i]) by {
            assert(gs.to_set().contains(gs[i]));
        }
        lemma_groups_kept(st, c, temp, keys, gs);
    }
}

/// The folds of a stratum retract nothing where its aggregated predicates hold
/// folds of groups only.
pub proof fn lemma_folds_kept(st: StoreV, cs: Seq<ClauseV>, idx: Seq<int>, a: int)
    requires
        folds_apart(cs),
        rule_list(cs, idx),
        0 <= a <= idx.len(),
        rels_wf(st.rels),
        forall|j: int|
            a <= j < idx.len() && aggregates(cs[#[trigger] idx[j]]) ==> only_tallies(
                st.rels,
                cs[idx[j]],
                solutions(st.rels, cs[idx[j]], idx[j]),
            ),
    ensures
        fold_stratum(st, cs, idx, a).retracted == st.retracted,
    decreases idx.len() - a,
{
    if a < idx.len() {
        let k = idx[a];
        let c = cs[k];
        assert(0 <= k < cs.len() && !c.is_fact);
        if aggregates(c) {
            let own = set![c.head.pred];
            let m = fold_clause(st, c, k).st;
            assert(is_fold(cs, k));
            lemma_clause_kept(st, c, k);
            lemma_fold_clause_touches(st, c, k, own);
            assert forall|j: int| a + 1 <= j < idx.len() && aggregates(cs[#[trigger] idx[j]]) implies only_tallies(
                m.rels,
                cs[idx[j]],
                solutions(m.rels, cs[idx[j]], idx[j]),
            ) by {
                let y = idx[j];
                assert(0 <= y < cs.len() && !cs[y].is_fact);
                assert(is_fold(cs, y));
                assert(y != k);
                lemma_apart(cs, y, k);
                assert(same_facts(st.rels, m.rels, cs[y].head.pred));
                assert(same_facts(st.rels, m.rels, temp_name(cs[y], y)));
                assert(solutions(st.rels, cs[y], y) == solutions(m.rels, cs[y], y));
                assert forall|key: Seq<Value>| #[trigger] holds(m.rels, (cs[y].head.pred, key)) implies is_tally(
                    cs[y],
                    solutions(m.rels, cs[y], y),
                    key,
                ) by {
                    assert(holds(st.rels, (cs[y].head.pred, key)));
                }
            }
            lemma_folds_kept(m, cs, idx, a + 1);
        } else {
            lemma_folds_kept(st, cs, idx, a + 1);
        }
    }
}

// --------------------------------------------------------------- recomputing

/// A step of a recomputation that gives the facts back retracts nothing.
proof fn lemma_step_kept(
    sc: ScopeV,
    now: i64,
    cs: Seq<ClauseV>,
    l: Map<Seq<char>, nat>,
    strata: Seq<Seq<int>>,
    s: int,
    b: Seq<Seq<char>>,
    given: Set<KeyV>,
    all: Set<KeyV>,
)
    requires
        leveled(cs, l, strata),
        folds_apart(cs),
        0 <= s < strata.len(),
        stands_folded(sc.st, now, cs, b, given, all),
        step_settles(sc, now, cs, strata[s]),
        scope_step(sc, now, cs, strata, strata[s]).st.names.is_prefix_of(b),
    ensures
        scope_step(sc, now, cs, strata, strata[s]).st.retracted == sc.st.retracted,
{
    let idx = strata[s];
    let here = scope_here(cs, idx, sc.to_clear);
    if here != Set::<Seq<char>>::empty() {
        let r = reset(sc, cs, here);
        let rules = stratum_rules(cs, idx);
        let x = fixpoint(r, now, rules, pending_delta(r.rels)).st;
        lemma_step_derives(sc, now, cs, l, strata, s, b, given, all);
        crate::runs::lemma_stratum_rules(cs, l, strata, s);
        lemma_reset(sc, cs, idx);
        lemma_clear_retracts_none(sc.st, enumerate::<String>(here));
        lemma_none_stated(cs, idx, sc.to_clear);
        lemma_none_restated(seeded_store(sc, cs, here), cs, here, 0);
        crate::evaluate::fixpoint_extends(r, now, rules, pending_delta(r.rels));
        lemma_rule_list(cs, l, strata, s);
        assert forall|j: int| 0 <= j < idx.len() && aggregates(cs[#[trigger] idx[j]]) implies only_tallies(
            x.rels,
            cs[idx[j]],
            solutions(x.rels, cs[idx[j]], idx[j]),
        ) by {
            let i = idx[j];
            let c = cs[i];
            let temp = temp_name(c, i);
            assert(0 <= i < cs.len() && !c.is_fact);
            assert(is_fold(cs, i));
            assert(!aggregated(cs, temp)) by {
                assert forall|y: int| 0 <= y < cs.len() && !(#[trigger] cs[y]).is_fact implies cs[y].head.pred != temp by {
                    lemma_apart(cs, i, y);
                }
            }
            assert forall|key: Seq<Value>| #[trigger] holds(sc.st.rels, (temp, key)) <==> holds(x.rels, (temp, key)) by {
                let q: KeyV = (temp, key);
                assert(all.contains(q) <==> holds(sc.st.rels, q));
                assert(facts(x.rels).contains(q) <==> holds(x.rels, q));
                if all.contains(q) {
                    assert(facts(x.rels).union(folds_of(cs, all)).contains(q));
                }
            }
            lemma_solutions_alike(sc.st.rels, x.rels, c, i);
            tallies_alike(c, solutions(sc.st.rels, c, i), solutions(x.rels, c, i));
            assert(is_tallied(sc.st.rels, c, i));
            assert forall|key: Seq<Value>| #[trigger] holds(x.rels, (c.head.pred, key)) implies is_tally(
                c,
                solutions(x.rels, c, i),
                key,
            ) by {
                let q: KeyV = (c.head.pred, key);
                assert(facts(x.rels).contains(q));
                assert(holds(sc.st.rels, (c.head.pred, key)));
            }
        }
        lemma_folds_kept(x, cs, idx, 0);
    }
}

proof fn lemma_pass_kept(
    sc: ScopeV,
    now: i64,
    cs: Seq<ClauseV>,
    l: Map<Seq<char>, nat>,
    strata: Seq<Seq<int>>,
    s: int,
    b: Seq<Seq<char>>,
    given: Set<KeyV>,
    all: Set<KeyV>,
)
    requires
        leveled(cs, l, strata),
        folds_apart(cs),
        0 <= s <= strata.len(),
        stands_folded(sc.st, now, cs, b, given, all),
        pass_settles(sc, now, cs, strata, s),
        scope_pass(sc, now, cs, strata, s).st.names.is_prefix_of(b),
    ensures
        scope_pass(sc, now, cs, strata, s).st.retracted == sc.st.retracted,
    decreases strata.len() - s,
{
    if s < strata.len() {
        let next = scope_step(sc, now, cs, strata, strata[s]);
        let last = scope_pass(next, now, cs, strata, s + 1);
        assert(crate::stratify::is_strata(cs, strata));
        lemma_strata_fit(cs, strata);
        assert(crate::evaluate::indices_of(strata[s], cs.len() as int));
        assert(writes_in(cs, anything()));
        lemma_step_touches(sc, now, cs, strata, strata[s], anything());
        lemma_pass_touches(next, now, cs, strata, s + 1, anything());
        lemma_prefix_trans(next.st.names, last.st.names, b);
        lemma_step_kept(sc, now, cs, l, strata, s, b, given, all);
        lemma_step_refolds(sc, now, cs, l, strata, s, b, given, all);
        lemma_pass_kept(next, now, cs, l, strata, s + 1, b, given, all);
    }
}

/// The passes of a recomputation that gives the facts back retract nothing.
pub proof fn lemma_passes_kept(
    sc: ScopeV,
    now: i64,
    cs: Seq<ClauseV>,
    l: Map<Seq<char>, nat>,
    strata: Seq<Seq<int>>,
    n: nat,
    b: Seq<Seq<char>>,
    given: Set<KeyV>,
    all: Set<KeyV>,
)
    requires
        leveled(cs, l, strata),
        folds_apart(cs),
        stands_folded(sc.st, now, cs, b, given, all),
        passes_settle(sc, now, cs, strata, n),
        scope_passes(sc, now, cs, strata, n).st.names.is_prefix_of(b),
    ensures
        scope_passes(sc, now, cs, strata, n).st.retracted == sc.st.retracted,
    decreases n,
{
    if n > 0 && sc.to_clear != Set::<Seq<char>>::empty() {
        let next = scope_pass(sc, now, cs, strata, 0);
        let last = scope_passes(next, now, cs, strata, (n - 1) as nat);
        assert(crate::stratify::is_strata(cs, strata));
        lemma_strata_fit(cs, strata);
        assert(writes_in(cs, anything()));
        lemma_pass_touches(sc, now, cs, strata, 0, anything());
        lemma_passes_touches(next, now, cs, strata, (n - 1) as nat, anything());
        lemma_prefix_trans(next.st.names, last.st.names, b);
        lemma_pass_kept(sc, now, cs, l, strata, 0, b, given, all);
        lemma_pass_refolds(sc, now, cs, l, strata, 0, b, given, all);
        lemma_passes_kept(next, now, cs, l, strata, (n - 1) as nat, b, given, all);
    }
}

/// After recomputations that give the facts back no retraction is left to
/// follow up.
pub proof fn lemma_refolds_forget(
    st: StoreV,
    now: i64,
    cs: Seq<ClauseV>,
    l: Map<Seq<char>, nat>,
    strata: Seq<Seq<int>>,
    mark: int,
    n: nat,
    b: Seq<Seq<char>>,
    given: Set<KeyV>,
    all: Set<KeyV>,
)
    requires
        leveled(cs, l, strata),
        folds_apart(cs),
        stands_folded(st, now, cs, b, given, all),
        invalidate_settles(st, now, cs, strata, mark, n),
        invalidate(st, now, cs, strata, mark, n).st.names.is_prefix_of(b),
        n > 0 || st.retracted == Set::<Seq<char>>::empty(),
    ensures
        invalidate(st, now, cs, strata, mark, n).st.retracted == Set::<Seq<char>>::empty(),
    decreases n,
{
    let extra = stale_readers(st, cs, mark);
    if n > 0 && !(st.retracted == Set::<Seq<char>>::empty() && extra == Set::<Seq<char>>::empty()) {
        let sc = scope_begun(st, cs, strata, extra);
        let r = scoped(st, now, cs, strata, extra).st;
        let last = invalidate(r, now, cs, strata, mark, (n - 1) as nat).st;
        assert(crate::stratify::is_strata(cs, strata));
        lemma_strata_fit(cs, strata);
        assert(writes_in(cs, anything()));
        lemma_passes_touches(sc, now, cs, strata, strata.len() + 2, anything());
        assert(r == scope_passes(sc, now, cs, strata, strata.len() + 2).st);
        lemma_invalidate_touches(r, now, cs, strata, mark, (n - 1) as nat, anything());
        lemma_prefix_trans(r.names, last.names, b);
        assert(stands_folded(sc.st, now, cs, b, given, all)) by {
            assert(orderly()(sc.st));
            assert(all_known(sc.st));
        }
        lemma_passes_kept(sc, now, cs, l, strata, strata.len() + 2, b, given, all);
        lemma_passes_refold(sc, now, cs, l, strata, strata.len() + 2, b, given, all);
        lemma_refolds_forget(r, now, cs, l, strata, mark, (n - 1) as nat, b, given, all);
    }
}

/// After the recomputations of a run no retraction is left to follow up.
pub proof fn lemma_followed_forgets(
    f: StoreV,
    now: i64,
    cs: Seq<ClauseV>,
    l: Map<Seq<char>, nat>,
    strata: Seq<Seq<int>>,
    mark: int,
    n: nat,
    b: Seq<Seq<char>>,
)
    requires
        laid(cs, l, strata),
        n > 1,
        tidy(scope_begun(f, cs, strata, stale_readers(f, cs, mark)), now, cs, l, strata, 0, b),
        invalidate_settles(f, now, cs, strata, mark, n),
        invalidate(f, now, cs, strata, mark, n).st.names.is_prefix_of(b),
    ensures
        invalidate(f, now, cs, strata, mark, n).st.retracted == Set::<Seq<char>>::empty(),
{
    let extra = stale_readers(f, cs, mark);
    let sc = scope_begun(f, cs, strata, extra);
    let m = base_levels(cs, l, strata);
    assert(leveled(cs, m, strata));
    if !(f.retracted == Set::<Seq<char>>::empty() && extra == Set::<Seq<char>>::empty()) {
        let r = scoped(f, now, cs, strata, extra).st;
        let last = invalidate(r, now, cs, strata, mark, (n - 1) as nat).st;
        let turns = strata.len() + 2;
        lemma_strata_laid(cs, l, strata);
        lemma_strata_fit(cs, strata);
        assert(writes_in(cs, anything()));
        lemma_passes_touches(sc, now, cs, strata, turns, anything());
        assert(r == scope_passes(sc, now, cs, strata, turns).st);
        lemma_invalidate_touches(r, now, cs, strata, mark, (n - 1) as nat, anything());
        lemma_prefix_trans(r.names, last.names, b);
        lemma_passes_stand(sc, now, cs, l, strata, turns, b);
        lemma_refolds_forget(r, now, cs, m, strata, mark, (n - 1) as nat, b, unwritten(cs, facts(f.rels)), facts(r.rels));
    }
}

// ----------------------------------------------------------------- idle runs

/// Where a store holds the facts of another and no more, nothing was recorded
/// since.
spec fn unmoved(o: StoreV) -> spec_fn(StoreV) -> bool {
    |x: StoreV|
        {
            &&& rels_wf(x.rels)
            &&& facts(o.rels).subset_of(facts(x.rels))
            &&& facts(x.rels).subset_of(facts(o.rels)) ==> {
                &&& x.log == o.log
                &&& x.feed == o.feed
                &&& pending_delta(x.rels) == pending_delta(o.rels)
            }
        }
}

proof fn lemma_unmoved_lasting(o: StoreV, cs: Seq<ClauseV>)
    ensures
        lasting(unmoved(o), cs),
{
    let p = unmoved(o);
    assert forall|i: int| 0 <= i < cs.len() implies kept_by(p, #[trigger] cs[i]) by {
        let c = cs[i];
        assert forall|st: StoreV, env: EnvV| p(st) implies #[trigger] p(emit(st, c, env).0) by {
            let h = head_values(st.names, c.head.args, env.map);
            let st1 = StoreV { names: h.0, ..st };
            if let Some(args) = h.1 {
                let f = FactV { ann: env.ann, supports: seq![SupportV::Rule { rule: rule_label(c), body: env.keys }] };
                lemma_unmoved_asserted(o, st1, (c.head.pred, args), f);
            }
        }
    }
}

proof fn lemma_unmoved_asserted(o: StoreV, st: StoreV, k: KeyV, f: FactV)
    requires
        unmoved(o)(st),
    ensures
        unmoved(o)(store_assert(st, k, f)),
{
    let r = store_assert(st, k, f);
    lemma_store_assert(st, k, f);
    lemma_assert_facts(st, k, f);
    assert forall|j: KeyV| #[trigger] facts(o.rels).contains(j) implies facts(r.rels).contains(j) by {
        assert(facts(st.rels).contains(j));
        assert(holds(st.rels, j));
    }
    if facts(r.rels).subset_of(facts(o.rels)) {
        assert(holds(r.rels, k));
        assert(facts(r.rels).contains(k));
        assert(facts(st.rels).contains(k));
        assert(facts(st.rels).subset_of(facts(o.rels))) by {
            assert forall|j: KeyV| #[trigger] facts(st.rels).contains(j) implies facts(o.rels).contains(j) by {
                assert(holds(st.rels, j));
                assert(facts(r.rels).contains(j));
            }
        }
        assert(holds(st.rels, k));
        assert(pending_delta(r.rels) =~= pending_delta(st.rels));
    }
}

/// Nothing but the notes on facts and the names differs between two stores.
pub open spec fn as_quiet(a: StoreV, b: StoreV) -> bool {
    &&& facts(a.rels) == facts(b.rels)
    &&& a.log == b.log
    &&& a.feed == b.feed
    &&& a.epoch == b.epoch
    &&& a.retracted == b.retracted
    &&& pending_delta(a.rels) == pending_delta(b.rels)
}

/// The evaluation of a stratum changes nothing where the facts are closed
/// under the rules and the aggregates are in step.
proof fn lemma_stratum_idle(
    st: StoreV,
    now: i64,
    cs: Seq<ClauseV>,
    l: Map<Seq<char>, nat>,
    strata: Seq<Seq<int>>,
    s: int,
    b: Seq<Seq<char>>,
)
    requires
        laid(cs, l, strata),
        0 <= s < strata.len(),
        going_on(st, cs, b),
        all_tallied(st.rels, cs),
        program_closed(b, now, lowered_program(cs), facts(st.rels), facts(st.rels)),
        exists|k: nat| settles(st, now, stratum_rules(cs, strata[s]), pending_delta(st.rels), k),
        eval_stratum_of(st, now, cs, strata[s]).st.names.is_prefix_of(b),
    ensures
        ({
            let e = eval_stratum_of(st, now, cs, strata[s]);
            going_on(e.st, cs, b) && all_tallied(e.st.rels, cs) && as_quiet(st, e.st) && e.new == 0
        }),
{
    let idx = strata[s];
    let rules = stratum_rules(cs, idx);
    let delta = pending_delta(st.rels);
    let x = fixpoint(st, now, rules, delta).st;
    let e = eval_stratum_of(st, now, cs, idx);
    let f = facts(st.rels);
    let m = base_levels(cs, l, strata);
    assert(leveled(cs, m, strata));
    lemma_part_closed(b, now, cs, m, strata, s, st.names, f, f);
    assert forall|q: Seq<char>| !(#[trigger] above(l, s).contains(q)) implies alike(f, f, q) by {}
    lemma_fires(st, now, cs, l, strata, s, b, f);
    lemma_fixpoint_only(st, now, rules, delta, b, f, above(l, s));
    assert(facts(x.rels) =~= f);
    lemma_unmoved_lasting(st, rules);
    assert(unmoved(st)(st));
    lemma_rounds_keeps(unmoved(st), st, now, rules, delta, choose|n: nat| settles(st, now, rules, delta, n));
    assert(unmoved(st)(x));
    assert(all_tallied(x.rels, cs)) by {
        assert forall|i: int| #[trigger] is_fold(cs, i) implies is_tallied(x.rels, cs[i], i) by {
            lemma_tallied_alike(st.rels, x.rels, cs[i], i);
        }
    }
    lemma_tallied_folded(x.rels, cs);
    lemma_list_laid(cs, l, strata, s);
    lemma_folded_again(x, cs, idx, 0);
    assert(e.st == x);
    assert(e.st.log.skip(st.log.len() as int) =~= Seq::empty());
    lemma_evaluated_known(st, now, cs, l, strata, s);
    lemma_eval_laid(st, now, cs, l, strata, s);
    lemma_foldable_grows(st.names, x.names, cs);
    lemma_orderly_upheld();
    lemma_stratum_keeps(orderly(), st, now, cs, idx);
}

/// Aggregates stay in step where the facts stay the same.
pub proof fn lemma_tallied_alike(a: RelsV, b: RelsV, c: ClauseV, ci: int)
    requires
        rels_wf(a),
        rels_wf(b),
        facts(a) == facts(b),
        is_tallied(a, c, ci),
    ensures
        is_tallied(b, c, ci),
{
    let temp = temp_name(c, ci);
    assert forall|k: KeyV| #![trigger holds(a, k)] #![trigger holds(b, k)] holds(a, k) == holds(b, k) by {
        assert(facts(a).contains(k) == holds(a, k));
        assert(facts(b).contains(k) == holds(b, k));
    }
    assert forall|key: Seq<Value>| #[trigger] holds(a, (temp, key)) <==> holds(b, (temp, key)) by {}
    lemma_solutions_alike(a, b, c, ci);
    tallies_alike(c, solutions(a, c, ci), solutions(b, c, ci));
    assert forall|key: Seq<Value>| #[trigger] holds(b, (c.head.pred, key)) <==> is_tally(c, solutions(b, c, ci), key) by {
        assert(holds(a, (c.head.pred, key)) <==> holds(b, (c.head.pred, key)));
    }
}

proof fn lemma_strata_idle(
    st: StoreV,
    now: i64,
    cs: Seq<ClauseV>,
    l: Map<Seq<char>, nat>,
    strata: Seq<Seq<int>>,
    s: int,
    b: Seq<Seq<char>>,
)
    requires
        laid(cs, l, strata),
        0 <= s <= strata.len(),
        going_on(st, cs, b),
        all_tallied(st.rels, cs),
        program_closed(b, now, lowered_program(cs), facts(st.rels), facts(st.rels)),
        strata_settle(st, now, cs, strata, s),
        eval_strata(st, now, cs, strata, s).st.names.is_prefix_of(b),
    ensures
        as_quiet(st, eval_strata(st, now, cs, strata, s).st),
        eval_strata(st, now, cs, strata, s).new == 0,
    decreases strata.len() - s,
{
    if s < strata.len() {
        let e = eval_stratum_of(st, now, cs, strata[s]).st;
        let f = eval_strata(st, now, cs, strata, s).st;
        lemma_eval_laid(st, now, cs, l, strata, s);
        crate::follow::lemma_strata_spared(e, now, cs, l, strata, s + 1);
        lemma_prefix_trans(e.names, f.names, b);
        lemma_stratum_idle(st, now, cs, l, strata, s, b);
        lemma_strata_idle(e, now, cs, l, strata, s + 1, b);
    }
}

/// Nothing is stale where nothing was added since the mark.
pub proof fn lemma_none_stale(st: StoreV, cs: Seq<ClauseV>, mark: int)
    requires
        mark >= st.log.len(),
    ensures
        stale_readers(st, cs, mark) == Set::<Seq<char>>::empty(),
{
    assert forall|r: Seq<char>| !(#[trigger] stale_readers(st, cs, mark).contains(r)) by {
        if stale_readers(st, cs, mark).contains(r) {
            let ci = choose|ci: int| 0 <= ci < cs.len() && reads_grown(st, mark, #[trigger] cs[ci]) && owner(cs[ci], ci) == r;
            let j = choose|j: int| 0 <= j < cs[ci].body.len() && negates_grown(st, mark, #[trigger] cs[ci].body[j]);
            assert(negates_grown(st, mark, cs[ci].body[j]));
        }
    }
    assert(stale_readers(st, cs, mark) =~= Set::<Seq<char>>::empty());
}

/// Law: a run with nothing new to do derives nothing. The facts are those of
/// the model, and nothing was declared, retracted or added since the last run.
/// The run returns no new fact; the facts, the log of additions and the feed
/// of changes stay as they are, and the epoch advances by one.
pub proof fn quiet_run(e: EngineV)
    requires
        keeps_up(e, e.st.names, facts(e.st.rels)),
        e.clauses.len() <= usize::MAX,
        folds_apart(e.clauses),
        stated_underived(e.clauses),
        facts_stated(e.st, e.clauses),
        e.st.retracted == Set::<Seq<char>>::empty(),
        e.mark == e.st.log.len(),
        run_settles(e),
        ran(e).0.st.names.len() < usize::MAX,
    ensures
        ran(e).1 == 0,
        facts(ran(e).0.st.rels) == facts(e.st.rels),
        ran(e).0.st.log == e.st.log,
        ran(e).0.st.feed == e.st.feed,
        ran(e).0.st.epoch == e.st.epoch.wrapping_add(1),
        ran(e).0.st.retracted == e.st.retracted,
{
    let cs = e.clauses;
    let low = lowered_program(cs);
    let strata = strata_of(cs);
    let a = e.st.names;
    let all = facts(e.st.rels);
    let p = prepared(e).st;
    let f = eval_strata(p, e.now, cs, strata, 0).st;
    let inv = invalidate(f, e.now, cs, strata, e.mark, strata.len() + 2).st;
    let b = ran(e).0.st.names;
    let l = lemma_layout(cs);
    lemma_declare_again(e.st, cs, 0);
    lemma_same_keys(e.st.rels, p.rels);
    lemma_strata_laid(cs, l, strata);
    lemma_strata_fit(cs, strata);
    assert(writes_in(cs, anything()));
    lemma_strata_touches(p, e.now, cs, strata, 0, anything());
    lemma_invalidate_touches(f, e.now, cs, strata, e.mark, strata.len() + 2, anything());
    lemma_prefix_trans(p.names, f.names, b);
    lemma_distinct_upheld();
    assert(distinct_names()(e.st));
    lemma_run_keeps(distinct_names(), e);
    assert(distinct_names()(run_end(e)));
    assert(program_closed(b, e.now, low, all, all)) by {
        lemma_given_underived(cs, l, strata, all, all);
        lemma_model_exact(a, e.now, low, given_in(cs, all, all), all);
        assert(comparisons_known(a, low)) by {
            assert forall|i: int| 0 <= i < low.len() && !(#[trigger] low[i]).is_fact implies constants_known(a, low[i]) by {
                assert(is_foldable(a, cs[i], i));
                lemma_rule_laid(cs, l, strata, i);
            }
        }
        lemma_exact_later(a, b, e.now, low, defined_in(low), all);
        assert forall|i: int| 0 <= i < low.len() && !(#[trigger] low[i]).is_fact implies crate::model::leads_into(
            b,
            e.now,
            low[i],
            all,
            all,
            all,
        ) by {
            assert(defined_in(low).contains(low[i].head.pred));
        }
    }
    assert forall|k: KeyV| #[trigger] holds(p.rels, k) implies crate::restore::known_key(p.names, k.1) by {
        assert(facts(p.rels).contains(k));
        assert(holds(e.st.rels, k));
    }
    assert(all_tallied(p.rels, cs)) by {
        assert forall|i: int| #[trigger] is_fold(cs, i) implies is_tallied(p.rels, cs[i], i) by {
            lemma_tallied_alike(e.st.rels, p.rels, cs[i], i);
        }
    }
    assert(going_on(p, cs, b));
    lemma_strata_idle(p, e.now, cs, l, strata, 0, b);
    lemma_none_stale(f, cs, e.mark);
    assert(inv == f);
    assert forall|k: KeyV| #[trigger] holds(rels_settled(f.rels), k) <==> holds(f.rels, k) by {
        lemma_same_rows(f.rels, rels_settled(f.rels), k);
    }
    assert(facts(ran(e).0.st.rels) =~= facts(f.rels));
}

/// Law: a run of a stratified program right after another derives nothing and
/// changes nothing, negation and aggregates included: it returns no new fact,
/// keeps the facts, the log of additions and the feed of changes, and advances
/// the epoch by one. The first run starts over or follows up what changed.
pub proof fn second_stratified_run_idle(e: EngineV, a: Seq<Seq<char>>, m: Set<KeyV>)
    requires
        is_sound(e.st),
        e.clauses.len() <= usize::MAX,
        folds_apart(e.clauses),
        stated_underived(e.clauses),
        all_foldable(prepared(e).st.names, e.clauses),
        run_settles(e),
        run_settles(ran(e).0),
        ran(ran(e).0).0.st.names.len() < usize::MAX,
        if e.dirty {
            forall|k: KeyV| #[trigger] holds(prepared(e).st.rels, k) ==> !defined(e.clauses, k.0) && !is_temp(k.0)
        } else {
            keeps_up(e, a, m)
        },
    ensures
        ({
            let one = ran(e).0;
            let two = ran(one).0;
            &&& ran(one).1 == 0
            &&& facts(two.st.rels) == facts(one.st.rels)
            &&& two.st.log == one.st.log
            &&& two.st.feed == one.st.feed
            &&& two.st.epoch == one.st.epoch.wrapping_add(1)
        }),
{
    let one = ran(e).0;
    let cs = e.clauses;
    run_consumes(e);
    lemma_run_names(one);
    lemma_declare_grows(one.st, cs, 0);
    lemma_prefix_trans(one.st.names, prepared(one).st.names, ran(one).0.st.names);
    if e.dirty {
        stratified_run_gives_folds(e);
        rebuilding_keeps_up(e);
        assert forall|k: KeyV| #[trigger] unwritten(cs, facts(prepared(e).st.rels)).contains(k) implies facts(one.st.rels).contains(k) by {
            assert(facts(prepared(e).st.rels).union(folds_of(cs, facts(one.st.rels))).contains(k));
        }
    } else {
        changes_followed_up(e, a, m);
        assert forall|k: KeyV| #[trigger] unwritten(cs, facts(prepared(e).st.rels)).contains(k) implies facts(one.st.rels).contains(k) by {
            assert(given_in(cs, facts(prepared(e).st.rels), facts(one.st.rels)).contains(k));
        }
    }
    lemma_still_stated(e);
    quiet_run(one);
}

} // verus!

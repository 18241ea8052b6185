//! Models with negation and aggregates: the recomputations at the end of a run
//! give the solutions and the folds of a program back.

use vstd::prelude::*;
use crate::ast::{ClauseV, LitV};
use crate::engine::{eval_strata, invalidate, lemma_strata_fit, prepared, ran, stale_readers, EngineV};
use crate::env::Bindings;
use crate::evaluate::{eval_stratum_of, evaluated, fixpoint, has_atom, indices_of, is_temp, pending_delta, stratum_rules, temp_name};
use crate::exact::{atoms_covered, covers, lemma_body_moves};
use crate::folds::{
    all_foldable, folded_in, folds_of, is_evaluated_at, lemma_foldable_grows, lemma_part_closed, lemma_reads_folded, lemma_same_negated,
    lemma_strata_model, lemma_stratum_evaluated, lowered_program, written,
};
use crate::follow::stated_underived;
use crate::frame::{
    lemma_fold_stratum_touches, lemma_invalidate_touches, lemma_pass_touches, lemma_passes_touches, lemma_step_touches,
    lemma_strata_touches, lemma_temp_prefix, same_facts, writes_in,
};
use crate::laid::is_written;
use crate::model::{
    agrees, all_known, body_true, can_fire, closed_under, distinct_names, facts, head_fact, is_instance, leads_into,
    lemma_fixpoint_least, lemma_known_grows, lit_true, used,
};
use crate::order::{same_listed, tallies_alike};
use crate::perfect::{is_model, leveled, program_closed};
use crate::recompute::{
    body_reads, filled_by, lit_reads, owner, rebuilt, scope_here, scope_pass, scope_passes, scope_seeds, scope_step, scoped, ScopeV,
};
use crate::relation::KeyV;
use crate::restore::known_key;
use crate::runs::{is_sound, lemma_declare_grows, lemma_declared, lemma_rebuilt, lemma_same_rows};
use crate::scope::{
    anything, invalidate_settles, lemma_body_grows, lemma_distinct_upheld, lemma_orderly_upheld, lemma_reset, orderly, pass_settles,
    passes_settle, reset, run_settles, scope_begun, step_settles,
};
use crate::solve::lemma_prefix_trans;
use crate::store::{holds, rels_settled, rels_wf, RelsV, StoreV};
use crate::stratify::{aggregated, aggregates, defined, grouped, is_levels, is_strata, strata_exist, strata_of};
use crate::tally::{
    all_tallied, folds_apart, is_fold, is_tallied, lemma_apart, lemma_only_rule, lemma_rule_list, lemma_step_tallied,
    lemma_tallied_same, solutions, written_at,
};
use crate::upkeep::{lemma_run_keeps, lemma_stratum_keeps, run_end};
use crate::value::Value;

verus! {

/// The stored facts are a model of the program over the given ones, its folds
/// included, under names that may still grow.
pub open spec fn stands_folded(
    st: StoreV,
    now: i64,
    cs: Seq<ClauseV>,
    b: Seq<Seq<char>>,
    given: Set<KeyV>,
    all: Set<KeyV>,
) -> bool {
    &&& orderly()(st)
    &&& all_known(st)
    &&& all_foldable(st.names, cs)
    &&& stated_underived(cs)
    &&& st.names.is_prefix_of(b)
    &&& b.no_duplicates()
    &&& b.len() < usize::MAX
    &&& facts(st.rels) == all
    &&& is_model(b, now, lowered_program(cs), given.union(folds_of(cs, all)), all)
    &&& all_tallied(st.rels, cs)
    &&& forall|k: KeyV| #[trigger] given.contains(k) ==> !is_written(cs, k.0)
}

/// What a stratum clears is written at its level.
proof fn lemma_here_written(
    cs: Seq<ClauseV>,
    l: Map<Seq<char>, nat>,
    strata: Seq<Seq<int>>,
    s: int,
    to_clear: Set<Seq<char>>,
    p: Seq<char>,
)
    requires
        leveled(cs, l, strata),
        0 <= s < strata.len(),
        scope_here(cs, strata[s], to_clear).contains(p),
    ensures
        written_at(cs, l, p, s),
        is_written(cs, p),
        aggregated(cs, p) && folds_apart(cs) ==> folded_in(cs, strata[s], 0).contains(p),
{
    let idx = strata[s];
    lemma_rule_list(cs, l, strata, s);
    let j = choose|j: int| 0 <= j < idx.len() && filled_by(cs, #[trigger] idx[j], p);
    let k = idx[j];
    assert(idx.contains(k));
    assert(0 <= k < cs.len() && !cs[k].is_fact && l[cs[k].head.pred] == s);
    assert(defined(cs, cs[k].head.pred));
    assert(l.contains_key(cs[k].head.pred));
    if cs[k].head.pred != p {
        assert(is_fold(cs, k));
        lemma_temp_prefix(cs[k], k);
    }
    if aggregated(cs, p) && folds_apart(cs) {
        let y = choose|y: int| 0 <= y < cs.len() && !(#[trigger] cs[y]).is_fact && aggregates(cs[y]) && cs[y].head.pred == p;
        assert(is_fold(cs, y));
        if cs[k].head.pred == p {
            lemma_only_rule(cs, y, k);
        } else {
            lemma_apart(cs, k, y);
        }
    }
}

/// What a rule of a level derives is written at that level.
proof fn lemma_owned(cs: Seq<ClauseV>, l: Map<Seq<char>, nat>, i: int)
    requires
        is_levels(cs, l),
        0 <= i < cs.len(),
        !cs[i].is_fact,
    ensures
        evaluated(cs[i], i).head.pred == owner(cs[i], i),
        evaluated(cs[i], i).body == cs[i].body,
        written_at(cs, l, owner(cs[i], i), l[cs[i].head.pred] as int),
{
    assert(defined(cs, cs[i].head.pred));
    assert(l.contains_key(cs[i].head.pred));
    if aggregates(cs[i]) {
        assert(is_fold(cs, i));
    }
}

/// Every rule of the stratum was fired on the settled facts.
proof fn lemma_refold_used(
    sc: ScopeV,
    now: i64,
    cs: Seq<ClauseV>,
    l: Map<Seq<char>, nat>,
    strata: Seq<Seq<int>>,
    s: int,
    b: Seq<Seq<char>>,
    given: Set<KeyV>,
    all: Set<KeyV>,
)
    requires
        leveled(cs, l, strata),
        folds_apart(cs),
        0 <= s < strata.len(),
        stands_folded(sc.st, now, cs, b, given, all),
    ensures
        ({
            let r = reset(sc, cs, scope_here(cs, strata[s], sc.to_clear));
            used(b, now, stratum_rules(cs, strata[s]), facts(r.rels), pending_delta(r.rels), all)
        }),
{
    let here = scope_here(cs, strata[s], sc.to_clear);
    let r = reset(sc, cs, here);
    let rules = stratum_rules(cs, strata[s]);
    let old_part = facts(r.rels).difference(pending_delta(r.rels));
    crate::runs::lemma_stratum_rules(cs, l, strata, s);
    lemma_reset(sc, cs, strata[s]);
    lemma_stratum_evaluated(cs, l, strata, s, sc.st.names);
    lemma_part_closed(b, now, cs, l, strata, s, sc.st.names, all, all);
    assert forall|j: int| 0 <= j < rules.len() && has_atom(#[trigger] rules[j]) implies leads_into(
        b,
        now,
        rules[j],
        old_part,
        all,
        facts(r.rels),
    ) by {
        let i = strata[s][j];
        let c = rules[j];
        assert(is_evaluated_at(cs, l, s, c, i));
        lemma_owned(cs, l, i);
        assert(leads_into(b, now, c, all, all, all));
        assert forall|x: Bindings| #[trigger] body_true(b, now, c, old_part, all, x) && head_fact(b, c, x) is Some implies facts(
            r.rels,
        ).contains(head_fact(b, c, x)->Some_0) by {
            if here.contains(c.head.pred) {
                let y = choose|y: int| 0 <= y < c.body.len() && #[trigger] c.body[y] is Pos;
                assert(lit_true(b, now, c.body[y], old_part, all, x));
                let a = c.body[y]->Pos_0;
                let key = choose|key: Seq<Value>| old_part.contains((a.pred, key)) && #[trigger] is_instance(b, a.args, key, x);
                let k: KeyV = (a.pred, key);
                assert(holds(r.rels, k));
                assert(!here.contains(a.pred));
                assert(lit_reads(cs[i].body[y], a.pred));
                assert(body_reads(cs[i], a.pred));
                assert(here.contains(owner(cs[i], i)));
                assert(scope_seeds(cs, here).contains(a.pred));
                assert(pending_delta(r.rels).contains(k));
            } else {
                assert(old_part.subset_of(all)) by {
                    assert forall|k: KeyV| #[trigger] old_part.contains(k) implies all.contains(k) by {
                        assert(holds(r.rels, k));
                        assert(facts(sc.st.rels).contains(k));
                    }
                }
                lemma_body_grows(b, now, c, old_part, all, all, x);
                let k = head_fact(b, c, x)->Some_0;
                assert(all.contains(k));
                assert(facts(sc.st.rels).contains(k));
                assert(holds(r.rels, k));
            }
        }
    }
}

/// The fixpoint of a step, with the folds, holds everything again.
proof fn lemma_all_derived(
    to_clear: Set<Seq<char>>,
    names: Seq<Seq<char>>,
    now: i64,
    cs: Seq<ClauseV>,
    l: Map<Seq<char>, nat>,
    strata: Seq<Seq<int>>,
    s: int,
    b: Seq<Seq<char>>,
    given: Set<KeyV>,
    all: Set<KeyV>,
    fx: Set<KeyV>,
)
    requires
        leveled(cs, l, strata),
        folds_apart(cs),
        all_foldable(names, cs),
        0 <= s < strata.len(),
        is_model(b, now, lowered_program(cs), given.union(folds_of(cs, all)), all),
        forall|k: KeyV| #[trigger] given.contains(k) ==> !is_written(cs, k.0),
        fx.subset_of(all),
        closed_under(b, now, stratum_rules(cs, strata[s]), fx, all),
        forall|k: KeyV| #[trigger] all.contains(k) && !scope_here(cs, strata[s], to_clear).contains(k.0) ==> fx.contains(k),
    ensures
        all.subset_of(fx.union(folds_of(cs, all))),
{
    let here = scope_here(cs, strata[s], to_clear);
    let rules = stratum_rules(cs, strata[s]);
    let low = lowered_program(cs);
    let m = fx.union(folds_of(cs, all));
    assert(m.subset_of(all));
    lemma_stratum_evaluated(cs, l, strata, s, names);
    assert(program_closed(b, now, low, m, all)) by {
        assert forall|i: int| 0 <= i < low.len() && !(#[trigger] low[i]).is_fact implies leads_into(b, now, low[i], m, all, m) by {
            assert(!cs[i].is_fact);
            let c = evaluated(cs[i], i);
            assert(low[i] == c);
            lemma_owned(cs, l, i);
            assert(leads_into(b, now, low[i], all, all, all));
            if l[cs[i].head.pred] == s {
                let j = choose|j: int| 0 <= j < rules.len() && #[trigger] rules[j] == c;
                assert(leads_into(b, now, rules[j], fx, all, fx));
                lemma_reads_derived(to_clear, cs, l, strata, s, i, all, fx);
                lemma_same_negated(c, all);
                assert forall|x: Bindings| #[trigger] body_true(b, now, c, m, all, x) && head_fact(b, c, x) is Some implies m.contains(
                    head_fact(b, c, x)->Some_0,
                ) by {
                    lemma_body_moves(b, now, c, m, all, fx, all, x);
                }
            } else {
                if here.contains(c.head.pred) {
                    lemma_here_written(cs, l, strata, s, to_clear, c.head.pred);
                    lemma_written_once(cs, l, c.head.pred, s, l[cs[i].head.pred] as int);
                }
                assert forall|x: Bindings| #[trigger] body_true(b, now, c, m, all, x) && head_fact(b, c, x) is Some implies m.contains(
                    head_fact(b, c, x)->Some_0,
                ) by {
                    lemma_body_grows(b, now, c, m, all, all, x);
                    assert(all.contains(head_fact(b, c, x)->Some_0));
                }
            }
        }
    }
    assert(given.union(folds_of(cs, all)).subset_of(m)) by {
        assert forall|k: KeyV| #[trigger] given.contains(k) implies m.contains(k) by {
            assert(given.union(folds_of(cs, all)).contains(k));
            assert(all.contains(k));
            if here.contains(k.0) {
                lemma_here_written(cs, l, strata, s, to_clear, k.0);
            }
        }
    }
}

/// A relation is written at one level.
proof fn lemma_written_once(cs: Seq<ClauseV>, l: Map<Seq<char>, nat>, p: Seq<char>, v: int, w: int)
    requires
        folds_apart(cs),
        is_levels(cs, l),
        written_at(cs, l, p, v),
        written_at(cs, l, p, w),
    ensures
        v == w,
{
    if l.contains_key(p) {
        assert(defined(cs, p));
        let k = choose|k: int| 0 <= k < cs.len() && !(#[trigger] cs[k]).is_fact && cs[k].head.pred == p;
        assert forall|y: int| #[trigger] is_fold(cs, y) implies p != temp_name(cs[y], y) by {
            lemma_apart(cs, y, k);
        }
    } else {
        let i = choose|i: int| #[trigger] is_fold(cs, i) && p == temp_name(cs[i], i) && l[cs[i].head.pred] == v;
        let j = choose|j: int| #[trigger] is_fold(cs, j) && p == temp_name(cs[j], j) && l[cs[j].head.pred] == w;
        lemma_apart(cs, i, j);
    }
}

/// What a rule of the stratum reads is derived without the folds.
proof fn lemma_reads_derived(
    to_clear: Set<Seq<char>>,
    cs: Seq<ClauseV>,
    l: Map<Seq<char>, nat>,
    strata: Seq<Seq<int>>,
    s: int,
    i: int,
    all: Set<KeyV>,
    fx: Set<KeyV>,
)
    requires
        leveled(cs, l, strata),
        folds_apart(cs),
        0 <= s < strata.len(),
        0 <= i < cs.len(),
        !cs[i].is_fact,
        l[cs[i].head.pred] == s,
        forall|k: KeyV| #[trigger] all.contains(k) && !scope_here(cs, strata[s], to_clear).contains(k.0) ==> fx.contains(k),
    ensures
        atoms_covered(evaluated(cs[i], i), fx.union(folds_of(cs, all)), fx),
{
    let here = scope_here(cs, strata[s], to_clear);
    let c = evaluated(cs[i], i);
    let m = fx.union(folds_of(cs, all));
    lemma_owned(cs, l, i);
    assert forall|j: int| 0 <= j < c.body.len() implies (match #[trigger] c.body[j] {
        LitV::Pos(a) => covers(m, fx, a.pred),
        _ => true,
    }) by {
        if let LitV::Pos(a) = c.body[j] {
            assert forall|key: Seq<Value>| #[trigger] m.contains((a.pred, key)) implies fx.contains((a.pred, key)) by {
                let k: KeyV = (a.pred, key);
                if !fx.contains(k) {
                    assert(folds_of(cs, all).contains(k));
                    assert(aggregated(cs, a.pred));
                    lemma_reads_folded(cs, l, i, j);
                    if here.contains(a.pred) {
                        lemma_here_written(cs, l, strata, s, to_clear, a.pred);
                        assert(defined(cs, a.pred));
                        assert(l.contains_key(a.pred));
                        assert(written_at(cs, l, a.pred, l[a.pred] as int));
                        lemma_written_once(cs, l, a.pred, s, l[a.pred] as int);
                    }
                }
            }
        }
    }
}

/// The solutions of a rule are listed alike where the facts are alike.
pub proof fn lemma_solutions_alike(a: RelsV, b: RelsV, c: ClauseV, ci: int)
    requires
        rels_wf(a),
        rels_wf(b),
        forall|key: Seq<Value>| #[trigger] holds(a, (temp_name(c, ci), key)) <==> holds(b, (temp_name(c, ci), key)),
    ensures
        same_listed(solutions(a, c, ci), solutions(b, c, ci)),
{
    lemma_solutions(a, c, ci);
    lemma_solutions(b, c, ci);
    assert forall|x: Seq<Value>| #[trigger] solutions(a, c, ci).contains(x) <==> solutions(b, c, ci).contains(x) by {
        assert(solutions(b, c, ci).contains(x) <==> holds(b, (temp_name(c, ci), x)));
    }
}

pub proof fn lemma_solutions(m: RelsV, c: ClauseV, ci: int)
    requires
        rels_wf(m),
    ensures
        solutions(m, c, ci).no_duplicates(),
        forall|x: Seq<Value>| #[trigger] solutions(m, c, ci).contains(x) <==> holds(m, (temp_name(c, ci), x)),
{
    let t = temp_name(c, ci);
    let s = solutions(m, c, ci);
    if m.contains_key(t) {
        let r = m[t];
        assert forall|i: int| 0 <= i < s.len() implies #[trigger] s[i] == r.rows[i].key by {}
        assert forall|x: Seq<Value>| #[trigger] s.contains(x) <==> holds(m, (t, x)) by {
            if s.contains(x) {
                let i = choose|i: int| 0 <= i < s.len() && s[i] == x;
                assert(r.rows[i].key == x);
            }
            if holds(m, (t, x)) {
                let i = choose|i: int| 0 <= i < r.rows.len() && (#[trigger] r.rows[i]).key == x;
                assert(s[i] == x);
            }
        }
    }
}

/// A step of a recomputation gives the model back, aggregates included.
#[verifier::rlimit(40)]
pub proof fn lemma_step_refolds(
    sc: ScopeV,
    now: i64,
    cs: Seq<ClauseV>,
    l: Map<Seq<char>, nat>,
    strata: Seq<Seq<int>>,
    s: int,
    b: Seq<Seq<char>>,
    given: Set<KeyV>,
    all: Set<KeyV>,
)
    requires
        leveled(cs, l, strata),
        folds_apart(cs),
        0 <= s < strata.len(),
        stands_folded(sc.st, now, cs, b, given, all),
        step_settles(sc, now, cs, strata[s]),
        scope_step(sc, now, cs, strata, strata[s]).st.names.is_prefix_of(b),
    ensures
        stands_folded(scope_step(sc, now, cs, strata, strata[s]).st, now, cs, b, given, all),
{
    let stratum = strata[s];
    let here = scope_here(cs, stratum, sc.to_clear);
    let next = scope_step(sc, now, cs, strata, stratum);
    if here != Set::<Seq<char>>::empty() {
        let r = reset(sc, cs, here);
        let rules = stratum_rules(cs, stratum);
        let x = fixpoint(r, now, rules, pending_delta(r.rels)).st;
        let e = eval_stratum_of(r, now, cs, stratum).st;
        assert(next.st == e);
        lemma_step_derives(sc, now, cs, l, strata, s, b, given, all);
        lemma_orderly_upheld();
        crate::runs::lemma_stratum_rules(cs, l, strata, s);
        lemma_reset(sc, cs, stratum);
        lemma_stratum_keeps(orderly(), r, now, cs, stratum);
        assert(all_tallied(e.rels, cs)) by {
            assert forall|i: int| #[trigger] is_fold(cs, i) implies is_tallied(e.rels, cs[i], i) by {
                lemma_rule_list(cs, l, strata, s);
                lemma_step_tallied(sc, now, cs, strata, s, i);
            }
        }
        assert forall|k: KeyV| all.contains(k) <==> #[trigger] facts(e.rels).contains(k) by {
            lemma_step_fact(sc, cs, l, strata, s, x, e, all, k);
        }
        assert(facts(e.rels) =~= all);
        lemma_prefix_trans(sc.st.names, x.names, e.names);
        lemma_foldable_grows(sc.st.names, e.names, cs);
        assert forall|k: KeyV| #[trigger] holds(e.rels, k) implies known_key(e.names, k.1) by {
            assert(facts(e.rels).contains(k));
            assert(holds(sc.st.rels, k));
            lemma_known_grows(sc.st.names, e.names, k.1);
        }
    }
}

/// What the fixpoint of a step holds, and that the folds touch nothing else.
pub proof fn lemma_step_derives(
    sc: ScopeV,
    now: i64,
    cs: Seq<ClauseV>,
    l: Map<Seq<char>, nat>,
    strata: Seq<Seq<int>>,
    s: int,
    b: Seq<Seq<char>>,
    given: Set<KeyV>,
    all: Set<KeyV>,
)
    requires
        leveled(cs, l, strata),
        folds_apart(cs),
        0 <= s < strata.len(),
        stands_folded(sc.st, now, cs, b, given, all),
        scope_here(cs, strata[s], sc.to_clear) != Set::<Seq<char>>::empty(),
        step_settles(sc, now, cs, strata[s]),
        scope_step(sc, now, cs, strata, strata[s]).st.names.is_prefix_of(b),
    ensures
        ({
            let here = scope_here(cs, strata[s], sc.to_clear);
            let r = reset(sc, cs, here);
            let x = fixpoint(r, now, stratum_rules(cs, strata[s]), pending_delta(r.rels)).st;
            let e = eval_stratum_of(r, now, cs, strata[s]).st;
            &&& sc.st.names.is_prefix_of(x.names)
            &&& x.names.is_prefix_of(e.names)
            &&& rels_wf(x.rels)
            &&& facts(x.rels).subset_of(all)
            &&& all.subset_of(facts(x.rels).union(folds_of(cs, all)))
            &&& forall|k: KeyV| #[trigger] all.contains(k) && !here.contains(k.0) ==> facts(x.rels).contains(k)
            &&& forall|p: Seq<char>| !folded_in(cs, strata[s], 0).contains(p) ==> #[trigger] same_facts(x.rels, e.rels, p)
        }),
{
    let stratum = strata[s];
    let here = scope_here(cs, stratum, sc.to_clear);
    let r = reset(sc, cs, here);
    let rules = stratum_rules(cs, stratum);
    let delta = pending_delta(r.rels);
    let x = fixpoint(r, now, rules, delta).st;
    let e = eval_stratum_of(r, now, cs, stratum).st;
    let t = written(cs, l, s);
    let fx = facts(x.rels);
    crate::runs::lemma_stratum_rules(cs, l, strata, s);
    lemma_reset(sc, cs, stratum);
    lemma_stratum_evaluated(cs, l, strata, s, sc.st.names);
    crate::evaluate::fixpoint_extends(r, now, rules, delta);
    lemma_fold_stratum_touches(x, cs, stratum, 0, folded_in(cs, stratum, 0));
    lemma_prefix_trans(x.names, e.names, b);
    assert forall|k: KeyV| #[trigger] holds(r.rels, k) implies known_key(r.names, k.1) by {
        assert(holds(sc.st.rels, k));
    }
    assert(agrees(all, r.rels, t)) by {
        assert forall|k: KeyV| #![trigger all.contains(k)] #![trigger holds(r.rels, k)] !t.contains(k.0) implies (all.contains(k)
            <==> holds(r.rels, k)) by {
            if here.contains(k.0) {
                lemma_here_written(cs, l, strata, s, sc.to_clear, k.0);
                assert(written_at(cs, l, k.0, s) && s >= s);
            }
            assert(all.contains(k) <==> holds(sc.st.rels, k));
        }
    }
    assert(delta.finite()) by {
        assert forall|k: KeyV| #[trigger] delta.contains(k) implies facts(r.rels).contains(k) by {}
        vstd::set_lib::lemma_set_subset_finite(facts(r.rels), delta);
    }
    lemma_refold_used(sc, now, cs, l, strata, s, b, given, all);
    assert(can_fire(r, now, rules, delta, b, all, t));
    lemma_fixpoint_least(r, now, rules, delta, b, all, t);
    lemma_part_closed(b, now, cs, l, strata, s, sc.st.names, all, all);
    assert(facts(r.rels).subset_of(all)) by {
        assert forall|k: KeyV| #[trigger] facts(r.rels).contains(k) implies all.contains(k) by {
            assert(holds(r.rels, k));
            assert(facts(sc.st.rels).contains(k));
        }
    }
    assert(fx.subset_of(all));
    assert forall|k: KeyV| #[trigger] all.contains(k) && !here.contains(k.0) implies fx.contains(k) by {
        assert(facts(sc.st.rels).contains(k));
        assert(holds(r.rels, k));
        assert(facts(r.rels).contains(k));
    }
    lemma_all_derived(sc.to_clear, sc.st.names, now, cs, l, strata, s, b, given, all, fx);
}

/// A fact after a step is one from before it, and the other way round.
proof fn lemma_step_fact(
    sc: ScopeV,
    cs: Seq<ClauseV>,
    l: Map<Seq<char>, nat>,
    strata: Seq<Seq<int>>,
    s: int,
    x: StoreV,
    e: StoreV,
    all: Set<KeyV>,
    k: KeyV,
)
    requires
        leveled(cs, l, strata),
        folds_apart(cs),
        0 <= s < strata.len(),
        rels_wf(sc.st.rels),
        rels_wf(e.rels),
        facts(sc.st.rels) == all,
        all_tallied(sc.st.rels, cs),
        all_tallied(e.rels, cs),
        facts(x.rels).subset_of(all),
        all.subset_of(facts(x.rels).union(folds_of(cs, all))),
        forall|k: KeyV| #[trigger]
            all.contains(k) && !scope_here(cs, strata[s], sc.to_clear).contains(k.0) ==> facts(x.rels).contains(k),
        forall|p: Seq<char>| !folded_in(cs, strata[s], 0).contains(p) ==> #[trigger] same_facts(x.rels, e.rels, p),
    ensures
        all.contains(k) <==> facts(e.rels).contains(k),
{
    let idx = strata[s];
    let fx = facts(x.rels);
    lemma_rule_list(cs, l, strata, s);
    if folded_in(cs, idx, 0).contains(k.0) {
        let j = choose|j: int| 0 <= j < idx.len() && aggregates(cs[#[trigger] idx[j]]) && cs[idx[j]].head.pred == k.0;
        let i = idx[j];
        let c = cs[i];
        let temp = temp_name(c, i);
        assert(0 <= i < cs.len() && !cs[i].is_fact);
        assert(is_fold(cs, i));
        assert(!folded_in(cs, idx, 0).contains(temp) && !aggregated(cs, temp)) by {
            assert forall|y: int| 0 <= y < cs.len() && !(#[trigger] cs[y]).is_fact implies cs[y].head.pred != temp by {
                lemma_apart(cs, i, y);
            }
        }
        assert(same_facts(x.rels, e.rels, temp));
        assert forall|key: Seq<Value>| #[trigger] holds(sc.st.rels, (temp, key)) <==> holds(e.rels, (temp, key)) by {
            let q: KeyV = (temp, key);
            assert(all.contains(q) <==> holds(sc.st.rels, q));
            assert(fx.contains(q) <==> holds(x.rels, q));
            assert(holds(x.rels, q) <==> holds(e.rels, q));
            if all.contains(q) {
                assert(fx.union(folds_of(cs, all)).contains(q));
            }
        }
        lemma_solutions_alike(sc.st.rels, e.rels, c, i);
        tallies_alike(c, solutions(sc.st.rels, c, i), solutions(e.rels, c, i));
        assert(is_tallied(sc.st.rels, c, i) && is_tallied(e.rels, c, i));
        assert(k == (c.head.pred, k.1));
        assert(holds(sc.st.rels, (c.head.pred, k.1)) <==> holds(e.rels, (c.head.pred, k.1)));
    } else {
        assert(same_facts(x.rels, e.rels, k.0));
        assert(holds(x.rels, k) <==> holds(e.rels, k));
        if all.contains(k) && !fx.contains(k) {
            assert(fx.union(folds_of(cs, all)).contains(k));
            if scope_here(cs, idx, sc.to_clear).contains(k.0) {
                lemma_here_written(cs, l, strata, s, sc.to_clear, k.0);
            }
        }
    }
}

// -------------------------------------------------------------------- passes

pub proof fn lemma_pass_refolds(
    sc: ScopeV,
    now: i64,
    cs: Seq<ClauseV>,
    l: Map<Seq<char>, nat>,
    strata: Seq<Seq<int>>,
    s: int,
    b: Seq<Seq<char>>,
    given: Set<KeyV>,
    all: Set<KeyV>,
)
    requires
        leveled(cs, l, strata),
        folds_apart(cs),
        0 <= s <= strata.len(),
        stands_folded(sc.st, now, cs, b, given, all),
        pass_settles(sc, now, cs, strata, s),
        scope_pass(sc, now, cs, strata, s).st.names.is_prefix_of(b),
    ensures
        stands_folded(scope_pass(sc, now, cs, strata, s).st, now, cs, b, given, all),
    decreases strata.len() - s,
{
    if s < strata.len() {
        let next = scope_step(sc, now, cs, strata, strata[s]);
        let last = scope_pass(next, now, cs, strata, s + 1);
        assert(is_strata(cs, strata));
        lemma_strata_fit(cs, strata);
        assert(indices_of(strata[s], cs.len() as int));
        assert(writes_in(cs, anything()));
        lemma_step_touches(sc, now, cs, strata, strata[s], anything());
        lemma_pass_touches(next, now, cs, strata, s + 1, anything());
        lemma_prefix_trans(next.st.names, last.st.names, b);
        lemma_step_refolds(sc, now, cs, l, strata, s, b, given, all);
        lemma_pass_refolds(next, now, cs, l, strata, s + 1, b, given, all);
    }
}

pub proof fn lemma_passes_refold(
    sc: ScopeV,
    now: i64,
    cs: Seq<ClauseV>,
    l: Map<Seq<char>, nat>,
    strata: Seq<Seq<int>>,
    n: nat,
    b: Seq<Seq<char>>,
    given: Set<KeyV>,
    all: Set<KeyV>,
)
    requires
        leveled(cs, l, strata),
        folds_apart(cs),
        stands_folded(sc.st, now, cs, b, given, all),
        passes_settle(sc, now, cs, strata, n),
        scope_passes(sc, now, cs, strata, n).st.names.is_prefix_of(b),
    ensures
        stands_folded(scope_passes(sc, now, cs, strata, n).st, now, cs, b, given, all),
    decreases n,
{
    if n > 0 && sc.to_clear != Set::<Seq<char>>::empty() {
        let next = scope_pass(sc, now, cs, strata, 0);
        let last = scope_passes(next, now, cs, strata, (n - 1) as nat);
        assert(is_strata(cs, strata));
        lemma_strata_fit(cs, strata);
        assert(writes_in(cs, anything()));
        lemma_pass_touches(sc, now, cs, strata, 0, anything());
        lemma_passes_touches(next, now, cs, strata, (n - 1) as nat, anything());
        lemma_prefix_trans(next.st.names, last.st.names, b);
        lemma_pass_refolds(sc, now, cs, l, strata, 0, b, given, all);
        lemma_passes_refold(next, now, cs, l, strata, (n - 1) as nat, b, given, all);
    }
}

/// The recomputations of a run give the model back.
pub proof fn lemma_invalidate_refolds(
    st: StoreV,
    now: i64,
    cs: Seq<ClauseV>,
    l: Map<Seq<char>, nat>,
    strata: Seq<Seq<int>>,
    mark: int,
    n: nat,
    b: Seq<Seq<char>>,
    given: Set<KeyV>,
    all: Set<KeyV>,
)
    requires
        leveled(cs, l, strata),
        folds_apart(cs),
        stands_folded(st, now, cs, b, given, all),
        invalidate_settles(st, now, cs, strata, mark, n),
        invalidate(st, now, cs, strata, mark, n).st.names.is_prefix_of(b),
    ensures
        stands_folded(invalidate(st, now, cs, strata, mark, n).st, now, cs, b, given, all),
    decreases n,
{
    let extra = stale_readers(st, cs, mark);
    if n > 0 && !(st.retracted == Set::<Seq<char>>::empty() && extra == Set::<Seq<char>>::empty()) {
        let sc = scope_begun(st, cs, strata, extra);
        let r = scoped(st, now, cs, strata, extra).st;
        let last = invalidate(r, now, cs, strata, mark, (n - 1) as nat).st;
        assert(is_strata(cs, strata));
        lemma_strata_fit(cs, strata);
        assert(writes_in(cs, anything()));
        lemma_passes_touches(sc, now, cs, strata, strata.len() + 2, anything());
        assert(r == scope_passes(sc, now, cs, strata, strata.len() + 2).st);
        lemma_invalidate_touches(r, now, cs, strata, mark, (n - 1) as nat, anything());
        lemma_prefix_trans(r.names, last.names, b);
        assert(stands_folded(sc.st, now, cs, b, given, all)) by {
            assert(orderly()(sc.st));
            assert(all_known(sc.st));
        }
        lemma_passes_refold(sc, now, cs, l, strata, strata.len() + 2, b, given, all);
        lemma_invalidate_refolds(r, now, cs, l, strata, mark, (n - 1) as nat, b, given, all);
    }
}

// ----------------------------------------------------------------------- laws

/// Law: a run from scratch of a stratified program, negation and aggregates
/// included, ends with the least solutions of all its rules over the stored
/// facts and the folds, and the folds of those solutions, with no retraction
/// left to follow up. No fact is stored or stated of a predicate that the rules
/// derive.
pub proof fn stratified_run_gives_folds(e: EngineV)
    requires
        is_sound(e.st),
        e.dirty,
        e.clauses.len() <= usize::MAX,
        folds_apart(e.clauses),
        stated_underived(e.clauses),
        all_foldable(prepared(e).st.names, e.clauses),
        run_settles(e),
        ran(e).0.st.names.len() < usize::MAX,
        forall|k: KeyV| #[trigger] holds(prepared(e).st.rels, k) ==> !defined(e.clauses, k.0) && !is_temp(k.0),
    ensures
        ({
            let r = ran(e).0.st;
            let all = facts(r.rels);
            &&& is_model(
                r.names,
                e.now,
                lowered_program(e.clauses),
                facts(prepared(e).st.rels).union(folds_of(e.clauses, all)),
                all,
            )
            &&& all_tallied(r.rels, e.clauses)
            &&& is_sound(r)
            &&& r.retracted == Set::<Seq<char>>::empty()
        }),
{
    let cs = e.clauses;
    let strata = strata_of(cs);
    let st1 = rebuilt(e.st, cs, strata, e.ever);
    let p = prepared(e).st;
    let f = eval_strata(p, e.now, cs, strata, 0).st;
    let inv = invalidate(f, e.now, cs, strata, e.mark, strata.len() + 2).st;
    let r = ran(e).0.st;
    let b = r.names;
    let given = facts(p.rels);
    let all = facts(f.rels);
    assert(b == inv.names);
    strata_exist(cs);
    let l = choose|l: Map<Seq<char>, nat>| #[trigger] is_levels(cs, l) && grouped(cs, l, strata);
    assert(leveled(cs, l, strata));
    lemma_strata_fit(cs, strata);
    lemma_rebuilt(e.st, cs, strata, e.ever);
    lemma_declare_grows(st1, cs, 0);
    assert(writes_in(cs, anything()));
    lemma_strata_touches(p, e.now, cs, strata, 0, anything());
    lemma_invalidate_touches(f, e.now, cs, strata, e.mark, strata.len() + 2, anything());
    lemma_prefix_trans(p.names, f.names, b);
    lemma_declared(st1, cs, 0);
    lemma_distinct_upheld();
    assert(distinct_names()(e.st));
    lemma_run_keeps(distinct_names(), e);
    assert(distinct_names()(run_end(e)));
    assert forall|k: KeyV| #[trigger] holds(p.rels, k) implies !aggregated(cs, k.0) && !is_temp(k.0) by {
        if aggregated(cs, k.0) {
            assert(defined(cs, k.0));
        }
    }
    lemma_strata_model(p, e.now, cs, b);
    lemma_foldable_grows(p.names, f.names, cs);
    assert(stands_folded(f, e.now, cs, b, given, all)) by {
        assert forall|k: KeyV| #[trigger] given.contains(k) implies !is_written(cs, k.0) by {
            assert(holds(p.rels, k));
            assert forall|i: int| #[trigger] is_fold(cs, i) implies k.0 != temp_name(cs[i], i) by {
                lemma_temp_prefix(cs[i], i);
            }
        }
    }
    lemma_invalidate_refolds(f, e.now, cs, l, strata, e.mark, strata.len() + 2, b, given, all);
    crate::quiet::lemma_refolds_forget(f, e.now, cs, l, strata, e.mark, strata.len() + 2, b, given, all);
    assert(r.rels == rels_settled(inv.rels));
    assert forall|k: KeyV| #[trigger] holds(r.rels, k) <==> holds(inv.rels, k) by {
        lemma_same_rows(inv.rels, rels_settled(inv.rels), k);
    }
    assert(facts(r.rels) =~= facts(inv.rels));
    assert forall|i: int| #[trigger] is_fold(cs, i) implies is_tallied(r.rels, cs[i], i) by {
        lemma_tallied_same(inv.rels, r.rels, cs[i], i);
    }
    assert(rels_wf(r.rels)) by {
        assert forall|n: Seq<char>| #[trigger] r.rels.contains_key(n) implies crate::relation::rel_wf(r.rels[n]) by {
            assert(inv.rels.contains_key(n));
        }
    }
    assert forall|k: KeyV| #[trigger] holds(r.rels, k) implies crate::restore::known_key(r.names, k.1) by {
        assert(holds(inv.rels, k));
    }
}

} // verus!

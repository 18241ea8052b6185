//! Uniqueness: the model of a stratified program with aggregates is determined
//! by the stated facts, so that recomputing what retractions affect gives what
//! a fresh evaluation of the remaining facts gives.

use vstd::prelude::*;
use crate::ast::ClauseV;
use crate::engine::{lemma_strata_fit, prepared, ran, EngineV};
use crate::env::Bindings;
use crate::evaluate::{is_temp, pending_delta, stratum_rules, temp_name};
use crate::exact::{
    alike, closed_for, comparisons_known, covers, defined_in, is_exact, lemma_body_moves, lemma_exact_later, lemma_exact_model,
    lemma_exact_part, lemma_model_exact, outside, patched,
};
use crate::folds::{all_foldable, folds_of, is_foldable, lemma_foldable_grows, lowered_program};
use crate::follow::{given_in, keeps_up, lemma_between_exact, lemma_given_underived, lemma_layout, not_reading, reads_any, stated_underived};
use crate::frame::{lemma_pass_touches, lemma_passes_touches, lemma_step_touches, writes_in};
use crate::laid::{
    base_levels, folded_at, is_written, laid, lemma_filled_laid, lemma_list_laid, lemma_negated_below, lemma_rule_covered,
    lemma_rule_laid, lemma_spared_alike, lemma_strata_laid, ruled_at,
};
use crate::model::{all_known, body_true, constants_known, distinct_names, facts, head_fact, leads_into};
use crate::order::tallies_alike;
use crate::perfect::{is_model, leveled, settled};
use crate::quiet::{lemma_folds_kept, lemma_passes_kept, only_tallies};
use crate::recompute::{direct_reader, scope_here, scope_pass, scope_passes, scope_step, scoped, ScopeV};
use crate::refold::{lemma_solutions_alike, stratified_run_gives_folds};
use crate::relation::KeyV;
use crate::renew::{
    fresh, going_on, half_stepped, is_step, lemma_cleared_with, lemma_due, lemma_exact_stands, lemma_folds_alike, lemma_pass_tidy,
    lemma_passes_stand, lemma_ruled_defined, lemma_step_alike, lemma_step_parts, lemma_step_tidy, stepped, tidy, unwritten,
};
use crate::runs::{is_sound, lemma_clear_retracts_none, set_known};
use crate::scope::{
    anything, lemma_distinct_upheld, lemma_none_restated, lemma_none_stated, lemma_reset, orderly, pass_settles, passes_settle, reset,
    run_settles, scope_begun, seeded_store, step_settles,
};
use crate::solve::lemma_prefix_trans;
use crate::sorted_set::enumerate;
use crate::store::{holds, rels_wf, RelsV};
use crate::stratify::{aggregated, aggregates, defined, strata_of};
use crate::tally::{all_tallied, folds_apart, is_fold, is_tallied, is_tally, solutions};
use crate::upkeep::lemma_scope_keeps;
use crate::value::Value;

verus! {

// -------------------------------------------------------------------- models

/// Two sets have the same facts of what no rule writes and of the relations
/// below a level.
spec fn alike_below(l: Map<Seq<char>, nat>, s: int, a: Set<KeyV>, b: Set<KeyV>) -> bool {
    forall|q: Seq<char>| !(#[trigger] l.contains_key(q)) || l[q] < s ==> alike(a, b, q)
}

/// Of two models that agree below a level, the facts that rules fill at the
/// level are in the other.
proof fn lemma_level_within(
    names: Seq<Seq<char>>,
    now: i64,
    cs: Seq<ClauseV>,
    l: Map<Seq<char>, nat>,
    strata: Seq<Seq<int>>,
    s: int,
    a: Set<KeyV>,
    b: Set<KeyV>,
    p: Seq<char>,
)
    requires
        laid(cs, l, strata),
        0 <= s < strata.len(),
        alike_below(l, s, a, b),
        is_exact(names, now, lowered_program(cs), defined_in(lowered_program(cs)), a),
        is_exact(names, now, lowered_program(cs), defined_in(lowered_program(cs)), b),
        ruled_at(cs, l, s).contains(p),
    ensures
        covers(a, b, p),
{
    let low = lowered_program(cs);
    let ps = ruled_at(cs, l, s);
    assert forall|q: Seq<char>| #[trigger] ps.contains(q) implies defined_in(low).contains(q) by {
        let k = lemma_filled_laid(cs, l, strata, q);
        lemma_ruled_defined(cs, l, strata, q);
    }
    lemma_exact_part(names, now, low, defined_in(low), ps, a);
    let m = patched(a, ps, b);
    assert(closed_for(names, now, low, ps, m, a)) by {
        assert forall|i: int| 0 <= i < low.len() && !(#[trigger] low[i]).is_fact && ps.contains(low[i].head.pred) implies leads_into(
            names,
            now,
            low[i],
            m,
            a,
            m,
        ) by {
            let c = low[i];
            assert(!cs[i].is_fact);
            lemma_rule_laid(cs, l, strata, i);
            assert(l[cs[i].head.pred] == s);
            assert forall|q: Seq<char>|
                #[trigger] crate::recompute::body_reads(cs[i], q) && (!l.contains_key(q) || (l[q] <= l[cs[i].head.pred] && !folded_at(
                    cs,
                    l,
                    l[cs[i].head.pred] as int,
                ).contains(q))) implies covers(m, b, q) by {
                if !ps.contains(q) {
                    assert(!l.contains_key(q) || l[q] < s);
                    assert(alike(a, b, q));
                }
            }
            lemma_rule_covered(cs, l, strata, i, m, b);
            lemma_negated_below(cs, l, strata, i, a, b);
            assert(defined_in(low).contains(c.head.pred));
            assert(leads_into(names, now, c, b, b, b));
            assert forall|y: Bindings| #[trigger] body_true(names, now, c, m, a, y) && head_fact(names, c, y) is Some implies m.contains(
                head_fact(names, c, y)->Some_0,
            ) by {
                lemma_body_moves(names, now, c, m, a, b, b, y);
            }
        }
    }
    assert(outside(a, ps).subset_of(m));
    assert(a.subset_of(m));
    assert forall|key: Seq<Value>| #[trigger] a.contains((p, key)) implies b.contains((p, key)) by {
        assert(m.contains((p, key)));
    }
}

/// Two models with the same facts that no rule writes agree below every level.
proof fn lemma_models_alike(
    names: Seq<Seq<char>>,
    now: i64,
    cs: Seq<ClauseV>,
    l: Map<Seq<char>, nat>,
    strata: Seq<Seq<int>>,
    s: int,
    a: RelsV,
    b: RelsV,
)
    requires
        laid(cs, l, strata),
        0 <= s <= strata.len(),
        rels_wf(a),
        rels_wf(b),
        all_tallied(a, cs),
        all_tallied(b, cs),
        is_exact(names, now, lowered_program(cs), defined_in(lowered_program(cs)), facts(a)),
        is_exact(names, now, lowered_program(cs), defined_in(lowered_program(cs)), facts(b)),
        unwritten(cs, facts(a)) == unwritten(cs, facts(b)),
    ensures
        alike_below(l, s, facts(a), facts(b)),
    decreases s,
{
    if s == 0 {
        assert forall|q: Seq<char>| !(#[trigger] l.contains_key(q)) || l[q] < 0 implies alike(facts(a), facts(b), q) by {
            assert(!is_written(cs, q));
            assert forall|key: Seq<Value>| #[trigger] facts(a).contains((q, key)) implies facts(b).contains((q, key)) by {
                assert(unwritten(cs, facts(a)).contains((q, key)));
                assert(unwritten(cs, facts(b)).contains((q, key)));
            }
            assert forall|key: Seq<Value>| #[trigger] facts(b).contains((q, key)) implies facts(a).contains((q, key)) by {
                assert(unwritten(cs, facts(b)).contains((q, key)));
                assert(unwritten(cs, facts(a)).contains((q, key)));
            }
        }
    } else {
        lemma_models_alike(names, now, cs, l, strata, s - 1, a, b);
        assert forall|q: Seq<char>| #[trigger] ruled_at(cs, l, s - 1).contains(q) implies alike(facts(a), facts(b), q) by {
            lemma_level_within(names, now, cs, l, strata, s - 1, facts(a), facts(b), q);
            assert(alike_below(l, s - 1, facts(b), facts(a))) by {
                assert forall|y: Seq<char>| !(#[trigger] l.contains_key(y)) || l[y] < s - 1 implies alike(facts(b), facts(a), y) by {
                    assert(alike(facts(a), facts(b), y));
                }
            }
            lemma_level_within(names, now, cs, l, strata, s - 1, facts(b), facts(a), q);
        }
        assert forall|q: Seq<char>| !(#[trigger] l.contains_key(q)) || l[q] < s implies alike(facts(a), facts(b), q) by {
            if l.contains_key(q) && l[q] == s - 1 {
                if aggregated(cs, q) {
                    let i = choose|i: int| 0 <= i < cs.len() && !(#[trigger] cs[i]).is_fact && aggregates(cs[i]) && cs[i].head.pred == q;
                    assert(is_fold(cs, i));
                    lemma_rule_laid(cs, l, strata, i);
                    assert(ruled_at(cs, l, s - 1).contains(temp_name(cs[i], i)));
                    lemma_folds_alike(a, b, cs, i);
                } else {
                    assert(ruled_at(cs, l, s - 1).contains(q));
                }
            }
        }
    }
}

/// Law: a stratified program has one model over given facts. Two stores that
/// hold the least solutions of all rules over the same stated facts and their
/// folds, and the folds of those solutions, hold the same facts.
pub proof fn models_unique(names: Seq<Seq<char>>, now: i64, cs: Seq<ClauseV>, given: Set<KeyV>, a: RelsV, b: RelsV)
    requires
        cs.len() <= usize::MAX,
        folds_apart(cs),
        rels_wf(a),
        rels_wf(b),
        is_model(names, now, lowered_program(cs), given_in(cs, given, facts(a)), facts(a)),
        is_model(names, now, lowered_program(cs), given_in(cs, given, facts(b)), facts(b)),
        all_tallied(a, cs),
        all_tallied(b, cs),
    ensures
        facts(a) == facts(b),
{
    let l = lemma_layout(cs);
    let strata = strata_of(cs);
    let low = lowered_program(cs);
    lemma_given_underived(cs, l, strata, given, facts(a));
    lemma_given_underived(cs, l, strata, given, facts(b));
    lemma_model_exact(names, now, low, given_in(cs, given, facts(a)), facts(a));
    lemma_model_exact(names, now, low, given_in(cs, given, facts(b)), facts(b));
    lemma_unwritten_given(names, now, cs, l, strata, given, facts(a));
    lemma_unwritten_given(names, now, cs, l, strata, given, facts(b));
    lemma_models_alike(names, now, cs, l, strata, strata.len() as int, a, b);
    assert forall|k: KeyV| #![trigger facts(a).contains(k)] #![trigger facts(b).contains(k)] facts(a).contains(k) == facts(b).contains(k) by {
        if l.contains_key(k.0) {
            let j = lemma_filled_laid(cs, l, strata, k.0);
        }
        assert(alike(facts(a), facts(b), k.0));
        assert(facts(a).contains((k.0, k.1)) == facts(b).contains((k.0, k.1)));
    }
    assert(facts(a) =~= facts(b));
}

/// The facts of a model that no rule writes are those that were given.
proof fn lemma_unwritten_given(
    names: Seq<Seq<char>>,
    now: i64,
    cs: Seq<ClauseV>,
    l: Map<Seq<char>, nat>,
    strata: Seq<Seq<int>>,
    given: Set<KeyV>,
    all: Set<KeyV>,
)
    requires
        laid(cs, l, strata),
        is_model(names, now, lowered_program(cs), given_in(cs, given, all), all),
    ensures
        unwritten(cs, all) == unwritten(cs, given),
{
    crate::follow::lemma_only_given(names, now, cs, l, strata, unwritten(cs, given), all);
}

// --------------------------------------------------------------- recomputing

/// A step of a recomputation retracts nothing.
proof fn lemma_step_loses_none(
    sc: ScopeV,
    now: i64,
    cs: Seq<ClauseV>,
    l: Map<Seq<char>, nat>,
    strata: Seq<Seq<int>>,
    s: int,
    b: Seq<Seq<char>>,
)
    requires
        laid(cs, l, strata),
        0 <= s < strata.len(),
        tidy(sc, now, cs, l, strata, s, b),
        step_settles(sc, now, cs, strata[s]),
        scope_step(sc, now, cs, strata, strata[s]).st.names.is_prefix_of(b),
    ensures
        scope_step(sc, now, cs, strata, strata[s]).st.retracted == sc.st.retracted,
{
    let idx = strata[s];
    let here = scope_here(cs, idx, sc.to_clear);
    if here != Set::<Seq<char>>::empty() {
        let r = reset(sc, cs, here);
        let x = half_stepped(sc, now, cs, idx);
        let e = stepped(sc, now, cs, idx);
        assert(is_step(sc, now, cs, l, strata, s, b));
        lemma_step_parts(sc, now, cs, l, strata, s, b);
        crate::laid::lemma_list_laid(cs, l, strata, s);
        lemma_reset(sc, cs, idx);
        lemma_clear_retracts_none(sc.st, enumerate::<String>(here));
        lemma_none_stated(cs, idx, sc.to_clear);
        lemma_none_restated(seeded_store(sc, cs, here), cs, here, 0);
        crate::evaluate::fixpoint_extends(r, now, stratum_rules(cs, idx), pending_delta(r.rels));
        lemma_list_laid(cs, l, strata, s);
        assert forall|j: int| 0 <= j < idx.len() && aggregates(cs[#[trigger] idx[j]]) implies only_tallies(
            x.rels,
            cs[idx[j]],
            solutions(x.rels, cs[idx[j]], idx[j]),
        ) by {
            let i = idx[j];
            assert(0 <= i < cs.len() && !cs[i].is_fact);
            assert(is_fold(cs, i));
            lemma_step_tallies(sc, now, cs, l, strata, s, b, i);
        }
        lemma_folds_kept(x, cs, idx, 0);
    }
}

/// Before the folds of a step an aggregated predicate holds folds only.
proof fn lemma_step_tallies(
    sc: ScopeV,
    now: i64,
    cs: Seq<ClauseV>,
    l: Map<Seq<char>, nat>,
    strata: Seq<Seq<int>>,
    s: int,
    b: Seq<Seq<char>>,
    i: int,
)
    requires
        is_step(sc, now, cs, l, strata, s, b),
        tidy(sc, now, cs, l, strata, s, b),
        is_fold(cs, i),
    ensures
        only_tallies(
            half_stepped(sc, now, cs, strata[s]).rels,
            cs[i],
            solutions(half_stepped(sc, now, cs, strata[s]).rels, cs[i], i),
        ),
{
    let idx = strata[s];
    let here = scope_here(cs, idx, sc.to_clear);
    let r = reset(sc, cs, here);
    let x = half_stepped(sc, now, cs, idx);
    let e = stepped(sc, now, cs, idx);
    let c = cs[i];
    let p = c.head.pred;
    let temp = temp_name(c, i);
    lemma_step_parts(sc, now, cs, l, strata, s, b);
    crate::laid::lemma_list_laid(cs, l, strata, s);
    lemma_reset(sc, cs, idx);
    lemma_rule_laid(cs, l, strata, i);
    crate::evaluate::fixpoint_extends(r, now, stratum_rules(cs, idx), pending_delta(r.rels));
    lemma_spared_alike(r.rels, x.rels, ruled_at(cs, l, s), p);
    if here.contains(p) {
        assert forall|key: Seq<Value>| !(#[trigger] holds(x.rels, (p, key))) by {
            if holds(x.rels, (p, key)) {
                assert(facts(x.rels).contains((p, key)));
                assert(facts(r.rels).contains((p, key)));
                assert(holds(r.rels, (p, key)));
            }
        }
    } else {
        if here.contains(temp) {
            lemma_cleared_with(cs, l, strata, s, sc.to_clear, i);
        }
        lemma_step_alike(sc, now, cs, l, strata, s, b, temp);
        lemma_spared_alike(x.rels, e.rels, folded_at(cs, l, s), temp);
        assert(alike(facts(sc.st.rels), facts(x.rels), temp));
        assert(alike(facts(sc.st.rels), facts(r.rels), p));
        assert forall|key: Seq<Value>| #[trigger] holds(sc.st.rels, (temp, key)) <==> holds(x.rels, (temp, key)) by {
            assert(facts(sc.st.rels).contains((temp, key)) == holds(sc.st.rels, (temp, key)));
            assert(facts(x.rels).contains((temp, key)) == holds(x.rels, (temp, key)));
        }
        lemma_solutions_alike(sc.st.rels, x.rels, c, i);
        tallies_alike(c, solutions(sc.st.rels, c, i), solutions(x.rels, c, i));
        assert(is_tallied(sc.st.rels, c, i));
        assert forall|key: Seq<Value>| #[trigger] holds(x.rels, (p, key)) implies is_tally(c, solutions(x.rels, c, i), key) by {
            assert(facts(x.rels).contains((p, key)));
            assert(facts(r.rels).contains((p, key)));
            assert(facts(sc.st.rels).contains((p, key)));
            assert(holds(sc.st.rels, (p, key)));
        }
    }
}

proof fn lemma_pass_loses_none(
    sc: ScopeV,
    now: i64,
    cs: Seq<ClauseV>,
    l: Map<Seq<char>, nat>,
    strata: Seq<Seq<int>>,
    s: int,
    b: Seq<Seq<char>>,
)
    requires
        laid(cs, l, strata),
        0 <= s <= strata.len(),
        tidy(sc, now, cs, l, strata, s, b),
        pass_settles(sc, now, cs, strata, s),
        scope_pass(sc, now, cs, strata, s).st.names.is_prefix_of(b),
    ensures
        scope_pass(sc, now, cs, strata, s).st.retracted == sc.st.retracted,
    decreases strata.len() - s,
{
    if s < strata.len() {
        let next = scope_step(sc, now, cs, strata, strata[s]);
        let last = scope_pass(next, now, cs, strata, s + 1);
        lemma_strata_laid(cs, l, strata);
        lemma_strata_fit(cs, strata);
        assert(crate::evaluate::indices_of(strata[s], cs.len() as int));
        assert(writes_in(cs, anything()));
        lemma_step_touches(sc, now, cs, strata, strata[s], anything());
        lemma_pass_touches(next, now, cs, strata, s + 1, anything());
        lemma_prefix_trans(next.st.names, last.st.names, b);
        lemma_step_loses_none(sc, now, cs, l, strata, s, b);
        lemma_step_tidy(sc, now, cs, l, strata, s, b);
        lemma_pass_loses_none(next, now, cs, l, strata, s + 1, b);
    }
}

/// The passes of a recomputation retract nothing.
proof fn lemma_passes_lose_none(
    sc: ScopeV,
    now: i64,
    cs: Seq<ClauseV>,
    l: Map<Seq<char>, nat>,
    strata: Seq<Seq<int>>,
    n: nat,
    b: Seq<Seq<char>>,
)
    requires
        laid(cs, l, strata),
        tidy(sc, now, cs, l, strata, 0, b),
        passes_settle(sc, now, cs, strata, n),
        scope_passes(sc, now, cs, strata, n).st.names.is_prefix_of(b),
    ensures
        scope_passes(sc, now, cs, strata, n).st.retracted == sc.st.retracted,
{
    if n > 0 && sc.to_clear != Set::<Seq<char>>::empty() {
        let next = scope_pass(sc, now, cs, strata, 0);
        let last = scope_passes(next, now, cs, strata, (n - 1) as nat);
        let m = base_levels(cs, l, strata);
        assert(leveled(cs, m, strata));
        lemma_strata_laid(cs, l, strata);
        lemma_strata_fit(cs, strata);
        assert(writes_in(cs, anything()));
        lemma_pass_touches(sc, now, cs, strata, 0, anything());
        lemma_passes_touches(next, now, cs, strata, (n - 1) as nat, anything());
        lemma_prefix_trans(next.st.names, last.st.names, b);
        lemma_pass_loses_none(sc, now, cs, l, strata, 0, b);
        lemma_pass_tidy(sc, now, cs, l, strata, 0, b);
        lemma_exact_stands(next, now, cs, l, strata, b);
        lemma_passes_kept(
            next,
            now,
            cs,
            m,
            strata,
            (n - 1) as nat,
            b,
            unwritten(cs, facts(next.st.rels)),
            facts(next.st.rels),
        );
    }
}

/// Law: recomputing what retractions affect gives the model again. Where facts
/// that no rule writes were retracted since a run, and none declared, one
/// recomputation ends with the least solutions of all rules over the remaining
/// facts and the folds, and the folds of those solutions, and no retraction is
/// left to follow up.
pub proof fn recomputing_gives_model(e: EngineV, a: Seq<Seq<char>>, m: Set<KeyV>)
    requires
        keeps_up(e, a, m),
        e.clauses.len() <= usize::MAX,
        folds_apart(e.clauses),
        stated_underived(e.clauses),
        pending_delta(e.st.rels) == Set::<KeyV>::empty(),
        ({
            let strata = strata_of(e.clauses);
            let none = Set::<Seq<char>>::empty();
            &&& passes_settle(scope_begun(e.st, e.clauses, strata, none), e.now, e.clauses, strata, strata.len() + 2)
            &&& scoped(e.st, e.now, e.clauses, strata, none).st.names.len() < usize::MAX
        }),
    ensures
        ({
            let r = scoped(e.st, e.now, e.clauses, strata_of(e.clauses), Set::empty()).st;
            let all = facts(r.rels);
            &&& is_model(r.names, e.now, lowered_program(e.clauses), given_in(e.clauses, facts(e.st.rels), all), all)
            &&& all_tallied(r.rels, e.clauses)
            &&& rels_wf(r.rels)
            &&& all_known(r)
            &&& e.st.names.is_prefix_of(r.names)
            &&& r.retracted == Set::<Seq<char>>::empty()
        }),
{
    let cs = e.clauses;
    let strata = strata_of(cs);
    let none = Set::<Seq<char>>::empty();
    let sc = scope_begun(e.st, cs, strata, none);
    let n = strata.len() + 2;
    let r = scope_passes(sc, e.now, cs, strata, n).st;
    let b = r.names;
    let low = lowered_program(cs);
    let l = lemma_layout(cs);
    let good = fresh(cs, l, strata, sc.to_clear);
    assert(r == scoped(e.st, e.now, cs, strata, none).st);
    lemma_strata_laid(cs, l, strata);
    lemma_strata_fit(cs, strata);
    assert(writes_in(cs, anything()));
    lemma_passes_touches(sc, e.now, cs, strata, n, anything());
    lemma_prefix_trans(a, e.st.names, b);
    lemma_foldable_grows(a, e.st.names, cs);
    lemma_distinct_upheld();
    assert(distinct_names()(sc.st));
    lemma_scope_keeps(distinct_names(), sc, e.now, cs, strata, n);
    assert(distinct_names()(r));
    lemma_between_exact(e, a, b, m);
    assert(settled(e.st.rels) =~= facts(e.st.rels));
    assert forall|p: Seq<char>| #[trigger] good.contains(p) implies not_reading(cs, e.st.retracted).contains(p) by {
        let k = lemma_filled_laid(cs, l, strata, p);
        assert(!sc.to_clear.contains(p)) by {
            if sc.to_clear.contains(p) {
                lemma_due(cs, l, strata, sc.to_clear, p);
            }
        }
        if reads_any(cs, p, e.st.retracted) {
            let q = choose|q: Seq<char>| e.st.retracted.contains(q) && #[trigger] direct_reader(cs, q, p);
        }
    }
    lemma_exact_part(b, e.now, low, not_reading(cs, e.st.retracted), good, facts(e.st.rels));
    assert(going_on(sc.st, cs, b)) by {
        assert(orderly()(sc.st));
        assert(all_known(sc.st));
    }
    assert(tidy(sc, e.now, cs, l, strata, 0, b));
    assert(b.is_prefix_of(b));
    lemma_passes_stand(sc, e.now, cs, l, strata, n, b);
    lemma_passes_lose_none(sc, e.now, cs, l, strata, n, b);
}

/// A model stays one with names that come later.
proof fn lemma_model_later(a: Seq<Seq<char>>, b: Seq<Seq<char>>, now: i64, cs: Seq<ClauseV>, given: Set<KeyV>, all: Set<KeyV>)
    requires
        cs.len() <= usize::MAX,
        folds_apart(cs),
        a.is_prefix_of(b),
        b.no_duplicates(),
        b.len() < usize::MAX,
        all_foldable(a, cs),
        set_known(a, all),
        is_model(a, now, lowered_program(cs), given_in(cs, given, all), all),
    ensures
        is_model(b, now, lowered_program(cs), given_in(cs, given, all), all),
{
    let low = lowered_program(cs);
    let l = lemma_layout(cs);
    let strata = strata_of(cs);
    lemma_given_underived(cs, l, strata, given, all);
    lemma_model_exact(a, now, low, given_in(cs, given, all), all);
    lemma_unwritten_given(a, now, cs, l, strata, given, all);
    assert(comparisons_known(a, low)) by {
        assert forall|i: int| 0 <= i < low.len() && !(#[trigger] low[i]).is_fact implies constants_known(a, low[i]) by {
            assert(is_foldable(a, cs[i], i));
            lemma_rule_laid(cs, l, strata, i);
        }
    }
    lemma_exact_later(a, b, now, low, defined_in(low), all);
    assert forall|k: KeyV| #[trigger] all.contains(k) && !defined(low, k.0) implies given_in(cs, given, all).contains(k) by {
        lemma_ruled_defined(cs, l, strata, k.0);
        if !is_written(cs, k.0) {
            assert(unwritten(cs, all).contains(k));
        }
    }
    lemma_exact_model(b, now, low, given_in(cs, given, all), all);
}

/// Law: recomputing what retractions affect gives what a fresh evaluation of
/// the remaining facts gives. The fresh engine holds the facts that are left
/// and that no rule writes, with their symbols numbered the same, and runs the
/// program from scratch.
pub proof fn recomputing_as_fresh(e: EngineV, a: Seq<Seq<char>>, m: Set<KeyV>, o: EngineV)
    requires
        keeps_up(e, a, m),
        e.clauses.len() <= usize::MAX,
        folds_apart(e.clauses),
        stated_underived(e.clauses),
        pending_delta(e.st.rels) == Set::<KeyV>::empty(),
        ({
            let strata = strata_of(e.clauses);
            let none = Set::<Seq<char>>::empty();
            &&& passes_settle(scope_begun(e.st, e.clauses, strata, none), e.now, e.clauses, strata, strata.len() + 2)
            &&& scoped(e.st, e.now, e.clauses, strata, none).st.names.is_prefix_of(o.st.names)
        }),
        is_sound(o.st),
        o.dirty,
        o.clauses == e.clauses,
        o.now == e.now,
        facts(prepared(o).st.rels) == unwritten(e.clauses, facts(e.st.rels)),
        forall|k: KeyV| #[trigger] holds(prepared(o).st.rels, k) ==> !is_temp(k.0),
        run_settles(o),
        ran(o).0.st.names.len() < usize::MAX,
    ensures
        ({
            let r = scoped(e.st, e.now, e.clauses, strata_of(e.clauses), Set::empty()).st;
            facts(r.rels) == facts(ran(o).0.st.rels) && r.retracted == Set::<Seq<char>>::empty()
        }),
{
    let cs = e.clauses;
    let strata = strata_of(cs);
    let r = scoped(e.st, e.now, cs, strata, Set::empty()).st;
    let f = ran(o).0.st;
    let given = unwritten(cs, facts(e.st.rels));
    let p = prepared(o).st;
    crate::follow::lemma_run_names(o);
    crate::runs::lemma_rebuilt(o.st, cs, strata, o.ever);
    crate::runs::lemma_declare_grows(crate::recompute::rebuilt(o.st, cs, strata, o.ever), cs, 0);
    lemma_prefix_trans(r.names, o.st.names, p.names);
    lemma_prefix_trans(r.names, p.names, f.names);
    recomputing_gives_model(e, a, m);
    lemma_prefix_trans(a, e.st.names, r.names);
    lemma_foldable_grows(a, r.names, cs);
    lemma_foldable_grows(r.names, p.names, cs);
    assert forall|k: KeyV| #[trigger] holds(p.rels, k) implies !defined(cs, k.0) && !is_temp(k.0) by {
        assert(facts(p.rels).contains(k));
        assert(given.contains(k));
    }
    stratified_run_gives_folds(o);
    assert(set_known(r.names, facts(r.rels))) by {
        assert forall|k: KeyV| #[trigger] facts(r.rels).contains(k) implies crate::restore::known_key(r.names, k.1) by {
            assert(holds(r.rels, k));
        }
    }
    lemma_model_later(r.names, f.names, e.now, cs, facts(e.st.rels), facts(r.rels));
    assert(given_in(cs, facts(e.st.rels), facts(f.rels)) == facts(p.rels).union(folds_of(cs, facts(f.rels))));
    models_unique(f.names, e.now, cs, facts(e.st.rels), r.rels, f.rels);
}

} // verus!

//! Recomputing what is affected: where the facts are a model already, a
//! recomputation gives them back, so that a whole run from scratch gives the
//! model of a program with negation too.

use vstd::prelude::*;
use crate::ast::{ClauseV, LitV};
use crate::deep::lemma_clear_each_facts;
use crate::engine::{declare_facts, eval_strata, invalidate, lemma_strata_fit, prepared, ran, stale_readers, EngineV};
use crate::env::Bindings;
use crate::evaluate::{eval_stratum_of, fixpoint, has_atom, indices_of, pending_delta, settles, stratum_rules};
use crate::feed::lemma_retract_facts;
use crate::follow::stated_underived;
use crate::frame::{lemma_here_finite, lemma_invalidate_touches, lemma_pass_touches, lemma_passes_touches, lemma_step_touches, writes_in};
use crate::model::{
    agrees, all_known, body_true, closed_under, distinct_names, facts, head_fact, is_instance, leads_into, lemma_fixpoint_least,
    lemma_head_distinct, lit_true, used,
};
use crate::perfect::{
    above, all_simple, derived_from, in_run, is_model, is_rule_at, is_simple, lemma_asserted, lemma_nothing_folded, lemma_simple_grows,
    lemma_strata_least, lemma_strata_spares, lemma_stratum, leveled, pending_held, program_closed, settled, strata_settle,
};
use crate::recompute::{
    body_reads, clear_each, direct_reader, filled_by, lit_reads, owner, rebuilt, rels_seed_set, scope_here, scope_pass, scope_passes,
    scope_queued, scope_seeds, scope_start, scope_step, scoped, stated_in, tuples_of, ScopeV,
};
use crate::relation::{rel_wf, FactV, KeyV};
use crate::runs::{
    is_sound, lemma_declare_grows, lemma_declared, lemma_key_set, lemma_nothing_derived, lemma_rebuilt, lemma_same_rows,
    lemma_stratum_rules, no_aggregates,
};
use crate::solve::lemma_prefix_trans;
use crate::sorted_set::{enumerate, lemma_enumerable};
use crate::store::{holds, rel_seeded, rels_settled, rels_wf, store_assert, store_clear, store_retract, RelsV, StoreV};
use crate::stratify::{aggregates, defined, grouped, is_levels, is_strata, strata_error, strata_exist, strata_of};
use crate::tally::plainly_named;
use crate::upkeep::{lemma_stratum_keeps, reseeded, upheld, with_rels};
use crate::value::Value;

verus! {

// --------------------------------------------------------------- invariants

/// Only stored facts are pending, and the facts are finitely many.
pub open spec fn orderly() -> spec_fn(StoreV) -> bool {
    |st: StoreV| rels_wf(st.rels) && pending_held(st.rels) && facts(st.rels).finite()
}

/// The single changes of a store keep it orderly.
pub proof fn lemma_orderly_upheld()
    ensures
        upheld(orderly()),
{
    let p = orderly();
    crate::relation::lemma_empty_wf();
    assert forall|st: StoreV, k: KeyV, f: FactV| p(st) && f.supports.len() == 1 implies #[trigger] p(store_assert(st, k, f)) by {
        crate::solve::lemma_store_assert(st, k, f);
        lemma_asserted(st, k, f);
    }
    assert forall|st: StoreV, k: KeyV| p(st) implies #[trigger] p(store_retract(st, k)) by {
        lemma_retract_facts(st, k);
        let r = store_retract(st, k).rels;
        assert forall|j: KeyV| #[trigger] pending_delta(r).contains(j) implies holds(r, j) by {
            assert(pending_delta(st.rels).contains(j) && j != k) by {
                lemma_removed_pending(st, k, j);
            }
            assert(facts(r).contains(j) <==> facts(st.rels).remove(k).contains(j));
        }
    }
    assert forall|st: StoreV, n: Seq<char>| p(st) implies #[trigger] p(store_clear(st, n)) by {
        let r = store_clear(st, n).rels;
        assert forall|k: KeyV| #[trigger] holds(r, k) implies holds(st.rels, k) by {}
        assert(facts(r).subset_of(facts(st.rels)));
        vstd::set_lib::lemma_set_subset_finite(facts(st.rels), facts(r));
        assert forall|k: KeyV| #[trigger] pending_delta(r).contains(k) implies holds(r, k) by {
            assert(pending_delta(st.rels).contains(k));
        }
    }
    assert forall|st: StoreV, rels: RelsV| p(st) && reseeded(st.rels, rels) implies #[trigger] p(with_rels(st, rels)) by {
        assert forall|n: Seq<char>| #[trigger] rels.contains_key(n) implies rel_wf(rels[n]) by {
            assert(st.rels.contains_key(n));
        }
        assert forall|k: KeyV| #[trigger] holds(rels, k) <==> holds(st.rels, k) by {
            assert(rels.contains_key(k.0) <==> st.rels.contains_key(k.0));
        }
        assert(facts(rels) =~= facts(st.rels));
        assert forall|k: KeyV| #[trigger] pending_delta(rels).contains(k) implies holds(rels, k) by {
            assert(st.rels.contains_key(k.0));
            lemma_key_set(st.rels[k.0], k.1);
            if st.rels[k.0].pending.contains(k.1) {
                assert(pending_delta(st.rels).contains(k));
            }
        }
    }
}

/// A retracted fact is no longer pending, and no other becomes so.
pub proof fn lemma_removed_pending(st: StoreV, k: KeyV, j: KeyV)
    requires
        pending_delta(store_retract(st, k).rels).contains(j),
    ensures
        pending_delta(st.rels).contains(j),
        j != k,
{
    let r = store_retract(st, k).rels;
    if st.rels.contains_key(k.0) {
        if j.0 == k.0 {
            assert(r[k.0].pending == crate::relation::rel_remove(st.rels[k.0], k.1).pending.remove(k.1));
        }
    }
}

// ------------------------------------------------------------- recomputing

/// The stored facts are a model of the program over the given ones, under
/// names that may still grow.
pub open spec fn stands(
    st: StoreV,
    now: i64,
    cs: Seq<ClauseV>,
    b: Seq<Seq<char>>,
    given: Set<KeyV>,
    all: Set<KeyV>,
) -> bool {
    &&& orderly()(st)
    &&& all_known(st)
    &&& all_simple(st.names, cs)
    &&& st.names.is_prefix_of(b)
    &&& b.no_duplicates()
    &&& b.len() < usize::MAX
    &&& facts(st.rels) == all
    &&& stated_underived(cs)
    &&& is_model(b, now, cs, given, all)
    &&& forall|k: KeyV| #[trigger] given.contains(k) ==> !defined(cs, k.0)
}

/// The store in which a stratum is evaluated once more.
pub open spec fn reset(sc: ScopeV, cs: Seq<ClauseV>, here: Set<Seq<char>>) -> StoreV {
    declare_facts(seeded_store(sc, cs, here), stated_in(cs, here), 0)
}

/// The store in which what a stratum clears is gone and what its rules read is
/// pending.
pub open spec fn seeded_store(sc: ScopeV, cs: Seq<ClauseV>, here: Set<Seq<char>>) -> StoreV {
    let cleared = clear_each(sc.st, enumerate::<String>(here));
    StoreV { rels: rels_seed_set(cleared.rels, scope_seeds(cs, here)), ..cleared }
}

/// The predicates of a stratum that are cleared are defined at its level.
pub proof fn lemma_here(cs: Seq<ClauseV>, l: Map<Seq<char>, nat>, strata: Seq<Seq<int>>, s: int, to_clear: Set<Seq<char>>, p: Seq<char>)
    requires
        leveled(cs, l, strata),
        no_aggregates(cs),
        0 <= s < strata.len(),
        scope_here(cs, strata[s], to_clear).contains(p),
    ensures
        defined(cs, p),
        l.contains_key(p),
        l[p] == s,
{
    let k = choose|k: int| 0 <= k < strata[s].len() && filled_by(cs, #[trigger] strata[s][k], p);
    lemma_stratum_rules(cs, l, strata, s);
    let ci = strata[s][k];
    assert(0 <= ci < cs.len() && !cs[ci].is_fact);
    assert(!aggregates(cs[ci]));
    assert(cs[ci].head.pred == p);
    let from = Seq::new(cs.len(), |i: int| i);
    let keep = crate::stratify::at_level(cs, l, s);
    assert(strata[s] == from.filter(keep));
    from.lemma_filter_pred(keep, k);
}

/// No fact is stated of the given relations.
pub open spec fn none_stated(cs: Seq<ClauseV>, ps: Set<Seq<char>>) -> bool {
    forall|i: int| 0 <= i < cs.len() && (#[trigger] cs[i]).is_fact ==> !ps.contains(cs[i].head.pred)
}

/// Where no fact is stated of relations, stating theirs changes nothing.
pub proof fn lemma_none_restated(st: StoreV, cs: Seq<ClauseV>, ps: Set<Seq<char>>, i: int)
    requires
        none_stated(cs, ps),
        0 <= i,
    ensures
        declare_facts(st, stated_in(cs, ps), i) == st,
    decreases cs.len() - i,
{
    if i < cs.len() {
        assert(!stated_in(cs, ps)[i].is_fact);
        lemma_none_restated(st, cs, ps, i + 1);
    }
}

/// The positions of a list are positions of rules.
pub open spec fn rules_listed(cs: Seq<ClauseV>, idx: Seq<int>) -> bool {
    forall|j: int| 0 <= j < idx.len() ==> 0 <= #[trigger] idx[j] < cs.len() && !cs[idx[j]].is_fact
}

/// What a stratum clears has no stated facts where none are stated of what
/// rules derive.
pub proof fn lemma_none_stated(cs: Seq<ClauseV>, stratum: Seq<int>, to_clear: Set<Seq<char>>)
    requires
        stated_underived(cs),
        no_aggregates(cs) || plainly_named(cs),
        rules_listed(cs, stratum),
    ensures
        none_stated(cs, scope_here(cs, stratum, to_clear)),
{
    assert forall|i: int| 0 <= i < cs.len() && (#[trigger] cs[i]).is_fact implies !scope_here(cs, stratum, to_clear).contains(
        cs[i].head.pred,
    ) by {
        let p = cs[i].head.pred;
        if scope_here(cs, stratum, to_clear).contains(p) {
            let k = choose|k: int| 0 <= k < stratum.len() && filled_by(cs, #[trigger] stratum[k], p);
            let ci = stratum[k];
            assert(0 <= ci < cs.len() && !cs[ci].is_fact);
            if cs[ci].head.pred != p {
                crate::frame::lemma_temp_prefix(cs[ci], ci);
            }
        }
    }
}

/// The facts of the store in which a stratum is evaluated once more.
pub proof fn lemma_reset(sc: ScopeV, cs: Seq<ClauseV>, stratum: Seq<int>)
    requires
        orderly()(sc.st),
        stated_underived(cs),
        no_aggregates(cs) || plainly_named(cs),
        rules_listed(cs, stratum),
    ensures
        ({
            let here = scope_here(cs, stratum, sc.to_clear);
            let r = reset(sc, cs, here);
            &&& orderly()(r)
            &&& r.names == sc.st.names
            &&& forall|k: KeyV| #[trigger] holds(r.rels, k) <==> holds(sc.st.rels, k) && !here.contains(k.0)
            &&& forall|k: KeyV|
                holds(r.rels, k) && scope_seeds(cs, here).contains(k.0) ==> #[trigger] pending_delta(r.rels).contains(k)
            &&& forall|k: KeyV| #[trigger] settled(r.rels).contains(k) ==> settled(sc.st.rels).contains(k)
        }),
{
    let here = scope_here(cs, stratum, sc.to_clear);
    let ps = enumerate::<String>(here);
    let cleared = clear_each(sc.st, ps);
    let r = reset(sc, cs, here);
    lemma_none_stated(cs, stratum, sc.to_clear);
    lemma_none_restated(seeded_store(sc, cs, here), cs, here, 0);
    lemma_here_finite(cs, stratum, sc.to_clear);
    lemma_enumerable::<String>(here);
    lemma_clear_each_facts(sc.st, ps);
    lemma_cleared_store(sc.st, ps);
    let seeds = scope_seeds(cs, here);
    assert(r.rels.dom() =~= cleared.rels.dom());
    assert(reseeded(cleared.rels, r.rels));
    lemma_orderly_upheld();
    assert(orderly()(with_rels(cleared, r.rels)));
    assert forall|k: KeyV| #[trigger] holds(r.rels, k) <==> holds(cleared.rels, k) by {
        assert(r.rels.contains_key(k.0) <==> cleared.rels.contains_key(k.0));
    }
    assert forall|k: KeyV| #[trigger] holds(r.rels, k) <==> holds(sc.st.rels, k) && !here.contains(k.0) by {
        assert(holds(r.rels, k) <==> holds(cleared.rels, k));
        assert(ps.contains(k.0) <==> here.contains(k.0)) by {
            assert(ps.to_set().contains(k.0) <==> here.contains(k.0));
        }
    }
    assert forall|k: KeyV| holds(r.rels, k) && seeds.contains(k.0) implies #[trigger] pending_delta(r.rels).contains(k) by {
        assert(holds(cleared.rels, k));
        lemma_key_set(cleared.rels[k.0], k.1);
        assert(r.rels[k.0] == rel_seeded(cleared.rels[k.0]));
    }
    assert forall|k: KeyV| #[trigger] settled(r.rels).contains(k) implies settled(sc.st.rels).contains(k) by {
        assert(holds(r.rels, k));
        assert(!pending_delta(r.rels).contains(k));
        assert(holds(cleared.rels, k));
        if pending_delta(sc.st.rels).contains(k) {
            assert(cleared.rels[k.0].pending == sc.st.rels[k.0].pending);
            assert(pending_delta(r.rels).contains(k));
        }
    }
}

proof fn lemma_cleared_store(st: StoreV, ps: Seq<Seq<char>>)
    requires
        orderly()(st),
    ensures
        orderly()(clear_each(st, ps)),
        clear_each(st, ps).names == st.names,
        forall|n: Seq<char>| #[trigger] st.rels.contains_key(n) && !ps.contains(n) ==> clear_each(st, ps).rels[n] == st.rels[n],
    decreases ps.len(),
{
    if ps.len() > 0 {
        lemma_orderly_upheld();
        assert(orderly()(store_clear(st, ps[0])));
        let st1 = store_clear(st, ps[0]);
        let d = ps.drop_first();
        lemma_cleared_store(st1, d);
        assert forall|n: Seq<char>| #[trigger] st.rels.contains_key(n) && !ps.contains(n) implies clear_each(st, ps).rels[n]
            == st.rels[n] by {
            assert(ps[0] != n) by {
                if ps[0] == n {
                    assert(ps.contains(n));
                }
            }
            assert(!d.contains(n)) by {
                if d.contains(n) {
                    let i = choose|i: int| 0 <= i < d.len() && d[i] == n;
                    assert(ps[i + 1] == n);
                }
            }
            assert(st1.rels.contains_key(n));
        }
    }
}

/// Every rule of the stratum was fired on the settled facts: a rule of a
/// cleared predicate has no settled facts to read, and any other has its heads
/// stored.
proof fn lemma_reset_used(
    sc: ScopeV,
    now: i64,
    cs: Seq<ClauseV>,
    l: Map<Seq<char>, nat>,
    strata: Seq<Seq<int>>,
    s: int,
    b: Seq<Seq<char>>,
    given: Set<KeyV>,
    all: Set<KeyV>,
)
    requires
        leveled(cs, l, strata),
        no_aggregates(cs),
        0 <= s < strata.len(),
        stands(sc.st, now, cs, b, given, all),
    ensures
        ({
            let r = reset(sc, cs, scope_here(cs, strata[s], sc.to_clear));
            used(b, now, stratum_rules(cs, strata[s]), facts(r.rels), pending_delta(r.rels), all)
        }),
{
    let here = scope_here(cs, strata[s], sc.to_clear);
    let r = reset(sc, cs, here);
    let rules = stratum_rules(cs, strata[s]);
    let old_part = facts(r.rels).difference(pending_delta(r.rels));
    crate::runs::lemma_stratum_rules(cs, l, strata, s);
    lemma_reset(sc, cs, strata[s]);
    lemma_stratum(cs, l, strata, s, sc.st.names);
    assert forall|j: int| 0 <= j < rules.len() && has_atom(#[trigger] rules[j]) implies leads_into(
        b,
        now,
        rules[j],
        old_part,
        all,
        facts(r.rels),
    ) by {
        let i = strata[s][j];
        let c = cs[i];
        assert(is_rule_at(cs, l, s, rules[j], i));
        assert(is_simple(sc.st.names, c));
        assert(leads_into(b, now, c, all, all, all));
        assert forall|x: Bindings| #[trigger] body_true(b, now, c, old_part, all, x) && head_fact(b, c, x) is Some implies facts(
            r.rels,
        ).contains(head_fact(b, c, x)->Some_0) by {
            if here.contains(c.head.pred) {
                let y = choose|y: int| 0 <= y < c.body.len() && #[trigger] c.body[y] is Pos;
                assert(lit_true(b, now, c.body[y], old_part, all, x));
                let a = c.body[y]->Pos_0;
                let key = choose|key: Seq<Value>| old_part.contains((a.pred, key)) && #[trigger] is_instance(b, a.args, key, x);
                let k: KeyV = (a.pred, key);
                assert(holds(r.rels, k));
                assert(!here.contains(a.pred));
                assert(owner(c, i) == c.head.pred);
                assert(lit_reads(c.body[y], a.pred));
                assert(body_reads(c, a.pred));
                assert(here.contains(owner(cs[i], i)));
                assert(scope_seeds(cs, here).contains(a.pred));
                assert(pending_delta(r.rels).contains(k));
            } else {
                assert(body_true(b, now, c, all, all, x)) by {
                    assert forall|y: int| 0 <= y < c.body.len() implies lit_true(b, now, #[trigger] c.body[y], all, all, x) by {
                        assert(lit_true(b, now, c.body[y], old_part, all, x));
                        if let LitV::Pos(a) = c.body[y] {
                            let key = choose|key: Seq<Value>|
                                old_part.contains((a.pred, key)) && #[trigger] is_instance(b, a.args, key, x);
                            assert(holds(r.rels, (a.pred, key)));
                            assert(facts(sc.st.rels).contains((a.pred, key)));
                        }
                    }
                }
                let k = head_fact(b, c, x)->Some_0;
                assert(all.contains(k));
                assert(facts(sc.st.rels).contains(k));
                assert(holds(r.rels, k));
            }
        }
    }
}

/// The evaluation of a step settles.
pub open spec fn step_settles(sc: ScopeV, now: i64, cs: Seq<ClauseV>, stratum: Seq<int>) -> bool {
    let here = scope_here(cs, stratum, sc.to_clear);
    here != Set::<Seq<char>>::empty() ==> exists|k: nat|
        settles(reset(sc, cs, here), now, stratum_rules(cs, stratum), pending_delta(reset(sc, cs, here).rels), k)
}

/// A step of a recomputation gives a model back.
proof fn lemma_step_same(
    sc: ScopeV,
    now: i64,
    cs: Seq<ClauseV>,
    l: Map<Seq<char>, nat>,
    strata: Seq<Seq<int>>,
    s: int,
    b: Seq<Seq<char>>,
    given: Set<KeyV>,
    all: Set<KeyV>,
)
    requires
        leveled(cs, l, strata),
        no_aggregates(cs),
        0 <= s < strata.len(),
        stands(sc.st, now, cs, b, given, all),
        step_settles(sc, now, cs, strata[s]),
        scope_step(sc, now, cs, strata, strata[s]).st.names.is_prefix_of(b),
    ensures
        stands(scope_step(sc, now, cs, strata, strata[s]).st, now, cs, b, given, all),
        scope_step(sc, now, cs, strata, strata[s]).to_clear == sc.to_clear.difference(scope_here(cs, strata[s], sc.to_clear)),
{
    let stratum = strata[s];
    let here = scope_here(cs, stratum, sc.to_clear);
    let next = scope_step(sc, now, cs, strata, stratum);
    if here == Set::<Seq<char>>::empty() {
        assert(sc.to_clear.difference(here) =~= sc.to_clear);
    } else {
        let r = reset(sc, cs, here);
        let rules = stratum_rules(cs, stratum);
        let delta = pending_delta(r.rels);
        let e = eval_stratum_of(r, now, cs, stratum).st;
        let t = above(l, s);
        crate::runs::lemma_stratum_rules(cs, l, strata, s);
        lemma_reset(sc, cs, stratum);
        lemma_stratum(cs, l, strata, s, sc.st.names);
        lemma_stratum_rules(cs, l, strata, s);
        assert forall|j: int| 0 <= j < stratum.len() implies !aggregates(cs[#[trigger] stratum[j]]) by {
            assert(0 <= stratum[j] < cs.len() && !cs[stratum[j]].is_fact);
        }
        lemma_nothing_folded(fixpoint(r, now, rules, delta).st, cs, stratum, 0);
        assert(e == fixpoint(r, now, rules, delta).st);
        assert forall|k: KeyV| #[trigger] holds(r.rels, k) implies crate::restore::known_key(r.names, k.1) by {
            assert(holds(sc.st.rels, k));
        }
        assert(agrees(all, r.rels, t)) by {
            assert forall|k: KeyV| #![trigger all.contains(k)] #![trigger holds(r.rels, k)] !t.contains(k.0) implies (all.contains(
                k,
            ) <==> holds(r.rels, k)) by {
                if here.contains(k.0) {
                    lemma_here(cs, l, strata, s, sc.to_clear, k.0);
                }
                assert(all.contains(k) <==> holds(sc.st.rels, k));
            }
        }
        assert(delta.finite()) by {
            assert forall|k: KeyV| #[trigger] delta.contains(k) implies facts(r.rels).contains(k) by {}
            vstd::set_lib::lemma_set_subset_finite(facts(r.rels), delta);
        }
        lemma_reset_used(sc, now, cs, l, strata, s, b, given, all);
        lemma_fixpoint_least(r, now, rules, delta, b, all, t);
        lemma_orderly_upheld();
        lemma_stratum_keeps(orderly(), r, now, cs, stratum);
        lemma_simple_grows(sc.st.names, e.names, cs);
        let fe = facts(e.rels);
        assert(closed_under(b, now, rules, all, all)) by {
            assert forall|j: int| 0 <= j < rules.len() implies leads_into(b, now, #[trigger] rules[j], all, all, all) by {
                let i = stratum[j];
                assert(is_rule_at(cs, l, s, rules[j], i));
                assert(leads_into(b, now, cs[i], all, all, all));
            }
        }
        assert(facts(r.rels).subset_of(all)) by {
            assert forall|k: KeyV| #[trigger] facts(r.rels).contains(k) implies all.contains(k) by {
                assert(holds(r.rels, k));
                assert(facts(sc.st.rels).contains(k));
            }
        }
        assert(fe.subset_of(all));
        assert forall|k: KeyV| #[trigger] all.contains(k) && !here.contains(k.0) implies fe.contains(k) by {
            assert(facts(sc.st.rels).contains(k));
            assert(holds(r.rels, k));
            assert(facts(r.rels).contains(k));
        }
        lemma_rest_closed(sc.st.names, sc.to_clear, now, cs, l, strata, s, b, given, all, fe);
        assert(all.subset_of(fe));
        assert(fe =~= all);
        assert(scope_queued(cs, strata, here, sc.st.rels, e.rels) =~= Set::<Seq<char>>::empty()) by {
            assert forall|q: Seq<char>| !(#[trigger] scope_queued(cs, strata, here, sc.st.rels, e.rels).contains(q)) by {
                if scope_queued(cs, strata, here, sc.st.rels, e.rels).contains(q) {
                    let p = choose|p: Seq<char>|
                        here.contains(p) && tuples_of(sc.st.rels, p) != tuples_of(e.rels, p) && #[trigger] direct_reader(cs, p, q);
                    lemma_same_tuples(sc.st.rels, e.rels, p);
                }
            }
        }
        assert(next.to_clear =~= sc.to_clear.difference(here));
    }
}

proof fn lemma_same_tuples(a: RelsV, b: RelsV, p: Seq<char>)
    requires
        facts(a) == facts(b),
    ensures
        tuples_of(a, p) == tuples_of(b, p),
{
    assert forall|key: Seq<Value>| tuples_of(a, p).contains(key) <==> tuples_of(b, p).contains(key) by {
        let k: KeyV = (p, key);
        assert(facts(a).contains(k) == holds(a, k));
        assert(facts(b).contains(k) == holds(b, k));
        assert(tuples_of(a, p).contains(key) <==> holds(a, k)) by {
            if a.contains_key(p) {
                lemma_key_set(a[p], key);
            }
        }
        assert(tuples_of(b, p).contains(key) <==> holds(b, k)) by {
            if b.contains_key(p) {
                lemma_key_set(b[p], key);
            }
        }
    }
    assert(tuples_of(a, p) =~= tuples_of(b, p));
}

/// A body stays true in more facts.
pub proof fn lemma_body_grows(b: Seq<Seq<char>>, now: i64, c: ClauseV, m: Set<KeyV>, more: Set<KeyV>, n: Set<KeyV>, x: Bindings)
    requires
        body_true(b, now, c, m, n, x),
        m.subset_of(more),
    ensures
        body_true(b, now, c, more, n, x),
{
    assert forall|y: int| 0 <= y < c.body.len() implies lit_true(b, now, #[trigger] c.body[y], more, n, x) by {
        assert(lit_true(b, now, c.body[y], m, n, x));
        if let LitV::Pos(a) = c.body[y] {
            let key = choose|key: Seq<Value>| m.contains((a.pred, key)) && #[trigger] is_instance(b, a.args, key, x);
            assert(more.contains((a.pred, key)));
        }
    }
}

/// A rule whose head was not cleared leads into what a step gives.
proof fn lemma_other_rule(
    b: Seq<Seq<char>>,
    now: i64,
    c: ClauseV,
    here: Set<Seq<char>>,
    all: Set<KeyV>,
    fe: Set<KeyV>,
)
    requires
        fe.subset_of(all),
        leads_into(b, now, c, all, all, all),
        !here.contains(c.head.pred),
        forall|k: KeyV| #[trigger] all.contains(k) && !here.contains(k.0) ==> fe.contains(k),
    ensures
        leads_into(b, now, c, fe, all, fe),
{
    assert forall|x: Bindings| #[trigger] body_true(b, now, c, fe, all, x) && head_fact(b, c, x) is Some implies fe.contains(
        head_fact(b, c, x)->Some_0,
    ) by {
        lemma_body_grows(b, now, c, fe, all, all, x);
        assert(all.contains(head_fact(b, c, x)->Some_0));
    }
}

/// What a step gives is closed under the whole program and holds what is
/// given.
proof fn lemma_rest_closed(
    names: Seq<Seq<char>>,
    to_clear: Set<Seq<char>>,
    now: i64,
    cs: Seq<ClauseV>,
    l: Map<Seq<char>, nat>,
    strata: Seq<Seq<int>>,
    s: int,
    b: Seq<Seq<char>>,
    given: Set<KeyV>,
    all: Set<KeyV>,
    fe: Set<KeyV>,
)
    requires
        leveled(cs, l, strata),
        no_aggregates(cs),
        all_simple(names, cs),
        0 <= s < strata.len(),
        is_model(b, now, cs, given, all),
        forall|k: KeyV| #[trigger] given.contains(k) ==> !defined(cs, k.0),
        fe.subset_of(all),
        closed_under(b, now, stratum_rules(cs, strata[s]), fe, all),
        forall|k: KeyV| #[trigger] all.contains(k) && !scope_here(cs, strata[s], to_clear).contains(k.0) ==> fe.contains(k),
    ensures
        all.subset_of(fe),
{
    let here = scope_here(cs, strata[s], to_clear);
    let rules = stratum_rules(cs, strata[s]);
    assert(program_closed(b, now, cs, fe, all)) by {
        lemma_stratum(cs, l, strata, s, names);
        assert forall|i: int| 0 <= i < cs.len() && !(#[trigger] cs[i]).is_fact implies leads_into(b, now, cs[i], fe, all, fe) by {
            let c = cs[i];
            if l[c.head.pred] == s {
                let j = choose|j: int| 0 <= j < rules.len() && #[trigger] rules[j] == c;
                assert(leads_into(b, now, rules[j], fe, all, fe));
            } else {
                if here.contains(c.head.pred) {
                    lemma_here(cs, l, strata, s, to_clear, c.head.pred);
                }
                lemma_other_rule(b, now, c, here, all, fe);
            }
        }
    }
    assert forall|k: KeyV| #[trigger] given.contains(k) implies fe.contains(k) by {
        assert(all.contains(k));
        if here.contains(k.0) {
            lemma_here(cs, l, strata, s, to_clear, k.0);
        }
    }
}

// -------------------------------------------------------------------- passes

/// The evaluations of a pass settle.
pub open spec fn pass_settles(sc: ScopeV, now: i64, cs: Seq<ClauseV>, strata: Seq<Seq<int>>, s: int) -> bool
    decreases strata.len() - s,
{
    0 <= s < strata.len() ==> step_settles(sc, now, cs, strata[s]) && pass_settles(
        scope_step(sc, now, cs, strata, strata[s]),
        now,
        cs,
        strata,
        s + 1,
    )
}

/// The evaluations of all passes settle.
pub open spec fn passes_settle(sc: ScopeV, now: i64, cs: Seq<ClauseV>, strata: Seq<Seq<int>>, n: nat) -> bool
    decreases n,
{
    n > 0 && sc.to_clear != Set::<Seq<char>>::empty() ==> pass_settles(sc, now, cs, strata, 0) && passes_settle(
        scope_pass(sc, now, cs, strata, 0),
        now,
        cs,
        strata,
        (n - 1) as nat,
    )
}

/// Where a recomputation starts.
pub open spec fn scope_begun(st: StoreV, cs: Seq<ClauseV>, strata: Seq<Seq<int>>, extra: Set<Seq<char>>) -> ScopeV {
    ScopeV {
        st: StoreV { retracted: Set::empty(), ..st },
        to_clear: scope_start(cs, strata, st.retracted, extra),
        derived: 0,
        before: Map::empty(),
    }
}

/// The evaluations of all recomputations of a run settle.
pub open spec fn invalidate_settles(st: StoreV, now: i64, cs: Seq<ClauseV>, strata: Seq<Seq<int>>, mark: int, n: nat) -> bool
    decreases n,
{
    let extra = stale_readers(st, cs, mark);
    n > 0 && !(st.retracted == Set::<Seq<char>>::empty() && extra == Set::<Seq<char>>::empty()) ==> {
        &&& passes_settle(scope_begun(st, cs, strata, extra), now, cs, strata, strata.len() + 2)
        &&& invalidate_settles(scoped(st, now, cs, strata, extra).st, now, cs, strata, mark, (n - 1) as nat)
    }
}

/// All predicates.
pub open spec fn anything() -> Set<Seq<char>> {
    Set::new(|p: Seq<char>| true)
}

pub proof fn lemma_pass_same(
    sc: ScopeV,
    now: i64,
    cs: Seq<ClauseV>,
    l: Map<Seq<char>, nat>,
    strata: Seq<Seq<int>>,
    s: int,
    b: Seq<Seq<char>>,
    given: Set<KeyV>,
    all: Set<KeyV>,
)
    requires
        leveled(cs, l, strata),
        no_aggregates(cs),
        0 <= s <= strata.len(),
        stands(sc.st, now, cs, b, given, all),
        pass_settles(sc, now, cs, strata, s),
        scope_pass(sc, now, cs, strata, s).st.names.is_prefix_of(b),
    ensures
        stands(scope_pass(sc, now, cs, strata, s).st, now, cs, b, given, all),
    decreases strata.len() - s,
{
    if s < strata.len() {
        let next = scope_step(sc, now, cs, strata, strata[s]);
        let last = scope_pass(next, now, cs, strata, s + 1);
        assert(is_strata(cs, strata));
        lemma_strata_fit(cs, strata);
        assert(indices_of(strata[s], cs.len() as int));
        assert(writes_in(cs, anything()));
        lemma_step_touches(sc, now, cs, strata, strata[s], anything());
        lemma_pass_touches(next, now, cs, strata, s + 1, anything());
        lemma_prefix_trans(next.st.names, last.st.names, b);
        lemma_step_same(sc, now, cs, l, strata, s, b, given, all);
        lemma_pass_same(next, now, cs, l, strata, s + 1, b, given, all);
    }
}

pub proof fn lemma_passes_same(
    sc: ScopeV,
    now: i64,
    cs: Seq<ClauseV>,
    l: Map<Seq<char>, nat>,
    strata: Seq<Seq<int>>,
    n: nat,
    b: Seq<Seq<char>>,
    given: Set<KeyV>,
    all: Set<KeyV>,
)
    requires
        leveled(cs, l, strata),
        no_aggregates(cs),
        stands(sc.st, now, cs, b, given, all),
        passes_settle(sc, now, cs, strata, n),
        scope_passes(sc, now, cs, strata, n).st.names.is_prefix_of(b),
    ensures
        stands(scope_passes(sc, now, cs, strata, n).st, now, cs, b, given, all),
    decreases n,
{
    if n > 0 && sc.to_clear != Set::<Seq<char>>::empty() {
        let next = scope_pass(sc, now, cs, strata, 0);
        let last = scope_passes(next, now, cs, strata, (n - 1) as nat);
        assert(is_strata(cs, strata));
        lemma_strata_fit(cs, strata);
        assert(writes_in(cs, anything()));
        lemma_pass_touches(sc, now, cs, strata, 0, anything());
        lemma_passes_touches(next, now, cs, strata, (n - 1) as nat, anything());
        lemma_prefix_trans(next.st.names, last.st.names, b);
        lemma_pass_same(sc, now, cs, l, strata, 0, b, given, all);
        lemma_passes_same(next, now, cs, l, strata, (n - 1) as nat, b, given, all);
    }
}

pub proof fn lemma_invalidate_same(
    st: StoreV,
    now: i64,
    cs: Seq<ClauseV>,
    l: Map<Seq<char>, nat>,
    strata: Seq<Seq<int>>,
    mark: int,
    n: nat,
    b: Seq<Seq<char>>,
    given: Set<KeyV>,
    all: Set<KeyV>,
)
    requires
        leveled(cs, l, strata),
        no_aggregates(cs),
        stands(st, now, cs, b, given, all),
        invalidate_settles(st, now, cs, strata, mark, n),
        invalidate(st, now, cs, strata, mark, n).st.names.is_prefix_of(b),
    ensures
        stands(invalidate(st, now, cs, strata, mark, n).st, now, cs, b, given, all),
    decreases n,
{
    let extra = stale_readers(st, cs, mark);
    if n > 0 && !(st.retracted == Set::<Seq<char>>::empty() && extra == Set::<Seq<char>>::empty()) {
        let sc = scope_begun(st, cs, strata, extra);
        let r = scoped(st, now, cs, strata, extra).st;
        let last = invalidate(r, now, cs, strata, mark, (n - 1) as nat).st;
        assert(is_strata(cs, strata));
        lemma_strata_fit(cs, strata);
        assert(writes_in(cs, anything()));
        lemma_passes_touches(sc, now, cs, strata, strata.len() + 2, anything());
        assert(r == scope_passes(sc, now, cs, strata, strata.len() + 2).st);
        lemma_invalidate_touches(r, now, cs, strata, mark, (n - 1) as nat, anything());
        lemma_prefix_trans(r.names, last.names, b);
        assert(stands(sc.st, now, cs, b, given, all)) by {
            assert(orderly()(sc.st));
            assert(all_known(sc.st));
        }
        lemma_passes_same(sc, now, cs, l, strata, strata.len() + 2, b, given, all);
        lemma_invalidate_same(r, now, cs, l, strata, mark, (n - 1) as nat, b, given, all);
    }
}

/// Law: recomputing gives a model back. Where the stored facts are a model of
/// a program without aggregates over facts that it does not derive, the
/// recomputations at the end of a run, whatever they clear, end with the same
/// facts.
pub proof fn recompute_keeps_model(st: StoreV, now: i64, cs: Seq<ClauseV>, mark: int, n: nat, given: Set<KeyV>)
    requires
        cs.len() <= usize::MAX,
        strata_error(cs) is None,
        no_aggregates(cs),
        ({
            let r = invalidate(st, now, cs, strata_of(cs), mark, n).st;
            stands(st, now, cs, r.names, given, facts(st.rels))
        }),
        invalidate_settles(st, now, cs, strata_of(cs), mark, n),
    ensures
        facts(invalidate(st, now, cs, strata_of(cs), mark, n).st.rels) == facts(st.rels),
{
    let strata = strata_of(cs);
    let r = invalidate(st, now, cs, strata, mark, n).st;
    strata_exist(cs);
    let l = choose|l: Map<Seq<char>, nat>| #[trigger] is_levels(cs, l) && grouped(cs, l, strata);
    assert(leveled(cs, l, strata));
    assert(r.names.is_prefix_of(r.names));
    lemma_invalidate_same(st, now, cs, l, strata, mark, n, r.names, given, facts(st.rels));
}

// ---------------------------------------------------------------------- runs

/// The evaluations of a run settle.
pub open spec fn run_settles(e: EngineV) -> bool {
    let strata = strata_of(e.clauses);
    &&& strata_settle(prepared(e).st, e.now, e.clauses, strata, 0)
    &&& invalidate_settles(
        eval_strata(prepared(e).st, e.now, e.clauses, strata, 0).st,
        e.now,
        e.clauses,
        strata,
        e.mark,
        strata.len() + 2,
    )
}

pub proof fn lemma_distinct_upheld()
    ensures
        upheld(distinct_names()),
{
    let p = distinct_names();
    assert forall|st: StoreV, args: Seq<crate::ast::TermV>, map: Bindings| p(st) implies #[trigger] p(
        crate::upkeep::with_names(st, crate::solve::head_values(st.names, args, map).0),
    ) by {
        lemma_head_distinct(st.names, args, 0, map, Seq::empty());
    }
}

/// Law: a run from scratch gives the model of a stratified program over the
/// stored facts, negation included. The program does not aggregate, its rules
/// are simple, and no fact is stored of a predicate that they derive.
pub proof fn rebuild_gives_model(e: EngineV)
    requires
        is_sound(e.st),
        e.dirty,
        e.clauses.len() <= usize::MAX,
        strata_error(e.clauses) is None,
        stated_underived(e.clauses),
        all_simple(prepared(e).st.names, e.clauses),
        run_settles(e),
        ran(e).0.st.names.len() < usize::MAX,
        forall|k: KeyV| #[trigger] holds(prepared(e).st.rels, k) ==> !defined(e.clauses, k.0),
    ensures
        is_model(ran(e).0.st.names, e.now, e.clauses, facts(prepared(e).st.rels), facts(ran(e).0.st.rels)),
        is_sound(ran(e).0.st),
        settled(ran(e).0.st.rels) == facts(ran(e).0.st.rels),
{
    let cs = e.clauses;
    let strata = strata_of(cs);
    let st1 = rebuilt(e.st, cs, strata, e.ever);
    let p = prepared(e).st;
    let f = eval_strata(p, e.now, cs, strata, 0).st;
    let inv = invalidate(f, e.now, cs, strata, e.mark, strata.len() + 2).st;
    let b = ran(e).0.st.names;
    assert(b == inv.names);
    strata_exist(cs);
    let l = choose|l: Map<Seq<char>, nat>| #[trigger] is_levels(cs, l) && grouped(cs, l, strata);
    assert(leveled(cs, l, strata));
    lemma_strata_fit(cs, strata);
    lemma_rebuilt(e.st, cs, strata, e.ever);
    lemma_declare_grows(st1, cs, 0);
    lemma_strata_spares(p, e.now, cs, l, strata, 0);
    assert(writes_in(cs, anything()));
    lemma_invalidate_touches(f, e.now, cs, strata, e.mark, strata.len() + 2, anything());
    lemma_prefix_trans(p.names, f.names, b);
    lemma_declared(st1, cs, 0);
    lemma_distinct_upheld();
    assert(distinct_names()(e.st));
    crate::upkeep::lemma_run_keeps(distinct_names(), e);
    assert(distinct_names()(crate::upkeep::run_end(e)));
    let none = Set::<KeyV>::empty();
    assert(in_run(none)(p));
    lemma_nothing_derived(e.now, cs, facts(f.rels), facts(p.rels));
    assert(derived_from(b, e.now, cs, none, facts(f.rels), facts(p.rels)));
    lemma_strata_least(p, e.now, cs, l, strata, 0, b, none);
    let all = facts(f.rels);
    let given = facts(p.rels);
    assert(no_aggregates(cs)) by {
        assert forall|i: int| 0 <= i < cs.len() && !(#[trigger] cs[i]).is_fact implies !aggregates(cs[i]) by {
            assert(is_simple(p.names, cs[i]));
        }
    }
    lemma_simple_grows(p.names, f.names, cs);
    assert(is_model(b, e.now, cs, given, all));
    assert(stands(f, e.now, cs, b, given, all)) by {
        assert(orderly()(f)) by {
            assert(in_run(none)(f));
        }
        assert forall|k: KeyV| #[trigger] given.contains(k) implies !defined(cs, k.0) by {
            assert(holds(p.rels, k));
        }
    }
    lemma_invalidate_same(f, e.now, cs, l, strata, e.mark, strata.len() + 2, b, given, all);
    let r = ran(e).0.st;
    assert(r.rels == rels_settled(inv.rels));
    assert forall|k: KeyV| #[trigger] holds(r.rels, k) <==> holds(inv.rels, k) by {
        lemma_same_rows(inv.rels, rels_settled(inv.rels), k);
    }
    assert(facts(r.rels) =~= facts(inv.rels));
    assert(settled(r.rels) =~= facts(r.rels));
    assert(rels_wf(r.rels)) by {
        assert forall|n: Seq<char>| #[trigger] r.rels.contains_key(n) implies rel_wf(r.rels[n]) by {
            assert(inv.rels.contains_key(n));
        }
    }
    assert forall|k: KeyV| #[trigger] holds(r.rels, k) implies crate::restore::known_key(r.names, k.1) by {
        assert(holds(inv.rels, k));
    }
}

} // verus!

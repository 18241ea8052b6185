//! Recomputing after changes: where facts were lost or negated relations grew,
//! clearing and refilling the relations that depend on them makes the facts a
//! model of the program again, negation and aggregates included.

use vstd::prelude::*;
use crate::ast::ClauseV;
use crate::engine::{invalidate, lemma_strata_fit, stale_readers};
use crate::env::Bindings;
use crate::evaluate::{eval_stratum_of, fixpoint, has_atom, indices_of, pending_delta, settles, stratum_rules, temp_name};
use crate::exact::{
    alike, closed_for, covers, group_reads, is_exact, lemma_body_moves, lemma_exact_model, lemma_exact_moves, lemma_exact_part, outside,
    patched,
};
use crate::folds::{all_foldable, folds_of, lemma_foldable_grows, lemma_same_negated, lemma_tally_known, lowered_program};
use crate::follow::stated_underived;
use crate::frame::{lemma_invalidate_touches, lemma_pass_touches, lemma_passes_touches, lemma_step_touches, writes_in};
use crate::laid::{
    folded_at, is_ruled, is_written, laid, lemma_alike_trans, lemma_eval_laid, lemma_filled_laid, lemma_fills_laid, lemma_here_laid,
    lemma_list_laid, lemma_negated_below, lemma_plain_laid, lemma_reads_laid, lemma_rule_covered, lemma_rule_laid, lemma_rules_laid,
    lemma_spared_alike, lemma_strata_laid, level, ruled_at,
};
use crate::model::{
    agrees, all_known, body_true, can_fire, closed_under, facts, head_fact, is_instance, leads_into, lemma_fixpoint_leads,
    lemma_fixpoint_only, lemma_known_grows, lit_true,
};
use crate::order::tallies_alike;
use crate::perfect::above;
use crate::recompute::{
    body_reads, direct_reader, filled_by, lemma_here_from, lemma_here_only, lemma_here_spreads, lemma_here_starts, lit_reads, owner,
    rule_reads, scope_here, scope_pass, scope_passes, scope_queued, scope_seeds, scope_step, scoped, tuples_of, ScopeV,
};
use crate::refold::{lemma_invalidate_refolds, lemma_passes_refold, lemma_solutions_alike, stands_folded};
use crate::relation::KeyV;
use crate::restore::known_key;
use crate::runs::lemma_key_set;
use crate::scope::{
    anything, invalidate_settles, lemma_orderly_upheld, lemma_reset, orderly, pass_settles, passes_settle, reset, scope_begun,
    step_settles,
};
use crate::solve::lemma_prefix_trans;
use crate::store::{holds, rels_wf, RelsV, StoreV};
use crate::stratify::{aggregated, aggregates, defined};
use crate::tally::{all_tallied, is_fold, is_tallied, is_tally, lemma_step_tallied, solutions};
use crate::upkeep::lemma_stratum_keeps;
use crate::value::Value;

verus! {

// ---------------------------------------------------------------- one stratum

/// What the rules of a stratum derive is in every set that holds what was
/// there and is closed under them.
pub proof fn lemma_stratum_only(
    st: StoreV,
    now: i64,
    cs: Seq<ClauseV>,
    l: Map<Seq<char>, nat>,
    strata: Seq<Seq<int>>,
    s: int,
    b: Seq<Seq<char>>,
    n: Set<KeyV>,
    wide: Set<KeyV>,
)
    requires
        laid(cs, l, strata),
        0 <= s < strata.len(),
        can_fire(st, now, stratum_rules(cs, strata[s]), pending_delta(st.rels), b, n, above(l, s)),
        facts(st.rels).subset_of(wide),
        forall|i: int|
            0 <= i < cs.len() && !cs[i].is_fact && level(l, s).contains((#[trigger] lowered_program(cs)[i]).head.pred) ==> leads_into(
                b,
                now,
                lowered_program(cs)[i],
                wide,
                n,
                wide,
            ),
    ensures
        facts(fixpoint(st, now, stratum_rules(cs, strata[s]), pending_delta(st.rels)).st.rels).subset_of(wide),
{
    let rules = stratum_rules(cs, strata[s]);
    lemma_rules_laid(cs, l, strata, s);
    lemma_fixpoint_only(st, now, rules, pending_delta(st.rels), b, n, above(l, s));
    assert(closed_under(b, now, rules, wide, n)) by {
        assert forall|j: int| 0 <= j < rules.len() implies leads_into(b, now, #[trigger] rules[j], wide, n, wide) by {
            let i = strata[s][j];
            assert(rules[j] == lowered_program(cs)[i]);
        }
    }
}

// ------------------------------------------------------------------- one step

/// Store and names in the course of a recomputation.
pub open spec fn going_on(st: StoreV, cs: Seq<ClauseV>, b: Seq<Seq<char>>) -> bool {
    &&& orderly()(st)
    &&& all_known(st)
    &&& all_foldable(st.names, cs)
    &&& stated_underived(cs)
    &&& st.names.is_prefix_of(b)
    &&& b.no_duplicates()
    &&& b.len() < usize::MAX
}

/// The relations filled by rules that a recomputation does not clear: they do
/// not depend, inside their stratum, on one that is to be cleared.
pub open spec fn fresh(cs: Seq<ClauseV>, l: Map<Seq<char>, nat>, strata: Seq<Seq<int>>, to_clear: Set<Seq<char>>) -> Set<Seq<char>> {
    Set::new(
        |p: Seq<char>| l.contains_key(p) && !aggregated(cs, p) && !scope_here(cs, strata[l[p] as int], to_clear).contains(p),
    )
}

/// In the course of a recomputation, what it does not clear is exact, the
/// aggregates are in step with their solutions, and what is to be cleared is
/// of a later level.
pub open spec fn tidy(
    sc: ScopeV,
    now: i64,
    cs: Seq<ClauseV>,
    l: Map<Seq<char>, nat>,
    strata: Seq<Seq<int>>,
    s: int,
    b: Seq<Seq<char>>,
) -> bool {
    &&& going_on(sc.st, cs, b)
    &&& all_tallied(sc.st.rels, cs)
    &&& forall|p: Seq<char>| #[trigger] l.contains_key(p) && sc.to_clear.contains(p) ==> l[p] >= s
    &&& is_exact(b, now, lowered_program(cs), fresh(cs, l, strata, sc.to_clear), facts(sc.st.rels))
}

/// A stratum can be evaluated, with negated atoms judged by a set that agrees
/// below its level.
pub proof fn lemma_fires(
    st: StoreV,
    now: i64,
    cs: Seq<ClauseV>,
    l: Map<Seq<char>, nat>,
    strata: Seq<Seq<int>>,
    s: int,
    b: Seq<Seq<char>>,
    n: Set<KeyV>,
)
    requires
        laid(cs, l, strata),
        0 <= s < strata.len(),
        going_on(st, cs, b),
        exists|k: nat| settles(st, now, stratum_rules(cs, strata[s]), pending_delta(st.rels), k),
        eval_stratum_of(st, now, cs, strata[s]).st.names.is_prefix_of(b),
        forall|q: Seq<char>| !(#[trigger] above(l, s).contains(q)) ==> alike(facts(st.rels), n, q),
    ensures
        can_fire(st, now, stratum_rules(cs, strata[s]), pending_delta(st.rels), b, n, above(l, s)),
{
    let delta = pending_delta(st.rels);
    let rules = stratum_rules(cs, strata[s]);
    let x = fixpoint(st, now, rules, delta).st;
    let e = eval_stratum_of(st, now, cs, strata[s]).st;
    lemma_plain_laid(cs, l, strata, s, st.names);
    lemma_eval_laid(st, now, cs, l, strata, s);
    lemma_prefix_trans(x.names, e.names, b);
    assert(agrees(n, st.rels, above(l, s))) by {
        assert forall|k: KeyV| #![trigger n.contains(k)] #![trigger holds(st.rels, k)] !above(l, s).contains(k.0) implies (n.contains(k)
            <==> holds(st.rels, k)) by {
            assert(alike(facts(st.rels), n, k.0));
            assert(facts(st.rels).contains((k.0, k.1)) <==> n.contains((k.0, k.1)));
        }
    }
    assert(delta.finite()) by {
        assert forall|k: KeyV| #[trigger] delta.contains(k) implies facts(st.rels).contains(k) by {}
        vstd::set_lib::lemma_set_subset_finite(facts(st.rels), delta);
    }
}

/// What is known of the facts that the evaluation of a stratum leaves, where
/// the aggregates are then in step.
pub proof fn lemma_evaluated_known(st: StoreV, now: i64, cs: Seq<ClauseV>, l: Map<Seq<char>, nat>, strata: Seq<Seq<int>>, s: int)
    requires
        laid(cs, l, strata),
        0 <= s < strata.len(),
        rels_wf(st.rels),
        all_known(fixpoint(st, now, stratum_rules(cs, strata[s]), pending_delta(st.rels)).st),
        all_tallied(eval_stratum_of(st, now, cs, strata[s]).st.rels, cs),
    ensures
        all_known(eval_stratum_of(st, now, cs, strata[s]).st),
{
    let x = fixpoint(st, now, stratum_rules(cs, strata[s]), pending_delta(st.rels)).st;
    let e = eval_stratum_of(st, now, cs, strata[s]).st;
    lemma_eval_laid(st, now, cs, l, strata, s);
    assert forall|k: KeyV| #[trigger] holds(e.rels, k) implies known_key(e.names, k.1) by {
        if folded_at(cs, l, s).contains(k.0) {
            let i = choose|i: int| 0 <= i < cs.len() && !(#[trigger] cs[i]).is_fact && aggregates(cs[i]) && cs[i].head.pred == k.0;
            assert(is_fold(cs, i));
            lemma_rule_laid(cs, l, strata, i);
            let t = temp_name(cs[i], i);
            assert(crate::frame::same_facts(x.rels, e.rels, t));
            assert(is_tallied(e.rels, cs[i], i));
            assert(holds(e.rels, (cs[i].head.pred, k.1)));
            assert(solutions(x.rels, cs[i], i) == solutions(e.rels, cs[i], i));
            lemma_tally_known(x.names, x.rels, cs[i], i, k.1);
        } else {
            assert(crate::frame::same_facts(x.rels, e.rels, k.0));
            assert(holds(x.rels, k));
        }
        lemma_known_grows(x.names, e.names, k.1);
    }
}

/// What a step of a recomputation leaves.
pub open spec fn stepped(sc: ScopeV, now: i64, cs: Seq<ClauseV>, stratum: Seq<int>) -> StoreV {
    eval_stratum_of(reset(sc, cs, scope_here(cs, stratum, sc.to_clear)), now, cs, stratum).st
}

/// What the rules leave in a step, before the folds.
pub open spec fn half_stepped(sc: ScopeV, now: i64, cs: Seq<ClauseV>, stratum: Seq<int>) -> StoreV {
    let r = reset(sc, cs, scope_here(cs, stratum, sc.to_clear));
    fixpoint(r, now, stratum_rules(cs, stratum), pending_delta(r.rels)).st
}

/// A step that clears something.
pub open spec fn is_step(
    sc: ScopeV,
    now: i64,
    cs: Seq<ClauseV>,
    l: Map<Seq<char>, nat>,
    strata: Seq<Seq<int>>,
    s: int,
    b: Seq<Seq<char>>,
) -> bool {
    &&& laid(cs, l, strata)
    &&& 0 <= s < strata.len()
    &&& scope_here(cs, strata[s], sc.to_clear) != Set::<Seq<char>>::empty()
    &&& step_settles(sc, now, cs, strata[s])
    &&& stepped(sc, now, cs, strata[s]).names.is_prefix_of(b)
}

/// The parts of a step: the reset store fires, and only the level changes.
pub proof fn lemma_step_parts(
    sc: ScopeV,
    now: i64,
    cs: Seq<ClauseV>,
    l: Map<Seq<char>, nat>,
    strata: Seq<Seq<int>>,
    s: int,
    b: Seq<Seq<char>>,
)
    requires
        is_step(sc, now, cs, l, strata, s, b),
        going_on(sc.st, cs, b),
        all_tallied(sc.st.rels, cs),
    ensures
        ({
            let here = scope_here(cs, strata[s], sc.to_clear);
            let r = reset(sc, cs, here);
            let x = half_stepped(sc, now, cs, strata[s]);
            let e = stepped(sc, now, cs, strata[s]);
            &&& going_on(r, cs, b)
            &&& can_fire(r, now, stratum_rules(cs, strata[s]), pending_delta(r.rels), b, facts(e.rels), above(l, s))
            &&& crate::frame::spares(r.rels, e.rels, level(l, s))
            &&& crate::frame::spares(r.rels, x.rels, ruled_at(cs, l, s))
            &&& crate::frame::spares(x.rels, e.rels, folded_at(cs, l, s))
            &&& facts(r.rels).subset_of(facts(x.rels))
            &&& forall|q: Seq<char>| !(#[trigger] here.contains(q)) ==> alike(facts(sc.st.rels), facts(r.rels), q)
            &&& going_on(e, cs, b)
            &&& all_tallied(e.rels, cs)
        }),
{
    let here = scope_here(cs, strata[s], sc.to_clear);
    let r = reset(sc, cs, here);
    let x = half_stepped(sc, now, cs, strata[s]);
    let e = stepped(sc, now, cs, strata[s]);
    let rules = stratum_rules(cs, strata[s]);
    crate::laid::lemma_list_laid(cs, l, strata, s);
    lemma_reset(sc, cs, strata[s]);
    assert forall|k: KeyV| #[trigger] holds(r.rels, k) implies known_key(r.names, k.1) by {
        assert(holds(sc.st.rels, k));
    }
    lemma_eval_laid(r, now, cs, l, strata, s);
    assert forall|q: Seq<char>| !(#[trigger] above(l, s).contains(q)) implies alike(facts(r.rels), facts(e.rels), q) by {
        lemma_spared_alike(r.rels, e.rels, level(l, s), q);
    }
    lemma_prefix_trans(r.names, e.names, b);
    lemma_fires(r, now, cs, l, strata, s, b, facts(e.rels));
    lemma_fixpoint_only(r, now, rules, pending_delta(r.rels), b, facts(e.rels), above(l, s));
    assert forall|q: Seq<char>| !(#[trigger] here.contains(q)) implies alike(facts(sc.st.rels), facts(r.rels), q) by {
        assert forall|key: Seq<Value>| #[trigger] facts(sc.st.rels).contains((q, key)) implies facts(r.rels).contains((q, key)) by {
            assert(holds(sc.st.rels, (q, key)));
            assert(holds(r.rels, (q, key)));
        }
        assert forall|key: Seq<Value>| #[trigger] facts(r.rels).contains((q, key)) implies facts(sc.st.rels).contains((q, key)) by {
            assert(holds(r.rels, (q, key)));
            assert(holds(sc.st.rels, (q, key)));
        }
    }
    assert(all_tallied(e.rels, cs)) by {
        lemma_list_laid(cs, l, strata, s);
        assert(scope_step(sc, now, cs, strata, strata[s]).st == e);
        assert forall|i: int| #[trigger] is_fold(cs, i) implies is_tallied(e.rels, cs[i], i) by {
            assert(is_tallied(sc.st.rels, cs[i], i));
            lemma_step_tallied(sc, now, cs, strata, s, i);
        }
    }
    lemma_evaluated_known(r, now, cs, l, strata, s);
    lemma_orderly_upheld();
    lemma_stratum_keeps(orderly(), r, now, cs, strata[s]);
    lemma_foldable_grows(r.names, e.names, cs);
}

/// The rules of what a step clears are closed after it: they had nothing
/// settled to read, so that they were fired on everything.
proof fn lemma_cleared_closed(
    sc: ScopeV,
    now: i64,
    cs: Seq<ClauseV>,
    l: Map<Seq<char>, nat>,
    strata: Seq<Seq<int>>,
    s: int,
    b: Seq<Seq<char>>,
)
    requires
        is_step(sc, now, cs, l, strata, s, b),
        going_on(sc.st, cs, b),
        all_tallied(sc.st.rels, cs),
    ensures
        ({
            let all = facts(stepped(sc, now, cs, strata[s]).rels);
            closed_for(b, now, lowered_program(cs), scope_here(cs, strata[s], sc.to_clear), all, all)
        }),
{
    let here = scope_here(cs, strata[s], sc.to_clear);
    let r = reset(sc, cs, here);
    let x = half_stepped(sc, now, cs, strata[s]);
    let e = stepped(sc, now, cs, strata[s]);
    let all = facts(e.rels);
    let mid = facts(x.rels);
    let rules = stratum_rules(cs, strata[s]);
    let low = lowered_program(cs);
    lemma_step_parts(sc, now, cs, l, strata, s, b);
    lemma_rules_laid(cs, l, strata, s);
    assert forall|i: int| 0 <= i < low.len() && !(#[trigger] low[i]).is_fact && here.contains(low[i].head.pred) implies leads_into(
        b,
        now,
        low[i],
        all,
        all,
        all,
    ) by {
        let c = low[i];
        assert(!cs[i].is_fact);
        lemma_rule_laid(cs, l, strata, i);
        lemma_here_laid(cs, l, strata, s, sc.to_clear, c.head.pred);
        let j = choose|j: int| 0 <= j < rules.len() && #[trigger] rules[j] == low[i];
        if has_atom(c) {
            lemma_nothing_settled(sc, now, cs, l, strata, s, b, all, i);
        }
        lemma_fixpoint_leads(r, now, rules, pending_delta(r.rels), b, all, above(l, s), j);
        assert forall|q: Seq<char>|
            #[trigger] body_reads(cs[i], q) && (!l.contains_key(q) || (l[q] <= l[cs[i].head.pred] && !folded_at(
                cs,
                l,
                l[cs[i].head.pred] as int,
            ).contains(q))) implies covers(all, mid, q) by {
            lemma_spared_alike(x.rels, e.rels, folded_at(cs, l, s), q);
        }
        lemma_rule_covered(cs, l, strata, i, all, mid);
        lemma_same_negated(c, all);
        lemma_spared_alike(x.rels, e.rels, folded_at(cs, l, s), c.head.pred);
        assert forall|y: Bindings| #[trigger] body_true(b, now, c, all, all, y) && head_fact(b, c, y) is Some implies all.contains(
            head_fact(b, c, y)->Some_0,
        ) by {
            lemma_body_moves(b, now, c, all, all, mid, all, y);
            let k = head_fact(b, c, y)->Some_0;
            assert(mid.contains((c.head.pred, k.1)));
        }
    }
}

/// A rule of a cleared relation reads no settled facts.
proof fn lemma_nothing_settled(
    sc: ScopeV,
    now: i64,
    cs: Seq<ClauseV>,
    l: Map<Seq<char>, nat>,
    strata: Seq<Seq<int>>,
    s: int,
    b: Seq<Seq<char>>,
    n: Set<KeyV>,
    i: int,
)
    requires
        laid(cs, l, strata),
        0 <= s < strata.len(),
        orderly()(sc.st),
        0 <= i < cs.len(),
        !cs[i].is_fact,
        lowered_program(cs)[i].body == cs[i].body,
        lowered_program(cs)[i].head.pred == owner(cs[i], i),
        has_atom(lowered_program(cs)[i]),
        scope_here(cs, strata[s], sc.to_clear).contains(owner(cs[i], i)),
        stated_underived(cs),
    ensures
        ({
            let r = reset(sc, cs, scope_here(cs, strata[s], sc.to_clear));
            leads_into(b, now, lowered_program(cs)[i], facts(r.rels).difference(pending_delta(r.rels)), n, facts(r.rels))
        }),
{
    let here = scope_here(cs, strata[s], sc.to_clear);
    let r = reset(sc, cs, here);
    let old_part = facts(r.rels).difference(pending_delta(r.rels));
    let c = lowered_program(cs)[i];
    crate::laid::lemma_list_laid(cs, l, strata, s);
    lemma_reset(sc, cs, strata[s]);
    assert forall|x: Bindings| #[trigger] body_true(b, now, c, old_part, n, x) && head_fact(b, c, x) is Some implies facts(
        r.rels,
    ).contains(head_fact(b, c, x)->Some_0) by {
        let y = choose|y: int| 0 <= y < c.body.len() && #[trigger] c.body[y] is Pos;
        assert(lit_true(b, now, c.body[y], old_part, n, x));
        let a = c.body[y]->Pos_0;
        let key = choose|key: Seq<Value>| old_part.contains((a.pred, key)) && #[trigger] is_instance(b, a.args, key, x);
        let k: KeyV = (a.pred, key);
        assert(holds(r.rels, k));
        assert(!here.contains(a.pred));
        assert(lit_reads(cs[i].body[y], a.pred));
        assert(body_reads(cs[i], a.pred));
        assert(scope_seeds(cs, here).contains(a.pred));
        assert(pending_delta(r.rels).contains(k));
    }
}

/// What is to be cleared is cleared in the step of its level.
pub proof fn lemma_due(
    cs: Seq<ClauseV>,
    l: Map<Seq<char>, nat>,
    strata: Seq<Seq<int>>,
    to_clear: Set<Seq<char>>,
    p: Seq<char>,
)
    requires
        laid(cs, l, strata),
        l.contains_key(p),
        to_clear.contains(p),
    ensures
        !fresh(cs, l, strata, to_clear).contains(p),
{
    let k = lemma_filled_laid(cs, l, strata, p);
    lemma_here_starts(cs, strata[l[p] as int], to_clear, p, k);
}

/// What a rule of a relation that is not cleared reads at its own level is not
/// cleared either.
pub proof fn lemma_reads_fresh(
    cs: Seq<ClauseV>,
    l: Map<Seq<char>, nat>,
    strata: Seq<Seq<int>>,
    to_clear: Set<Seq<char>>,
    i: int,
    q: Seq<char>,
)
    requires
        laid(cs, l, strata),
        0 <= i < cs.len(),
        !cs[i].is_fact,
        fresh(cs, l, strata, to_clear).contains(owner(cs[i], i)),
        body_reads(cs[i], q),
        l.contains_key(q),
        l[q] == l[cs[i].head.pred],
    ensures
        fresh(cs, l, strata, to_clear).contains(q),
{
    let p = owner(cs[i], i);
    let k = lemma_filled_laid(cs, l, strata, p);
    lemma_rule_laid(cs, l, strata, i);
    let j = choose|j: int| 0 <= j < cs[i].body.len() && lit_reads(#[trigger] cs[i].body[j], q);
    lemma_reads_laid(cs, l, strata, i, j);
    if !fresh(cs, l, strata, to_clear).contains(q) {
        assert(rule_reads(cs, i, q, p));
        assert(direct_reader(cs, q, p));
        lemma_here_spreads(cs, strata[l[p] as int], to_clear, q, p, k);
    }
}

/// Where more is to be cleared, no more is fresh.
proof fn lemma_fresh_shrinks(
    cs: Seq<ClauseV>,
    l: Map<Seq<char>, nat>,
    strata: Seq<Seq<int>>,
    a: Set<Seq<char>>,
    b: Set<Seq<char>>,
    p: Seq<char>,
)
    requires
        laid(cs, l, strata),
        fresh(cs, l, strata, b).contains(p),
        forall|q: Seq<char>| #[trigger] l.contains_key(q) && l[q] == l[p] && a.contains(q) ==> b.contains(q),
    ensures
        fresh(cs, l, strata, a).contains(p),
{
    let s = l[p] as int;
    let k = lemma_filled_laid(cs, l, strata, p);
    let stratum = strata[s];
    let more = scope_here(cs, stratum, b);
    assert forall|q: Seq<char>, k: int|
        0 <= k < stratum.len() && a.contains(q) && filled_by(cs, #[trigger] stratum[k], q) implies #[trigger] more.contains(q) by {
        lemma_fills_laid(cs, l, strata, s, k, q);
        lemma_here_starts(cs, stratum, b, q, k);
    }
    assert forall|q: Seq<char>, r: Seq<char>, k: int|
        0 <= k < stratum.len() && more.contains(q) && #[trigger] direct_reader(cs, q, r) && filled_by(cs, #[trigger] stratum[k], r) implies more.contains(
        r,
    ) by {
        lemma_here_spreads(cs, stratum, b, q, r, k);
    }
    lemma_here_only(cs, stratum, a, more);
}

/// Where nothing of a level is to be cleared, all of it is fresh.
proof fn lemma_all_fresh(
    cs: Seq<ClauseV>,
    l: Map<Seq<char>, nat>,
    strata: Seq<Seq<int>>,
    to_clear: Set<Seq<char>>,
    p: Seq<char>,
)
    requires
        laid(cs, l, strata),
        l.contains_key(p),
        !aggregated(cs, p),
        forall|q: Seq<char>| #[trigger] l.contains_key(q) && l[q] == l[p] ==> !to_clear.contains(q),
    ensures
        fresh(cs, l, strata, to_clear).contains(p),
{
    let s = l[p] as int;
    let k = lemma_filled_laid(cs, l, strata, p);
    let stratum = strata[s];
    assert forall|q: Seq<char>, k: int| 0 <= k < stratum.len() && filled_by(cs, #[trigger] stratum[k], q) implies !(#[trigger] to_clear.contains(
        q,
    )) by {
        lemma_fills_laid(cs, l, strata, s, k, q);
    }
    lemma_here_from(cs, stratum, to_clear);
}

/// The relations of the level that are not cleared and that rules fill keep
/// their facts.
proof fn lemma_kept_alike(
    sc: ScopeV,
    now: i64,
    cs: Seq<ClauseV>,
    l: Map<Seq<char>, nat>,
    strata: Seq<Seq<int>>,
    s: int,
    b: Seq<Seq<char>>,
    p: Seq<char>,
)
    requires
        is_step(sc, now, cs, l, strata, s, b),
        tidy(sc, now, cs, l, strata, s, b),
        !scope_here(cs, strata[s], sc.to_clear).contains(p),
        ruled_at(cs, l, s).contains(p),
    ensures
        alike(facts(sc.st.rels), facts(stepped(sc, now, cs, strata[s]).rels), p),
{
    let here = scope_here(cs, strata[s], sc.to_clear);
    let r = reset(sc, cs, here);
    let x = half_stepped(sc, now, cs, strata[s]);
    let e = stepped(sc, now, cs, strata[s]);
    let was = facts(sc.st.rels);
    let all = facts(e.rels);
    let low = lowered_program(cs);
    let keep = fresh(cs, l, strata, sc.to_clear);
    let wide = Set::new(|k: KeyV| here.contains(k.0) || above(l, s + 1).contains(k.0) || was.contains(k));
    lemma_step_parts(sc, now, cs, l, strata, s, b);
    crate::laid::lemma_list_laid(cs, l, strata, s);
    lemma_reset(sc, cs, strata[s]);
    assert(facts(r.rels).subset_of(wide)) by {
        assert forall|k: KeyV| #[trigger] facts(r.rels).contains(k) implies wide.contains(k) by {
            assert(holds(r.rels, k));
        }
    }
    assert forall|q: Seq<char>| !(#[trigger] l.contains_key(q)) || l[q] < s implies alike(was, all, q) by {
        if here.contains(q) {
            lemma_here_laid(cs, l, strata, s, sc.to_clear, q);
        }
        assert(alike(was, facts(r.rels), q));
        lemma_spared_alike(r.rels, e.rels, level(l, s), q);
        lemma_alike_trans(was, facts(r.rels), all, q);
    }
    assert forall|i: int| 0 <= i < cs.len() && !cs[i].is_fact && level(l, s).contains((#[trigger] low[i]).head.pred) implies leads_into(
        b,
        now,
        low[i],
        wide,
        all,
        wide,
    ) by {
        let c = low[i];
        lemma_rule_laid(cs, l, strata, i);
        if !here.contains(c.head.pred) {
            assert(keep.contains(c.head.pred));
            assert(leads_into(b, now, c, was, was, was));
            assert forall|q: Seq<char>|
                #[trigger] body_reads(cs[i], q) && (!l.contains_key(q) || (l[q] <= l[cs[i].head.pred] && !folded_at(
                    cs,
                    l,
                    l[cs[i].head.pred] as int,
                ).contains(q))) implies covers(wide, was, q) by {
                assert(!here.contains(q)) by {
                    if here.contains(q) {
                        lemma_here_laid(cs, l, strata, s, sc.to_clear, q);
                        lemma_reads_fresh(cs, l, strata, sc.to_clear, i, q);
                    }
                }
            }
            lemma_rule_covered(cs, l, strata, i, wide, was);
            lemma_negated_below(cs, l, strata, i, was, all);
            assert forall|y: Bindings| #[trigger] body_true(b, now, c, wide, all, y) && head_fact(b, c, y) is Some implies wide.contains(
                head_fact(b, c, y)->Some_0,
            ) by {
                lemma_body_moves(b, now, c, wide, all, was, was, y);
            }
        }
    }
    lemma_stratum_only(r, now, cs, l, strata, s, b, all, wide);
    assert(alike(was, facts(r.rels), p));
    lemma_spared_alike(x.rels, e.rels, folded_at(cs, l, s), p);
    assert forall|key: Seq<Value>| #[trigger] all.contains((p, key)) implies was.contains((p, key)) by {
        assert(facts(x.rels).contains((p, key)));
        assert(wide.contains((p, key)));
    }
    assert forall|key: Seq<Value>| #[trigger] was.contains((p, key)) implies all.contains((p, key)) by {
        assert(facts(r.rels).contains((p, key)));
        assert(facts(x.rels).contains((p, key)));
    }
}

/// An aggregated predicate has the same facts where its solutions have.
pub proof fn lemma_folds_alike(a: RelsV, b: RelsV, cs: Seq<ClauseV>, i: int)
    requires
        rels_wf(a),
        rels_wf(b),
        is_fold(cs, i),
        all_tallied(a, cs),
        all_tallied(b, cs),
        alike(facts(a), facts(b), temp_name(cs[i], i)),
    ensures
        alike(facts(a), facts(b), cs[i].head.pred),
{
    let c = cs[i];
    let t = temp_name(c, i);
    assert forall|key: Seq<Value>| #[trigger] holds(a, (t, key)) <==> holds(b, (t, key)) by {
        assert(facts(a).contains((t, key)) <==> facts(b).contains((t, key)));
    }
    lemma_solutions_alike(a, b, c, i);
    tallies_alike(c, solutions(a, c, i), solutions(b, c, i));
    assert(is_tallied(a, c, i) && is_tallied(b, c, i));
    assert forall|key: Seq<Value>| #[trigger] facts(a).contains((c.head.pred, key)) implies facts(b).contains((c.head.pred, key)) by {
        assert(holds(a, (c.head.pred, key)));
        assert(is_tally(c, solutions(a, c, i), key));
        assert(holds(b, (c.head.pred, key)));
    }
    assert forall|key: Seq<Value>| #[trigger] facts(b).contains((c.head.pred, key)) implies facts(a).contains((c.head.pred, key)) by {
        assert(holds(b, (c.head.pred, key)));
        assert(is_tally(c, solutions(a, c, i), key));
        assert(holds(a, (c.head.pred, key)));
    }
}

/// Where an intermediate relation is cleared, so is its aggregated predicate.
pub proof fn lemma_cleared_with(cs: Seq<ClauseV>, l: Map<Seq<char>, nat>, strata: Seq<Seq<int>>, s: int, to_clear: Set<Seq<char>>, i: int)
    requires
        laid(cs, l, strata),
        0 <= s < strata.len(),
        is_fold(cs, i),
        scope_here(cs, strata[s], to_clear).contains(temp_name(cs[i], i)),
    ensures
        scope_here(cs, strata[s], to_clear).contains(cs[i].head.pred),
{
    lemma_rule_laid(cs, l, strata, i);
    lemma_here_laid(cs, l, strata, s, to_clear, temp_name(cs[i], i));
    let k = lemma_filled_laid(cs, l, strata, cs[i].head.pred);
    assert(rule_reads(cs, i, temp_name(cs[i], i), cs[i].head.pred));
    assert(direct_reader(cs, temp_name(cs[i], i), cs[i].head.pred));
    lemma_here_spreads(cs, strata[s], to_clear, temp_name(cs[i], i), cs[i].head.pred, k);
}

/// Predicates with the same tuples are alike.
proof fn lemma_tuples_alike(a: RelsV, b: RelsV, p: Seq<char>)
    requires
        tuples_of(a, p) == tuples_of(b, p),
    ensures
        alike(facts(a), facts(b), p),
{
    assert forall|key: Seq<Value>| #[trigger] facts(a).contains((p, key)) <==> facts(b).contains((p, key)) by {
        assert(facts(a).contains((p, key)) <==> tuples_of(a, p).contains(key)) by {
            if a.contains_key(p) {
                lemma_key_set(a[p], key);
            }
        }
        assert(facts(b).contains((p, key)) <==> tuples_of(b, p).contains(key)) by {
            if b.contains_key(p) {
                lemma_key_set(b[p], key);
            }
        }
    }
    assert forall|key: Seq<Value>| #[trigger] facts(b).contains((p, key)) implies facts(a).contains((p, key)) by {
        assert(facts(a).contains((p, key)) <==> facts(b).contains((p, key)));
    }
}

/// A step leaves alike every relation that it does not clear.
pub proof fn lemma_step_alike(
    sc: ScopeV,
    now: i64,
    cs: Seq<ClauseV>,
    l: Map<Seq<char>, nat>,
    strata: Seq<Seq<int>>,
    s: int,
    b: Seq<Seq<char>>,
    q: Seq<char>,
)
    requires
        is_step(sc, now, cs, l, strata, s, b),
        tidy(sc, now, cs, l, strata, s, b),
        !scope_here(cs, strata[s], sc.to_clear).contains(q),
    ensures
        alike(facts(sc.st.rels), facts(stepped(sc, now, cs, strata[s]).rels), q),
{
    let here = scope_here(cs, strata[s], sc.to_clear);
    let r = reset(sc, cs, here);
    let e = stepped(sc, now, cs, strata[s]);
    lemma_step_parts(sc, now, cs, l, strata, s, b);
    if ruled_at(cs, l, s).contains(q) {
        lemma_kept_alike(sc, now, cs, l, strata, s, b, q);
    } else if folded_at(cs, l, s).contains(q) {
        let i = choose|i: int| 0 <= i < cs.len() && !(#[trigger] cs[i]).is_fact && aggregates(cs[i]) && cs[i].head.pred == q;
        assert(is_fold(cs, i));
        lemma_rule_laid(cs, l, strata, i);
        if here.contains(temp_name(cs[i], i)) {
            lemma_cleared_with(cs, l, strata, s, sc.to_clear, i);
        }
        lemma_kept_alike(sc, now, cs, l, strata, s, b, temp_name(cs[i], i));
        lemma_folds_alike(sc.st.rels, e.rels, cs, i);
    } else {
        lemma_spared_alike(r.rels, e.rels, level(l, s), q);
        lemma_alike_trans(facts(sc.st.rels), facts(r.rels), facts(e.rels), q);
    }
}

/// What a step puts into the queue is of a higher level.
proof fn lemma_queued_above(
    sc: ScopeV,
    cs: Seq<ClauseV>,
    l: Map<Seq<char>, nat>,
    strata: Seq<Seq<int>>,
    s: int,
    is: RelsV,
    p: Seq<char>,
)
    requires
        laid(cs, l, strata),
        0 <= s < strata.len(),
        scope_queued(cs, strata, scope_here(cs, strata[s], sc.to_clear), sc.st.rels, is).contains(p),
    ensures
        l.contains_key(p),
        l[p] > s,
{
    let here = scope_here(cs, strata[s], sc.to_clear);
    let q = choose|q: Seq<char>| here.contains(q) && tuples_of(sc.st.rels, q) != tuples_of(is, q) && #[trigger] direct_reader(cs, q, p);
    lemma_here_laid(cs, l, strata, s, sc.to_clear, q);
    let i = choose|i: int| rule_reads(cs, i, q, p);
    lemma_rule_laid(cs, l, strata, i);
    let k = lemma_filled_laid(cs, l, strata, p);
    if body_reads(cs[i], q) && p == owner(cs[i], i) {
        let j = choose|j: int| 0 <= j < cs[i].body.len() && lit_reads(#[trigger] cs[i].body[j], q);
        lemma_reads_laid(cs, l, strata, i, j);
    }
    if l[p] == s {
        lemma_here_spreads(cs, strata[s], sc.to_clear, q, p, k);
    }
}

/// What is to be cleared after a step is of a higher level.
proof fn lemma_step_due(
    sc: ScopeV,
    now: i64,
    cs: Seq<ClauseV>,
    l: Map<Seq<char>, nat>,
    strata: Seq<Seq<int>>,
    s: int,
    b: Seq<Seq<char>>,
    p: Seq<char>,
)
    requires
        laid(cs, l, strata),
        0 <= s < strata.len(),
        tidy(sc, now, cs, l, strata, s, b),
        l.contains_key(p),
        scope_step(sc, now, cs, strata, strata[s]).to_clear.contains(p),
    ensures
        l[p] > s,
{
    let here = scope_here(cs, strata[s], sc.to_clear);
    let next = scope_step(sc, now, cs, strata, strata[s]);
    if sc.to_clear.contains(p) && !here.contains(p) {
        if l[p] == s {
            let k = lemma_filled_laid(cs, l, strata, p);
            lemma_here_starts(cs, strata[s], sc.to_clear, p, k);
        }
    } else {
        lemma_queued_above(sc, cs, l, strata, s, next.st.rels, p);
    }
}

/// What is fresh after a step was cleared by it, or was fresh before and reads
/// nothing that changed.
proof fn lemma_step_fresh(
    sc: ScopeV,
    now: i64,
    cs: Seq<ClauseV>,
    l: Map<Seq<char>, nat>,
    strata: Seq<Seq<int>>,
    s: int,
    b: Seq<Seq<char>>,
    p: Seq<char>,
)
    requires
        is_step(sc, now, cs, l, strata, s, b),
        tidy(sc, now, cs, l, strata, s, b),
        fresh(cs, l, strata, scope_step(sc, now, cs, strata, strata[s]).to_clear).contains(p),
        !scope_here(cs, strata[s], sc.to_clear).contains(p),
    ensures
        fresh(cs, l, strata, sc.to_clear).contains(p),
        forall|i: int, q: Seq<char>|
            #[trigger] group_reads(lowered_program(cs), set![p], i, q) ==> alike(
                facts(sc.st.rels),
                facts(stepped(sc, now, cs, strata[s]).rels),
                q,
            ),
{
    let here = scope_here(cs, strata[s], sc.to_clear);
    let next = scope_step(sc, now, cs, strata, strata[s]);
    let e = stepped(sc, now, cs, strata[s]);
    let low = lowered_program(cs);
    if l[p] != s {
        assert forall|q: Seq<char>| #[trigger] l.contains_key(q) && l[q] == l[p] && sc.to_clear.contains(q) implies next.to_clear.contains(
            q,
        ) by {
            if here.contains(q) {
                lemma_here_laid(cs, l, strata, s, sc.to_clear, q);
            }
        }
        lemma_fresh_shrinks(cs, l, strata, sc.to_clear, next.to_clear, p);
    }
    let k = lemma_filled_laid(cs, l, strata, p);
    assert(!next.to_clear.contains(p)) by {
        if next.to_clear.contains(p) {
            lemma_due(cs, l, strata, next.to_clear, p);
        }
    }
    assert forall|i: int, q: Seq<char>| #[trigger] group_reads(low, set![p], i, q) implies alike(
        facts(sc.st.rels),
        facts(e.rels),
        q,
    ) by {
        assert(!cs[i].is_fact);
        lemma_rule_laid(cs, l, strata, i);
        assert(body_reads(cs[i], q));
        if here.contains(q) {
            assert(owner(cs[i], i) == p);
            assert(rule_reads(cs, i, q, p));
            assert(direct_reader(cs, q, p));
            assert(tuples_of(sc.st.rels, q) == tuples_of(e.rels, q));
            lemma_tuples_alike(sc.st.rels, e.rels, q);
        } else {
            lemma_step_alike(sc, now, cs, l, strata, s, b, q);
        }
    }
}

/// What was fresh before a step and is after it is exact after it.
proof fn lemma_rest_exact(
    sc: ScopeV,
    now: i64,
    cs: Seq<ClauseV>,
    l: Map<Seq<char>, nat>,
    strata: Seq<Seq<int>>,
    s: int,
    b: Seq<Seq<char>>,
    rest: Set<Seq<char>>,
)
    requires
        is_step(sc, now, cs, l, strata, s, b),
        tidy(sc, now, cs, l, strata, s, b),
        forall|p: Seq<char>| #[trigger]
            rest.contains(p) ==> fresh(cs, l, strata, scope_step(sc, now, cs, strata, strata[s]).to_clear).contains(p)
                && !scope_here(cs, strata[s], sc.to_clear).contains(p),
    ensures
        is_exact(b, now, lowered_program(cs), rest, facts(stepped(sc, now, cs, strata[s]).rels)),
{
    let was = facts(sc.st.rels);
    let all = facts(stepped(sc, now, cs, strata[s]).rels);
    let low = lowered_program(cs);
    assert forall|p: Seq<char>| #[trigger] rest.contains(p) implies fresh(cs, l, strata, sc.to_clear).contains(p) && alike(was, all, p) by {
        lemma_step_fresh(sc, now, cs, l, strata, s, b, p);
        lemma_step_alike(sc, now, cs, l, strata, s, b, p);
    }
    lemma_exact_part(b, now, low, fresh(cs, l, strata, sc.to_clear), rest, was);
    assert forall|i: int, q: Seq<char>| #[trigger] group_reads(low, rest, i, q) implies alike(was, all, q) by {
        let p = low[i].head.pred;
        assert(rest.contains(p));
        lemma_step_fresh(sc, now, cs, l, strata, s, b, p);
        assert(group_reads(low, set![p], i, q));
    }
    lemma_exact_moves(b, now, low, rest, was, all);
}

/// A set that is closed under the rules of what is fresh after a step, and
/// holds the other facts.
spec fn is_candidate(
    sc: ScopeV,
    now: i64,
    cs: Seq<ClauseV>,
    l: Map<Seq<char>, nat>,
    strata: Seq<Seq<int>>,
    s: int,
    b: Seq<Seq<char>>,
    m: Set<KeyV>,
) -> bool {
    let all = facts(stepped(sc, now, cs, strata[s]).rels);
    let good = fresh(cs, l, strata, scope_step(sc, now, cs, strata, strata[s]).to_clear);
    closed_for(b, now, lowered_program(cs), good, m, all) && outside(all, good).subset_of(m)
}

/// In such a set are the facts of what is fresh up to the level of the step
/// and was not cleared by it.
proof fn lemma_lower_in(
    sc: ScopeV,
    now: i64,
    cs: Seq<ClauseV>,
    l: Map<Seq<char>, nat>,
    strata: Seq<Seq<int>>,
    s: int,
    b: Seq<Seq<char>>,
    m: Set<KeyV>,
)
    requires
        is_step(sc, now, cs, l, strata, s, b),
        tidy(sc, now, cs, l, strata, s, b),
        is_candidate(sc, now, cs, l, strata, s, b, m),
    ensures
        forall|k: KeyV| #[trigger]
            facts(stepped(sc, now, cs, strata[s]).rels).contains(k) && (!l.contains_key(k.0) || l[k.0] <= s) && !scope_here(
                cs,
                strata[s],
                sc.to_clear,
            ).contains(k.0) ==> m.contains(k),
{
    let here = scope_here(cs, strata[s], sc.to_clear);
    let all = facts(stepped(sc, now, cs, strata[s]).rels);
    let good = fresh(cs, l, strata, scope_step(sc, now, cs, strata, strata[s]).to_clear);
    let low = lowered_program(cs);
    let part = Set::new(|p: Seq<char>| good.contains(p) && !here.contains(p) && l[p] <= s);
    lemma_rest_exact(sc, now, cs, l, strata, s, b, part);
    let m1 = patched(all, part, m);
    assert(closed_for(b, now, low, part, m1, all)) by {
        assert forall|i: int| 0 <= i < low.len() && !(#[trigger] low[i]).is_fact && part.contains(low[i].head.pred) implies leads_into(
            b,
            now,
            low[i],
            m1,
            all,
            m1,
        ) by {
            let c = low[i];
            assert(!cs[i].is_fact);
            lemma_rule_laid(cs, l, strata, i);
            assert(leads_into(b, now, c, m, all, m));
            assert forall|q: Seq<char>|
                #[trigger] body_reads(cs[i], q) && (!l.contains_key(q) || (l[q] <= l[cs[i].head.pred] && !folded_at(
                    cs,
                    l,
                    l[cs[i].head.pred] as int,
                ).contains(q))) implies covers(m1, m, q) by {
                if here.contains(q) {
                    lemma_here_laid(cs, l, strata, s, sc.to_clear, q);
                    lemma_step_fresh(sc, now, cs, l, strata, s, b, c.head.pred);
                    lemma_reads_fresh(cs, l, strata, sc.to_clear, i, q);
                }
                assert forall|key: Seq<Value>| #[trigger] m1.contains((q, key)) implies m.contains((q, key)) by {
                    if !part.contains(q) {
                        assert(outside(all, good).contains((q, key)));
                    }
                }
            }
            lemma_rule_covered(cs, l, strata, i, m1, m);
            lemma_same_negated(c, all);
            assert forall|x: Bindings| #[trigger] body_true(b, now, c, m1, all, x) && head_fact(b, c, x) is Some implies m1.contains(
                head_fact(b, c, x)->Some_0,
            ) by {
                lemma_body_moves(b, now, c, m1, all, m, all, x);
            }
        }
    }
    assert(outside(all, part).subset_of(m1));
    assert(all.subset_of(m1));
    assert forall|k: KeyV| #[trigger] all.contains(k) && (!l.contains_key(k.0) || l[k.0] <= s) && !here.contains(k.0) implies m.contains(
        k,
    ) by {
        if part.contains(k.0) {
            assert(m1.contains(k));
        } else {
            assert(outside(all, good).contains(k));
        }
    }
}

/// In such a set are the facts of what the step cleared.
proof fn lemma_cleared_in(
    sc: ScopeV,
    now: i64,
    cs: Seq<ClauseV>,
    l: Map<Seq<char>, nat>,
    strata: Seq<Seq<int>>,
    s: int,
    b: Seq<Seq<char>>,
    m: Set<KeyV>,
)
    requires
        is_step(sc, now, cs, l, strata, s, b),
        tidy(sc, now, cs, l, strata, s, b),
        is_candidate(sc, now, cs, l, strata, s, b, m),
    ensures
        forall|k: KeyV| #[trigger]
            facts(stepped(sc, now, cs, strata[s]).rels).contains(k) && scope_here(cs, strata[s], sc.to_clear).contains(k.0)
                ==> m.contains(k),
{
    let here = scope_here(cs, strata[s], sc.to_clear);
    let next = scope_step(sc, now, cs, strata, strata[s]);
    let r = reset(sc, cs, here);
    let x = half_stepped(sc, now, cs, strata[s]);
    let e = stepped(sc, now, cs, strata[s]);
    let all = facts(e.rels);
    let low = lowered_program(cs);
    let good = fresh(cs, l, strata, next.to_clear);
    let wide = Set::new(
        |k: KeyV|
            above(l, s + 1).contains(k.0) || (if here.contains(k.0) {
                m.contains(k)
            } else {
                all.contains(k)
            }),
    );
    lemma_step_parts(sc, now, cs, l, strata, s, b);
    crate::laid::lemma_list_laid(cs, l, strata, s);
    lemma_reset(sc, cs, strata[s]);
    lemma_lower_in(sc, now, cs, l, strata, s, b, m);
    assert forall|p: Seq<char>| #[trigger] ruled_at(cs, l, s).contains(p) implies good.contains(p) by {
        assert forall|q: Seq<char>| #[trigger] l.contains_key(q) && l[q] == l[p] implies !next.to_clear.contains(q) by {
            if next.to_clear.contains(q) {
                lemma_step_due(sc, now, cs, l, strata, s, b, q);
            }
        }
        lemma_all_fresh(cs, l, strata, next.to_clear, p);
    }
    let kept = Set::new(|p: Seq<char>| ruled_at(cs, l, s).contains(p) && !here.contains(p));
    lemma_rest_exact(sc, now, cs, l, strata, s, b, kept);
    assert(facts(r.rels).subset_of(wide)) by {
        assert forall|k: KeyV| #[trigger] facts(r.rels).contains(k) implies wide.contains(k) by {
            assert(holds(r.rels, k));
            if !here.contains(k.0) {
                lemma_step_alike(sc, now, cs, l, strata, s, b, k.0);
                assert(facts(sc.st.rels).contains((k.0, k.1)));
            }
        }
    }
    assert forall|i: int| 0 <= i < cs.len() && !cs[i].is_fact && level(l, s).contains((#[trigger] low[i]).head.pred) implies leads_into(
        b,
        now,
        low[i],
        wide,
        all,
        wide,
    ) by {
        let c = low[i];
        let p = c.head.pred;
        lemma_rule_laid(cs, l, strata, i);
        assert(ruled_at(cs, l, s).contains(p));
        assert(good.contains(p));
        lemma_same_negated(c, all);
        if here.contains(p) {
            assert(leads_into(b, now, c, m, all, m));
            assert forall|q: Seq<char>|
                #[trigger] body_reads(cs[i], q) && (!l.contains_key(q) || (l[q] <= l[cs[i].head.pred] && !folded_at(
                    cs,
                    l,
                    l[cs[i].head.pred] as int,
                ).contains(q))) implies covers(wide, m, q) by {
                assert forall|key: Seq<Value>| #[trigger] wide.contains((q, key)) implies m.contains((q, key)) by {
                    let k: KeyV = (q, key);
                    if !here.contains(q) {
                        assert(all.contains(k));
                    }
                }
            }
            lemma_rule_covered(cs, l, strata, i, wide, m);
            assert forall|y: Bindings| #[trigger] body_true(b, now, c, wide, all, y) && head_fact(b, c, y) is Some implies wide.contains(
                head_fact(b, c, y)->Some_0,
            ) by {
                lemma_body_moves(b, now, c, wide, all, m, all, y);
            }
        } else {
            assert(kept.contains(p));
            assert(leads_into(b, now, c, all, all, all));
            assert forall|q: Seq<char>|
                #[trigger] body_reads(cs[i], q) && (!l.contains_key(q) || (l[q] <= l[cs[i].head.pred] && !folded_at(
                    cs,
                    l,
                    l[cs[i].head.pred] as int,
                ).contains(q))) implies covers(wide, all, q) by {
                if here.contains(q) {
                    lemma_here_laid(cs, l, strata, s, sc.to_clear, q);
                    assert(fresh(cs, l, strata, sc.to_clear).contains(p));
                    lemma_reads_fresh(cs, l, strata, sc.to_clear, i, q);
                }
            }
            lemma_rule_covered(cs, l, strata, i, wide, all);
            assert forall|y: Bindings| #[trigger] body_true(b, now, c, wide, all, y) && head_fact(b, c, y) is Some implies wide.contains(
                head_fact(b, c, y)->Some_0,
            ) by {
                lemma_body_moves(b, now, c, wide, all, all, all, y);
            }
        }
    }
    lemma_stratum_only(r, now, cs, l, strata, s, b, all, wide);
    assert forall|k: KeyV| #[trigger] all.contains(k) && here.contains(k.0) implies m.contains(k) by {
        lemma_here_laid(cs, l, strata, s, sc.to_clear, k.0);
        if aggregated(cs, k.0) {
            assert(outside(all, good).contains(k));
        } else {
            lemma_spared_alike(x.rels, e.rels, folded_at(cs, l, s), k.0);
            assert(facts(x.rels).contains((k.0, k.1)));
            assert(wide.contains(k));
        }
    }
}

/// What is fresh after a step is exact after it.
proof fn lemma_step_exact(
    sc: ScopeV,
    now: i64,
    cs: Seq<ClauseV>,
    l: Map<Seq<char>, nat>,
    strata: Seq<Seq<int>>,
    s: int,
    b: Seq<Seq<char>>,
)
    requires
        is_step(sc, now, cs, l, strata, s, b),
        tidy(sc, now, cs, l, strata, s, b),
    ensures
        is_exact(
            b,
            now,
            lowered_program(cs),
            fresh(cs, l, strata, scope_step(sc, now, cs, strata, strata[s]).to_clear),
            facts(stepped(sc, now, cs, strata[s]).rels),
        ),
{
    let here = scope_here(cs, strata[s], sc.to_clear);
    let all = facts(stepped(sc, now, cs, strata[s]).rels);
    let low = lowered_program(cs);
    let good = fresh(cs, l, strata, scope_step(sc, now, cs, strata, strata[s]).to_clear);
    let rest = Set::new(|p: Seq<char>| good.contains(p) && !here.contains(p));
    let high = Set::new(|p: Seq<char>| good.contains(p) && !here.contains(p) && l[p] > s);
    lemma_cleared_closed(sc, now, cs, l, strata, s, b);
    lemma_rest_exact(sc, now, cs, l, strata, s, b, rest);
    lemma_rest_exact(sc, now, cs, l, strata, s, b, high);
    assert forall|i: int| 0 <= i < low.len() && !(#[trigger] low[i]).is_fact && good.contains(low[i].head.pred) implies leads_into(
        b,
        now,
        low[i],
        all,
        all,
        all,
    ) by {
        if !here.contains(low[i].head.pred) {
            assert(rest.contains(low[i].head.pred));
        }
    }
    assert forall|m: Set<KeyV>| #[trigger] closed_for(b, now, low, good, m, all) && outside(all, good).subset_of(m) implies all.subset_of(
        m,
    ) by {
        assert(is_candidate(sc, now, cs, l, strata, s, b, m));
        lemma_lower_in(sc, now, cs, l, strata, s, b, m);
        lemma_cleared_in(sc, now, cs, l, strata, s, b, m);
        assert(closed_for(b, now, low, high, m, all)) by {
            assert forall|i: int| 0 <= i < low.len() && !(#[trigger] low[i]).is_fact && high.contains(low[i].head.pred) implies leads_into(
                b,
                now,
                low[i],
                m,
                all,
                m,
            ) by {
                assert(good.contains(low[i].head.pred));
            }
        }
        assert forall|k: KeyV| #[trigger] outside(all, high).contains(k) implies m.contains(k) by {
            if !good.contains(k.0) {
                assert(outside(all, good).contains(k));
            }
        }
    }
}

/// A step of a recomputation goes on tidily.
pub proof fn lemma_step_tidy(
    sc: ScopeV,
    now: i64,
    cs: Seq<ClauseV>,
    l: Map<Seq<char>, nat>,
    strata: Seq<Seq<int>>,
    s: int,
    b: Seq<Seq<char>>,
)
    requires
        laid(cs, l, strata),
        0 <= s < strata.len(),
        tidy(sc, now, cs, l, strata, s, b),
        step_settles(sc, now, cs, strata[s]),
        scope_step(sc, now, cs, strata, strata[s]).st.names.is_prefix_of(b),
    ensures
        tidy(scope_step(sc, now, cs, strata, strata[s]), now, cs, l, strata, s + 1, b),
        forall|q: Seq<char>|
            !(#[trigger] l.contains_key(q)) ==> alike(
                facts(sc.st.rels),
                facts(scope_step(sc, now, cs, strata, strata[s]).st.rels),
                q,
            ),
{
    let here = scope_here(cs, strata[s], sc.to_clear);
    let next = scope_step(sc, now, cs, strata, strata[s]);
    if here == Set::<Seq<char>>::empty() {
        assert forall|p: Seq<char>| #[trigger] l.contains_key(p) && sc.to_clear.contains(p) implies l[p] >= s + 1 by {
            if l[p] == s {
                let k = lemma_filled_laid(cs, l, strata, p);
                lemma_here_starts(cs, strata[s], sc.to_clear, p, k);
            }
        }
    } else {
        let e = stepped(sc, now, cs, strata[s]);
        assert(next.st == e);
        assert(is_step(sc, now, cs, l, strata, s, b));
        lemma_step_parts(sc, now, cs, l, strata, s, b);
        assert forall|p: Seq<char>| #[trigger] l.contains_key(p) && next.to_clear.contains(p) implies l[p] >= s + 1 by {
            lemma_step_due(sc, now, cs, l, strata, s, b, p);
        }
        lemma_step_exact(sc, now, cs, l, strata, s, b);
        assert forall|q: Seq<char>| !(#[trigger] l.contains_key(q)) implies alike(facts(sc.st.rels), facts(next.st.rels), q) by {
            if here.contains(q) {
                lemma_here_laid(cs, l, strata, s, sc.to_clear, q);
            }
            lemma_step_alike(sc, now, cs, l, strata, s, b, q);
        }
    }
}

// ------------------------------------------------------------------- one pass

/// One pass makes the relations that rules fill exact.
pub proof fn lemma_pass_tidy(
    sc: ScopeV,
    now: i64,
    cs: Seq<ClauseV>,
    l: Map<Seq<char>, nat>,
    strata: Seq<Seq<int>>,
    s: int,
    b: Seq<Seq<char>>,
)
    requires
        laid(cs, l, strata),
        0 <= s <= strata.len(),
        tidy(sc, now, cs, l, strata, s, b),
        pass_settles(sc, now, cs, strata, s),
        scope_pass(sc, now, cs, strata, s).st.names.is_prefix_of(b),
    ensures
        tidy(scope_pass(sc, now, cs, strata, s), now, cs, l, strata, strata.len() as int, b),
        forall|q: Seq<char>|
            !(#[trigger] l.contains_key(q)) ==> alike(facts(sc.st.rels), facts(scope_pass(sc, now, cs, strata, s).st.rels), q),
    decreases strata.len() - s,
{
    if s < strata.len() {
        let next = scope_step(sc, now, cs, strata, strata[s]);
        let last = scope_pass(next, now, cs, strata, s + 1);
        lemma_strata_laid(cs, l, strata);
        lemma_strata_fit(cs, strata);
        assert(indices_of(strata[s], cs.len() as int));
        assert(writes_in(cs, anything()));
        lemma_step_touches(sc, now, cs, strata, strata[s], anything());
        lemma_pass_touches(next, now, cs, strata, s + 1, anything());
        lemma_prefix_trans(next.st.names, last.st.names, b);
        lemma_step_tidy(sc, now, cs, l, strata, s, b);
        lemma_pass_tidy(next, now, cs, l, strata, s + 1, b);
        assert forall|q: Seq<char>| !(#[trigger] l.contains_key(q)) implies alike(facts(sc.st.rels), facts(last.st.rels), q) by {
            lemma_alike_trans(facts(sc.st.rels), facts(next.st.rels), facts(last.st.rels), q);
        }
    }
}

/// The facts of the relations that the rules do not write.
pub open spec fn unwritten(cs: Seq<ClauseV>, all: Set<KeyV>) -> Set<KeyV> {
    all.filter(|k: KeyV| !is_written(cs, k.0))
}

pub proof fn lemma_same_unwritten(cs: Seq<ClauseV>, l: Map<Seq<char>, nat>, strata: Seq<Seq<int>>, a: Set<KeyV>, b: Set<KeyV>)
    requires
        laid(cs, l, strata),
        forall|q: Seq<char>| !(#[trigger] l.contains_key(q)) ==> alike(a, b, q),
    ensures
        unwritten(cs, a) == unwritten(cs, b),
{
    assert forall|k: KeyV| unwritten(cs, a).contains(k) <==> unwritten(cs, b).contains(k) by {
        if !is_written(cs, k.0) {
            assert(!l.contains_key(k.0));
            assert(alike(a, b, k.0));
            assert(a.contains((k.0, k.1)) <==> b.contains((k.0, k.1)));
        }
    }
    assert(unwritten(cs, a) =~= unwritten(cs, b));
}

/// The relations that the evaluated rules derive are those that are filled by
/// rules.
pub proof fn lemma_ruled_defined(cs: Seq<ClauseV>, l: Map<Seq<char>, nat>, strata: Seq<Seq<int>>, p: Seq<char>)
    requires
        laid(cs, l, strata),
    ensures
        defined(lowered_program(cs), p) <==> is_ruled(cs, p),
{
    let low = lowered_program(cs);
    if defined(low, p) {
        let i = choose|i: int| 0 <= i < low.len() && !(#[trigger] low[i]).is_fact && low[i].head.pred == p;
        assert(!cs[i].is_fact);
        lemma_rule_laid(cs, l, strata, i);
    }
    if is_ruled(cs, p) {
        let i = if defined(cs, p) {
            choose|i: int| 0 <= i < cs.len() && !(#[trigger] cs[i]).is_fact && cs[i].head.pred == p
        } else {
            choose|i: int| #[trigger] is_fold(cs, i) && p == temp_name(cs[i], i)
        };
        lemma_rule_laid(cs, l, strata, i);
        assert(low[i].head.pred == p);
    }
}

/// Where nothing is left to be cleared, the facts stand.
pub proof fn lemma_exact_stands(sc: ScopeV, now: i64, cs: Seq<ClauseV>, l: Map<Seq<char>, nat>, strata: Seq<Seq<int>>, b: Seq<Seq<char>>)
    requires
        laid(cs, l, strata),
        tidy(sc, now, cs, l, strata, strata.len() as int, b),
    ensures
        stands_folded(sc.st, now, cs, b, unwritten(cs, facts(sc.st.rels)), facts(sc.st.rels)),
{
    let all = facts(sc.st.rels);
    let low = lowered_program(cs);
    let good = fresh(cs, l, strata, sc.to_clear);
    let given = unwritten(cs, all).union(folds_of(cs, all));
    assert forall|p: Seq<char>| good.contains(p) <==> #[trigger] defined(low, p) by {
        lemma_ruled_defined(cs, l, strata, p);
        if is_ruled(cs, p) {
            assert(l.contains_key(p));
            assert forall|q: Seq<char>| #[trigger] l.contains_key(q) && l[q] == l[p] implies !sc.to_clear.contains(q) by {
                let k = lemma_filled_laid(cs, l, strata, q);
            }
            lemma_all_fresh(cs, l, strata, sc.to_clear, p);
        }
    }
    assert(good =~= crate::exact::defined_in(low));
    assert forall|k: KeyV| #[trigger] all.contains(k) && !defined(low, k.0) implies given.contains(k) by {
        lemma_ruled_defined(cs, l, strata, k.0);
    }
    lemma_exact_model(b, now, low, given, all);
}

/// After the passes of a recomputation the facts stand.
pub proof fn lemma_passes_stand(
    sc: ScopeV,
    now: i64,
    cs: Seq<ClauseV>,
    l: Map<Seq<char>, nat>,
    strata: Seq<Seq<int>>,
    n: nat,
    b: Seq<Seq<char>>,
)
    requires
        laid(cs, l, strata),
        n > 0,
        tidy(sc, now, cs, l, strata, 0, b),
        passes_settle(sc, now, cs, strata, n),
        scope_passes(sc, now, cs, strata, n).st.names.is_prefix_of(b),
    ensures
        ({
            let r = scope_passes(sc, now, cs, strata, n).st;
            stands_folded(r, now, cs, b, unwritten(cs, facts(sc.st.rels)), facts(r.rels))
        }),
{
    let m = crate::laid::base_levels(cs, l, strata);
    assert(crate::perfect::leveled(cs, m, strata));
    if sc.to_clear == Set::<Seq<char>>::empty() {
        assert forall|p: Seq<char>| #[trigger] l.contains_key(p) && sc.to_clear.contains(p) implies l[p] >= strata.len() by {}
        lemma_exact_stands(sc, now, cs, l, strata, b);
    } else {
        let next = scope_pass(sc, now, cs, strata, 0);
        let last = scope_passes(next, now, cs, strata, (n - 1) as nat);
        lemma_strata_laid(cs, l, strata);
        lemma_strata_fit(cs, strata);
        assert(writes_in(cs, anything()));
        lemma_pass_touches(sc, now, cs, strata, 0, anything());
        lemma_passes_touches(next, now, cs, strata, (n - 1) as nat, anything());
        lemma_prefix_trans(next.st.names, last.st.names, b);
        lemma_pass_tidy(sc, now, cs, l, strata, 0, b);
        lemma_exact_stands(next, now, cs, l, strata, b);
        lemma_same_unwritten(cs, l, strata, facts(sc.st.rels), facts(next.st.rels));
        lemma_passes_refold(next, now, cs, m, strata, (n - 1) as nat, b, unwritten(cs, facts(sc.st.rels)), facts(next.st.rels));
    }
}

/// After the recomputations of a run the facts stand.
pub proof fn lemma_followed(
    f: StoreV,
    now: i64,
    cs: Seq<ClauseV>,
    l: Map<Seq<char>, nat>,
    strata: Seq<Seq<int>>,
    mark: int,
    n: nat,
    b: Seq<Seq<char>>,
)
    requires
        laid(cs, l, strata),
        n > 0,
        tidy(scope_begun(f, cs, strata, stale_readers(f, cs, mark)), now, cs, l, strata, 0, b),
        invalidate_settles(f, now, cs, strata, mark, n),
        invalidate(f, now, cs, strata, mark, n).st.names.is_prefix_of(b),
    ensures
        ({
            let r = invalidate(f, now, cs, strata, mark, n).st;
            stands_folded(r, now, cs, b, unwritten(cs, facts(f.rels)), facts(r.rels))
        }),
{
    let extra = stale_readers(f, cs, mark);
    let sc = scope_begun(f, cs, strata, extra);
    let m = crate::laid::base_levels(cs, l, strata);
    assert(crate::perfect::leveled(cs, m, strata));
    if f.retracted == Set::<Seq<char>>::empty() && extra == Set::<Seq<char>>::empty() {
        assert(sc.to_clear =~= Set::<Seq<char>>::empty());
        lemma_exact_stands(sc, now, cs, l, strata, b);
        assert(stands_folded(f, now, cs, b, unwritten(cs, facts(f.rels)), facts(f.rels))) by {
            assert(orderly()(f));
            assert(all_known(f));
        }
    } else {
        let r = scoped(f, now, cs, strata, extra).st;
        let last = invalidate(r, now, cs, strata, mark, (n - 1) as nat).st;
        let turns = strata.len() + 2;
        lemma_strata_laid(cs, l, strata);
        lemma_strata_fit(cs, strata);
        assert(writes_in(cs, anything()));
        lemma_passes_touches(sc, now, cs, strata, turns, anything());
        assert(r == scope_passes(sc, now, cs, strata, turns).st);
        lemma_invalidate_touches(r, now, cs, strata, mark, (n - 1) as nat, anything());
        lemma_prefix_trans(r.names, last.names, b);
        lemma_passes_stand(sc, now, cs, l, strata, turns, b);
        lemma_invalidate_refolds(r, now, cs, m, strata, mark, (n - 1) as nat, b, unwritten(cs, facts(f.rels)), facts(r.rels));
    }
}

} // verus!

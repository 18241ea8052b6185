//! Following up changes: after facts were declared and retracted, the next
//! run makes the stored facts the model of the program again, by deriving
//! from the new facts and recomputing what the changes affect. Negation and
//! aggregates are included.

use vstd::prelude::*;
use crate::ast::{ClauseV, LitV};
use crate::engine::{
    declare_facts, declared, eval_strata, grew, lemma_strata_fit, negates_grown, prepared, ran, reads_grown, stale_readers, EngineV,
};
use crate::env::Bindings;
use crate::evaluate::{eval_stratum_of, fixpoint, is_temp, pending_delta, stratum_rules, temp_name};
use crate::exact::{
    alike, closed_for, comparisons_known, covers, defined_in, group_reads, is_exact, lemma_body_moves, lemma_exact_later,
    lemma_exact_moves, lemma_exact_part, lemma_model_exact, negated_covered, outside, patched,
};
use crate::feed::lemma_retract_facts;
use crate::folds::{all_foldable, folds_of, is_foldable, lemma_foldable_grows, lowered_program};
use crate::frame::{lemma_invalidate_touches, lemma_strata_touches, lemma_temp_prefix, same_facts, spares, writes_in};
use crate::intern::with_name;
use crate::laid::{
    folded_at, is_ruled, is_written, laid, lemma_alike_trans, lemma_eval_laid, lemma_filled_laid, lemma_list_laid, lemma_rule_covered,
    lemma_rule_laid, lemma_rules_laid, lemma_spared_alike, lemma_strata_laid, level, wide_levels,
};
use crate::model::{
    all_known, body_true, can_fire, constants_known, distinct_names, facts, head_fact, leads_into, lemma_assert_facts,
    lemma_fixpoint_leads, lemma_fixpoint_only, lemma_known_grows,
};
use crate::perfect::{above, is_model, lemma_asserted, leveled, program_closed, settled, strata_settle};
use crate::quiet::lemma_followed_forgets;
use crate::recompute::{body_reads, direct_reader, lit_reads, owner, rebuilt, rule_reads};
use crate::refold::{stands_folded, stratified_run_gives_folds};
use crate::relation::{ann_unit, rel_wf, AnnV, FactV, KeyV, SupportV};
use crate::renew::{
    fresh, going_on, lemma_due, lemma_evaluated_known, lemma_fires, lemma_followed, lemma_reads_fresh, lemma_ruled_defined,
    lemma_same_unwritten, lemma_stratum_only, tidy, unwritten,
};
use crate::restore::known_key;
use crate::runs::{
    facts_stated, is_sound, is_stated, lemma_declare_grows, lemma_declared, lemma_head_again, lemma_rebuilt, lemma_same_rows,
    lemma_stated, no_aggregates, run_consumes, set_known,
};
use crate::scope::{anything, lemma_distinct_upheld, lemma_orderly_upheld, lemma_removed_pending, orderly, run_settles, scope_begun};
use crate::solve::{head_values, lemma_prefix_trans};
use crate::store::{holds, rels_settled, rels_wf, store_assert, store_retract, RelsV, StoreV};
use crate::stratify::{aggregated, defined, grouped, is_levels, strata_error, strata_exist, strata_of};
use crate::tally::{all_tallied, folds_apart, is_fold, is_tallied, lemma_eval_tallied, lemma_tallied_same};
use crate::upkeep::{invalidated, lemma_run_keeps, lemma_stratum_keeps, outlasts, run_end, with_names};
use crate::value::Value;

verus! {

// ------------------------------------------------------------------ evaluating

/// Every pending fact is of a predicate that grew since the mark.
pub open spec fn dated(mark: int) -> spec_fn(StoreV) -> bool {
    |st: StoreV| 0 <= mark <= st.log.len() && forall|k: KeyV| #[trigger] pending_delta(st.rels).contains(k) ==> grew(st, mark, k.0)
}

/// Asserting a fact dates it.
pub proof fn lemma_assert_dated(st: StoreV, k: KeyV, f: FactV, mark: int)
    requires
        dated(mark)(st),
    ensures
        dated(mark)(store_assert(st, k, f)),
{
    let r = store_assert(st, k, f);
    assert forall|j: KeyV| #[trigger] pending_delta(r.rels).contains(j) implies grew(r, mark, j.0) by {
        if j == k && !holds(st.rels, k) {
            let i = st.log.len() as int;
            assert(r.log[i].1.0 == j.0);
        } else {
            assert(pending_delta(st.rels).contains(j)) by {
                if j.0 == k.0 && !st.rels.contains_key(k.0) {
                    assert(!holds(st.rels, k));
                }
            }
            lemma_grew_later(st, r, mark, j.0);
        }
    }
}

proof fn lemma_grew_later(a: StoreV, b: StoreV, mark: int, p: Seq<char>)
    requires
        a.log.is_prefix_of(b.log),
        0 <= mark,
        grew(a, mark, p),
    ensures
        grew(b, mark, p),
{
    let i = choose|i: int| mark <= i < a.log.len() && (#[trigger] a.log[i]).1.0 == p;
    assert(b.log[i] == a.log[i]);
}

/// The settled facts are from a set; what is missing of it is of a relation
/// that is marked as having lost facts.
pub open spec fn lost_noted(d: Set<KeyV>) -> spec_fn(StoreV) -> bool {
    |st: StoreV|
        {
            &&& orderly()(st)
            &&& settled(st.rels).subset_of(d)
            &&& forall|k: KeyV| #[trigger] d.contains(k) && !settled(st.rels).contains(k) ==> st.retracted.contains(k.0)
        }
}

proof fn lemma_lost_outlasts(d: Set<KeyV>)
    ensures
        outlasts(lost_noted(d)),
{
    let p = lost_noted(d);
    lemma_orderly_upheld();
    assert(outlasts(orderly()));
    assert forall|st: StoreV, k: KeyV, f: FactV| p(st) && f.supports.len() == 1 implies #[trigger] p(store_assert(st, k, f)) by {
        let r = store_assert(st, k, f);
        assert(orderly()(r));
        lemma_asserted(st, k, f);
        assert(settled(r.rels) == settled(st.rels));
    }
    assert forall|st: StoreV, k: KeyV| p(st) implies #[trigger] p(store_retract(st, k)) by {
        assert(orderly()(store_retract(st, k)));
        lemma_retract_settled(st, k);
    }
}

/// Retracting a fact unsettles that fact alone, and marks its relation.
proof fn lemma_retract_settled(st: StoreV, k: KeyV)
    requires
        rels_wf(st.rels),
    ensures
        rels_wf(store_retract(st, k).rels),
        settled(store_retract(st, k).rels).subset_of(settled(st.rels)),
        forall|j: KeyV|
            #[trigger] settled(st.rels).contains(j) && !settled(store_retract(st, k).rels).contains(j)
                ==> store_retract(st, k).retracted.contains(j.0),
        st.retracted.subset_of(store_retract(st, k).retracted),
{
    let r = store_retract(st, k);
    lemma_retract_facts(st, k);
    assert forall|j: KeyV| #[trigger] settled(r.rels).contains(j) implies settled(st.rels).contains(j) by {
        if pending_delta(st.rels).contains(j) {
            assert(st.rels[j.0].pending.contains(j.1));
            assert(r.rels[j.0].pending.contains(j.1) || j == k);
        }
    }
    assert forall|j: KeyV| #[trigger] settled(st.rels).contains(j) && !settled(r.rels).contains(j) implies r.retracted.contains(j.0) by {
        if pending_delta(r.rels).contains(j) {
            lemma_removed_pending(st, k, j);
        }
    }
}

proof fn lemma_dated_outlasts(mark: int)
    ensures
        outlasts(dated(mark)),
{
    let p = dated(mark);
    assert forall|st: StoreV, names: Seq<Seq<char>>| p(st) implies #[trigger] p(with_names(st, names)) by {
        lemma_dated_names(st, names, mark);
    }
    assert forall|st: StoreV, k: KeyV, f: FactV| p(st) && f.supports.len() == 1 implies #[trigger] p(store_assert(st, k, f)) by {
        lemma_assert_dated(st, k, f, mark);
    }
    assert forall|st: StoreV, k: KeyV| p(st) implies #[trigger] p(store_retract(st, k)) by {
        let r = store_retract(st, k);
        assert(r.log == st.log);
        assert forall|j: KeyV| #[trigger] pending_delta(r.rels).contains(j) implies grew(r, mark, j.0) by {
            lemma_removed_pending(st, k, j);
            assert(grew(st, mark, j.0));
            lemma_same_growth(st, r, mark, j.0);
        }
    }
}

spec fn still_marked(r: Set<Seq<char>>) -> spec_fn(StoreV) -> bool {
    |st: StoreV| r.subset_of(st.retracted)
}

proof fn lemma_marked_outlasts(r: Set<Seq<char>>)
    ensures
        outlasts(still_marked(r)),
{
    let p = still_marked(r);
}

/// What evaluating the strata from one on leaves alone.
pub proof fn lemma_strata_spared(st: StoreV, now: i64, cs: Seq<ClauseV>, l: Map<Seq<char>, nat>, strata: Seq<Seq<int>>, s: int)
    requires
        laid(cs, l, strata),
        0 <= s <= strata.len(),
        rels_wf(st.rels),
    ensures
        spares(st.rels, eval_strata(st, now, cs, strata, s).st.rels, above(l, s)),
        st.names.is_prefix_of(eval_strata(st, now, cs, strata, s).st.names),
    decreases strata.len() - s,
{
    let f = eval_strata(st, now, cs, strata, s).st;
    if s < strata.len() {
        let e = eval_stratum_of(st, now, cs, strata[s]).st;
        lemma_eval_laid(st, now, cs, l, strata, s);
        lemma_strata_spared(e, now, cs, l, strata, s + 1);
        lemma_prefix_trans(st.names, e.names, f.names);
        assert forall|p: Seq<char>| !above(l, s).contains(p) implies #[trigger] same_facts(st.rels, f.rels, p) by {
            assert(same_facts(st.rels, e.rels, p));
            assert(same_facts(e.rels, f.rels, p));
        }
    } else {
        assert(st.names =~= st.names.subrange(0, st.names.len() as int));
        assert forall|p: Seq<char>| !above(l, s).contains(p) implies #[trigger] same_facts(st.rels, f.rels, p) by {}
    }
}

/// A store in the course of the evaluation of a run.
pub open spec fn is_running(st: StoreV, cs: Seq<ClauseV>, b: Seq<Seq<char>>, d: Set<KeyV>, mark: int) -> bool {
    &&& going_on(st, cs, b)
    &&& all_tallied(st.rels, cs)
    &&& lost_noted(d)(st)
    &&& dated(mark)(st)
}

/// One stratum in the course of a run.
proof fn lemma_stratum_run(
    st: StoreV,
    now: i64,
    cs: Seq<ClauseV>,
    l: Map<Seq<char>, nat>,
    strata: Seq<Seq<int>>,
    s: int,
    b: Seq<Seq<char>>,
    d: Set<KeyV>,
    mark: int,
)
    requires
        laid(cs, l, strata),
        0 <= s < strata.len(),
        is_running(st, cs, b, d, mark),
        strata_settle(st, now, cs, strata, s),
        eval_strata(st, now, cs, strata, s).st.names.is_prefix_of(b),
    ensures
        ({
            let e = eval_stratum_of(st, now, cs, strata[s]).st;
            &&& is_running(e, cs, b, d, mark)
            &&& spares(st.rels, e.rels, level(l, s))
            &&& st.retracted.subset_of(e.retracted)
            &&& forall|p: Seq<char>| !(#[trigger] folded_at(cs, l, s).contains(p)) ==> covers(facts(st.rels), facts(e.rels), p)
            &&& can_fire(
                st,
                now,
                stratum_rules(cs, strata[s]),
                pending_delta(st.rels),
                b,
                facts(eval_strata(st, now, cs, strata, s).st.rels),
                above(l, s),
            )
        }),
{
    let rules = stratum_rules(cs, strata[s]);
    let delta = pending_delta(st.rels);
    let x = fixpoint(st, now, rules, delta).st;
    let e = eval_stratum_of(st, now, cs, strata[s]).st;
    let f = eval_strata(st, now, cs, strata, s).st;
    let n = facts(f.rels);
    lemma_eval_laid(st, now, cs, l, strata, s);
    lemma_strata_spared(st, now, cs, l, strata, s);
    lemma_strata_spared(e, now, cs, l, strata, s + 1);
    lemma_prefix_trans(e.names, f.names, b);
    assert forall|q: Seq<char>| !(#[trigger] above(l, s).contains(q)) implies alike(facts(st.rels), n, q) by {
        lemma_spared_alike(st.rels, f.rels, above(l, s), q);
    }
    lemma_fires(st, now, cs, l, strata, s, b, n);
    lemma_fixpoint_only(st, now, rules, delta, b, n, above(l, s));
    lemma_list_laid(cs, l, strata, s);
    assert(all_tallied(e.rels, cs)) by {
        assert forall|i: int| #[trigger] is_fold(cs, i) implies is_tallied(e.rels, cs[i], i) by {
            assert(is_tallied(st.rels, cs[i], i));
            lemma_eval_tallied(st, now, cs, strata[s], i);
        }
    }
    lemma_evaluated_known(st, now, cs, l, strata, s);
    lemma_foldable_grows(st.names, e.names, cs);
    lemma_orderly_upheld();
    lemma_stratum_keeps(orderly(), st, now, cs, strata[s]);
    lemma_lost_outlasts(d);
    lemma_stratum_keeps(lost_noted(d), st, now, cs, strata[s]);
    lemma_dated_outlasts(mark);
    lemma_stratum_keeps(dated(mark), st, now, cs, strata[s]);
    lemma_marked_outlasts(st.retracted);
    assert(still_marked(st.retracted)(st));
    lemma_stratum_keeps(still_marked(st.retracted), st, now, cs, strata[s]);
    assert(still_marked(st.retracted)(e));
    assert forall|p: Seq<char>| !(#[trigger] folded_at(cs, l, s).contains(p)) implies covers(facts(st.rels), facts(e.rels), p) by {
        lemma_spared_alike(x.rels, e.rels, folded_at(cs, l, s), p);
        assert forall|key: Seq<Value>| #[trigger] facts(st.rels).contains((p, key)) implies facts(e.rels).contains((p, key)) by {
            assert(facts(x.rels).contains((p, key)));
        }
    }
}

/// The end of the evaluation of all strata.
proof fn lemma_strata_run(
    st: StoreV,
    now: i64,
    cs: Seq<ClauseV>,
    l: Map<Seq<char>, nat>,
    strata: Seq<Seq<int>>,
    s: int,
    b: Seq<Seq<char>>,
    d: Set<KeyV>,
    mark: int,
)
    requires
        laid(cs, l, strata),
        0 <= s <= strata.len(),
        is_running(st, cs, b, d, mark),
        strata_settle(st, now, cs, strata, s),
        eval_strata(st, now, cs, strata, s).st.names.is_prefix_of(b),
    ensures
        ({
            let f = eval_strata(st, now, cs, strata, s).st;
            &&& is_running(f, cs, b, d, mark)
            &&& st.retracted.subset_of(f.retracted)
            &&& forall|q: Seq<char>| !(#[trigger] l.contains_key(q)) ==> alike(facts(st.rels), facts(f.rels), q)
        }),
    decreases strata.len() - s,
{
    if s < strata.len() {
        let e = eval_stratum_of(st, now, cs, strata[s]).st;
        let f = eval_strata(st, now, cs, strata, s).st;
        lemma_stratum_run(st, now, cs, l, strata, s, b, d, mark);
        lemma_strata_run(e, now, cs, l, strata, s + 1, b, d, mark);
        assert forall|q: Seq<char>| !(#[trigger] l.contains_key(q)) implies alike(facts(st.rels), facts(f.rels), q) by {
            lemma_spared_alike(st.rels, e.rels, level(l, s), q);
            lemma_alike_trans(facts(st.rels), facts(e.rels), facts(f.rels), q);
        }
    }
}

/// What the rules of some relations read of one set is in another.
pub open spec fn reads_kept(cs: Seq<ClauseV>, ps: Set<Seq<char>>, a: Set<KeyV>, b: Set<KeyV>) -> bool {
    forall|i: int, q: Seq<char>| #[trigger] group_reads(cs, ps, i, q) ==> covers(a, b, q)
}

proof fn lemma_kept_covered(cs: Seq<ClauseV>, ps: Set<Seq<char>>, a: Set<KeyV>, b: Set<KeyV>, i: int)
    requires
        reads_kept(cs, ps, a, b),
        0 <= i < cs.len(),
        !cs[i].is_fact,
        ps.contains(cs[i].head.pred),
    ensures
        negated_covered(cs[i], a, b),
        forall|j: int|
            0 <= j < cs[i].body.len() ==> (match #[trigger] cs[i].body[j] {
                LitV::Pos(x) => covers(a, b, x.pred),
                _ => true,
            }),
{
    let c = cs[i];
    assert forall|j: int| 0 <= j < c.body.len() implies (match #[trigger] c.body[j] {
        LitV::Pos(x) => covers(a, b, x.pred),
        LitV::Neg(x) => covers(a, b, x.pred),
        _ => true,
    }) by {
        match c.body[j] {
            LitV::Pos(x) => {
                assert(lit_reads(c.body[j], x.pred));
                assert(body_reads(c, x.pred));
                assert(group_reads(cs, ps, i, x.pred));
            },
            LitV::Neg(x) => {
                assert(lit_reads(c.body[j], x.pred));
                assert(body_reads(c, x.pred));
                assert(group_reads(cs, ps, i, x.pred));
            },
            _ => {},
        }
    }
}

/// The rules of a relation that were closed in the settled facts are closed
/// after the evaluation, where nothing that they read was lost.
proof fn lemma_strata_closed(
    st: StoreV,
    now: i64,
    cs: Seq<ClauseV>,
    l: Map<Seq<char>, nat>,
    strata: Seq<Seq<int>>,
    s: int,
    b: Seq<Seq<char>>,
    d: Set<KeyV>,
    mark: int,
    p: Seq<char>,
)
    requires
        laid(cs, l, strata),
        0 <= s <= strata.len(),
        is_running(st, cs, b, d, mark),
        strata_settle(st, now, cs, strata, s),
        eval_strata(st, now, cs, strata, s).st.names.is_prefix_of(b),
        l.contains_key(p),
        l[p] >= s,
        !aggregated(cs, p),
        covers(d, facts(st.rels), p),
        closed_for(b, now, lowered_program(cs), set![p], d, d),
        reads_kept(lowered_program(cs), set![p], d, facts(eval_strata(st, now, cs, strata, s).st.rels)),
    ensures
        ({
            let all = facts(eval_strata(st, now, cs, strata, s).st.rels);
            closed_for(b, now, lowered_program(cs), set![p], all, all)
        }),
    decreases strata.len() - s,
{
    let k = lemma_filled_laid(cs, l, strata, p);
    let e = eval_stratum_of(st, now, cs, strata[s]).st;
    lemma_stratum_run(st, now, cs, l, strata, s, b, d, mark);
    if s < l[p] {
        assert(covers(d, facts(e.rels), p)) by {
            assert(!folded_at(cs, l, s).contains(p));
            assert(covers(facts(st.rels), facts(e.rels), p));
        }
        lemma_strata_closed(e, now, cs, l, strata, s + 1, b, d, mark, p);
    } else {
        let f = eval_strata(st, now, cs, strata, s).st;
        let all = facts(f.rels);
        lemma_eval_laid(st, now, cs, l, strata, s);
        lemma_strata_spared(e, now, cs, l, strata, s + 1);
        assert(alike_upto(l, s, facts(e.rels), all)) by {
            assert forall|q: Seq<char>| !(#[trigger] l.contains_key(q)) || l[q] <= s implies alike(facts(e.rels), all, q) by {
                lemma_spared_alike(e.rels, f.rels, above(l, s + 1), q);
            }
        }
        lemma_level_closed(st, now, cs, l, strata, s, b, d, p);
    }
}

/// Two sets have the same facts of the relations that are not written and of
/// those up to a level.
pub open spec fn alike_upto(l: Map<Seq<char>, nat>, s: int, a: Set<KeyV>, b: Set<KeyV>) -> bool {
    forall|q: Seq<char>| !(#[trigger] l.contains_key(q)) || l[q] <= s ==> alike(a, b, q)
}

/// Rules that are closed in the settled facts are closed after the evaluation
/// of their stratum and the later ones.
proof fn lemma_level_closed(
    st: StoreV,
    now: i64,
    cs: Seq<ClauseV>,
    l: Map<Seq<char>, nat>,
    strata: Seq<Seq<int>>,
    s: int,
    b: Seq<Seq<char>>,
    d: Set<KeyV>,
    p: Seq<char>,
)
    requires
        laid(cs, l, strata),
        0 <= s < strata.len(),
        rels_wf(st.rels),
        lost_noted(d)(st),
        l.contains_key(p),
        l[p] == s,
        !aggregated(cs, p),
        covers(d, facts(st.rels), p),
        closed_for(b, now, lowered_program(cs), set![p], d, d),
        reads_kept(lowered_program(cs), set![p], d, facts(eval_strata(st, now, cs, strata, s).st.rels)),
        can_fire(
            st,
            now,
            stratum_rules(cs, strata[s]),
            pending_delta(st.rels),
            b,
            facts(eval_strata(st, now, cs, strata, s).st.rels),
            above(l, s),
        ),
        alike_upto(
            l,
            s,
            facts(eval_stratum_of(st, now, cs, strata[s]).st.rels),
            facts(eval_strata(st, now, cs, strata, s).st.rels),
        ),
    ensures
        ({
            let all = facts(eval_strata(st, now, cs, strata, s).st.rels);
            closed_for(b, now, lowered_program(cs), set![p], all, all)
        }),
{
    let rules = stratum_rules(cs, strata[s]);
    let delta = pending_delta(st.rels);
    let x = fixpoint(st, now, rules, delta).st;
    let e = eval_stratum_of(st, now, cs, strata[s]).st;
    let mid = facts(x.rels);
    let all = facts(eval_strata(st, now, cs, strata, s).st.rels);
    let low = lowered_program(cs);
    lemma_rules_laid(cs, l, strata, s);
    lemma_eval_laid(st, now, cs, l, strata, s);
    assert forall|i: int| 0 <= i < low.len() && !(#[trigger] low[i]).is_fact && set![p].contains(low[i].head.pred) implies leads_into(
        b,
        now,
        low[i],
        all,
        all,
        all,
    ) by {
        let c = low[i];
        assert(!cs[i].is_fact);
        lemma_rule_laid(cs, l, strata, i);
        let j = choose|j: int| 0 <= j < rules.len() && #[trigger] rules[j] == low[i];
        assert(leads_into(b, now, c, d, d, d));
        let done = facts(st.rels).difference(delta);
        assert(done =~= settled(st.rels));
        lemma_kept_covered(low, set![p], d, all, i);
        assert(leads_into(b, now, c, done, all, facts(st.rels))) by {
            assert forall|y: Bindings| #[trigger] body_true(b, now, c, done, all, y) && head_fact(b, c, y) is Some implies facts(
                st.rels,
            ).contains(head_fact(b, c, y)->Some_0) by {
                assert(crate::exact::atoms_covered(c, done, d));
                lemma_body_moves(b, now, c, done, all, d, d, y);
                let k = head_fact(b, c, y)->Some_0;
                assert(d.contains((p, k.1)));
            }
        }
        lemma_fixpoint_leads(st, now, rules, delta, b, all, above(l, s), j);
        assert(leads_into(b, now, c, mid, all, mid));
        assert forall|q: Seq<char>|
            #[trigger] body_reads(cs[i], q) && (!l.contains_key(q) || (l[q] <= l[cs[i].head.pred] && !folded_at(
                cs,
                l,
                l[cs[i].head.pred] as int,
            ).contains(q))) implies covers(all, mid, q) by {
            assert(alike(facts(e.rels), all, q));
            lemma_spared_alike(x.rels, e.rels, folded_at(cs, l, s), q);
            lemma_alike_trans(mid, facts(e.rels), all, q);
        }
        lemma_rule_covered(cs, l, strata, i, all, mid);
        crate::folds::lemma_same_negated(c, all);
        assert(alike(facts(e.rels), all, p));
        lemma_spared_alike(x.rels, e.rels, folded_at(cs, l, s), p);
        lemma_alike_trans(mid, facts(e.rels), all, p);
        assert forall|y: Bindings| #[trigger] body_true(b, now, c, all, all, y) && head_fact(b, c, y) is Some implies all.contains(
            head_fact(b, c, y)->Some_0,
        ) by {
            lemma_body_moves(b, now, c, all, all, mid, all, y);
            let k = head_fact(b, c, y)->Some_0;
            assert(mid.contains((p, k.1)));
        }
    }
}

/// In a set that is closed under the rules of what is fresh, and holds the other
/// facts and those at the start, are all facts after the evaluation.
proof fn lemma_strata_least(
    st: StoreV,
    now: i64,
    cs: Seq<ClauseV>,
    l: Map<Seq<char>, nat>,
    strata: Seq<Seq<int>>,
    s: int,
    b: Seq<Seq<char>>,
    d: Set<KeyV>,
    mark: int,
    to_clear: Set<Seq<char>>,
    m: Set<KeyV>,
)
    requires
        laid(cs, l, strata),
        0 <= s <= strata.len(),
        is_running(st, cs, b, d, mark),
        strata_settle(st, now, cs, strata, s),
        eval_strata(st, now, cs, strata, s).st.names.is_prefix_of(b),
        ({
            let all = facts(eval_strata(st, now, cs, strata, s).st.rels);
            let good = fresh(cs, l, strata, to_clear);
            closed_for(b, now, lowered_program(cs), good, m, all) && outside(all, good).subset_of(m)
        }),
        forall|k: KeyV| #[trigger] facts(st.rels).contains(k) && fresh(cs, l, strata, to_clear).contains(k.0) ==> m.contains(k),
    ensures
        facts(eval_strata(st, now, cs, strata, s).st.rels).subset_of(m),
    decreases strata.len() - s,
{
    let f = eval_strata(st, now, cs, strata, s).st;
    let all = facts(f.rels);
    let low = lowered_program(cs);
    let good = fresh(cs, l, strata, to_clear);
    if s < strata.len() {
        let x = fixpoint(st, now, stratum_rules(cs, strata[s]), pending_delta(st.rels)).st;
        let e = eval_stratum_of(st, now, cs, strata[s]).st;
        lemma_stratum_run(st, now, cs, l, strata, s, b, d, mark);
        lemma_strata_spared(st, now, cs, l, strata, s);
        lemma_eval_laid(st, now, cs, l, strata, s);
        let wide = Set::new(
            |k: KeyV|
                if good.contains(k.0) {
                    m.contains(k)
                } else {
                    above(l, s).contains(k.0) || all.contains(k)
                },
        );
        assert(facts(st.rels).subset_of(wide)) by {
            assert forall|k: KeyV| #[trigger] facts(st.rels).contains(k) implies wide.contains(k) by {
                if !good.contains(k.0) && !above(l, s).contains(k.0) {
                    lemma_spared_alike(st.rels, f.rels, above(l, s), k.0);
                    assert(facts(st.rels).contains((k.0, k.1)));
                }
            }
        }
        assert forall|i: int| 0 <= i < cs.len() && !cs[i].is_fact && level(l, s).contains((#[trigger] low[i]).head.pred) implies leads_into(
            b,
            now,
            low[i],
            wide,
            all,
            wide,
        ) by {
            let c = low[i];
            let p = c.head.pred;
            lemma_rule_laid(cs, l, strata, i);
            if good.contains(p) {
                assert(leads_into(b, now, c, m, all, m));
                assert forall|q: Seq<char>|
                    #[trigger] body_reads(cs[i], q) && (!l.contains_key(q) || (l[q] <= l[cs[i].head.pred] && !folded_at(
                        cs,
                        l,
                        l[cs[i].head.pred] as int,
                    ).contains(q))) implies covers(wide, m, q) by {
                    if !good.contains(q) {
                        if l.contains_key(q) && l[q] == s {
                            lemma_reads_fresh(cs, l, strata, to_clear, i, q);
                        }
                        assert forall|key: Seq<Value>| #[trigger] wide.contains((q, key)) implies m.contains((q, key)) by {
                            assert(outside(all, good).contains((q, key)));
                        }
                    }
                }
                lemma_rule_covered(cs, l, strata, i, wide, m);
                crate::folds::lemma_same_negated(c, all);
                assert forall|y: Bindings| #[trigger] body_true(b, now, c, wide, all, y) && head_fact(b, c, y) is Some implies wide.contains(
                    head_fact(b, c, y)->Some_0,
                ) by {
                    lemma_body_moves(b, now, c, wide, all, m, all, y);
                }
            }
        }
        lemma_stratum_only(st, now, cs, l, strata, s, b, all, wide);
        assert forall|k: KeyV| #[trigger] facts(e.rels).contains(k) && good.contains(k.0) implies m.contains(k) by {
            lemma_spared_alike(x.rels, e.rels, folded_at(cs, l, s), k.0);
            assert(facts(e.rels).contains((k.0, k.1)));
            assert(facts(x.rels).contains(k));
            assert(wide.contains(k));
        }
        lemma_strata_least(e, now, cs, l, strata, s + 1, b, d, mark, to_clear, m);
    } else {
        assert forall|k: KeyV| #[trigger] all.contains(k) implies m.contains(k) by {
            if !good.contains(k.0) {
                assert(outside(all, good).contains(k));
            }
        }
    }
}

/// What the rules of some relations negate grew nothing from one set to
/// another.
pub open spec fn negates_same(cs: Seq<ClauseV>, ps: Set<Seq<char>>, a: Set<KeyV>, b: Set<KeyV>) -> bool {
    forall|i: int|
        0 <= i < cs.len() && !(#[trigger] cs[i]).is_fact && ps.contains(cs[i].head.pred) ==> negated_covered(cs[i], b, a)
}

/// The facts of relations that were exact before are in every set that is
/// closed under their rules after.
proof fn lemma_start_covered(now: i64, cs: Seq<ClauseV>, b: Seq<Seq<char>>, d: Set<KeyV>, all: Set<KeyV>, ps: Set<Seq<char>>, m: Set<KeyV>)
    requires
        is_exact(b, now, cs, ps, d),
        negates_same(cs, ps, d, all),
        reads_kept(cs, ps, d, all),
        closed_for(b, now, cs, ps, m, all),
        outside(all, ps).subset_of(m),
    ensures
        forall|k: KeyV| #[trigger] d.contains(k) && ps.contains(k.0) ==> m.contains(k),
{
    let m2 = patched(d, ps, m);
    assert(closed_for(b, now, cs, ps, m2, d)) by {
        assert forall|i: int| 0 <= i < cs.len() && !(#[trigger] cs[i]).is_fact && ps.contains(cs[i].head.pred) implies leads_into(
            b,
            now,
            cs[i],
            m2,
            d,
            m2,
        ) by {
            let c = cs[i];
            assert(leads_into(b, now, c, m, all, m));
            lemma_kept_covered(cs, ps, d, all, i);
            assert(crate::exact::atoms_covered(c, m2, m)) by {
                assert forall|j: int| 0 <= j < c.body.len() implies (match #[trigger] c.body[j] {
                    LitV::Pos(x) => covers(m2, m, x.pred),
                    _ => true,
                }) by {
                    if let LitV::Pos(x) = c.body[j] {
                        assert(covers(d, all, x.pred));
                        assert forall|key: Seq<Value>| #[trigger] m2.contains((x.pred, key)) implies m.contains((x.pred, key)) by {
                            if !ps.contains(x.pred) {
                                assert(d.contains((x.pred, key)));
                                assert(outside(all, ps).contains((x.pred, key)));
                            }
                        }
                    }
                }
            }
            assert forall|x: Bindings| #[trigger] body_true(b, now, c, m2, d, x) && head_fact(b, c, x) is Some implies m2.contains(
                head_fact(b, c, x)->Some_0,
            ) by {
                lemma_body_moves(b, now, c, m2, d, m, all, x);
            }
        }
    }
    assert(outside(d, ps).subset_of(m2));
    assert(d.subset_of(m2));
    assert forall|k: KeyV| #[trigger] d.contains(k) && ps.contains(k.0) implies m.contains(k) by {
        assert(m2.contains(k));
    }
}

/// What is fresh and was exact in the settled facts is exact after the
/// evaluation, where nothing that its rules read was lost and nothing that
/// they negate grew.
proof fn lemma_strata_exact(
    st: StoreV,
    now: i64,
    cs: Seq<ClauseV>,
    l: Map<Seq<char>, nat>,
    strata: Seq<Seq<int>>,
    b: Seq<Seq<char>>,
    d: Set<KeyV>,
    mark: int,
    to_clear: Set<Seq<char>>,
)
    requires
        laid(cs, l, strata),
        is_running(st, cs, b, d, mark),
        settled(st.rels) == d,
        strata_settle(st, now, cs, strata, 0),
        eval_strata(st, now, cs, strata, 0).st.names.is_prefix_of(b),
        is_exact(b, now, lowered_program(cs), fresh(cs, l, strata, to_clear), d),
        forall|p: Seq<char>| #[trigger] l.contains_key(p) ==> covers(facts(st.rels), d, p),
        negates_same(
            lowered_program(cs),
            fresh(cs, l, strata, to_clear),
            d,
            facts(eval_strata(st, now, cs, strata, 0).st.rels),
        ),
        reads_kept(
            lowered_program(cs),
            fresh(cs, l, strata, to_clear),
            d,
            facts(eval_strata(st, now, cs, strata, 0).st.rels),
        ),
    ensures
        is_exact(
            b,
            now,
            lowered_program(cs),
            fresh(cs, l, strata, to_clear),
            facts(eval_strata(st, now, cs, strata, 0).st.rels),
        ),
{
    let all = facts(eval_strata(st, now, cs, strata, 0).st.rels);
    let low = lowered_program(cs);
    let good = fresh(cs, l, strata, to_clear);
    assert forall|i: int| 0 <= i < low.len() && !(#[trigger] low[i]).is_fact && good.contains(low[i].head.pred) implies leads_into(
        b,
        now,
        low[i],
        all,
        all,
        all,
    ) by {
        let p = low[i].head.pred;
        assert(closed_for(b, now, low, set![p], d, d));
        assert(covers(d, facts(st.rels), p)) by {
            assert forall|key: Seq<Value>| #[trigger] d.contains((p, key)) implies facts(st.rels).contains((p, key)) by {
                assert(settled(st.rels).contains((p, key)));
            }
        }
        assert(reads_kept(low, set![p], d, all)) by {
            assert forall|j: int, q: Seq<char>| #[trigger] group_reads(low, set![p], j, q) implies covers(d, all, q) by {
                assert(group_reads(low, good, j, q));
            }
        }
        lemma_strata_closed(st, now, cs, l, strata, 0, b, d, mark, p);
        assert(set![p].contains(p));
    }
    assert forall|m: Set<KeyV>| #[trigger] closed_for(b, now, low, good, m, all) && outside(all, good).subset_of(m) implies all.subset_of(
        m,
    ) by {
        lemma_start_covered(now, low, b, d, all, good, m);
        assert forall|k: KeyV| #[trigger] facts(st.rels).contains(k) && good.contains(k.0) implies m.contains(k) by {
            assert(covers(facts(st.rels), d, k.0));
            assert(facts(st.rels).contains((k.0, k.1)));
            assert(d.contains((k.0, k.1)));
        }
        lemma_strata_least(st, now, cs, l, strata, 0, b, d, mark, to_clear, m);
    }
}

// ---------------------------------------------------------------- invalidating

/// The rules that fill a relation read one of the given ones.
pub open spec fn reads_any(cs: Seq<ClauseV>, p: Seq<char>, of: Set<Seq<char>>) -> bool {
    exists|q: Seq<char>| of.contains(q) && #[trigger] direct_reader(cs, q, p)
}

/// The relations filled by rules that read none of the given ones.
pub open spec fn not_reading(cs: Seq<ClauseV>, of: Set<Seq<char>>) -> Set<Seq<char>> {
    Set::new(|p: Seq<char>| is_ruled(cs, p) && !reads_any(cs, p, of))
}

/// After the evaluation of the strata, what will not be cleared is exact.
proof fn lemma_evaluated_tidy(
    st: StoreV,
    now: i64,
    cs: Seq<ClauseV>,
    l: Map<Seq<char>, nat>,
    strata: Seq<Seq<int>>,
    b: Seq<Seq<char>>,
    d: Set<KeyV>,
    mark: int,
)
    requires
        laid(cs, l, strata),
        is_running(st, cs, b, d, mark),
        settled(st.rels) == d,
        strata_settle(st, now, cs, strata, 0),
        eval_strata(st, now, cs, strata, 0).st.names.is_prefix_of(b),
        forall|p: Seq<char>| #[trigger] l.contains_key(p) ==> covers(facts(st.rels), d, p),
        is_exact(b, now, lowered_program(cs), not_reading(cs, st.retracted), d),
    ensures
        ({
            let f = eval_strata(st, now, cs, strata, 0).st;
            tidy(scope_begun(f, cs, strata, stale_readers(f, cs, mark)), now, cs, l, strata, 0, b)
        }),
{
    let f = eval_strata(st, now, cs, strata, 0).st;
    let extra = stale_readers(f, cs, mark);
    let sc = scope_begun(f, cs, strata, extra);
    let all = facts(f.rels);
    let low = lowered_program(cs);
    let good = fresh(cs, l, strata, sc.to_clear);
    lemma_strata_run(st, now, cs, l, strata, 0, b, d, mark);
    assert(going_on(sc.st, cs, b)) by {
        assert(orderly()(sc.st));
        assert(all_known(sc.st));
    }
    assert forall|p: Seq<char>| #[trigger] good.contains(p) implies is_ruled(cs, p) && !reads_any(cs, p, f.retracted) && !extra.contains(p) by {
        let k = lemma_filled_laid(cs, l, strata, p);
        assert(!sc.to_clear.contains(p)) by {
            if sc.to_clear.contains(p) {
                lemma_due(cs, l, strata, sc.to_clear, p);
            }
        }
        if reads_any(cs, p, f.retracted) {
            let q = choose|q: Seq<char>| f.retracted.contains(q) && #[trigger] direct_reader(cs, q, p);
        }
    }
    assert forall|p: Seq<char>| #[trigger] good.contains(p) implies not_reading(cs, st.retracted).contains(p) by {
        if reads_any(cs, p, st.retracted) {
            let q = choose|q: Seq<char>| st.retracted.contains(q) && #[trigger] direct_reader(cs, q, p);
            assert(f.retracted.contains(q) && direct_reader(cs, q, p));
        }
    }
    lemma_exact_part(b, now, low, not_reading(cs, st.retracted), good, d);
    assert(negates_same(low, good, d, all)) by {
        assert forall|i: int| 0 <= i < low.len() && !(#[trigger] low[i]).is_fact && good.contains(low[i].head.pred) implies negated_covered(
            low[i],
            all,
            d,
        ) by {
            assert(!cs[i].is_fact);
            lemma_rule_laid(cs, l, strata, i);
            assert(!reads_grown(f, mark, cs[i])) by {
                if reads_grown(f, mark, cs[i]) {
                    assert(extra.contains(owner(cs[i], i)));
                }
            }
            lemma_negated_settled(f, cs[i], mark, d);
        }
    }
    assert(reads_kept(low, good, d, all)) by {
        assert forall|i: int, q: Seq<char>| #[trigger] group_reads(low, good, i, q) implies covers(d, all, q) by {
            assert(!cs[i].is_fact);
            lemma_rule_laid(cs, l, strata, i);
            let p = owner(cs[i], i);
            assert(good.contains(p));
            assert(rule_reads(cs, i, q, p));
            assert(direct_reader(cs, q, p));
            assert(!f.retracted.contains(q));
            assert forall|key: Seq<Value>| #[trigger] d.contains((q, key)) implies all.contains((q, key)) by {
                assert(settled(f.rels).contains((q, key)));
            }
        }
    }
    lemma_strata_exact(st, now, cs, l, strata, b, d, mark, sc.to_clear);
}

/// What a rule negates is settled where none of it grew.
proof fn lemma_negated_settled(f: StoreV, c: ClauseV, mark: int, d: Set<KeyV>)
    requires
        lost_noted(d)(f),
        dated(mark)(f),
        !c.is_fact,
        !reads_grown(f, mark, c),
    ensures
        negated_covered(c, facts(f.rels), d),
{
    assert forall|j: int| 0 <= j < c.body.len() implies (match #[trigger] c.body[j] {
        LitV::Neg(x) => covers(facts(f.rels), d, x.pred),
        _ => true,
    }) by {
        assert(!negates_grown(f, mark, c.body[j]));
        if let LitV::Neg(x) = c.body[j] {
            assert forall|key: Seq<Value>| #[trigger] facts(f.rels).contains((x.pred, key)) implies d.contains((x.pred, key)) by {
                let k: KeyV = (x.pred, key);
                assert(!grew(f, mark, k.0));
                assert(!pending_delta(f.rels).contains(k));
                assert(settled(f.rels).contains(k));
            }
        }
    }
}

// ------------------------------------------------------------------------ runs

/// Every pending fact is of a relation that no rule writes.
pub open spec fn pending_unwritten(st: StoreV, cs: Seq<ClauseV>) -> bool {
    forall|k: KeyV| #[trigger] pending_delta(st.rels).contains(k) ==> !is_written(cs, k.0)
}

/// The facts that a program states are of predicates that no rule derives.
pub open spec fn stated_underived(cs: Seq<ClauseV>) -> bool {
    forall|i: int| 0 <= i < cs.len() && (#[trigger] cs[i]).is_fact ==> !defined(cs, cs[i].head.pred)
}

/// What a model of a program with aggregates is given: the facts that no rule
/// writes, and its own folds.
pub open spec fn given_in(cs: Seq<ClauseV>, stored: Set<KeyV>, all: Set<KeyV>) -> Set<KeyV> {
    unwritten(cs, stored).union(folds_of(cs, all))
}

/// An engine between runs. The settled facts are those of the model that the
/// last run left, under the names of that run, except facts of relations that
/// no rule writes and that were retracted since; the pending ones were
/// declared since. The aggregates are the folds of the stored solutions.
pub open spec fn keeps_up(e: EngineV, a: Seq<Seq<char>>, m: Set<KeyV>) -> bool {
    &&& is_sound(e.st)
    &&& !e.dirty
    &&& dated(e.mark)(e.st)
    &&& pending_unwritten(e.st, e.clauses)
    &&& a.is_prefix_of(e.st.names)
    &&& all_foldable(a, e.clauses)
    &&& set_known(a, m)
    &&& is_model(a, e.now, lowered_program(e.clauses), given_in(e.clauses, m, m), m)
    &&& all_tallied(e.st.rels, e.clauses)
    &&& settled(e.st.rels).subset_of(m)
    &&& forall|k: KeyV| #[trigger]
        m.contains(k) && !settled(e.st.rels).contains(k) ==> !is_written(e.clauses, k.0) && e.st.retracted.contains(k.0)
}

/// A change to a fact that no rule writes leaves the aggregates in step.
proof fn lemma_still_tallied(a: RelsV, b: RelsV, cs: Seq<ClauseV>, k: KeyV)
    requires
        all_tallied(a, cs),
        !is_written(cs, k.0),
        forall|p: Seq<char>| p != k.0 ==> #[trigger] same_facts(a, b, p),
    ensures
        all_tallied(b, cs),
{
    assert forall|i: int| #[trigger] is_fold(cs, i) implies is_tallied(b, cs[i], i) by {
        let p = cs[i].head.pred;
        assert(defined(cs, p));
        let q = temp_name(cs[i], i);
        assert(is_written(cs, q));
        assert(same_facts(a, b, p) && same_facts(a, b, q));
        lemma_tallied_same(a, b, cs[i], i);
    }
}

/// Only a new fact becomes pending by being asserted.
proof fn lemma_assert_pending(st: StoreV, k: KeyV, f: FactV, j: KeyV)
    requires
        pending_delta(store_assert(st, k, f).rels).contains(j),
    ensures
        pending_delta(st.rels).contains(j) || j == k,
{
}

/// A fact that a program states of an underived predicate is of a relation that
/// no rule writes.
proof fn lemma_stated_unwritten(cs: Seq<ClauseV>, i: int)
    requires
        folds_apart(cs),
        stated_underived(cs),
        0 <= i < cs.len(),
        cs[i].is_fact,
    ensures
        !is_written(cs, cs[i].head.pred),
{
    assert forall|j: int| #[trigger] is_fold(cs, j) implies cs[i].head.pred != temp_name(cs[j], j) by {
        lemma_temp_prefix(cs[j], j);
    }
}

proof fn lemma_declare_kept(st: StoreV, cs: Seq<ClauseV>, i: int, mark: int)
    requires
        rels_wf(st.rels),
        dated(mark)(st),
        pending_unwritten(st, cs),
        all_tallied(st.rels, cs),
        folds_apart(cs),
        stated_underived(cs),
        0 <= i <= cs.len(),
    ensures
        dated(mark)(declare_facts(st, cs, i)),
        pending_unwritten(declare_facts(st, cs, i), cs),
        all_tallied(declare_facts(st, cs, i).rels, cs),
        st.retracted == declare_facts(st, cs, i).retracted,
    decreases cs.len() - i,
{
    if i < cs.len() {
        if !cs[i].is_fact {
            lemma_declare_kept(st, cs, i + 1, mark);
        } else {
            let h = head_values(st.names, cs[i].head.args, Map::empty());
            let st1 = StoreV { names: h.0, ..st };
            lemma_stated_unwritten(cs, i);
            assert(dated(mark)(st1)) by {
                lemma_dated_names(st, h.0, mark);
            }
            match h.1 {
                Some(args) => {
                    let k: KeyV = (cs[i].head.pred, args);
                    let f = FactV { ann: ann_unit(), supports: seq![SupportV::Base] };
                    lemma_assert_dated(st1, k, f, mark);
                    lemma_assert_facts(st1, k, f);
                    crate::solve::lemma_store_assert(st1, k, f);
                    let st2 = declared(st1, k, ann_unit());
                    assert forall|j: KeyV| #[trigger] pending_delta(st2.rels).contains(j) implies !is_written(cs, j.0) by {
                        lemma_assert_pending(st1, k, f, j);
                    }
                    lemma_still_tallied(st1.rels, st2.rels, cs, k);
                    lemma_declare_kept(st2, cs, i + 1, mark);
                },
                None => lemma_declare_kept(st1, cs, i + 1, mark),
            }
        }
    }
}

proof fn lemma_dated_names(st: StoreV, names: Seq<Seq<char>>, mark: int)
    requires
        dated(mark)(st),
    ensures
        dated(mark)(StoreV { names, ..st }),
{
    let st1 = StoreV { names, ..st };
    assert forall|k: KeyV| #[trigger] pending_delta(st1.rels).contains(k) implies grew(st1, mark, k.0) by {
        assert(grew(st, mark, k.0));
        assert(st.log.is_prefix_of(st1.log)) by {
            assert(st.log =~= st1.log.subrange(0, st.log.len() as int));
        }
        lemma_grew_later(st, st1, mark, k.0);
    }
}

/// A program whose aggregates are apart has a layout.
pub proof fn lemma_layout(cs: Seq<ClauseV>) -> (l: Map<Seq<char>, nat>)
    requires
        folds_apart(cs),
        cs.len() <= usize::MAX,
    ensures
        laid(cs, l, strata_of(cs)),
{
    strata_exist(cs);
    let m = choose|m: Map<Seq<char>, nat>| #[trigger] is_levels(cs, m) && grouped(cs, m, strata_of(cs));
    assert(leveled(cs, m, strata_of(cs)));
    wide_levels(cs, m)
}

/// What a model is given is not derived by the rules as they are evaluated.
pub proof fn lemma_given_underived(cs: Seq<ClauseV>, l: Map<Seq<char>, nat>, strata: Seq<Seq<int>>, stored: Set<KeyV>, all: Set<KeyV>)
    requires
        laid(cs, l, strata),
    ensures
        forall|k: KeyV| #[trigger] given_in(cs, stored, all).contains(k) ==> !defined(lowered_program(cs), k.0),
{
    assert forall|k: KeyV| #[trigger] given_in(cs, stored, all).contains(k) implies !defined(lowered_program(cs), k.0) by {
        lemma_ruled_defined(cs, l, strata, k.0);
    }
}

/// Between runs, the relations filled by rules that read nothing retracted are
/// exact in the settled facts.
pub proof fn lemma_between_exact(e: EngineV, a: Seq<Seq<char>>, b: Seq<Seq<char>>, m: Set<KeyV>)
    requires
        keeps_up(e, a, m),
        folds_apart(e.clauses),
        e.clauses.len() <= usize::MAX,
        a.is_prefix_of(b),
        b.no_duplicates(),
        b.len() < usize::MAX,
    ensures
        is_exact(b, e.now, lowered_program(e.clauses), not_reading(e.clauses, e.st.retracted), settled(e.st.rels)),
{
    let cs = e.clauses;
    let low = lowered_program(cs);
    let strata = strata_of(cs);
    let d = settled(e.st.rels);
    let ps = not_reading(cs, e.st.retracted);
    let l = lemma_layout(cs);
    lemma_given_underived(cs, l, strata, m, m);
    lemma_model_exact(a, e.now, low, given_in(cs, m, m), m);
    assert(ps.subset_of(defined_in(low))) by {
        assert forall|p: Seq<char>| #[trigger] ps.contains(p) implies defined_in(low).contains(p) by {
            lemma_ruled_defined(cs, l, strata, p);
        }
    }
    lemma_exact_part(a, e.now, low, defined_in(low), ps, m);
    assert(comparisons_known(a, low)) by {
        assert forall|i: int| 0 <= i < low.len() && !(#[trigger] low[i]).is_fact implies constants_known(a, low[i]) by {
            assert(is_foldable(a, cs[i], i));
            lemma_rule_laid(cs, l, strata, i);
        }
    }
    lemma_exact_later(a, b, e.now, low, ps, m);
    assert forall|p: Seq<char>| #[trigger] ps.contains(p) implies alike(m, d, p) by {
        assert forall|key: Seq<Value>| #[trigger] m.contains((p, key)) implies d.contains((p, key)) by {}
    }
    assert forall|i: int, q: Seq<char>| #[trigger] group_reads(low, ps, i, q) implies alike(m, d, q) by {
        assert(!cs[i].is_fact);
        lemma_rule_laid(cs, l, strata, i);
        let p = owner(cs[i], i);
        assert(ps.contains(p));
        assert(rule_reads(cs, i, q, p));
        assert(direct_reader(cs, q, p));
        assert(!e.st.retracted.contains(q));
        assert forall|key: Seq<Value>| #[trigger] m.contains((q, key)) implies d.contains((q, key)) by {}
    }
    lemma_exact_moves(b, e.now, low, ps, m, d);
}

/// The facts of a model that no rule writes are the given ones.
pub proof fn lemma_only_given(
    b: Seq<Seq<char>>,
    now: i64,
    cs: Seq<ClauseV>,
    l: Map<Seq<char>, nat>,
    strata: Seq<Seq<int>>,
    given: Set<KeyV>,
    all: Set<KeyV>,
)
    requires
        laid(cs, l, strata),
        is_model(b, now, lowered_program(cs), given.union(folds_of(cs, all)), all),
        forall|k: KeyV| #[trigger] given.contains(k) ==> !is_written(cs, k.0),
    ensures
        given == unwritten(cs, all),
{
    let low = lowered_program(cs);
    let m = Set::new(|k: KeyV| given.contains(k) || is_written(cs, k.0));
    assert(program_closed(b, now, low, m, all)) by {
        assert forall|i: int| 0 <= i < low.len() && !(#[trigger] low[i]).is_fact implies leads_into(b, now, low[i], m, all, m) by {
            assert(!cs[i].is_fact);
            lemma_rule_laid(cs, l, strata, i);
        }
    }
    assert forall|k: KeyV| #[trigger] given.union(folds_of(cs, all)).contains(k) implies m.contains(k) by {}
    assert(all.subset_of(m));
    assert forall|k: KeyV| #[trigger] given.contains(k) implies all.contains(k) by {
        assert(given.union(folds_of(cs, all)).contains(k));
    }
    assert(given =~= unwritten(cs, all));
}

/// What a run leaves keeps up.
proof fn lemma_run_ends(e: EngineV, given: Set<KeyV>)
    requires
        folds_apart(e.clauses),
        ({
            let inv = invalidated(e);
            stands_folded(inv, e.now, e.clauses, inv.names, given, facts(inv.rels))
        }),
        given == unwritten(e.clauses, facts(invalidated(e).rels)),
    ensures
        facts(ran(e).0.st.rels) == facts(invalidated(e).rels),
        keeps_up(ran(e).0, ran(e).0.st.names, facts(ran(e).0.st.rels)),
{
    let inv = invalidated(e);
    let r = ran(e).0.st;
    assert(r.rels == rels_settled(inv.rels));
    assert forall|k: KeyV| #[trigger] holds(r.rels, k) <==> holds(inv.rels, k) by {
        lemma_same_rows(inv.rels, rels_settled(inv.rels), k);
    }
    assert(facts(r.rels) =~= facts(inv.rels));
    assert(settled(r.rels) =~= facts(r.rels));
    assert(pending_delta(r.rels) =~= Set::<KeyV>::empty());
    assert(rels_wf(r.rels)) by {
        assert forall|n: Seq<char>| #[trigger] r.rels.contains_key(n) implies rel_wf(r.rels[n]) by {
            assert(inv.rels.contains_key(n));
        }
    }
    assert forall|k: KeyV| #[trigger] holds(r.rels, k) implies known_key(r.names, k.1) by {
        assert(holds(inv.rels, k));
    }
    assert(r.names.is_prefix_of(r.names));
    assert(set_known(r.names, facts(r.rels))) by {
        assert forall|k: KeyV| #[trigger] facts(r.rels).contains(k) implies known_key(r.names, k.1) by {
            assert(holds(r.rels, k));
        }
    }
    assert(all_tallied(r.rels, e.clauses)) by {
        assert forall|i: int| #[trigger] is_fold(e.clauses, i) implies is_tallied(r.rels, e.clauses[i], i) by {
            lemma_tallied_same(inv.rels, r.rels, e.clauses[i], i);
        }
    }
}

/// Law: a run after changes gives the model again. Where facts that no rule
/// derives were declared and retracted since the last run, the next run ends
/// with the least solutions of all rules over the facts that are stated then
/// and the folds, and the folds of those solutions, as a run from scratch
/// does, and no retraction is left to follow up. Negation and aggregates are
/// included: new facts lead to what they derive, and what rested on retracted
/// facts, or on the absence of new ones, is gone.
pub proof fn changes_followed_up(e: EngineV, a: Seq<Seq<char>>, m: Set<KeyV>)
    requires
        keeps_up(e, a, m),
        e.clauses.len() <= usize::MAX,
        folds_apart(e.clauses),
        stated_underived(e.clauses),
        run_settles(e),
        ran(e).0.st.names.len() < usize::MAX,
    ensures
        ({
            let r = ran(e).0.st;
            let all = facts(r.rels);
            &&& is_model(r.names, e.now, lowered_program(e.clauses), given_in(e.clauses, facts(prepared(e).st.rels), all), all)
            &&& all_tallied(r.rels, e.clauses)
            &&& keeps_up(ran(e).0, r.names, all)
            &&& r.retracted == Set::<Seq<char>>::empty()
        }),
{
    let cs = e.clauses;
    let strata = strata_of(cs);
    let st = prepared(e).st;
    let f = eval_strata(st, e.now, cs, strata, 0).st;
    let inv = invalidated(e);
    let b = ran(e).0.st.names;
    let d = settled(e.st.rels);
    let mark = e.mark;
    let l = lemma_layout(cs);
    lemma_strata_laid(cs, l, strata);
    lemma_strata_fit(cs, strata);
    lemma_declare_grows(e.st, cs, 0);
    lemma_prefix_trans(a, e.st.names, st.names);
    lemma_foldable_grows(a, st.names, cs);
    assert(writes_in(cs, anything()));
    lemma_strata_touches(st, e.now, cs, strata, 0, anything());
    lemma_invalidate_touches(f, e.now, cs, strata, mark, strata.len() + 2, anything());
    lemma_prefix_trans(st.names, f.names, b);
    lemma_prefix_trans(a, st.names, b);
    lemma_declared(e.st, cs, 0);
    lemma_distinct_upheld();
    assert(distinct_names()(e.st));
    lemma_run_keeps(distinct_names(), e);
    assert(distinct_names()(run_end(e)));
    lemma_declare_kept(e.st, cs, 0, mark);
    assert(lost_noted(d)(st));
    assert(is_running(st, cs, b, d, mark));
    assert forall|p: Seq<char>| #[trigger] l.contains_key(p) implies covers(facts(st.rels), d, p) by {
        let k = lemma_filled_laid(cs, l, strata, p);
        assert forall|key: Seq<Value>| #[trigger] facts(st.rels).contains((p, key)) implies d.contains((p, key)) by {
            let k: KeyV = (p, key);
            assert(!pending_delta(st.rels).contains(k));
            assert(settled(st.rels).contains(k));
        }
    }
    lemma_between_exact(e, a, b, m);
    lemma_evaluated_tidy(st, e.now, cs, l, strata, b, d, mark);
    lemma_strata_run(st, e.now, cs, l, strata, 0, b, d, mark);
    lemma_same_unwritten(cs, l, strata, facts(st.rels), facts(f.rels));
    assert(b.is_prefix_of(b));
    lemma_followed(f, e.now, cs, l, strata, mark, strata.len() + 2, b);
    lemma_followed_forgets(f, e.now, cs, l, strata, mark, strata.len() + 2, b);
    let given = unwritten(cs, facts(st.rels));
    assert(stands_folded(inv, e.now, cs, b, given, facts(inv.rels)));
    lemma_only_given(b, e.now, cs, l, strata, given, facts(inv.rels));
    lemma_run_ends(e, given);
}

/// The facts of predicates that no rule derives.
pub open spec fn underived(cs: Seq<ClauseV>, all: Set<KeyV>) -> Set<KeyV> {
    all.filter(|k: KeyV| !defined(cs, k.0))
}

/// The rules of a program without aggregates are evaluated as they are.
pub proof fn lemma_plain_program(cs: Seq<ClauseV>, stored: Set<KeyV>, all: Set<KeyV>)
    requires
        no_aggregates(cs),
    ensures
        lowered_program(cs) == cs,
        given_in(cs, stored, all) == underived(cs, stored),
        forall|p: Seq<char>| #[trigger] is_written(cs, p) <==> defined(cs, p),
{
    assert(lowered_program(cs) =~= cs);
    assert forall|i: int| !(#[trigger] is_fold(cs, i)) by {}
    assert forall|p: Seq<char>| !(#[trigger] aggregated(cs, p)) by {}
    assert(given_in(cs, stored, all) =~= underived(cs, stored));
}

/// Law: where the rules do not aggregate, a run after changes gives the model
/// of the program over the facts of underived predicates that are stated then.
pub proof fn plain_changes_followed_up(e: EngineV, a: Seq<Seq<char>>, m: Set<KeyV>)
    requires
        keeps_up(e, a, m),
        e.clauses.len() <= usize::MAX,
        folds_apart(e.clauses),
        no_aggregates(e.clauses),
        stated_underived(e.clauses),
        run_settles(e),
        ran(e).0.st.names.len() < usize::MAX,
    ensures
        is_model(
            ran(e).0.st.names,
            e.now,
            e.clauses,
            underived(e.clauses, facts(prepared(e).st.rels)),
            facts(ran(e).0.st.rels),
        ),
        keeps_up(ran(e).0, ran(e).0.st.names, facts(ran(e).0.st.rels)),
{
    changes_followed_up(e, a, m);
    lemma_plain_program(e.clauses, facts(prepared(e).st.rels), facts(ran(e).0.st.rels));
}

/// Law: a run from scratch leaves an engine that keeps up.
pub proof fn rebuilding_keeps_up(e: EngineV)
    requires
        is_sound(e.st),
        e.dirty,
        e.clauses.len() <= usize::MAX,
        folds_apart(e.clauses),
        stated_underived(e.clauses),
        all_foldable(prepared(e).st.names, e.clauses),
        run_settles(e),
        ran(e).0.st.names.len() < usize::MAX,
        forall|k: KeyV| #[trigger] holds(prepared(e).st.rels, k) ==> !defined(e.clauses, k.0) && !is_temp(k.0),
    ensures
        keeps_up(ran(e).0, ran(e).0.st.names, facts(ran(e).0.st.rels)),
{
    let cs = e.clauses;
    let r = ran(e).0.st;
    let given = facts(prepared(e).st.rels);
    let l = lemma_layout(cs);
    stratified_run_gives_folds(e);
    run_consumes(e);
    assert forall|k: KeyV| #[trigger] given.contains(k) implies !is_written(cs, k.0) by {
        assert(holds(prepared(e).st.rels, k));
        assert forall|i: int| #[trigger] is_fold(cs, i) implies k.0 != temp_name(cs[i], i) by {
            lemma_temp_prefix(cs[i], i);
        }
    }
    lemma_only_given(r.names, e.now, cs, l, strata_of(cs), given, facts(r.rels));
    lemma_run_names(e);
    lemma_foldable_grows(prepared(e).st.names, r.names, cs);
    assert(set_known(r.names, facts(r.rels))) by {
        assert forall|k: KeyV| #[trigger] facts(r.rels).contains(k) implies known_key(r.names, k.1) by {
            assert(holds(r.rels, k));
        }
    }
    assert(r.names.is_prefix_of(r.names));
}

/// A run only adds names.
pub proof fn lemma_run_names(e: EngineV)
    requires
        is_sound(e.st) || (!e.dirty && rels_wf(e.st.rels)),
        e.clauses.len() <= usize::MAX,
        strata_error(e.clauses) is None,
    ensures
        prepared(e).st.names.is_prefix_of(ran(e).0.st.names),
{
    let cs = e.clauses;
    let strata = strata_of(cs);
    let st = prepared(e).st;
    let f = eval_strata(st, e.now, cs, strata, 0).st;
    strata_exist(cs);
    lemma_strata_fit(cs, strata);
    if e.dirty {
        lemma_rebuilt(e.st, cs, strata, e.ever);
        lemma_declare_grows(rebuilt(e.st, cs, strata, e.ever), cs, 0);
    } else {
        lemma_declare_grows(e.st, cs, 0);
    }
    assert(writes_in(cs, anything()));
    lemma_strata_touches(st, e.now, cs, strata, 0, anything());
    lemma_invalidate_touches(f, e.now, cs, strata, e.mark, strata.len() + 2, anything());
    lemma_prefix_trans(st.names, f.names, invalidated(e).names);
}

/// Law: declaring a fact that no rule writes leaves an engine that keeps up.
pub proof fn declaring_keeps_up(e: EngineV, a: Seq<Seq<char>>, m: Set<KeyV>, k: KeyV, ann: AnnV)
    requires
        keeps_up(e, a, m),
        !is_written(e.clauses, k.0),
        known_key(e.st.names, k.1),
    ensures
        keeps_up(EngineV { st: declared(e.st, k, ann), ..e }, a, m),
{
    let f = FactV { ann, supports: seq![SupportV::Base] };
    let r = declared(e.st, k, ann);
    crate::solve::lemma_store_assert(e.st, k, f);
    lemma_asserted(e.st, k, f);
    lemma_assert_facts(e.st, k, f);
    lemma_assert_dated(e.st, k, f, e.mark);
    lemma_still_tallied(e.st.rels, r.rels, e.clauses, k);
    assert forall|j: KeyV| #[trigger] pending_delta(r.rels).contains(j) implies !is_written(e.clauses, j.0) by {
        lemma_assert_pending(e.st, k, f, j);
    }
    assert forall|j: KeyV| #[trigger] holds(r.rels, j) implies known_key(r.names, j.1) by {
        assert(holds(e.st.rels, j) || j == k);
    }
}

/// Law: retracting a fact that no rule writes leaves an engine that keeps up.
pub proof fn retracting_keeps_up(e: EngineV, a: Seq<Seq<char>>, m: Set<KeyV>, k: KeyV)
    requires
        keeps_up(e, a, m),
        !is_written(e.clauses, k.0),
    ensures
        keeps_up(EngineV { st: store_retract(e.st, k), ..e }, a, m),
{
    let r = store_retract(e.st, k);
    lemma_orderly_upheld();
    assert(orderly()(e.st));
    assert(orderly()(r));
    lemma_retract_facts(e.st, k);
    lemma_still_tallied(e.st.rels, r.rels, e.clauses, k);
    lemma_dated_outlasts(e.mark);
    assert(dated(e.mark)(r));
    assert forall|j: KeyV| #[trigger] pending_delta(r.rels).contains(j) implies !is_written(e.clauses, j.0) by {
        lemma_removed_pending(e.st, k, j);
    }
    assert forall|j: KeyV| #[trigger] holds(r.rels, j) implies known_key(r.names, j.1) by {
        assert(facts(r.rels).contains(j));
        assert(holds(e.st.rels, j));
    }
    lemma_retract_settled(e.st, k);
    assert forall|j: KeyV| #[trigger] m.contains(j) && !settled(r.rels).contains(j) implies !is_written(e.clauses, j.0)
        && r.retracted.contains(j.0) by {
        if settled(e.st.rels).contains(j) {
            assert(holds(e.st.rels, j));
            assert(facts(r.rels).contains(j) <==> j != k);
            if j != k {
                assert(pending_delta(r.rels).contains(j));
                lemma_removed_pending(e.st, k, j);
            }
        }
    }
}

proof fn lemma_same_growth(a: StoreV, b: StoreV, mark: int, p: Seq<char>)
    requires
        a.log == b.log,
        0 <= mark,
        grew(a, mark, p),
    ensures
        grew(b, mark, p),
{
    assert(a.log =~= b.log.subrange(0, a.log.len() as int));
    lemma_grew_later(a, b, mark, p);
}

/// Law: naming a symbol leaves an engine that keeps up.
pub proof fn naming_keeps_up(e: EngineV, a: Seq<Seq<char>>, m: Set<KeyV>, s: Seq<char>)
    requires
        keeps_up(e, a, m),
    ensures
        keeps_up(EngineV { st: StoreV { names: with_name(e.st.names, s), ..e.st }, ..e }, a, m),
{
    let names = with_name(e.st.names, s);
    let r = StoreV { names, ..e.st };
    assert(e.st.names.is_prefix_of(names)) by {
        assert(e.st.names =~= names.subrange(0, e.st.names.len() as int));
    }
    lemma_prefix_trans(a, e.st.names, names);
    lemma_dated_names(e.st, names, e.mark);
    assert forall|k: KeyV| #[trigger] holds(r.rels, k) implies known_key(r.names, k.1) by {
        assert(holds(e.st.rels, k));
        lemma_known_grows(e.st.names, names, k.1);
    }
    assert(names.no_duplicates());
    assert(is_sound(r));
}

/// A run that keeps the underived facts keeps the facts of the program.
pub proof fn lemma_still_stated(e: EngineV)
    requires
        is_sound(e.st),
        e.clauses.len() <= usize::MAX,
        folds_apart(e.clauses),
        stated_underived(e.clauses),
        is_sound(ran(e).0.st),
        ran(e).0.st.names.len() < usize::MAX,
        unwritten(e.clauses, facts(prepared(e).st.rels)).subset_of(facts(ran(e).0.st.rels)),
    ensures
        facts_stated(ran(e).0.st, e.clauses),
{
    let cs = e.clauses;
    let st = prepared(e).st;
    let r = ran(e).0.st;
    let st1 = if e.dirty {
        rebuilt(e.st, cs, strata_of(cs), e.ever)
    } else {
        e.st
    };
    if e.dirty {
        lemma_rebuilt(e.st, cs, strata_of(cs), e.ever);
    }
    lemma_declare_grows(st1, cs, 0);
    lemma_run_names(e);
    assert(st.names.no_duplicates()) by {
        assert forall|i: int, j: int| 0 <= i < st.names.len() && 0 <= j < st.names.len() && i != j implies st.names[i] != st.names[j] by {
            assert(st.names[i] == r.names[i] && st.names[j] == r.names[j]);
        }
    }
    crate::solve::lemma_store_extends_self(st);
    assert forall|i: int| 0 <= i < cs.len() && (#[trigger] cs[i]).is_fact implies is_stated(r, cs[i]) by {
        lemma_stated(st1, cs, 0, i, st);
        lemma_head_again(st.names, r.names, cs[i].head.args, 0, Map::empty(), Seq::empty());
        if let Some(args) = head_values(st.names, cs[i].head.args, Map::empty()).1 {
            let k: KeyV = (cs[i].head.pred, args);
            assert(holds(st.rels, k));
            lemma_stated_unwritten(cs, i);
            assert(unwritten(cs, facts(st.rels)).contains(k));
            assert(facts(r.rels).contains(k));
        }
    }
}

} // verus!

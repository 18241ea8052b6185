//! What is cleared and what is not: a recomputation clears only what depends
//! on what changed, and a run from scratch leaves nothing of rules that are
//! gone.

use vstd::prelude::*;
use crate::ast::{ClauseV, TermV};
use crate::deep::{lemma_clear_each_facts, lemma_rebuilt_facts};
use crate::engine::{eval_strata, invalidate, lemma_strata_fit, prepared, ran, EngineV};
use crate::env::Bindings;
use crate::evaluate::{eval_stratum_of, fixpoint, fixpoint_extends, indices_of, pending_delta, stratum_rules, temp_name};
use crate::frame::{
    lemma_all_finite, lemma_declare_touches, lemma_enumerated, lemma_fold_stratum_touches, lemma_here_finite, lemma_invalidate_touches,
    lemma_step_touches, lemma_strata_touches, lemma_touches_trans, same_facts, writes_in,
};
use crate::model::lemma_extends_holds;
use crate::query::has_clause;
use crate::recompute::{
    clear_each, direct_reader, in_heads, lemma_here_only, rebuilt, scope_here, scope_pass, scope_passes, scope_queued, scope_step,
    scoped, stated_in, strata_fit, ScopeV,
};
use crate::relation::{FactV, KeyV};
use crate::runs::{lemma_declare_extends, lemma_same_rows};
use crate::scope::{anything, reset, scope_begun, seeded_store};
use crate::solve::{head_values, lemma_prefix_trans};
use crate::sorted_set::enumerate;
use crate::store::{holds, rels_settled, rels_wf, store_assert, store_clear, store_retract, ChangeV, StoreV};
use crate::stratify::{aggregated, aggregates, strata_error, strata_exist, strata_of};
use crate::upkeep::{any_args, lemma_declare_keeps, lemma_stratum_keeps, outlasts, with_names};

verus! {

// ------------------------------------------------------------------- affected

/// The predicate depends on one of the given ones, over so many steps from
/// read to reader.
pub open spec fn depends_in(cs: Seq<ClauseV>, from: Set<Seq<char>>, p: Seq<char>, n: nat) -> bool
    decreases n,
{
    if n == 0 {
        from.contains(p)
    } else {
        exists|q: Seq<char>| depends_in(cs, from, q, (n - 1) as nat) && #[trigger] direct_reader(cs, q, p)
    }
}

/// The predicate is one of the given ones or depends on one.
pub open spec fn is_affected(cs: Seq<ClauseV>, from: Set<Seq<char>>, p: Seq<char>) -> bool {
    exists|n: nat| depends_in(cs, from, p, n)
}

proof fn lemma_reader_affected(cs: Seq<ClauseV>, from: Set<Seq<char>>, q: Seq<char>, p: Seq<char>)
    requires
        is_affected(cs, from, q),
        direct_reader(cs, q, p),
    ensures
        is_affected(cs, from, p),
{
    let n = choose|n: nat| depends_in(cs, from, q, n);
    assert(depends_in(cs, from, p, n + 1));
}

/// The events since a point of the feed clear only certain predicates.
pub open spec fn clears_only(feed: Seq<ChangeV>, a: Set<Seq<char>>) -> spec_fn(StoreV) -> bool {
    |st: StoreV|
        feed.is_prefix_of(st.feed) && forall|i: int| #![trigger st.feed[i]]
            feed.len() <= i < st.feed.len() && st.feed[i] is Cleared ==> a.contains(st.feed[i]->Cleared_1)
}

proof fn lemma_event(feed: Seq<ChangeV>, a: Set<Seq<char>>, st: StoreV, r: StoreV, c: ChangeV)
    requires
        clears_only(feed, a)(st),
        r.feed == st.feed.push(c),
        c is Cleared ==> a.contains(c->Cleared_1),
    ensures
        clears_only(feed, a)(r),
{
    lemma_prefix_push(feed, st.feed, c);
    assert forall|i: int| #![trigger r.feed[i]] feed.len() <= i < r.feed.len() && r.feed[i] is Cleared implies a.contains(
        r.feed[i]->Cleared_1,
    ) by {
        if i < st.feed.len() {
            assert(r.feed[i] == st.feed[i]);
        }
    }
}

proof fn lemma_prefix_push(a: Seq<ChangeV>, b: Seq<ChangeV>, c: ChangeV)
    requires
        a.is_prefix_of(b),
    ensures
        a.is_prefix_of(b.push(c)),
{
    assert(b.is_prefix_of(b.push(c)));
    lemma_prefix_trans(a, b, b.push(c));
}

proof fn lemma_same_feed(feed: Seq<ChangeV>, a: Set<Seq<char>>, st: StoreV, r: StoreV)
    requires
        clears_only(feed, a)(st),
        r.feed == st.feed,
    ensures
        clears_only(feed, a)(r),
{
    assert forall|i: int| #![trigger r.feed[i]] feed.len() <= i < r.feed.len() && r.feed[i] is Cleared implies a.contains(
        r.feed[i]->Cleared_1,
    ) by {
        assert(r.feed[i] == st.feed[i]);
    }
}

/// Deriving clears nothing.
proof fn lemma_clears_only_outlasts(feed: Seq<ChangeV>, a: Set<Seq<char>>)
    ensures
        outlasts(clears_only(feed, a)),
{
    let p = clears_only(feed, a);
    assert forall|st: StoreV, args: Seq<TermV>, map: Bindings| p(st) implies #[trigger] p(
        with_names(st, head_values(st.names, args, map).0),
    ) by {
        lemma_same_feed(feed, a, st, with_names(st, head_values(st.names, args, map).0));
    }
    assert forall|st: StoreV, k: KeyV, f: FactV| p(st) && f.supports.len() == 1 implies #[trigger] p(store_assert(st, k, f)) by {
        if holds(st.rels, k) {
            lemma_same_feed(feed, a, st, store_assert(st, k, f));
        } else {
            lemma_event(feed, a, st, store_assert(st, k, f), ChangeV::Added(st.epoch, k));
        }
    }
    assert forall|st: StoreV, k: KeyV| p(st) implies #[trigger] p(store_retract(st, k)) by {
        if holds(st.rels, k) {
            lemma_event(feed, a, st, store_retract(st, k), ChangeV::Retracted(st.epoch, k));
        } else {
            lemma_same_feed(feed, a, st, store_retract(st, k));
        }
    }
}

proof fn lemma_clear_each_only(st: StoreV, ps: Seq<Seq<char>>, feed: Seq<ChangeV>, a: Set<Seq<char>>)
    requires
        clears_only(feed, a)(st),
        forall|i: int| 0 <= i < ps.len() ==> a.contains(#[trigger] ps[i]),
    ensures
        clears_only(feed, a)(clear_each(st, ps)),
    decreases ps.len(),
{
    if ps.len() > 0 {
        let s = store_clear(st, ps[0]);
        let d = ps.drop_first();
        if s.feed == st.feed {
            lemma_same_feed(feed, a, st, s);
        } else {
            lemma_event(feed, a, st, s, ChangeV::Cleared(st.epoch, ps[0]));
        }
        assert forall|i: int| 0 <= i < d.len() implies a.contains(#[trigger] d[i]) by {
            assert(d[i] == ps[i + 1]);
        }
        lemma_clear_each_only(s, d, feed, a);
    }
}

// -------------------------------------------------------------------- passing

/// A recomputation on its way: what is to be cleared is affected, only such
/// predicates were cleared, and the others kept their facts.
pub open spec fn contained(sc: ScopeV, cs: Seq<ClauseV>, was: StoreV, from: Set<Seq<char>>) -> bool {
    &&& rels_wf(sc.st.rels)
    &&& forall|p: Seq<char>| #[trigger] sc.to_clear.contains(p) ==> is_affected(cs, from, p)
    &&& clears_only(was.feed, affected(cs, from))(sc.st)
    &&& forall|k: KeyV| #[trigger] holds(was.rels, k) && !is_affected(cs, from, k.0) && !aggregated(cs, k.0) ==> holds(sc.st.rels, k)
}

pub open spec fn affected(cs: Seq<ClauseV>, from: Set<Seq<char>>) -> Set<Seq<char>> {
    Set::new(|p: Seq<char>| is_affected(cs, from, p))
}

/// The evaluation of a stratum keeps the facts of a predicate that is not
/// aggregated.
pub proof fn lemma_eval_keeps(st: StoreV, now: i64, cs: Seq<ClauseV>, idx: Seq<int>, k: KeyV)
    requires
        rels_wf(st.rels),
        indices_of(idx, cs.len() as int),
        forall|j: int| 0 <= j < idx.len() ==> !cs[#[trigger] idx[j]].is_fact,
        holds(st.rels, k),
        !aggregated(cs, k.0),
    ensures
        holds(eval_stratum_of(st, now, cs, idx).st.rels, k),
{
    let rules = stratum_rules(cs, idx);
    let f = fixpoint(st, now, rules, pending_delta(st.rels)).st;
    let t = Set::new(|q: Seq<char>| q != k.0);
    fixpoint_extends(st, now, rules, pending_delta(st.rels));
    lemma_extends_holds(st, f, k);
    assert forall|j: int| 0 <= j < idx.len() && aggregates(cs[#[trigger] idx[j]]) implies t.contains(cs[idx[j]].head.pred) by {
        assert(0 <= idx[j] < cs.len());
        assert(!cs[idx[j]].is_fact);
    }
    lemma_fold_stratum_touches(f, cs, idx, 0, t);
    assert(same_facts(f.rels, eval_stratum_of(st, now, cs, idx).st.rels, k.0));
}

proof fn lemma_step_contained(
    sc: ScopeV,
    now: i64,
    cs: Seq<ClauseV>,
    strata: Seq<Seq<int>>,
    stratum: Seq<int>,
    was: StoreV,
    from: Set<Seq<char>>,
)
    requires
        contained(sc, cs, was, from),
        indices_of(stratum, cs.len() as int),
        forall|j: int| 0 <= j < stratum.len() ==> !cs[#[trigger] stratum[j]].is_fact,
    ensures
        contained(scope_step(sc, now, cs, strata, stratum), cs, was, from),
{
    let here = scope_here(cs, stratum, sc.to_clear);
    let next = scope_step(sc, now, cs, strata, stratum);
    let a = affected(cs, from);
    if here != Set::<Seq<char>>::empty() {
        let ps = enumerate::<String>(here);
        let cleared = clear_each(sc.st, ps);
        let r = reset(sc, cs, here);
        lemma_here_finite(cs, stratum, sc.to_clear);
        assert(here.subset_of(a)) by {
            assert forall|q: Seq<char>, p: Seq<char>, k: int|
                0 <= k < stratum.len() && a.contains(q) && #[trigger] direct_reader(cs, q, p) && crate::recompute::filled_by(
                    cs,
                    #[trigger] stratum[k],
                    p,
                ) implies a.contains(p) by {
                lemma_reader_affected(cs, from, q, p);
            }
            lemma_here_only(cs, stratum, sc.to_clear, a);
        }
        assert forall|i: int| 0 <= i < ps.len() implies a.contains(#[trigger] ps[i]) by {
            lemma_enumerated(here, i);
        }
        lemma_clear_each_only(sc.st, ps, was.feed, a);
        let seeded = seeded_store(sc, cs, here);
        lemma_same_feed(was.feed, a, cleared, seeded);
        lemma_clears_only_outlasts(was.feed, a);
        lemma_declare_keeps(clears_only(was.feed, a), any_args(), seeded, stated_in(cs, here), 0);
        lemma_stratum_keeps(clears_only(was.feed, a), r, now, cs, stratum);
        assert(writes_in(cs, anything()));
        lemma_step_touches(sc, now, cs, strata, stratum, anything());
        lemma_cleared_wf(sc.st, ps);
        assert(rels_wf(seeded.rels)) by {
            assert forall|n: Seq<char>| #[trigger] seeded.rels.contains_key(n) implies crate::relation::rel_wf(seeded.rels[n]) by {
                assert(cleared.rels.contains_key(n));
            }
        }
        lemma_declare_extends(seeded, stated_in(cs, here), 0);
        assert forall|p: Seq<char>| #[trigger] next.to_clear.contains(p) implies is_affected(cs, from, p) by {
            if scope_queued(cs, strata, here, sc.st.rels, next.st.rels).contains(p) {
                let q = choose|q: Seq<char>|
                    here.contains(q) && crate::recompute::tuples_of(sc.st.rels, q) != crate::recompute::tuples_of(next.st.rels, q)
                        && #[trigger] direct_reader(cs, q, p);
                assert(a.contains(q));
                lemma_reader_affected(cs, from, q, p);
            }
        }
        lemma_clear_each_facts(sc.st, ps);
        assert forall|k: KeyV| #[trigger] holds(was.rels, k) && !is_affected(cs, from, k.0) && !aggregated(cs, k.0) implies holds(
            next.st.rels,
            k,
        ) by {
            assert(holds(sc.st.rels, k));
            assert(!ps.contains(k.0)) by {
                if ps.contains(k.0) {
                    let i = choose|i: int| 0 <= i < ps.len() && ps[i] == k.0;
                    assert(a.contains(ps[i]));
                }
            }
            assert(holds(cleared.rels, k));
            lemma_same_rows(cleared.rels, seeded.rels, k);
            lemma_extends_holds(seeded, r, k);
            lemma_eval_keeps(r, now, cs, stratum, k);
        }
    }
}

proof fn lemma_cleared_wf(st: StoreV, ps: Seq<Seq<char>>)
    requires
        rels_wf(st.rels),
    ensures
        rels_wf(clear_each(st, ps).rels),
    decreases ps.len(),
{
    if ps.len() > 0 {
        crate::relation::lemma_empty_wf();
        lemma_cleared_wf(store_clear(st, ps[0]), ps.drop_first());
    }
}

proof fn lemma_pass_contained(
    sc: ScopeV,
    now: i64,
    cs: Seq<ClauseV>,
    strata: Seq<Seq<int>>,
    s: int,
    was: StoreV,
    from: Set<Seq<char>>,
)
    requires
        contained(sc, cs, was, from),
        strata_fit(strata, cs.len() as int),
        rules_only(cs, strata),
    ensures
        contained(scope_pass(sc, now, cs, strata, s), cs, was, from),
    decreases strata.len() - s,
{
    if 0 <= s < strata.len() {
        assert(indices_of(strata[s], cs.len() as int));
        lemma_step_contained(sc, now, cs, strata, strata[s], was, from);
        lemma_pass_contained(scope_step(sc, now, cs, strata, strata[s]), now, cs, strata, s + 1, was, from);
    }
}

/// The strata hold rules, and no facts.
pub open spec fn rules_only(cs: Seq<ClauseV>, strata: Seq<Seq<int>>) -> bool {
    forall|s: int, j: int| 0 <= s < strata.len() && 0 <= j < strata[s].len() ==> !cs[#[trigger] strata[s][j]].is_fact
}

proof fn lemma_passes_contained(
    sc: ScopeV,
    now: i64,
    cs: Seq<ClauseV>,
    strata: Seq<Seq<int>>,
    n: nat,
    was: StoreV,
    from: Set<Seq<char>>,
)
    requires
        contained(sc, cs, was, from),
        strata_fit(strata, cs.len() as int),
        rules_only(cs, strata),
    ensures
        contained(scope_passes(sc, now, cs, strata, n), cs, was, from),
    decreases n,
{
    if !(n == 0 || sc.to_clear == Set::<Seq<char>>::empty()) {
        lemma_pass_contained(sc, now, cs, strata, 0, was, from);
        lemma_passes_contained(scope_pass(sc, now, cs, strata, 0), now, cs, strata, (n - 1) as nat, was, from);
    }
}

/// Law: a recomputation clears only what depends on what changed. Every
/// predicate that it clears is one of the given ones or depends, directly or
/// through others, on them or on a retracted one; an ordinary predicate that
/// does not keeps all its facts.
pub proof fn only_affected_cleared(st: StoreV, now: i64, cs: Seq<ClauseV>, strata: Seq<Seq<int>>, extra: Set<Seq<char>>)
    requires
        rels_wf(st.rels),
        strata_fit(strata, cs.len() as int),
        rules_only(cs, strata),
    ensures
        ({
            let r = scoped(st, now, cs, strata, extra).st;
            let from = st.retracted.union(extra);
            &&& st.feed.is_prefix_of(r.feed)
            &&& forall|i: int| #![trigger r.feed[i]]
                st.feed.len() <= i < r.feed.len() && r.feed[i] is Cleared ==> is_affected(cs, from, r.feed[i]->Cleared_1)
            &&& forall|k: KeyV| #[trigger]
                holds(st.rels, k) && !is_affected(cs, from, k.0) && !aggregated(cs, k.0) ==> holds(r.rels, k)
        }),
{
    let from = st.retracted.union(extra);
    let sc = scope_begun(st, cs, strata, extra);
    let r = scoped(st, now, cs, strata, extra).st;
    assert forall|p: Seq<char>| #[trigger] sc.to_clear.contains(p) implies is_affected(cs, from, p) by {
        if extra.contains(p) {
            assert(depends_in(cs, from, p, 0));
        } else {
            let q = choose|q: Seq<char>| (st.retracted.contains(q) || extra.contains(q)) && #[trigger] direct_reader(cs, q, p);
            assert(depends_in(cs, from, q, 0));
            lemma_reader_affected(cs, from, q, p);
        }
    }
    assert(st.feed.is_prefix_of(st.feed));
    assert(contained(sc, cs, st, from));
    lemma_passes_contained(sc, now, cs, strata, strata.len() + 2, st, from);
    assert(r == scope_passes(sc, now, cs, strata, strata.len() + 2).st);
    assert forall|i: int| #![trigger r.feed[i]] st.feed.len() <= i < r.feed.len() && r.feed[i] is Cleared implies is_affected(
        cs,
        from,
        r.feed[i]->Cleared_1,
    ) by {
        assert(affected(cs, from).contains(r.feed[i]->Cleared_1));
    }
}

// -------------------------------------------------------------------- orphans

/// A rule of the program collects its solutions in the relation.
pub open spec fn has_intermediate(cs: Seq<ClauseV>, p: Seq<char>) -> bool {
    exists|i: int| 0 <= i < cs.len() && aggregates(cs[i]) && p == #[trigger] temp_name(cs[i], i)
}

/// Law: nothing is left of rules that are gone. After the next run, no fact
/// is stored of a relation that rules once wrote and that is neither the head
/// of a clause of the program nor the intermediate relation of one of its
/// rules.
pub proof fn orphans_gone(e: EngineV, k: KeyV)
    requires
        rels_wf(e.st.rels),
        e.dirty,
        e.ever.finite(),
        e.ever.contains(k.0),
        e.clauses.len() <= usize::MAX,
        strata_error(e.clauses) is None,
        !has_clause(e.clauses, k.0),
        !has_intermediate(e.clauses, k.0),
    ensures
        !holds(ran(e).0.st.rels, k),
{
    let cs = e.clauses;
    let strata = strata_of(cs);
    let t = Set::new(|q: Seq<char>| q != k.0);
    let st1 = rebuilt(e.st, cs, strata, e.ever);
    let p = prepared(e).st;
    let f = eval_strata(p, e.now, cs, strata, 0).st;
    let inv = invalidate(f, e.now, cs, strata, e.mark, strata.len() + 2).st;
    strata_exist(cs);
    lemma_strata_fit(cs, strata);
    lemma_all_finite(e, strata);
    lemma_rebuilt_facts(e.st, cs, strata, e.ever);
    assert(writes_in(cs, t)) by {
        assert forall|i: int| 0 <= i < cs.len() implies t.contains((#[trigger] cs[i]).head.pred) by {
            assert(has_clause(cs, cs[i].head.pred));
        }
        assert forall|i: int| 0 <= i < cs.len() && aggregates(cs[i]) implies t.contains(#[trigger] temp_name(cs[i], i)) by {
            assert(has_intermediate(cs, temp_name(cs[i], i)));
        }
    }
    lemma_rebuilt_wf(e.st, cs, strata, e.ever);
    lemma_declare_touches(st1, cs, 0, t);
    lemma_strata_touches(p, e.now, cs, strata, 0, t);
    lemma_touches_trans(st1, p, f, t);
    lemma_invalidate_touches(f, e.now, cs, strata, e.mark, strata.len() + 2, t);
    lemma_touches_trans(st1, f, inv, t);
    assert(same_facts(st1.rels, inv.rels, k.0));
    lemma_same_rows(st1.rels, inv.rels, k);
    lemma_same_rows(inv.rels, rels_settled(inv.rels), k);
}

proof fn lemma_rebuilt_wf(st: StoreV, cs: Seq<ClauseV>, strata: Seq<Seq<int>>, ever: Set<Seq<char>>)
    requires
        rels_wf(st.rels),
    ensures
        rels_wf(rebuilt(st, cs, strata, ever).rels),
{
    let all = Set::new(|p: Seq<char>| ever.contains(p) || in_heads(cs, strata, p));
    let c = clear_each(st, enumerate::<String>(all));
    let r = rebuilt(st, cs, strata, ever);
    lemma_cleared_wf(st, enumerate::<String>(all));
    assert forall|n: Seq<char>| #[trigger] r.rels.contains_key(n) implies crate::relation::rel_wf(r.rels[n]) by {
        assert(c.rels.contains_key(n));
    }
}

} // verus!

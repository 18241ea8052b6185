//! What changes of the program leave behind: every relation that rules write or
//! once wrote is on record, so that a run from scratch finds none of their
//! facts, intermediate relations included. What the program states stays, and
//! no program speaks of intermediate relations.

use vstd::prelude::*;
use crate::ast::{ClauseV, LitV};
use crate::clears::lemma_eval_keeps;
use crate::deep::{lemma_clear_each_facts, lemma_rebuilt_facts};
use crate::engine::{declared, eval_strata, invalidate, lemma_strata_fit, prepared, ran, stale_readers, EngineV};
use crate::evaluate::{eval_stratum_of, indices_of, is_temp, temp_name};
use crate::folds::{all_foldable, folds_of, lowered_program};
use crate::follow::stated_underived;
use crate::frame::{
    heads_in, lemma_all_finite, lemma_declare_touches, lemma_here_finite, lemma_invalidate_touches, lemma_pass_touches,
    lemma_passes_touches, lemma_step_touches, lemma_strata_touches, lemma_stratum_touches, lemma_touches_trans, same_facts, writes_in,
};
use crate::laid::is_written;
use crate::lexer::{is_lower, is_upper, next_token, tokens, tokens_from, TokV};
use crate::model::{distinct_names, facts, lemma_extends_holds};
use crate::parser::{atom, body_from, clause, literal, parsed, program_from, tok_at};
use crate::perfect::{is_model, leveled};
use crate::recompute::{
    body_reads, clear_each, lit_reads, rebuilt, scope_here, scope_pass, scope_passes, scope_step, scoped, stated_in, strata_fit, ScopeV,
};
use crate::refold::stratified_run_gives_folds;
use crate::relation::{AnnV, FactV, KeyV, SupportV};
use crate::rules::{batch_position, batch_start, installed, newly_derived, tiled, uninstalled};
use crate::runs::{
    facts_stated, is_sound, is_stated, lemma_clear_retracts_none, lemma_declare_extends, lemma_head_again, lemma_rebuilt,
    lemma_same_rows, lemma_stated, lemma_stratum_rules,
};
use crate::scope::{anything, lemma_distinct_upheld, reset, rules_listed, run_settles, scope_begun, seeded_store};
use crate::solve::head_values;
use crate::sorted_set::{enumerate, lemma_enumerable};
use crate::store::{holds, rels_settled, rels_wf, store_retract, StoreV};
use crate::stratify::{aggregates, defined, grouped, is_levels, lit_dep, strata_error, strata_exist, strata_of};
use crate::tally::{all_tallied, folds_apart, folds_unstated, is_fold, plainly_named, reads_no_temp};
use crate::upkeep::{any_args, lemma_declare_keeps, lemma_stratum_keeps};

verus! {

/// Every relation that the rules write is on record as derived at some time,
/// and so is every intermediate relation that holds facts.
pub open spec fn accounted(e: EngineV) -> bool {
    &&& e.ever.finite()
    &&& forall|p: Seq<char>| #[trigger] is_written(e.clauses, p) ==> e.ever.contains(p)
    &&& forall|k: KeyV| #[trigger] holds(e.st.rels, k) && is_temp(k.0) ==> e.ever.contains(k.0)
}

/// What rules write is filled by one of them.
proof fn lemma_written_new(cs: Seq<ClauseV>, p: Seq<char>)
    ensures
        is_written(cs, p) <==> newly_derived(cs, 0, p),
{
    if is_written(cs, p) {
        if defined(cs, p) {
            let i = choose|i: int| 0 <= i < cs.len() && !(#[trigger] cs[i]).is_fact && cs[i].head.pred == p;
            assert(0 <= i < cs.len() && !cs[i].is_fact && cs[i].head.pred == p);
        } else {
            let i = choose|i: int| #[trigger] is_fold(cs, i) && p == temp_name(cs[i], i);
            assert(0 <= i < cs.len() && !cs[i].is_fact);
        }
    }
    if newly_derived(cs, 0, p) {
        let i = choose|i: int|
            0 <= i < cs.len() && !(#[trigger] cs[i]).is_fact && (cs[i].head.pred == p || (aggregates(cs[i]) && temp_name(cs[i], i)
                == p));
        if cs[i].head.pred != p {
            assert(is_fold(cs, i));
        }
    }
}

/// The relations that clauses fill are finitely many.
proof fn lemma_new_finite(cs: Seq<ClauseV>, from: int)
    requires
        0 <= from,
    ensures
        Set::new(|p: Seq<char>| newly_derived(cs, from, p)).finite(),
{
    let new = Set::new(|p: Seq<char>| newly_derived(cs, from, p));
    let heads = Seq::new(cs.len(), |i: int| cs[i].head.pred);
    let temps = Seq::new(cs.len(), |i: int| temp_name(cs[i], i));
    vstd::seq_lib::seq_to_set_is_finite(heads);
    vstd::seq_lib::seq_to_set_is_finite(temps);
    let u = heads.to_set().union(temps.to_set());
    assert forall|p: Seq<char>| #[trigger] new.contains(p) implies u.contains(p) by {
        let i = choose|i: int|
            from <= i < cs.len() && !(#[trigger] cs[i]).is_fact && (cs[i].head.pred == p || (aggregates(cs[i]) && temp_name(
                cs[i],
                i,
            ) == p));
        if cs[i].head.pred == p {
            assert(heads[i] == p);
        } else {
            assert(temps[i] == p);
        }
    }
    vstd::set_lib::lemma_set_subset_finite(u, new);
}

/// A change of the clauses from a position on keeps the account, where what
/// the clauses from there on fill is added to it.
proof fn lemma_still_accounted(e: EngineV, f: EngineV, from: int)
    requires
        accounted(e),
        f.st == e.st,
        0 <= from <= e.clauses.len(),
        from <= f.clauses.len(),
        f.clauses.take(from) == e.clauses.take(from),
        f.ever == Set::new(|p: Seq<char>| e.ever.contains(p) || newly_derived(f.clauses, from, p)),
    ensures
        accounted(f),
{
    let new = Set::new(|p: Seq<char>| newly_derived(f.clauses, from, p));
    lemma_new_finite(f.clauses, from);
    assert(f.ever =~= e.ever.union(new));
    assert forall|p: Seq<char>| #[trigger] is_written(f.clauses, p) implies f.ever.contains(p) by {
        lemma_written_new(f.clauses, p);
        let cs = f.clauses;
        let i = choose|i: int|
            0 <= i < cs.len() && !(#[trigger] cs[i]).is_fact && (cs[i].head.pred == p || (aggregates(cs[i]) && temp_name(cs[i], i)
                == p));
        if i < from {
            assert(f.clauses.take(from)[i] == e.clauses.take(from)[i]);
            assert(e.clauses[i] == cs[i]);
            assert(newly_derived(e.clauses, 0, p));
            lemma_written_new(e.clauses, p);
        } else {
            assert(newly_derived(cs, from, p));
        }
    }
    assert forall|k: KeyV| #[trigger] holds(f.st.rels, k) && is_temp(k.0) implies f.ever.contains(k.0) by {
        assert(holds(e.st.rels, k));
    }
}

/// Law: installing a program keeps the account.
pub proof fn installing_accounts(e: EngineV, src: Seq<char>)
    requires
        accounted(e),
        installed(e, src) is Ok,
    ensures
        accounted(installed(e, src)->Ok_0),
{
    let f = installed(e, src)->Ok_0;
    let n = e.clauses.len() as int;
    assert(f.clauses.take(n) =~= e.clauses.take(n));
    lemma_still_accounted(e, f, n);
}

/// Law: uninstalling a program keeps the account, though the rules behind it
/// move up and their intermediate relations get other names.
pub proof fn uninstalling_accounts(e: EngineV, id: Seq<char>)
    requires
        accounted(e),
        tiled(e),
    ensures
        accounted(uninstalled(e, id)),
{
    let u = uninstalled(e, id);
    if let Some(pos) = batch_position(e.batches, id, 0) {
        let end = e.batches[pos].2;
        let start = batch_start(e.batches, pos);
        if start <= end <= e.clauses.len() {
            crate::rules::lemma_position_found(e.batches, id, 0);
            assert(0 <= start);
            assert(u.clauses.take(start) =~= e.clauses.take(start));
            lemma_still_accounted(e, u, start);
        } else {
            assert forall|k: KeyV| #[trigger] holds(u.st.rels, k) && is_temp(k.0) implies u.ever.contains(k.0) by {
                assert(holds(e.st.rels, k));
            }
        }
    }
}

/// Law: declaring or retracting a fact that is not of an intermediate relation
/// keeps the account.
pub proof fn facts_accounted(e: EngineV, k: KeyV, ann: AnnV)
    requires
        accounted(e),
        rels_wf(e.st.rels),
        !is_temp(k.0),
    ensures
        accounted(EngineV { st: declared(e.st, k, ann), ..e }),
        accounted(EngineV { st: store_retract(e.st, k), ..e }),
{
    let f = FactV { ann, supports: seq![SupportV::Base] };
    crate::model::lemma_assert_facts(e.st, k, f);
    crate::feed::lemma_retract_facts(e.st, k);
    assert forall|j: KeyV| #[trigger] holds(declared(e.st, k, ann).rels, j) && is_temp(j.0) implies e.ever.contains(j.0) by {
        assert(holds(e.st.rels, j));
    }
    assert forall|j: KeyV| #[trigger] holds(store_retract(e.st, k).rels, j) && is_temp(j.0) implies e.ever.contains(j.0) by {
        assert(facts(store_retract(e.st, k).rels).contains(j));
        assert(holds(e.st.rels, j));
    }
}

/// No stated fact has an aggregate for an argument.
pub open spec fn plainly_stated(cs: Seq<ClauseV>) -> bool {
    forall|i: int| 0 <= i < cs.len() && (#[trigger] cs[i]).is_fact ==> !aggregates(cs[i])
}

/// The relations that are on record or are no intermediate ones.
spec fn recorded(e: EngineV) -> Set<Seq<char>> {
    Set::new(|p: Seq<char>| !is_temp(p) || e.ever.contains(p))
}

proof fn lemma_writes_recorded(e: EngineV)
    requires
        accounted(e),
        folds_apart(e.clauses),
        plainly_stated(e.clauses),
    ensures
        heads_in(e.clauses, recorded(e)),
        writes_in(e.clauses, recorded(e)),
{
    let cs = e.clauses;
    assert(plainly_named(cs));
    assert forall|i: int| 0 <= i < cs.len() && aggregates(cs[i]) implies recorded(e).contains(#[trigger] temp_name(cs[i], i)) by {
        assert(!cs[i].is_fact);
        assert(is_fold(cs, i));
        assert(is_written(cs, temp_name(cs[i], i)));
    }
}

/// Law: a run keeps the account.
pub proof fn running_accounts(e: EngineV)
    requires
        accounted(e),
        is_sound(e.st),
        folds_apart(e.clauses),
        plainly_stated(e.clauses),
        e.clauses.len() <= usize::MAX,
    ensures
        accounted(ran(e).0),
{
    let cs = e.clauses;
    let strata = strata_of(cs);
    let t = recorded(e);
    let st1 = if e.dirty {
        rebuilt(e.st, cs, strata, e.ever)
    } else {
        e.st
    };
    let p = prepared(e).st;
    let f = eval_strata(p, e.now, cs, strata, 0).st;
    let inv = invalidate(f, e.now, cs, strata, e.mark, strata.len() + 2).st;
    strata_exist(cs);
    lemma_strata_fit(cs, strata);
    lemma_all_finite(e, strata);
    if e.dirty {
        lemma_rebuilt_facts(e.st, cs, strata, e.ever);
        lemma_rebuilt(e.st, cs, strata, e.ever);
    }
    lemma_writes_recorded(e);
    lemma_declare_touches(st1, cs, 0, t);
    lemma_strata_touches(p, e.now, cs, strata, 0, t);
    lemma_touches_trans(st1, p, f, t);
    lemma_invalidate_touches(f, e.now, cs, strata, e.mark, strata.len() + 2, t);
    lemma_touches_trans(st1, f, inv, t);
    assert forall|k: KeyV| #[trigger] holds(ran(e).0.st.rels, k) && is_temp(k.0) implies e.ever.contains(k.0) by {
        if !e.ever.contains(k.0) {
            assert(same_facts(st1.rels, inv.rels, k.0));
            lemma_same_rows(st1.rels, inv.rels, k);
            lemma_same_rows(inv.rels, rels_settled(inv.rels), k);
            assert(holds(st1.rels, k));
            assert(holds(e.st.rels, k));
        }
    }
}

/// Law: a run from scratch starts with no fact of a derived predicate or of an
/// intermediate relation, whatever the program was before.
pub proof fn rebuilt_starts_clean(e: EngineV)
    requires
        accounted(e),
        is_sound(e.st),
        e.dirty,
        folds_apart(e.clauses),
        stated_underived(e.clauses),
        e.clauses.len() <= usize::MAX,
    ensures
        forall|k: KeyV| #[trigger] holds(prepared(e).st.rels, k) ==> !defined(e.clauses, k.0) && !is_temp(k.0),
{
    let cs = e.clauses;
    let strata = strata_of(cs);
    let t = Set::new(|p: Seq<char>| !defined(cs, p) && !is_temp(p));
    let st1 = rebuilt(e.st, cs, strata, e.ever);
    let p = prepared(e).st;
    strata_exist(cs);
    lemma_strata_fit(cs, strata);
    lemma_all_finite(e, strata);
    lemma_rebuilt_facts(e.st, cs, strata, e.ever);
    lemma_rebuilt(e.st, cs, strata, e.ever);
    assert(plainly_named(cs));
    lemma_declare_touches(st1, cs, 0, t);
    assert forall|k: KeyV| #[trigger] holds(p.rels, k) implies !defined(cs, k.0) && !is_temp(k.0) by {
        if !t.contains(k.0) {
            assert(same_facts(st1.rels, p.rels, k.0));
            lemma_same_rows(st1.rels, p.rels, k);
            assert(holds(st1.rels, k));
            assert(holds(e.st.rels, k));
            if defined(cs, k.0) {
                assert(is_written(cs, k.0));
            }
        }
    }
}

/// Law: a run after a change of the program ends with the least solutions of
/// all its rules over the facts that are stated then and the folds, and the
/// folds of those solutions, whatever programs were installed and uninstalled
/// before: no aggregate survives its input.
pub proof fn changed_program_gives_folds(e: EngineV)
    requires
        accounted(e),
        is_sound(e.st),
        e.dirty,
        e.clauses.len() <= usize::MAX,
        folds_apart(e.clauses),
        stated_underived(e.clauses),
        all_foldable(prepared(e).st.names, e.clauses),
        run_settles(e),
        ran(e).0.st.names.len() < usize::MAX,
    ensures
        ({
            let r = ran(e).0.st;
            let all = facts(r.rels);
            &&& is_model(
                r.names,
                e.now,
                lowered_program(e.clauses),
                facts(prepared(e).st.rels).union(folds_of(e.clauses, all)),
                all,
            )
            &&& all_tallied(r.rels, e.clauses)
        }),
{
    rebuilt_starts_clean(e);
    stratified_run_gives_folds(e);
}

// --------------------------------------------------------------- stated facts

/// A stated fact stays so with more names, where the facts of its predicate
/// stay.
proof fn lemma_stated_later(a: StoreV, b: StoreV, c: ClauseV)
    requires
        is_stated(a, c),
        a.names.is_prefix_of(b.names),
        b.names.no_duplicates(),
        b.names.len() < usize::MAX,
        forall|k: KeyV| k.0 == c.head.pred && #[trigger] holds(a.rels, k) ==> holds(b.rels, k),
    ensures
        is_stated(b, c),
{
    lemma_head_again(a.names, b.names, c.head.args, 0, Map::empty(), Seq::empty());
}

/// A store in which the facts of a program are stated, with distinct names.
spec fn keeps_stated(st: StoreV, cs: Seq<ClauseV>) -> bool {
    rels_wf(st.rels) && st.names.no_duplicates() && facts_stated(st, cs)
}

proof fn lemma_eval_stated(st: StoreV, now: i64, cs: Seq<ClauseV>, idx: Seq<int>)
    requires
        keeps_stated(st, cs),
        folds_unstated(cs),
        rules_listed(cs, idx),
        eval_stratum_of(st, now, cs, idx).st.names.len() < usize::MAX,
    ensures
        keeps_stated(eval_stratum_of(st, now, cs, idx).st, cs),
{
    let e = eval_stratum_of(st, now, cs, idx).st;
    assert(indices_of(idx, cs.len() as int));
    assert(writes_in(cs, anything()));
    lemma_stratum_touches(st, now, cs, idx, anything());
    lemma_distinct_upheld();
    assert(distinct_names()(st));
    lemma_stratum_keeps(distinct_names(), st, now, cs, idx);
    assert(distinct_names()(e));
    assert forall|i: int| 0 <= i < cs.len() && (#[trigger] cs[i]).is_fact implies is_stated(e, cs[i]) by {
        assert forall|k: KeyV| k.0 == cs[i].head.pred && #[trigger] holds(st.rels, k) implies holds(e.rels, k) by {
            lemma_eval_keeps(st, now, cs, idx, k);
        }
        lemma_stated_later(st, e, cs[i]);
    }
}

proof fn lemma_strata_stated(st: StoreV, now: i64, cs: Seq<ClauseV>, strata: Seq<Seq<int>>, s: int)
    requires
        keeps_stated(st, cs),
        folds_unstated(cs),
        strata_listed(cs, strata),
        eval_strata(st, now, cs, strata, s).st.names.len() < usize::MAX,
    ensures
        keeps_stated(eval_strata(st, now, cs, strata, s).st, cs),
    decreases strata.len() - s,
{
    if 0 <= s < strata.len() {
        let e = eval_stratum_of(st, now, cs, strata[s]).st;
        assert(rules_listed(cs, strata[s]));
        assert(indices_of(strata[s], cs.len() as int));
        assert(writes_in(cs, anything()));
        lemma_listed_fit(cs, strata);
        lemma_stratum_touches(st, now, cs, strata[s], anything());
        lemma_strata_touches(e, now, cs, strata, s + 1, anything());
        lemma_eval_stated(st, now, cs, strata[s]);
        lemma_strata_stated(e, now, cs, strata, s + 1);
    }
}

/// Strata of rules.
spec fn strata_listed(cs: Seq<ClauseV>, strata: Seq<Seq<int>>) -> bool {
    forall|s: int| 0 <= s < strata.len() ==> rules_listed(cs, #[trigger] strata[s])
}

proof fn lemma_listed_fit(cs: Seq<ClauseV>, strata: Seq<Seq<int>>)
    requires
        strata_listed(cs, strata),
    ensures
        strata_fit(strata, cs.len() as int),
{
    assert forall|s: int| 0 <= s < strata.len() implies indices_of(#[trigger] strata[s], cs.len() as int) by {
        assert(rules_listed(cs, strata[s]));
    }
}

/// What a step of a recomputation clears is stated again.
proof fn lemma_reset_stated(sc: ScopeV, cs: Seq<ClauseV>, stratum: Seq<int>)
    requires
        keeps_stated(sc.st, cs),
        rules_listed(cs, stratum),
        reset(sc, cs, scope_here(cs, stratum, sc.to_clear)).names.len() < usize::MAX,
    ensures
        keeps_stated(reset(sc, cs, scope_here(cs, stratum, sc.to_clear)), cs),
        sc.st.names.is_prefix_of(reset(sc, cs, scope_here(cs, stratum, sc.to_clear)).names),
{
    let here = scope_here(cs, stratum, sc.to_clear);
    let ps = enumerate::<String>(here);
    let cleared = clear_each(sc.st, ps);
    let seeded = seeded_store(sc, cs, here);
    let stated = stated_in(cs, here);
    let r = reset(sc, cs, here);
    lemma_here_finite(cs, stratum, sc.to_clear);
    lemma_enumerable::<String>(here);
    lemma_clear_retracts_none(sc.st, ps);
    lemma_clear_each_facts(sc.st, ps);
    lemma_cleared_names(sc.st, ps);
    assert(rels_wf(seeded.rels)) by {
        assert forall|n: Seq<char>| #[trigger] seeded.rels.contains_key(n) implies crate::relation::rel_wf(seeded.rels[n]) by {
            assert(cleared.rels.contains_key(n));
        }
    }
    lemma_declare_extends(seeded, stated, 0);
    lemma_distinct_upheld();
    assert(distinct_names()(seeded));
    lemma_declare_keeps(distinct_names(), any_args(), seeded, stated, 0);
    assert(distinct_names()(r));
    crate::solve::lemma_store_extends_self(r);
    assert forall|i: int| 0 <= i < cs.len() && (#[trigger] cs[i]).is_fact implies is_stated(r, cs[i]) by {
        if here.contains(cs[i].head.pred) {
            assert(stated[i].is_fact && stated[i].head == cs[i].head);
            lemma_stated(seeded, stated, 0, i, r);
            assert(is_stated(r, stated[i]));
        } else {
            assert forall|k: KeyV| k.0 == cs[i].head.pred && #[trigger] holds(sc.st.rels, k) implies holds(r.rels, k) by {
                assert(!ps.contains(k.0)) by {
                    assert(ps.to_set().contains(k.0) <==> here.contains(k.0));
                }
                assert(holds(cleared.rels, k));
                lemma_same_rows(cleared.rels, seeded.rels, k);
                lemma_extends_holds(seeded, r, k);
            }
            lemma_stated_later(sc.st, r, cs[i]);
        }
    }
}

proof fn lemma_cleared_names(st: StoreV, ps: Seq<Seq<char>>)
    ensures
        clear_each(st, ps).names == st.names,
    decreases ps.len(),
{
    if ps.len() > 0 {
        lemma_cleared_names(crate::store::store_clear(st, ps[0]), ps.drop_first());
    }
}

proof fn lemma_step_stated(sc: ScopeV, now: i64, cs: Seq<ClauseV>, strata: Seq<Seq<int>>, stratum: Seq<int>)
    requires
        keeps_stated(sc.st, cs),
        folds_unstated(cs),
        rules_listed(cs, stratum),
        scope_step(sc, now, cs, strata, stratum).st.names.len() < usize::MAX,
    ensures
        keeps_stated(scope_step(sc, now, cs, strata, stratum).st, cs),
{
    let here = scope_here(cs, stratum, sc.to_clear);
    if here != Set::<Seq<char>>::empty() {
        let r = reset(sc, cs, here);
        let seeded = seeded_store(sc, cs, here);
        let cleared = clear_each(sc.st, enumerate::<String>(here));
        lemma_clear_retracts_none(sc.st, enumerate::<String>(here));
        assert(rels_wf(seeded.rels)) by {
            assert forall|n: Seq<char>| #[trigger] seeded.rels.contains_key(n) implies crate::relation::rel_wf(seeded.rels[n]) by {
                assert(cleared.rels.contains_key(n));
            }
        }
        lemma_declare_extends(seeded, stated_in(cs, here), 0);
        assert(indices_of(stratum, cs.len() as int));
        assert(writes_in(cs, anything()));
        lemma_stratum_touches(r, now, cs, stratum, anything());
        lemma_reset_stated(sc, cs, stratum);
        lemma_eval_stated(r, now, cs, stratum);
    }
}

proof fn lemma_pass_stated(sc: ScopeV, now: i64, cs: Seq<ClauseV>, strata: Seq<Seq<int>>, s: int)
    requires
        keeps_stated(sc.st, cs),
        folds_unstated(cs),
        strata_listed(cs, strata),
        scope_pass(sc, now, cs, strata, s).st.names.len() < usize::MAX,
    ensures
        keeps_stated(scope_pass(sc, now, cs, strata, s).st, cs),
    decreases strata.len() - s,
{
    if 0 <= s < strata.len() {
        let next = scope_step(sc, now, cs, strata, strata[s]);
        assert(rules_listed(cs, strata[s]));
        lemma_listed_fit(cs, strata);
        assert(indices_of(strata[s], cs.len() as int));
        assert(writes_in(cs, anything()));
        lemma_step_touches(sc, now, cs, strata, strata[s], anything());
        lemma_pass_touches(next, now, cs, strata, s + 1, anything());
        lemma_step_stated(sc, now, cs, strata, strata[s]);
        lemma_pass_stated(next, now, cs, strata, s + 1);
    }
}

proof fn lemma_passes_stated(sc: ScopeV, now: i64, cs: Seq<ClauseV>, strata: Seq<Seq<int>>, n: nat)
    requires
        keeps_stated(sc.st, cs),
        folds_unstated(cs),
        strata_listed(cs, strata),
        scope_passes(sc, now, cs, strata, n).st.names.len() < usize::MAX,
    ensures
        keeps_stated(scope_passes(sc, now, cs, strata, n).st, cs),
    decreases n,
{
    if !(n == 0 || sc.to_clear == Set::<Seq<char>>::empty()) {
        let next = scope_pass(sc, now, cs, strata, 0);
        lemma_listed_fit(cs, strata);
        assert(writes_in(cs, anything()));
        lemma_pass_touches(sc, now, cs, strata, 0, anything());
        lemma_passes_touches(next, now, cs, strata, (n - 1) as nat, anything());
        lemma_pass_stated(sc, now, cs, strata, 0);
        lemma_passes_stated(next, now, cs, strata, (n - 1) as nat);
    }
}

proof fn lemma_invalidate_stated(st: StoreV, now: i64, cs: Seq<ClauseV>, strata: Seq<Seq<int>>, mark: int, n: nat)
    requires
        keeps_stated(st, cs),
        folds_unstated(cs),
        strata_listed(cs, strata),
        invalidate(st, now, cs, strata, mark, n).st.names.len() < usize::MAX,
    ensures
        keeps_stated(invalidate(st, now, cs, strata, mark, n).st, cs),
    decreases n,
{
    let extra = stale_readers(st, cs, mark);
    if !(n == 0 || (st.retracted == Set::<Seq<char>>::empty() && extra == Set::<Seq<char>>::empty())) {
        let sc = scope_begun(st, cs, strata, extra);
        let r = scoped(st, now, cs, strata, extra).st;
        lemma_listed_fit(cs, strata);
        assert(writes_in(cs, anything()));
        assert(r == scope_passes(sc, now, cs, strata, strata.len() + 2).st);
        lemma_passes_touches(sc, now, cs, strata, strata.len() + 2, anything());
        lemma_invalidate_touches(r, now, cs, strata, mark, (n - 1) as nat, anything());
        assert(keeps_stated(sc.st, cs)) by {
            assert forall|i: int| 0 <= i < cs.len() && (#[trigger] cs[i]).is_fact implies is_stated(sc.st, cs[i]) by {
                assert(is_stated(st, cs[i]));
            }
        }
        lemma_passes_stated(sc, now, cs, strata, strata.len() + 2);
        lemma_invalidate_stated(r, now, cs, strata, mark, (n - 1) as nat);
    }
}

/// Law: after a run the facts that the program states are stored, those of
/// derived predicates included, whatever the run recomputes. None is stated of
/// an aggregated predicate.
pub proof fn stated_facts_kept(e: EngineV)
    requires
        is_sound(e.st),
        e.clauses.len() <= usize::MAX,
        strata_error(e.clauses) is None,
        folds_unstated(e.clauses),
        ran(e).0.st.names.len() < usize::MAX,
    ensures
        facts_stated(ran(e).0.st, e.clauses),
{
    let cs = e.clauses;
    let strata = strata_of(cs);
    let st1 = if e.dirty {
        rebuilt(e.st, cs, strata, e.ever)
    } else {
        e.st
    };
    let p = prepared(e).st;
    let f = eval_strata(p, e.now, cs, strata, 0).st;
    let inv = invalidate(f, e.now, cs, strata, e.mark, strata.len() + 2).st;
    let r = ran(e).0.st;
    strata_exist(cs);
    lemma_strata_fit(cs, strata);
    let l = choose|l: Map<Seq<char>, nat>| #[trigger] is_levels(cs, l) && grouped(cs, l, strata);
    assert(leveled(cs, l, strata));
    assert(strata_listed(cs, strata)) by {
        assert forall|s: int| 0 <= s < strata.len() implies rules_listed(cs, #[trigger] strata[s]) by {
            lemma_stratum_rules(cs, l, strata, s);
        }
    }
    if e.dirty {
        lemma_rebuilt(e.st, cs, strata, e.ever);
    }
    lemma_declare_extends(st1, cs, 0);
    lemma_distinct_upheld();
    assert(distinct_names()(st1));
    lemma_declare_keeps(distinct_names(), any_args(), st1, cs, 0);
    assert(distinct_names()(p));
    assert(writes_in(cs, anything()));
    lemma_strata_touches(p, e.now, cs, strata, 0, anything());
    lemma_invalidate_touches(f, e.now, cs, strata, e.mark, strata.len() + 2, anything());
    crate::solve::lemma_store_extends_self(p);
    assert forall|i: int| 0 <= i < cs.len() && (#[trigger] cs[i]).is_fact implies is_stated(p, cs[i]) by {
        lemma_stated(st1, cs, 0, i, p);
    }
    lemma_strata_stated(p, e.now, cs, strata, 0);
    lemma_invalidate_stated(f, e.now, cs, strata, e.mark, strata.len() + 2);
    assert forall|i: int| 0 <= i < cs.len() && (#[trigger] cs[i]).is_fact implies is_stated(r, cs[i]) by {
        assert(is_stated(inv, cs[i]));
        if let Some(args) = head_values(inv.names, cs[i].head.args, Map::empty()).1 {
            lemma_same_rows(inv.rels, rels_settled(inv.rels), (cs[i].head.pred, args));
        }
    }
}

// ---------------------------------------------------------------------- names

/// A predicate name that a text can hold: it begins with no underscore.
pub open spec fn is_pred_name(p: Seq<char>) -> bool {
    p.len() > 0 && p[0] != '_'
}

proof fn lemma_no_temp_name(p: Seq<char>)
    requires
        is_pred_name(p),
    ensures
        !is_temp(p),
{
    reveal_strlit("__agg:");
    if is_temp(p) {
        assert(p.take("__agg:"@.len() as int)[0] == p[0]);
        assert("__agg:"@[0] == '_');
    }
}

/// The words among tokens can be names of predicates.
spec fn words_plain(ts: Seq<TokV>) -> bool {
    forall|i: int| 0 <= i < ts.len() ==> (match #[trigger] ts[i] {
        TokV::Word(w) => is_pred_name(w),
        _ => true,
    })
}

proof fn lemma_tokens_plain(s: Seq<char>, i: int, acc: Seq<TokV>)
    requires
        words_plain(acc),
        tokens_from(s, i, acc) is Ok,
    ensures
        words_plain(tokens_from(s, i, acc)->Ok_0),
    decreases s.len() - i,
{
    if 0 <= i < s.len() {
        if let Ok(t) = next_token(s, i) {
            if i < t.1 <= s.len() {
                if let Some(k) = t.0 {
                    if is_upper(s[i]) || is_lower(s[i]) || s[i] == '_' {
                        assert(s.subrange(i, t.1)[0] == s[i]);
                    }
                    lemma_tokens_plain(s, t.1, acc.push(k));
                } else {
                    lemma_tokens_plain(s, t.1, acc);
                }
            }
        }
    }
}

/// The predicate of a literal can be held by a text.
spec fn lit_plain(l: LitV) -> bool {
    match lit_dep(l) {
        Some(d) => is_pred_name(d.0),
        None => true,
    }
}

spec fn body_plain(b: Seq<LitV>) -> bool {
    forall|j: int| 0 <= j < b.len() ==> lit_plain(#[trigger] b[j])
}

spec fn clause_plain(c: ClauseV) -> bool {
    is_pred_name(c.head.pred) && body_plain(c.body)
}

proof fn lemma_atom_plain(ts: Seq<TokV>, i: int, head: bool)
    requires
        words_plain(ts),
        atom(ts, i, head) is Ok,
    ensures
        is_pred_name(atom(ts, i, head)->Ok_0.0.pred),
{
    assert(0 <= i < ts.len());
}

proof fn lemma_literal_plain(ts: Seq<TokV>, i: int)
    requires
        words_plain(ts),
        literal(ts, i) is Ok,
    ensures
        lit_plain(literal(ts, i)->Ok_0.0),
{
    match tok_at(ts, i) {
        Some(TokV::Bang) => {
            lemma_atom_plain(ts, i + 1, false);
        },
        Some(TokV::Word(w)) => {
            if atom(ts, i, false) is Ok {
                lemma_atom_plain(ts, i, false);
            }
        },
        _ => {},
    }
}

proof fn lemma_body_plain(ts: Seq<TokV>, i: int, acc: Seq<LitV>)
    requires
        words_plain(ts),
        body_plain(acc),
        body_from(ts, i, acc) is Ok,
    ensures
        body_plain(body_from(ts, i, acc)->Ok_0.0),
    decreases ts.len() - i,
{
    if let Ok(l) = literal(ts, i) {
        lemma_literal_plain(ts, i);
        if l.1 > i && tok_at(ts, l.1) == Some(TokV::Comma) {
            lemma_body_plain(ts, l.1 + 1, acc.push(l.0));
        }
    }
}

proof fn lemma_program_plain(ts: Seq<TokV>, i: int, acc: Seq<ClauseV>)
    requires
        words_plain(ts),
        forall|j: int| 0 <= j < acc.len() ==> clause_plain(#[trigger] acc[j]),
        program_from(ts, i, acc) is Ok,
    ensures
        forall|j: int| 0 <= j < program_from(ts, i, acc)->Ok_0.len() ==> clause_plain(#[trigger] program_from(ts, i, acc)->Ok_0[j]),
    decreases ts.len() - i,
{
    if 0 <= i < ts.len() {
        if let Ok(c) = clause(ts, i) {
            lemma_atom_plain(ts, i, true);
            let a = atom(ts, i, true)->Ok_0;
            if tok_at(ts, a.1) == Some(TokV::If) {
                lemma_body_plain(ts, a.1 + 1, Seq::empty());
            }
            assert(clause_plain(c.0));
            if i < c.1 <= ts.len() {
                lemma_program_plain(ts, c.1, acc.push(c.0));
            }
        }
    }
}

/// Law: no text of a program speaks of intermediate relations.
pub proof fn texts_plainly_named(src: Seq<char>)
    requires
        parsed(src) is Ok,
    ensures
        plainly_named(parsed(src)->Ok_0),
{
    let ts = tokens(src)->Ok_0;
    let cs = parsed(src)->Ok_0;
    lemma_tokens_plain(src, 0, Seq::empty());
    lemma_program_plain(ts, 0, Seq::empty());
    assert forall|i: int| 0 <= i < cs.len() implies !is_temp((#[trigger] cs[i]).head.pred) && reads_no_temp(cs[i]) by {
        assert(clause_plain(cs[i]));
        lemma_no_temp_name(cs[i].head.pred);
        assert forall|p: Seq<char>| #[trigger] body_reads(cs[i], p) implies !is_temp(p) by {
            let j = choose|j: int| 0 <= j < cs[i].body.len() && lit_reads(#[trigger] cs[i].body[j], p);
            assert(lit_plain(cs[i].body[j]));
            lemma_no_temp_name(p);
        }
    }
}

/// Law: installing and uninstalling keep every clause of an engine from
/// speaking of intermediate relations.
pub proof fn programs_plainly_named(e: EngineV, src: Seq<char>, id: Seq<char>)
    requires
        plainly_named(e.clauses),
        tiled(e),
    ensures
        installed(e, src) is Ok ==> plainly_named(installed(e, src)->Ok_0.clauses),
        plainly_named(uninstalled(e, id).clauses),
{
    if installed(e, src) is Ok {
        texts_plainly_named(src);
        let cs = installed(e, src)->Ok_0.clauses;
        let new = parsed(src)->Ok_0;
        assert forall|i: int| 0 <= i < cs.len() implies !is_temp((#[trigger] cs[i]).head.pred) && reads_no_temp(cs[i]) by {
            if i < e.clauses.len() {
                assert(cs[i] == e.clauses[i]);
            } else {
                assert(cs[i] == new[i - e.clauses.len()]);
            }
        }
    }
    if let Some(pos) = batch_position(e.batches, id, 0) {
        let end = e.batches[pos].2;
        let start = batch_start(e.batches, pos);
        crate::rules::lemma_position_found(e.batches, id, 0);
        if start <= end <= e.clauses.len() {
            let cs = uninstalled(e, id).clauses;
            assert forall|i: int| 0 <= i < cs.len() implies !is_temp((#[trigger] cs[i]).head.pred) && reads_no_temp(cs[i]) by {
                if i < start {
                    assert(cs[i] == e.clauses[i]);
                } else {
                    assert(cs[i] == e.clauses[i - start + end]);
                }
            }
        }
    }
}

} // verus!

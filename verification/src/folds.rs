//! Models with aggregates: evaluated from scratch, a program with aggregating
//! rules gives the least solutions of all its rules over the given facts and
//! the folds, and the folds of those solutions.

use vstd::prelude::*;
use crate::ast::{ClauseV, LitV};
use crate::engine::{eval_strata, invalidate, prepared, ran, EngineV};
use crate::env::Bindings;
use crate::evaluate::{
    is_temp, agg_fns, eval_stratum_of, evaluated, fixpoint, fixpoint_extends, fold_clause, fold_group, fold_groups, fold_stratum,
    fold_values, group_len, group_rows, groups, has_atom, in_group, matching, pending_delta, prefix_pattern, retract_others,
    row_keys, stratum_rules, temp_name,
};
use crate::exact::{atoms_covered, covers, lemma_body_moves, negated_covered};
use crate::feed::lemma_retract_facts;
use crate::frame::{appends, lemma_fixpoint_touches, lemma_fold_stratum_touches, lemma_temp_prefix, same_facts, spares};
use crate::model::{
    all_known, all_plain, body_true, can_fire, closed_under, constants_known, distinct_names, facts, head_fact, is_least, is_plain, is_safe, leads_into,
    lemma_agrees_before, lemma_constants_known, lemma_fixpoint_least, lemma_known_grows, lit_constants_known, lit_true,
};
use crate::perfect::{in_run, is_model, lemma_asserted, lemma_edge_at, lemma_reads_below, leveled, program_closed, settled, strata_settle};
use crate::recompute::{body_reads, lit_reads, rebuilt};
use crate::relation::{FactV, KeyV};
use crate::restore::{known_key, known_value};
use crate::solve::{lemma_prefix_trans, store_extends};
use crate::runs::{
    all_positive, is_sound, lemma_declare_grows, lemma_declared, lemma_groups_finite, lemma_not_stale, lemma_rebuilt, lemma_settled,
};
use crate::scope::{lemma_distinct_upheld, lemma_orderly_upheld, orderly};
use crate::sorted_set::{enumerate, lemma_enumerable, Item};
use crate::store::{holds, rels_settled, rels_wf, store_assert, store_retract, RelsV, StoreV};
use crate::stratify::{
    aggregate_error, aggregated, aggregates, body_edges, crossing, defined, edges_of, edges_upto, grouped, is_levels, is_path,
    lemma_linked_self, lemma_linked_trans, linked, lit_dep, reads, strata_exist, strata_of, together,
};
use crate::tally::{
    aggregates_begin, all_tallied, folds_apart, groups_of, spans_groups, is_fold, is_tallied, is_tally, lemma_apart, lemma_fold_clause_touches, lemma_fold_own, lemma_matching, lemma_no_aggregate_error,
    lemma_no_body_error, lemma_only_rule, lemma_reads_not_own, lemma_rule_list, lemma_strata_tallied, lemma_tallied_same, rule_list,
    solutions, tally, written_at,
};
use crate::upkeep::{lemma_strata_keeps, lemma_stratum_keeps, outlasts};
use crate::value::Value;

verus! {

/// A rule that a program with aggregates may have: it is safe as it is
/// evaluated, and its comparisons name known symbols.
pub open spec fn is_foldable(names: Seq<Seq<char>>, c: ClauseV, ci: int) -> bool {
    is_safe(evaluated(c, ci)) && constants_known(names, c)
}

pub open spec fn all_foldable(names: Seq<Seq<char>>, cs: Seq<ClauseV>) -> bool {
    forall|i: int| 0 <= i < cs.len() && !(#[trigger] cs[i]).is_fact ==> is_foldable(names, cs[i], i)
}

/// The relations that are written at a level or above it.
pub open spec fn written(cs: Seq<ClauseV>, l: Map<Seq<char>, nat>, s: int) -> Set<Seq<char>> {
    Set::new(|p: Seq<char>| exists|v: int| #[trigger] written_at(cs, l, p, v) && v >= s)
}

/// A rule as it is evaluated is the one at a position, of a level.
pub open spec fn is_evaluated_at(cs: Seq<ClauseV>, l: Map<Seq<char>, nat>, s: int, c: ClauseV, i: int) -> bool {
    0 <= i < cs.len() && !cs[i].is_fact && l[cs[i].head.pred] == s && c == evaluated(cs[i], i)
}

/// What a rule reads is not written above its level, what it negates is
/// written below, and it reads no aggregated predicate of its level.
proof fn lemma_reads_written(cs: Seq<ClauseV>, l: Map<Seq<char>, nat>, i: int, j: int)
    requires
        folds_apart(cs),
        is_levels(cs, l),
        0 <= i < cs.len(),
        !cs[i].is_fact,
        0 <= j < cs[i].body.len(),
    ensures
        l.contains_key(cs[i].head.pred),
        match cs[i].body[j] {
            LitV::Pos(a) => !written(cs, l, l[cs[i].head.pred] as int + 1).contains(a.pred),
            LitV::Neg(a) => !written(cs, l, l[cs[i].head.pred] as int).contains(a.pred),
            _ => true,
        },
{
    lemma_reads_below(cs, l, i, j);
    if let Some(d) = lit_dep(cs[i].body[j]) {
        assert(lit_reads(cs[i].body[j], d.0));
        assert(body_reads(cs[i], d.0));
        assert(!is_temp(d.0));
        assert forall|v: int| #[trigger] written_at(cs, l, d.0, v) implies l.contains_key(d.0) && l[d.0] == v by {
            if !(l.contains_key(d.0) && l[d.0] == v) {
                let y = choose|y: int| #[trigger] is_fold(cs, y) && d.0 == temp_name(cs[y], y) && l[cs[y].head.pred] == v;
                lemma_temp_prefix(cs[y], y);
            }
        }
    }
}

/// The rules of a stratum, as they are evaluated.
pub proof fn lemma_stratum_evaluated(cs: Seq<ClauseV>, l: Map<Seq<char>, nat>, strata: Seq<Seq<int>>, s: int, names: Seq<Seq<char>>)
    requires
        folds_apart(cs),
        leveled(cs, l, strata),
        all_foldable(names, cs),
        0 <= s < strata.len(),
    ensures
        forall|j: int|
            0 <= j < stratum_rules(cs, strata[s]).len() ==> is_evaluated_at(
                cs,
                l,
                s,
                #[trigger] stratum_rules(cs, strata[s])[j],
                strata[s][j],
            ),
        forall|i: int|
            0 <= i < cs.len() && !(#[trigger] cs[i]).is_fact && l[cs[i].head.pred] == s ==> exists|j: int|
                0 <= j < stratum_rules(cs, strata[s]).len() && #[trigger] stratum_rules(cs, strata[s])[j] == evaluated(cs[i], i),
        all_plain(names, stratum_rules(cs, strata[s]), written(cs, l, s)),
{
    let idx = strata[s];
    let rules = stratum_rules(cs, idx);
    lemma_rule_list(cs, l, strata, s);
    assert forall|j: int| 0 <= j < rules.len() implies is_evaluated_at(cs, l, s, #[trigger] rules[j], idx[j]) by {
        assert(idx.contains(idx[j]));
        assert(0 <= idx[j] < cs.len());
    }
    assert forall|i: int| 0 <= i < cs.len() && !(#[trigger] cs[i]).is_fact && l[cs[i].head.pred] == s implies exists|j: int|
        0 <= j < rules.len() && #[trigger] rules[j] == evaluated(cs[i], i) by {
        assert(idx.contains(i));
        let j = choose|j: int| 0 <= j < idx.len() && idx[j] == i;
        assert(rules[j] == evaluated(cs[i], i));
    }
    assert forall|j: int| 0 <= j < rules.len() implies is_plain(names, #[trigger] rules[j], written(cs, l, s)) by {
        assert(is_evaluated_at(cs, l, s, rules[j], idx[j]));
        lemma_evaluated_plain(cs, l, s, names, idx[j]);
    }
}

/// A rule as it is evaluated is plain at its level.
proof fn lemma_evaluated_plain(cs: Seq<ClauseV>, l: Map<Seq<char>, nat>, s: int, names: Seq<Seq<char>>, i: int)
    requires
        folds_apart(cs),
        is_levels(cs, l),
        all_foldable(names, cs),
        0 <= i < cs.len(),
        !cs[i].is_fact,
        l[cs[i].head.pred] == s,
    ensures
        is_plain(names, evaluated(cs[i], i), written(cs, l, s)),
{
    let c = evaluated(cs[i], i);
    assert(is_foldable(names, cs[i], i));
    assert(c.body == cs[i].body);
    assert(defined(cs, cs[i].head.pred));
    assert(l.contains_key(cs[i].head.pred));
    assert(constants_known(names, c)) by {
        assert forall|x: int| 0 <= x < c.body.len() implies lit_constants_known(names, #[trigger] c.body[x]) by {
            assert(lit_constants_known(names, cs[i].body[x]));
        }
    }
    assert(written(cs, l, s).contains(c.head.pred)) by {
        if aggregates(cs[i]) {
            assert(is_fold(cs, i));
        }
        assert(written_at(cs, l, c.head.pred, s));
    }
    assert forall|x: int| 0 <= x < c.body.len() implies (match #[trigger] c.body[x] {
        LitV::Neg(a) => !written(cs, l, s).contains(a.pred),
        _ => true,
    }) by {
        assert(c.body[x] == cs[i].body[x]);
        lemma_reads_written(cs, l, i, x);
    }
}

// -------------------------------------------------------------------- folding

/// Folding groups that have no facts yet retracts nothing.
proof fn lemma_fold_groups_fresh(st: StoreV, c: ClauseV, temp: Seq<char>, keys: Seq<Seq<Value>>, gs: Seq<Seq<Value>>)
    requires
        rels_wf(st.rels),
        spans_groups(st.rels, c),
        gs.no_duplicates(),
        forall|i: int| 0 <= i < gs.len() ==> (#[trigger] gs[i]).len() == group_len(c.head.args),
        forall|key: Seq<Value>| #[trigger]
            holds(st.rels, (c.head.pred, key)) ==> !gs.contains(key.take(group_len(c.head.args) as int)),
    ensures
        fold_groups(st, c, temp, keys, gs).st.retracted == st.retracted,
    decreases gs.len(),
{
    if gs.len() > 0 {
        let p = c.head.pred;
        let gl = group_len(c.head.args) as int;
        let g = gs[0];
        let d = gs.drop_first();
        let rows = group_rows(keys, gl, g);
        let m = fold_group(st, c, temp, g, rows).st;
        let fns = agg_fns(c.head.args);
        let olds = matching(st.rels, p, prefix_pattern(g, fns.len()));
        let out = g + fold_values(fns, rows);
        assert(olds.len() == 0) by {
            if olds.len() > 0 {
                assert(olds.contains(olds[0]));
                lemma_matching(st.rels, c, g, olds[0]);
                assert(gs.contains(g));
            }
        }
        assert(retract_others(st, p, olds, out).st == st);
        crate::tally::fold_replaces_group(st, c, temp, g, rows);
        assert(out.take(gl) =~= g);
        assert forall|i: int| 0 <= i < d.len() implies (#[trigger] d[i]).len() == gl by {
            assert(d[i] == gs[i + 1]);
        }
        assert forall|key: Seq<Value>| #[trigger] holds(m.rels, (p, key)) implies !d.contains(key.take(gl)) by {
            if d.contains(key.take(gl)) {
                let y = choose|y: int| 0 <= y < d.len() && d[y] == key.take(gl);
                assert(gs[y + 1] == d[y]);
                if key == out {
                    assert(gs[0] == gs[y + 1]);
                } else {
                    assert(holds(st.rels, (p, key)));
                    assert(gs.contains(key.take(gl)));
                }
            }
        }
        lemma_fold_groups_fresh(m, c, temp, keys, d);
    }
}

/// No fact is stored of an aggregated predicate of the level or above.
pub open spec fn is_fresh(rels: RelsV, cs: Seq<ClauseV>, l: Map<Seq<char>, nat>, s: int) -> bool {
    forall|k: KeyV| #[trigger] holds(rels, k) ==> !(aggregated(cs, k.0) && l[k.0] >= s)
}

/// The aggregated predicates of a list of rules.
pub open spec fn folded_in(cs: Seq<ClauseV>, idx: Seq<int>, a: int) -> Set<Seq<char>> {
    Set::new(|p: Seq<char>| exists|j: int| a <= j < idx.len() && aggregates(cs[#[trigger] idx[j]]) && cs[idx[j]].head.pred == p)
}

/// Folding aggregated predicates that have no facts yet retracts nothing.
proof fn lemma_fold_stratum_fresh(st: StoreV, cs: Seq<ClauseV>, idx: Seq<int>, a: int)
    requires
        folds_apart(cs),
        rule_list(cs, idx),
        0 <= a <= idx.len(),
        rels_wf(st.rels),
        forall|k: KeyV| #[trigger] holds(st.rels, k) ==> !folded_in(cs, idx, a).contains(k.0),
    ensures
        fold_stratum(st, cs, idx, a).retracted == st.retracted,
    decreases idx.len() - a,
{
    if a < idx.len() {
        let i = idx[a];
        let c = cs[i];
        assert(0 <= idx[a] < cs.len() && !cs[idx[a]].is_fact);
        if aggregates(c) {
            assert(is_fold(cs, i));
            let temp = temp_name(c, i);
            let m = fold_clause(st, c, i).st;
            let gl = group_len(c.head.args) as int;
            assert(folded_in(cs, idx, a).contains(c.head.pred));
            assert forall|key: Seq<Value>| !(#[trigger] holds(st.rels, (c.head.pred, key))) by {
                let k: KeyV = (c.head.pred, key);
                assert(!holds(st.rels, k));
            }
            if st.rels.contains_key(temp) {
                let keys = row_keys(st.rels[temp]);
                let gs = enumerate::<Vec<Value>>(groups(keys, gl));
                lemma_groups_listed(keys, gl);
                lemma_fold_groups_fresh(st, c, temp, keys, gs);
            }
            assert(m.retracted == st.retracted);
            let own = Set::new(|q: Seq<char>| q == c.head.pred);
            lemma_fold_clause_touches(st, c, i, own);
            assert forall|k: KeyV| #[trigger] holds(m.rels, k) implies !folded_in(cs, idx, a + 1).contains(k.0) by {
                if folded_in(cs, idx, a + 1).contains(k.0) {
                    let j = choose|j: int| a + 1 <= j < idx.len() && aggregates(cs[#[trigger] idx[j]]) && cs[idx[j]].head.pred == k.0;
                    assert(0 <= idx[j] < cs.len() && !cs[idx[j]].is_fact);
                    assert(idx[j] != idx[a]);
                    lemma_apart(cs, i, idx[j]);
                    assert(same_facts(st.rels, m.rels, k.0));
                    assert(holds(st.rels, k));
                    assert(folded_in(cs, idx, a).contains(k.0));
                }
            }
            lemma_fold_stratum_fresh(m, cs, idx, a + 1);
        } else {
            assert forall|k: KeyV| #[trigger] holds(st.rels, k) implies !folded_in(cs, idx, a + 1).contains(k.0) by {
                if folded_in(cs, idx, a + 1).contains(k.0) {
                    let j = choose|j: int| a + 1 <= j < idx.len() && aggregates(cs[#[trigger] idx[j]]) && cs[idx[j]].head.pred == k.0;
                    assert(folded_in(cs, idx, a).contains(k.0));
                }
            }
            lemma_fold_stratum_fresh(st, cs, idx, a + 1);
        }
    }
}

/// The groups are listed once each, with the length of a group.
proof fn lemma_groups_listed(keys: Seq<Seq<Value>>, gl: int)
    ensures
        enumerate::<Vec<Value>>(groups(keys, gl)).no_duplicates(),
        gl >= 0 ==> forall|i: int|
            0 <= i < enumerate::<Vec<Value>>(groups(keys, gl)).len() ==> (#[trigger] enumerate::<Vec<Value>>(groups(keys, gl))[i]).len()
                == gl,
{
    let gs = enumerate::<Vec<Value>>(groups(keys, gl));
    lemma_groups_finite(keys, gl);
    lemma_enumerable::<Vec<Value>>(groups(keys, gl));
    assert forall|i: int, j: int| 0 <= i < j < gs.len() implies gs[i] != gs[j] by {
        if gs[i] == gs[j] {
            Vec::<Value>::before_irreflexive(gs[i]);
            assert(Vec::<Value>::before(gs[i], gs[j]));
        }
    }
    assert forall|i: int| gl >= 0 && 0 <= i < gs.len() implies (#[trigger] gs[i]).len() == gl by {
        assert(gs.to_set().contains(gs[i]));
        let j = choose|j: int| 0 <= j < keys.len() && #[trigger] in_group(gl, gs[i])(keys[j]);
        assert(keys[j].take(gl).len() == gl);
    }
}

// ---------------------------------------------------------------- one stratum

/// Deriving from pending facts only leaves nothing settled.
proof fn lemma_unsettled_outlasts()
    ensures
        outlasts(in_run(Set::<KeyV>::empty())),
{
    let none = Set::<KeyV>::empty();
    let p = in_run(none);
    lemma_orderly_upheld();
    assert forall|st: StoreV, k: KeyV, f: FactV| p(st) && f.supports.len() == 1 implies #[trigger] p(store_assert(st, k, f)) by {
        assert(orderly()(st));
        assert(orderly()(store_assert(st, k, f)));
        lemma_asserted(st, k, f);
    }
    assert forall|st: StoreV, k: KeyV| p(st) implies #[trigger] p(store_retract(st, k)) by {
        let r = store_retract(st, k);
        assert(orderly()(st));
        assert(orderly()(r));
        lemma_retract_facts(st, k);
        assert forall|j: KeyV| !(#[trigger] settled(r.rels).contains(j)) by {
            if settled(r.rels).contains(j) {
                assert(facts(st.rels).remove(k).contains(j));
                assert(!settled(st.rels).contains(j));
                assert(pending_delta(st.rels).contains(j));
                lemma_kept_pending(st, k, j);
            }
        }
        assert(settled(r.rels) =~= none);
    }
}

/// A retraction takes one fact from the pending ones.
proof fn lemma_kept_pending(st: StoreV, k: KeyV, j: KeyV)
    requires
        pending_delta(st.rels).contains(j),
        j != k,
    ensures
        pending_delta(store_retract(st, k).rels).contains(j),
{
}

/// The parts of the evaluation of a stratum: a fixpoint, and folds of
/// aggregated predicates that had no facts before.
proof fn lemma_stratum_folds(
    st: StoreV,
    now: i64,
    cs: Seq<ClauseV>,
    l: Map<Seq<char>, nat>,
    strata: Seq<Seq<int>>,
    s: int,
)
    requires
        folds_apart(cs),
        leveled(cs, l, strata),
        0 <= s < strata.len(),
        rels_wf(st.rels),
        is_fresh(st.rels, cs, l, s),
    ensures
        ({
            let rules = stratum_rules(cs, strata[s]);
            let x = fixpoint(st, now, rules, pending_delta(st.rels)).st;
            let e = eval_stratum_of(st, now, cs, strata[s]).st;
            &&& store_extends(st, x)
            &&& e == fold_stratum(x, cs, strata[s], 0)
            &&& spares(x.rels, e.rels, folded_in(cs, strata[s], 0))
            &&& appends(x, e)
            &&& e.retracted == st.retracted
            &&& forall|k: KeyV| #[trigger] holds(x.rels, k) ==> holds(e.rels, k)
            &&& forall|i: int| #[trigger]
                is_fold(cs, i) && strata[s].contains(i) ==> forall|key: Seq<Value>| #[trigger]
                    holds(e.rels, (cs[i].head.pred, key)) ==> is_tally(cs[i], solutions(x.rels, cs[i], i), key)
            &&& is_fresh(e.rels, cs, l, s + 1)
            &&& spares(st.rels, e.rels, written(cs, l, s))
        }),
{
    let idx = strata[s];
    let rules = stratum_rules(cs, idx);
    let delta = pending_delta(st.rels);
    let x = fixpoint(st, now, rules, delta).st;
    let e = eval_stratum_of(st, now, cs, idx).st;
    let t = folded_in(cs, idx, 0);
    let w = written(cs, l, s);
    lemma_rule_list(cs, l, strata, s);
    fixpoint_extends(st, now, rules, delta);
    let plain = Set::new(|p: Seq<char>| w.contains(p) && !aggregated(cs, p));
    assert forall|j: int| 0 <= j < rules.len() implies plain.contains((#[trigger] rules[j]).head.pred) by {
        let i = idx[j];
        assert(idx.contains(i));
        assert(0 <= i < cs.len() && !cs[i].is_fact);
        assert(rules[j] == evaluated(cs[i], i));
        assert(defined(cs, cs[i].head.pred));
        assert(l.contains_key(cs[i].head.pred));
        let h = rules[j].head.pred;
        if aggregates(cs[i]) {
            assert(is_fold(cs, i));
        }
        assert(written_at(cs, l, h, s));
        if aggregated(cs, h) {
            let y = choose|y: int| 0 <= y < cs.len() && !(#[trigger] cs[y]).is_fact && aggregates(cs[y]) && cs[y].head.pred == h;
            assert(is_fold(cs, y));
            lemma_apart(cs, y, i);
        }
    }
    lemma_fixpoint_touches(st, now, rules, delta, plain);
    assert forall|j: int| 0 <= j < idx.len() && 0 <= j && aggregates(cs[#[trigger] idx[j]]) implies t.contains(cs[idx[j]].head.pred) by {}
    lemma_fold_stratum_touches(x, cs, idx, 0, t);
    assert forall|p: Seq<char>| #[trigger] t.contains(p) implies aggregated(cs, p) && l.contains_key(p) && l[p] == s && w.contains(p) by {
        let j = choose|j: int| 0 <= j < idx.len() && aggregates(cs[#[trigger] idx[j]]) && cs[idx[j]].head.pred == p;
        let i = idx[j];
        assert(idx.contains(i));
        assert(0 <= i < cs.len() && !cs[i].is_fact);
        assert(defined(cs, p));
        assert(l.contains_key(p));
        assert(written_at(cs, l, p, s));
    }
    assert forall|k: KeyV| #[trigger] holds(x.rels, k) implies !t.contains(k.0) by {
        if t.contains(k.0) {
            assert(same_facts(st.rels, x.rels, k.0));
            assert(holds(st.rels, k));
        }
    }
    lemma_fold_stratum_fresh(x, cs, idx, 0);
    assert forall|k: KeyV| #[trigger] holds(x.rels, k) implies holds(e.rels, k) by {
        assert(same_facts(x.rels, e.rels, k.0));
    }
    assert forall|i: int| #[trigger] is_fold(cs, i) && idx.contains(i) implies forall|key: Seq<Value>| #[trigger]
        holds(e.rels, (cs[i].head.pred, key)) ==> is_tally(cs[i], solutions(x.rels, cs[i], i), key) by {
        let j = choose|j: int| 0 <= j < idx.len() && idx[j] == i;
        let p = cs[i].head.pred;
        assert(t.contains(p));
        assert forall|key: Seq<Value>| !(#[trigger] holds(x.rels, (p, key))) by {
            let k: KeyV = (p, key);
            assert(!holds(x.rels, k));
        }
        assert(spans_groups(x.rels, cs[i]));
        lemma_fold_own(x, cs, idx, 0, j);
    }
    assert forall|k: KeyV| #[trigger] holds(e.rels, k) implies !(aggregated(cs, k.0) && l[k.0] >= s + 1) by {
        if aggregated(cs, k.0) && l[k.0] >= s + 1 {
            assert(!t.contains(k.0));
            assert(same_facts(x.rels, e.rels, k.0));
            assert(same_facts(st.rels, x.rels, k.0));
            assert(holds(st.rels, k));
        }
    }
    assert forall|p: Seq<char>| !w.contains(p) implies #[trigger] same_facts(st.rels, e.rels, p) by {
        assert(same_facts(st.rels, x.rels, p));
        assert(!t.contains(p));
        assert(same_facts(x.rels, e.rels, p));
    }
}

// --------------------------------------------------------------------- levels

/// An edge of the dependencies comes from a literal of a rule.
proof fn lemma_body_edge_origin(cs: Seq<ClauseV>, c: ClauseV, n: int, k: int) -> (j: int)
    requires
        0 <= n <= c.body.len(),
        0 <= k < body_edges(cs, c, n).len(),
    ensures
        0 <= j < n,
        lit_dep(c.body[j]) is Some,
        lit_dep(c.body[j])->Some_0.0 == body_edges(cs, c, n)[k].dep,
        body_edges(cs, c, n)[k].head == c.head.pred,
    decreases n,
{
    let before = body_edges(cs, c, n - 1);
    if k < before.len() {
        assert(body_edges(cs, c, n)[k] == before[k]);
        lemma_body_edge_origin(cs, c, n - 1, k)
    } else {
        n - 1
    }
}

proof fn lemma_edge_origin(cs: Seq<ClauseV>, n: int, k: int) -> (r: (int, int))
    requires
        0 <= n <= cs.len(),
        0 <= k < edges_upto(cs, n).len(),
    ensures
        0 <= r.0 < n,
        !cs[r.0].is_fact,
        cs[r.0].head.pred == edges_upto(cs, n)[k].head,
        0 <= r.1 < cs[r.0].body.len(),
        lit_dep(cs[r.0].body[r.1]) is Some,
        lit_dep(cs[r.0].body[r.1])->Some_0.0 == edges_upto(cs, n)[k].dep,
    decreases n,
{
    let a = edges_upto(cs, n - 1);
    let c = cs[n - 1];
    let b = body_edges(cs, c, c.body.len() as int);
    if k < a.len() {
        if !c.is_fact {
            assert((a + b)[k] == a[k]);
        }
        lemma_edge_origin(cs, n - 1, k)
    } else {
        assert((a + b)[k] == b[k - a.len()]);
        let j = lemma_body_edge_origin(cs, c, c.body.len() as int, k - a.len());
        (n - 1, j)
    }
}

/// Nothing but itself depends on an aggregated predicate and is depended on by
/// it.
proof fn lemma_fold_alone(cs: Seq<ClauseV>, i: int, q: Seq<char>)
    requires
        folds_apart(cs),
        is_fold(cs, i),
        together(edges_of(cs), cs[i].head.pred, q),
    ensures
        q == cs[i].head.pred,
{
    let es = edges_of(cs);
    let h = cs[i].head.pred;
    if q != h {
        let path = choose|path: Seq<Seq<char>>| #[trigger] is_path(es, path) && path.len() > 0 && path[0] == h && path.last() == q;
        assert(path.len() >= 2);
        let first: int = 0;
        assert(reads(es, path[first], path[first + 1]));
        let k = choose|k: int| 0 <= k < es.len() && (#[trigger] es[k]).head == path[0] && es[k].dep == path[1];
        let (y, j) = lemma_edge_origin(cs, cs.len() as int, k);
        lemma_only_rule(cs, i, y);
        let d = path[1];
        assert(linked(es, d, q)) by {
            let rest = path.drop_first();
            assert forall|x: int| 0 <= x < rest.len() - 1 implies #[trigger] reads(es, rest[x], rest[x + 1]) by {
                assert(reads(es, path[x + 1], path[x + 1 + 1]));
            }
            assert(is_path(es, rest) && rest.len() > 0 && rest[0] == d && rest.last() == q);
        }
        lemma_linked_trans(es, d, q, h);
        assert(aggregate_error(cs, es, 0) is None);
        lemma_no_aggregate_error(cs, 0, i);
        lemma_no_body_error(cs, i, 0, j);
    }
}

/// An aggregated predicate that a rule reads is of a lower level.
pub proof fn lemma_reads_folded(cs: Seq<ClauseV>, l: Map<Seq<char>, nat>, i: int, j: int)
    requires
        folds_apart(cs),
        is_levels(cs, l),
        0 <= i < cs.len(),
        !cs[i].is_fact,
        0 <= j < cs[i].body.len(),
        lit_dep(cs[i].body[j]) is Some,
        aggregated(cs, lit_dep(cs[i].body[j])->Some_0.0),
    ensures
        l[lit_dep(cs[i].body[j])->Some_0.0] < l[cs[i].head.pred],
{
    let es = edges_of(cs);
    let q = lit_dep(cs[i].body[j])->Some_0.0;
    let p = cs[i].head.pred;
    let y = choose|y: int| 0 <= y < cs.len() && !(#[trigger] cs[y]).is_fact && aggregates(cs[y]) && cs[y].head.pred == q;
    assert(is_fold(cs, y));
    assert(defined(cs, q));
    assert(defined(cs, p));
    assert(l.contains_key(p) && l.contains_key(q));
    let k = lemma_edge_at(cs, cs.len() as int, i, j);
    lemma_linked_self(es, p);
    if together(es, p, q) {
        lemma_fold_alone(cs, y, p);
        lemma_only_rule(cs, y, i);
        assert(lit_reads(cs[i].body[j], q));
        assert(body_reads(cs[i], q));
        lemma_reads_not_own(cs, i, q);
    } else {
        assert(crossing(es, p, k));
    }
}

// --------------------------------------------------------------------- strata

/// What evaluating the strata from one on leaves alone.
proof fn lemma_strata_written(st: StoreV, now: i64, cs: Seq<ClauseV>, l: Map<Seq<char>, nat>, strata: Seq<Seq<int>>, s: int)
    requires
        folds_apart(cs),
        leveled(cs, l, strata),
        0 <= s <= strata.len(),
        rels_wf(st.rels),
        is_fresh(st.rels, cs, l, s),
    ensures
        ({
            let f = eval_strata(st, now, cs, strata, s).st;
            &&& spares(st.rels, f.rels, written(cs, l, s))
            &&& st.names.is_prefix_of(f.names)
            &&& f.retracted == st.retracted
            &&& rels_wf(f.rels)
        }),
    decreases strata.len() - s,
{
    let f = eval_strata(st, now, cs, strata, s).st;
    if s < strata.len() {
        let x = fixpoint(st, now, stratum_rules(cs, strata[s]), pending_delta(st.rels)).st;
        let e = eval_stratum_of(st, now, cs, strata[s]).st;
        lemma_stratum_folds(st, now, cs, l, strata, s);
        lemma_prefix_trans(st.names, x.names, e.names);
        lemma_strata_written(e, now, cs, l, strata, s + 1);
        lemma_prefix_trans(st.names, e.names, f.names);
        assert forall|p: Seq<char>| !written(cs, l, s).contains(p) implies #[trigger] same_facts(st.rels, f.rels, p) by {
            assert(!written(cs, l, s + 1).contains(p)) by {
                if written(cs, l, s + 1).contains(p) {
                    let v = choose|v: int| #[trigger] written_at(cs, l, p, v) && v >= s + 1;
                    assert(written_at(cs, l, p, v) && v >= s);
                }
            }
            assert(same_facts(st.rels, e.rels, p));
            assert(same_facts(e.rels, f.rels, p));
        }
    } else {
        assert(st.names =~= st.names.subrange(0, st.names.len() as int));
        assert forall|p: Seq<char>| !written(cs, l, s).contains(p) implies #[trigger] same_facts(st.rels, f.rels, p) by {}
    }
}

/// A rule that reads some relation derives nothing from nothing.
proof fn lemma_nothing_leads(b: Seq<Seq<char>>, now: i64, c: ClauseV, n: Set<KeyV>, into: Set<KeyV>)
    requires
        has_atom(c),
    ensures
        leads_into(b, now, c, Set::empty(), n, into),
{
    assert forall|x: Bindings| #[trigger] body_true(b, now, c, Set::empty(), n, x) && head_fact(b, c, x) is Some implies into.contains(
        head_fact(b, c, x)->Some_0,
    ) by {
        let y = choose|y: int| 0 <= y < c.body.len() && #[trigger] c.body[y] is Pos;
        assert(lit_true(b, now, c.body[y], Set::empty(), n, x));
    }
}

/// The tuples of folds have known symbols where the solutions have.
pub proof fn lemma_tally_known(names: Seq<Seq<char>>, rels: RelsV, c: ClauseV, ci: int, key: Seq<Value>)
    requires
        forall|k: KeyV| #[trigger] holds(rels, k) ==> known_key(names, k.1),
        is_tally(c, solutions(rels, c, ci), key),
    ensures
        known_key(names, key),
{
    let keys = solutions(rels, c, ci);
    let gl = group_len(c.head.args) as int;
    let temp = temp_name(c, ci);
    let g = choose|g: Seq<Value>| #[trigger] groups_of(c, keys).contains(g) && key == tally(c, keys, g);
    let y = choose|y: int| 0 <= y < keys.len() && #[trigger] in_group(gl, g)(keys[y]);
    assert(rels[temp].rows[y].key == keys[y]);
    assert(holds(rels, (temp, keys[y])));
    assert(known_key(names, keys[y]));
    assert forall|i: int| 0 <= i < key.len() implies known_value(names, #[trigger] key[i]) by {
        if i < g.len() {
            assert(g[i] == keys[y].take(gl)[i]);
            assert(known_value(names, keys[y][i]));
        }
    }
}

/// The rules of a program as they are evaluated: an aggregating rule derives
/// its solutions.
pub open spec fn lowered_program(cs: Seq<ClauseV>) -> Seq<ClauseV> {
    Seq::new(
        cs.len(),
        |i: int|
            if cs[i].is_fact {
                cs[i]
            } else {
                evaluated(cs[i], i)
            },
    )
}

/// The facts of aggregated predicates.
pub open spec fn folds_of(cs: Seq<ClauseV>, all: Set<KeyV>) -> Set<KeyV> {
    all.filter(|k: KeyV| aggregated(cs, k.0))
}

pub proof fn lemma_foldable_grows(a: Seq<Seq<char>>, b: Seq<Seq<char>>, cs: Seq<ClauseV>)
    requires
        a.is_prefix_of(b),
        all_foldable(a, cs),
    ensures
        all_foldable(b, cs),
{
    assert forall|i: int| 0 <= i < cs.len() && !(#[trigger] cs[i]).is_fact implies is_foldable(b, cs[i], i) by {
        let c = cs[i];
        assert(is_foldable(a, c, i));
        lemma_constants_known(a, b, c);
    }
}

/// A rule of a level is closed at the end of a run where it was closed after
/// the fixpoint of its stratum.
proof fn lemma_closed_later(
    b: Seq<Seq<char>>,
    now: i64,
    cs: Seq<ClauseV>,
    l: Map<Seq<char>, nat>,
    i: int,
    x: RelsV,
    e: RelsV,
    f: RelsV,
    idx: Seq<int>,
)
    requires
        folds_apart(cs),
        is_levels(cs, l),
        rule_list(cs, idx),
        0 <= i < cs.len(),
        !cs[i].is_fact,
        forall|j: int| 0 <= j < idx.len() ==> l[cs[#[trigger] idx[j]].head.pred] == l[cs[i].head.pred],
        spares(x, e, folded_in(cs, idx, 0)),
        spares(e, f, written(cs, l, l[cs[i].head.pred] as int + 1)),
        facts(x).subset_of(facts(f)),
        leads_into(b, now, evaluated(cs[i], i), facts(x), facts(f), facts(x)),
    ensures
        leads_into(b, now, evaluated(cs[i], i), facts(f), facts(f), facts(f)),
{
    let c = evaluated(cs[i], i);
    let all = facts(f);
    assert(atoms_covered(c, all, facts(x))) by {
        assert forall|j: int| 0 <= j < c.body.len() implies (match #[trigger] c.body[j] {
            LitV::Pos(a) => covers(all, facts(x), a.pred),
            _ => true,
        }) by {
            assert(c.body[j] == cs[i].body[j]);
            if let LitV::Pos(a) = c.body[j] {
                lemma_reads_written(cs, l, i, j);
                assert(!folded_in(cs, idx, 0).contains(a.pred)) by {
                    if folded_in(cs, idx, 0).contains(a.pred) {
                        let y = choose|y: int| 0 <= y < idx.len() && aggregates(cs[#[trigger] idx[y]]) && cs[idx[y]].head.pred == a.pred;
                        assert(0 <= idx[y] < cs.len() && !cs[idx[y]].is_fact);
                        assert(aggregated(cs, a.pred));
                        lemma_reads_folded(cs, l, i, j);
                    }
                }
                assert(same_facts(x, e, a.pred));
                assert(same_facts(e, f, a.pred));
                assert forall|key: Seq<Value>| #[trigger] all.contains((a.pred, key)) implies facts(x).contains((a.pred, key)) by {
                    assert(holds(f, (a.pred, key)));
                    assert(holds(e, (a.pred, key)));
                    assert(holds(x, (a.pred, key)));
                }
            }
        }
    }
    assert forall|y: Bindings| #[trigger] body_true(b, now, c, all, all, y) && head_fact(b, c, y) is Some implies all.contains(
        head_fact(b, c, y)->Some_0,
    ) by {
        lemma_same_negated(c, all);
        lemma_body_moves(b, now, c, all, all, facts(x), all, y);
        assert(facts(x).contains(head_fact(b, c, y)->Some_0));
    }
}

pub proof fn lemma_same_negated(c: ClauseV, n: Set<KeyV>)
    ensures
        negated_covered(c, n, n),
{
}

/// Evaluating the strata from one on, seen from the end of the run.
#[verifier::rlimit(30)]
proof fn lemma_strata_folds(
    st: StoreV,
    now: i64,
    cs: Seq<ClauseV>,
    l: Map<Seq<char>, nat>,
    strata: Seq<Seq<int>>,
    s: int,
    b: Seq<Seq<char>>,
)
    requires
        folds_apart(cs),
        leveled(cs, l, strata),
        all_foldable(st.names, cs),
        0 <= s <= strata.len(),
        all_known(st),
        in_run(Set::<KeyV>::empty())(st),
        is_fresh(st.rels, cs, l, s),
        strata_settle(st, now, cs, strata, s),
        b.no_duplicates(),
        b.len() < usize::MAX,
        eval_strata(st, now, cs, strata, s).st.names.is_prefix_of(b),
    ensures
        ({
            let f = eval_strata(st, now, cs, strata, s).st;
            let n = facts(f.rels);
            &&& facts(st.rels).subset_of(n)
            &&& all_known(f)
            &&& in_run(Set::<KeyV>::empty())(f)
            &&& forall|i: int|
                0 <= i < cs.len() && !(#[trigger] cs[i]).is_fact && l[cs[i].head.pred] >= s ==> leads_into(
                    b,
                    now,
                    evaluated(cs[i], i),
                    n,
                    n,
                    n,
                )
            &&& forall|m: Set<KeyV>| #[trigger]
                program_closed(b, now, lowered_program(cs), m, n) && facts(st.rels).subset_of(m) && folds_of(cs, n).subset_of(m)
                    ==> n.subset_of(m)
        }),
    decreases strata.len() - s,
{
    let none = Set::<KeyV>::empty();
    let f = eval_strata(st, now, cs, strata, s).st;
    let n = facts(f.rels);
    if s < strata.len() {
        let idx = strata[s];
        let rules = stratum_rules(cs, idx);
        let delta = pending_delta(st.rels);
        let x = fixpoint(st, now, rules, delta).st;
        let e = eval_stratum_of(st, now, cs, idx).st;
        lemma_stratum_folds(st, now, cs, l, strata, s);
        lemma_stratum_least(st, now, cs, l, strata, s, b);
        lemma_foldable_grows(st.names, e.names, cs);
        lemma_strata_folds(e, now, cs, l, strata, s + 1, b);
        assert(facts(x.rels).subset_of(facts(e.rels))) by {
            assert forall|k: KeyV| #[trigger] facts(x.rels).contains(k) implies facts(e.rels).contains(k) by {
                assert(holds(x.rels, k));
            }
        }
        lemma_rule_list(cs, l, strata, s);
        lemma_strata_written(e, now, cs, l, strata, s + 1);
        assert forall|i: int| 0 <= i < cs.len() && !(#[trigger] cs[i]).is_fact && l[cs[i].head.pred] >= s implies leads_into(
            b,
            now,
            evaluated(cs[i], i),
            n,
            n,
            n,
        ) by {
            if l[cs[i].head.pred] == s {
                lemma_stratum_evaluated(cs, l, strata, s, st.names);
                let j = choose|j: int| 0 <= j < rules.len() && #[trigger] rules[j] == evaluated(cs[i], i);
                assert(leads_into(b, now, rules[j], facts(x.rels), n, facts(x.rels)));
                assert forall|y: int| 0 <= y < idx.len() implies l[cs[#[trigger] idx[y]].head.pred] == l[cs[i].head.pred] by {
                    assert(idx.contains(idx[y]));
                    assert(0 <= idx[y] < cs.len());
                }
                lemma_closed_later(b, now, cs, l, i, x.rels, e.rels, f.rels, idx);
            }
        }
        assert forall|m: Set<KeyV>| #[trigger]
            program_closed(b, now, lowered_program(cs), m, n) && facts(st.rels).subset_of(m) && folds_of(cs, n).subset_of(m) implies n.subset_of(
            m,
        ) by {
            lemma_part_closed(b, now, cs, l, strata, s, st.names, m, n);
            assert(facts(x.rels).subset_of(m));
            assert forall|k: KeyV| #[trigger] facts(e.rels).contains(k) implies m.contains(k) by {
                if folded_in(cs, idx, 0).contains(k.0) {
                    let j = choose|j: int| 0 <= j < idx.len() && aggregates(cs[#[trigger] idx[j]]) && cs[idx[j]].head.pred == k.0;
                    assert(0 <= idx[j] < cs.len() && !cs[idx[j]].is_fact);
                    assert(aggregated(cs, k.0));
                    assert(n.contains(k));
                    assert(folds_of(cs, n).contains(k));
                } else {
                    assert(same_facts(x.rels, e.rels, k.0));
                    assert(holds(e.rels, k));
                    assert(holds(x.rels, k));
                    assert(facts(x.rels).contains(k));
                }
            }
            assert(facts(e.rels).subset_of(m));
        }
    } else {
        assert forall|i: int| 0 <= i < cs.len() && !(#[trigger] cs[i]).is_fact && l[cs[i].head.pred] >= s implies leads_into(
            b,
            now,
            evaluated(cs[i], i),
            n,
            n,
            n,
        ) by {
            assert(defined(cs, cs[i].head.pred));
            assert(l.contains_key(cs[i].head.pred));
        }
    }
}

/// What is closed under the program is closed under the rules of a stratum.
pub proof fn lemma_part_closed(
    b: Seq<Seq<char>>,
    now: i64,
    cs: Seq<ClauseV>,
    l: Map<Seq<char>, nat>,
    strata: Seq<Seq<int>>,
    s: int,
    names: Seq<Seq<char>>,
    m: Set<KeyV>,
    n: Set<KeyV>,
)
    requires
        folds_apart(cs),
        leveled(cs, l, strata),
        all_foldable(names, cs),
        0 <= s < strata.len(),
        program_closed(b, now, lowered_program(cs), m, n),
    ensures
        closed_under(b, now, stratum_rules(cs, strata[s]), m, n),
{
    let rules = stratum_rules(cs, strata[s]);
    let low = lowered_program(cs);
    lemma_stratum_evaluated(cs, l, strata, s, names);
    assert forall|j: int| 0 <= j < rules.len() implies leads_into(b, now, #[trigger] rules[j], m, n, m) by {
        let i = strata[s][j];
        assert(is_evaluated_at(cs, l, s, rules[j], i));
        assert(low[i] == evaluated(cs[i], i));
        assert(!low[i].is_fact);
        assert(leads_into(b, now, low[i], m, n, m));
    }
}

/// The fixpoint of a stratum is least, and what its folds add is known.
proof fn lemma_stratum_least(
    st: StoreV,
    now: i64,
    cs: Seq<ClauseV>,
    l: Map<Seq<char>, nat>,
    strata: Seq<Seq<int>>,
    s: int,
    b: Seq<Seq<char>>,
)
    requires
        folds_apart(cs),
        leveled(cs, l, strata),
        all_foldable(st.names, cs),
        0 <= s < strata.len(),
        all_known(st),
        in_run(Set::<KeyV>::empty())(st),
        is_fresh(st.rels, cs, l, s),
        strata_settle(st, now, cs, strata, s),
        b.no_duplicates(),
        b.len() < usize::MAX,
        eval_strata(st, now, cs, strata, s).st.names.is_prefix_of(b),
    ensures
        ({
            let rules = stratum_rules(cs, strata[s]);
            let x = fixpoint(st, now, rules, pending_delta(st.rels)).st;
            let e = eval_stratum_of(st, now, cs, strata[s]).st;
            let n = facts(eval_strata(st, now, cs, strata, s).st.rels);
            &&& is_least(b, now, rules, facts(st.rels), facts(x.rels), n)
            &&& all_known(e)
            &&& in_run(Set::<KeyV>::empty())(e)
            &&& st.names.is_prefix_of(e.names)
        }),
{
    let none = Set::<KeyV>::empty();
    let idx = strata[s];
    let rules = stratum_rules(cs, idx);
    let delta = pending_delta(st.rels);
    let x = fixpoint(st, now, rules, delta).st;
    let e = eval_stratum_of(st, now, cs, idx).st;
    let f = eval_strata(st, now, cs, strata, s).st;
    let n = facts(f.rels);
    lemma_stratum_folds(st, now, cs, l, strata, s);
    lemma_stratum_evaluated(cs, l, strata, s, st.names);
    lemma_strata_written(st, now, cs, l, strata, s);
    lemma_strata_written(e, now, cs, l, strata, s + 1);
    lemma_prefix_trans(st.names, x.names, e.names);
    lemma_prefix_trans(x.names, e.names, f.names);
    lemma_prefix_trans(x.names, f.names, b);
    lemma_agrees_before(st.rels, f.rels, written(cs, l, s));
    assert(delta.finite()) by {
        assert forall|k: KeyV| #[trigger] delta.contains(k) implies facts(st.rels).contains(k) by {}
        vstd::set_lib::lemma_set_subset_finite(facts(st.rels), delta);
    }
    assert(facts(st.rels).difference(delta) =~= none) by {
        assert(settled(st.rels) =~= none);
    }
    assert forall|j: int| 0 <= j < rules.len() && has_atom(#[trigger] rules[j]) implies leads_into(
        b,
        now,
        rules[j],
        facts(st.rels).difference(delta),
        n,
        facts(st.rels),
    ) by {
        lemma_nothing_leads(b, now, rules[j], n, facts(st.rels));
    }
    assert(can_fire(st, now, rules, delta, b, n, written(cs, l, s)));
    lemma_fixpoint_least(st, now, rules, delta, b, n, written(cs, l, s));
    lemma_unsettled_outlasts();
    lemma_stratum_keeps(in_run(none), st, now, cs, idx);
    lemma_rule_list(cs, l, strata, s);
    assert forall|k: KeyV| #[trigger] holds(e.rels, k) implies known_key(e.names, k.1) by {
        if folded_in(cs, idx, 0).contains(k.0) {
            let j = choose|j: int| 0 <= j < idx.len() && aggregates(cs[#[trigger] idx[j]]) && cs[idx[j]].head.pred == k.0;
            let i = idx[j];
            assert(0 <= i < cs.len() && !cs[i].is_fact);
            assert(is_fold(cs, i));
            assert(idx.contains(i));
            assert(holds(e.rels, (cs[i].head.pred, k.1)));
            lemma_tally_known(x.names, x.rels, cs[i], i, k.1);
        } else {
            assert(same_facts(x.rels, e.rels, k.0));
            assert(holds(x.rels, k));
        }
        lemma_known_grows(x.names, e.names, k.1);
    }
}

/// Evaluating a program from scratch gives its model under later names.
pub proof fn lemma_strata_model(st: StoreV, now: i64, cs: Seq<ClauseV>, b: Seq<Seq<char>>)
    requires
        is_sound(st),
        settled(st.rels) == Set::<KeyV>::empty(),
        cs.len() <= usize::MAX,
        folds_apart(cs),
        all_foldable(st.names, cs),
        strata_settle(st, now, cs, strata_of(cs), 0),
        b.no_duplicates(),
        b.len() < usize::MAX,
        eval_strata(st, now, cs, strata_of(cs), 0).st.names.is_prefix_of(b),
        forall|k: KeyV| #[trigger] holds(st.rels, k) ==> !aggregated(cs, k.0) && !is_temp(k.0),
    ensures
        ({
            let f = eval_strata(st, now, cs, strata_of(cs), 0).st;
            let all = facts(f.rels);
            &&& is_model(b, now, lowered_program(cs), facts(st.rels).union(folds_of(cs, all)), all)
            &&& all_tallied(f.rels, cs)
            &&& is_sound(f)
            &&& f.retracted == st.retracted
            &&& orderly()(f)
        }),
{
    let none = Set::<KeyV>::empty();
    let strata = strata_of(cs);
    let f = eval_strata(st, now, cs, strata, 0).st;
    let all = facts(f.rels);
    let low = lowered_program(cs);
    let given = facts(st.rels).union(folds_of(cs, all));
    strata_exist(cs);
    let l = choose|l: Map<Seq<char>, nat>| #[trigger] is_levels(cs, l) && grouped(cs, l, strata);
    assert(leveled(cs, l, strata));
    assert(in_run(none)(st)) by {
        assert(settled(st.rels) =~= none);
    }
    assert(is_fresh(st.rels, cs, l, 0));
    lemma_distinct_upheld();
    assert(distinct_names()(st));
    lemma_strata_keeps(distinct_names(), st, now, cs, strata);
    assert(distinct_names()(f));
    lemma_strata_folds(st, now, cs, l, strata, 0, b);
    lemma_strata_written(st, now, cs, l, strata, 0);
    aggregates_begin(st.rels, cs);
    lemma_strata_tallied(st, now, cs, l, strata, 0);
    assert(program_closed(b, now, low, all, all)) by {
        assert forall|i: int| 0 <= i < low.len() && !(#[trigger] low[i]).is_fact implies leads_into(b, now, low[i], all, all, all) by {
            assert(!cs[i].is_fact);
            assert(low[i] == evaluated(cs[i], i));
            assert(l[cs[i].head.pred] >= 0);
        }
    }
    assert forall|m: Set<KeyV>| #[trigger] program_closed(b, now, low, m, all) && given.subset_of(m) implies all.subset_of(m) by {
        assert(facts(st.rels).subset_of(m));
        assert(folds_of(cs, all).subset_of(m));
    }
    assert(in_run(none)(f));
}

// ------------------------------------------------------------------------ laws

/// Law: evaluating a stratified program from scratch, aggregates included,
/// gives the least solutions of all its rules over the given facts and the
/// folds, and the folds of those solutions. The rules are safe and compare
/// with known symbols only; each aggregated predicate has one rule and no
/// facts to begin with.
pub proof fn strata_give_folds(st: StoreV, now: i64, cs: Seq<ClauseV>)
    requires
        is_sound(st),
        settled(st.rels) == Set::<KeyV>::empty(),
        cs.len() <= usize::MAX,
        folds_apart(cs),
        all_foldable(st.names, cs),
        strata_settle(st, now, cs, strata_of(cs), 0),
        eval_strata(st, now, cs, strata_of(cs), 0).st.names.len() < usize::MAX,
        forall|k: KeyV| #[trigger] holds(st.rels, k) ==> !aggregated(cs, k.0) && !is_temp(k.0),
    ensures
        ({
            let f = eval_strata(st, now, cs, strata_of(cs), 0).st;
            let all = facts(f.rels);
            &&& is_model(f.names, now, lowered_program(cs), facts(st.rels).union(folds_of(cs, all)), all)
            &&& all_tallied(f.rels, cs)
            &&& is_sound(f)
            &&& f.retracted == st.retracted
        }),
{
    let strata = strata_of(cs);
    let f = eval_strata(st, now, cs, strata, 0).st;
    lemma_distinct_upheld();
    assert(distinct_names()(st));
    lemma_strata_keeps(distinct_names(), st, now, cs, strata);
    assert(distinct_names()(f));
    assert(f.names.is_prefix_of(f.names));
    lemma_strata_model(st, now, cs, f.names);
}

/// Law: a run from scratch of a program without negation, aggregates
/// included, ends with the least solutions of all its rules over the given
/// facts and the folds, and the folds of those solutions.
pub proof fn run_gives_folds(e: EngineV)
    requires
        is_sound(e.st),
        e.dirty,
        e.st.retracted == Set::<Seq<char>>::empty(),
        e.clauses.len() <= usize::MAX,
        folds_apart(e.clauses),
        all_positive(e.clauses),
        all_foldable(prepared(e).st.names, e.clauses),
        strata_settle(prepared(e).st, e.now, e.clauses, strata_of(e.clauses), 0),
        ran(e).0.st.names.len() < usize::MAX,
        forall|k: KeyV| #[trigger] holds(prepared(e).st.rels, k) ==> !aggregated(e.clauses, k.0) && !is_temp(k.0),
    ensures
        ({
            let r = ran(e).0.st;
            let all = facts(r.rels);
            &&& is_model(
                r.names,
                e.now,
                lowered_program(e.clauses),
                facts(prepared(e).st.rels).union(folds_of(e.clauses, all)),
                all,
            )
            &&& all_tallied(r.rels, e.clauses)
        }),
{
    let cs = e.clauses;
    let strata = strata_of(cs);
    let st1 = rebuilt(e.st, cs, strata, e.ever);
    let p = prepared(e).st;
    let f = eval_strata(p, e.now, cs, strata, 0).st;
    let r = ran(e).0.st;
    lemma_rebuilt(e.st, cs, strata, e.ever);
    lemma_declare_grows(st1, cs, 0);
    strata_exist(cs);
    let l = choose|l: Map<Seq<char>, nat>| #[trigger] is_levels(cs, l) && grouped(cs, l, strata);
    assert(leveled(cs, l, strata));
    assert(is_fresh(p.rels, cs, l, 0));
    lemma_strata_written(p, e.now, cs, l, strata, 0);
    lemma_not_stale(f, cs, e.mark);
    assert(invalidate(f, e.now, cs, strata, e.mark, strata.len() + 2).st == f);
    assert(r.names == f.names);
    assert(r.rels == rels_settled(f.rels));
    lemma_declared(st1, cs, 0);
    strata_give_folds(p, e.now, cs);
    lemma_settled(f);
    assert(facts(r.rels) =~= facts(f.rels));
    assert forall|i: int| #[trigger] is_fold(cs, i) implies is_tallied(r.rels, cs[i], i) by {
        lemma_tallied_same(f.rels, r.rels, cs[i], i);
    }
}

} // verus!

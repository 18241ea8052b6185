//! Aggregates: after every run, the facts of an aggregated predicate are the
//! folds of the groups of solutions that its rule has.

use vstd::prelude::*;
use crate::ast::ClauseV;
use crate::deep::lemma_clear_each_facts;
use crate::engine::{declared, eval_strata, invalidate, lemma_strata_fit, prepared, ran, stale_readers, EngineV};
use crate::evaluate::{
    agg_fns, eval_stratum_of, evaluated, fixpoint, fixpoint_extends, fold_clause, fold_group, fold_groups, fold_label, fold_stratum,
    fold_values, group_len, group_rows, groups, in_group, indices_of, is_temp, matching, pending_delta, prefix_pattern, retract_others,
    row_keys, stratum_rules, temp_name, EvalV,
};
use crate::feed::lemma_retract_facts;
use crate::frame::{
    lemma_clear_each_touches, lemma_declare_touches, lemma_enumerated, lemma_fixpoint_touches, lemma_fold_groups_touches,
    lemma_fold_stratum_touches, lemma_here_finite, lemma_step_touches, lemma_stratum_touches, lemma_temp_prefix, lemma_touches_trans,
    same_facts, touches, writes_in,
};
use crate::model::{facts, lemma_assert_facts, lemma_extends_holds};
use crate::perfect::{lemma_reads_below, leveled};
use crate::recompute::{
    body_reads, clear_each, direct_reader, filled_by, in_heads, is_idb, lemma_here_spreads, lemma_here_starts, lit_reads, owner,
    rule_reads, scope_here, scope_pass, scope_passes, scope_queued, scope_step, scoped, stated_in, tuples_of, ScopeV,
};
use crate::relation::{ann_unit, fits, fits_fully, has_key, lemma_lookup, rel_lookup, rel_wf, AnnV, FactV, KeyV, SupportV};
use crate::runs::{
    all_folded, all_relational, begins, facts_stated, group_folded, is_folded, lemma_clause_folded_again, lemma_declare_grows,
    lemma_groups_finite, lemma_same_rows, lemma_stratum_rules, second_run_idle,
};
use crate::scope::{anything, reset, scope_begun, seeded_store};
use crate::solve::lemma_store_assert;
use crate::sorted_set::{enumerate, lemma_enumerable, Item};
use crate::store::{holds, rels_settled, rels_wf, store_retract, RelsV, StoreV};
use crate::stratify::{
    aggregate_body_error, aggregate_error, aggregated, aggregates, at_level, defined, edges_of, grouped, is_levels, is_strata, linked,
    lit_dep, mixed_error, strata_error, strata_exist, strata_of,
};
use crate::text::{is_digit, lemma_nat_text, nat_text};
use crate::value::Value;

verus! {

// -------------------------------------------------------------------- tallies

/// The solutions of an aggregating rule, as its intermediate relation holds
/// them.
pub open spec fn solutions(rels: RelsV, c: ClauseV, ci: int) -> Seq<Seq<Value>> {
    if rels.contains_key(temp_name(c, ci)) {
        row_keys(rels[temp_name(c, ci)])
    } else {
        Seq::empty()
    }
}

/// The groups of solutions that a rule folds.
pub open spec fn groups_of(c: ClauseV, keys: Seq<Seq<Value>>) -> Set<Seq<Value>> {
    groups(keys, group_len(c.head.args) as int)
}

/// The fact that a group of solutions folds to.
pub open spec fn tally(c: ClauseV, keys: Seq<Seq<Value>>, g: Seq<Value>) -> Seq<Value> {
    g + fold_values(agg_fns(c.head.args), group_rows(keys, group_len(c.head.args) as int, g))
}

/// The tuple is what some group of solutions folds to.
pub open spec fn is_tally(c: ClauseV, keys: Seq<Seq<Value>>, key: Seq<Value>) -> bool {
    exists|g: Seq<Value>| #[trigger] groups_of(c, keys).contains(g) && key == tally(c, keys, g)
}

/// The facts of an aggregated predicate are what the groups of solutions fold
/// to: one for each group, and no others.
pub open spec fn is_tallied(rels: RelsV, c: ClauseV, ci: int) -> bool {
    forall|key: Seq<Value>| #[trigger] holds(rels, (c.head.pred, key)) <==> is_tally(c, solutions(rels, c, ci), key)
}

/// How many values the facts of an aggregated predicate have.
pub open spec fn width(c: ClauseV) -> nat {
    group_len(c.head.args) + agg_fns(c.head.args).len()
}

/// No fact of an aggregated predicate is shorter than a group.
pub open spec fn spans_groups(rels: RelsV, c: ClauseV) -> bool {
    forall|key: Seq<Value>| #[trigger] holds(rels, (c.head.pred, key)) ==> key.len() >= group_len(c.head.args)
}

/// The tuple belongs to one of the groups.
pub open spec fn grouped_in(c: ClauseV, gs: Seq<Seq<Value>>, key: Seq<Value>) -> bool {
    gs.contains(key.take(group_len(c.head.args) as int))
}

pub proof fn lemma_tally_group(c: ClauseV, keys: Seq<Seq<Value>>, g: Seq<Value>)
    requires
        g.len() == group_len(c.head.args),
    ensures
        tally(c, keys, g).len() == width(c),
        tally(c, keys, g).take(group_len(c.head.args) as int) == g,
{
    assert(tally(c, keys, g).take(group_len(c.head.args) as int) =~= g);
}

// -------------------------------------------------------------------- folding

/// Retracting all tuples of a list but one.
pub proof fn lemma_retract_others(st: StoreV, p: Seq<char>, olds: Seq<Seq<Value>>, keep: Seq<Value>)
    requires
        rels_wf(st.rels),
    ensures
        rels_wf(retract_others(st, p, olds, keep).st.rels),
        forall|key: Seq<Value>| #[trigger]
            holds(retract_others(st, p, olds, keep).st.rels, (p, key)) <==> holds(st.rels, (p, key)) && !(olds.contains(key) && key
                != keep),
    decreases olds.len(),
{
    let r = retract_others(st, p, olds, keep).st;
    if olds.len() > 0 {
        let d = olds.drop_first();
        let st1 = if olds[0] != keep {
            store_retract(st, (p, olds[0]))
        } else {
            st
        };
        lemma_retract_facts(st, (p, olds[0]));
        lemma_retract_others(st1, p, d, keep);
        assert(r == retract_others(st1, p, d, keep).st);
        assert forall|key: Seq<Value>| #[trigger] holds(r.rels, (p, key)) <==> holds(st.rels, (p, key)) && !(olds.contains(key) && key
            != keep) by {
            assert(holds(r.rels, (p, key)) <==> holds(st1.rels, (p, key)) && !(d.contains(key) && key != keep));
            assert(facts(st1.rels).contains((p, key)) <==> holds(st1.rels, (p, key)));
            assert(facts(st.rels).contains((p, key)) <==> holds(st.rels, (p, key)));
            assert(olds.contains(key) <==> key == olds[0] || d.contains(key)) by {
                if olds.contains(key) && key != olds[0] {
                    let i = choose|i: int| 0 <= i < olds.len() && olds[i] == key;
                    assert(d[i - 1] == key);
                }
                if d.contains(key) {
                    let i = choose|i: int| 0 <= i < d.len() && d[i] == key;
                    assert(olds[i + 1] == key);
                }
            }
        }
    }
}

/// The tuples that a group replaces are those that begin with it.
pub proof fn lemma_matching(rels: RelsV, c: ClauseV, g: Seq<Value>, key: Seq<Value>)
    requires
        rels_wf(rels),
        spans_groups(rels, c),
        g.len() == group_len(c.head.args),
    ensures
        ({
            let olds = matching(rels, c.head.pred, prefix_pattern(g, agg_fns(c.head.args).len()));
            olds.contains(key) <==> holds(rels, (c.head.pred, key)) && key.take(g.len() as int) == g
        }),
{
    let p = c.head.pred;
    let pat = prefix_pattern(g, agg_fns(c.head.args).len());
    let olds = matching(rels, p, pat);
    if rels.contains_key(p) {
        let r = rels[p];
        lemma_lookup(r, pat);
        let ids = rel_lookup(r, pat);
        if olds.contains(key) {
            let i = choose|i: int| 0 <= i < olds.len() && olds[i] == key;
            let id = ids[i];
            assert(ids.contains(id));
            assert(r.rows[id].key == key);
            assert(has_key(r, key));
            assert(holds(rels, (p, key)));
            assert(fits(pat, key));
            assert(key.take(g.len() as int) =~= g) by {
                assert forall|j: int| 0 <= j < g.len() implies key[j] == g[j] by {
                    assert(pat[j] == Some(g[j]));
                }
            }
        }
        if holds(rels, (p, key)) && key.take(g.len() as int) == g {
            let id = choose|id: int| 0 <= id < r.rows.len() && (#[trigger] r.rows[id]).key == key;
            assert(fits_fully(pat, key)) by {
                assert forall|j: int| 0 <= j < pat.len() && (#[trigger] pat[j]) is Some implies j < key.len() && pat[j] == Some(key[j]) by {
                    assert(j < g.len());
                    assert(key.take(g.len() as int)[j] == key[j]);
                }
            }
            assert(ids.contains(id));
            let i = choose|i: int| 0 <= i < ids.len() && ids[i] == id;
            assert(olds[i] == key);
        }
    }
}

/// Law: folding a group puts its fold in the place of what was there for that
/// group. The tuples of other groups stay.
pub proof fn fold_replaces_group(st: StoreV, c: ClauseV, temp: Seq<char>, g: Seq<Value>, rows: Seq<Seq<Value>>)
    requires
        rels_wf(st.rels),
        spans_groups(st.rels, c),
        g.len() == group_len(c.head.args),
    ensures
        ({
            let r = fold_group(st, c, temp, g, rows).st;
            let out = g + fold_values(agg_fns(c.head.args), rows);
            &&& rels_wf(r.rels)
            &&& spans_groups(r.rels, c)
            &&& forall|key: Seq<Value>| #[trigger]
                holds(r.rels, (c.head.pred, key)) <==> key == out || (holds(st.rels, (c.head.pred, key)) && key.take(g.len() as int)
                    != g)
        }),
{
    let p = c.head.pred;
    let fns = agg_fns(c.head.args);
    let out = g + fold_values(fns, rows);
    let olds = matching(st.rels, p, prefix_pattern(g, fns.len()));
    let m = retract_others(st, p, olds, out).st;
    let r = fold_group(st, c, temp, g, rows).st;
    lemma_retract_others(st, p, olds, out);
    let support = SupportV::Rule { rule: fold_label(c), body: seq![(temp, g + rows[0])] };
    let f = FactV { ann: ann_unit(), supports: seq![support] };
    lemma_assert_facts(m, (p, out), f);
    lemma_store_assert(m, (p, out), f);
    assert(out.take(g.len() as int) =~= g);
    assert forall|key: Seq<Value>| #[trigger] holds(r.rels, (p, key)) <==> key == out || (holds(st.rels, (p, key)) && key.take(
        g.len() as int,
    ) != g) by {
        lemma_matching(st.rels, c, g, key);
        assert(holds(m.rels, (p, key)) <==> holds(st.rels, (p, key)) && !(olds.contains(key) && key != out));
        assert(holds(r.rels, (p, key)) <==> holds(m.rels, (p, key)) || key == out);
    }
    assert forall|key: Seq<Value>| #[trigger] holds(r.rels, (p, key)) implies key.len() >= group_len(c.head.args) by {
        if key != out {
            assert(holds(st.rels, (p, key)));
        }
    }
}

/// Folding groups, one after the other.
proof fn lemma_fold_groups(st: StoreV, c: ClauseV, temp: Seq<char>, keys: Seq<Seq<Value>>, gs: Seq<Seq<Value>>)
    requires
        rels_wf(st.rels),
        spans_groups(st.rels, c),
        gs.no_duplicates(),
        forall|i: int| 0 <= i < gs.len() ==> (#[trigger] gs[i]).len() == group_len(c.head.args),
    ensures
        ({
            let r = fold_groups(st, c, temp, keys, gs).st;
            &&& rels_wf(r.rels)
            &&& spans_groups(r.rels, c)
            &&& forall|key: Seq<Value>| #[trigger]
                holds(r.rels, (c.head.pred, key)) <==> folds_to(c, keys, gs, key) || (holds(st.rels, (c.head.pred, key)) && !grouped_in(
                    c,
                    gs,
                    key,
                ))
        }),
    decreases gs.len(),
{
    let p = c.head.pred;
    let gl = group_len(c.head.args) as int;
    let r = fold_groups(st, c, temp, keys, gs).st;
    if gs.len() > 0 {
        let g = gs[0];
        let d = gs.drop_first();
        let m = fold_group(st, c, temp, g, group_rows(keys, gl, g)).st;
        fold_replaces_group(st, c, temp, g, group_rows(keys, gl, g));
        assert forall|i: int| 0 <= i < d.len() implies (#[trigger] d[i]).len() == gl by {
            assert(d[i] == gs[i + 1]);
        }
        lemma_fold_groups(m, c, temp, keys, d);
        lemma_tally_group(c, keys, g);
        assert forall|key: Seq<Value>| #[trigger] holds(r.rels, (p, key)) <==> folds_to(c, keys, gs, key) || (holds(st.rels, (p, key))
            && !grouped_in(c, gs, key)) by {
            assert(holds(r.rels, (p, key)) <==> folds_to(c, keys, d, key) || (holds(m.rels, (p, key)) && !grouped_in(c, d, key)));
            assert(holds(m.rels, (p, key)) <==> key == tally(c, keys, g) || (holds(st.rels, (p, key)) && key.take(gl) != g));
            assert(!d.contains(g));
            assert(folds_to(c, keys, gs, key) <==> key == tally(c, keys, g) || folds_to(c, keys, d, key)) by {
                if folds_to(c, keys, gs, key) && key != tally(c, keys, g) {
                    let i = choose|i: int| 0 <= i < gs.len() && key == tally(c, keys, #[trigger] gs[i]);
                    assert(d[i - 1] == gs[i]);
                }
                if folds_to(c, keys, d, key) {
                    let i = choose|i: int| 0 <= i < d.len() && key == tally(c, keys, #[trigger] d[i]);
                    assert(gs[i + 1] == d[i]);
                }
                assert(gs[0] == g);
            }
            assert(gs.contains(key.take(gl)) <==> key.take(gl) == g || d.contains(key.take(gl))) by {
                if gs.contains(key.take(gl)) && key.take(gl) != g {
                    let i = choose|i: int| 0 <= i < gs.len() && gs[i] == key.take(gl);
                    assert(d[i - 1] == gs[i]);
                }
                if d.contains(key.take(gl)) {
                    let i = choose|i: int| 0 <= i < d.len() && d[i] == key.take(gl);
                    assert(gs[i + 1] == d[i]);
                }
                assert(gs[0] == g);
            }
        }
    }
}

/// The tuple is what one of the groups folds to.
pub open spec fn folds_to(c: ClauseV, keys: Seq<Seq<Value>>, gs: Seq<Seq<Value>>, key: Seq<Value>) -> bool {
    exists|i: int| 0 <= i < gs.len() && key == tally(c, keys, #[trigger] gs[i])
}

/// Law: folding an aggregating rule gives each group of solutions its fold. Of
/// the other facts those stay that belong to no group.
pub proof fn fold_replaces_groups(st: StoreV, c: ClauseV, ci: int)
    requires
        rels_wf(st.rels),
        spans_groups(st.rels, c),
        temp_name(c, ci) != c.head.pred,
    ensures
        ({
            let r = fold_clause(st, c, ci).st;
            let keys = solutions(st.rels, c, ci);
            &&& rels_wf(r.rels)
            &&& spans_groups(r.rels, c)
            &&& forall|key: Seq<Value>| #[trigger]
                holds(r.rels, (c.head.pred, key)) <==> is_tally(c, keys, key) || (holds(st.rels, (c.head.pred, key)) && !groups_of(
                    c,
                    keys,
                ).contains(key.take(group_len(c.head.args) as int)))
        }),
{
    let p = c.head.pred;
    let temp = temp_name(c, ci);
    let gl = group_len(c.head.args) as int;
    let keys = solutions(st.rels, c, ci);
    let r = fold_clause(st, c, ci).st;
    if st.rels.contains_key(temp) {
        let gs = enumerate::<Vec<Value>>(groups(keys, gl));
        lemma_groups_finite(keys, gl);
        lemma_enumerable::<Vec<Value>>(groups(keys, gl));
        assert forall|g: Seq<Value>| #[trigger] gs.contains(g) <==> groups_of(c, keys).contains(g) by {
            assert(gs.to_set().contains(g) <==> groups(keys, gl).contains(g));
        }
        assert forall|i: int| 0 <= i < gs.len() implies (#[trigger] gs[i]).len() == gl by {
            assert(gs.contains(gs[i]));
            let j = choose|j: int| 0 <= j < keys.len() && #[trigger] in_group(gl, gs[i])(keys[j]);
            assert(keys[j].take(gl).len() == gl);
        }
        assert(gs.no_duplicates()) by {
            assert forall|i: int, j: int| 0 <= i < j < gs.len() implies gs[i] != gs[j] by {
                if gs[i] == gs[j] {
                    Vec::<Value>::before_irreflexive(gs[i]);
                    assert(Vec::<Value>::before(gs[i], gs[j]));
                }
            }
        }
        lemma_fold_groups(st, c, temp, keys, gs);
        assert forall|key: Seq<Value>| #[trigger] holds(r.rels, (p, key)) <==> is_tally(c, keys, key) || (holds(st.rels, (p, key))
            && !groups_of(c, keys).contains(key.take(gl))) by {
            assert(holds(r.rels, (p, key)) <==> folds_to(c, keys, gs, key) || (holds(st.rels, (p, key)) && !grouped_in(c, gs, key)));
            if folds_to(c, keys, gs, key) {
                let i = choose|i: int| 0 <= i < gs.len() && key == tally(c, keys, #[trigger] gs[i]);
                assert(gs.contains(gs[i]));
            }
            if is_tally(c, keys, key) {
                let g = choose|g: Seq<Value>| #[trigger] groups_of(c, keys).contains(g) && key == tally(c, keys, g);
                assert(gs.contains(g));
                let i = choose|i: int| 0 <= i < gs.len() && gs[i] == g;
            }
        }
    } else {
        assert forall|g: Seq<Value>| !(#[trigger] groups_of(c, keys).contains(g)) by {}
    }
}

/// Retracting distinct stored tuples records each of them.
proof fn lemma_retracts_counted(st: StoreV, p: Seq<char>, olds: Seq<Seq<Value>>, keep: Seq<Value>)
    requires
        rels_wf(st.rels),
        olds.no_duplicates(),
        forall|i: int| 0 <= i < olds.len() ==> holds(st.rels, (p, #[trigger] olds[i])),
    ensures
        rels_wf(retract_others(st, p, olds, keep).st.rels),
        retract_others(st, p, olds, keep).new == retract_others(st, p, olds, keep).st.feed.len() - st.feed.len(),
    decreases olds.len(),
{
    if olds.len() > 0 {
        let d = olds.drop_first();
        assert(d.no_duplicates()) by {
            assert forall|i: int, j: int| 0 <= i < d.len() && 0 <= j < d.len() && i != j implies d[i] != d[j] by {
                assert(d[i] == olds[i + 1] && d[j] == olds[j + 1]);
            }
        }
        assert(holds(st.rels, (p, olds[0])));
        if olds[0] != keep {
            let k: KeyV = (p, olds[0]);
            let st1 = store_retract(st, k);
            lemma_retract_facts(st, k);
            assert forall|i: int| 0 <= i < d.len() implies holds(st1.rels, (p, #[trigger] d[i])) by {
                assert(d[i] == olds[i + 1]);
                assert(holds(st.rels, (p, olds[i + 1])));
                assert(facts(st.rels).remove(k).contains((p, d[i])));
                assert(facts(st1.rels).contains((p, d[i])));
            }
            lemma_retracts_counted(st1, p, d, keep);
        } else {
            assert forall|i: int| 0 <= i < d.len() implies holds(st.rels, (p, #[trigger] d[i])) by {
                assert(d[i] == olds[i + 1]);
            }
            lemma_retracts_counted(st, p, d, keep);
        }
    }
}

proof fn lemma_groups_counted(st: StoreV, c: ClauseV, temp: Seq<char>, keys: Seq<Seq<Value>>, gs: Seq<Seq<Value>>)
    requires
        rels_wf(st.rels),
    ensures
        fold_groups(st, c, temp, keys, gs).new == fold_groups(st, c, temp, keys, gs).st.feed.len() - st.feed.len(),
    decreases gs.len(),
{
    if gs.len() > 0 {
        let g = gs[0];
        let p = c.head.pred;
        let fns = agg_fns(c.head.args);
        let rows = group_rows(keys, group_len(c.head.args) as int, g);
        let out = g + fold_values(fns, rows);
        let pat = prefix_pattern(g, fns.len());
        let olds = matching(st.rels, p, pat);
        if st.rels.contains_key(p) {
            let rel = st.rels[p];
            let ids = rel_lookup(rel, pat);
            lemma_lookup(rel, pat);
            assert forall|i: int| 0 <= i < olds.len() implies holds(st.rels, (p, #[trigger] olds[i])) by {
                assert(olds[i] == rel.rows[ids[i]].key);
                assert(has_key(rel, olds[i]));
            }
            assert forall|i: int, j: int| 0 <= i < olds.len() && 0 <= j < olds.len() && i != j implies olds[i] != olds[j] by {
                assert(ids[i] != ids[j]);
                assert(olds[i] == rel.rows[ids[i]].key && olds[j] == rel.rows[ids[j]].key);
            }
        }
        lemma_retracts_counted(st, p, olds, out);
        let r = retract_others(st, p, olds, out).st;
        let support = SupportV::Rule { rule: fold_label(c), body: seq![(temp, g + rows[0])] };
        let f = FactV { ann: ann_unit(), supports: seq![support] };
        lemma_store_assert(r, (p, out), f);
        lemma_groups_counted(fold_group(st, c, temp, g, rows).st, c, temp, keys, gs.drop_first());
    }
}

/// Law: folding a rule counts the facts that it removes and adds, each of
/// which the feed records.
pub proof fn fold_counts_changes(st: StoreV, c: ClauseV, ci: int)
    requires
        rels_wf(st.rels),
    ensures
        fold_clause(st, c, ci).new == fold_clause(st, c, ci).st.feed.len() - st.feed.len(),
{
    let temp = temp_name(c, ci);
    if st.rels.contains_key(temp) {
        let keys = row_keys(st.rels[temp]);
        let gs = enumerate::<Vec<Value>>(groups(keys, group_len(c.head.args) as int));
        lemma_groups_counted(st, c, temp, keys, gs);
    }
}

/// Law: after the folding of a rule each group of its solutions has one fact,
/// its fold, and folding again finds nothing to remove or to add. No fact of
/// the predicate is shorter than a group.
pub proof fn fold_settles(st: StoreV, c: ClauseV, ci: int)
    requires
        rels_wf(st.rels),
        spans_groups(st.rels, c),
        temp_name(c, ci) != c.head.pred,
    ensures
        ({
            let r = fold_clause(st, c, ci).st;
            let keys = solutions(st.rels, c, ci);
            &&& forall|g: Seq<Value>| #[trigger] groups_of(c, keys).contains(g) ==> holds(r.rels, (c.head.pred, tally(c, keys, g)))
            &&& forall|g: Seq<Value>, key: Seq<Value>|
                #[trigger] groups_of(c, keys).contains(g) && #[trigger] holds(r.rels, (c.head.pred, key)) && key.take(
                    group_len(c.head.args) as int,
                ) == g ==> key == tally(c, keys, g)
            &&& fold_clause(r, c, ci) == (EvalV { st: r, new: 0 })
        }),
{
    let p = c.head.pred;
    let gl = group_len(c.head.args) as int;
    let keys = solutions(st.rels, c, ci);
    let r = fold_clause(st, c, ci).st;
    fold_replaces_groups(st, c, ci);
    lemma_fold_clause_touches(st, c, ci, set![p]);
    assert(same_facts(st.rels, r.rels, temp_name(c, ci)));
    lemma_same_solutions(st.rels, r.rels, c, ci);
    assert forall|g: Seq<Value>| #[trigger] groups_of(c, keys).contains(g) implies holds(r.rels, (p, tally(c, keys, g))) by {
        assert(is_tally(c, keys, tally(c, keys, g)));
    }
    assert forall|g: Seq<Value>, key: Seq<Value>|
        #[trigger] groups_of(c, keys).contains(g) && #[trigger] holds(r.rels, (p, key)) && key.take(gl) == g implies key == tally(
        c,
        keys,
        g,
    ) by {
        let x = choose|x: Seq<Value>| #[trigger] groups_of(c, keys).contains(x) && key == tally(c, keys, x);
        let z = choose|z: int| 0 <= z < keys.len() && #[trigger] in_group(gl, x)(keys[z]);
        assert(keys[z].take(gl).len() == gl);
        lemma_tally_group(c, keys, x);
    }
    assert(is_folded(r.rels, c, ci)) by {
        if r.rels.contains_key(temp_name(c, ci)) {
            assert forall|g: Seq<Value>| #[trigger] groups(keys, gl).contains(g) implies group_folded(
                r.rels,
                c,
                g,
                group_rows(keys, gl, g),
            ) by {
                let out = tally(c, keys, g);
                let y = choose|y: int| 0 <= y < keys.len() && #[trigger] in_group(gl, g)(keys[y]);
                assert(g.len() == gl) by {
                    assert(keys[y].take(gl).len() == gl);
                }
                assert(groups_of(c, keys).contains(g));
                assert forall|key: Seq<Value>| #[trigger] holds(r.rels, (p, key)) && begins(key, g) implies key == out by {
                    assert(key.take(gl) =~= g);
                }
            }
        }
    }
    lemma_clause_folded_again(r, c, ci);
}

// --------------------------------------------------------------------- naming

/// The rule reads no intermediate relation.
pub open spec fn reads_no_temp(c: ClauseV) -> bool {
    forall|p: Seq<char>| #[trigger] body_reads(c, p) ==> !is_temp(p)
}

/// No clause is about intermediate relations.
pub open spec fn plainly_named(cs: Seq<ClauseV>) -> bool {
    forall|i: int| 0 <= i < cs.len() ==> !is_temp((#[trigger] cs[i]).head.pred) && reads_no_temp(cs[i])
}

/// The clause is an aggregating rule.
pub open spec fn is_fold(cs: Seq<ClauseV>, i: int) -> bool {
    0 <= i < cs.len() && !cs[i].is_fact && aggregates(cs[i])
}

/// An aggregated predicate has one rule.
pub open spec fn one_fold_each(cs: Seq<ClauseV>) -> bool {
    forall|i: int, j: int|
        i != j && #[trigger] is_fold(cs, i) && #[trigger] is_fold(cs, j) ==> cs[i].head.pred != cs[j].head.pred
}

/// What a program with aggregates needs for the facts of each aggregated
/// predicate to come from one rule.
pub open spec fn folds_apart(cs: Seq<ClauseV>) -> bool {
    strata_error(cs) is None && plainly_named(cs) && one_fold_each(cs)
}

/// Intermediate relations are named after the position of their rule.
proof fn lemma_temps_differ(a: ClauseV, i: int, b: ClauseV, j: int)
    requires
        0 <= i,
        0 <= j,
        temp_name(a, i) == temp_name(b, j),
    ensures
        i == j,
{
    let x = nat_text(i as nat);
    let y = nat_text(j as nat);
    let s = temp_name(a, i);
    lemma_nat_text(i as nat);
    lemma_nat_text(j as nat);
    reveal_strlit(":");
    let n = s.len() as int;
    assert(s[n - x.len() - 1] == ':');
    assert(s[n - y.len() - 1] == ':');
    assert forall|k: int| 0 <= k < x.len() implies s[n - x.len() + k] == x[k] by {}
    assert forall|k: int| 0 <= k < y.len() implies s[n - y.len() + k] == y[k] by {}
    if x.len() < y.len() {
        let k = y.len() - x.len() - 1;
        assert(s[n - y.len() + k] == y[k]);
        assert(is_digit(y[k]));
    }
    if y.len() < x.len() {
        let k = x.len() - y.len() - 1;
        assert(s[n - x.len() + k] == x[k]);
        assert(is_digit(x[k]));
    }
    assert(x =~= y) by {
        assert forall|k: int| 0 <= k < x.len() implies x[k] == y[k] by {
            assert(s[n - x.len() + k] == x[k]);
            assert(s[n - y.len() + k] == y[k]);
        }
    }
}

proof fn lemma_not_mixed(cs: Seq<ClauseV>, i: int, k: int)
    requires
        mixed_error(cs, i) is None,
        0 <= i <= k < cs.len(),
        !cs[k].is_fact,
        aggregated(cs, cs[k].head.pred),
    ensures
        aggregates(cs[k]),
    decreases cs.len() - i,
{
    if i < k {
        lemma_not_mixed(cs, i + 1, k);
    }
}

/// The rule of an aggregated predicate is the only one.
pub proof fn lemma_only_rule(cs: Seq<ClauseV>, i: int, k: int)
    requires
        folds_apart(cs),
        is_fold(cs, i),
        0 <= k < cs.len(),
        !cs[k].is_fact,
        cs[k].head.pred == cs[i].head.pred,
    ensures
        k == i,
{
    assert(aggregated(cs, cs[k].head.pred));
    assert(mixed_error(cs, 0) is None);
    lemma_not_mixed(cs, 0, k);
    if k != i {
        assert(is_fold(cs, k));
    }
}

/// What an aggregating rule and its intermediate relation are called is apart
/// from what any other rule writes.
pub proof fn lemma_apart(cs: Seq<ClauseV>, i: int, k: int)
    requires
        folds_apart(cs),
        is_fold(cs, i),
        0 <= k < cs.len(),
        !cs[k].is_fact,
    ensures
        cs[k].head.pred != temp_name(cs[i], i),
        temp_name(cs[k], k) != cs[i].head.pred,
        k != i ==> cs[k].head.pred != cs[i].head.pred,
        k != i ==> temp_name(cs[k], k) != temp_name(cs[i], i),
{
    lemma_temp_prefix(cs[i], i);
    lemma_temp_prefix(cs[k], k);
    assert(!is_temp(cs[k].head.pred));
    assert(!is_temp(cs[i].head.pred));
    if cs[k].head.pred == cs[i].head.pred {
        lemma_only_rule(cs, i, k);
    }
    if temp_name(cs[k], k) == temp_name(cs[i], i) {
        lemma_temps_differ(cs[k], k, cs[i], i);
    }
}

// ---------------------------------------------------------------- one stratum

/// The positions are those of rules, each once.
pub open spec fn rule_list(cs: Seq<ClauseV>, idx: Seq<int>) -> bool {
    &&& idx.no_duplicates()
    &&& forall|j: int| 0 <= j < idx.len() ==> 0 <= #[trigger] idx[j] < cs.len() && !cs[idx[j]].is_fact
}

/// The predicates other than an aggregated one and its intermediate relation.
spec fn others(c: ClauseV, ci: int) -> Set<Seq<char>> {
    Set::new(|q: Seq<char>| q != c.head.pred && q != temp_name(c, ci))
}

proof fn lemma_same_solutions(a: RelsV, b: RelsV, c: ClauseV, ci: int)
    requires
        same_facts(a, b, temp_name(c, ci)),
    ensures
        solutions(a, c, ci) == solutions(b, c, ci),
{
}

/// An aggregated predicate is tallied where its facts and solutions are the
/// same.
pub proof fn lemma_tallied_same(a: RelsV, b: RelsV, c: ClauseV, ci: int)
    requires
        same_facts(a, b, c.head.pred),
        same_facts(a, b, temp_name(c, ci)),
    ensures
        is_tallied(a, c, ci) == is_tallied(b, c, ci),
        spans_groups(a, c) == spans_groups(b, c),
{
    assert forall|key: Seq<Value>| #![trigger holds(a, (c.head.pred, key))] #![trigger holds(b, (c.head.pred, key))] holds(
        a,
        (c.head.pred, key),
    ) == holds(b, (c.head.pred, key)) by {}
    lemma_same_solutions(a, b, c, ci);
}

/// A stratum leaves the aggregates of other strata alone.
proof fn lemma_eval_other(st: StoreV, now: i64, cs: Seq<ClauseV>, idx: Seq<int>, i: int)
    requires
        folds_apart(cs),
        rule_list(cs, idx),
        is_fold(cs, i),
        !idx.contains(i),
        rels_wf(st.rels),
    ensures
        touches(st, eval_stratum_of(st, now, cs, idx).st, others(cs[i], i)),
{
    let t = others(cs[i], i);
    let rules = stratum_rules(cs, idx);
    let delta = pending_delta(st.rels);
    let f = fixpoint(st, now, rules, delta).st;
    assert forall|j: int| 0 <= j < rules.len() implies t.contains((#[trigger] rules[j]).head.pred) by {
        let k = idx[j];
        assert(0 <= k < cs.len() && !cs[k].is_fact);
        assert(idx.contains(k));
        lemma_apart(cs, i, k);
        assert(rules[j] == evaluated(cs[k], k));
    }
    lemma_fixpoint_touches(st, now, rules, delta, t);
    assert forall|j: int| 0 <= j < idx.len() && 0 <= j && aggregates(cs[#[trigger] idx[j]]) implies t.contains(cs[idx[j]].head.pred) by {
        let k = idx[j];
        assert(0 <= k < cs.len() && !cs[k].is_fact);
        assert(idx.contains(k));
        lemma_apart(cs, i, k);
    }
    lemma_fold_stratum_touches(f, cs, idx, 0, t);
    lemma_touches_trans(st, f, eval_stratum_of(st, now, cs, idx).st, t);
}

/// What the folds of a stratum make of one aggregated predicate.
pub proof fn lemma_fold_own(st: StoreV, cs: Seq<ClauseV>, idx: Seq<int>, a: int, j: int)
    requires
        folds_apart(cs),
        rule_list(cs, idx),
        0 <= a <= j < idx.len(),
        is_fold(cs, idx[j]),
        rels_wf(st.rels),
        spans_groups(st.rels, cs[idx[j]]),
    ensures
        ({
            let r = fold_stratum(st, cs, idx, a);
            let c = cs[idx[j]];
            let keys = solutions(st.rels, c, idx[j]);
            &&& rels_wf(r.rels)
            &&& spans_groups(r.rels, c)
            &&& solutions(r.rels, c, idx[j]) == keys
            &&& forall|key: Seq<Value>| #[trigger]
                holds(r.rels, (c.head.pred, key)) <==> is_tally(c, keys, key) || (holds(st.rels, (c.head.pred, key)) && !groups_of(
                    c,
                    keys,
                ).contains(key.take(group_len(c.head.args) as int)))
        }),
    decreases j - a,
{
    let i = idx[j];
    let c = cs[i];
    let t = others(c, i);
    let r = fold_stratum(st, cs, idx, a);
    let k = idx[a];
    assert(0 <= k < cs.len() && !cs[k].is_fact);
    lemma_apart(cs, i, i);
    if a < j {
        if aggregates(cs[k]) {
            lemma_apart(cs, i, k);
            let m = fold_clause(st, cs[k], k).st;
            lemma_fold_clause_touches(st, cs[k], k, t);
            assert(same_facts(st.rels, m.rels, c.head.pred));
            assert(same_facts(st.rels, m.rels, temp_name(c, i)));
            lemma_tallied_same(st.rels, m.rels, c, i);
            lemma_same_solutions(st.rels, m.rels, c, i);
            lemma_fold_own(m, cs, idx, a + 1, j);
            assert forall|key: Seq<Value>| #![trigger holds(m.rels, (c.head.pred, key))] holds(st.rels, (c.head.pred, key)) == holds(
                m.rels,
                (c.head.pred, key),
            ) by {}
        } else {
            lemma_fold_own(st, cs, idx, a + 1, j);
        }
    } else {
        let own = Set::new(|q: Seq<char>| q == c.head.pred);
        let m = fold_clause(st, c, i).st;
        fold_replaces_groups(st, c, i);
        lemma_fold_clause_touches(st, c, i, own);
        assert(same_facts(st.rels, m.rels, temp_name(c, i)));
        assert forall|y: int| 0 <= y < idx.len() && a + 1 <= y && aggregates(cs[#[trigger] idx[y]]) implies t.contains(
            cs[idx[y]].head.pred,
        ) by {
            assert(0 <= idx[y] < cs.len() && !cs[idx[y]].is_fact);
            assert(idx[y] != idx[j]);
            lemma_apart(cs, i, idx[y]);
        }
        lemma_fold_stratum_touches(m, cs, idx, a + 1, t);
        assert(same_facts(m.rels, r.rels, c.head.pred));
        assert(same_facts(m.rels, r.rels, temp_name(c, i)));
        lemma_tallied_same(m.rels, r.rels, c, i);
        lemma_same_solutions(st.rels, m.rels, c, i);
        lemma_same_solutions(m.rels, r.rels, c, i);
        assert forall|key: Seq<Value>| #![trigger holds(r.rels, (c.head.pred, key))] holds(r.rels, (c.head.pred, key)) == holds(
            m.rels,
            (c.head.pred, key),
        ) by {}
    }
}

pub proof fn lemma_fold_clause_touches(st: StoreV, c: ClauseV, ci: int, t: Set<Seq<char>>)
    requires
        rels_wf(st.rels),
        t.contains(c.head.pred),
    ensures
        touches(st, fold_clause(st, c, ci).st, t),
{
    let temp = temp_name(c, ci);
    if st.rels.contains_key(temp) {
        let keys = row_keys(st.rels[temp]);
        let gs = enumerate::<Vec<Value>>(groups(keys, group_len(c.head.args) as int));
        lemma_fold_groups_touches(st, c, temp, keys, gs, t);
    } else {
        assert(st.names =~= st.names.subrange(0, st.names.len() as int));
        assert(st.log =~= st.log.subrange(0, st.log.len() as int));
        assert(st.feed =~= st.feed.subrange(0, st.feed.len() as int));
    }
}

/// What the evaluation of a stratum makes of one of its aggregated
/// predicates.
proof fn lemma_eval_own(st: StoreV, now: i64, cs: Seq<ClauseV>, idx: Seq<int>, j: int)
    requires
        folds_apart(cs),
        rule_list(cs, idx),
        0 <= j < idx.len(),
        is_fold(cs, idx[j]),
        rels_wf(st.rels),
        spans_groups(st.rels, cs[idx[j]]),
    ensures
        ({
            let r = eval_stratum_of(st, now, cs, idx).st;
            let c = cs[idx[j]];
            let keys = solutions(r.rels, c, idx[j]);
            &&& rels_wf(r.rels)
            &&& spans_groups(r.rels, c)
            &&& forall|g: Seq<Value>| #[trigger]
                groups_of(c, solutions(st.rels, c, idx[j])).contains(g) ==> groups_of(c, keys).contains(g)
            &&& forall|key: Seq<Value>| #[trigger]
                holds(r.rels, (c.head.pred, key)) <==> is_tally(c, keys, key) || (holds(st.rels, (c.head.pred, key)) && !groups_of(
                    c,
                    keys,
                ).contains(key.take(group_len(c.head.args) as int)))
        }),
{
    let i = idx[j];
    let c = cs[i];
    let rules = stratum_rules(cs, idx);
    let delta = pending_delta(st.rels);
    let f = fixpoint(st, now, rules, delta).st;
    let t = Set::new(|q: Seq<char>| q != c.head.pred);
    assert forall|y: int| 0 <= y < rules.len() implies t.contains((#[trigger] rules[y]).head.pred) by {
        let k = idx[y];
        assert(0 <= k < cs.len() && !cs[k].is_fact);
        lemma_apart(cs, i, k);
        assert(rules[y] == evaluated(cs[k], k));
    }
    lemma_fixpoint_touches(st, now, rules, delta, t);
    fixpoint_extends(st, now, rules, delta);
    assert(same_facts(st.rels, f.rels, c.head.pred));
    assert forall|key: Seq<Value>| #![trigger holds(f.rels, (c.head.pred, key))] holds(f.rels, (c.head.pred, key)) == holds(
        st.rels,
        (c.head.pred, key),
    ) by {}
    assert(spans_groups(f.rels, c));
    lemma_fold_own(f, cs, idx, 0, j);
    let gl = group_len(c.head.args) as int;
    let was = solutions(st.rels, c, i);
    let keys = solutions(f.rels, c, i);
    assert forall|g: Seq<Value>| #[trigger] groups_of(c, was).contains(g) implies groups_of(c, keys).contains(g) by {
        let y = choose|y: int| 0 <= y < was.len() && #[trigger] in_group(gl, g)(was[y]);
        let temp = temp_name(c, i);
        let k: KeyV = (temp, was[y]);
        assert(st.rels[temp].rows[y].key == was[y]);
        assert(holds(st.rels, k));
        lemma_extends_holds(st, f, k);
        let z = choose|z: int| 0 <= z < f.rels[temp].rows.len() && (#[trigger] f.rels[temp].rows[z]).key == was[y];
        assert(keys[z] == was[y]);
        assert(in_group(gl, g)(keys[z]));
    }
}

/// What is tallied is no shorter than a group.
pub proof fn lemma_tallied_spans(rels: RelsV, c: ClauseV, ci: int)
    requires
        is_tallied(rels, c, ci),
    ensures
        spans_groups(rels, c),
        forall|key: Seq<Value>| #[trigger]
            holds(rels, (c.head.pred, key)) ==> groups_of(c, solutions(rels, c, ci)).contains(
                key.take(group_len(c.head.args) as int),
            ),
{
    let keys = solutions(rels, c, ci);
    let gl = group_len(c.head.args) as int;
    assert forall|key: Seq<Value>| #[trigger] holds(rels, (c.head.pred, key)) implies key.len() == width(c) && groups_of(
        c,
        keys,
    ).contains(key.take(gl)) by {
        let g = choose|g: Seq<Value>| #[trigger] groups_of(c, keys).contains(g) && key == tally(c, keys, g);
        let y = choose|y: int| 0 <= y < keys.len() && #[trigger] in_group(gl, g)(keys[y]);
        assert(keys[y].take(gl).len() == gl);
        lemma_tally_group(c, keys, g);
    }
}

/// A stratum keeps what is tallied.
pub proof fn lemma_eval_tallied(st: StoreV, now: i64, cs: Seq<ClauseV>, idx: Seq<int>, i: int)
    requires
        folds_apart(cs),
        rule_list(cs, idx),
        is_fold(cs, i),
        rels_wf(st.rels),
        is_tallied(st.rels, cs[i], i),
    ensures
        is_tallied(eval_stratum_of(st, now, cs, idx).st.rels, cs[i], i),
{
    let c = cs[i];
    let r = eval_stratum_of(st, now, cs, idx).st;
    if idx.contains(i) {
        let j = choose|j: int| 0 <= j < idx.len() && idx[j] == i;
        lemma_tallied_spans(st.rels, c, i);
        lemma_eval_own(st, now, cs, idx, j);
    } else {
        lemma_eval_other(st, now, cs, idx, i);
        assert(same_facts(st.rels, r.rels, c.head.pred));
        assert(same_facts(st.rels, r.rels, temp_name(c, i)));
        lemma_tallied_same(st.rels, r.rels, c, i);
    }
}

// ------------------------------------------------------------------- one step

/// In the course of a recomputation, an aggregated predicate is tallied or
/// still to be cleared.
pub open spec fn owes(sc: ScopeV, c: ClauseV, ci: int) -> bool {
    is_tallied(sc.st.rels, c, ci) || (sc.to_clear.contains(c.head.pred) && spans_groups(sc.st.rels, c))
}

/// What is cleared with a stratum is written by its rules.
proof fn lemma_cleared_here(cs: Seq<ClauseV>, idx: Seq<int>, to_clear: Set<Seq<char>>, i: int)
    requires
        folds_apart(cs),
        rule_list(cs, idx),
        is_fold(cs, i),
    ensures
        ({
            let here = scope_here(cs, idx, to_clear);
            &&& here.contains(cs[i].head.pred) || here.contains(temp_name(cs[i], i)) ==> idx.contains(i)
            &&& idx.contains(i) && to_clear.contains(cs[i].head.pred) ==> here.contains(cs[i].head.pred)
            &&& here.contains(temp_name(cs[i], i)) ==> here.contains(cs[i].head.pred)
        }),
{
    let here = scope_here(cs, idx, to_clear);
    let h = cs[i].head.pred;
    let t = temp_name(cs[i], i);
    if idx.contains(i) {
        let j = choose|j: int| 0 <= j < idx.len() && idx[j] == i;
        assert(filled_by(cs, idx[j], h));
        assert(filled_by(cs, idx[j], t));
        if to_clear.contains(h) {
            lemma_here_starts(cs, idx, to_clear, h, j);
        }
        if here.contains(t) {
            assert(rule_reads(cs, i, t, h));
            assert(direct_reader(cs, t, h));
            lemma_here_spreads(cs, idx, to_clear, t, h, j);
        }
    }
    if here.contains(h) {
        let j = choose|j: int| 0 <= j < idx.len() && filled_by(cs, #[trigger] idx[j], h);
        assert(0 <= idx[j] < cs.len() && !cs[idx[j]].is_fact);
        lemma_apart(cs, i, idx[j]);
        assert(idx[j] == i);
    }
    if here.contains(t) {
        let j = choose|j: int| 0 <= j < idx.len() && filled_by(cs, #[trigger] idx[j], t);
        assert(0 <= idx[j] < cs.len() && !cs[idx[j]].is_fact);
        lemma_apart(cs, i, idx[j]);
        assert(idx[j] == i);
    }
}

/// What is not cleared has the same facts in the store that a stratum is
/// evaluated in.
proof fn lemma_reset_same(sc: ScopeV, cs: Seq<ClauseV>, idx: Seq<int>, p: Seq<char>)
    requires
        rels_wf(sc.st.rels),
        forall|i: int| 0 <= i < cs.len() && (#[trigger] cs[i]).is_fact ==> cs[i].head.pred != p,
    ensures
        ({
            let here = scope_here(cs, idx, sc.to_clear);
            let r = reset(sc, cs, here);
            &&& rels_wf(r.rels)
            &&& !here.contains(p) ==> same_facts(sc.st.rels, r.rels, p)
            &&& here.contains(p) ==> forall|key: Seq<Value>| !(#[trigger] holds(r.rels, (p, key)))
        }),
{
    let here = scope_here(cs, idx, sc.to_clear);
    let ps = enumerate::<String>(here);
    let cleared = clear_each(sc.st, ps);
    let r = reset(sc, cs, here);
    let t = here;
    lemma_here_finite(cs, idx, sc.to_clear);
    assert forall|i: int| 0 <= i < ps.len() implies t.contains(#[trigger] ps[i]) by {
        lemma_enumerated(here, i);
    }
    lemma_clear_each_touches(sc.st, ps, t);
    let seeded = seeded_store(sc, cs, here);
    let stated = stated_in(cs, here);
    assert(rels_wf(seeded.rels)) by {
        assert forall|n: Seq<char>| #[trigger] seeded.rels.contains_key(n) implies rel_wf(seeded.rels[n]) by {
            assert(cleared.rels.contains_key(n));
        }
    }
    let u = here.remove(p);
    assert forall|j: int| 0 <= j < stated.len() && (#[trigger] stated[j]).is_fact implies u.contains(stated[j].head.pred) by {
        assert(cs[j].is_fact);
    }
    lemma_declare_touches(seeded, stated, 0, u);
    lemma_declare_grows(seeded, stated, 0);
    assert(same_facts(seeded.rels, r.rels, p));
    if !here.contains(p) {
        assert(same_facts(sc.st.rels, cleared.rels, p));
    } else {
        lemma_clear_each_facts(sc.st, ps);
        lemma_enumerable::<String>(here);
        assert forall|key: Seq<Value>| !(#[trigger] holds(r.rels, (p, key))) by {
            let k: KeyV = (p, key);
            lemma_same_rows(cleared.rels, seeded.rels, k);
            assert(holds(r.rels, k) == holds(seeded.rels, k));
            assert(ps.contains(p)) by {
                assert(ps.to_set().contains(p));
            }
            assert(!holds(cleared.rels, k));
        }
    }
}

/// No fact is stated of an aggregated predicate.
pub open spec fn folds_unstated(cs: Seq<ClauseV>) -> bool {
    forall|i: int| 0 <= i < cs.len() && (#[trigger] cs[i]).is_fact ==> !aggregated(cs, cs[i].head.pred)
}

/// A step of a recomputation keeps what is tallied.
pub proof fn lemma_step_tallied(sc: ScopeV, now: i64, cs: Seq<ClauseV>, strata: Seq<Seq<int>>, s: int, i: int)
    requires
        folds_apart(cs),
        folds_unstated(cs),
        0 <= s < strata.len(),
        rule_list(cs, strata[s]),
        is_fold(cs, i),
        rels_wf(sc.st.rels),
        is_tallied(sc.st.rels, cs[i], i),
    ensures
        is_tallied(scope_step(sc, now, cs, strata, strata[s]).st.rels, cs[i], i),
{
    let idx = strata[s];
    let c = cs[i];
    let h = c.head.pred;
    let t = temp_name(c, i);
    let here = scope_here(cs, idx, sc.to_clear);
    let next = scope_step(sc, now, cs, strata, idx);
    lemma_cleared_here(cs, idx, sc.to_clear, i);
    if here != Set::<Seq<char>>::empty() {
        let r = reset(sc, cs, here);
        let e = eval_stratum_of(r, now, cs, idx).st;
        assert(next.st == e);
        assert(aggregated(cs, h));
        lemma_temp_prefix(c, i);
        lemma_reset_same(sc, cs, idx, h);
        lemma_reset_same(sc, cs, idx, t);
        if here.contains(h) {
            let j = choose|j: int| 0 <= j < idx.len() && idx[j] == i;
            assert(spans_groups(r.rels, c));
            lemma_eval_own(r, now, cs, idx, j);
        } else {
            lemma_tallied_same(sc.st.rels, r.rels, c, i);
            lemma_eval_tallied(r, now, cs, idx, i);
        }
    }
}

/// A step of a recomputation leaves every aggregated predicate tallied or
/// still to be cleared.
proof fn lemma_step_owes(sc: ScopeV, now: i64, cs: Seq<ClauseV>, strata: Seq<Seq<int>>, s: int, i: int)
    requires
        folds_apart(cs),
        folds_unstated(cs),
        0 <= s < strata.len(),
        rule_list(cs, strata[s]),
        is_fold(cs, i),
        in_heads(cs, strata, cs[i].head.pred),
        rels_wf(sc.st.rels),
        owes(sc, cs[i], i),
    ensures
        owes(scope_step(sc, now, cs, strata, strata[s]), cs[i], i),
{
    let idx = strata[s];
    let c = cs[i];
    let h = c.head.pred;
    let t = temp_name(c, i);
    let here = scope_here(cs, idx, sc.to_clear);
    let next = scope_step(sc, now, cs, strata, idx);
    lemma_cleared_here(cs, idx, sc.to_clear, i);
    if here != Set::<Seq<char>>::empty() {
        let r = reset(sc, cs, here);
        let e = eval_stratum_of(r, now, cs, idx).st;
        assert(next.st == e);
        assert(aggregated(cs, h));
        lemma_temp_prefix(c, i);
        lemma_reset_same(sc, cs, idx, h);
        lemma_reset_same(sc, cs, idx, t);
        if !idx.contains(i) {
            lemma_tallied_same(sc.st.rels, r.rels, c, i);
            lemma_eval_other(r, now, cs, idx, i);
            assert(same_facts(r.rels, e.rels, h));
            assert(same_facts(r.rels, e.rels, t));
            lemma_tallied_same(r.rels, e.rels, c, i);
        } else {
            let j = choose|j: int| 0 <= j < idx.len() && idx[j] == i;
            if here.contains(h) {
                assert(spans_groups(r.rels, c));
                lemma_eval_own(r, now, cs, idx, j);
            } else {
                lemma_tallied_same(sc.st.rels, r.rels, c, i);
                lemma_eval_tallied(r, now, cs, idx, i);
            }
        }
    } else {
        assert(next == sc);
    }
}

// ---------------------------------------------------------------------- levels

/// The level at which a relation is written: that of a derived predicate, or
/// that of the rule of an intermediate relation.
pub open spec fn written_at(cs: Seq<ClauseV>, l: Map<Seq<char>, nat>, r: Seq<char>, v: int) -> bool {
    (l.contains_key(r) && l[r] == v) || exists|i: int|
        #[trigger] is_fold(cs, i) && r == temp_name(cs[i], i) && l[cs[i].head.pred] == v
}

/// Every relation that is to be cleared is written at a level that is still
/// ahead.
pub open spec fn all_placed(cs: Seq<ClauseV>, l: Map<Seq<char>, nat>, s: int, to_clear: Set<Seq<char>>) -> bool {
    forall|r: Seq<char>| #[trigger] to_clear.contains(r) ==> exists|v: int| #[trigger] written_at(cs, l, r, v) && v >= s
}

/// The rules of a level are listed in its stratum.
pub proof fn lemma_rule_list(cs: Seq<ClauseV>, l: Map<Seq<char>, nat>, strata: Seq<Seq<int>>, s: int)
    requires
        leveled(cs, l, strata),
        0 <= s < strata.len(),
    ensures
        rule_list(cs, strata[s]),
        forall|i: int| 0 <= i < cs.len() ==> (#[trigger] strata[s].contains(i) <==> !cs[i].is_fact && l[cs[i].head.pred] == s),
{
    let from = Seq::new(cs.len(), |i: int| i);
    let keep = at_level(cs, l, s);
    assert(strata[s] == from.filter(keep));
    lemma_stratum_rules(cs, l, strata, s);
    lemma_filter_ascends(from, keep);
    assert forall|i: int| 0 <= i < cs.len() implies (#[trigger] strata[s].contains(i) <==> !cs[i].is_fact && l[cs[i].head.pred] == s) by {
        if strata[s].contains(i) {
            let j = choose|j: int| 0 <= j < strata[s].len() && strata[s][j] == i;
            from.lemma_filter_pred(keep, j);
        }
        if !cs[i].is_fact && l[cs[i].head.pred] == s {
            assert(from[i] == i);
            from.lemma_filter_contains(keep, i);
        }
    }
}

proof fn lemma_filter_ascends(q: Seq<int>, keep: spec_fn(int) -> bool)
    requires
        forall|i: int, j: int| 0 <= i < j < q.len() ==> q[i] < q[j],
    ensures
        forall|i: int, j: int| 0 <= i < j < q.filter(keep).len() ==> q.filter(keep)[i] < q.filter(keep)[j],
        forall|i: int| 0 <= i < q.filter(keep).len() ==> q.contains(#[trigger] q.filter(keep)[i]),
    decreases q.len(),
{
    reveal(Seq::filter);
    if q.len() > 0 {
        let d = q.drop_last();
        lemma_filter_ascends(d, keep);
        let f = d.filter(keep);
        assert forall|i: int| 0 <= i < f.len() implies f[i] < q.last() && q.contains(#[trigger] f[i]) by {
            assert(d.contains(f[i]));
            let j = choose|j: int| 0 <= j < d.len() && d[j] == f[i];
            assert(q[j] == f[i]);
            assert(q[j] < q[q.len() - 1]);
        }
        assert(q.contains(q.last()));
    }
}

pub proof fn lemma_reads_not_own(cs: Seq<ClauseV>, i: int, p: Seq<char>)
    requires
        strata_error(cs) is None,
        is_fold(cs, i),
        body_reads(cs[i], p),
    ensures
        p != cs[i].head.pred,
{
    let j = choose|j: int| 0 <= j < cs[i].body.len() && lit_reads(#[trigger] cs[i].body[j], p);
    assert(aggregate_error(cs, edges_of(cs), 0) is None);
    lemma_no_aggregate_error(cs, 0, i);
    lemma_no_body_error(cs, i, 0, j);
}

pub proof fn lemma_no_aggregate_error(cs: Seq<ClauseV>, a: int, i: int)
    requires
        aggregate_error(cs, edges_of(cs), a) is None,
        0 <= a <= i,
        is_fold(cs, i),
    ensures
        aggregate_body_error(edges_of(cs), cs[i], 0) is None,
    decreases i - a,
{
    if a < i {
        lemma_no_aggregate_error(cs, a + 1, i);
    }
}

pub proof fn lemma_no_body_error(cs: Seq<ClauseV>, i: int, a: int, j: int)
    requires
        aggregate_body_error(edges_of(cs), cs[i], a) is None,
        0 <= a <= j < cs[i].body.len(),
        lit_dep(cs[i].body[j]) is Some,
    ensures
        lit_dep(cs[i].body[j])->Some_0.0 != cs[i].head.pred,
        !linked(edges_of(cs), lit_dep(cs[i].body[j])->Some_0.0, cs[i].head.pred),
    decreases j - a,
{
    if a < j {
        lemma_no_body_error(cs, i, a + 1, j);
    }
}

/// What a stratum clears is written at its level, and only there.
proof fn lemma_here_level(
    cs: Seq<ClauseV>,
    l: Map<Seq<char>, nat>,
    strata: Seq<Seq<int>>,
    s: int,
    to_clear: Set<Seq<char>>,
    p: Seq<char>,
    v: int,
)
    requires
        folds_apart(cs),
        leveled(cs, l, strata),
        0 <= s < strata.len(),
        written_at(cs, l, p, v),
    ensures
        scope_here(cs, strata[s], to_clear).contains(p) ==> v == s,
        v == s && to_clear.contains(p) ==> scope_here(cs, strata[s], to_clear).contains(p),
{
    let idx = strata[s];
    let here = scope_here(cs, idx, to_clear);
    lemma_rule_list(cs, l, strata, s);
    if here.contains(p) {
        let j = choose|j: int| 0 <= j < idx.len() && filled_by(cs, #[trigger] idx[j], p);
        let k = idx[j];
        assert(idx.contains(k));
        assert(0 <= k < cs.len() && !cs[k].is_fact && l[cs[k].head.pred] == s);
        if !(l.contains_key(p) && l[p] == v) {
            let i = choose|i: int| #[trigger] is_fold(cs, i) && p == temp_name(cs[i], i) && l[cs[i].head.pred] == v;
            lemma_apart(cs, i, k);
            assert(i == k);
        } else if cs[k].head.pred != p {
            assert(defined(cs, p));
            let y = choose|y: int| 0 <= y < cs.len() && !(#[trigger] cs[y]).is_fact && cs[y].head.pred == p;
            assert(is_fold(cs, k));
            lemma_apart(cs, k, y);
        }
    }
    if v == s && to_clear.contains(p) {
        if l.contains_key(p) && l[p] == v {
            assert(defined(cs, p));
            let y = choose|y: int| 0 <= y < cs.len() && !(#[trigger] cs[y]).is_fact && cs[y].head.pred == p;
            assert(idx.contains(y));
            let j = choose|j: int| 0 <= j < idx.len() && idx[j] == y;
            assert(filled_by(cs, idx[j], p));
            lemma_here_starts(cs, idx, to_clear, p, j);
        } else {
            let i = choose|i: int| #[trigger] is_fold(cs, i) && p == temp_name(cs[i], i) && l[cs[i].head.pred] == v;
            assert(idx.contains(i));
            let j = choose|j: int| 0 <= j < idx.len() && idx[j] == i;
            assert(filled_by(cs, idx[j], p));
            lemma_here_starts(cs, idx, to_clear, p, j);
        }
    }
}

/// What a step puts into the queue is written at a higher level.
proof fn lemma_queued_placed(
    sc: ScopeV,
    cs: Seq<ClauseV>,
    l: Map<Seq<char>, nat>,
    strata: Seq<Seq<int>>,
    s: int,
    is: RelsV,
    r: Seq<char>,
)
    requires
        folds_apart(cs),
        leveled(cs, l, strata),
        0 <= s < strata.len(),
        scope_queued(cs, strata, scope_here(cs, strata[s], sc.to_clear), sc.st.rels, is).contains(r),
    ensures
        exists|v: int| #[trigger] written_at(cs, l, r, v) && v >= s + 1,
{
    let idx = strata[s];
    let here = scope_here(cs, idx, sc.to_clear);
    let p = choose|p: Seq<char>| here.contains(p) && tuples_of(sc.st.rels, p) != tuples_of(is, p) && #[trigger] direct_reader(cs, p, r);
    let i = choose|i: int| rule_reads(cs, i, p, r);
    let c = cs[i];
    lemma_rule_list(cs, l, strata, s);
    assert(defined(cs, c.head.pred));
    assert(l.contains_key(c.head.pred));
    let w = l[c.head.pred] as int;
    if w == s {
        assert(idx.contains(i));
        let j = choose|j: int| 0 <= j < idx.len() && idx[j] == i;
        assert(filled_by(cs, idx[j], r));
        lemma_here_spreads(cs, idx, sc.to_clear, p, r, j);
    }
    if body_reads(c, p) && r == owner(c, i) {
        let x = choose|x: int| 0 <= x < idx.len() && filled_by(cs, #[trigger] idx[x], p);
        let k = idx[x];
        assert(idx.contains(k));
        assert(0 <= k < cs.len() && !cs[k].is_fact && l[cs[k].head.pred] == s);
        assert(!is_temp(p));
        assert(cs[k].head.pred == p) by {
            if cs[k].head.pred != p {
                lemma_temp_prefix(cs[k], k);
            }
        }
        assert(defined(cs, p));
        assert(l.contains_key(p));
        let j = choose|j: int| 0 <= j < c.body.len() && lit_reads(#[trigger] c.body[j], p);
        lemma_reads_below(cs, l, i, j);
        if aggregates(c) {
            assert(is_fold(cs, i));
        }
        assert(written_at(cs, l, r, w));
    } else {
        assert(aggregates(c) && p == temp_name(c, i) && r == c.head.pred);
        assert(is_fold(cs, i));
        assert(written_at(cs, l, p, w));
        lemma_here_level(cs, l, strata, s, sc.to_clear, p, w);
    }
}

proof fn lemma_step_placed(sc: ScopeV, now: i64, cs: Seq<ClauseV>, l: Map<Seq<char>, nat>, strata: Seq<Seq<int>>, s: int)
    requires
        folds_apart(cs),
        leveled(cs, l, strata),
        0 <= s < strata.len(),
        all_placed(cs, l, s, sc.to_clear),
    ensures
        all_placed(cs, l, s + 1, scope_step(sc, now, cs, strata, strata[s]).to_clear),
{
    let here = scope_here(cs, strata[s], sc.to_clear);
    let next = scope_step(sc, now, cs, strata, strata[s]);
    assert forall|r: Seq<char>| #[trigger] next.to_clear.contains(r) implies exists|v: int| #[trigger]
        written_at(cs, l, r, v) && v >= s + 1 by {
        if sc.to_clear.contains(r) && !here.contains(r) {
            let v = choose|v: int| #[trigger] written_at(cs, l, r, v) && v >= s;
            lemma_here_level(cs, l, strata, s, sc.to_clear, r, v);
            assert(written_at(cs, l, r, v) && v >= s + 1);
        } else {
            lemma_queued_placed(sc, cs, l, strata, s, next.st.rels, r);
        }
    }
}

// ---------------------------------------------------------------------- passes

/// All aggregated predicates are tallied or still to be cleared.
pub open spec fn all_owe(sc: ScopeV, cs: Seq<ClauseV>) -> bool {
    rels_wf(sc.st.rels) && forall|i: int| #[trigger] is_fold(cs, i) ==> owes(sc, cs[i], i)
}

proof fn lemma_listed(cs: Seq<ClauseV>, l: Map<Seq<char>, nat>, strata: Seq<Seq<int>>, i: int)
    requires
        leveled(cs, l, strata),
        is_fold(cs, i),
    ensures
        in_heads(cs, strata, cs[i].head.pred),
{
    let p = cs[i].head.pred;
    assert(defined(cs, p));
    assert(l.contains_key(p));
    let s = l[p] as int;
    assert(s < strata.len());
    lemma_rule_list(cs, l, strata, s);
    assert(strata[s].contains(i));
    let j = choose|j: int| 0 <= j < strata[s].len() && strata[s][j] == i;
    assert(cs[strata[s][j]].head.pred == p);
}

proof fn lemma_pass_owes(sc: ScopeV, now: i64, cs: Seq<ClauseV>, l: Map<Seq<char>, nat>, strata: Seq<Seq<int>>, s: int)
    requires
        folds_apart(cs),
        folds_unstated(cs),
        leveled(cs, l, strata),
        0 <= s <= strata.len(),
        all_owe(sc, cs),
        all_placed(cs, l, s, sc.to_clear),
    ensures
        all_owe(scope_pass(sc, now, cs, strata, s), cs),
        all_placed(cs, l, strata.len() as int, scope_pass(sc, now, cs, strata, s).to_clear),
    decreases strata.len() - s,
{
    if s < strata.len() {
        let next = scope_step(sc, now, cs, strata, strata[s]);
        lemma_rule_list(cs, l, strata, s);
        assert(is_strata(cs, strata));
        lemma_strata_fit(cs, strata);
        assert(indices_of(strata[s], cs.len() as int));
        assert(writes_in(cs, anything()));
        lemma_step_touches(sc, now, cs, strata, strata[s], anything());
        assert forall|i: int| #[trigger] is_fold(cs, i) implies owes(next, cs[i], i) by {
            lemma_listed(cs, l, strata, i);
            lemma_step_owes(sc, now, cs, strata, s, i);
        }
        lemma_step_placed(sc, now, cs, l, strata, s);
        lemma_pass_owes(next, now, cs, l, strata, s + 1);
    }
}

/// After one pass nothing is left to be cleared.
proof fn lemma_passes_owe(sc: ScopeV, now: i64, cs: Seq<ClauseV>, l: Map<Seq<char>, nat>, strata: Seq<Seq<int>>, n: nat)
    requires
        folds_apart(cs),
        folds_unstated(cs),
        leveled(cs, l, strata),
        all_owe(sc, cs),
        all_placed(cs, l, 0, sc.to_clear),
        n > 0,
    ensures
        all_owe(scope_passes(sc, now, cs, strata, n), cs),
        scope_passes(sc, now, cs, strata, n).to_clear == Set::<Seq<char>>::empty(),
{
    if sc.to_clear != Set::<Seq<char>>::empty() {
        let next = scope_pass(sc, now, cs, strata, 0);
        lemma_pass_owes(sc, now, cs, l, strata, 0);
        assert(next.to_clear =~= Set::<Seq<char>>::empty()) by {
            assert forall|r: Seq<char>| !(#[trigger] next.to_clear.contains(r)) by {
                if next.to_clear.contains(r) {
                    let v = choose|v: int| #[trigger] written_at(cs, l, r, v) && v >= strata.len();
                    lemma_level_bound(cs, l, strata, r, v);
                }
            }
        }
        assert(scope_passes(sc, now, cs, strata, n) == scope_passes(next, now, cs, strata, (n - 1) as nat));
        assert(scope_passes(next, now, cs, strata, (n - 1) as nat) == next);
    }
}

pub proof fn lemma_level_bound(cs: Seq<ClauseV>, l: Map<Seq<char>, nat>, strata: Seq<Seq<int>>, r: Seq<char>, v: int)
    requires
        leveled(cs, l, strata),
        written_at(cs, l, r, v),
    ensures
        0 <= v < strata.len(),
{
    if !(l.contains_key(r) && l[r] == v) {
        let i = choose|i: int| #[trigger] is_fold(cs, i) && r == temp_name(cs[i], i) && l[cs[i].head.pred] == v;
        assert(defined(cs, cs[i].head.pred));
        assert(l.contains_key(cs[i].head.pred));
    }
}

// ------------------------------------------------------------------------ runs

/// Every aggregated predicate is tallied.
pub open spec fn all_tallied(rels: RelsV, cs: Seq<ClauseV>) -> bool {
    forall|i: int| #[trigger] is_fold(cs, i) ==> is_tallied(rels, cs[i], i)
}

pub proof fn lemma_strata_tallied(st: StoreV, now: i64, cs: Seq<ClauseV>, l: Map<Seq<char>, nat>, strata: Seq<Seq<int>>, s: int)
    requires
        folds_apart(cs),
        leveled(cs, l, strata),
        0 <= s <= strata.len(),
        rels_wf(st.rels),
        all_tallied(st.rels, cs),
    ensures
        all_tallied(eval_strata(st, now, cs, strata, s).st.rels, cs),
        rels_wf(eval_strata(st, now, cs, strata, s).st.rels),
    decreases strata.len() - s,
{
    if s < strata.len() {
        let e = eval_stratum_of(st, now, cs, strata[s]).st;
        lemma_rule_list(cs, l, strata, s);
        assert(is_strata(cs, strata));
        lemma_strata_fit(cs, strata);
        assert(indices_of(strata[s], cs.len() as int));
        assert(writes_in(cs, anything()));
        lemma_stratum_touches(st, now, cs, strata[s], anything());
        assert forall|i: int| #[trigger] is_fold(cs, i) implies is_tallied(e.rels, cs[i], i) by {
            lemma_eval_tallied(st, now, cs, strata[s], i);
        }
        lemma_strata_tallied(e, now, cs, l, strata, s + 1);
    }
}

proof fn lemma_invalidate_tallied(
    st: StoreV,
    now: i64,
    cs: Seq<ClauseV>,
    l: Map<Seq<char>, nat>,
    strata: Seq<Seq<int>>,
    mark: int,
    n: nat,
)
    requires
        folds_apart(cs),
        folds_unstated(cs),
        leveled(cs, l, strata),
        rels_wf(st.rels),
        all_tallied(st.rels, cs),
    ensures
        all_tallied(invalidate(st, now, cs, strata, mark, n).st.rels, cs),
    decreases n,
{
    let extra = stale_readers(st, cs, mark);
    if !(n == 0 || (st.retracted == Set::<Seq<char>>::empty() && extra == Set::<Seq<char>>::empty())) {
        let sc = scope_begun(st, cs, strata, extra);
        let r = scoped(st, now, cs, strata, extra).st;
        let turns = strata.len() + 2;
        assert forall|i: int| #[trigger] is_fold(cs, i) implies owes(sc, cs[i], i) by {
            assert(is_tallied(st.rels, cs[i], i));
        }
        assert(all_placed(cs, l, 0, sc.to_clear)) by {
            assert forall|p: Seq<char>| #[trigger] sc.to_clear.contains(p) implies exists|v: int| #[trigger]
                written_at(cs, l, p, v) && v >= 0 by {
                lemma_idb_level(cs, l, strata, p);
            }
        }
        lemma_passes_owe(sc, now, cs, l, strata, turns);
        let e = scope_passes(sc, now, cs, strata, turns);
        assert(r == e.st);
        assert forall|i: int| #[trigger] is_fold(cs, i) implies is_tallied(r.rels, cs[i], i) by {
            assert(owes(e, cs[i], i));
        }
        lemma_invalidate_tallied(r, now, cs, l, strata, mark, (n - 1) as nat);
    }
}

proof fn lemma_idb_level(cs: Seq<ClauseV>, l: Map<Seq<char>, nat>, strata: Seq<Seq<int>>, p: Seq<char>)
    requires
        leveled(cs, l, strata),
        is_idb(cs, strata, p),
    ensures
        exists|v: int| #[trigger] written_at(cs, l, p, v) && v >= 0,
{
    if in_heads(cs, strata, p) {
        let (s, j) = choose|s: int, j: int|
            0 <= s < strata.len() && 0 <= j < strata[s].len() && cs[#[trigger] strata[s][j]].head.pred == p;
        lemma_rule_list(cs, l, strata, s);
        assert(0 <= strata[s][j] < cs.len() && !cs[strata[s][j]].is_fact);
        assert(defined(cs, p));
        assert(l.contains_key(p));
        assert(written_at(cs, l, p, l[p] as int));
    } else {
        let i = choose|i: int| 0 <= i < cs.len() && !cs[i].is_fact && aggregates(cs[i]) && #[trigger] temp_name(cs[i], i) == p;
        assert(is_fold(cs, i));
        assert(written_at(cs, l, p, l[cs[i].head.pred] as int));
    }
}

/// Law: a run keeps every aggregate in step with its stored solutions. Where
/// each aggregated predicate holds the folds of the stored solutions of its
/// rule, one fact for each group and no others, it does so after a run,
/// whatever the run derives, retracts and clears. Each aggregated predicate has
/// one rule and no stated facts, and no clause is about intermediate
/// relations.
pub proof fn aggregates_kept(e: EngineV)
    requires
        rels_wf(prepared(e).st.rels),
        e.clauses.len() <= usize::MAX,
        folds_apart(e.clauses),
        folds_unstated(e.clauses),
        all_tallied(prepared(e).st.rels, e.clauses),
    ensures
        all_tallied(ran(e).0.st.rels, e.clauses),
{
    let cs = e.clauses;
    let strata = strata_of(cs);
    let st = prepared(e).st;
    let f = eval_strata(st, e.now, cs, strata, 0).st;
    let inv = invalidate(f, e.now, cs, strata, e.mark, strata.len() + 2).st;
    strata_exist(cs);
    let l = choose|l: Map<Seq<char>, nat>| #[trigger] is_levels(cs, l) && grouped(cs, l, strata);
    assert(leveled(cs, l, strata));
    lemma_strata_tallied(st, e.now, cs, l, strata, 0);
    lemma_invalidate_tallied(f, e.now, cs, l, strata, e.mark, strata.len() + 2);
    let r = ran(e).0.st;
    assert(r.rels == rels_settled(inv.rels));
    assert forall|i: int| #[trigger] is_fold(cs, i) implies is_tallied(r.rels, cs[i], i) by {
        lemma_tallied_same(inv.rels, r.rels, cs[i], i);
    }
}

/// Law: where neither the aggregated predicates nor the intermediate relations
/// hold anything, as after a change of the program, the aggregates are right.
pub proof fn aggregates_begin(rels: RelsV, cs: Seq<ClauseV>)
    requires
        forall|k: KeyV| #[trigger] holds(rels, k) ==> !aggregated(cs, k.0) && !is_temp(k.0),
    ensures
        all_tallied(rels, cs),
{
    assert forall|i: int| #[trigger] is_fold(cs, i) implies is_tallied(rels, cs[i], i) by {
        let c = cs[i];
        let temp = temp_name(c, i);
        let keys = solutions(rels, c, i);
        lemma_temp_prefix(c, i);
        assert(keys.len() == 0) by {
            if keys.len() > 0 {
                assert(rels[temp].rows[0].key == keys[0]);
                assert(holds(rels, (temp, keys[0])));
            }
        }
        assert forall|key: Seq<Value>| #[trigger] holds(rels, (c.head.pred, key)) <==> is_tally(c, keys, key) by {
            if holds(rels, (c.head.pred, key)) {
                assert(aggregated(cs, c.head.pred));
            }
            if is_tally(c, keys, key) {
                let g = choose|g: Seq<Value>| #[trigger] groups_of(c, keys).contains(g) && key == tally(c, keys, g);
                let y = choose|y: int| 0 <= y < keys.len() && #[trigger] in_group(group_len(c.head.args) as int, g)(keys[y]);
            }
        }
    }
}

/// Law: declaring or retracting a fact that is neither of an aggregated
/// predicate nor of an intermediate relation leaves the aggregates as they
/// are.
pub proof fn aggregates_untouched(st: StoreV, cs: Seq<ClauseV>, k: KeyV, ann: AnnV)
    requires
        all_tallied(st.rels, cs),
        !aggregated(cs, k.0),
        !is_temp(k.0),
    ensures
        all_tallied(declared(st, k, ann).rels, cs),
        all_tallied(store_retract(st, k).rels, cs),
{
    assert forall|i: int| #[trigger] is_fold(cs, i) implies is_tallied(declared(st, k, ann).rels, cs[i], i) && is_tallied(
        store_retract(st, k).rels,
        cs[i],
        i,
    ) by {
        let c = cs[i];
        lemma_temp_prefix(c, i);
        assert(aggregated(cs, c.head.pred));
        lemma_tallied_same(st.rels, declared(st, k, ann).rels, c, i);
        lemma_tallied_same(st.rels, store_retract(st, k).rels, c, i);
    }
}

/// What is tallied is up to date for a run.
pub proof fn lemma_tallied_folded(rels: RelsV, cs: Seq<ClauseV>)
    requires
        all_tallied(rels, cs),
    ensures
        all_folded(rels, cs),
{
    assert forall|i: int| 0 <= i < cs.len() && !(#[trigger] cs[i]).is_fact && aggregates(cs[i]) implies is_folded(rels, cs[i], i) by {
        let c = cs[i];
        let keys = solutions(rels, c, i);
        let gl = group_len(c.head.args) as int;
        assert(is_fold(cs, i));
        lemma_tallied_spans(rels, c, i);
        if rels.contains_key(temp_name(c, i)) {
            assert forall|g: Seq<Value>| #[trigger] groups(keys, gl).contains(g) implies group_folded(rels, c, g, group_rows(keys, gl, g)) by {
                let out = tally(c, keys, g);
                let y = choose|y: int| 0 <= y < keys.len() && #[trigger] in_group(gl, g)(keys[y]);
                assert(g.len() == gl) by {
                    assert(keys[y].take(gl).len() == gl);
                }
                assert(groups_of(c, keys).contains(g));
                assert(is_tally(c, keys, out));
                assert(holds(rels, (c.head.pred, out)));
                assert forall|key: Seq<Value>| #[trigger] holds(rels, (c.head.pred, key)) && begins(key, g) implies key == out by {
                    let x = choose|x: Seq<Value>| #[trigger] groups_of(c, keys).contains(x) && key == tally(c, keys, x);
                    let z = choose|z: int| 0 <= z < keys.len() && #[trigger] in_group(gl, x)(keys[z]);
                    assert(keys[z].take(gl).len() == gl);
                    lemma_tally_group(c, keys, x);
                    assert(x =~= g) by {
                        assert forall|j: int| 0 <= j < gl implies x[j] == g[j] by {
                            assert(key.take(gl)[j] == key[j]);
                            assert(key[j] == g[j]);
                        }
                    }
                }
            }
        }
    }
}

/// Law: a second run right after a first one derives nothing, aggregates
/// included.
pub proof fn second_aggregate_run_idle(e: EngineV)
    requires
        rels_wf(e.st.rels),
        rels_wf(prepared(e).st.rels),
        e.clauses.len() <= usize::MAX,
        folds_apart(e.clauses),
        folds_unstated(e.clauses),
        all_relational(e.clauses),
        all_tallied(prepared(e).st.rels, e.clauses),
        facts_stated(ran(e).0.st, e.clauses),
        ran(e).0.st.retracted == Set::<Seq<char>>::empty(),
    ensures
        ran(ran(e).0).1 == 0,
        facts(ran(ran(e).0).0.st.rels) == facts(ran(e).0.st.rels),
        ran(ran(e).0).0.st.feed == ran(e).0.st.feed,
{
    aggregates_kept(e);
    lemma_tallied_folded(ran(e).0.st.rels, e.clauses);
    second_run_idle(e);
}

} // verus!

//! What a program means: evaluating its strata in order gives the least facts
//! that contain the stored ones and are closed under all its rules.

use vstd::prelude::*;
use crate::ast::{ClauseV, LitV};
use crate::engine::{eval_strata, lemma_strata_fit};
use crate::env::{Bindings, EnvV};
use crate::evaluate::{
    eval_stratum_of, evaluated, fixpoint, fold_stratum, has_atom, indices_of, lemma_fixpoint, pending_delta, settles, stratum_rules,
};
use crate::frame::{lemma_rounds_spares, lemma_spares_trans, same_facts, spares};
use crate::model::{
    all_known, all_plain, body_true, closed_under, constants_known, distinct_names, facts, head_fact, is_instance, is_plain,
    is_safe, kept_by, lasting, leads_into, lemma_agrees_before, lemma_assert_facts, lemma_constants_known, lemma_distinct_lasting,
    lemma_fixpoint_least, lemma_rounds_keeps, lit_true, used,
};
use crate::relation::{FactV, KeyV, SupportV};
use crate::solve::{emit, head_values, lemma_emit, lemma_prefix_trans, lemma_store_extends_self, lemma_store_extends_trans, rule_label, store_extends};
use crate::store::{holds, rels_wf, RelsV, StoreV};
use crate::stratify::{
    aggregates, at_level, body_edges, defined, edges_upto, grouped, is_levels, is_strata, lit_dep, rules_at, strata_error,
    strata_exist, strata_of, strata_order, EdgeV,
};
use crate::value::Value;

verus! {

// ------------------------------------------------------------------ meaning

/// A set of facts is closed under the rules of a program, with negated atoms
/// judged by another.
pub open spec fn program_closed(names: Seq<Seq<char>>, now: i64, cs: Seq<ClauseV>, m: Set<KeyV>, n: Set<KeyV>) -> bool {
    forall|i: int| 0 <= i < cs.len() && !(#[trigger] cs[i]).is_fact ==> leads_into(names, now, cs[i], m, n, m)
}

/// The facts are a model of the program over the given ones: the least that
/// contain those and are closed under the rules, with negated atoms judged by
/// the facts themselves.
pub open spec fn is_model(names: Seq<Seq<char>>, now: i64, cs: Seq<ClauseV>, given: Set<KeyV>, all: Set<KeyV>) -> bool {
    &&& given.subset_of(all)
    &&& program_closed(names, now, cs, all, all)
    &&& forall|m: Set<KeyV>| #[trigger]
        program_closed(names, now, cs, m, all) && given.subset_of(m) ==> all.subset_of(m)
}

/// A rule whose firing is complete: it is safe, compares with known constants
/// only, and does not aggregate.
pub open spec fn is_simple(names: Seq<Seq<char>>, c: ClauseV) -> bool {
    is_safe(c) && constants_known(names, c) && !aggregates(c)
}

/// All rules of a program are simple.
pub open spec fn all_simple(names: Seq<Seq<char>>, cs: Seq<ClauseV>) -> bool {
    forall|i: int| 0 <= i < cs.len() && !(#[trigger] cs[i]).is_fact ==> is_simple(names, cs[i])
}

/// Pending facts are stored facts.
pub open spec fn pending_held(rels: RelsV) -> bool {
    forall|k: KeyV| #[trigger] pending_delta(rels).contains(k) ==> holds(rels, k)
}

/// The facts that rules have been fired on.
pub open spec fn settled(rels: RelsV) -> Set<KeyV> {
    facts(rels).difference(pending_delta(rels))
}

/// What the rules with atoms derive from the given facts is among the stored
/// ones.
pub open spec fn derived_from(
    names: Seq<Seq<char>>,
    now: i64,
    cs: Seq<ClauseV>,
    d: Set<KeyV>,
    n: Set<KeyV>,
    into: Set<KeyV>,
) -> bool {
    forall|i: int|
        0 <= i < cs.len() && !(#[trigger] cs[i]).is_fact && has_atom(cs[i]) ==> leads_into(names, now, cs[i], d, n, into)
}

/// The rounds of every stratum settle.
pub open spec fn strata_settle(st: StoreV, now: i64, cs: Seq<ClauseV>, strata: Seq<Seq<int>>, s: int) -> bool
    decreases strata.len() - s,
{
    0 <= s < strata.len() ==> {
        &&& exists|k: nat| settles(st, now, stratum_rules(cs, strata[s]), pending_delta(st.rels), k)
        &&& strata_settle(eval_stratum_of(st, now, cs, strata[s]).st, now, cs, strata, s + 1)
    }
}

// ------------------------------------------------------------------- levels

proof fn lemma_body_edge_at(cs: Seq<ClauseV>, c: ClauseV, n: int, j: int) -> (k: int)
    requires
        0 <= j < n,
        lit_dep(c.body[j]) is Some,
        defined(cs, lit_dep(c.body[j])->Some_0.0),
    ensures
        0 <= k < body_edges(cs, c, n).len(),
        body_edges(cs, c, n)[k] == (EdgeV {
            head: c.head.pred,
            dep: lit_dep(c.body[j])->Some_0.0,
            neg: lit_dep(c.body[j])->Some_0.1,
        }),
    decreases n,
{
    let b = body_edges(cs, c, n - 1);
    if j == n - 1 {
        b.len() as int
    } else {
        let k = lemma_body_edge_at(cs, c, n - 1, j);
        assert(body_edges(cs, c, n)[k] == b[k]);
        k
    }
}

/// A rule has an edge for every defined predicate that it reads.
pub proof fn lemma_edge_at(cs: Seq<ClauseV>, n: int, i: int, j: int) -> (k: int)
    requires
        0 <= i < n <= cs.len(),
        !cs[i].is_fact,
        0 <= j < cs[i].body.len(),
        lit_dep(cs[i].body[j]) is Some,
        defined(cs, lit_dep(cs[i].body[j])->Some_0.0),
    ensures
        0 <= k < edges_upto(cs, n).len(),
        edges_upto(cs, n)[k] == (EdgeV {
            head: cs[i].head.pred,
            dep: lit_dep(cs[i].body[j])->Some_0.0,
            neg: lit_dep(cs[i].body[j])->Some_0.1,
        }),
    decreases n,
{
    let a = edges_upto(cs, n - 1);
    let c = cs[n - 1];
    let b = body_edges(cs, c, c.body.len() as int);
    if i == n - 1 {
        let k = lemma_body_edge_at(cs, c, c.body.len() as int, j);
        assert((a + b)[a.len() + k] == b[k]);
        a.len() + k
    } else {
        let k = lemma_edge_at(cs, n - 1, i, j);
        if !c.is_fact {
            assert((a + b)[k] == a[k]);
        }
        k
    }
}

/// The predicates defined at a level or above.
pub open spec fn above(l: Map<Seq<char>, nat>, s: int) -> Set<Seq<char>> {
    Set::new(|p: Seq<char>| l.contains_key(p) && l[p] >= s)
}

/// The levels of a program, and its strata.
pub open spec fn leveled(cs: Seq<ClauseV>, l: Map<Seq<char>, nat>, strata: Seq<Seq<int>>) -> bool {
    strata_error(cs) is None && is_levels(cs, l) && grouped(cs, l, strata)
}

/// What a rule reads is not above its level, and what it negates is below.
pub proof fn lemma_reads_below(cs: Seq<ClauseV>, l: Map<Seq<char>, nat>, i: int, j: int)
    requires
        strata_error(cs) is None,
        is_levels(cs, l),
        0 <= i < cs.len(),
        !cs[i].is_fact,
        0 <= j < cs[i].body.len(),
    ensures
        l.contains_key(cs[i].head.pred),
        match cs[i].body[j] {
            LitV::Pos(a) => !above(l, l[cs[i].head.pred] as int + 1).contains(a.pred),
            LitV::Neg(a) => !above(l, l[cs[i].head.pred] as int).contains(a.pred),
            _ => true,
        },
{
    assert(defined(cs, cs[i].head.pred));
    if let Some(d) = lit_dep(cs[i].body[j]) {
        if l.contains_key(d.0) {
            let k = lemma_edge_at(cs, cs.len() as int, i, j);
            strata_order(cs, l, k);
        }
    }
}

/// A rule is the clause at a position, of a level.
pub open spec fn is_rule_at(cs: Seq<ClauseV>, l: Map<Seq<char>, nat>, s: int, c: ClauseV, i: int) -> bool {
    0 <= i < cs.len() && !cs[i].is_fact && l[cs[i].head.pred] == s && c == cs[i]
}

/// The rules of a stratum are the simple rules of its level.
pub proof fn lemma_stratum(cs: Seq<ClauseV>, l: Map<Seq<char>, nat>, strata: Seq<Seq<int>>, s: int, names: Seq<Seq<char>>)
    requires
        leveled(cs, l, strata),
        all_simple(names, cs),
        0 <= s < strata.len(),
    ensures
        forall|j: int|
            0 <= j < stratum_rules(cs, strata[s]).len() ==> is_rule_at(
                cs,
                l,
                s,
                #[trigger] stratum_rules(cs, strata[s])[j],
                strata[s][j],
            ),
        forall|i: int|
            0 <= i < cs.len() && !(#[trigger] cs[i]).is_fact && l[cs[i].head.pred] == s ==> exists|j: int|
                0 <= j < stratum_rules(cs, strata[s]).len() && #[trigger] stratum_rules(cs, strata[s])[j] == cs[i],
        all_plain(names, stratum_rules(cs, strata[s]), above(l, s)),
{
    let idx = strata[s];
    let rules = stratum_rules(cs, idx);
    let from = Seq::new(cs.len(), |i: int| i);
    let keep = at_level(cs, l, s);
    assert(idx == rules_at(cs, l, s));
    assert(idx == from.filter(keep));
    assert forall|j: int| 0 <= j < rules.len() implies is_rule_at(cs, l, s, #[trigger] rules[j], idx[j]) by {
        from.lemma_filter_pred(keep, j);
        let i = idx[j];
        assert(0 <= i < cs.len()) by {
            assert(is_strata(cs, strata));
            lemma_strata_fit(cs, strata);
            assert(indices_of(strata[s], cs.len() as int));
            assert(0 <= strata[s][j] < cs.len());
        }
        assert(rules[j] == evaluated(cs[i], i));
        assert(is_simple(names, cs[i]));
    }
    assert forall|i: int| 0 <= i < cs.len() && !(#[trigger] cs[i]).is_fact && l[cs[i].head.pred] == s implies exists|j: int|
        0 <= j < rules.len() && #[trigger] rules[j] == cs[i] by {
        assert(from[i] == i);
        from.lemma_filter_contains(keep, i);
        let j = choose|j: int| 0 <= j < idx.len() && idx[j] == i;
        assert(rules[j] == evaluated(cs[i], i));
        assert(is_simple(names, cs[i]));
        assert(rules[j] == cs[i]);
    }
    assert forall|j: int| 0 <= j < rules.len() implies is_plain(names, #[trigger] rules[j], above(l, s)) by {
        let i = idx[j];
        assert(rules[j] == cs[i]);
        assert(is_simple(names, cs[i]));
        assert(defined(cs, cs[i].head.pred));
        assert forall|x: int| 0 <= x < cs[i].body.len() implies (match #[trigger] cs[i].body[x] {
            LitV::Neg(a) => !above(l, s).contains(a.pred),
            _ => true,
        }) by {
            lemma_reads_below(cs, l, i, x);
        }
    }
}

pub proof fn lemma_nothing_folded(st: StoreV, cs: Seq<ClauseV>, idx: Seq<int>, i: int)
    requires
        forall|j: int| 0 <= j < idx.len() ==> !aggregates(cs[#[trigger] idx[j]]),
    ensures
        fold_stratum(st, cs, idx, i) == st,
    decreases idx.len() - i,
{
    if 0 <= i < idx.len() {
        assert(!aggregates(cs[idx[i]]));
        lemma_nothing_folded(st, cs, idx, i + 1);
    }
}

// --------------------------------------------------------------- invariants

/// The relations of a store in the course of a run that began with the given
/// facts settled.
pub open spec fn in_run(d: Set<KeyV>) -> spec_fn(StoreV) -> bool {
    |st: StoreV|
        rels_wf(st.rels) && pending_held(st.rels) && facts(st.rels).finite() && settled(st.rels) =~= d
}

pub proof fn lemma_in_run_lasting(d: Set<KeyV>, cs: Seq<ClauseV>)
    ensures
        lasting(in_run(d), cs),
{
    assert forall|i: int| 0 <= i < cs.len() implies kept_by(in_run(d), #[trigger] cs[i]) by {
        lemma_in_run_kept(d, cs[i]);
    }
}

proof fn lemma_in_run_kept(d: Set<KeyV>, c: ClauseV)
    ensures
        kept_by(in_run(d), c),
{
    assert forall|st: StoreV, env: EnvV| in_run(d)(st) implies #[trigger] in_run(d)(emit(st, c, env).0) by {
        lemma_emit(st, c, env);
        let e = emit(st, c, env).0;
        let h = head_values(st.names, c.head.args, env.map);
        if let Some(args) = h.1 {
            let k = (c.head.pred, args);
            let f = FactV { ann: env.ann, supports: seq![SupportV::Rule { rule: rule_label(c), body: env.keys }] };
            let st1 = StoreV { names: h.0, ..st };
            lemma_asserted(st1, k, f);
            assert(settled(e.rels) =~= settled(st.rels));
        } else {
            assert(e.rels == st.rels);
        }
    }
}

/// Asserting a fact leaves the settled ones alone.
pub proof fn lemma_asserted(st: StoreV, k: KeyV, f: FactV)
    requires
        rels_wf(st.rels),
        pending_held(st.rels),
        facts(st.rels).finite(),
    ensures
        ({
            let r = crate::store::store_assert(st, k, f).rels;
            pending_held(r) && facts(r).finite() && settled(r) =~= settled(st.rels)
        }),
{
    let r = crate::store::store_assert(st, k, f).rels;
    lemma_assert_facts(st, k, f);
    assert(facts(r) =~= facts(st.rels).insert(k));
    assert forall|j: KeyV| #[trigger] pending_delta(r).contains(j) <==> (pending_delta(st.rels).contains(j) || (j == k && !holds(
        st.rels,
        k,
    ))) by {
        if j.0 == k.0 {
            if !st.rels.contains_key(k.0) {
                assert(!holds(st.rels, k));
            }
        }
    }
    assert(settled(r) =~= settled(st.rels)) by {
        assert forall|j: KeyV| settled(r).contains(j) <==> settled(st.rels).contains(j) by {
            assert(pending_delta(r).contains(j) <==> (pending_delta(st.rels).contains(j) || (j == k && !holds(st.rels, k))));
            assert(holds(r, j) <==> j == k || holds(st.rels, j));
        }
    }
    assert forall|j: KeyV| #[trigger] pending_delta(r).contains(j) implies holds(r, j) by {
        assert(holds(r, j) <==> j == k || holds(st.rels, j));
    }
}

// ------------------------------------------------------------------- strata

/// A stratum writes what is defined at its level.
pub proof fn lemma_stratum_spares(
    st: StoreV,
    now: i64,
    cs: Seq<ClauseV>,
    l: Map<Seq<char>, nat>,
    strata: Seq<Seq<int>>,
    s: int,
)
    requires
        leveled(cs, l, strata),
        all_simple(st.names, cs),
        0 <= s < strata.len(),
        rels_wf(st.rels),
    ensures
        ({
            let rules = stratum_rules(cs, strata[s]);
            let e = eval_stratum_of(st, now, cs, strata[s]).st;
            &&& e == fixpoint(st, now, rules, pending_delta(st.rels)).st
            &&& spares(st.rels, e.rels, above(l, s))
            &&& store_extends(st, e)
        }),
{
    let idx = strata[s];
    let rules = stratum_rules(cs, idx);
    let delta = pending_delta(st.rels);
    let t = above(l, s);
    lemma_stratum(cs, l, strata, s, st.names);
    assert forall|j: int| 0 <= j < idx.len() implies !aggregates(cs[#[trigger] idx[j]]) by {
        assert(rules[j] == cs[idx[j]]);
        assert(is_simple(st.names, cs[idx[j]]));
    }
    lemma_nothing_folded(fixpoint(st, now, rules, delta).st, cs, idx, 0);
    assert forall|j: int| 0 <= j < rules.len() implies t.contains((#[trigger] rules[j]).head.pred) by {
        assert(is_plain(st.names, rules[j], t));
    }
    lemma_rounds_spares(st, now, rules, delta, choose|n: nat| settles(st, now, rules, delta, n), t);
    crate::evaluate::fixpoint_extends(st, now, rules, delta);
}

pub proof fn lemma_simple_grows(a: Seq<Seq<char>>, b: Seq<Seq<char>>, cs: Seq<ClauseV>)
    requires
        a.is_prefix_of(b),
        all_simple(a, cs),
    ensures
        all_simple(b, cs),
{
    assert forall|i: int| 0 <= i < cs.len() && !(#[trigger] cs[i]).is_fact implies is_simple(b, cs[i]) by {
        lemma_constants_known(a, b, cs[i]);
    }
}

pub proof fn lemma_strata_spares(
    st: StoreV,
    now: i64,
    cs: Seq<ClauseV>,
    l: Map<Seq<char>, nat>,
    strata: Seq<Seq<int>>,
    s: int,
)
    requires
        leveled(cs, l, strata),
        all_simple(st.names, cs),
        0 <= s <= strata.len(),
        rels_wf(st.rels),
    ensures
        spares(st.rels, eval_strata(st, now, cs, strata, s).st.rels, above(l, s)),
        store_extends(st, eval_strata(st, now, cs, strata, s).st),
    decreases strata.len() - s,
{
    lemma_store_extends_self(st);
    if s < strata.len() {
        let e = eval_stratum_of(st, now, cs, strata[s]).st;
        let f = eval_strata(e, now, cs, strata, s + 1).st;
        lemma_stratum_spares(st, now, cs, l, strata, s);
        lemma_simple_grows(st.names, e.names, cs);
        lemma_strata_spares(e, now, cs, l, strata, s + 1);
        lemma_store_extends_trans(st, e, f);
        assert(spares(e.rels, f.rels, above(l, s))) by {
            assert forall|p: Seq<char>| !above(l, s).contains(p) implies #[trigger] same_facts(e.rels, f.rels, p) by {
                assert(!above(l, s + 1).contains(p));
            }
        }
        lemma_spares_trans(st.rels, e.rels, f.rels, above(l, s));
    }
}

/// A body that is true in the final facts is true in those of its level.
proof fn lemma_body_at_level(
    b: Seq<Seq<char>>,
    now: i64,
    cs: Seq<ClauseV>,
    l: Map<Seq<char>, nat>,
    i: int,
    now_rels: RelsV,
    end_rels: RelsV,
    n: Set<KeyV>,
    s: Bindings,
)
    requires
        strata_error(cs) is None,
        is_levels(cs, l),
        0 <= i < cs.len(),
        !cs[i].is_fact,
        l.contains_key(cs[i].head.pred),
        spares(now_rels, end_rels, above(l, l[cs[i].head.pred] as int + 1)),
        body_true(b, now, cs[i], facts(end_rels), n, s),
    ensures
        body_true(b, now, cs[i], facts(now_rels), n, s),
{
    let c = cs[i];
    assert forall|j: int| 0 <= j < c.body.len() implies lit_true(b, now, #[trigger] c.body[j], facts(now_rels), n, s) by {
        assert(lit_true(b, now, c.body[j], facts(end_rels), n, s));
        lemma_reads_below(cs, l, i, j);
        if let LitV::Pos(a) = c.body[j] {
            let key = choose|key: Seq<Value>|
                facts(end_rels).contains((a.pred, key)) && #[trigger] is_instance(b, a.args, key, s);
            assert(same_facts(now_rels, end_rels, a.pred));
            assert(holds(end_rels, (a.pred, key)));
            assert(holds(now_rels, (a.pred, key)));
            assert(facts(now_rels).contains((a.pred, key)));
        }
    }
}

/// Evaluating the strata from one on, seen from the end of the run.
pub proof fn lemma_strata_least(
    st: StoreV,
    now: i64,
    cs: Seq<ClauseV>,
    l: Map<Seq<char>, nat>,
    strata: Seq<Seq<int>>,
    s: int,
    b: Seq<Seq<char>>,
    d: Set<KeyV>,
)
    requires
        leveled(cs, l, strata),
        all_simple(st.names, cs),
        0 <= s <= strata.len(),
        all_known(st),
        in_run(d)(st),
        strata_settle(st, now, cs, strata, s),
        b.no_duplicates(),
        b.len() < usize::MAX,
        eval_strata(st, now, cs, strata, s).st.names.is_prefix_of(b),
        derived_from(b, now, cs, d, facts(eval_strata(st, now, cs, strata, s).st.rels), facts(st.rels)),
    ensures
        ({
            let f = eval_strata(st, now, cs, strata, s).st;
            let n = facts(f.rels);
            &&& facts(st.rels).subset_of(n)
            &&& all_known(f)
            &&& in_run(d)(f)
            &&& forall|i: int|
                0 <= i < cs.len() && !(#[trigger] cs[i]).is_fact && l[cs[i].head.pred] >= s ==> leads_into(b, now, cs[i], n, n, n)
            &&& forall|m: Set<KeyV>| #[trigger]
                program_closed(b, now, cs, m, n) && facts(st.rels).subset_of(m) ==> n.subset_of(m)
        }),
    decreases strata.len() - s,
{
    let f = eval_strata(st, now, cs, strata, s).st;
    let n = facts(f.rels);
    if s < strata.len() {
        let rules = stratum_rules(cs, strata[s]);
        let delta = pending_delta(st.rels);
        let t = above(l, s);
        let e = eval_stratum_of(st, now, cs, strata[s]).st;
        lemma_stratum(cs, l, strata, s, st.names);
        lemma_stratum_spares(st, now, cs, l, strata, s);
        lemma_simple_grows(st.names, e.names, cs);
        lemma_strata_spares(st, now, cs, l, strata, s);
        lemma_strata_spares(e, now, cs, l, strata, s + 1);
        lemma_prefix_trans(e.names, f.names, b);
        lemma_agrees_before(st.rels, f.rels, t);
        assert(delta.finite()) by {
            assert forall|k: KeyV| #[trigger] delta.contains(k) implies facts(st.rels).contains(k) by {}
            vstd::set_lib::lemma_set_subset_finite(facts(st.rels), delta);
        }
        assert(used(b, now, rules, facts(st.rels), delta, n)) by {
            assert forall|j: int| 0 <= j < rules.len() && has_atom(#[trigger] rules[j]) implies leads_into(
                b,
                now,
                rules[j],
                facts(st.rels).difference(delta),
                n,
                facts(st.rels),
            ) by {
                let i = strata[s][j];
                assert(rules[j] == cs[i]);
                assert(leads_into(b, now, cs[i], d, n, facts(st.rels)));
                assert(facts(st.rels).difference(delta) =~= d);
            }
        }
        lemma_fixpoint_least(st, now, rules, delta, b, n, t);
        let k = choose|k: nat| settles(st, now, rules, delta, k);
        lemma_in_run_lasting(d, rules);
        lemma_fixpoint(st, now, rules, delta, k);
        lemma_rounds_keeps(in_run(d), st, now, rules, delta, k);
        assert(derived_from(b, now, cs, d, n, facts(e.rels))) by {
            assert forall|i: int| 0 <= i < cs.len() && !(#[trigger] cs[i]).is_fact && has_atom(cs[i]) implies leads_into(
                b,
                now,
                cs[i],
                d,
                n,
                facts(e.rels),
            ) by {
                assert(leads_into(b, now, cs[i], d, n, facts(st.rels)));
            }
        }
        lemma_strata_least(e, now, cs, l, strata, s + 1, b, d);
        assert forall|i: int| 0 <= i < cs.len() && !(#[trigger] cs[i]).is_fact && l[cs[i].head.pred] >= s implies leads_into(
            b,
            now,
            cs[i],
            n,
            n,
            n,
        ) by {
            let c = cs[i];
            if l[c.head.pred] == s {
                let j = choose|j: int| 0 <= j < rules.len() && #[trigger] rules[j] == c;
                assert(leads_into(b, now, rules[j], facts(e.rels), n, facts(e.rels)));
                assert forall|x: Bindings| #[trigger] body_true(b, now, c, n, n, x) && head_fact(b, c, x) is Some implies n.contains(
                    head_fact(b, c, x)->Some_0,
                ) by {
                    assert(defined(cs, c.head.pred));
                    assert(l.contains_key(c.head.pred));
                    lemma_body_at_level(b, now, cs, l, i, e.rels, f.rels, n, x);
                    assert(facts(e.rels).contains(head_fact(b, c, x)->Some_0));
                }
            }
        }
        assert forall|m: Set<KeyV>| #[trigger] program_closed(b, now, cs, m, n) && facts(st.rels).subset_of(m) implies n.subset_of(
            m,
        ) by {
            assert(closed_under(b, now, rules, m, n)) by {
                assert forall|j: int| 0 <= j < rules.len() implies leads_into(b, now, #[trigger] rules[j], m, n, m) by {
                    let i = strata[s][j];
                    assert(rules[j] == cs[i]);
                    assert(leads_into(b, now, cs[i], m, n, m));
                }
            }
            assert(facts(e.rels).subset_of(m));
        }
    } else {
        assert forall|i: int| 0 <= i < cs.len() && !(#[trigger] cs[i]).is_fact && l[cs[i].head.pred] >= s implies leads_into(
            b,
            now,
            cs[i],
            n,
            n,
            n,
        ) by {
            assert(defined(cs, cs[i].head.pred));
            assert(l.contains_key(cs[i].head.pred));
        }
    }
}

/// Law: evaluating a stratified program gives its model over the stored
/// facts. Its rules are simple, and what they derive from the settled facts
/// is stored.
pub proof fn strata_give_model(st: StoreV, now: i64, cs: Seq<ClauseV>)
    requires
        rels_wf(st.rels),
        st.names.no_duplicates(),
        eval_strata(st, now, cs, strata_of(cs), 0).st.names.len() < usize::MAX,
        all_known(st),
        pending_held(st.rels),
        facts(st.rels).finite(),
        cs.len() <= usize::MAX,
        strata_error(cs) is None,
        all_simple(st.names, cs),
        strata_settle(st, now, cs, strata_of(cs), 0),
        ({
            let f = eval_strata(st, now, cs, strata_of(cs), 0).st;
            derived_from(f.names, now, cs, settled(st.rels), facts(f.rels), facts(st.rels))
        }),
    ensures
        ({
            let f = eval_strata(st, now, cs, strata_of(cs), 0).st;
            &&& is_model(f.names, now, cs, facts(st.rels), facts(f.rels))
            &&& all_known(f)
            &&& f.names.no_duplicates()
            &&& pending_held(f.rels)
            &&& facts(f.rels).finite()
            &&& store_extends(st, f)
        }),
{
    let strata = strata_of(cs);
    let f = eval_strata(st, now, cs, strata, 0).st;
    strata_exist(cs);
    let l = choose|l: Map<Seq<char>, nat>| #[trigger] is_levels(cs, l) && grouped(cs, l, strata);
    lemma_strata_distinct(st, now, cs, l, strata, 0);
    lemma_strata_spares(st, now, cs, l, strata, 0);
    assert(f.names.is_prefix_of(f.names));
    assert(in_run(settled(st.rels))(st));
    lemma_strata_least(st, now, cs, l, strata, 0, f.names, settled(st.rels));
    assert(in_run(settled(st.rels))(f));
}

pub proof fn lemma_strata_distinct(
    st: StoreV,
    now: i64,
    cs: Seq<ClauseV>,
    l: Map<Seq<char>, nat>,
    strata: Seq<Seq<int>>,
    s: int,
)
    requires
        leveled(cs, l, strata),
        all_simple(st.names, cs),
        0 <= s <= strata.len(),
        rels_wf(st.rels),
        st.names.no_duplicates(),
    ensures
        eval_strata(st, now, cs, strata, s).st.names.no_duplicates(),
    decreases strata.len() - s,
{
    if s < strata.len() {
        let rules = stratum_rules(cs, strata[s]);
        let delta = pending_delta(st.rels);
        let e = eval_stratum_of(st, now, cs, strata[s]).st;
        lemma_stratum_spares(st, now, cs, l, strata, s);
        lemma_distinct_lasting(rules);
        assert(distinct_names()(st));
        lemma_rounds_keeps(distinct_names(), st, now, rules, delta, choose|n: nat| settles(st, now, rules, delta, n));
        assert(distinct_names()(e));
        lemma_simple_grows(st.names, e.names, cs);
        lemma_strata_distinct(e, now, cs, l, strata, s + 1);
    }
}

} // verus!

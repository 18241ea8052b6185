//! How the relations of a program are laid out: every relation that its rules
//! write, intermediate ones included, has a level, and a rule reads what is not
//! above its own.

use vstd::prelude::*;
use crate::ast::{ClauseV, LitV};
use crate::evaluate::{eval_stratum_of, evaluated, fixpoint, fixpoint_extends, is_temp, pending_delta, stratum_rules, temp_name};
use crate::exact::{alike, atoms_covered, covers, negated_covered};
use crate::folds::{all_foldable, lemma_reads_folded, lemma_stratum_evaluated, lowered_program, written};
use crate::frame::{lemma_fixpoint_touches, lemma_fold_stratum_touches, lemma_temp_prefix, same_facts, spares};
use crate::model::{all_plain, facts};
use crate::perfect::{above, lemma_reads_below, leveled};
use crate::recompute::{body_reads, filled_by, is_idb, lit_reads, owner, scope_here};
use crate::relation::KeyV;
use crate::solve::{lemma_prefix_trans, store_extends};
use crate::store::{holds, rels_wf, RelsV, StoreV};
use crate::stratify::{aggregated, aggregates, defined, is_strata, lit_dep};
use crate::tally::{folds_apart, is_fold, lemma_apart, lemma_rule_list, rule_list, written_at};
use crate::value::Value;

verus! {

/// The rules write the relation: they derive it, or one of them lists its
/// solutions in it.
pub open spec fn is_written(cs: Seq<ClauseV>, p: Seq<char>) -> bool {
    defined(cs, p) || exists|i: int| #[trigger] is_fold(cs, i) && p == temp_name(cs[i], i)
}

/// The level of a relation: that of a derived predicate, or that of the rule
/// of an intermediate relation.
pub open spec fn level_of(cs: Seq<ClauseV>, l: Map<Seq<char>, nat>, p: Seq<char>) -> nat {
    if l.contains_key(p) {
        l[p]
    } else {
        l[cs[choose|i: int| #[trigger] is_fold(cs, i) && p == temp_name(cs[i], i)].head.pred]
    }
}

/// The levels of all relations that the rules write.
pub open spec fn wide_levels(cs: Seq<ClauseV>, l: Map<Seq<char>, nat>) -> Map<Seq<char>, nat> {
    Map::new(|p: Seq<char>| is_written(cs, p), |p: Seq<char>| level_of(cs, l, p))
}

/// The levels of the relations of a program whose aggregates are apart, and
/// its strata.
pub open spec fn laid(cs: Seq<ClauseV>, l: Map<Seq<char>, nat>, strata: Seq<Seq<int>>) -> bool {
    folds_apart(cs) && exists|m: Map<Seq<char>, nat>| #[trigger] leveled(cs, m, strata) && l == wide_levels(cs, m)
}

/// The level map of the predicates behind the layout.
pub open spec fn base_levels(cs: Seq<ClauseV>, l: Map<Seq<char>, nat>, strata: Seq<Seq<int>>) -> Map<Seq<char>, nat> {
    choose|m: Map<Seq<char>, nat>| #[trigger] leveled(cs, m, strata) && l == wide_levels(cs, m)
}

/// A relation that rules fill directly: a derived predicate that is not
/// aggregated, or an intermediate relation.
pub open spec fn is_ruled(cs: Seq<ClauseV>, p: Seq<char>) -> bool {
    is_written(cs, p) && !aggregated(cs, p)
}

pub proof fn lemma_level_of(cs: Seq<ClauseV>, m: Map<Seq<char>, nat>, strata: Seq<Seq<int>>, i: int)
    requires
        folds_apart(cs),
        leveled(cs, m, strata),
        0 <= i < cs.len(),
        !cs[i].is_fact,
    ensures
        m.contains_key(cs[i].head.pred),
        level_of(cs, m, cs[i].head.pred) == m[cs[i].head.pred],
        level_of(cs, m, owner(cs[i], i)) == m[cs[i].head.pred],
        is_written(cs, cs[i].head.pred),
        is_written(cs, owner(cs[i], i)),
{
    assert(defined(cs, cs[i].head.pred));
    if aggregates(cs[i]) {
        let t = temp_name(cs[i], i);
        assert(is_fold(cs, i));
        if m.contains_key(t) {
            assert(defined(cs, t));
            let k = choose|k: int| 0 <= k < cs.len() && !(#[trigger] cs[k]).is_fact && cs[k].head.pred == t;
            lemma_apart(cs, i, k);
        }
        let j = choose|j: int| #[trigger] is_fold(cs, j) && t == temp_name(cs[j], j);
        lemma_apart(cs, i, j);
    }
}

/// A rule, its level, and the relation that it fills.
pub proof fn lemma_rule_laid(cs: Seq<ClauseV>, l: Map<Seq<char>, nat>, strata: Seq<Seq<int>>, i: int)
    requires
        laid(cs, l, strata),
        0 <= i < cs.len(),
        !cs[i].is_fact,
    ensures
        ({
            let low = lowered_program(cs);
            let s = l[cs[i].head.pred] as int;
            &&& l.contains_key(cs[i].head.pred)
            &&& l.contains_key(owner(cs[i], i))
            &&& l[owner(cs[i], i)] == s
            &&& 0 <= s < strata.len()
            &&& strata[s].contains(i)
            &&& low.len() == cs.len()
            &&& low[i] == evaluated(cs[i], i)
            &&& !low[i].is_fact
            &&& low[i].head.pred == owner(cs[i], i)
            &&& low[i].body == cs[i].body
            &&& is_ruled(cs, owner(cs[i], i))
            &&& !aggregates(cs[i]) ==> low[i] == cs[i] && owner(cs[i], i) == cs[i].head.pred
            &&& aggregates(cs[i]) ==> owner(cs[i], i) == temp_name(cs[i], i) && aggregated(cs, cs[i].head.pred)
        }),
{
    let m = base_levels(cs, l, strata);
    lemma_level_of(cs, m, strata, i);
    lemma_rule_list(cs, m, strata, m[cs[i].head.pred] as int);
    if aggregated(cs, owner(cs[i], i)) {
        let y = choose|y: int|
            0 <= y < cs.len() && !(#[trigger] cs[y]).is_fact && aggregates(cs[y]) && cs[y].head.pred == owner(cs[i], i);
        assert(is_fold(cs, y));
        lemma_apart(cs, y, i);
    }
}

/// The rules of a stratum are those of its level.
pub proof fn lemma_stratum_laid(cs: Seq<ClauseV>, l: Map<Seq<char>, nat>, strata: Seq<Seq<int>>, s: int, k: int)
    requires
        laid(cs, l, strata),
        0 <= s < strata.len(),
        0 <= k < strata[s].len(),
    ensures
        0 <= strata[s][k] < cs.len(),
        !cs[strata[s][k]].is_fact,
        l[cs[strata[s][k]].head.pred] == s,
        rule_list(cs, strata[s]),
{
    let m = base_levels(cs, l, strata);
    lemma_rule_list(cs, m, strata, s);
    let i = strata[s][k];
    assert(strata[s].contains(i));
    lemma_level_of(cs, m, strata, i);
}

pub proof fn lemma_list_laid(cs: Seq<ClauseV>, l: Map<Seq<char>, nat>, strata: Seq<Seq<int>>, s: int)
    requires
        laid(cs, l, strata),
        0 <= s < strata.len(),
    ensures
        rule_list(cs, strata[s]),
        is_strata(cs, strata),
{
    let m = base_levels(cs, l, strata);
    lemma_rule_list(cs, m, strata, s);
}

pub proof fn lemma_strata_laid(cs: Seq<ClauseV>, l: Map<Seq<char>, nat>, strata: Seq<Seq<int>>)
    requires
        laid(cs, l, strata),
    ensures
        is_strata(cs, strata),
{
    let m = base_levels(cs, l, strata);
    assert(leveled(cs, m, strata));
}

/// What a rule reads is no intermediate relation and not above its level; an
/// aggregated predicate, and what it negates, is below.
pub proof fn lemma_reads_laid(cs: Seq<ClauseV>, l: Map<Seq<char>, nat>, strata: Seq<Seq<int>>, i: int, j: int)
    requires
        laid(cs, l, strata),
        0 <= i < cs.len(),
        !cs[i].is_fact,
        0 <= j < cs[i].body.len(),
    ensures
        match lit_dep(cs[i].body[j]) {
            Some(d) => !is_temp(d.0) && (l.contains_key(d.0) ==> l[d.0] <= l[cs[i].head.pred] && (d.1 || aggregated(cs, d.0)
                ==> l[d.0] < l[cs[i].head.pred])),
            None => true,
        },
{
    let m = base_levels(cs, l, strata);
    lemma_level_of(cs, m, strata, i);
    if let Some(d) = lit_dep(cs[i].body[j]) {
        assert(lit_reads(cs[i].body[j], d.0));
        assert(body_reads(cs[i], d.0));
        assert(!is_temp(d.0));
        if l.contains_key(d.0) {
            assert(defined(cs, d.0)) by {
                if !defined(cs, d.0) {
                    let y = choose|y: int| #[trigger] is_fold(cs, y) && d.0 == temp_name(cs[y], y);
                    lemma_temp_prefix(cs[y], y);
                }
            }
            lemma_reads_below(cs, m, i, j);
            if aggregated(cs, d.0) {
                lemma_reads_folded(cs, m, i, j);
            }
        }
    }
}

/// A relation with a level is filled by the stratum of that level.
pub proof fn lemma_filled_laid(cs: Seq<ClauseV>, l: Map<Seq<char>, nat>, strata: Seq<Seq<int>>, p: Seq<char>) -> (k: int)
    requires
        laid(cs, l, strata),
        l.contains_key(p),
    ensures
        l[p] < strata.len(),
        0 <= k < strata[l[p] as int].len(),
        filled_by(cs, strata[l[p] as int][k], p),
        is_idb(cs, strata, p),
        is_written(cs, p),
{
    let i = if defined(cs, p) {
        choose|i: int| 0 <= i < cs.len() && !(#[trigger] cs[i]).is_fact && cs[i].head.pred == p
    } else {
        choose|i: int| #[trigger] is_fold(cs, i) && p == temp_name(cs[i], i)
    };
    lemma_rule_laid(cs, l, strata, i);
    let s = l[p] as int;
    let k = choose|k: int| 0 <= k < strata[s].len() && strata[s][k] == i;
    assert(filled_by(cs, strata[s][k], p));
    if cs[i].head.pred == p {
        assert(cs[strata[s][k]].head.pred == p);
    } else {
        assert(temp_name(cs[i], i) == p);
    }
    k
}

/// What a stratum fills is of its level.
pub proof fn lemma_fills_laid(cs: Seq<ClauseV>, l: Map<Seq<char>, nat>, strata: Seq<Seq<int>>, s: int, k: int, p: Seq<char>)
    requires
        laid(cs, l, strata),
        0 <= s < strata.len(),
        0 <= k < strata[s].len(),
        filled_by(cs, strata[s][k], p),
    ensures
        l.contains_key(p),
        l[p] == s,
{
    lemma_stratum_laid(cs, l, strata, s, k);
    lemma_rule_laid(cs, l, strata, strata[s][k]);
}

/// What a stratum clears is of its level.
pub proof fn lemma_here_laid(cs: Seq<ClauseV>, l: Map<Seq<char>, nat>, strata: Seq<Seq<int>>, s: int, to_clear: Set<Seq<char>>, p: Seq<char>)
    requires
        laid(cs, l, strata),
        0 <= s < strata.len(),
        scope_here(cs, strata[s], to_clear).contains(p),
    ensures
        l.contains_key(p),
        l[p] == s,
{
    let k = choose|k: int| 0 <= k < strata[s].len() && filled_by(cs, #[trigger] strata[s][k], p);
    lemma_fills_laid(cs, l, strata, s, k, p);
}

/// The rules of a stratum as they are evaluated.
pub proof fn lemma_rules_laid(cs: Seq<ClauseV>, l: Map<Seq<char>, nat>, strata: Seq<Seq<int>>, s: int)
    requires
        laid(cs, l, strata),
        0 <= s < strata.len(),
    ensures
        ({
            let rules = stratum_rules(cs, strata[s]);
            let low = lowered_program(cs);
            &&& rules.len() == strata[s].len()
            &&& forall|j: int|
                0 <= j < rules.len() ==> 0 <= strata[s][j] < cs.len() && !cs[strata[s][j]].is_fact && #[trigger] rules[j]
                    == low[strata[s][j]] && l.contains_key(rules[j].head.pred) && l[rules[j].head.pred] == s && is_ruled(
                    cs,
                    rules[j].head.pred,
                )
            &&& forall|i: int|
                0 <= i < cs.len() && !cs[i].is_fact && l[(#[trigger] low[i]).head.pred] == s ==> exists|j: int|
                    0 <= j < rules.len() && #[trigger] rules[j] == low[i]
        }),
{
    let rules = stratum_rules(cs, strata[s]);
    let low = lowered_program(cs);
    assert forall|j: int| 0 <= j < rules.len() implies 0 <= strata[s][j] < cs.len() && !cs[strata[s][j]].is_fact && #[trigger] rules[j]
        == low[strata[s][j]] && l.contains_key(rules[j].head.pred) && l[rules[j].head.pred] == s && is_ruled(cs, rules[j].head.pred) by {
        lemma_stratum_laid(cs, l, strata, s, j);
        lemma_rule_laid(cs, l, strata, strata[s][j]);
    }
    assert forall|i: int| 0 <= i < cs.len() && !cs[i].is_fact && l[(#[trigger] low[i]).head.pred] == s implies exists|j: int|
        0 <= j < rules.len() && #[trigger] rules[j] == low[i] by {
        lemma_rule_laid(cs, l, strata, i);
        let k = choose|k: int| 0 <= k < strata[s].len() && strata[s][k] == i;
        assert(rules[k] == low[i]);
    }
}

pub proof fn lemma_plain_laid(cs: Seq<ClauseV>, l: Map<Seq<char>, nat>, strata: Seq<Seq<int>>, s: int, names: Seq<Seq<char>>)
    requires
        laid(cs, l, strata),
        all_foldable(names, cs),
        0 <= s < strata.len(),
    ensures
        all_plain(names, stratum_rules(cs, strata[s]), above(l, s)),
{
    let m = base_levels(cs, l, strata);
    lemma_stratum_evaluated(cs, m, strata, s, names);
    assert forall|p: Seq<char>| above(l, s).contains(p) <==> #[trigger] written(cs, m, s).contains(p) by {
        if above(l, s).contains(p) {
            let i = if defined(cs, p) {
                choose|i: int| 0 <= i < cs.len() && !(#[trigger] cs[i]).is_fact && cs[i].head.pred == p
            } else {
                choose|i: int| #[trigger] is_fold(cs, i) && p == temp_name(cs[i], i)
            };
            lemma_level_of(cs, m, strata, i);
            assert(written_at(cs, m, p, l[p] as int));
        }
        if written(cs, m, s).contains(p) {
            let v = choose|v: int| #[trigger] written_at(cs, m, p, v) && v >= s;
            if m.contains_key(p) && m[p] == v {
                assert(defined(cs, p));
            } else {
                let i = choose|i: int| #[trigger] is_fold(cs, i) && p == temp_name(cs[i], i) && m[cs[i].head.pred] == v;
                lemma_level_of(cs, m, strata, i);
            }
        }
    }
    assert(above(l, s) =~= written(cs, m, s));
}

/// The relations of a level.
pub open spec fn level(l: Map<Seq<char>, nat>, s: int) -> Set<Seq<char>> {
    Set::new(|p: Seq<char>| l.contains_key(p) && l[p] == s)
}

/// The aggregated predicates of a level.
pub open spec fn folded_at(cs: Seq<ClauseV>, l: Map<Seq<char>, nat>, s: int) -> Set<Seq<char>> {
    Set::new(|p: Seq<char>| l.contains_key(p) && l[p] == s && aggregated(cs, p))
}

/// The relations of a level that rules fill directly.
pub open spec fn ruled_at(cs: Seq<ClauseV>, l: Map<Seq<char>, nat>, s: int) -> Set<Seq<char>> {
    Set::new(|p: Seq<char>| l.contains_key(p) && l[p] == s && !aggregated(cs, p))
}

/// The parts of the evaluation of a stratum: its rules only add facts of the
/// relations that they fill, and the folds only change aggregated predicates.
pub proof fn lemma_eval_laid(st: StoreV, now: i64, cs: Seq<ClauseV>, l: Map<Seq<char>, nat>, strata: Seq<Seq<int>>, s: int)
    requires
        laid(cs, l, strata),
        0 <= s < strata.len(),
        rels_wf(st.rels),
    ensures
        ({
            let x = fixpoint(st, now, stratum_rules(cs, strata[s]), pending_delta(st.rels)).st;
            let e = eval_stratum_of(st, now, cs, strata[s]).st;
            &&& store_extends(st, x)
            &&& rels_wf(x.rels)
            &&& rels_wf(e.rels)
            &&& spares(st.rels, x.rels, ruled_at(cs, l, s))
            &&& spares(x.rels, e.rels, folded_at(cs, l, s))
            &&& spares(st.rels, e.rels, level(l, s))
            &&& st.names.is_prefix_of(x.names)
            &&& x.names.is_prefix_of(e.names)
            &&& st.names.is_prefix_of(e.names)
        }),
{
    let rules = stratum_rules(cs, strata[s]);
    let delta = pending_delta(st.rels);
    let x = fixpoint(st, now, rules, delta).st;
    let e = eval_stratum_of(st, now, cs, strata[s]).st;
    lemma_rules_laid(cs, l, strata, s);
    lemma_list_laid(cs, l, strata, s);
    crate::engine::lemma_strata_fit(cs, strata);
    assert(crate::evaluate::indices_of(strata[s], cs.len() as int));
    fixpoint_extends(st, now, rules, delta);
    assert forall|j: int| 0 <= j < rules.len() implies ruled_at(cs, l, s).contains((#[trigger] rules[j]).head.pred) by {}
    lemma_fixpoint_touches(st, now, rules, delta, ruled_at(cs, l, s));
    assert forall|j: int| 0 <= j < strata[s].len() && 0 <= j && aggregates(cs[#[trigger] strata[s][j]]) implies folded_at(cs, l, s).contains(
        cs[strata[s][j]].head.pred,
    ) by {
        lemma_stratum_laid(cs, l, strata, s, j);
        lemma_rule_laid(cs, l, strata, strata[s][j]);
    }
    lemma_fold_stratum_touches(x, cs, strata[s], 0, folded_at(cs, l, s));
    lemma_prefix_trans(st.names, x.names, e.names);
    assert(crate::frame::writes_in(cs, crate::scope::anything()));
    crate::upkeep::lemma_formed_upheld();
    assert(crate::upkeep::formed()(st));
    crate::upkeep::lemma_stratum_keeps(crate::upkeep::formed(), st, now, cs, strata[s]);
    assert(crate::upkeep::formed()(e));
    assert forall|p: Seq<char>| !level(l, s).contains(p) implies #[trigger] same_facts(st.rels, e.rels, p) by {
        assert(same_facts(st.rels, x.rels, p));
        assert(same_facts(x.rels, e.rels, p));
    }
}

/// Facts that are spared are alike.
pub proof fn lemma_spared_alike(a: RelsV, b: RelsV, t: Set<Seq<char>>, p: Seq<char>)
    requires
        spares(a, b, t),
        !t.contains(p),
    ensures
        alike(facts(a), facts(b), p),
{
    assert(same_facts(a, b, p));
    assert forall|key: Seq<Value>| #[trigger] facts(a).contains((p, key)) implies facts(b).contains((p, key)) by {
        assert(holds(a, (p, key)));
        assert(holds(b, (p, key)));
    }
    assert forall|key: Seq<Value>| #[trigger] facts(b).contains((p, key)) implies facts(a).contains((p, key)) by {
        assert(holds(b, (p, key)));
        assert(holds(a, (p, key)));
    }
}

pub proof fn lemma_alike_trans(a: Set<KeyV>, b: Set<KeyV>, c: Set<KeyV>, q: Seq<char>)
    requires
        alike(a, b, q),
        alike(b, c, q),
    ensures
        alike(a, c, q),
{
    assert forall|key: Seq<Value>| #[trigger] a.contains((q, key)) implies c.contains((q, key)) by {
        assert(b.contains((q, key)));
    }
    assert forall|key: Seq<Value>| #[trigger] c.contains((q, key)) implies a.contains((q, key)) by {
        assert(b.contains((q, key)));
    }
}

/// A set covers what a rule reads where it covers the relations that are not
/// written and those that are not above the rule, aggregated ones of its level
/// left out.
pub proof fn lemma_rule_covered(cs: Seq<ClauseV>, l: Map<Seq<char>, nat>, strata: Seq<Seq<int>>, i: int, a: Set<KeyV>, b: Set<KeyV>)
    requires
        laid(cs, l, strata),
        0 <= i < cs.len(),
        !cs[i].is_fact,
        forall|q: Seq<char>|
            #[trigger] body_reads(cs[i], q) && (!l.contains_key(q) || (l[q] <= l[cs[i].head.pred] && !folded_at(
                cs,
                l,
                l[cs[i].head.pred] as int,
            ).contains(q))) ==> covers(a, b, q),
    ensures
        atoms_covered(lowered_program(cs)[i], a, b),
{
    let c = lowered_program(cs)[i];
    lemma_rule_laid(cs, l, strata, i);
    assert forall|j: int| 0 <= j < c.body.len() implies (match #[trigger] c.body[j] {
        LitV::Pos(x) => covers(a, b, x.pred),
        _ => true,
    }) by {
        if let LitV::Pos(x) = c.body[j] {
            assert(c.body[j] == cs[i].body[j]);
            lemma_reads_laid(cs, l, strata, i, j);
            assert(lit_reads(cs[i].body[j], x.pred));
            assert(body_reads(cs[i], x.pred));
        }
    }
}

/// What a rule negates is the same in two sets that have the same facts of
/// the relations that are not written and of lower levels.
pub proof fn lemma_negated_below(cs: Seq<ClauseV>, l: Map<Seq<char>, nat>, strata: Seq<Seq<int>>, i: int, a: Set<KeyV>, b: Set<KeyV>)
    requires
        laid(cs, l, strata),
        0 <= i < cs.len(),
        !cs[i].is_fact,
        forall|q: Seq<char>| !(#[trigger] l.contains_key(q)) || l[q] < l[cs[i].head.pred] ==> alike(a, b, q),
    ensures
        negated_covered(lowered_program(cs)[i], a, b),
        negated_covered(lowered_program(cs)[i], b, a),
{
    let c = lowered_program(cs)[i];
    lemma_rule_laid(cs, l, strata, i);
    assert forall|j: int| 0 <= j < c.body.len() implies (match #[trigger] c.body[j] {
        LitV::Neg(x) => covers(a, b, x.pred) && covers(b, a, x.pred),
        _ => true,
    }) by {
        if let LitV::Neg(x) = c.body[j] {
            assert(c.body[j] == cs[i].body[j]);
            lemma_reads_laid(cs, l, strata, i, j);
            assert(!l.contains_key(x.pred) || l[x.pred] < l[cs[i].head.pred]);
            assert(alike(a, b, x.pred));
        }
    }
}

} // verus!

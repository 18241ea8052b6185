//! Rebuilding derived relations: after facts were removed, after negated
//! relations grew, and after the program changed.

use vstd::prelude::*;
use crate::ast::{clauses_view, Clause, ClauseV, Lit, LitV};
use crate::engine::{declare_facts, declare_in};
use crate::env::Env;
use crate::evaluate::{agg_temp_pred, eval_stratum, eval_stratum_of, indices_of, is_temp, temp_name, EvalV};
use crate::name_map::NameMap;
use crate::query::text_starts_with;
use crate::relation::{ids_view, key_set, Ann};
use crate::scope::{pass_settles, passes_settle, reset, scope_begun, step_settles};
use crate::solve::ground_head;
use crate::sorted_set::{enumerate, models, Item, SortedSet};
use crate::store::{rel_seeded, rels_seed_all, rels_wf, store_clear, RelsV, Store, StoreV};
use crate::stratify::{aggregates, is_agg_clause, lit_dep, strata_view};
use crate::text::str_eq;
use crate::value::Value;

verus! {

/// A set of names.
pub type Names = SortedSet<String>;

// --------------------------------------------------------------- readers

/// The body reads the predicate.
pub open spec fn body_reads(c: ClauseV, p: Seq<char>) -> bool {
    exists|j: int| 0 <= j < c.body.len() && lit_reads(#[trigger] c.body[j], p)
}

pub open spec fn lit_reads(l: LitV, p: Seq<char>) -> bool {
    match lit_dep(l) {
        Some(d) => d.0 == p,
        None => false,
    }
}

/// The relation that a rule fills directly.
pub open spec fn owner(c: ClauseV, ci: int) -> Seq<char> {
    if aggregates(c) {
        temp_name(c, ci)
    } else {
        c.head.pred
    }
}

/// The clause is a rule through which `r` reads `p`. An aggregating rule
/// reads its body into its own solutions and those into its head.
pub open spec fn rule_reads(cs: Seq<ClauseV>, ci: int, p: Seq<char>, r: Seq<char>) -> bool {
    &&& 0 <= ci < cs.len()
    &&& !cs[ci].is_fact
    &&& {
        ||| body_reads(cs[ci], p) && r == owner(cs[ci], ci)
        ||| aggregates(cs[ci]) && p == temp_name(cs[ci], ci) && r == cs[ci].head.pred
    }
}

/// `r` reads `p` through some rule.
pub open spec fn direct_reader(cs: Seq<ClauseV>, p: Seq<char>, r: Seq<char>) -> bool {
    exists|ci: int| rule_reads(cs, ci, p, r)
}

/// The relation is filled by a rule of the strata, or holds the body
/// solutions of an aggregating rule.
pub open spec fn is_idb(cs: Seq<ClauseV>, strata: Seq<Seq<int>>, p: Seq<char>) -> bool {
    ||| exists|s: int, i: int|
        0 <= s < strata.len() && 0 <= i < strata[s].len() && cs[#[trigger] strata[s][i]].head.pred == p
    ||| exists|ci: int| 0 <= ci < cs.len() && !cs[ci].is_fact && aggregates(cs[ci]) && #[trigger] temp_name(cs[ci], ci) == p
}

/// The strata hold indices of clauses.
pub open spec fn strata_fit(strata: Seq<Seq<int>>, n: int) -> bool {
    forall|s: int| 0 <= s < strata.len() ==> indices_of(#[trigger] strata[s], n)
}

fn reads_pred(c: &Clause, p: &str) -> (r: bool)
    ensures
        r == body_reads(c@, p@),
{
    let mut j: usize = 0;
    while j < c.body.len()
        invariant
            j <= c.body@.len(),
            forall|k: int| 0 <= k < j ==> !lit_reads(#[trigger] c@.body[k], p@),
        decreases c.body@.len() - j,
    {
        assert(c@.body[j as int] == c.body@[j as int]@);
        let hit = match &c.body[j] {
            Lit::Pos(a) => str_eq(a.pred.as_str(), p),
            Lit::Neg(a) => str_eq(a.pred.as_str(), p),
            _ => false,
        };
        if hit {
            return true;
        }
        j += 1;
    }
    false
}

pub fn owner_of(c: &Clause, ci: usize) -> (r: String)
    ensures
        r@ == owner(c@, ci as int),
{
    if is_agg_clause(c) {
        agg_temp_pred(c, ci)
    } else {
        c.head.pred.clone()
    }
}

/// The relations that read a predicate directly.
fn readers_of(cs: &Vec<Clause>, p: &str) -> (r: Names)
    ensures
        forall|n: Seq<char>| #[trigger] r@.contains(n) <==> direct_reader(clauses_view(cs@), p@, n),
{
    let ghost v = clauses_view(cs@);
    let mut r: Names = SortedSet::new();
    let mut i: usize = 0;
    while i < cs.len()
        invariant
            i <= cs@.len(),
            v == clauses_view(cs@),
            forall|n: Seq<char>| #[trigger] r@.contains(n) <==> exists|ci: int| ci < i && rule_reads(v, ci, p@, n),
        decreases cs@.len() - i,
    {
        let c = &cs[i];
        assert(v[i as int] == c@);
        let ghost r0 = r@;
        if !c.is_fact {
            if reads_pred(c, p) {
                r.insert(owner_of(c, i));
            }
            if is_agg_clause(c) {
                let temp = agg_temp_pred(c, i);
                if str_eq(temp.as_str(), p) {
                    r.insert(c.head.pred.clone());
                }
            }
        }
        proof {
            assert forall|n: Seq<char>| #[trigger] r@.contains(n) <==> exists|ci: int| ci < i + 1 && rule_reads(v, ci, p@, n) by {
                if r0.contains(n) {
                    let ci = choose|ci: int| ci < i && rule_reads(v, ci, p@, n);
                    assert(ci < i + 1 && rule_reads(v, ci, p@, n));
                }
                if r@.contains(n) && !r0.contains(n) {
                    assert(rule_reads(v, i as int, p@, n));
                }
            }
        }
        i += 1;
    }
    proof {
        assert forall|n: Seq<char>| #[trigger] r@.contains(n) <==> direct_reader(v, p@, n) by {
            if direct_reader(v, p@, n) {
                let ci = choose|ci: int| rule_reads(v, ci, p@, n);
                assert(ci < cs@.len() && rule_reads(v, ci, p@, n));
            }
        }
    }
    r
}

/// The derived relations.
fn derived_names(cs: &Vec<Clause>, strata: &Vec<Vec<usize>>) -> (r: Names)
    requires
        strata_fit(strata_view(strata@), cs@.len() as int),
    ensures
        forall|p: Seq<char>| #[trigger] r@.contains(p) <==> is_idb(clauses_view(cs@), strata_view(strata@), p),
{
    let ghost v = clauses_view(cs@);
    let ghost sv = strata_view(strata@);
    let mut r: Names = heads_of(cs, strata);
    let ghost heads = r@;
    let mut i: usize = 0;
    while i < cs.len()
        invariant
            i <= cs@.len(),
            v == clauses_view(cs@),
            forall|p: Seq<char>| #[trigger]
                r@.contains(p) <==> heads.contains(p) || exists|ci: int|
                    0 <= ci < i && !v[ci].is_fact && aggregates(v[ci]) && #[trigger] temp_name(v[ci], ci) == p,
        decreases cs@.len() - i,
    {
        assert(v[i as int] == cs@[i as int]@);
        let ghost r0 = r@;
        if !cs[i].is_fact && is_agg_clause(&cs[i]) {
            r.insert(agg_temp_pred(&cs[i], i));
        }
        proof {
            assert forall|p: Seq<char>| #[trigger] r@.contains(p) <==> heads.contains(p) || exists|ci: int|
                0 <= ci < i + 1 && !v[ci].is_fact && aggregates(v[ci]) && #[trigger] temp_name(v[ci], ci) == p by {
                if r0.contains(p) && !heads.contains(p) {
                    let ci = choose|ci: int|
                        0 <= ci < i && !v[ci].is_fact && aggregates(v[ci]) && #[trigger] temp_name(v[ci], ci) == p;
                    assert(0 <= ci < i + 1 && temp_name(v[ci], ci) == p);
                }
                if r@.contains(p) && !r0.contains(p) {
                    assert(temp_name(v[i as int], i as int) == p);
                }
            }
        }
        i += 1;
    }
    proof {
        assert forall|p: Seq<char>| #[trigger] r@.contains(p) <==> is_idb(v, sv, p) by {
            if heads.contains(p) {
                assert(in_heads(v, sv, p));
            }
            if is_idb(v, sv, p) && !in_heads(v, sv, p) {
                let ci = choose|ci: int|
                    0 <= ci < v.len() && !v[ci].is_fact && aggregates(v[ci]) && #[trigger] temp_name(v[ci], ci) == p;
                assert(0 <= ci < cs@.len() && temp_name(v[ci], ci) == p);
            }
        }
    }
    r
}

/// The predicate is the head of a rule of the strata.
pub open spec fn in_heads(cs: Seq<ClauseV>, strata: Seq<Seq<int>>, p: Seq<char>) -> bool {
    exists|s: int, i: int| 0 <= s < strata.len() && 0 <= i < strata[s].len() && cs[#[trigger] strata[s][i]].head.pred == p
}

/// The predicates that the rules of the strata define.
fn heads_of(cs: &Vec<Clause>, strata: &Vec<Vec<usize>>) -> (r: Names)
    requires
        strata_fit(strata_view(strata@), cs@.len() as int),
    ensures
        forall|p: Seq<char>| #[trigger] r@.contains(p) <==> in_heads(clauses_view(cs@), strata_view(strata@), p),
{
    let ghost v = clauses_view(cs@);
    let ghost sv = strata_view(strata@);
    let mut r: Names = SortedSet::new();
    let mut s: usize = 0;
    while s < strata.len()
        invariant
            s <= strata@.len(),
            v == clauses_view(cs@),
            sv == strata_view(strata@),
            strata_fit(sv, cs@.len() as int),
            forall|p: Seq<char>| #[trigger]
                r@.contains(p) <==> exists|t: int, i: int|
                    0 <= t < s && 0 <= i < sv[t].len() && v[#[trigger] sv[t][i]].head.pred == p,
        decreases strata@.len() - s,
    {
        let stratum = &strata[s];
        let ghost r0 = r@;
        assert(sv[s as int] == ids_view(stratum@));
        assert(indices_of(sv[s as int], cs@.len() as int));
        let mut i: usize = 0;
        while i < stratum.len()
            invariant
                i <= stratum@.len(),
                v == clauses_view(cs@),
                s < sv.len(),
                sv[s as int] == ids_view(stratum@),
                indices_of(sv[s as int], cs@.len() as int),
                forall|p: Seq<char>| #[trigger]
                    r@.contains(p) <==> r0.contains(p) || exists|k: int|
                        0 <= k < i && v[#[trigger] sv[s as int][k]].head.pred == p,
            decreases stratum@.len() - i,
        {
            let ci = stratum[i];
            let ghost r1 = r@;
            assert(sv[s as int][i as int] == ci);
            assert(v[ci as int] == cs@[ci as int]@);
            r.insert(cs[ci].head.pred.clone());
            proof {
                assert forall|p: Seq<char>| #[trigger] r@.contains(p) <==> r0.contains(p) || exists|k: int|
                    0 <= k < i + 1 && v[#[trigger] sv[s as int][k]].head.pred == p by {
                    if r1.contains(p) && !r0.contains(p) {
                        let k = choose|k: int| 0 <= k < i && v[#[trigger] sv[s as int][k]].head.pred == p;
                        assert(0 <= k < i + 1 && v[sv[s as int][k]].head.pred == p);
                    }
                }
            }
            i += 1;
        }
        proof {
            assert forall|p: Seq<char>| #[trigger] r@.contains(p) <==> exists|t: int, i: int|
                0 <= t < s + 1 && 0 <= i < sv[t].len() && v[#[trigger] sv[t][i]].head.pred == p by {
                if r0.contains(p) {
                    let (t, i) = choose|t: int, i: int|
                        0 <= t < s && 0 <= i < sv[t].len() && v[#[trigger] sv[t][i]].head.pred == p;
                    assert(0 <= t < s + 1 && v[sv[t][i]].head.pred == p);
                }
                if r@.contains(p) && !r0.contains(p) {
                    let k = choose|k: int| 0 <= k < stratum@.len() && v[#[trigger] sv[s as int][k]].head.pred == p;
                    assert(0 <= s < s + 1 && v[sv[s as int][k]].head.pred == p);
                }
            }
        }
        s += 1;
    }
    r
}

// ------------------------------------------------------ scoped recompute

/// The relations that a recompute starts from: the readers of what lost
/// facts or is to be cleared, and what is to be cleared itself.
pub open spec fn scope_start(
    cs: Seq<ClauseV>,
    strata: Seq<Seq<int>>,
    retracted: Set<Seq<char>>,
    extra: Set<Seq<char>>,
) -> Set<Seq<char>> {
    Set::new(
        |r: Seq<char>|
            is_idb(cs, strata, r) && (extra.contains(r) || exists|p: Seq<char>|
                (retracted.contains(p) || extra.contains(p)) && #[trigger] direct_reader(cs, p, r)),
    )
}

/// The relation is filled by the clause with the given index.
pub open spec fn filled_by(cs: Seq<ClauseV>, ci: int, p: Seq<char>) -> bool {
    cs[ci].head.pred == p || (!cs[ci].is_fact && aggregates(cs[ci]) && temp_name(cs[ci], ci) == p)
}

/// Relations that the stratum fills, of which each reads the one before it.
pub open spec fn is_reading(cs: Seq<ClauseV>, stratum: Seq<int>, path: Seq<Seq<char>>) -> bool {
    &&& forall|i: int|
        0 <= i < path.len() ==> exists|k: int| 0 <= k < stratum.len() && filled_by(cs, #[trigger] stratum[k], #[trigger] path[i])
    &&& forall|i: int, j: int|
        0 <= i && j == i + 1 && j < path.len() ==> direct_reader(cs, #[trigger] path[i], #[trigger] path[j])
}

/// The relation depends, inside the stratum, on one that is to be cleared.
pub open spec fn is_due(cs: Seq<ClauseV>, stratum: Seq<int>, to_clear: Set<Seq<char>>, p: Seq<char>) -> bool {
    exists|path: Seq<Seq<char>>| #[trigger]
        is_reading(cs, stratum, path) && path.len() > 0 && to_clear.contains(path[0]) && path.last() == p
}

/// Those of the relations to clear that the stratum fills, and what depends on
/// them inside the stratum.
pub open spec fn scope_here(cs: Seq<ClauseV>, stratum: Seq<int>, to_clear: Set<Seq<char>>) -> Set<Seq<char>> {
    Set::new(
        |p: Seq<char>|
            is_due(cs, stratum, to_clear, p) && exists|i: int| 0 <= i < stratum.len() && filled_by(cs, #[trigger] stratum[i], p),
    )
}

/// What is to be cleared and filled by a stratum is cleared in it.
pub proof fn lemma_here_starts(cs: Seq<ClauseV>, stratum: Seq<int>, to_clear: Set<Seq<char>>, p: Seq<char>, k: int)
    requires
        to_clear.contains(p),
        0 <= k < stratum.len(),
        filled_by(cs, stratum[k], p),
    ensures
        scope_here(cs, stratum, to_clear).contains(p),
{
    let path = seq![p];
    assert forall|i: int| 0 <= i < path.len() implies exists|k: int|
        0 <= k < stratum.len() && filled_by(cs, #[trigger] stratum[k], #[trigger] path[i]) by {
        assert(filled_by(cs, stratum[k], path[i]));
    }
    assert(is_reading(cs, stratum, path));
}

/// What reads a cleared relation inside the stratum is cleared too.
pub proof fn lemma_here_spreads(
    cs: Seq<ClauseV>,
    stratum: Seq<int>,
    to_clear: Set<Seq<char>>,
    q: Seq<char>,
    p: Seq<char>,
    k: int,
)
    requires
        scope_here(cs, stratum, to_clear).contains(q),
        direct_reader(cs, q, p),
        0 <= k < stratum.len(),
        filled_by(cs, stratum[k], p),
    ensures
        scope_here(cs, stratum, to_clear).contains(p),
{
    let path = choose|path: Seq<Seq<char>>| #[trigger]
        is_reading(cs, stratum, path) && path.len() > 0 && to_clear.contains(path[0]) && path.last() == q;
    let more = path.push(p);
    assert forall|i: int| 0 <= i < more.len() implies exists|k: int|
        0 <= k < stratum.len() && filled_by(cs, #[trigger] stratum[k], #[trigger] more[i]) by {
        if i < path.len() {
            assert(more[i] == path[i]);
            let x = choose|x: int| 0 <= x < stratum.len() && filled_by(cs, #[trigger] stratum[x], path[i]);
            assert(filled_by(cs, stratum[x], more[i]));
        } else {
            assert(filled_by(cs, stratum[k], more[i]));
        }
    }
    assert forall|i: int, j: int| 0 <= i && j == i + 1 && j < more.len() implies direct_reader(
        cs,
        #[trigger] more[i],
        #[trigger] more[j],
    ) by {
        assert(more[i] == path[i]);
        if j < path.len() {
            assert(more[j] == path[j]);
        }
    }
    assert(is_reading(cs, stratum, more) && more[0] == path[0] && more.last() == p);
}

/// Nothing but what spreads from the relations to clear is cleared.
pub proof fn lemma_here_only(cs: Seq<ClauseV>, stratum: Seq<int>, to_clear: Set<Seq<char>>, s: Set<Seq<char>>)
    requires
        forall|p: Seq<char>, k: int|
            0 <= k < stratum.len() && to_clear.contains(p) && filled_by(cs, #[trigger] stratum[k], p) ==> #[trigger] s.contains(p),
        forall|q: Seq<char>, p: Seq<char>, k: int|
            0 <= k < stratum.len() && s.contains(q) && #[trigger] direct_reader(cs, q, p) && filled_by(
                cs,
                #[trigger] stratum[k],
                p,
            ) ==> s.contains(p),
    ensures
        scope_here(cs, stratum, to_clear).subset_of(s),
{
    assert forall|p: Seq<char>| #[trigger] scope_here(cs, stratum, to_clear).contains(p) implies s.contains(p) by {
        let path = choose|path: Seq<Seq<char>>| #[trigger]
            is_reading(cs, stratum, path) && path.len() > 0 && to_clear.contains(path[0]) && path.last() == p;
        lemma_path_in(cs, stratum, to_clear, s, path, path.len() - 1);
    }
}

proof fn lemma_path_in(
    cs: Seq<ClauseV>,
    stratum: Seq<int>,
    to_clear: Set<Seq<char>>,
    s: Set<Seq<char>>,
    path: Seq<Seq<char>>,
    i: int,
)
    requires
        forall|p: Seq<char>, k: int|
            0 <= k < stratum.len() && to_clear.contains(p) && filled_by(cs, #[trigger] stratum[k], p) ==> #[trigger] s.contains(p),
        forall|q: Seq<char>, p: Seq<char>, k: int|
            0 <= k < stratum.len() && s.contains(q) && #[trigger] direct_reader(cs, q, p) && filled_by(
                cs,
                #[trigger] stratum[k],
                p,
            ) ==> s.contains(p),
        is_reading(cs, stratum, path),
        0 <= i < path.len(),
        to_clear.contains(path[0]),
    ensures
        s.contains(path[i]),
    decreases i,
{
    let k = choose|k: int| 0 <= k < stratum.len() && filled_by(cs, #[trigger] stratum[k], path[i]);
    if i > 0 {
        lemma_path_in(cs, stratum, to_clear, s, path, i - 1);
        assert(direct_reader(cs, path[i - 1], path[i]));
        assert(filled_by(cs, stratum[k], path[i]));
    } else {
        assert(filled_by(cs, stratum[k], path[0]));
        assert(s.contains(path[0]));
    }
}

/// Where something is cleared, something that was to be is.
pub proof fn lemma_here_from(cs: Seq<ClauseV>, stratum: Seq<int>, to_clear: Set<Seq<char>>)
    requires
        forall|p: Seq<char>, k: int|
            0 <= k < stratum.len() && filled_by(cs, #[trigger] stratum[k], p) ==> !(#[trigger] to_clear.contains(p)),
    ensures
        scope_here(cs, stratum, to_clear) == Set::<Seq<char>>::empty(),
{
    lemma_here_only(cs, stratum, to_clear, Set::empty());
    assert(scope_here(cs, stratum, to_clear) =~= Set::empty());
}

/// What the rules that fill the given relations read, apart from those
/// relations.
pub open spec fn scope_seeds(cs: Seq<ClauseV>, here: Set<Seq<char>>) -> Set<Seq<char>> {
    Set::new(
        |p: Seq<char>|
            !here.contains(p) && exists|ci: int|
                0 <= ci < cs.len() && !cs[ci].is_fact && #[trigger] here.contains(owner(cs[ci], ci)) && body_reads(cs[ci], p),
    )
}

/// The relations with the tuples of the named ones pending.
pub open spec fn rels_seed_set(m: RelsV, s: Set<Seq<char>>) -> RelsV {
    Map::new(
        |n: Seq<char>| m.contains_key(n),
        |n: Seq<char>|
            if s.contains(n) {
                rel_seeded(m[n])
            } else {
                m[n]
            },
    )
}

/// The store after clearing the named relations in turn.
pub open spec fn clear_each(st: StoreV, ps: Seq<Seq<char>>) -> StoreV
    decreases ps.len(),
{
    if ps.len() == 0 {
        st
    } else {
        clear_each(store_clear(st, ps[0]), ps.drop_first())
    }
}

/// The tuples of a relation, none where there is no relation.
pub open spec fn tuples_of(m: RelsV, p: Seq<char>) -> Set<Seq<Value>> {
    if m.contains_key(p) {
        key_set(m[p])
    } else {
        Set::empty()
    }
}

/// The state of a recompute: the store, what is still to be cleared, how many
/// facts were derived, and the tuples that the cleared relations held at
/// first.
#[verifier::ext_equal]
pub struct ScopeV {
    pub st: StoreV,
    pub to_clear: Set<Seq<char>>,
    pub derived: nat,
    pub before: Map<Seq<char>, Set<Seq<Value>>>,
}

/// The readers that a recompute of `here` queues: those of relations whose
/// tuples changed.
pub open spec fn scope_queued(
    cs: Seq<ClauseV>,
    strata: Seq<Seq<int>>,
    here: Set<Seq<char>>,
    was: RelsV,
    is: RelsV,
) -> Set<Seq<char>> {
    Set::new(
        |r: Seq<char>|
            !here.contains(r) && is_idb(cs, strata, r) && exists|p: Seq<char>|
                here.contains(p) && tuples_of(was, p) != tuples_of(is, p) && #[trigger] direct_reader(cs, p, r),
    )
}

/// The clauses of a program, with those facts stated that are of the given
/// relations.
pub open spec fn stated_in(cs: Seq<ClauseV>, ps: Set<Seq<char>>) -> Seq<ClauseV> {
    cs.map_values(|c: ClauseV| ClauseV { is_fact: c.is_fact && ps.contains(c.head.pred), ..c })
}

/// Recomputing what is to be cleared of one stratum. The facts that the
/// program states of what is cleared are stated again.
pub open spec fn scope_step(sc: ScopeV, now: i64, cs: Seq<ClauseV>, strata: Seq<Seq<int>>, stratum: Seq<int>) -> ScopeV {
    let here = scope_here(cs, stratum, sc.to_clear);
    if here == Set::<Seq<char>>::empty() {
        sc
    } else {
        let cleared = clear_each(sc.st, enumerate::<String>(here));
        let seeded = StoreV { rels: rels_seed_set(cleared.rels, scope_seeds(cs, here)), ..cleared };
        let restated = declare_facts(seeded, stated_in(cs, here), 0);
        let e = eval_stratum_of(restated, now, cs, stratum);
        ScopeV {
            st: e.st,
            to_clear: sc.to_clear.difference(here).union(scope_queued(cs, strata, here, sc.st.rels, e.st.rels)),
            derived: sc.derived + (restated.log.len() - seeded.log.len()) as nat + e.new,
            before: Map::new(
                |p: Seq<char>| sc.before.contains_key(p) || (here.contains(p) && sc.st.rels.contains_key(p)),
                |p: Seq<char>|
                    if sc.before.contains_key(p) {
                        sc.before[p]
                    } else {
                        key_set(sc.st.rels[p])
                    },
            ),
        }
    }
}

/// Recomputing the strata from position `s` on.
pub open spec fn scope_pass(sc: ScopeV, now: i64, cs: Seq<ClauseV>, strata: Seq<Seq<int>>, s: int) -> ScopeV
    decreases strata.len() - s,
{
    if s < 0 || s >= strata.len() {
        sc
    } else {
        scope_pass(scope_step(sc, now, cs, strata, strata[s]), now, cs, strata, s + 1)
    }
}

/// At most `n` passes, while something is to be cleared.
pub open spec fn scope_passes(sc: ScopeV, now: i64, cs: Seq<ClauseV>, strata: Seq<Seq<int>>, n: nat) -> ScopeV
    decreases n,
{
    if n == 0 || sc.to_clear == Set::<Seq<char>>::empty() {
        sc
    } else {
        scope_passes(scope_pass(sc, now, cs, strata, 0), now, cs, strata, (n - 1) as nat)
    }
}

/// What is left of the count after taking off the facts that were there
/// before.
pub open spec fn without_known(d: nat, m: RelsV, before: Map<Seq<char>, Set<Seq<Value>>>, ps: Seq<Seq<char>>) -> nat
    decreases ps.len(),
{
    if ps.len() == 0 {
        d
    } else {
        let still = if m.contains_key(ps[0]) && !is_temp(ps[0]) {
            before[ps[0]].intersect(key_set(m[ps[0]])).len()
        } else {
            0
        };
        let left = if still <= d {
            (d - still) as nat
        } else {
            0
        };
        without_known(left, m, before, ps.drop_first())
    }
}

/// Clearing and rebuilding, stratum by stratum, the derived relations that
/// depend on what lost facts or is to be cleared, as far as the tuples of
/// what they read change.
pub open spec fn scoped(
    st: StoreV,
    now: i64,
    cs: Seq<ClauseV>,
    strata: Seq<Seq<int>>,
    extra: Set<Seq<char>>,
) -> EvalV {
    let sc = ScopeV {
        st: StoreV { retracted: Set::empty(), ..st },
        to_clear: scope_start(cs, strata, st.retracted, extra),
        derived: 0,
        before: Map::empty(),
    };
    let r = scope_passes(sc, now, cs, strata, strata.len() + 2);
    EvalV { st: r.st, new: without_known(r.derived, r.st.rels, r.before, enumerate::<String>(r.before.dom())) }
}

fn start_names(
    cs: &Vec<Clause>,
    strata: &Vec<Vec<usize>>,
    idb: &Names,
    retracted: &Names,
    extra: &Names,
) -> (r: Names)
    requires
        forall|p: Seq<char>| #[trigger] idb@.contains(p) <==> is_idb(clauses_view(cs@), strata_view(strata@), p),
    ensures
        r@ == scope_start(clauses_view(cs@), strata_view(strata@), retracted@, extra@),
{
    let ghost v = clauses_view(cs@);
    let ghost sv = strata_view(strata@);
    let mut roots: Names = retracted.duplicate();
    roots.union_with(extra);
    let ps = roots.items();
    let ghost pv = models(ps@);
    let mut r: Names = SortedSet::new();
    let mut i: usize = 0;
    while i < ps.len()
        invariant
            i <= ps@.len(),
            pv == models(ps@),
            v == clauses_view(cs@),
            sv == strata_view(strata@),
            forall|p: Seq<char>| #[trigger] idb@.contains(p) <==> is_idb(v, sv, p),
            forall|n: Seq<char>| #[trigger]
                r@.contains(n) <==> is_idb(v, sv, n) && exists|k: int| 0 <= k < i && direct_reader(v, #[trigger] pv[k], n),
        decreases ps@.len() - i,
    {
        let ghost r0 = r@;
        assert(pv[i as int] == ps@[i as int]@);
        let readers = readers_of(cs, ps[i].as_str());
        add_known(&mut r, &readers, idb);
        proof {
            assert forall|n: Seq<char>| #[trigger] r@.contains(n) <==> is_idb(v, sv, n) && exists|k: int|
                0 <= k < i + 1 && direct_reader(v, #[trigger] pv[k], n) by {
                if r0.contains(n) {
                    let k = choose|k: int| 0 <= k < i && direct_reader(v, #[trigger] pv[k], n);
                    assert(0 <= k < i + 1 && direct_reader(v, pv[k], n));
                }
                if r@.contains(n) && !r0.contains(n) {
                    assert(direct_reader(v, pv[i as int], n));
                }
            }
        }
        i += 1;
    }
    add_known(&mut r, extra, idb);
    proof {
        let w = scope_start(v, sv, retracted@, extra@);
        assert forall|n: Seq<char>| r@.contains(n) <==> w.contains(n) by {
            if exists|k: int| 0 <= k < ps@.len() && direct_reader(v, #[trigger] pv[k], n) {
                let k = choose|k: int| 0 <= k < ps@.len() && direct_reader(v, #[trigger] pv[k], n);
                assert(pv.to_set().contains(pv[k]));
            }
            if w.contains(n) && !extra@.contains(n) {
                let p = choose|p: Seq<char>|
                    (retracted@.contains(p) || extra@.contains(p)) && #[trigger] direct_reader(v, p, n);
                assert(pv.to_set().contains(p));
                let k = choose|k: int| 0 <= k < pv.len() && pv[k] == p;
                assert(direct_reader(v, pv[k], n));
            }
        }
        assert(r@ =~= w);
    }
    r
}

/// Adds those of the names that are known.
fn add_known(r: &mut Names, names: &Names, known: &Names)
    ensures
        final(r)@ == old(r)@.union(names@.intersect(known@)),
{
    let ns = names.items();
    let ghost nv = models(ns@);
    let ghost r0 = r@;
    let mut i: usize = 0;
    while i < ns.len()
        invariant
            i <= ns@.len(),
            nv == models(ns@),
            forall|n: Seq<char>| #[trigger]
                r@.contains(n) <==> r0.contains(n) || (known@.contains(n) && exists|k: int| 0 <= k < i && #[trigger] nv[k] == n),
        decreases ns@.len() - i,
    {
        let ghost r1 = r@;
        assert(nv[i as int] == ns@[i as int]@);
        if known.contains(&ns[i]) {
            r.insert(ns[i].clone());
        }
        proof {
            assert forall|n: Seq<char>| #[trigger] r@.contains(n) <==> r0.contains(n) || (known@.contains(n) && exists|k: int|
                0 <= k < i + 1 && #[trigger] nv[k] == n) by {
                if r1.contains(n) && !r0.contains(n) {
                    let k = choose|k: int| 0 <= k < i && #[trigger] nv[k] == n;
                    assert(0 <= k < i + 1 && nv[k] == n);
                }
                if n == nv[i as int] {
                    assert(0 <= i < i + 1 && nv[i as int] == n);
                }
            }
        }
        i += 1;
    }
    proof {
        assert forall|n: Seq<char>| r@.contains(n) <==> r0.union(names@.intersect(known@)).contains(n) by {
            if names@.contains(n) {
                assert(nv.to_set().contains(n));
                let k = choose|k: int| 0 <= k < nv.len() && nv[k] == n;
                assert(nv[k] == n);
            }
            if exists|k: int| 0 <= k < ns@.len() && #[trigger] nv[k] == n {
                let k = choose|k: int| 0 <= k < ns@.len() && #[trigger] nv[k] == n;
                assert(nv.to_set().contains(nv[k]));
            }
        }
        assert(r@ =~= r0.union(names@.intersect(known@)));
    }
}

/// The relations that a stratum fills.
fn filled_names(cs: &Vec<Clause>, stratum: &Vec<usize>) -> (r: Names)
    requires
        indices_of(ids_view(stratum@), cs@.len() as int),
    ensures
        forall|p: Seq<char>| #[trigger]
            r@.contains(p) <==> exists|k: int|
                0 <= k < stratum@.len() && filled_by(clauses_view(cs@), #[trigger] ids_view(stratum@)[k], p),
{
    let ghost v = clauses_view(cs@);
    let ghost ix = ids_view(stratum@);
    let mut r: Names = SortedSet::new();
    let mut i: usize = 0;
    while i < stratum.len()
        invariant
            i <= stratum@.len(),
            v == clauses_view(cs@),
            ix == ids_view(stratum@),
            indices_of(ix, cs@.len() as int),
            forall|p: Seq<char>| #[trigger]
                r@.contains(p) <==> exists|k: int| 0 <= k < i && filled_by(v, #[trigger] ix[k], p),
        decreases stratum@.len() - i,
    {
        let ci = stratum[i];
        let ghost r0 = r@;
        assert(ix[i as int] == ci);
        assert(v[ci as int] == cs@[ci as int]@);
        r.insert(cs[ci].head.pred.clone());
        if !cs[ci].is_fact && is_agg_clause(&cs[ci]) {
            r.insert(agg_temp_pred(&cs[ci], ci));
        }
        proof {
            assert forall|p: Seq<char>| #[trigger] r@.contains(p) <==> exists|k: int|
                0 <= k < i + 1 && filled_by(v, #[trigger] ix[k], p) by {
                if r0.contains(p) {
                    let k = choose|k: int| 0 <= k < i && filled_by(v, #[trigger] ix[k], p);
                    assert(0 <= k < i + 1 && filled_by(v, ix[k], p));
                }
                if r@.contains(p) && !r0.contains(p) {
                    assert(filled_by(v, ix[i as int], p));
                }
            }
        }
        i += 1;
    }
    r
}

/// Some names with those of the known ones that read them.
fn with_readers(cs: &Vec<Clause>, names: &Names, known: &Names) -> (r: Names)
    ensures
        forall|p: Seq<char>| #[trigger]
            r@.contains(p) <==> names@.contains(p) || (known@.contains(p) && exists|q: Seq<char>|
                names@.contains(q) && #[trigger] direct_reader(clauses_view(cs@), q, p)),
{
    let ghost v = clauses_view(cs@);
    let mut r: Names = names.duplicate();
    let ns = names.items();
    let ghost nv = models(ns@);
    let mut i: usize = 0;
    while i < ns.len()
        invariant
            i <= ns@.len(),
            nv == models(ns@),
            v == clauses_view(cs@),
            forall|p: Seq<char>| #[trigger]
                r@.contains(p) <==> names@.contains(p) || (known@.contains(p) && exists|k: int|
                    0 <= k < i && direct_reader(v, #[trigger] nv[k], p)),
        decreases ns@.len() - i,
    {
        let ghost r0 = r@;
        assert(nv[i as int] == ns@[i as int]@);
        let readers = readers_of(cs, ns[i].as_str());
        add_known(&mut r, &readers, known);
        proof {
            assert forall|p: Seq<char>| #[trigger] r@.contains(p) <==> names@.contains(p) || (known@.contains(p) && exists|k: int|
                0 <= k < i + 1 && direct_reader(v, #[trigger] nv[k], p)) by {
                if r0.contains(p) && !names@.contains(p) {
                    let k = choose|k: int| 0 <= k < i && direct_reader(v, #[trigger] nv[k], p);
                    assert(0 <= k < i + 1 && direct_reader(v, nv[k], p));
                }
                if r@.contains(p) && !r0.contains(p) {
                    assert(direct_reader(v, nv[i as int], p));
                }
            }
        }
        i += 1;
    }
    proof {
        assert forall|p: Seq<char>| #[trigger] r@.contains(p) <==> names@.contains(p) || (known@.contains(p) && exists|q: Seq<char>|
            names@.contains(q) && #[trigger] direct_reader(v, q, p)) by {
            if exists|k: int| 0 <= k < ns@.len() && direct_reader(v, #[trigger] nv[k], p) {
                let k = choose|k: int| 0 <= k < ns@.len() && direct_reader(v, #[trigger] nv[k], p);
                assert(nv.to_set().contains(nv[k]));
            }
            if exists|q: Seq<char>| names@.contains(q) && #[trigger] direct_reader(v, q, p) {
                let q = choose|q: Seq<char>| names@.contains(q) && #[trigger] direct_reader(v, q, p);
                assert(nv.to_set().contains(q));
                let k = choose|k: int| 0 <= k < nv.len() && nv[k] == q;
                assert(direct_reader(v, nv[k], p));
            }
        }
    }
    r
}

/// Those of the relations to clear that the stratum fills, and what depends on
/// them inside the stratum.
fn here_names(cs: &Vec<Clause>, stratum: &Vec<usize>, to_clear: &Names) -> (r: Names)
    requires
        indices_of(ids_view(stratum@), cs@.len() as int),
    ensures
        r@ == scope_here(clauses_view(cs@), ids_view(stratum@), to_clear@),
{
    let ghost v = clauses_view(cs@);
    let ghost ix = ids_view(stratum@);
    let ghost want = scope_here(v, ix, to_clear@);
    let fill = filled_names(cs, stratum);
    let mut r: Names = SortedSet::new();
    add_known(&mut r, to_clear, &fill);
    let size: usize = fill.len();
    proof {
        assert forall|p: Seq<char>| #[trigger] r@.contains(p) implies want.contains(p) by {
            let k = choose|k: int| 0 <= k < ix.len() && filled_by(v, #[trigger] ix[k], p);
            lemma_here_starts(v, ix, to_clear@, p, k);
        }
    }
    loop
        invariant
            v == clauses_view(cs@),
            ix == ids_view(stratum@),
            want == scope_here(v, ix, to_clear@),
            fill@.finite(),
            size == fill@.len(),
            forall|p: Seq<char>| #[trigger]
                fill@.contains(p) <==> exists|k: int| 0 <= k < ix.len() && filled_by(v, #[trigger] ix[k], p),
            forall|p: Seq<char>| #[trigger] r@.contains(p) ==> want.contains(p) && fill@.contains(p),
            forall|p: Seq<char>| #[trigger] to_clear@.contains(p) && fill@.contains(p) ==> r@.contains(p),
        ensures
            r@ == want,
        decreases size - r@.len(),
    {
        let next = with_readers(cs, &r, &fill);
        proof {
            vstd::set_lib::lemma_len_subset(r@, fill@);
            assert forall|p: Seq<char>| #[trigger] next@.contains(p) implies want.contains(p) && fill@.contains(p) by {
                if !r@.contains(p) {
                    let q = choose|q: Seq<char>| r@.contains(q) && #[trigger] direct_reader(v, q, p);
                    let k = choose|k: int| 0 <= k < ix.len() && filled_by(v, #[trigger] ix[k], p);
                    lemma_here_spreads(v, ix, to_clear@, q, p, k);
                }
            }
        }
        if next.equal(&r) {
            proof {
                assert forall|p: Seq<char>, k: int|
                    0 <= k < ix.len() && to_clear@.contains(p) && filled_by(v, #[trigger] ix[k], p) implies #[trigger] r@.contains(p) by {
                    assert(fill@.contains(p));
                }
                assert forall|q: Seq<char>, p: Seq<char>, k: int|
                    0 <= k < ix.len() && r@.contains(q) && #[trigger] direct_reader(v, q, p) && filled_by(v, #[trigger] ix[k], p) implies r@.contains(
                    p,
                ) by {
                    assert(fill@.contains(p));
                    assert(next@.contains(p));
                }
                lemma_here_only(v, ix, to_clear@, r@);
                assert(r@ =~= want);
            }
            break;
        }
        proof {
            assert(r@.subset_of(next@));
            let x = choose|x: Seq<char>| next@.contains(x) && !r@.contains(x);
            assert(exists|x: Seq<char>| next@.contains(x) && !r@.contains(x)) by {
                if forall|x: Seq<char>| next@.contains(x) ==> r@.contains(x) {
                    assert(next@ =~= r@);
                }
            }
            vstd::set_lib::lemma_len_subset(next@, fill@);
            vstd::set_lib::lemma_set_subset_finite(fill@, next@);
            assert(r@.subset_of(next@.remove(x)));
            vstd::set_lib::lemma_len_subset(r@, next@.remove(x));
        }
        r = next;
    }
    r
}

fn seed_names(cs: &Vec<Clause>, here: &Names) -> (r: Names)
    ensures
        r@ == scope_seeds(clauses_view(cs@), here@),
{
    let ghost v = clauses_view(cs@);
    let mut r: Names = SortedSet::new();
    let mut i: usize = 0;
    while i < cs.len()
        invariant
            i <= cs@.len(),
            v == clauses_view(cs@),
            forall|p: Seq<char>| #[trigger]
                r@.contains(p) <==> !here@.contains(p) && exists|ci: int|
                    0 <= ci < i && !v[ci].is_fact && #[trigger] here@.contains(owner(v[ci], ci)) && body_reads(v[ci], p),
        decreases cs@.len() - i,
    {
        let c = &cs[i];
        let ghost r0 = r@;
        assert(v[i as int] == c@);
        if !c.is_fact && here.contains(&owner_of(c, i)) {
            let mut j: usize = 0;
            while j < c.body.len()
                invariant
                    j <= c.body@.len(),
                    forall|p: Seq<char>| #[trigger]
                        r@.contains(p) <==> r0.contains(p) || (!here@.contains(p) && exists|k: int|
                            0 <= k < j && lit_reads(#[trigger] c@.body[k], p)),
                decreases c.body@.len() - j,
            {
                let ghost r1 = r@;
                assert(c@.body[j as int] == c.body@[j as int]@);
                let read = match &c.body[j] {
                    Lit::Pos(a) => Some(a),
                    Lit::Neg(a) => Some(a),
                    _ => None,
                };
                if let Some(a) = read {
                    if !here.contains(&a.pred) {
                        r.insert(a.pred.clone());
                    }
                }
                proof {
                    assert forall|p: Seq<char>| #[trigger] r@.contains(p) <==> r0.contains(p) || (!here@.contains(p)
                        && exists|k: int| 0 <= k < j + 1 && lit_reads(#[trigger] c@.body[k], p)) by {
                        if r1.contains(p) && !r0.contains(p) {
                            let k = choose|k: int| 0 <= k < j && lit_reads(#[trigger] c@.body[k], p);
                            assert(0 <= k < j + 1 && lit_reads(c@.body[k], p));
                        }
                        if r@.contains(p) && !r1.contains(p) {
                            assert(lit_reads(c@.body[j as int], p));
                        }
                    }
                }
                j += 1;
            }
        }
        proof {
            assert forall|p: Seq<char>| #[trigger] r@.contains(p) <==> !here@.contains(p) && exists|ci: int|
                0 <= ci < i + 1 && !v[ci].is_fact && #[trigger] here@.contains(owner(v[ci], ci)) && body_reads(v[ci], p) by {
                if r0.contains(p) {
                    let ci = choose|ci: int|
                        0 <= ci < i && !v[ci].is_fact && #[trigger] here@.contains(owner(v[ci], ci)) && body_reads(v[ci], p);
                    assert(0 <= ci < i + 1 && here@.contains(owner(v[ci], ci)));
                }
                if r@.contains(p) && !r0.contains(p) {
                    assert(body_reads(v[i as int], p));
                    assert(here@.contains(owner(v[i as int], i as int)));
                }
                if !v[i as int].is_fact && here@.contains(owner(v[i as int], i as int)) && body_reads(v[i as int], p) && !here@.contains(p) {
                    let k = choose|k: int| 0 <= k < c@.body.len() && lit_reads(#[trigger] c@.body[k], p);
                    assert(r@.contains(p));
                }
            }
        }
        i += 1;
    }
    assert(r@ =~= scope_seeds(v, here@));
    r
}

/// Clears the named relations in turn.
fn clear_names(store: &mut Store, names: &Names)
    requires
        rels_wf(old(store)@.rels),
    ensures
        final(store)@ == clear_each(old(store)@, enumerate::<String>(names@)),
        rels_wf(final(store)@.rels),
        final(store)@.log == old(store)@.log,
{
    let ns = names.items();
    let ghost nv = models(ns@);
    let ghost want = clear_each(store@, nv);
    let mut i: usize = 0;
    assert(nv.skip(0) =~= nv);
    while i < ns.len()
        invariant
            i <= ns@.len(),
            nv == models(ns@),
            rels_wf(store@.rels),
            want == clear_each(store@, nv.skip(i as int)),
            store@.log == old(store)@.log,
        decreases ns@.len() - i,
    {
        assert(nv.skip(i as int)[0] == ns@[i as int]@);
        assert(nv.skip(i as int).drop_first() =~= nv.skip(i + 1));
        store.clear(ns[i].as_str());
        i += 1;
    }
}

/// Makes the tuples of the named relations pending.
fn seed_each(store: &mut Store, names: &Names)
    requires
        rels_wf(old(store)@.rels),
    ensures
        final(store)@ == (StoreV { rels: rels_seed_set(old(store)@.rels, names@), ..old(store)@ }),
        rels_wf(final(store)@.rels),
{
    let ns = names.items();
    let ghost nv = models(ns@);
    let ghost m0 = store@.rels;
    let mut i: usize = 0;
    assert(rels_seed_set(m0, nv.take(0).to_set()) =~= m0) by {
        assert(nv.take(0).to_set() =~= Set::empty());
    }
    while i < ns.len()
        invariant
            i <= ns@.len(),
            nv == models(ns@),
            crate::sorted_set::ascending::<String>(nv),
            rels_wf(store@.rels),
            store@ == (StoreV { rels: rels_seed_set(m0, nv.take(i as int).to_set()), ..old(store)@ }),
        decreases ns@.len() - i,
    {
        let ghost m1 = store@.rels;
        store.relations.mark_all_pending(ns[i].as_str());
        proof {
            let n = nv[i as int];
            assert(n == ns@[i as int]@);
            let t = nv.take(i as int);
            assert(nv.take(i + 1) =~= t.push(n));
            t.lemma_push_to_set_commute(n);
            if t.to_set().contains(n) {
                let k = choose|k: int| 0 <= k < t.len() && t[k] == n;
                <String as Item>::before_irreflexive(n);
                assert(<String as Item>::before(nv[k], nv[i as int]));
            }
            assert(store@.rels =~= rels_seed_set(m0, nv.take(i + 1).to_set()));
        }
        i += 1;
    }
    assert(nv.take(nv.len() as int) =~= nv);
}

/// The values of the sets under names.
pub open spec fn sets_view(m: Map<Seq<char>, SortedSet<Vec<Value>>>) -> Map<Seq<char>, Set<Seq<Value>>> {
    m.map_values(|s: SortedSet<Vec<Value>>| s@)
}

/// The tuples of a relation, none where there is no relation.
fn tuples(store: &Store, p: &str) -> (r: SortedSet<Vec<Value>>)
    ensures
        r@ == tuples_of(store@.rels, p@),
{
    match store.relations.get(p) {
        Some(rel) => rel.key_set(),
        None => SortedSet::new(),
    }
}

/// Remembers the tuples of the named relations, where it has none yet.
fn remember(store: &Store, names: &Names, before: &mut NameMap<SortedSet<Vec<Value>>>)
    ensures
        sets_view(final(before)@) == Map::new(
            |p: Seq<char>|
                sets_view(old(before)@).contains_key(p) || (names@.contains(p) && store@.rels.contains_key(p)),
            |p: Seq<char>|
                if sets_view(old(before)@).contains_key(p) {
                    sets_view(old(before)@)[p]
                } else {
                    key_set(store@.rels[p])
                },
        ),
{
    let ns = names.items();
    let ghost nv = models(ns@);
    let ghost b0 = before@;
    let mut i: usize = 0;
    while i < ns.len()
        invariant
            i <= ns@.len(),
            nv == models(ns@),
            forall|p: Seq<char>| #[trigger]
                before@.contains_key(p) <==> b0.contains_key(p) || (store@.rels.contains_key(p) && exists|k: int|
                    0 <= k < i && #[trigger] nv[k] == p),
            forall|p: Seq<char>| #[trigger]
                before@.contains_key(p) ==> (if b0.contains_key(p) {
                    before@[p] == b0[p]
                } else {
                    before@[p]@ == key_set(store@.rels[p])
                }),
        decreases ns@.len() - i,
    {
        let ghost b1 = before@;
        let name = ns[i].as_str();
        assert(nv[i as int] == name@);
        if !before.contains(name) {
            if let Some(rel) = store.relations.get(name) {
                before.put(name, rel.key_set());
            }
        }
        proof {
            assert forall|p: Seq<char>| #[trigger] before@.contains_key(p) <==> b0.contains_key(p) || (store@.rels.contains_key(p)
                && exists|k: int| 0 <= k < i + 1 && #[trigger] nv[k] == p) by {
                if b1.contains_key(p) && !b0.contains_key(p) {
                    let k = choose|k: int| 0 <= k < i && #[trigger] nv[k] == p;
                    assert(0 <= k < i + 1 && nv[k] == p);
                }
                if p == nv[i as int] {
                    assert(0 <= i < i + 1 && nv[i as int] == p);
                }
            }
        }
        i += 1;
    }
    proof {
        let w = Map::new(
            |p: Seq<char>| sets_view(b0).contains_key(p) || (names@.contains(p) && store@.rels.contains_key(p)),
            |p: Seq<char>|
                if sets_view(b0).contains_key(p) {
                    sets_view(b0)[p]
                } else {
                    key_set(store@.rels[p])
                },
        );
        assert forall|p: Seq<char>| sets_view(before@).contains_key(p) <==> w.contains_key(p) by {
            assert(sets_view(before@).contains_key(p) <==> before@.contains_key(p));
            assert(sets_view(b0).contains_key(p) <==> b0.contains_key(p));
            if names@.contains(p) {
                assert(nv.to_set().contains(p));
                let k = choose|k: int| 0 <= k < nv.len() && nv[k] == p;
                assert(nv[k] == p);
            }
            if exists|k: int| 0 <= k < ns@.len() && #[trigger] nv[k] == p {
                let k = choose|k: int| 0 <= k < ns@.len() && #[trigger] nv[k] == p;
                assert(nv.to_set().contains(nv[k]));
            }
        }
        assert forall|p: Seq<char>| sets_view(before@).contains_key(p) implies sets_view(before@)[p] == w[p] by {
            assert(before@.contains_key(p));
        }
        assert(sets_view(before@) =~= w);
    }
}

/// The state of a recompute.
struct Scope {
    to_clear: Names,
    derived: usize,
    before: NameMap<SortedSet<Vec<Value>>>,
}

spec fn scope_view(store: StoreV, sc: Scope) -> ScopeV {
    ScopeV { st: store, to_clear: sc.to_clear@, derived: sc.derived as nat, before: sets_view(sc.before@) }
}

/// The readers to queue after a recompute of `here`, given the tuples that
/// each of its relations had.
fn queued_names(
    store: &Store,
    cs: &Vec<Clause>,
    idb: &Names,
    here: &Names,
    was: &Vec<SortedSet<Vec<Value>>>,
    Ghost(strata): Ghost<Seq<Seq<int>>>,
    Ghost(rels): Ghost<RelsV>,
) -> (r: Names)
    requires
        forall|p: Seq<char>| #[trigger] idb@.contains(p) <==> is_idb(clauses_view(cs@), strata, p),
        was@.len() == enumerate::<String>(here@).len(),
        forall|i: int| 0 <= i < was@.len() ==> (#[trigger] was@[i])@ == tuples_of(rels, enumerate::<String>(here@)[i]),
    ensures
        r@ == scope_queued(clauses_view(cs@), strata, here@, rels, store@.rels),
{
    let ghost v = clauses_view(cs@);
    let ns = here.items();
    let ghost nv = models(ns@);
    let mut all: Names = SortedSet::new();
    let mut i: usize = 0;
    while i < ns.len()
        invariant
            i <= ns@.len(),
            nv == models(ns@),
            nv == enumerate::<String>(here@),
            v == clauses_view(cs@),
            was@.len() == nv.len(),
            forall|i: int| 0 <= i < was@.len() ==> (#[trigger] was@[i])@ == tuples_of(rels, nv[i]),
            forall|p: Seq<char>| #[trigger] idb@.contains(p) <==> is_idb(v, strata, p),
            forall|n: Seq<char>| #[trigger]
                all@.contains(n) <==> is_idb(v, strata, n) && exists|k: int|
                    0 <= k < i && tuples_of(rels, #[trigger] nv[k]) != tuples_of(store@.rels, nv[k]) && direct_reader(v, nv[k], n),
        decreases ns@.len() - i,
    {
        let ghost a0 = all@;
        assert(nv[i as int] == ns@[i as int]@);
        let now_has = tuples(store, ns[i].as_str());
        if !now_has.equal(&was[i]) {
            let readers = readers_of(cs, ns[i].as_str());
            add_known(&mut all, &readers, idb);
        }
        proof {
            assert forall|n: Seq<char>| #[trigger] all@.contains(n) <==> is_idb(v, strata, n) && exists|k: int|
                0 <= k < i + 1 && tuples_of(rels, #[trigger] nv[k]) != tuples_of(store@.rels, nv[k]) && direct_reader(
                    v,
                    nv[k],
                    n,
                ) by {
                if a0.contains(n) {
                    let k = choose|k: int|
                        0 <= k < i && tuples_of(rels, #[trigger] nv[k]) != tuples_of(store@.rels, nv[k]) && direct_reader(
                            v,
                            nv[k],
                            n,
                        );
                    assert(0 <= k < i + 1 && direct_reader(v, nv[k], n));
                }
                if all@.contains(n) && !a0.contains(n) {
                    assert(direct_reader(v, nv[i as int], n));
                }
            }
        }
        i += 1;
    }
    let mut r: Names = SortedSet::new();
    let xs = all.items();
    let ghost xv = models(xs@);
    let mut j: usize = 0;
    while j < xs.len()
        invariant
            j <= xs@.len(),
            xv == models(xs@),
            forall|n: Seq<char>| #[trigger]
                r@.contains(n) <==> !here@.contains(n) && exists|k: int| 0 <= k < j && #[trigger] xv[k] == n,
        decreases xs@.len() - j,
    {
        let ghost r0 = r@;
        assert(xv[j as int] == xs@[j as int]@);
        if !here.contains(&xs[j]) {
            r.insert(xs[j].clone());
        }
        proof {
            assert forall|n: Seq<char>| #[trigger] r@.contains(n) <==> !here@.contains(n) && exists|k: int|
                0 <= k < j + 1 && #[trigger] xv[k] == n by {
                if r0.contains(n) {
                    let k = choose|k: int| 0 <= k < j && #[trigger] xv[k] == n;
                    assert(0 <= k < j + 1 && xv[k] == n);
                }
                if n == xv[j as int] {
                    assert(0 <= j < j + 1 && xv[j as int] == n);
                }
            }
        }
        j += 1;
    }
    proof {
        let w = scope_queued(v, strata, here@, rels, store@.rels);
        assert forall|n: Seq<char>| r@.contains(n) <==> w.contains(n) by {
            if r@.contains(n) {
                let k = choose|k: int| 0 <= k < xs@.len() && #[trigger] xv[k] == n;
                assert(xv.to_set().contains(xv[k]));
                assert(all@.contains(n));
                let m = choose|m: int|
                    0 <= m < ns@.len() && tuples_of(rels, #[trigger] nv[m]) != tuples_of(store@.rels, nv[m]) && direct_reader(
                        v,
                        nv[m],
                        n,
                    );
                assert(nv.to_set().contains(nv[m]));
                assert(direct_reader(v, nv[m], n));
            }
            if w.contains(n) {
                let p = choose|p: Seq<char>|
                    here@.contains(p) && tuples_of(rels, p) != tuples_of(store@.rels, p) && #[trigger] direct_reader(v, p, n);
                assert(nv.to_set().contains(p));
                let m = choose|m: int| 0 <= m < nv.len() && nv[m] == p;
                assert(direct_reader(v, nv[m], n));
                assert(all@.contains(n));
                assert(xv.to_set().contains(n));
                let k = choose|k: int| 0 <= k < xv.len() && xv[k] == n;
                assert(xv[k] == n);
            }
        }
        assert(r@ =~= w);
    }
    r
}

/// States the facts of the program that are of cleared relations again.
fn restate(store: &mut Store, cs: &Vec<Clause>, here: &Names)
    requires
        rels_wf(old(store)@.rels),
    ensures
        final(store)@ == declare_facts(old(store)@, stated_in(clauses_view(cs@), here@), 0),
        rels_wf(final(store)@.rels),
        final(store)@.log.len() >= old(store)@.log.len(),
{
    let ghost v = stated_in(clauses_view(cs@), here@);
    let ghost want = declare_facts(store@, v, 0);
    let empty = Env::new();
    let mut i: usize = 0;
    while i < cs.len()
        invariant
            i <= cs@.len(),
            v == stated_in(clauses_view(cs@), here@),
            empty@.map == Map::<Seq<char>, Value>::empty(),
            rels_wf(store@.rels),
            want == declare_facts(store@, v, i as int),
            store@.log.len() >= old(store)@.log.len(),
        decreases cs@.len() - i,
    {
        let c = &cs[i];
        assert(clauses_view(cs@)[i as int] == c@);
        if c.is_fact && here.contains(&c.head.pred) {
            if let Some(args) = ground_head(&mut store.interner, &c.head.args, &empty) {
                declare_in(store, c.head.pred.as_str(), &args, Ann::unit());
            }
        }
        i += 1;
    }
}

/// Recomputes what is to be cleared of one stratum.
fn recompute_stratum(
    store: &mut Store,
    now: i64,
    cs: &Vec<Clause>,
    strata: &Vec<Vec<usize>>,
    idb: &Names,
    stratum: &Vec<usize>,
    sc: &mut Scope,
    Ghost(log0): Ghost<int>,
)
    requires
        rels_wf(old(store)@.rels),
        indices_of(ids_view(stratum@), cs@.len() as int),
        forall|p: Seq<char>| #[trigger] idb@.contains(p) <==> is_idb(clauses_view(cs@), strata_view(strata@), p),
        0 <= log0,
        old(sc).derived <= old(store)@.log.len() - log0,
    ensures
        scope_view(final(store)@, *final(sc)) == scope_step(
            scope_view(old(store)@, *old(sc)),
            now,
            clauses_view(cs@),
            strata_view(strata@),
            ids_view(stratum@),
        ),
        rels_wf(final(store)@.rels),
        final(sc).derived <= final(store)@.log.len() - log0,
        final(store)@.log.len() >= old(store)@.log.len(),
        step_settles(scope_view(old(store)@, *old(sc)), now, clauses_view(cs@), ids_view(stratum@)),
{
    let ghost v = clauses_view(cs@);
    let ghost sv = strata_view(strata@);
    let ghost ix = ids_view(stratum@);
    let ghost start = scope_view(store@, *sc);
    let ghost rels0 = store@.rels;
    let here = here_names(cs, stratum, &sc.to_clear);
    if here.is_empty() {
        return;
    }
    let ns = here.items();
    let ghost nv = models(ns@);
    let mut was: Vec<SortedSet<Vec<Value>>> = Vec::new();
    let mut i: usize = 0;
    while i < ns.len()
        invariant
            i <= ns@.len(),
            nv == models(ns@),
            was@.len() == i,
            forall|k: int| 0 <= k < i ==> (#[trigger] was@[k])@ == tuples_of(store@.rels, nv[k]),
        decreases ns@.len() - i,
    {
        assert(nv[i as int] == ns@[i as int]@);
        was.push(tuples(store, ns[i].as_str()));
        i += 1;
    }
    remember(store, &here, &mut sc.before);
    clear_names(store, &here);
    let seeds = seed_names(cs, &here);
    seed_each(store, &seeds);
    let from: usize = store.change_log.len();
    restate(store, cs, &here);
    assert(store@ == reset(start, v, here@));
    let to: usize = store.change_log.len();
    let n = eval_stratum(store, now, cs, stratum);
    let size: usize = store.change_log.len();
    assert(size == store@.log.len());
    sc.derived = sc.derived + (to - from) + n;
    let queued = queued_names(store, cs, idb, &here, &was, Ghost(sv), Ghost(rels0));
    let mut left: Names = without(&sc.to_clear, &here);
    left.union_with(&queued);
    sc.to_clear = left;
    assert(scope_view(store@, *sc) =~= scope_step(start, now, v, sv, ix));
}

/// The names that are not among others.
fn without(names: &Names, others: &Names) -> (r: Names)
    ensures
        r@ == names@.difference(others@),
{
    let xs = others.items();
    let ghost xv = models(xs@);
    let mut r = names.duplicate();
    let mut j: usize = 0;
    while j < xs.len()
        invariant
            j <= xs@.len(),
            xv == models(xs@),
            forall|n: Seq<char>| #[trigger]
                r@.contains(n) <==> names@.contains(n) && !(exists|k: int| 0 <= k < j && #[trigger] xv[k] == n),
        decreases xs@.len() - j,
    {
        let ghost r0 = r@;
        assert(xv[j as int] == xs@[j as int]@);
        r.remove(&xs[j]);
        proof {
            assert forall|n: Seq<char>| #[trigger] r@.contains(n) <==> names@.contains(n) && !(exists|k: int|
                0 <= k < j + 1 && #[trigger] xv[k] == n) by {
                if exists|k: int| 0 <= k < j && #[trigger] xv[k] == n {
                    let k = choose|k: int| 0 <= k < j && #[trigger] xv[k] == n;
                    assert(0 <= k < j + 1 && xv[k] == n);
                }
                if n == xv[j as int] {
                    assert(0 <= j < j + 1 && xv[j as int] == n);
                }
            }
        }
        j += 1;
    }
    proof {
        assert forall|n: Seq<char>| r@.contains(n) <==> names@.difference(others@).contains(n) by {
            if others@.contains(n) {
                assert(xv.to_set().contains(n));
                let k = choose|k: int| 0 <= k < xv.len() && xv[k] == n;
                assert(xv[k] == n);
            }
            if exists|k: int| 0 <= k < xs@.len() && #[trigger] xv[k] == n {
                let k = choose|k: int| 0 <= k < xs@.len() && #[trigger] xv[k] == n;
                assert(xv.to_set().contains(xv[k]));
            }
        }
        assert(r@ =~= names@.difference(others@));
    }
    r
}

/// How many of the tuples are in the relation.
fn count_known(set: &SortedSet<Vec<Value>>, other: &SortedSet<Vec<Value>>) -> (r: usize)
    ensures
        r == set@.intersect(other@).len(),
{
    let xs = set.items();
    let ghost xv = models(xs@);
    let mut both: SortedSet<Vec<Value>> = SortedSet::new();
    let mut j: usize = 0;
    while j < xs.len()
        invariant
            j <= xs@.len(),
            xv == models(xs@),
            forall|n: Seq<Value>| #[trigger]
                both@.contains(n) <==> other@.contains(n) && exists|k: int| 0 <= k < j && #[trigger] xv[k] == n,
        decreases xs@.len() - j,
    {
        let ghost b0 = both@;
        assert(xv[j as int] == xs@[j as int]@);
        if other.contains(&xs[j]) {
            both.insert(crate::value::copy_key(&xs[j]));
        }
        proof {
            assert forall|n: Seq<Value>| #[trigger] both@.contains(n) <==> other@.contains(n) && exists|k: int|
                0 <= k < j + 1 && #[trigger] xv[k] == n by {
                if b0.contains(n) {
                    let k = choose|k: int| 0 <= k < j && #[trigger] xv[k] == n;
                    assert(0 <= k < j + 1 && xv[k] == n);
                }
                if n == xv[j as int] {
                    assert(0 <= j < j + 1 && xv[j as int] == n);
                }
            }
        }
        j += 1;
    }
    proof {
        assert forall|n: Seq<Value>| both@.contains(n) <==> set@.intersect(other@).contains(n) by {
            if set@.contains(n) {
                assert(xv.to_set().contains(n));
                let k = choose|k: int| 0 <= k < xv.len() && xv[k] == n;
                assert(xv[k] == n);
            }
            if exists|k: int| 0 <= k < xs@.len() && #[trigger] xv[k] == n {
                let k = choose|k: int| 0 <= k < xs@.len() && #[trigger] xv[k] == n;
                assert(xv.to_set().contains(xv[k]));
            }
        }
        assert(both@ =~= set@.intersect(other@));
    }
    both.len()
}

fn discount(store: &Store, derived: usize, before: &NameMap<SortedSet<Vec<Value>>>) -> (r: usize)
    ensures
        r == without_known(
            derived as nat,
            store@.rels,
            sets_view(before@),
            enumerate::<String>(sets_view(before@).dom()),
        ),
        r <= derived,
{
    let names = before.names();
    let ns = names.items();
    let ghost nv = models(ns@);
    let ghost bv = sets_view(before@);
    assert(bv.dom() =~= before@.dom());
    let mut d: usize = derived;
    let mut i: usize = 0;
    assert(nv.skip(0) =~= nv);
    while i < ns.len()
        invariant
            i <= ns@.len(),
            nv == models(ns@),
            nv.to_set() == before@.dom(),
            bv == sets_view(before@),
            d <= derived,
            without_known(derived as nat, store@.rels, bv, nv) == without_known(d as nat, store@.rels, bv, nv.skip(i as int)),
        decreases ns@.len() - i,
    {
        assert(nv.skip(i as int)[0] == nv[i as int]);
        assert(nv.skip(i as int).drop_first() =~= nv.skip(i + 1));
        assert(nv[i as int] == ns@[i as int]@);
        assert(nv.to_set().contains(nv[i as int]));
        assert(before@.contains_key(nv[i as int]));
        let counts = !text_starts_with(ns[i].as_str(), "__agg:");
        if let Some(rel) = store.relations.get(ns[i].as_str()) {
            if !counts {
            } else if let Some(set) = before.get(ns[i].as_str()) {
                assert(bv[nv[i as int]] == set@);
                let still = count_known(set, &rel.key_set());
                d = if still <= d {
                    d - still
                } else {
                    0
                };
            }
        }
        i += 1;
    }
    d
}

/// Clears and rebuilds, stratum by stratum, the derived relations that depend
/// on predicates that lost facts, or that are named in `extra`; a relation
/// is rebuilt only if the tuples of what it reads changed, and the facts that
/// the program states of it are stated again. Gives the number of facts that
/// are new.
pub fn scoped_recompute(
    store: &mut Store,
    now: i64,
    cs: &Vec<Clause>,
    strata: &Vec<Vec<usize>>,
    extra: &Names,
) -> (r: usize)
    requires
        rels_wf(old(store)@.rels),
        strata_fit(strata_view(strata@), cs@.len() as int),
    ensures
        final(store)@ == scoped(old(store)@, now, clauses_view(cs@), strata_view(strata@), extra@).st,
        r == scoped(old(store)@, now, clauses_view(cs@), strata_view(strata@), extra@).new,
        rels_wf(final(store)@.rels),
        r <= final(store)@.log.len() - old(store)@.log.len(),
        passes_settle(
            scope_begun(old(store)@, clauses_view(cs@), strata_view(strata@), extra@),
            now,
            clauses_view(cs@),
            strata_view(strata@),
            strata@.len() + 2,
        ),
{
    let ghost v = clauses_view(cs@);
    let ghost sv = strata_view(strata@);
    let ghost log0 = store@.log.len() as int;
    let idb = derived_names(cs, strata);
    let to_clear = start_names(cs, strata, &idb, &store.retracted, extra);
    store.retracted = SortedSet::new();
    let mut sc = Scope { to_clear, derived: 0, before: NameMap::new() };
    assert(sets_view(sc.before@) =~= Map::empty());
    let ghost start = scope_view(store@, sc);
    let ghost want = scope_passes(start, now, v, sv, sv.len() + 2);
    assert(start == scope_begun(old(store)@, v, sv, extra@));
    let limit: u128 = strata.len() as u128 + 2;
    let mut round: u128 = 0;
    while !sc.to_clear.is_empty() && round < limit
        invariant
            limit == sv.len() + 2,
            v == clauses_view(cs@),
            sv == strata_view(strata@),
            strata_fit(sv, cs@.len() as int),
            forall|p: Seq<char>| #[trigger] idb@.contains(p) <==> is_idb(v, sv, p),
            rels_wf(store@.rels),
            0 <= log0 <= store@.log.len(),
            sc.derived <= store@.log.len() - log0,
            round <= limit,
            want == scope_passes(scope_view(store@, sc), now, v, sv, (limit - round) as nat),
            passes_settle(scope_view(store@, sc), now, v, sv, (limit - round) as nat) ==> passes_settle(
                start,
                now,
                v,
                sv,
                sv.len() + 2,
            ),
        decreases limit - round,
    {
        let ghost sc0 = scope_view(store@, sc);
        let ghost pass = scope_pass(sc0, now, v, sv, 0);
        let mut s: usize = 0;
        while s < strata.len()
            invariant
                s <= strata@.len(),
                v == clauses_view(cs@),
                sv == strata_view(strata@),
                strata_fit(sv, cs@.len() as int),
                forall|p: Seq<char>| #[trigger] idb@.contains(p) <==> is_idb(v, sv, p),
                rels_wf(store@.rels),
                0 <= log0 <= store@.log.len(),
                sc.derived <= store@.log.len() - log0,
                pass == scope_pass(scope_view(store@, sc), now, v, sv, s as int),
                pass_settles(scope_view(store@, sc), now, v, sv, s as int) ==> pass_settles(sc0, now, v, sv, 0),
            decreases strata@.len() - s,
        {
            assert(sv[s as int] == ids_view(strata@[s as int]@));
            assert(indices_of(sv[s as int], cs@.len() as int));
            recompute_stratum(store, now, cs, strata, &idb, &strata[s], &mut sc, Ghost(log0));
            s += 1;
        }
        round += 1;
    }
    let d = discount(store, sc.derived, &sc.before);
    d
}

/// Clearing every relation that is or was derived, with all that is left
/// pending.
pub open spec fn rebuilt(st: StoreV, cs: Seq<ClauseV>, strata: Seq<Seq<int>>, ever: Set<Seq<char>>) -> StoreV {
    let all = Set::new(|p: Seq<char>| ever.contains(p) || in_heads(cs, strata, p));
    let st1 = clear_each(st, enumerate::<String>(all));
    StoreV { rels: rels_seed_all(st1.rels), ..st1 }
}

/// Clears every relation that is or was derived and makes all that is left
/// pending, so that the rules are applied to the whole store.
pub fn program_recompute(store: &mut Store, cs: &Vec<Clause>, strata: &Vec<Vec<usize>>, ever: &Names)
    requires
        rels_wf(old(store)@.rels),
        strata_fit(strata_view(strata@), cs@.len() as int),
    ensures
        final(store)@ == rebuilt(old(store)@, clauses_view(cs@), strata_view(strata@), ever@),
        rels_wf(final(store)@.rels),
        final(store)@.log == old(store)@.log,
{
    let mut all = heads_of(cs, strata);
    let ghost hs = all@;
    all.union_with(ever);
    assert(all@ =~= Set::new(
        |p: Seq<char>| ever@.contains(p) || in_heads(clauses_view(cs@), strata_view(strata@), p),
    ));
    clear_names(store, &all);
    store.relations.seed_all();
}

} // verus!

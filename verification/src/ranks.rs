//! Ranks: sufficient conditions for programs to be accepted.

use vstd::prelude::*;
use crate::ast::{ClauseV, LitV};
use crate::deep::lemma_no_aggregate_error;
use crate::runs::no_aggregates;
use crate::stratify::{
    aggregate_body_error, aggregate_error, aggregated, aggregates, body_edges, edges_of, edges_upto, is_path, linked, lit_dep, mixed_error,
    negation_error, reads, strata_error, EdgeV,
};

verus! {

// --------------------------------------------------------------- dependencies

/// The dependencies that a rule may have are such.
pub open spec fn depends_only(c: ClauseV, ok: spec_fn(EdgeV) -> bool) -> bool {
    forall|j: int| 0 <= j < c.body.len() ==> (match lit_dep(#[trigger] c.body[j]) {
        Some(d) => ok(EdgeV { head: c.head.pred, dep: d.0, neg: d.1 }),
        None => true,
    })
}

proof fn lemma_body_only(cs: Seq<ClauseV>, c: ClauseV, n: int, ok: spec_fn(EdgeV) -> bool)
    requires
        depends_only(c, ok),
        n <= c.body.len(),
    ensures
        forall|k: int| 0 <= k < body_edges(cs, c, n).len() ==> ok(#[trigger] body_edges(cs, c, n)[k]),
    decreases n,
{
    if n > 0 {
        lemma_body_only(cs, c, n - 1, ok);
        let before = body_edges(cs, c, n - 1);
        let after = body_edges(cs, c, n);
        assert forall|k: int| 0 <= k < after.len() implies ok(#[trigger] after[k]) by {
            if k < before.len() {
                assert(after[k] == before[k]);
            } else {
                assert(lit_dep(c.body[n - 1]) is Some);
            }
        }
    }
}

/// The dependencies of a program are such as its rules may have.
pub proof fn lemma_edges_only(cs: Seq<ClauseV>, n: int, ok: spec_fn(EdgeV) -> bool)
    requires
        forall|i: int| 0 <= i < cs.len() && !(#[trigger] cs[i]).is_fact ==> depends_only(cs[i], ok),
        0 <= n <= cs.len(),
    ensures
        forall|k: int| 0 <= k < edges_upto(cs, n).len() ==> ok(#[trigger] edges_upto(cs, n)[k]),
    decreases n,
{
    if n > 0 {
        lemma_edges_only(cs, n - 1, ok);
        let c = cs[n - 1];
        if !c.is_fact {
            let a = edges_upto(cs, n - 1);
            let b = body_edges(cs, c, c.body.len() as int);
            lemma_body_only(cs, c, c.body.len() as int, ok);
            let after = edges_upto(cs, n);
            assert(after == a + b);
            assert forall|k: int| 0 <= k < after.len() implies ok(#[trigger] after[k]) by {
                if k < a.len() {
                    assert(after[k] == a[k]);
                } else {
                    assert(after[k] == b[k - a.len()]);
                }
            }
        } else {
            assert(edges_upto(cs, n) == edges_upto(cs, n - 1));
        }
    }
}

// --------------------------------------------------------------------- layers

/// A rule reads what is of its own rank or lower; what it negates is lower.
pub open spec fn reads_within(c: ClauseV, rank: spec_fn(Seq<char>) -> nat) -> bool {
    forall|j: int| 0 <= j < c.body.len() ==> (match #[trigger] c.body[j] {
        LitV::Pos(a) => rank(a.pred) <= rank(c.head.pred),
        LitV::Neg(a) => rank(a.pred) < rank(c.head.pred),
        _ => true,
    })
}

/// The rules of a program all read within their ranks.
pub open spec fn is_layered(cs: Seq<ClauseV>, rank: spec_fn(Seq<char>) -> nat) -> bool {
    forall|i: int| 0 <= i < cs.len() && !(#[trigger] cs[i]).is_fact ==> reads_within(cs[i], rank)
}

/// A dependency does not go up; a negated one goes down.
pub open spec fn never_up(rank: spec_fn(Seq<char>) -> nat) -> spec_fn(EdgeV) -> bool {
    |e: EdgeV| rank(e.dep) <= rank(e.head) && (e.neg ==> rank(e.dep) < rank(e.head))
}

proof fn lemma_path_within(es: Seq<EdgeV>, path: Seq<Seq<char>>, i: int, rank: spec_fn(Seq<char>) -> nat)
    requires
        forall|k: int| 0 <= k < es.len() ==> never_up(rank)(#[trigger] es[k]),
        is_path(es, path),
        0 <= i < path.len(),
    ensures
        rank(path[i]) <= rank(path[0]),
    decreases i,
{
    if i > 0 {
        lemma_path_within(es, path, i - 1, rank);
        assert(reads(es, path[i - 1], path[i - 1 + 1]));
        let k = choose|k: int| 0 <= k < es.len() && (#[trigger] es[k]).head == path[i - 1] && es[k].dep == path[i];
        assert(never_up(rank)(es[k]));
    }
}

proof fn lemma_no_cycle(es: Seq<EdgeV>, i: int, rank: spec_fn(Seq<char>) -> nat)
    requires
        forall|k: int| 0 <= k < es.len() ==> never_up(rank)(#[trigger] es[k]),
    ensures
        negation_error(es, i) is None,
    decreases es.len() - i,
{
    if 0 <= i < es.len() {
        assert(never_up(rank)(es[i]));
        if es[i].neg && linked(es, es[i].dep, es[i].head) {
            let path = choose|path: Seq<Seq<char>>| #[trigger]
                is_path(es, path) && path.len() > 0 && path[0] == es[i].dep && path.last() == es[i].head;
            lemma_path_within(es, path, path.len() - 1, rank);
        }
        lemma_no_cycle(es, i + 1, rank);
    }
}

/// Law: a program without aggregates whose rules read within their ranks is
/// accepted.
pub proof fn layered_is_accepted(cs: Seq<ClauseV>, rank: spec_fn(Seq<char>) -> nat)
    requires
        is_layered(cs, rank),
        no_aggregates(cs),
    ensures
        strata_error(cs) is None,
{
    let es = edges_of(cs);
    assert forall|i: int| 0 <= i < cs.len() && !(#[trigger] cs[i]).is_fact implies depends_only(cs[i], never_up(rank)) by {
        assert(reads_within(cs[i], rank));
    }
    lemma_edges_only(cs, cs.len() as int, never_up(rank));
    lemma_no_cycle(es, 0, rank);
    lemma_no_aggregate_error(cs, es, 0);
}

/// An aggregating rule reads what is of lower rank.
pub open spec fn reads_lower(c: ClauseV, rank: spec_fn(Seq<char>) -> nat) -> bool {
    forall|j: int| 0 <= j < c.body.len() ==> (match lit_dep(#[trigger] c.body[j]) {
        Some(d) => rank(d.0) < rank(c.head.pred),
        None => true,
    })
}

proof fn lemma_reads_lower(es: Seq<EdgeV>, c: ClauseV, i: int, rank: spec_fn(Seq<char>) -> nat)
    requires
        forall|k: int| 0 <= k < es.len() ==> never_up(rank)(#[trigger] es[k]),
        reads_lower(c, rank),
    ensures
        aggregate_body_error(es, c, i) is None,
    decreases c.body.len() - i,
{
    if 0 <= i < c.body.len() {
        lemma_reads_lower(es, c, i + 1, rank);
        if let Some(d) = lit_dep(c.body[i]) {
            if linked(es, d.0, c.head.pred) {
                let path = choose|path: Seq<Seq<char>>| #[trigger]
                    is_path(es, path) && path.len() > 0 && path[0] == d.0 && path.last() == c.head.pred;
                lemma_path_within(es, path, path.len() - 1, rank);
            }
        }
    }
}

proof fn lemma_folds_lower(cs: Seq<ClauseV>, es: Seq<EdgeV>, i: int, rank: spec_fn(Seq<char>) -> nat)
    requires
        forall|k: int| 0 <= k < es.len() ==> never_up(rank)(#[trigger] es[k]),
        forall|j: int| 0 <= j < cs.len() && !(#[trigger] cs[j]).is_fact && aggregates(cs[j]) ==> reads_lower(cs[j], rank),
        forall|j: int| 0 <= j < cs.len() && !(#[trigger] cs[j]).is_fact && !aggregates(cs[j]) ==> !aggregated(cs, cs[j].head.pred),
    ensures
        aggregate_error(cs, es, i) is None,
        mixed_error(cs, i) is None,
    decreases cs.len() - i,
{
    if 0 <= i < cs.len() {
        if !cs[i].is_fact && aggregates(cs[i]) {
            lemma_reads_lower(es, cs[i], 0, rank);
        }
        lemma_folds_lower(cs, es, i + 1, rank);
    }
}

/// Law: a program whose rules read within their ranks, and whose aggregating
/// rules read what is lower, is accepted if no predicate is both aggregated
/// and ordinary.
pub proof fn layered_folds_are_accepted(cs: Seq<ClauseV>, rank: spec_fn(Seq<char>) -> nat)
    requires
        is_layered(cs, rank),
        forall|j: int| 0 <= j < cs.len() && !(#[trigger] cs[j]).is_fact && aggregates(cs[j]) ==> reads_lower(cs[j], rank),
        forall|j: int| 0 <= j < cs.len() && !(#[trigger] cs[j]).is_fact && !aggregates(cs[j]) ==> !aggregated(cs, cs[j].head.pred),
    ensures
        strata_error(cs) is None,
{
    let es = edges_of(cs);
    assert forall|i: int| 0 <= i < cs.len() && !(#[trigger] cs[i]).is_fact implies depends_only(cs[i], never_up(rank)) by {
        assert(reads_within(cs[i], rank));
    }
    lemma_edges_only(cs, cs.len() as int, never_up(rank));
    lemma_no_cycle(es, 0, rank);
    lemma_folds_lower(cs, es, 0, rank);
}

// ---------------------------------------------------------------------- ranks

/// A rule reads its own predicate and such of lower rank; what it negates is
/// of lower rank.
pub open spec fn reads_down(c: ClauseV, rank: spec_fn(Seq<char>) -> nat) -> bool {
    forall|j: int| 0 <= j < c.body.len() ==> (match #[trigger] c.body[j] {
        LitV::Pos(a) => a.pred == c.head.pred || rank(a.pred) < rank(c.head.pred),
        LitV::Neg(a) => rank(a.pred) < rank(c.head.pred),
        _ => true,
    })
}

/// The rules of a program all read down.
pub open spec fn is_ranked(cs: Seq<ClauseV>, rank: spec_fn(Seq<char>) -> nat) -> bool {
    forall|i: int| 0 <= i < cs.len() && !(#[trigger] cs[i]).is_fact ==> reads_down(cs[i], rank)
}

/// Law: a program without aggregates whose rules read down is accepted.
pub proof fn ranked_is_accepted(cs: Seq<ClauseV>, rank: spec_fn(Seq<char>) -> nat)
    requires
        is_ranked(cs, rank),
        no_aggregates(cs),
    ensures
        strata_error(cs) is None,
{
    assert forall|i: int| 0 <= i < cs.len() && !(#[trigger] cs[i]).is_fact implies reads_within(cs[i], rank) by {
        assert(reads_down(cs[i], rank));
    }
    layered_is_accepted(cs, rank);
}

} // verus!

//! Stratification: an evaluation order for rules with negation and
//! aggregation.

use vstd::prelude::*;
use vstd::string::StringExecFns;
use crate::ast::{clauses_view, Clause, ClauseV, Lit, LitV, Term};
use crate::name_map::NameMap;
use crate::sorted_set::{Item, SortedSet};
use crate::text::str_eq;

verus! {

/// A program that has no evaluation order, and why.
#[derive(Debug)]
pub struct StratError(pub String);

impl StratError {
    /// The message for a reader.
    pub fn message(&self) -> (r: String)
        ensures
            r@ == "stratification error: "@ + self.0@,
    {
        let mut s = "stratification error: ".to_owned();
        s.append(self.0.as_str());
        s
    }
}

// ------------------------------------------------------------- dependencies

/// A rule head reads a predicate, negated or not.
pub struct Edge {
    pub head: String,
    pub dep: String,
    pub neg: bool,
}

/// The value of an [`Edge`].
pub struct EdgeV {
    pub head: Seq<char>,
    pub dep: Seq<char>,
    pub neg: bool,
}

impl View for Edge {
    type V = EdgeV;

    open spec fn view(&self) -> EdgeV {
        EdgeV { head: self.head@, dep: self.dep@, neg: self.neg }
    }
}

pub open spec fn edges_view(s: Seq<Edge>) -> Seq<EdgeV> {
    s.map_values(|e: Edge| e@)
}

/// The predicate that a literal reads, and whether it is negated.
pub open spec fn lit_dep(l: LitV) -> Option<(Seq<char>, bool)> {
    match l {
        LitV::Pos(a) => Some((a.pred, false)),
        LitV::Neg(a) => Some((a.pred, true)),
        _ => None,
    }
}

/// Some rule defines the predicate.
pub open spec fn defined(cs: Seq<ClauseV>, p: Seq<char>) -> bool {
    exists|i: int| 0 <= i < cs.len() && !(#[trigger] cs[i]).is_fact && cs[i].head.pred == p
}

/// The dependencies of the first `n` literals of a rule on defined
/// predicates.
pub open spec fn body_edges(cs: Seq<ClauseV>, c: ClauseV, n: int) -> Seq<EdgeV>
    decreases n,
{
    if n <= 0 {
        Seq::empty()
    } else {
        let before = body_edges(cs, c, n - 1);
        match lit_dep(c.body[n - 1]) {
            Some(d) => if defined(cs, d.0) {
                before.push(EdgeV { head: c.head.pred, dep: d.0, neg: d.1 })
            } else {
                before
            },
            None => before,
        }
    }
}

/// The dependencies of the first `n` clauses.
pub open spec fn edges_upto(cs: Seq<ClauseV>, n: int) -> Seq<EdgeV>
    decreases n,
{
    if n <= 0 {
        Seq::empty()
    } else if cs[n - 1].is_fact {
        edges_upto(cs, n - 1)
    } else {
        edges_upto(cs, n - 1) + body_edges(cs, cs[n - 1], cs[n - 1].body.len() as int)
    }
}

/// The dependencies between the predicates that rules define.
pub open spec fn edges_of(cs: Seq<ClauseV>) -> Seq<EdgeV> {
    edges_upto(cs, cs.len() as int)
}

/// `a` reads `b`.
pub open spec fn reads(es: Seq<EdgeV>, a: Seq<char>, b: Seq<char>) -> bool {
    exists|k: int| 0 <= k < es.len() && (#[trigger] es[k]).head == a && es[k].dep == b
}

/// Each name on the path reads the next.
pub open spec fn is_path(es: Seq<EdgeV>, path: Seq<Seq<char>>) -> bool {
    forall|i: int| 0 <= i < path.len() - 1 ==> #[trigger] reads(es, path[i], path[i + 1])
}

/// A path of dependencies leads from one predicate to the other.
pub open spec fn linked(es: Seq<EdgeV>, from: Seq<char>, to: Seq<char>) -> bool {
    exists|path: Seq<Seq<char>>| #[trigger]
        is_path(es, path) && path.len() > 0 && path[0] == from && path.last() == to
}

/// The two predicates depend on each other, or are the same.
pub open spec fn together(es: Seq<EdgeV>, a: Seq<char>, b: Seq<char>) -> bool {
    linked(es, a, b) && linked(es, b, a)
}

pub proof fn lemma_linked_self(es: Seq<EdgeV>, a: Seq<char>)
    ensures
        linked(es, a, a),
{
    let p = seq![a];
    assert(is_path(es, p) && p.len() > 0 && p[0] == a && p.last() == a);
}

pub proof fn lemma_linked_trans(es: Seq<EdgeV>, a: Seq<char>, b: Seq<char>, c: Seq<char>)
    requires
        linked(es, a, b),
        linked(es, b, c),
    ensures
        linked(es, a, c),
{
    let p = choose|p: Seq<Seq<char>>| #[trigger] is_path(es, p) && p.len() > 0 && p[0] == a && p.last() == b;
    let q = choose|q: Seq<Seq<char>>| #[trigger] is_path(es, q) && q.len() > 0 && q[0] == b && q.last() == c;
    let r = p + q.drop_first();
    assert forall|i: int| 0 <= i < r.len() - 1 implies #[trigger] reads(es, r[i], r[i + 1]) by {
        if i < p.len() - 1 {
            assert(reads(es, p[i], p[i + 1]));
        } else {
            let j = i - (p.len() - 1);
            assert(r[i] == q[j]);
            assert(r[i + 1] == q[j + 1]);
            assert(reads(es, q[j], q[j + 1]));
        }
    }
    assert(is_path(es, r) && r.len() > 0 && r[0] == a && r.last() == c);
}

pub proof fn lemma_linked_step(es: Seq<EdgeV>, a: Seq<char>, b: Seq<char>)
    requires
        reads(es, a, b),
    ensures
        linked(es, a, b),
{
    let p = seq![a, b];
    assert(is_path(es, p) && p.len() > 0 && p[0] == a && p.last() == b);
}

/// A set that holds the start and what its members read holds all that is
/// linked.
proof fn lemma_linked_closed(es: Seq<EdgeV>, seen: Set<Seq<char>>, from: Seq<char>, to: Seq<char>)
    requires
        linked(es, from, to),
        seen.contains(from),
        forall|k: int| 0 <= k < es.len() && seen.contains((#[trigger] es[k]).head) ==> seen.contains(es[k].dep),
    ensures
        seen.contains(to),
{
    let p = choose|p: Seq<Seq<char>>| #[trigger] is_path(es, p) && p.len() > 0 && p[0] == from && p.last() == to;
    lemma_path_closed(es, seen, p, p.len() - 1);
}

proof fn lemma_path_closed(es: Seq<EdgeV>, seen: Set<Seq<char>>, p: Seq<Seq<char>>, i: int)
    requires
        is_path(es, p),
        0 <= i < p.len(),
        seen.contains(p[0]),
        forall|k: int| 0 <= k < es.len() && seen.contains((#[trigger] es[k]).head) ==> seen.contains(es[k].dep),
    ensures
        seen.contains(p[i]),
    decreases i,
{
    if i > 0 {
        lemma_path_closed(es, seen, p, i - 1);
        assert(reads(es, p[i - 1], p[i - 1 + 1]));
    }
}

/// Everything linked from `a` is `a` or read by some predicate.
spec fn universe(es: Seq<EdgeV>, a: Seq<char>) -> Set<Seq<char>> {
    es.map_values(|e: EdgeV| e.dep).to_set().insert(a)
}

proof fn lemma_universe(es: Seq<EdgeV>, a: Seq<char>)
    ensures
        universe(es, a).finite(),
        forall|k: int| 0 <= k < es.len() ==> universe(es, a).contains((#[trigger] es[k]).dep),
        forall|b: Seq<char>| #[trigger] linked(es, a, b) ==> universe(es, a).contains(b),
{
    let ds = es.map_values(|e: EdgeV| e.dep);
    vstd::seq_lib::seq_to_set_is_finite(ds);
    assert forall|k: int| 0 <= k < es.len() implies universe(es, a).contains((#[trigger] es[k]).dep) by {
        assert(ds[k] == es[k].dep);
    }
    assert forall|b: Seq<char>| #[trigger] linked(es, a, b) implies universe(es, a).contains(b) by {
        lemma_linked_closed(es, universe(es, a), a, b);
    }
}

/// Whether a path of dependencies leads from one predicate to the other.
pub fn reaches(deps: &Vec<Edge>, from: &str, to: &str) -> (r: bool)
    ensures
        r == linked(edges_view(deps@), from@, to@),
{
    let ghost es = edges_view(deps@);
    let ghost uni = universe(es, from@);
    let mut seen: SortedSet<String> = SortedSet::new();
    let mut stack: Vec<String> = Vec::new();
    stack.push(from.to_owned());
    proof {
        lemma_linked_self(es, from@);
        lemma_universe(es, from@);
        assert(stack@[0]@ == from@);
    }
    while stack.len() > 0
        invariant
            es == edges_view(deps@),
            uni == universe(es, from@),
            uni.finite(),
            forall|k: int| 0 <= k < es.len() ==> uni.contains((#[trigger] es[k]).dep),
            forall|i: int| 0 <= i < stack@.len() ==> linked(es, from@, (#[trigger] stack@[i])@) && uni.contains(stack@[i]@),
            forall|n: Seq<char>| #[trigger] seen@.contains(n) ==> n != to@ && uni.contains(n),
            seen@.contains(from@) || exists|i: int| 0 <= i < stack@.len() && (#[trigger] stack@[i])@ == from@,
            forall|k: int|
                0 <= k < es.len() && seen@.contains((#[trigger] es[k]).head) ==> seen@.contains(es[k].dep) || exists|i: int|
                    0 <= i < stack@.len() && (#[trigger] stack@[i])@ == es[k].dep,
        decreases uni.difference(seen@).len(), stack@.len(),
    {
        let ghost stack0 = stack@;
        let n = match stack.pop() {
            Some(n) => n,
            None => {
                return false;
            },
        };
        assert(stack@ =~= stack0.drop_last());
        if str_eq(n.as_str(), to) {
            return true;
        }
        let name = n.as_str().to_owned();
        let ghost seen0 = seen@;
        if !seen.insert(name) {
            proof {
                assert(seen@ =~= seen0);
                assert forall|k: int| 0 <= k < es.len() && seen@.contains((#[trigger] es[k]).head) implies seen@.contains(
                    es[k].dep,
                ) || exists|i: int| 0 <= i < stack@.len() && (#[trigger] stack@[i])@ == es[k].dep by {
                    if !seen0.contains(es[k].dep) {
                        let i = choose|i: int| 0 <= i < stack0.len() && (#[trigger] stack0[i])@ == es[k].dep;
                        assert(i < stack0.len() - 1);
                        assert(stack@[i]@ == es[k].dep);
                    }
                }
                if !seen0.contains(from@) {
                    let i = choose|i: int| 0 <= i < stack0.len() && (#[trigger] stack0[i])@ == from@;
                    assert(i < stack0.len() - 1);
                    assert(stack@[i]@ == from@);
                }
            }
            continue;
        }
        proof {
            assert(uni.difference(seen@) =~= uni.difference(seen0).remove(n@));
            assert(uni.difference(seen0).contains(n@));
            vstd::set_lib::lemma_len_subset(uni.difference(seen0), uni);
        }
        let mut j: usize = 0;
        while j < deps.len()
            invariant
                j <= deps@.len(),
                es == edges_view(deps@),
                stack0.len() > 0,
                n@ == stack0.last()@,
                linked(es, from@, n@),
                seen@ == seen0.insert(n@),
                forall|k: int| 0 <= k < es.len() ==> uni.contains((#[trigger] es[k]).dep),
                forall|i: int| 0 <= i < stack@.len() ==> linked(es, from@, (#[trigger] stack@[i])@) && uni.contains(stack@[i]@),
                stack@.len() >= stack0.len() - 1,
                forall|i: int| 0 <= i < stack0.len() - 1 ==> #[trigger] stack@[i] == stack0[i],
                forall|k: int|
                    0 <= k < j && (#[trigger] es[k]).head == n@ ==> exists|i: int|
                        0 <= i < stack@.len() && (#[trigger] stack@[i])@ == es[k].dep,
            decreases deps@.len() - j,
        {
            let ghost s1 = stack@;
            assert(es[j as int] == deps@[j as int]@);
            if str_eq(deps[j].head.as_str(), n.as_str()) {
                stack.push(deps[j].dep.clone());
                proof {
                    assert(reads(es, n@, es[j as int].dep));
                    lemma_linked_step(es, n@, es[j as int].dep);
                    lemma_linked_trans(es, from@, n@, es[j as int].dep);
                    assert(stack@[s1.len() as int]@ == es[j as int].dep);
                    assert forall|k: int| 0 <= k < j + 1 && (#[trigger] es[k]).head == n@ implies exists|i: int|
                        0 <= i < stack@.len() && (#[trigger] stack@[i])@ == es[k].dep by {
                        if k < j {
                            let i = choose|i: int| 0 <= i < s1.len() && (#[trigger] s1[i])@ == es[k].dep;
                            assert(stack@[i] == s1[i]);
                        }
                    }
                }
            }
            j += 1;
        }
        proof {
            assert forall|k: int| 0 <= k < es.len() && seen@.contains((#[trigger] es[k]).head) implies seen@.contains(es[k].dep)
                || exists|i: int| 0 <= i < stack@.len() && (#[trigger] stack@[i])@ == es[k].dep by {
                if es[k].head != n@ && !seen@.contains(es[k].dep) {
                    let i = choose|i: int| 0 <= i < stack0.len() && (#[trigger] stack0[i])@ == es[k].dep;
                    assert(i < stack0.len() - 1);
                    assert(stack@[i] == stack0[i]);
                }
            }
            if !seen@.contains(from@) {
                let i = choose|i: int| 0 <= i < stack0.len() && (#[trigger] stack0[i])@ == from@;
                assert(i < stack0.len() - 1);
                assert(stack@[i] == stack0[i]);
            }
        }
    }
    proof {
        if linked(es, from@, to@) {
            lemma_linked_closed(es, seen@, from@, to@);
        }
    }
    false
}

/// Whether some rule defines the predicate.
pub fn is_defined(cs: &Vec<Clause>, p: &str) -> (r: bool)
    ensures
        r == defined(clauses_view(cs@), p@),
{
    let ghost v = clauses_view(cs@);
    let mut i: usize = 0;
    while i < cs.len()
        invariant
            i <= cs@.len(),
            v == clauses_view(cs@),
            forall|j: int| 0 <= j < i ==> (#[trigger] v[j]).is_fact || v[j].head.pred != p@,
        decreases cs@.len() - i,
    {
        assert(v[i as int] == cs@[i as int]@);
        if !cs[i].is_fact && str_eq(cs[i].head.pred.as_str(), p) {
            return true;
        }
        i += 1;
    }
    false
}

/// The dependencies between the predicates that rules define.
pub fn dependencies(cs: &Vec<Clause>) -> (r: Vec<Edge>)
    ensures
        edges_view(r@) == edges_of(clauses_view(cs@)),
{
    let ghost v = clauses_view(cs@);
    let mut r: Vec<Edge> = Vec::new();
    let mut i: usize = 0;
    assert(edges_view(r@) =~= edges_upto(v, 0));
    while i < cs.len()
        invariant
            i <= cs@.len(),
            v == clauses_view(cs@),
            edges_view(r@) == edges_upto(v, i as int),
        decreases cs@.len() - i,
    {
        let c = &cs[i];
        assert(v[i as int] == c@);
        if !c.is_fact {
            let ghost before = edges_view(r@);
            let mut j: usize = 0;
            assert(before + body_edges(v, c@, 0) =~= before);
            while j < c.body.len()
                invariant
                    j <= c.body@.len(),
                    v == clauses_view(cs@),
                    edges_view(r@) == before + body_edges(v, c@, j as int),
                decreases c.body@.len() - j,
            {
                assert(c@.body[j as int] == c.body@[j as int]@);
                let dep = match &c.body[j] {
                    Lit::Pos(a) => Some((a, false)),
                    Lit::Neg(a) => Some((a, true)),
                    _ => None,
                };
                match dep {
                    Some((a, neg)) => {
                        if is_defined(cs, a.pred.as_str()) {
                            let ghost r0 = r@;
                            r.push(Edge { head: c.head.pred.clone(), dep: a.pred.clone(), neg });
                            assert(edges_view(r@) =~= edges_view(r0).push(
                                EdgeV { head: c@.head.pred, dep: a@.pred, neg },
                            ));
                            assert(edges_view(r@) =~= before + body_edges(v, c@, j + 1));
                        }
                    },
                    None => {},
                }
                j += 1;
            }
        }
        i += 1;
    }
    r
}

// ------------------------------------------------------------ aggregation

/// The rule has an aggregate in its head.
pub open spec fn aggregates(c: ClauseV) -> bool {
    exists|i: int| 0 <= i < c.head.args.len() && #[trigger] c.head.args[i] is Agg
}

/// Whether the rule has an aggregate in its head.
pub fn is_agg_clause(c: &Clause) -> (r: bool)
    ensures
        r == aggregates(c@),
{
    let mut i: usize = 0;
    while i < c.head.args.len()
        invariant
            i <= c.head.args@.len(),
            forall|j: int| 0 <= j < i ==> !(#[trigger] c@.head.args[j] is Agg),
        decreases c.head.args@.len() - i,
    {
        assert(c@.head.args[i as int] == c.head.args@[i as int]@);
        if let Term::Agg(_, _) = &c.head.args[i] {
            return true;
        }
        i += 1;
    }
    false
}

// ----------------------------------------------------------------- errors

/// The first negated dependency, from position `i` on, that lies on a cycle.
pub open spec fn negation_error(es: Seq<EdgeV>, i: int) -> Option<Seq<char>>
    decreases es.len() - i,
{
    if i < 0 || i >= es.len() {
        None
    } else if es[i].neg && linked(es, es[i].dep, es[i].head) {
        Some("unstratifiable: negation of "@ + es[i].dep + " in a dependency cycle with "@ + es[i].head)
    } else {
        negation_error(es, i + 1)
    }
}

/// The first literal of an aggregating rule, from position `j` on, that
/// depends on what the rule defines.
pub open spec fn aggregate_body_error(es: Seq<EdgeV>, c: ClauseV, j: int) -> Option<Seq<char>>
    decreases c.body.len() - j,
{
    if j < 0 || j >= c.body.len() {
        None
    } else {
        match lit_dep(c.body[j]) {
            Some(d) => if d.0 == c.head.pred || linked(es, d.0, c.head.pred) {
                Some("aggregation over recursive dependency: "@ + c.head.pred + " reads "@ + d.0)
            } else {
                aggregate_body_error(es, c, j + 1)
            },
            None => aggregate_body_error(es, c, j + 1),
        }
    }
}

/// The first aggregating rule, from position `i` on, that depends on itself.
pub open spec fn aggregate_error(cs: Seq<ClauseV>, es: Seq<EdgeV>, i: int) -> Option<Seq<char>>
    decreases cs.len() - i,
{
    if i < 0 || i >= cs.len() {
        None
    } else {
        let here = if cs[i].is_fact || !aggregates(cs[i]) {
            None
        } else {
            aggregate_body_error(es, cs[i], 0)
        };
        match here {
            Some(m) => Some(m),
            None => aggregate_error(cs, es, i + 1),
        }
    }
}

/// Some rule defines the predicate by aggregation.
pub open spec fn aggregated(cs: Seq<ClauseV>, p: Seq<char>) -> bool {
    exists|i: int| 0 <= i < cs.len() && !(#[trigger] cs[i]).is_fact && aggregates(cs[i]) && cs[i].head.pred == p
}

/// The first ordinary rule, from position `i` on, for an aggregated
/// predicate.
pub open spec fn mixed_error(cs: Seq<ClauseV>, i: int) -> Option<Seq<char>>
    decreases cs.len() - i,
{
    if i < 0 || i >= cs.len() {
        None
    } else if !cs[i].is_fact && !aggregates(cs[i]) && aggregated(cs, cs[i].head.pred) {
        Some("mixed definition: "@ + cs[i].head.pred + " is aggregated in one clause and ordinary in another"@)
    } else {
        mixed_error(cs, i + 1)
    }
}

/// Why the program has no evaluation order, if it has none.
pub open spec fn strata_error(cs: Seq<ClauseV>) -> Option<Seq<char>> {
    match negation_error(edges_of(cs), 0) {
        Some(m) => Some(m),
        None => match aggregate_error(cs, edges_of(cs), 0) {
            Some(m) => Some(m),
            None => mixed_error(cs, 0),
        },
    }
}

fn find_negation_error(deps: &Vec<Edge>) -> (r: Option<String>)
    ensures
        match r {
            Some(m) => negation_error(edges_view(deps@), 0) == Some(m@),
            None => negation_error(edges_view(deps@), 0) is None,
        },
{
    let ghost es = edges_view(deps@);
    let mut i: usize = 0;
    while i < deps.len()
        invariant
            i <= deps@.len(),
            es == edges_view(deps@),
            negation_error(es, 0) == negation_error(es, i as int),
        decreases deps@.len() - i,
    {
        let e = &deps[i];
        assert(es[i as int] == e@);
        if e.neg && reaches(deps, e.dep.as_str(), e.head.as_str()) {
            let mut m = "unstratifiable: negation of ".to_owned();
            m.append(e.dep.as_str());
            m.append(" in a dependency cycle with ");
            m.append(e.head.as_str());
            return Some(m);
        }
        i += 1;
    }
    None
}

fn find_aggregate_body_error(deps: &Vec<Edge>, c: &Clause) -> (r: Option<String>)
    ensures
        match r {
            Some(m) => aggregate_body_error(edges_view(deps@), c@, 0) == Some(m@),
            None => aggregate_body_error(edges_view(deps@), c@, 0) is None,
        },
{
    let ghost es = edges_view(deps@);
    let mut j: usize = 0;
    while j < c.body.len()
        invariant
            j <= c.body@.len(),
            es == edges_view(deps@),
            aggregate_body_error(es, c@, 0) == aggregate_body_error(es, c@, j as int),
        decreases c.body@.len() - j,
    {
        assert(c@.body[j as int] == c.body@[j as int]@);
        let dep = match &c.body[j] {
            Lit::Pos(a) => Some(a),
            Lit::Neg(a) => Some(a),
            _ => None,
        };
        if let Some(a) = dep {
            if str_eq(a.pred.as_str(), c.head.pred.as_str()) || reaches(deps, a.pred.as_str(), c.head.pred.as_str()) {
                let mut m = "aggregation over recursive dependency: ".to_owned();
                m.append(c.head.pred.as_str());
                m.append(" reads ");
                m.append(a.pred.as_str());
                return Some(m);
            }
        }
        j += 1;
    }
    None
}

fn find_aggregate_error(cs: &Vec<Clause>, deps: &Vec<Edge>) -> (r: Option<String>)
    ensures
        match r {
            Some(m) => aggregate_error(clauses_view(cs@), edges_view(deps@), 0) == Some(m@),
            None => aggregate_error(clauses_view(cs@), edges_view(deps@), 0) is None,
        },
{
    let ghost v = clauses_view(cs@);
    let ghost es = edges_view(deps@);
    let mut i: usize = 0;
    while i < cs.len()
        invariant
            i <= cs@.len(),
            v == clauses_view(cs@),
            es == edges_view(deps@),
            aggregate_error(v, es, 0) == aggregate_error(v, es, i as int),
        decreases cs@.len() - i,
    {
        assert(v[i as int] == cs@[i as int]@);
        if !cs[i].is_fact && is_agg_clause(&cs[i]) {
            let e = find_aggregate_body_error(deps, &cs[i]);
            if e.is_some() {
                return e;
            }
        }
        i += 1;
    }
    None
}

fn is_aggregated(cs: &Vec<Clause>, p: &str) -> (r: bool)
    ensures
        r == aggregated(clauses_view(cs@), p@),
{
    let ghost v = clauses_view(cs@);
    let mut i: usize = 0;
    while i < cs.len()
        invariant
            i <= cs@.len(),
            v == clauses_view(cs@),
            forall|j: int| 0 <= j < i ==> (#[trigger] v[j]).is_fact || !aggregates(v[j]) || v[j].head.pred != p@,
        decreases cs@.len() - i,
    {
        assert(v[i as int] == cs@[i as int]@);
        if !cs[i].is_fact && is_agg_clause(&cs[i]) && str_eq(cs[i].head.pred.as_str(), p) {
            return true;
        }
        i += 1;
    }
    false
}

fn find_mixed_error(cs: &Vec<Clause>) -> (r: Option<String>)
    ensures
        match r {
            Some(m) => mixed_error(clauses_view(cs@), 0) == Some(m@),
            None => mixed_error(clauses_view(cs@), 0) is None,
        },
{
    let ghost v = clauses_view(cs@);
    let mut i: usize = 0;
    while i < cs.len()
        invariant
            i <= cs@.len(),
            v == clauses_view(cs@),
            mixed_error(v, 0) == mixed_error(v, i as int),
        decreases cs@.len() - i,
    {
        assert(v[i as int] == cs@[i as int]@);
        if !cs[i].is_fact && !is_agg_clause(&cs[i]) && is_aggregated(cs, cs[i].head.pred.as_str()) {
            let mut m = "mixed definition: ".to_owned();
            m.append(cs[i].head.pred.as_str());
            m.append(" is aggregated in one clause and ordinary in another");
            return Some(m);
        }
        i += 1;
    }
    None
}

// ----------------------------------------------------------------- levels

/// The dependency leads to a lower level: the predicate is negated, or one of
/// the two is aggregated. What is folded has to be complete, and a fold is
/// read only after its level.
pub open spec fn is_strict(cs: Seq<ClauseV>, e: EdgeV) -> bool {
    e.neg || aggregated(cs, e.head) || aggregated(cs, e.dep)
}

/// By how much a dependency raises the level.
pub open spec fn rise(cs: Seq<ClauseV>, e: EdgeV) -> nat {
    if is_strict(cs, e) {
        1
    } else {
        0
    }
}

/// A level for each defined predicate: the greatest, over the dependencies
/// that lead out of the group of predicates that depend on each other, of the
/// level of what is read, and one more where the dependency is strict; zero
/// where there is none.
pub open spec fn is_levels(cs: Seq<ClauseV>, l: Map<Seq<char>, nat>) -> bool {
    let es = edges_of(cs);
    &&& forall|p: Seq<char>| #[trigger] l.contains_key(p) <==> defined(cs, p)
    &&& forall|p: Seq<char>, k: int| #[trigger]
        l.contains_key(p) && #[trigger] crossing(es, p, k) ==> l.contains_key(es[k].dep) && l[es[k].dep] + rise(cs, es[k])
            <= l[p]
    &&& forall|p: Seq<char>| #[trigger]
        l.contains_key(p) && l[p] > 0 ==> exists|k: int| #[trigger]
            crossing(es, p, k) && l[es[k].dep] + rise(cs, es[k]) == l[p]
}

/// The `k`th dependency leads out of the group of predicates that depend on
/// each other around `p`.
pub open spec fn crossing(es: Seq<EdgeV>, p: Seq<char>, k: int) -> bool {
    0 <= k < es.len() && together(es, p, es[k].head) && !together(es, p, es[k].dep)
}

/// Everything linked from a predicate.
spec fn reach(es: Seq<EdgeV>, p: Seq<char>) -> Set<Seq<char>> {
    Set::new(|x: Seq<char>| linked(es, p, x))
}

/// Less is linked from what a group reads outside itself.
proof fn lemma_reach_shrinks(es: Seq<EdgeV>, p: Seq<char>, k: int)
    requires
        crossing(es, p, k),
    ensures
        reach(es, es[k].dep).len() < reach(es, p).len(),
{
    let d = es[k].dep;
    let from_p = reach(es, p);
    let from_d = reach(es, d);
    lemma_universe(es, p);
    vstd::set_lib::lemma_len_subset(from_p, universe(es, p));
    assert(reads(es, es[k].head, d));
    lemma_linked_step(es, es[k].head, d);
    lemma_linked_trans(es, p, es[k].head, d);
    assert forall|x: Seq<char>| from_d.contains(x) implies from_p.contains(x) by {
        lemma_linked_trans(es, p, d, x);
    }
    lemma_linked_self(es, p);
    assert(!from_d.contains(p));
    assert(from_d.subset_of(from_p.remove(p)));
    vstd::set_lib::lemma_len_subset(from_d, from_p.remove(p));
}

proof fn lemma_levels_at_most(cs: Seq<ClauseV>, l: Map<Seq<char>, nat>, m: Map<Seq<char>, nat>, p: Seq<char>)
    requires
        is_levels(cs, l),
        is_levels(cs, m),
        l.contains_key(p),
    ensures
        m.contains_key(p),
        l[p] <= m[p],
    decreases reach(edges_of(cs), p).len(),
{
    let es = edges_of(cs);
    assert(defined(cs, p));
    assert(m.contains_key(p));
    if l[p] > 0 {
        let k = choose|k: int| #[trigger] crossing(es, p, k) && l[es[k].dep] + rise(cs, es[k]) == l[p];
        assert(crossing(es, p, k));
        lemma_reach_shrinks(es, p, k);
        lemma_levels_at_most(cs, l, m, es[k].dep);
    }
}

/// Predicates that depend on each other share a level.
pub proof fn lemma_levels_together(cs: Seq<ClauseV>, l: Map<Seq<char>, nat>, p: Seq<char>, q: Seq<char>)
    requires
        is_levels(cs, l),
        together(edges_of(cs), p, q),
        l.contains_key(p),
        l.contains_key(q),
    ensures
        l[p] == l[q],
{
    lemma_level_bounds(cs, l, p, q);
    lemma_level_bounds(cs, l, q, p);
}

proof fn lemma_level_bounds(cs: Seq<ClauseV>, l: Map<Seq<char>, nat>, p: Seq<char>, q: Seq<char>)
    requires
        is_levels(cs, l),
        together(edges_of(cs), p, q),
        l.contains_key(p),
        l.contains_key(q),
    ensures
        l[p] <= l[q],
{
    let es = edges_of(cs);
    if l[p] > 0 {
        let k = choose|k: int| #[trigger] crossing(es, p, k) && l[es[k].dep] + rise(cs, es[k]) == l[p];
        assert(crossing(es, p, k));
        lemma_crossing_together(es, p, q, k);
    }
}

/// The levels of a program are unique.
pub proof fn levels_unique(cs: Seq<ClauseV>, l: Map<Seq<char>, nat>, m: Map<Seq<char>, nat>)
    requires
        is_levels(cs, l),
        is_levels(cs, m),
    ensures
        l == m,
{
    assert forall|p: Seq<char>| l.contains_key(p) implies m.contains_key(p) && l[p] == m[p] by {
        lemma_levels_at_most(cs, l, m, p);
        lemma_levels_at_most(cs, m, l, p);
    }
    assert forall|p: Seq<char>| m.contains_key(p) implies l.contains_key(p) by {
        assert(defined(cs, p));
    }
    assert(l =~= m);
}

/// The rules of a level, in program order.
pub open spec fn rules_at(cs: Seq<ClauseV>, l: Map<Seq<char>, nat>, k: int) -> Seq<int> {
    Seq::new(cs.len(), |i: int| i).filter(at_level(cs, l, k))
}

/// The clause is a rule of the level.
pub open spec fn at_level(cs: Seq<ClauseV>, l: Map<Seq<char>, nat>, k: int) -> spec_fn(int) -> bool {
    |i: int| !cs[i].is_fact && l[cs[i].head.pred] == k
}

/// The rules grouped by level, in ascending order; no group is left out.
pub open spec fn grouped(cs: Seq<ClauseV>, l: Map<Seq<char>, nat>, s: Seq<Seq<int>>) -> bool {
    &&& forall|p: Seq<char>| #[trigger] l.contains_key(p) ==> l[p] < s.len()
    &&& s.len() > 0 ==> exists|p: Seq<char>| #[trigger] l.contains_key(p) && l[p] == s.len() - 1
    &&& forall|k: int| 0 <= k < s.len() ==> #[trigger] s[k] == rules_at(cs, l, k)
}

/// The strata of a program.
pub open spec fn is_strata(cs: Seq<ClauseV>, s: Seq<Seq<int>>) -> bool {
    exists|l: Map<Seq<char>, nat>| #[trigger] is_levels(cs, l) && grouped(cs, l, s)
}

/// The strata of a program.
pub open spec fn strata_of(cs: Seq<ClauseV>) -> Seq<Seq<int>> {
    choose|s: Seq<Seq<int>>| is_strata(cs, s)
}

/// A program has one division into strata.
pub proof fn strata_unique(cs: Seq<ClauseV>, s: Seq<Seq<int>>, t: Seq<Seq<int>>)
    requires
        is_strata(cs, s),
        is_strata(cs, t),
    ensures
        s == t,
        s == strata_of(cs),
{
    lemma_strata_unique(cs, s, t);
    lemma_strata_unique(cs, s, strata_of(cs));
}

proof fn lemma_strata_unique(cs: Seq<ClauseV>, s: Seq<Seq<int>>, t: Seq<Seq<int>>)
    requires
        is_strata(cs, s),
        is_strata(cs, t),
    ensures
        s == t,
{
    let l = choose|l: Map<Seq<char>, nat>| #[trigger] is_levels(cs, l) && grouped(cs, l, s);
    let m = choose|m: Map<Seq<char>, nat>| #[trigger] is_levels(cs, m) && grouped(cs, m, t);
    levels_unique(cs, l, m);
    if s.len() > 0 {
        let p = choose|p: Seq<char>| #[trigger] l.contains_key(p) && l[p] == s.len() - 1;
        assert(l[p] < t.len());
    }
    if t.len() > 0 {
        let p = choose|p: Seq<char>| #[trigger] l.contains_key(p) && l[p] == t.len() - 1;
        assert(l[p] < s.len());
    }
    assert(s =~= t);
}

// ---------------------------------------------------- computing the levels

/// Each dependency that leads out of the group around `p` has a level.
spec fn ready(es: Seq<EdgeV>, m: Map<Seq<char>, nat>, p: Seq<char>) -> bool {
    forall|k: int| #[trigger] crossing(es, p, k) ==> m.contains_key(es[k].dep)
}

/// The level that the first `n` dependencies force on the group around `p`.
spec fn depth(cs: Seq<ClauseV>, es: Seq<EdgeV>, m: Map<Seq<char>, nat>, p: Seq<char>, n: int) -> nat
    decreases n,
{
    if n <= 0 {
        0
    } else {
        let before = depth(cs, es, m, p, n - 1);
        let here = m[es[n - 1].dep] + rise(cs, es[n - 1]);
        if crossing(es, p, n - 1) && here > before {
            here
        } else {
            before
        }
    }
}

proof fn lemma_depth(cs: Seq<ClauseV>, es: Seq<EdgeV>, m: Map<Seq<char>, nat>, p: Seq<char>, n: int)
    requires
        0 <= n <= es.len(),
    ensures
        forall|k: int| #[trigger] crossing(es, p, k) && k < n ==> m[es[k].dep] + rise(cs, es[k]) <= depth(cs, es, m, p, n),
        depth(cs, es, m, p, n) > 0 ==> exists|k: int| #[trigger]
            crossing(es, p, k) && k < n && m[es[k].dep] + rise(cs, es[k]) == depth(cs, es, m, p, n),
    decreases n,
{
    if n > 0 {
        lemma_depth(cs, es, m, p, n - 1);
        let d = depth(cs, es, m, p, n);
        assert forall|k: int| #[trigger] crossing(es, p, k) && k < n implies m[es[k].dep] + rise(cs, es[k]) <= d by {}
        if d > 0 {
            if crossing(es, p, n - 1) && m[es[n - 1].dep] + rise(cs, es[n - 1]) == d {
            } else {
                let k = choose|k: int| #[trigger]
                    crossing(es, p, k) && k < n - 1 && m[es[k].dep] + rise(cs, es[k]) == depth(cs, es, m, p, n - 1);
                assert(crossing(es, p, k) && k < n);
            }
        }
    }
}

proof fn lemma_together_trans(es: Seq<EdgeV>, a: Seq<char>, b: Seq<char>, c: Seq<char>)
    requires
        together(es, a, b),
        together(es, b, c),
    ensures
        together(es, a, c),
{
    lemma_linked_trans(es, a, b, c);
    lemma_linked_trans(es, c, b, a);
}

proof fn lemma_crossing_together(es: Seq<EdgeV>, a: Seq<char>, b: Seq<char>, k: int)
    requires
        together(es, a, b),
        crossing(es, a, k),
    ensures
        crossing(es, b, k),
{
    assert(together(es, b, a));
    lemma_together_trans(es, b, a, es[k].head);
    if together(es, b, es[k].dep) {
        lemma_together_trans(es, a, b, es[k].dep);
    }
}

/// Among the predicates without a level, some one is ready.
proof fn lemma_ready_exists(es: Seq<EdgeV>, m: Map<Seq<char>, nat>, u: Set<Seq<char>>, p: Seq<char>) -> (q: Seq<char>)
    requires
        u.contains(p),
        forall|k: int| 0 <= k < es.len() ==> m.contains_key((#[trigger] es[k]).dep) || u.contains(es[k].dep),
    ensures
        u.contains(q),
        ready(es, m, q),
    decreases reach(es, p).len(),
{
    if ready(es, m, p) {
        p
    } else {
        let k = choose|k: int| #[trigger] crossing(es, p, k) && !m.contains_key(es[k].dep);
        lemma_reach_shrinks(es, p, k);
        lemma_ready_exists(es, m, u, es[k].dep)
    }
}

/// The levels given out, as numbers.
spec fn given_out(m: Map<Seq<char>, usize>) -> Map<Seq<char>, nat> {
    m.map_values(|n: usize| n as nat)
}

/// Whether each dependency that leads out of the group around `p` has a
/// level.
fn is_ready(deps: &Vec<Edge>, levels: &NameMap<usize>, p: &str) -> (r: bool)
    ensures
        r == ready(edges_view(deps@), given_out(levels@), p@),
{
    let ghost es = edges_view(deps@);
    let mut k: usize = 0;
    while k < deps.len()
        invariant
            k <= deps@.len(),
            es == edges_view(deps@),
            forall|j: int| #[trigger] crossing(es, p@, j) && j < k ==> levels@.contains_key(es[j].dep),
        decreases deps@.len() - k,
    {
        let e = &deps[k];
        assert(es[k as int] == e@);
        if !levels.contains(e.dep.as_str()) {
            let in_group = reaches(deps, p, e.head.as_str()) && reaches(deps, e.head.as_str(), p);
            let stays = reaches(deps, p, e.dep.as_str()) && reaches(deps, e.dep.as_str(), p);
            if in_group && !stays {
                assert(crossing(es, p@, k as int));
                return false;
            }
        }
        k += 1;
    }
    true
}

/// Each edge leads to a defined predicate.
proof fn lemma_edges_defined(cs: Seq<ClauseV>, n: int)
    requires
        0 <= n <= cs.len(),
    ensures
        forall|k: int| 0 <= k < edges_upto(cs, n).len() ==> defined(cs, (#[trigger] edges_upto(cs, n)[k]).dep),
    decreases n,
{
    if n > 0 {
        lemma_edges_defined(cs, n - 1);
        lemma_body_edges_defined(cs, cs[n - 1], cs[n - 1].body.len() as int);
        let a = edges_upto(cs, n - 1);
        let b = body_edges(cs, cs[n - 1], cs[n - 1].body.len() as int);
        assert forall|k: int| 0 <= k < edges_upto(cs, n).len() implies defined(cs, (#[trigger] edges_upto(cs, n)[k]).dep) by {
            if !cs[n - 1].is_fact {
                if k < a.len() {
                    assert((a + b)[k] == a[k]);
                } else {
                    assert((a + b)[k] == b[k - a.len()]);
                }
            }
        }
    }
}

proof fn lemma_body_edges_defined(cs: Seq<ClauseV>, c: ClauseV, n: int)
    ensures
        forall|k: int| 0 <= k < body_edges(cs, c, n).len() ==> defined(cs, (#[trigger] body_edges(cs, c, n)[k]).dep),
    decreases n,
{
    if n > 0 {
        lemma_body_edges_defined(cs, c, n - 1);
        let b = body_edges(cs, c, n - 1);
        assert forall|k: int| 0 <= k < body_edges(cs, c, n).len() implies defined(cs, (#[trigger] body_edges(cs, c, n)[k]).dep) by {
            if k < b.len() {
                assert(body_edges(cs, c, n)[k] == b[k]);
            }
        }
    }
}

/// What holds of the levels given out so far.
spec fn partial_levels(cs: Seq<ClauseV>, es: Seq<EdgeV>, m: Map<Seq<char>, nat>) -> bool {
    &&& forall|p: Seq<char>, j: int| #[trigger]
        m.contains_key(p) && #[trigger] crossing(es, p, j) ==> m.contains_key(es[j].dep) && m[es[j].dep] + rise(cs, es[j])
            <= m[p]
    &&& forall|p: Seq<char>| #[trigger]
        m.contains_key(p) && m[p] > 0 ==> exists|j: int| #[trigger]
            crossing(es, p, j) && m[es[j].dep] + rise(cs, es[j]) == m[p]
}

/// Giving a level to a predicate that is ready.
proof fn lemma_next_level(cs: Seq<ClauseV>, es: Seq<EdgeV>, m: Map<Seq<char>, nat>, q: Seq<char>)
    requires
        partial_levels(cs, es, m),
        !m.contains_key(q),
        ready(es, m, q),
    ensures
        partial_levels(cs, es, m.insert(q, depth(cs, es, m, q, es.len() as int))),
{
    let d = depth(cs, es, m, q, es.len() as int);
    let m1 = m.insert(q, d);
    lemma_depth(cs, es, m, q, es.len() as int);
    assert forall|p: Seq<char>, j: int| #[trigger] m1.contains_key(p) && #[trigger] crossing(es, p, j) implies m1.contains_key(
        es[j].dep,
    ) && m1[es[j].dep] + rise(cs, es[j]) <= m1[p] by {
        if p == q {
            assert(m.contains_key(es[j].dep));
        } else {
            assert(m.contains_key(p));
        }
    }
    assert forall|p: Seq<char>| #[trigger] m1.contains_key(p) && m1[p] > 0 implies exists|j: int| #[trigger]
        crossing(es, p, j) && m1[es[j].dep] + rise(cs, es[j]) == m1[p] by {
        if p == q {
            let j = choose|j: int| #[trigger] crossing(es, q, j) && j < es.len() && m[es[j].dep] + rise(cs, es[j]) == d;
            assert(crossing(es, p, j));
            assert(m.contains_key(es[j].dep));
        } else {
            assert(m.contains_key(p));
            let j = choose|j: int| #[trigger] crossing(es, p, j) && m[es[j].dep] + rise(cs, es[j]) == m[p];
            assert(crossing(es, p, j));
            assert(m.contains_key(es[j].dep));
        }
    }
}

/// A level below the top leads to one that is at most the top.
proof fn lemma_depth_bound(cs: Seq<ClauseV>, es: Seq<EdgeV>, m: Map<Seq<char>, nat>, q: Seq<char>, k: nat)
    requires
        ready(es, m, q),
        forall|p: Seq<char>| #[trigger] m.contains_key(p) ==> m[p] < k,
    ensures
        depth(cs, es, m, q, es.len() as int) <= k,
{
    lemma_depth(cs, es, m, q, es.len() as int);
    let d = depth(cs, es, m, q, es.len() as int);
    if d > 0 {
        let j = choose|j: int| #[trigger] crossing(es, q, j) && j < es.len() && m[es[j].dep] + rise(cs, es[j]) == d;
        assert(m.contains_key(es[j].dep));
    }
}

proof fn lemma_strata_from(cs: Seq<ClauseV>, m: Map<Seq<char>, nat>, u: Set<Seq<char>>, k: nat)
    requires
        partial_levels(cs, edges_of(cs), m),
        forall|p: Seq<char>| #[trigger] defined(cs, p) <==> m.contains_key(p) || u.contains(p),
        forall|p: Seq<char>| #[trigger] u.contains(p) ==> !m.contains_key(p),
        u.finite(),
        forall|p: Seq<char>| #[trigger] m.contains_key(p) ==> m[p] < k,
        k > 0 ==> exists|p: Seq<char>| #[trigger] m.contains_key(p) && m[p] == k - 1,
    ensures
        exists|s: Seq<Seq<int>>| is_strata(cs, s),
    decreases u.len(),
{
    let es = edges_of(cs);
    lemma_edges_defined(cs, cs.len() as int);
    if u.len() == 0 {
        assert(u =~= Set::empty());
        let s = Seq::new(k, |j: int| rules_at(cs, m, j));
        assert(is_levels(cs, m));
        assert(grouped(cs, m, s)) by {
            if s.len() > 0 {
                let p = choose|p: Seq<char>| #[trigger] m.contains_key(p) && m[p] == k - 1;
                assert(m.contains_key(p) && m[p] == s.len() - 1);
            }
        }
        assert(is_strata(cs, s));
    } else {
        let p = u.choose();
        let q = lemma_ready_exists(es, m, u, p);
        let d = depth(cs, es, m, q, es.len() as int);
        let m1 = m.insert(q, d);
        let k1 = if d + 1 > k {
            d + 1
        } else {
            k
        };
        lemma_next_level(cs, es, m, q);
        assert forall|x: Seq<char>| #[trigger] defined(cs, x) <==> m1.contains_key(x) || u.remove(q).contains(x) by {}
        assert(exists|x: Seq<char>| #[trigger] m1.contains_key(x) && m1[x] == k1 - 1) by {
            if d + 1 > k {
                assert(m1.contains_key(q) && m1[q] == k1 - 1);
            } else {
                let x = choose|x: Seq<char>| #[trigger] m.contains_key(x) && m[x] == k - 1;
                assert(m1.contains_key(x) && m1[x] == k1 - 1);
            }
        }
        lemma_strata_from(cs, m1, u.remove(q), k1);
    }
}

/// Law: every program has strata.
pub proof fn strata_exist(cs: Seq<ClauseV>)
    ensures
        is_strata(cs, strata_of(cs)),
{
    let heads = cs.map_values(|c: ClauseV| c.head.pred);
    let u = Set::new(|p: Seq<char>| defined(cs, p));
    vstd::seq_lib::seq_to_set_is_finite(heads);
    assert(u.subset_of(heads.to_set())) by {
        assert forall|p: Seq<char>| #[trigger] u.contains(p) implies heads.to_set().contains(p) by {
            let i = choose|i: int| 0 <= i < cs.len() && !(#[trigger] cs[i]).is_fact && cs[i].head.pred == p;
            assert(heads[i] == p);
        }
    }
    vstd::set_lib::lemma_set_subset_finite(heads.to_set(), u);
    lemma_strata_from(cs, Map::empty(), u, 0);
}

/// The names of a sequence of strings, as a set.
spec fn names(s: Seq<String>) -> Set<Seq<char>> {
    Set::new(|n: Seq<char>| exists|i: int| 0 <= i < s.len() && (#[trigger] s[i])@ == n)
}

/// The defined predicates.
fn defined_preds(cs: &Vec<Clause>) -> (r: SortedSet<String>)
    ensures
        forall|p: Seq<char>| #[trigger] r@.contains(p) <==> defined(clauses_view(cs@), p),
{
    let ghost v = clauses_view(cs@);
    let mut r: SortedSet<String> = SortedSet::new();
    let mut i: usize = 0;
    while i < cs.len()
        invariant
            i <= cs@.len(),
            v == clauses_view(cs@),
            forall|p: Seq<char>| #[trigger]
                r@.contains(p) <==> exists|j: int| 0 <= j < i && !(#[trigger] v[j]).is_fact && v[j].head.pred == p,
        decreases cs@.len() - i,
    {
        assert(v[i as int] == cs@[i as int]@);
        let ghost r0 = r@;
        if !cs[i].is_fact {
            r.insert(cs[i].head.pred.clone());
        }
        proof {
            assert forall|p: Seq<char>| #[trigger] r@.contains(p) <==> exists|j: int|
                0 <= j < i + 1 && !(#[trigger] v[j]).is_fact && v[j].head.pred == p by {
                if r0.contains(p) {
                    let j = choose|j: int| 0 <= j < i && !(#[trigger] v[j]).is_fact && v[j].head.pred == p;
                    assert(0 <= j < i + 1 && !v[j].is_fact);
                }
            }
        }
        i += 1;
    }
    r
}

/// Whether a dependency is strict.
fn rises(cs: &Vec<Clause>, e: &Edge) -> (r: bool)
    ensures
        r == is_strict(clauses_view(cs@), e@),
{
    e.neg || is_aggregated(cs, e.head.as_str()) || is_aggregated(cs, e.dep.as_str())
}

/// The level that the dependencies of a predicate that is ready force on it.
fn forced_level(cs: &Vec<Clause>, deps: &Vec<Edge>, levels: &NameMap<usize>, p: &str, top: usize) -> (r: usize)
    requires
        ready(edges_view(deps@), given_out(levels@), p@),
        forall|q: Seq<char>| #[trigger] levels@.contains_key(q) ==> levels@[q] < top,
    ensures
        r == depth(clauses_view(cs@), edges_view(deps@), given_out(levels@), p@, deps@.len() as int),
{
    let ghost v = clauses_view(cs@);
    let ghost es = edges_view(deps@);
    let ghost m = given_out(levels@);
    let mut d: usize = 0;
    let mut k: usize = 0;
    while k < deps.len()
        invariant
            k <= deps@.len(),
            v == clauses_view(cs@),
            es == edges_view(deps@),
            m == given_out(levels@),
            ready(es, m, p@),
            forall|q: Seq<char>| #[trigger] levels@.contains_key(q) ==> levels@[q] < top,
            d == depth(v, es, m, p@, k as int),
        decreases deps@.len() - k,
    {
        let e = &deps[k];
        assert(es[k as int] == e@);
        let in_group = reaches(deps, p, e.head.as_str()) && reaches(deps, e.head.as_str(), p);
        let stays = reaches(deps, p, e.dep.as_str()) && reaches(deps, e.dep.as_str(), p);
        if in_group && !stays {
            assert(crossing(es, p@, k as int));
            assert(m.contains_key(e.dep@));
            if let Some(n) = levels.get(e.dep.as_str()) {
                assert(levels@.contains_key(e.dep@));
                let here: usize = if rises(cs, e) {
                    *n + 1
                } else {
                    *n
                };
                assert(here == m[e.dep@] + rise(v, es[k as int]));
                if here > d {
                    d = here;
                }
            }
        }
        k += 1;
    }
    d
}

/// The levels of the defined predicates, and how many levels there are.
fn levels(cs: &Vec<Clause>, deps: &Vec<Edge>) -> (r: (NameMap<usize>, usize))
    requires
        edges_view(deps@) == edges_of(clauses_view(cs@)),
    ensures
        is_levels(clauses_view(cs@), r.0@.map_values(|n: usize| n as nat)),
        forall|p: Seq<char>| #[trigger] r.0@.contains_key(p) ==> r.0@[p] < r.1,
        r.1 > 0 ==> exists|p: Seq<char>| #[trigger] r.0@.contains_key(p) && r.0@[p] == r.1 - 1,
{
    let ghost v = clauses_view(cs@);
    let ghost es = edges_of(v);
    let preds = defined_preds(cs);
    let all = preds.items();
    let mut waiting: Vec<String> = Vec::new();
    let mut i: usize = 0;
    while i < all.len()
        invariant
            i <= all@.len(),
            waiting@.len() == i,
            forall|j: int| 0 <= j < i ==> (#[trigger] waiting@[j])@ == all@[j]@,
        decreases all@.len() - i,
    {
        waiting.push(all[i].clone());
        i += 1;
    }
    let mut m: NameMap<usize> = NameMap::new();
    let mut top: usize = 0;
    proof {
        lemma_edges_defined(v, v.len() as int);
        let ms = crate::sorted_set::models(all@);
        assert forall|p: Seq<char>| #[trigger] names(waiting@).contains(p) <==> defined(v, p) by {
            assert(ms.to_set().contains(p) <==> preds@.contains(p));
            if names(waiting@).contains(p) {
                let j = choose|j: int| 0 <= j < waiting@.len() && (#[trigger] waiting@[j])@ == p;
                assert(ms[j] == p);
            }
            if preds@.contains(p) {
                let j = choose|j: int| 0 <= j < ms.len() && ms[j] == p;
                assert(waiting@[j]@ == p);
            }
        }
        assert forall|x: int, y: int| 0 <= x < y < waiting@.len() implies (#[trigger] waiting@[x])@ != (#[trigger] waiting@[y])@ by {
            assert(String::before(ms[x], ms[y]));
            String::before_irreflexive(ms[x]);
        }
        assert(partial_levels(v, es, given_out(m@)));
    }
    while waiting.len() > 0
        invariant
            v == clauses_view(cs@),
            es == edges_of(v),
            edges_view(deps@) == es,
            partial_levels(v, es, given_out(m@)),
            forall|p: Seq<char>| #[trigger] defined(v, p) <==> m@.contains_key(p) || names(waiting@).contains(p),
            forall|p: Seq<char>| #[trigger] names(waiting@).contains(p) ==> !m@.contains_key(p),
            forall|x: int, y: int| 0 <= x < y < waiting@.len() ==> (#[trigger] waiting@[x])@ != (#[trigger] waiting@[y])@,
            forall|j: int| 0 <= j < es.len() ==> defined(v, (#[trigger] es[j]).dep),
            top + waiting@.len() <= all@.len(),
            all@.len() <= usize::MAX,
            forall|p: Seq<char>| #[trigger] m@.contains_key(p) ==> m@[p] < top,
            top > 0 ==> exists|p: Seq<char>| #[trigger] m@.contains_key(p) && m@[p] == top - 1,
        decreases waiting@.len(),
    {
        let ghost w0 = waiting@;
        let ghost m0 = m@;
        let ghost g0 = given_out(m0);
        let mut i: usize = 0;
        while i < waiting.len() && !is_ready(deps, &m, waiting[i].as_str())
            invariant
                i <= waiting@.len(),
                edges_view(deps@) == es,
                g0 == given_out(m@),
                forall|j: int| 0 <= j < i ==> !ready(es, g0, (#[trigger] waiting@[j])@),
            decreases waiting@.len() - i,
        {
            i += 1;
        }
        proof {
            assert(names(w0).contains(w0[0]@));
            assert forall|k: int| 0 <= k < es.len() implies g0.contains_key((#[trigger] es[k]).dep) || names(w0).contains(es[k].dep) by {
                assert(defined(v, es[k].dep));
                assert(m0.contains_key(es[k].dep) <==> g0.contains_key(es[k].dep));
            }
            let q = lemma_ready_exists(es, g0, names(w0), w0[0]@);
            let j = choose|j: int| 0 <= j < w0.len() && (#[trigger] w0[j])@ == q;
            assert(ready(es, g0, w0[j]@));
            assert(i < waiting@.len());
        }
        let name = waiting.remove(i);
        let ghost q = name@;
        assert(names(w0).contains(w0[i as int]@));
        let d: usize = forced_level(cs, deps, &m, name.as_str(), top);
        proof {
            assert forall|p: Seq<char>| #[trigger] g0.contains_key(p) implies g0[p] < top by {
                assert(m0.contains_key(p));
            }
            lemma_depth_bound(v, es, g0, q, top as nat);
            lemma_next_level(v, es, g0, q);
        }
        m.put(name.as_str(), d);
        let ghost top0 = top;
        if d >= top {
            top = d + 1;
        }
        proof {
            assert(given_out(m@) =~= g0.insert(q, d as nat));
            assert forall|x: int, y: int| 0 <= x < y < waiting@.len() implies (#[trigger] waiting@[x])@ != (#[trigger] waiting@[y])@ by {
                let a: int = if x < i {
                    x
                } else {
                    x + 1
                };
                let b: int = if y < i {
                    y
                } else {
                    y + 1
                };
                assert(waiting@[x] == w0[a] && waiting@[y] == w0[b]);
            }
            assert forall|p: Seq<char>| #[trigger] names(waiting@).contains(p) <==> names(w0).contains(p) && p != q by {
                if names(waiting@).contains(p) {
                    let x = choose|x: int| 0 <= x < waiting@.len() && (#[trigger] waiting@[x])@ == p;
                    let a: int = if x < i {
                        x
                    } else {
                        x + 1
                    };
                    assert(w0[a] == waiting@[x]);
                    if a < i {
                        assert(w0[a]@ != w0[i as int]@);
                    } else {
                        assert(w0[i as int]@ != w0[a]@);
                    }
                }
                if names(w0).contains(p) && p != q {
                    let a = choose|a: int| 0 <= a < w0.len() && (#[trigger] w0[a])@ == p;
                    let x: int = if a < i {
                        a
                    } else {
                        a - 1
                    };
                    assert(waiting@[x] == w0[a]);
                }
            }
            assert(exists|p: Seq<char>| #[trigger] m@.contains_key(p) && m@[p] == top - 1) by {
                if d >= top0 {
                    assert(m@.contains_key(q) && m@[q] == top - 1);
                } else {
                    let x = choose|x: Seq<char>| #[trigger] m0.contains_key(x) && m0[x] == top0 - 1;
                    assert(m@.contains_key(x) && m@[x] == top - 1);
                }
            }
        }
    }
    proof {
        assert forall|p: Seq<char>| !(#[trigger] names(waiting@).contains(p)) by {}
        assert forall|p: Seq<char>| #[trigger] given_out(m@).contains_key(p) <==> defined(v, p) by {
            assert(given_out(m@).contains_key(p) <==> m@.contains_key(p));
        }
        assert(is_levels(v, given_out(m@)));
    }
    let ghost given = m@;
    let r = (m, top);
    proof {
        if top > 0 {
            let p = choose|p: Seq<char>| #[trigger] given.contains_key(p) && given[p] == top - 1;
            assert(r.0@.contains_key(p) && r.0@[p] == r.1 - 1);
        }
    }
    r
}

/// The value of a list of strata.
pub open spec fn strata_view(s: Seq<Vec<usize>>) -> Seq<Seq<int>> {
    s.map_values(|x: Vec<usize>| crate::relation::ids_view(x@))
}

/// The rules of a level, in program order.
fn collect_level(cs: &Vec<Clause>, levels: &NameMap<usize>, k: usize) -> (r: Vec<usize>)
    requires
        is_levels(clauses_view(cs@), levels@.map_values(|n: usize| n as nat)),
    ensures
        crate::relation::ids_view(r@) == rules_at(clauses_view(cs@), levels@.map_values(|n: usize| n as nat), k as int),
{
    let ghost v = clauses_view(cs@);
    let ghost l = levels@.map_values(|n: usize| n as nat);
    let ghost all = Seq::new(v.len(), |i: int| i);
    let ghost f = at_level(v, l, k as int);
    let mut r: Vec<usize> = Vec::new();
    let mut i: usize = 0;
    assert(all.take(0) =~= Seq::empty());
    assert(crate::relation::ids_view(r@) =~= all.take(0).filter(f)) by {
        reveal(Seq::filter);
    }
    while i < cs.len()
        invariant
            i <= cs@.len(),
            v == clauses_view(cs@),
            l == levels@.map_values(|n: usize| n as nat),
            is_levels(v, l),
            all == Seq::new(v.len(), |i: int| i),
            f == at_level(v, l, k as int),
            crate::relation::ids_view(r@) == all.take(i as int).filter(f),
        decreases cs@.len() - i,
    {
        assert(v[i as int] == cs@[i as int]@);
        proof {
            assert(all.take(i + 1) =~= all.take(i as int).push(i as int));
            all.take(i as int).lemma_filter_push(i as int, f);
        }
        let ghost r0 = r@;
        if !cs[i].is_fact {
            assert(defined(v, v[i as int].head.pred));
            assert(l.contains_key(v[i as int].head.pred));
            match levels.get(cs[i].head.pred.as_str()) {
                Some(n) => {
                    if *n == k {
                        r.push(i);
                        assert(crate::relation::ids_view(r@) =~= crate::relation::ids_view(r0).push(i as int));
                    }
                },
                None => {},
            }
        }
        i += 1;
    }
    assert(all.take(v.len() as int) =~= all);
    r
}

/// The strata of a program: rules grouped by level, so that each group reads
/// only what it or earlier groups define, and negates and folds only what
/// earlier groups define. Rejects programs where a
/// negation lies on a dependency cycle, where an aggregate depends on
/// itself, and where a predicate is both aggregated and ordinary.
pub fn strata(cs: &Vec<Clause>) -> (r: Result<Vec<Vec<usize>>, StratError>)
    ensures
        match r {
            Ok(s) => strata_error(clauses_view(cs@)) is None && strata_view(s@) == strata_of(clauses_view(cs@)) && is_strata(
                clauses_view(cs@),
                strata_view(s@),
            ),
            Err(e) => strata_error(clauses_view(cs@)) == Some(e.0@),
        },
{
    let ghost v = clauses_view(cs@);
    let deps = dependencies(cs);
    if let Some(m) = find_negation_error(&deps) {
        return Err(StratError(m));
    }
    if let Some(m) = find_aggregate_error(cs, &deps) {
        return Err(StratError(m));
    }
    if let Some(m) = find_mixed_error(cs) {
        return Err(StratError(m));
    }
    let (levels, n) = levels(cs, &deps);
    let ghost l = levels@.map_values(|n: usize| n as nat);
    let mut s: Vec<Vec<usize>> = Vec::new();
    let mut k: usize = 0;
    while k < n
        invariant
            k <= n,
            v == clauses_view(cs@),
            l == levels@.map_values(|n: usize| n as nat),
            is_levels(v, l),
            s@.len() == k,
            forall|j: int| 0 <= j < k ==> #[trigger] strata_view(s@)[j] == rules_at(v, l, j),
        decreases n - k,
    {
        let ghost s0 = s@;
        s.push(collect_level(cs, &levels, k));
        proof {
            assert forall|j: int| 0 <= j < k + 1 implies #[trigger] strata_view(s@)[j] == rules_at(v, l, j) by {
                if j < k {
                    assert(strata_view(s0)[j] == rules_at(v, l, j));
                    assert(s@[j] == s0[j]);
                }
            }
        }
        k += 1;
    }
    proof {
        let t = strata_view(s@);
        assert forall|p: Seq<char>| #[trigger] l.contains_key(p) implies l[p] < t.len() by {
            assert(levels@.contains_key(p));
        }
        if t.len() > 0 {
            let p = choose|p: Seq<char>| #[trigger] levels@.contains_key(p) && levels@[p] == n - 1;
            assert(l.contains_key(p) && l[p] == t.len() - 1);
        }
        assert(grouped(v, l, t));
        assert(is_strata(v, t));
        strata_unique(v, t, t);
    }
    Ok(s)
}

proof fn lemma_negation_error(es: Seq<EdgeV>, i: int, k: int)
    requires
        negation_error(es, i) is None,
        0 <= i <= k < es.len(),
    ensures
        !(es[k].neg && linked(es, es[k].dep, es[k].head)),
    decreases es.len() - i,
{
    if i < k {
        lemma_negation_error(es, i + 1, k);
    }
}

/// Each edge leads from a defined predicate.
proof fn lemma_edge_heads(cs: Seq<ClauseV>, n: int)
    requires
        0 <= n <= cs.len(),
    ensures
        forall|k: int| 0 <= k < edges_upto(cs, n).len() ==> defined(cs, (#[trigger] edges_upto(cs, n)[k]).head),
    decreases n,
{
    if n > 0 {
        lemma_edge_heads(cs, n - 1);
        let a = edges_upto(cs, n - 1);
        let c = cs[n - 1];
        let b = body_edges(cs, c, c.body.len() as int);
        lemma_body_edge_heads(cs, c, c.body.len() as int);
        assert forall|k: int| 0 <= k < edges_upto(cs, n).len() implies defined(cs, (#[trigger] edges_upto(cs, n)[k]).head) by {
            if !c.is_fact {
                if k < a.len() {
                    assert((a + b)[k] == a[k]);
                } else {
                    assert((a + b)[k] == b[k - a.len()]);
                    assert(b[k - a.len()].head == c.head.pred);
                }
            }
        }
    }
}

proof fn lemma_body_edge_heads(cs: Seq<ClauseV>, c: ClauseV, n: int)
    ensures
        forall|k: int| 0 <= k < body_edges(cs, c, n).len() ==> (#[trigger] body_edges(cs, c, n)[k]).head == c.head.pred,
    decreases n,
{
    if n > 0 {
        lemma_body_edge_heads(cs, c, n - 1);
        let b = body_edges(cs, c, n - 1);
        assert forall|k: int| 0 <= k < body_edges(cs, c, n).len() implies (#[trigger] body_edges(cs, c, n)[k]).head
            == c.head.pred by {
            if k < b.len() {
                assert(body_edges(cs, c, n)[k] == b[k]);
            }
        }
    }
}

/// In an accepted program a rule reads no predicate of a higher level, and
/// what it negates lies strictly lower: when a level is evaluated, all that
/// it negates is complete.
pub proof fn strata_order(cs: Seq<ClauseV>, l: Map<Seq<char>, nat>, k: int)
    requires
        strata_error(cs) is None,
        is_levels(cs, l),
        0 <= k < edges_of(cs).len(),
    ensures
        l[edges_of(cs)[k].dep] <= l[edges_of(cs)[k].head],
        edges_of(cs)[k].neg ==> l[edges_of(cs)[k].dep] < l[edges_of(cs)[k].head],
{
    let es = edges_of(cs);
    let h = es[k].head;
    let d = es[k].dep;
    lemma_edge_heads(cs, cs.len() as int);
    lemma_edges_defined(cs, cs.len() as int);
    assert(defined(cs, h) && defined(cs, d));
    assert(l.contains_key(h) && l.contains_key(d));
    assert(reads(es, h, d));
    lemma_linked_step(es, h, d);
    lemma_linked_self(es, h);
    if es[k].neg {
        lemma_negation_error(es, 0, k);
    }
    if together(es, h, d) {
        lemma_levels_together(cs, l, h, d);
    } else {
        assert(crossing(es, h, k));
    }
}

} // verus!

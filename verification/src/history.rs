//! The edges over time: what the update policy promises of them.

use vstd::prelude::*;
use crate::confidence::{clamp, ONE_BITS};
use crate::engine::EngineV;
use crate::extract::NINE_TENTHS;
use crate::feed::lemma_retract_facts;
use crate::intern::{intern_reads_back, interned, shown};
use crate::model::{facts, lemma_assert_facts};
use crate::notes::{covers_note, declaring_notes, height, is_merge, lemma_row_of, note};
use crate::policy::{
    ann_from, applied, applied_all, conflict_text, edge_to, in_table, is_open, new_edge, open_edges, with_closed, with_edge,
    with_symbol, ReportV,
};
use crate::protocol::CandV;
use crate::query::{query_exact, query_of};
use crate::relation::{fits, row_of, AnnV, FactV, KeyV, SupportV};
use crate::solve::lemma_store_assert;
use crate::store::{holds, rels_wf, store_retract, RelsV, StoreV};
use crate::text::joined;
use crate::value::Value;
use crate::windows::{has_text, lemma_has_itself, lemma_has_text_add, lemma_joined_has};

verus! {

/// A tuple is a stored edge.
pub open spec fn is_edge(rels: RelsV, k: Seq<Value>) -> bool {
    holds(rels, ("edge"@, k))
}

/// Every stored edge has its six values: subject, relation, object, the times
/// from and until which it is valid, and the time of its observation.
pub open spec fn edges_formed(rels: RelsV) -> bool {
    forall|k: Seq<Value>| #[trigger] is_edge(rels, k) ==> k.len() == 6
}

/// A stored edge of a subject and a relation that has no end.
pub open spec fn open_edge(rels: RelsV, s: Value, p: Value, k: Seq<Value>) -> bool {
    is_edge(rels, k) && k[0] == s && k[1] == p && k[4] == Value::Int(i64::MAX)
}

/// The values of a candidate's names.
pub open spec fn subject_of(e: EngineV, c: CandV) -> Value {
    Value::Sym(interned(e.st.names, c.subj))
}

pub open spec fn relation_of(e: EngineV, c: CandV) -> Value {
    Value::Sym(interned(with_symbol(e, c.subj).st.names, c.pred))
}

pub open spec fn object_of(e: EngineV, c: CandV) -> Value {
    Value::Sym(interned(with_symbol(with_symbol(e, c.subj), c.pred).st.names, c.obj))
}

/// The engine once the names of a candidate are known.
pub open spec fn named(e: EngineV, c: CandV) -> EngineV {
    with_symbol(with_symbol(with_symbol(e, c.subj), c.pred), c.obj)
}

/// A candidate's subject, relation and object already have an open edge.
pub open spec fn is_known(e: EngineV, c: CandV) -> bool {
    exists|k: Seq<Value>| #[trigger] open_edge(e.st.rels, subject_of(e, c), relation_of(e, c), k) && k[2] == object_of(e, c)
}

/// A relation takes one value at a time.
pub open spec fn is_exclusive(e: EngineV, c: CandV) -> bool {
    in_table(named(e, c), "exclusive"@, relation_of(e, c), c.pred)
}

// -------------------------------------------------------------------- lemmas

proof fn lemma_open_edges(e: EngineV, s: Value, p: Value)
    requires
        rels_wf(e.st.rels),
        edges_formed(e.st.rels),
    ensures
        forall|k: Seq<Value>| #[trigger] open_edges(e, s, p).contains(k) <==> open_edge(e.st.rels, s, p, k),
        forall|i: int| 0 <= i < open_edges(e, s, p).len() ==> open_edge(e.st.rels, s, p, #[trigger] open_edges(e, s, p)[i]),
{
    let pattern: Seq<Option<Value>> = seq![Some(s), Some(p), None, None, None, None];
    let hits = query_of(e.st, "edge"@, pattern);
    let keys = hits.map_values(|h: (Seq<Value>, AnnV)| h.0);
    let open = open_edges(e, s, p);
    assert(open == keys.filter(is_open()));
    if e.st.rels.contains_key("edge"@) {
        let r = e.st.rels["edge"@];
        assert forall|i: int| 0 <= i < r.rows.len() implies (#[trigger] r.rows[i]).key.len() == pattern.len() by {
            assert(is_edge(e.st.rels, r.rows[i].key));
        }
        assert forall|k: Seq<Value>| #[trigger] open.contains(k) <==> open_edge(e.st.rels, s, p, k) by {
            query_exact(e.st, "edge"@, pattern, k);
            if open.contains(k) {
                let i = choose|i: int| 0 <= i < open.len() && open[i] == k;
                keys.lemma_filter_pred(is_open(), i);
                lemma_filter_from(keys, is_open(), i);
                let j = choose|j: int| 0 <= j < keys.len() && keys[j] == k;
                assert(hits[j].0 == k);
                assert(pattern[0] is Some && pattern[1] is Some);
                assert(is_edge(e.st.rels, k));
                assert(k.len() == 6);
            }
            if open_edge(e.st.rels, s, p, k) {
                assert(k.len() == 6);
                assert(fits(pattern, k));
                let j = choose|j: int| 0 <= j < hits.len() && (#[trigger] hits[j]).0 == k;
                assert(keys[j] == k);
                keys.lemma_filter_contains(is_open(), j);
            }
        }
    } else {
        assert(keys =~= Seq::empty());
        reveal(Seq::filter);
        assert(open =~= Seq::empty());
    }
    assert forall|i: int| 0 <= i < open.len() implies open_edge(e.st.rels, s, p, #[trigger] open[i]) by {
        assert(open.contains(open[i]));
    }
}

proof fn lemma_filter_from<A>(s: Seq<A>, f: spec_fn(A) -> bool, i: int)
    requires
        0 <= i < s.filter(f).len(),
    ensures
        s.contains(s.filter(f)[i]),
    decreases s.len(),
{
    reveal(Seq::filter);
    if s.len() > 0 {
        let d = s.drop_last();
        if i < d.filter(f).len() {
            lemma_filter_from(d, f, i);
            let j = choose|j: int| 0 <= j < d.len() && d[j] == d.filter(f)[i];
            assert(s[j] == d[j]);
        } else {
            assert(s[s.len() - 1] == s.last());
        }
    }
}

proof fn lemma_with_edge(e: EngineV, k: Seq<Value>, ann: AnnV)
    requires
        rels_wf(e.st.rels),
    ensures
        rels_wf(with_edge(e, k, ann).st.rels),
        facts(with_edge(e, k, ann).st.rels) == facts(e.st.rels).insert(("edge"@, k)),
        forall|x: Seq<Value>| #[trigger] is_edge(with_edge(e, k, ann).st.rels, x) <==> x == k || is_edge(e.st.rels, x),
{
    let f = FactV { ann, supports: seq![SupportV::Base] };
    lemma_store_assert(e.st, ("edge"@, k), f);
    lemma_assert_facts(e.st, ("edge"@, k), f);
    assert(facts(with_edge(e, k, ann).st.rels) =~= facts(e.st.rels).insert(("edge"@, k)));
}

/// Closing edges replaces each by the same edge with an end.
proof fn lemma_with_closed(e: EngineV, open: Seq<Seq<Value>>, i: int)
    requires
        rels_wf(e.st.rels),
        0 <= i <= open.len(),
        e.now != i64::MAX,
        forall|j: int| 0 <= j < open.len() ==> (#[trigger] open[j]).len() == 6 && open[j][4] == Value::Int(i64::MAX),
    ensures
        ({
            let r = with_closed(e, open, i);
            &&& rels_wf(r.st.rels)
            &&& r.now == e.now
            &&& r.st.names == e.st.names
            &&& forall|x: Seq<Value>| #[trigger]
                is_edge(r.st.rels, x) <==> (is_edge(e.st.rels, x) && !listed(open, i, x)) || closed_form(open, i, e.now, x)
        }),
    decreases open.len() - i,
{
    if i < open.len() {
        let k = open[i];
        let gone = EngineV { st: store_retract(e.st, ("edge"@, k)), ..e };
        let shut = k.update(4, Value::Int(e.now));
        let ann = ann_from(NINE_TENTHS, "superseded"@);
        let e2 = with_edge(gone, shut, ann);
        lemma_retract_facts(e.st, ("edge"@, k));
        lemma_with_edge(gone, shut, ann);
        lemma_with_closed(e2, open, i + 1);
        let r = with_closed(e, open, i);
        assert forall|x: Seq<Value>| #[trigger] is_edge(gone.st.rels, x) <==> is_edge(e.st.rels, x) && x != k by {
            assert(facts(gone.st.rels).contains(("edge"@, x)) <==> facts(e.st.rels).remove(("edge"@, k)).contains(
                ("edge"@, x),
            ));
        }
        assert forall|x: Seq<Value>| #[trigger] is_edge(r.st.rels, x) <==> (is_edge(e.st.rels, x) && !listed(open, i, x))
            || closed_form(open, i, e.now, x) by {
            lemma_listed(open, i, e.now, x);
            if x == shut {
                assert(x[4] == Value::Int(e.now));
            }
        }
    } else {
        assert forall|x: Seq<Value>| !listed(open, i, x) && !closed_form(open, i, e.now, x) by {}
    }
}

/// A tuple is listed from a position on.
spec fn listed(open: Seq<Seq<Value>>, i: int, x: Seq<Value>) -> bool {
    exists|j: int| i <= j < open.len() && #[trigger] open[j] == x
}

/// A tuple is the closed form of one that is listed from a position on.
spec fn closed_form(open: Seq<Seq<Value>>, i: int, now: i64, x: Seq<Value>) -> bool {
    exists|j: int| i <= j < open.len() && (#[trigger] open[j]).update(4, Value::Int(now)) == x
}

proof fn lemma_listed(open: Seq<Seq<Value>>, i: int, now: i64, x: Seq<Value>)
    requires
        0 <= i < open.len(),
        now != i64::MAX,
        forall|j: int| 0 <= j < open.len() ==> (#[trigger] open[j]).len() == 6 && open[j][4] == Value::Int(i64::MAX),
    ensures
        listed(open, i, x) <==> open[i] == x || listed(open, i + 1, x),
        closed_form(open, i, now, x) <==> open[i].update(4, Value::Int(now)) == x || closed_form(open, i + 1, now, x),
        listed(open, i, x) ==> x.len() == 6 && x[4] == Value::Int(i64::MAX),
        closed_form(open, i, now, x) ==> x.len() == 6 && x[4] == Value::Int(now),
{
    if listed(open, i, x) {
        let j = choose|j: int| i <= j < open.len() && #[trigger] open[j] == x;
        assert(open[j].len() == 6);
        if j > i {
            assert(listed(open, i + 1, x));
        }
    }
    if listed(open, i + 1, x) {
        let j = choose|j: int| i + 1 <= j < open.len() && #[trigger] open[j] == x;
        assert(open[j] == x);
    }
    if closed_form(open, i, now, x) {
        let j = choose|j: int| i <= j < open.len() && (#[trigger] open[j]).update(4, Value::Int(now)) == x;
        assert(open[j].len() == 6);
        assert(x[4] == Value::Int(now));
        if j > i {
            assert(closed_form(open, i + 1, now, x));
        }
    }
    if closed_form(open, i + 1, now, x) {
        let j = choose|j: int| i + 1 <= j < open.len() && (#[trigger] open[j]).update(4, Value::Int(now)) == x;
        assert(open[j].update(4, Value::Int(now)) == x);
    }
}

proof fn lemma_edge_to(open: Seq<Seq<Value>>, o: Value, i: int)
    requires
        0 <= i <= open.len(),
    ensures
        match edge_to(open, o, i) {
            Some(j) => i <= j < open.len() && open[j][2] == o,
            None => forall|j: int| i <= j < open.len() ==> (#[trigger] open[j])[2] != o,
        },
    decreases open.len() - i,
{
    if i < open.len() && open[i][2] != o {
        lemma_edge_to(open, o, i + 1);
    }
}

// ----------------------------------------------------------------------- law

/// Law: the update decision for a candidate. What was observed is open
/// afterwards. A fact that is known already changes no fact. An exclusive
/// relation ends up with the new value alone, and what it supersedes stays,
/// closed at the time of the observation. No edge is lost, and the open edges
/// of other subjects and relations stay what they were.
pub proof fn update_policy(e: EngineV, c: CandV, source: Seq<char>, rep: ReportV)
    requires
        rels_wf(e.st.rels),
        edges_formed(e.st.rels),
        e.now != i64::MAX,
    ensures
        ({
            let r = applied(e, c, source, rep).0;
            let s = subject_of(e, c);
            let p = relation_of(e, c);
            let o = object_of(e, c);
            let before = e.st.rels;
            let after = r.st.rels;
            &&& rels_wf(after)
            &&& edges_formed(after)
            &&& r.now == e.now
            &&& exists|k: Seq<Value>| #[trigger] open_edge(after, s, p, k) && k[2] == o
            &&& is_known(e, c) ==> facts(after) == facts(before)
            &&& !is_known(e, c) && is_exclusive(e, c) ==> forall|k: Seq<Value>| #[trigger]
                open_edge(after, s, p, k) <==> k == new_edge(e, s, p, o)
            &&& forall|k: Seq<Value>| #[trigger]
                is_edge(before, k) ==> is_edge(after, k) || (open_edge(before, s, p, k) && is_edge(
                    after,
                    k.update(4, Value::Int(e.now)),
                ))
            &&& forall|s2: Value, p2: Value, k: Seq<Value>|
                (s2, p2) != (s, p) ==> (#[trigger] open_edge(after, s2, p2, k) <==> open_edge(before, s2, p2, k))
        }),
{
    let e3 = named(e, c);
    let s = subject_of(e, c);
    let p = relation_of(e, c);
    let o = object_of(e, c);
    let ann = ann_from(c.confidence, source);
    let open = open_edges(e3, s, p);
    let k0 = new_edge(e3, s, p, o);
    let r = applied(e, c, source, rep).0;
    assert(e3.st.rels == e.st.rels && e3.now == e.now);
    assert forall|k: Seq<Value>| #[trigger] is_edge(e3.st.rels, k) implies k.len() == 6 by {
        assert(is_edge(e.st.rels, k));
    }
    lemma_open_edges(e3, s, p);
    lemma_edge_to(open, o, 0);
    assert(k0.len() == 6 && k0[0] == s && k0[1] == p && k0[2] == o && k0[4] == Value::Int(i64::MAX));
    assert forall|j: int| 0 <= j < open.len() implies (#[trigger] open[j]).len() == 6 && open[j][4] == Value::Int(i64::MAX) by {
        assert(open_edge(e3.st.rels, s, p, open[j]));
        assert(is_edge(e.st.rels, open[j]));
    }
    if open.len() == 0 {
        lemma_with_edge(e3, k0, ann);
        assert(!is_known(e, c)) by {
            if is_known(e, c) {
                let k = choose|k: Seq<Value>| #[trigger] open_edge(e.st.rels, s, p, k) && k[2] == o;
                assert(open.contains(k));
            }
        }
        assert(open_edge(r.st.rels, s, p, k0));
        assert forall|k: Seq<Value>| #[trigger] open_edge(r.st.rels, s, p, k) implies k == k0 by {
            if open_edge(e3.st.rels, s, p, k) {
                assert(open.contains(k));
            }
        }
    } else {
        match edge_to(open, o, 0) {
            Some(i) => {
                lemma_with_edge(e3, open[i], ann);
                assert(open_edge(e3.st.rels, s, p, open[i]));
                assert(open_edge(e.st.rels, s, p, open[i]));
                assert(facts(e.st.rels).insert(("edge"@, open[i])) =~= facts(e.st.rels));
                assert(open_edge(r.st.rels, s, p, open[i]));
            },
            None => {
                assert(!is_known(e, c)) by {
                    if is_known(e, c) {
                        let k = choose|k: Seq<Value>| #[trigger] open_edge(e.st.rels, s, p, k) && k[2] == o;
                        assert(open.contains(k));
                        let j = choose|j: int| 0 <= j < open.len() && open[j] == k;
                        assert(open[j][2] != o);
                    }
                }
                if is_exclusive(e, c) {
                    lemma_superseded(e, c, source, rep);
                    assert(k0 == new_edge(e, s, p, o));
                    assert(open_edge(r.st.rels, s, p, k0));
                } else {
                    lemma_with_edge(e3, k0, ann);
                    assert(open_edge(r.st.rels, s, p, k0));
                }
            },
        }
    }
}

/// The case of a new value for an exclusive relation.
proof fn lemma_superseded(e: EngineV, c: CandV, source: Seq<char>, rep: ReportV)
    requires
        rels_wf(e.st.rels),
        edges_formed(e.st.rels),
        e.now != i64::MAX,
        open_edges(named(e, c), subject_of(e, c), relation_of(e, c)).len() > 0,
        edge_to(open_edges(named(e, c), subject_of(e, c), relation_of(e, c)), object_of(e, c), 0) is None,
        is_exclusive(e, c),
    ensures
        ({
            let r = applied(e, c, source, rep).0;
            let s = subject_of(e, c);
            let p = relation_of(e, c);
            let before = e.st.rels;
            let after = r.st.rels;
            &&& rels_wf(after)
            &&& edges_formed(after)
            &&& r.now == e.now
            &&& forall|k: Seq<Value>| #[trigger] open_edge(after, s, p, k) <==> k == new_edge(e, s, p, object_of(e, c))
            &&& forall|k: Seq<Value>| #[trigger]
                is_edge(before, k) ==> is_edge(after, k) || (open_edge(before, s, p, k) && is_edge(
                    after,
                    k.update(4, Value::Int(e.now)),
                ))
            &&& forall|s2: Value, p2: Value, k: Seq<Value>|
                (s2, p2) != (s, p) ==> (#[trigger] open_edge(after, s2, p2, k) <==> open_edge(before, s2, p2, k))
        }),
{
    let e3 = named(e, c);
    let s = subject_of(e, c);
    let p = relation_of(e, c);
    let o = object_of(e, c);
    let ann = ann_from(c.confidence, source);
    let open = open_edges(e3, s, p);
    assert(e3.st.rels == e.st.rels && e3.now == e.now);
    assert forall|k: Seq<Value>| #[trigger] is_edge(e3.st.rels, k) implies k.len() == 6 by {
        assert(is_edge(e.st.rels, k));
    }
    lemma_open_edges(e3, s, p);
    assert forall|j: int| 0 <= j < open.len() implies (#[trigger] open[j]).len() == 6 && open[j][4] == Value::Int(i64::MAX)
        && open[j][0] == s && open[j][1] == p by {
        assert(open_edge(e3.st.rels, s, p, open[j]));
        assert(is_edge(e.st.rels, open[j]));
    }
    let e4 = with_closed(e3, open, 0);
    lemma_with_closed(e3, open, 0);
    let k0 = new_edge(e4, s, p, o);
    assert(k0 == new_edge(e, s, p, o));
    assert(k0.len() == 6 && k0[0] == s && k0[1] == p && k0[4] == Value::Int(i64::MAX));
    lemma_with_edge(e4, k0, ann);
    let after = applied(e, c, source, rep).0.st.rels;
    assert forall|k: Seq<Value>| #[trigger] is_edge(after, k) <==> k == k0 || (is_edge(e.st.rels, k) && !listed(open, 0, k))
        || closed_form(open, 0, e.now, k) by {
        assert(is_edge(e4.st.rels, k) <==> (is_edge(e3.st.rels, k) && !listed(open, 0, k)) || closed_form(
            open,
            0,
            e.now,
            k,
        ));
    }
    assert forall|k: Seq<Value>| #[trigger] is_edge(after, k) implies k.len() == 6 by {
        lemma_listed(open, 0, e.now, k);
    }
    assert forall|k: Seq<Value>| #[trigger] open_edge(after, s, p, k) <==> k == k0 by {
        lemma_listed(open, 0, e.now, k);
        if open_edge(after, s, p, k) && k != k0 {
            if is_edge(e.st.rels, k) && !listed(open, 0, k) {
                assert(open_edge(e3.st.rels, s, p, k));
                assert(open.contains(k));
                let j = choose|j: int| 0 <= j < open.len() && open[j] == k;
                assert(open[j] == k);
            }
        }
        if k == k0 {
            assert(is_edge(after, k));
        }
    }
    assert forall|k: Seq<Value>| #[trigger] is_edge(e.st.rels, k) implies is_edge(after, k) || (open_edge(e.st.rels, s, p, k)
        && is_edge(after, k.update(4, Value::Int(e.now)))) by {
        if listed(open, 0, k) {
            let j = choose|j: int| 0 <= j < open.len() && #[trigger] open[j] == k;
            assert(open_edge(e3.st.rels, s, p, open[j]));
            let shut = k.update(4, Value::Int(e.now));
            assert(open[j].update(4, Value::Int(e.now)) == shut);
            assert(closed_form(open, 0, e.now, shut));
            assert(is_edge(after, shut));
        } else {
            assert(is_edge(after, k));
        }
    }
    assert forall|s2: Value, p2: Value, k: Seq<Value>| (s2, p2) != (s, p) implies (#[trigger] open_edge(after, s2, p2, k)
        <==> open_edge(e.st.rels, s2, p2, k)) by {
        lemma_listed(open, 0, e.now, k);
        if listed(open, 0, k) {
            let j = choose|j: int| 0 <= j < open.len() && #[trigger] open[j] == k;
            assert(open[j][0] == s && open[j][1] == p);
        }
        assert(is_edge(after, k) <==> k == k0 || (is_edge(e.st.rels, k) && !listed(open, 0, k)) || closed_form(
            open,
            0,
            e.now,
            k,
        ));
    }
}

/// A candidate's subject and relation have an open edge.
pub open spec fn has_open(e: EngineV, c: CandV) -> bool {
    exists|k: Seq<Value>| #[trigger] open_edge(e.st.rels, subject_of(e, c), relation_of(e, c), k)
}

/// A relation takes many values, once the candidate's edge is there.
pub open spec fn is_set_valued(e: EngineV, c: CandV, source: Seq<char>) -> bool {
    let e3 = named(e, c);
    let e4 = with_edge(
        e3,
        new_edge(e3, subject_of(e, c), relation_of(e, c), object_of(e, c)),
        ann_from(c.confidence, source),
    );
    in_table(e4, "set_valued"@, relation_of(e, c), c.pred)
}

/// Law: the report counts each decision once. A known fact counts as nothing
/// new, a superseding one as an update, any other as an addition; and an
/// addition beside another open value escalates unless the relation takes many
/// values.
pub proof fn update_reported(e: EngineV, c: CandV, source: Seq<char>, rep: ReportV)
    requires
        rels_wf(e.st.rels),
        edges_formed(e.st.rels),
    ensures
        ({
            let r = applied(e, c, source, rep).1;
            let known = is_known(e, c);
            let update = !known && has_open(e, c) && is_exclusive(e, c);
            let escalates = !known && has_open(e, c) && !is_exclusive(e, c) && !is_set_valued(e, c, source);
            &&& r.noop == rep.noop + (if known { 1int } else { 0 })
            &&& r.updated == rep.updated + (if update { 1int } else { 0 })
            &&& r.added == rep.added + (if !known && !update { 1int } else { 0 })
            &&& r.escalations.len() == rep.escalations.len() + (if escalates { 1int } else { 0 })
        }),
{
    let e3 = named(e, c);
    let s = subject_of(e, c);
    let p = relation_of(e, c);
    let o = object_of(e, c);
    let open = open_edges(e3, s, p);
    assert(e3.st.rels == e.st.rels);
    assert forall|k: Seq<Value>| #[trigger] is_edge(e3.st.rels, k) implies k.len() == 6 by {
        assert(is_edge(e.st.rels, k));
    }
    lemma_open_edges(e3, s, p);
    lemma_edge_to(open, o, 0);
    assert(has_open(e, c) <==> open.len() > 0) by {
        if open.len() > 0 {
            assert(open_edge(e3.st.rels, s, p, open[0]));
            assert(open_edge(e.st.rels, s, p, open[0]));
        }
        if has_open(e, c) {
            let k = choose|k: Seq<Value>| #[trigger] open_edge(e.st.rels, s, p, k);
            assert(open.contains(k));
        }
    }
    assert(is_known(e, c) <==> edge_to(open, o, 0) is Some) by {
        if let Some(i) = edge_to(open, o, 0) {
            assert(open_edge(e3.st.rels, s, p, open[i]));
            assert(open_edge(e.st.rels, s, p, open[i]));
        }
        if is_known(e, c) {
            let k = choose|k: Seq<Value>| #[trigger] open_edge(e.st.rels, s, p, k) && k[2] == o;
            assert(open.contains(k));
            let j = choose|j: int| 0 <= j < open.len() && open[j] == k;
            assert(open[j][2] == o);
        }
    }
}

/// At most one edge of a subject and a relation is open.
pub open spec fn one_open(rels: RelsV, s: Value, p: Value) -> bool {
    forall|j: Seq<Value>, k: Seq<Value>| #[trigger] open_edge(rels, s, p, j) && #[trigger] open_edge(rels, s, p, k) ==> j == k
}

/// Law: an exclusive relation never has two open values. Where a subject and
/// a relation had at most one open edge they still have, if the candidate is
/// about others or the relation is exclusive.
pub proof fn exclusive_stays_single(e: EngineV, c: CandV, source: Seq<char>, rep: ReportV, s: Value, p: Value)
    requires
        rels_wf(e.st.rels),
        edges_formed(e.st.rels),
        e.now != i64::MAX,
        one_open(e.st.rels, s, p),
        (s, p) != (subject_of(e, c), relation_of(e, c)) || is_exclusive(e, c),
    ensures
        one_open(applied(e, c, source, rep).0.st.rels, s, p),
{
    update_policy(e, c, source, rep);
    let before = e.st.rels;
    let after = applied(e, c, source, rep).0.st.rels;
    assert forall|j: Seq<Value>, k: Seq<Value>| #[trigger] open_edge(after, s, p, j) && #[trigger] open_edge(after, s, p, k) implies j
        == k by {
        if (s, p) != (subject_of(e, c), relation_of(e, c)) {
            assert(open_edge(before, s, p, j) && open_edge(before, s, p, k));
        } else if is_known(e, c) {
            assert(facts(before).contains(("edge"@, j)) && facts(before).contains(("edge"@, k))) by {
                assert(facts(after).contains(("edge"@, j)) && facts(after).contains(("edge"@, k)));
            }
            assert(open_edge(before, s, p, j) && open_edge(before, s, p, k));
        }
    }
}

/// Law: every candidate of a batch is counted once, and no more escalations
/// are raised than facts are added.
pub proof fn batch_counted(e: EngineV, cs: Seq<CandV>, source: Seq<char>, rep: ReportV, i: int)
    requires
        0 <= i <= cs.len(),
    ensures
        ({
            let r = applied_all(e, cs, source, rep, i).1;
            &&& r.added + r.updated + r.noop == rep.added + rep.updated + rep.noop + (cs.len() - i)
            &&& r.escalations.len() - rep.escalations.len() <= r.added - rep.added
            &&& rep.escalations.len() <= r.escalations.len()
            &&& rep.added <= r.added
        }),
    decreases cs.len() - i,
{
    if i < cs.len() {
        let r = applied(e, cs[i], source, rep);
        batch_counted(r.0, cs, source, r.1, i + 1);
    }
}

// ----------------------------------------------------------------------- notes

/// Asserting an edge notes it, and leaves the notes of others alone.
proof fn lemma_edge_noted(e: EngineV, k: Seq<Value>, ann: AnnV)
    requires
        rels_wf(e.st.rels),
    ensures
        ({
            let r = with_edge(e, k, ann).st.rels;
            &&& !is_edge(e.st.rels, k) ==> edge_note(r, k) == ann
            &&& is_edge(e.st.rels, k) ==> is_merge(edge_note(e.st.rels, k), ann, edge_note(r, k))
            &&& forall|x: Seq<Value>| x != k && is_edge(e.st.rels, x) ==> #[trigger] edge_note(r, x) == edge_note(e.st.rels, x)
        }),
{
    declaring_notes(e.st, ("edge"@, k), ann);
    let r = with_edge(e, k, ann).st.rels;
    assert forall|x: Seq<Value>| x != k && is_edge(e.st.rels, x) implies #[trigger] edge_note(r, x) == edge_note(e.st.rels, x) by {
        assert(holds(e.st.rels, ("edge"@, x)));
    }
}

/// The note of a stored edge.
pub open spec fn edge_note(rels: RelsV, k: Seq<Value>) -> AnnV {
    note(rels, ("edge"@, k))
}

/// Retracting a fact leaves the notes of others alone.
proof fn lemma_edge_gone(e: EngineV, k: Seq<Value>, x: Seq<Value>)
    requires
        rels_wf(e.st.rels),
        is_edge(e.st.rels, x),
        x != k,
    ensures
        edge_note(store_retract(e.st, ("edge"@, k)).rels, x) == edge_note(e.st.rels, x),
{
    let r = store_retract(e.st, ("edge"@, k)).rels;
    lemma_retract_facts(e.st, ("edge"@, k));
    let old = e.st.rels["edge"@];
    let i = row_of(old, x);
    assert(old.rows[i].key == x);
    if crate::relation::has_key(old, k) {
        let id = row_of(old, k);
        assert(old.rows[id].key == k);
        let last = old.rows.len() - 1;
        if i == last {
            assert(r["edge"@].rows[id] == old.rows[last]);
            lemma_row_of(r, ("edge"@, x), id);
        } else {
            assert(r["edge"@].rows[i] == old.rows[i]);
            lemma_row_of(r, ("edge"@, x), i);
        }
    } else {
        assert(r["edge"@].rows == old.rows);
        lemma_row_of(r, ("edge"@, x), i);
    }
}

proof fn lemma_closed_noted(e: EngineV, open: Seq<Seq<Value>>, i: int, x: Seq<Value>)
    requires
        rels_wf(e.st.rels),
        0 <= i <= open.len(),
        e.now != i64::MAX,
        forall|j: int| 0 <= j < open.len() ==> (#[trigger] open[j]).len() == 6 && open[j][4] == Value::Int(i64::MAX),
        is_edge(e.st.rels, x),
        !listed(open, i, x),
        !closed_form(open, i, e.now, x),
    ensures
        edge_note(with_closed(e, open, i).st.rels, x) == edge_note(e.st.rels, x),
    decreases open.len() - i,
{
    if i < open.len() {
        let k = open[i];
        let gone = EngineV { st: store_retract(e.st, ("edge"@, k)), ..e };
        let shut = k.update(4, Value::Int(e.now));
        let ann = ann_from(NINE_TENTHS, "superseded"@);
        let e2 = with_edge(gone, shut, ann);
        lemma_listed(open, i, e.now, x);
        lemma_retract_facts(e.st, ("edge"@, k));
        lemma_edge_gone(e, k, x);
        assert(is_edge(gone.st.rels, x)) by {
            assert(facts(gone.st.rels).contains(("edge"@, x)));
        }
        lemma_edge_noted(gone, shut, ann);
        lemma_with_edge(gone, shut, ann);
        assert(is_edge(e2.st.rels, x));
        lemma_closed_noted(e2, open, i + 1, x);
    }
}

/// The edges after a candidate was applied that supersedes others: the new
/// one, the former ones, and of those that were open a copy that ends now.
pub open spec fn is_superseded(before: RelsV, after: RelsV, now: i64, s: Value, p: Value, k0: Seq<Value>) -> bool {
    forall|x: Seq<Value>| #[trigger]
        is_edge(after, x) <==> {
            ||| x == k0
            ||| is_edge(before, x) && !open_edge(before, s, p, x)
            ||| exists|y: Seq<Value>| #[trigger] open_edge(before, s, p, y) && x == y.update(4, Value::Int(now))
        }
}

/// Law: what a candidate does to the edges, exactly. A known one changes none;
/// one for an exclusive relation closes the open ones and opens its own; any
/// other opens its own and leaves all as they are. Facts of other predicates
/// stay.
pub proof fn update_exact(e: EngineV, c: CandV, source: Seq<char>, rep: ReportV)
    requires
        rels_wf(e.st.rels),
        edges_formed(e.st.rels),
        e.now != i64::MAX,
    ensures
        ({
            let r = applied(e, c, source, rep).0;
            let s = subject_of(e, c);
            let p = relation_of(e, c);
            let k0 = new_edge(e, s, p, object_of(e, c));
            let before = e.st.rels;
            let after = r.st.rels;
            &&& is_known(e, c) ==> forall|x: Seq<Value>| #[trigger] is_edge(after, x) <==> is_edge(before, x)
            &&& !is_known(e, c) && is_exclusive(e, c) ==> is_superseded(before, after, e.now, s, p, k0)
            &&& !is_known(e, c) && !is_exclusive(e, c) ==> forall|x: Seq<Value>| #[trigger]
                is_edge(after, x) <==> x == k0 || is_edge(before, x)
            &&& forall|k: KeyV| k.0 != "edge"@ ==> (#[trigger] holds(after, k) <==> holds(before, k))
            &&& r.clauses == e.clauses
            &&& r.st.names == named(e, c).st.names
        }),
{
    let e3 = named(e, c);
    let s = subject_of(e, c);
    let p = relation_of(e, c);
    let o = object_of(e, c);
    let ann = ann_from(c.confidence, source);
    let open = open_edges(e3, s, p);
    let k0 = new_edge(e3, s, p, o);
    let before = e.st.rels;
    let after = applied(e, c, source, rep).0.st.rels;
    assert(e3.st.rels == e.st.rels && e3.now == e.now);
    assert forall|k: Seq<Value>| #[trigger] is_edge(e3.st.rels, k) implies k.len() == 6 by {
        assert(is_edge(e.st.rels, k));
    }
    lemma_open_edges(e3, s, p);
    lemma_edge_to(open, o, 0);
    assert forall|j: int| 0 <= j < open.len() implies (#[trigger] open[j]).len() == 6 && open[j][4] == Value::Int(i64::MAX) by {
        assert(open_edge(e3.st.rels, s, p, open[j]));
        assert(is_edge(e.st.rels, open[j]));
    }
    lemma_known(e, c);
    lemma_with_edge(e3, k0, ann);
    lemma_others_kept(e3, k0, ann);
    lemma_with_closed(e3, open, 0);
    lemma_closed_others(e3, open, 0);
    let e4 = with_closed(e3, open, 0);
    lemma_with_edge(e4, k0, ann);
    lemma_others_kept(e4, k0, ann);
    if open.len() > 0 {
        match edge_to(open, o, 0) {
            Some(i) => {
                assert(open_edge(e3.st.rels, s, p, open[i]));
                lemma_with_edge(e3, open[i], ann);
                lemma_others_kept(e3, open[i], ann);
            },
            None => {
                if is_exclusive(e, c) {
                    assert forall|x: Seq<Value>| #[trigger] is_edge(after, x) <==> {
                        ||| x == k0
                        ||| is_edge(before, x) && !open_edge(before, s, p, x)
                        ||| exists|y: Seq<Value>| #[trigger] open_edge(before, s, p, y) && x == y.update(4, Value::Int(e.now))
                    } by {
                        lemma_open_listed(e3, s, p, x);
                    }
                }
            },
        }
    } else {
        assert forall|x: Seq<Value>| !(#[trigger] open_edge(before, s, p, x)) by {
            if open_edge(before, s, p, x) {
                assert(open_edge(e3.st.rels, s, p, x));
                assert(open.contains(x));
            }
        }
        assert(is_superseded(before, after, e.now, s, p, k0));
    }
}

/// The listed open edges are the open ones.
proof fn lemma_open_listed(e: EngineV, s: Value, p: Value, x: Seq<Value>)
    requires
        rels_wf(e.st.rels),
        edges_formed(e.st.rels),
    ensures
        listed(open_edges(e, s, p), 0, x) <==> open_edge(e.st.rels, s, p, x),
        closed_form(open_edges(e, s, p), 0, e.now, x) <==> exists|y: Seq<Value>| #[trigger]
            open_edge(e.st.rels, s, p, y) && x == y.update(4, Value::Int(e.now)),
{
    let open = open_edges(e, s, p);
    lemma_open_edges(e, s, p);
    if open_edge(e.st.rels, s, p, x) {
        assert(open.contains(x));
        let j = choose|j: int| 0 <= j < open.len() && open[j] == x;
        assert(open[j] == x);
    }
    if closed_form(open, 0, e.now, x) {
        let j = choose|j: int| 0 <= j < open.len() && (#[trigger] open[j]).update(4, Value::Int(e.now)) == x;
        assert(open_edge(e.st.rels, s, p, open[j]));
    }
    if exists|y: Seq<Value>| #[trigger] open_edge(e.st.rels, s, p, y) && x == y.update(4, Value::Int(e.now)) {
        let y = choose|y: Seq<Value>| #[trigger] open_edge(e.st.rels, s, p, y) && x == y.update(4, Value::Int(e.now));
        assert(open.contains(y));
        let j = choose|j: int| 0 <= j < open.len() && open[j] == y;
        assert(open[j].update(4, Value::Int(e.now)) == x);
    }
}

/// A candidate is known where an open edge leads to its object.
proof fn lemma_known(e: EngineV, c: CandV)
    requires
        rels_wf(e.st.rels),
        edges_formed(e.st.rels),
    ensures
        is_known(e, c) <==> edge_to(open_edges(named(e, c), subject_of(e, c), relation_of(e, c)), object_of(e, c), 0) is Some,
{
    let e3 = named(e, c);
    let s = subject_of(e, c);
    let p = relation_of(e, c);
    let o = object_of(e, c);
    let open = open_edges(e3, s, p);
    assert(e3.st.rels == e.st.rels);
    assert forall|k: Seq<Value>| #[trigger] is_edge(e3.st.rels, k) implies k.len() == 6 by {
        assert(is_edge(e.st.rels, k));
    }
    lemma_open_edges(e3, s, p);
    lemma_edge_to(open, o, 0);
    if let Some(i) = edge_to(open, o, 0) {
        assert(open_edge(e3.st.rels, s, p, open[i]));
        assert(open_edge(e.st.rels, s, p, open[i]));
    }
    if is_known(e, c) {
        let k = choose|k: Seq<Value>| #[trigger] open_edge(e.st.rels, s, p, k) && k[2] == o;
        assert(open_edge(e3.st.rels, s, p, k));
        assert(open.contains(k));
        let j = choose|j: int| 0 <= j < open.len() && open[j] == k;
        assert(open[j][2] == o);
    }
}

proof fn lemma_others_kept(e: EngineV, k: Seq<Value>, ann: AnnV)
    requires
        rels_wf(e.st.rels),
    ensures
        forall|j: KeyV| j.0 != "edge"@ ==> (#[trigger] holds(with_edge(e, k, ann).st.rels, j) <==> holds(e.st.rels, j)),
{
    lemma_assert_facts(e.st, ("edge"@, k), FactV { ann, supports: seq![SupportV::Base] });
}

proof fn lemma_closed_others(e: EngineV, open: Seq<Seq<Value>>, i: int)
    requires
        rels_wf(e.st.rels),
    ensures
        rels_wf(with_closed(e, open, i).st.rels),
        with_closed(e, open, i).clauses == e.clauses,
        forall|j: KeyV| j.0 != "edge"@ ==> (#[trigger] holds(with_closed(e, open, i).st.rels, j) <==> holds(e.st.rels, j)),
    decreases open.len() - i,
{
    if 0 <= i < open.len() {
        let k: KeyV = ("edge"@, open[i]);
        let gone = EngineV { st: store_retract(e.st, k), ..e };
        let shut = open[i].update(4, Value::Int(e.now));
        let ann = ann_from(NINE_TENTHS, "superseded"@);
        lemma_retract_facts(e.st, k);
        lemma_with_edge(gone, shut, ann);
        lemma_others_kept(gone, shut, ann);
        lemma_closed_others(with_edge(gone, shut, ann), open, i + 1);
        assert forall|j: KeyV| j.0 != "edge"@ implies (#[trigger] holds(with_closed(e, open, i).st.rels, j) <==> holds(e.st.rels, j)) by {
            assert(holds(gone.st.rels, j) <==> holds(e.st.rels, j)) by {
                assert(facts(gone.st.rels).contains(j) <==> facts(e.st.rels).remove(k).contains(j));
            }
        }
    }
}

/// Law: a candidate's edge carries what was observed. A new edge has the
/// confidence of the candidate and its episode as the only source. A known one
/// has the higher confidence of the two, and the episode beside its other
/// sources. The notes of edges that stay open or closed as they were do not
/// change.
pub proof fn update_noted(e: EngineV, c: CandV, source: Seq<char>, rep: ReportV)
    requires
        rels_wf(e.st.rels),
        edges_formed(e.st.rels),
        e.now != i64::MAX,
    ensures
        ({
            let s = subject_of(e, c);
            let p = relation_of(e, c);
            let o = object_of(e, c);
            let before = e.st.rels;
            let after = applied(e, c, source, rep).0.st.rels;
            let seen = AnnV { conf: clamp(c.confidence), prov: set![source] };
            let k0 = new_edge(e, s, p, o);
            &&& c.confidence <= ONE_BITS ==> seen.conf == c.confidence
            &&& !is_known(e, c) ==> open_edge(after, s, p, k0) && edge_note(after, k0) == seen
            &&& is_known(e, c) ==> exists|k: Seq<Value>|
                open_edge(before, s, p, k) && k[2] == o && is_merge(edge_note(before, k), seen, #[trigger] edge_note(after, k)) && forall|
                    x: Seq<Value>,
                | is_edge(before, x) && x != k ==> #[trigger] edge_note(after, x) == edge_note(before, x)
            &&& !is_known(e, c) ==> forall|x: Seq<Value>|
                is_edge(before, x) && (!is_exclusive(e, c) || (!open_edge(before, s, p, x) && x[4] != Value::Int(e.now)))
                    ==> #[trigger] edge_note(after, x) == edge_note(before, x)
        }),
{
    let e3 = named(e, c);
    let s = subject_of(e, c);
    let p = relation_of(e, c);
    let o = object_of(e, c);
    let ann = ann_from(c.confidence, source);
    let open = open_edges(e3, s, p);
    let k0 = new_edge(e3, s, p, o);
    let before = e.st.rels;
    let after = applied(e, c, source, rep).0.st.rels;
    assert(ann == (AnnV { conf: clamp(c.confidence), prov: set![source] }));
    assert(e3.st.rels == e.st.rels && e3.now == e.now);
    assert forall|k: Seq<Value>| #[trigger] is_edge(e3.st.rels, k) implies k.len() == 6 by {
        assert(is_edge(e.st.rels, k));
    }
    lemma_open_edges(e3, s, p);
    lemma_edge_to(open, o, 0);
    lemma_known(e, c);
    assert forall|j: int| 0 <= j < open.len() implies (#[trigger] open[j]).len() == 6 && open[j][4] == Value::Int(i64::MAX) by {
        assert(open_edge(e3.st.rels, s, p, open[j]));
        assert(is_edge(e.st.rels, open[j]));
    }
    assert(k0 == new_edge(e, s, p, o));
    assert(k0.len() == 6 && k0[0] == s && k0[1] == p && k0[2] == o && k0[4] == Value::Int(i64::MAX));
    assert(!is_known(e, c) ==> !is_edge(before, k0)) by {
        if is_edge(before, k0) {
            assert(open_edge(before, s, p, k0));
        }
    }
    let e4 = with_closed(e3, open, 0);
    lemma_with_closed(e3, open, 0);
    lemma_edge_noted(e3, k0, ann);
    lemma_with_edge(e3, k0, ann);
    match edge_to(open, o, 0) {
        Some(i) => {
            assert(open_edge(e3.st.rels, s, p, open[i]));
            lemma_edge_noted(e3, open[i], ann);
            assert(open_edge(before, s, p, open[i]));
            assert(is_merge(edge_note(before, open[i]), ann, edge_note(after, open[i])));
        },
        None => {
            if open.len() > 0 && is_exclusive(e, c) {
                lemma_open_listed(e3, s, p, k0);
                lemma_listed(open, 0, e.now, k0);
                assert(!is_edge(e4.st.rels, k0));
                lemma_with_edge(e4, k0, ann);
                lemma_edge_noted(e4, k0, ann);
                assert forall|x: Seq<Value>|
                    is_edge(before, x) && !open_edge(before, s, p, x) && x[4] != Value::Int(e.now) implies #[trigger] edge_note(after, x)
                    == edge_note(before, x) by {
                    lemma_open_listed(e3, s, p, x);
                    lemma_listed(open, 0, e.now, x);
                    assert(is_edge(e3.st.rels, x));
                    assert(is_edge(e4.st.rels, x));
                    lemma_closed_noted(e3, open, 0, x);
                }
            } else if open.len() == 0 {
                assert forall|x: Seq<Value>| !(#[trigger] open_edge(before, s, p, x)) by {
                    if open_edge(before, s, p, x) {
                        assert(open_edge(e3.st.rels, s, p, x));
                        assert(open.contains(x));
                    }
                }
            }
        },
    }
}

// --------------------------------------------------------------------- batches

/// A stored edge has the names of a candidate, open or closed.
pub open spec fn edge_named(st: StoreV, c: CandV, k: Seq<Value>) -> bool {
    &&& is_edge(st.rels, k)
    &&& k.len() == 6
    &&& shown(st.names, k[0]) == c.subj
    &&& shown(st.names, k[1]) == c.pred
    &&& shown(st.names, k[2]) == c.obj
    &&& k[0] is Sym && k[1] is Sym && k[2] is Sym
    &&& k[0]->Sym_0.0 < st.names.len() && k[1]->Sym_0.0 < st.names.len() && k[2]->Sym_0.0 < st.names.len()
}

/// Some stored edge has the names of a candidate.
pub open spec fn has_edge(st: StoreV, c: CandV) -> bool {
    exists|k: Seq<Value>| #[trigger] edge_named(st, c, k)
}

/// The values of a candidate read back as its names.
pub proof fn lemma_names_read(e: EngineV, c: CandV)
    requires
        named(e, c).st.names.len() < usize::MAX,
    ensures
        ({
            let names = named(e, c).st.names;
            &&& e.st.names.is_prefix_of(names)
            &&& shown(names, subject_of(e, c)) == c.subj && subject_of(e, c)->Sym_0.0 < names.len()
            &&& shown(names, relation_of(e, c)) == c.pred && relation_of(e, c)->Sym_0.0 < names.len()
            &&& shown(names, object_of(e, c)) == c.obj && object_of(e, c)->Sym_0.0 < names.len()
        }),
{
    let n0 = e.st.names;
    let n1 = with_symbol(e, c.subj).st.names;
    let n2 = with_symbol(with_symbol(e, c.subj), c.pred).st.names;
    let n3 = named(e, c).st.names;
    intern_reads_back(n0, c.subj);
    intern_reads_back(n1, c.pred);
    intern_reads_back(n2, c.obj);
    assert forall|i: int| 0 <= i < n0.len() implies n0[i] == n3[i] by {
        assert(n1[i] == n0[i] && n2[i] == n1[i] && n3[i] == n2[i]);
    }
    assert(n0 =~= n3.subrange(0, n0.len() as int));
    if n0.contains(c.subj) {
        assert(0 <= n0.index_of(c.subj) < n0.len());
    }
    if n1.contains(c.pred) {
        assert(0 <= n1.index_of(c.pred) < n1.len());
    }
    if n2.contains(c.obj) {
        assert(0 <= n2.index_of(c.obj) < n2.len());
    }
    let a = subject_of(e, c)->Sym_0.0 as int;
    let b = relation_of(e, c)->Sym_0.0 as int;
    assert(n1[a] == c.subj && n2[a] == n1[a] && n3[a] == n2[a]);
    assert(n2[b] == c.pred && n3[b] == n2[b]);
}

/// An edge keeps its names, whatever is applied.
proof fn lemma_named_kept(e: EngineV, c: CandV, source: Seq<char>, rep: ReportV, d: CandV, k: Seq<Value>) -> (x: Seq<Value>)
    requires
        rels_wf(e.st.rels),
        edges_formed(e.st.rels),
        e.now != i64::MAX,
        edge_named(e.st, d, k),
        named(e, c).st.names.len() < usize::MAX,
    ensures
        edge_named(applied(e, c, source, rep).0.st, d, x),
{
    let r = applied(e, c, source, rep).0;
    update_policy(e, c, source, rep);
    update_exact(e, c, source, rep);
    lemma_names_read(e, c);
    assert(is_edge(e.st.rels, k));
    if is_edge(r.st.rels, k) {
        k
    } else {
        k.update(4, Value::Int(e.now))
    }
}

proof fn lemma_batch(e: EngineV, cs: Seq<CandV>, source: Seq<char>, rep: ReportV, i: int, d: CandV, k: Seq<Value>) -> (x: Seq<Value>)
    requires
        0 <= i <= cs.len(),
        rels_wf(e.st.rels),
        edges_formed(e.st.rels),
        e.now != i64::MAX,
        edge_named(e.st, d, k),
        applied_all(e, cs, source, rep, i).0.st.names.len() < usize::MAX,
    ensures
        edge_named(applied_all(e, cs, source, rep, i).0.st, d, x),
    decreases cs.len() - i,
{
    if i < cs.len() {
        let r = applied(e, cs[i], source, rep);
        update_policy(e, cs[i], source, rep);
        update_exact(e, cs[i], source, rep);
        lemma_batch_names(r.0, cs, source, r.1, i + 1);
        let y = lemma_named_kept(e, cs[i], source, rep, d, k);
        lemma_batch(r.0, cs, source, r.1, i + 1, d, y)
    } else {
        k
    }
}

proof fn lemma_batch_names(e: EngineV, cs: Seq<CandV>, source: Seq<char>, rep: ReportV, i: int)
    requires
        0 <= i <= cs.len(),
        rels_wf(e.st.rels),
        edges_formed(e.st.rels),
        e.now != i64::MAX,
    ensures
        e.st.names.len() <= applied_all(e, cs, source, rep, i).0.st.names.len(),
    decreases cs.len() - i,
{
    if i < cs.len() {
        let r = applied(e, cs[i], source, rep);
        update_policy(e, cs[i], source, rep);
        update_exact(e, cs[i], source, rep);
        lemma_batch_names(r.0, cs, source, r.1, i + 1);
    }
}

/// Law: every candidate of a batch leaves an edge with its names, which a later
/// one may have closed but not removed; and the last one's edge is open, with
/// the episode among its sources and at least its confidence.
pub proof fn batch_applied(e: EngineV, cs: Seq<CandV>, source: Seq<char>, rep: ReportV, i: int)
    requires
        0 <= i <= cs.len(),
        rels_wf(e.st.rels),
        edges_formed(e.st.rels),
        e.now != i64::MAX,
        applied_all(e, cs, source, rep, i).0.st.names.len() < usize::MAX,
    ensures
        ({
            let r = applied_all(e, cs, source, rep, i).0.st;
            &&& forall|j: int| i <= j < cs.len() ==> has_edge(r, #[trigger] cs[j])
            &&& i < cs.len() ==> exists|k: Seq<Value>| #[trigger]
                edge_named(r, cs.last(), k) && k[4] == Value::Int(i64::MAX) && edge_note(r.rels, k).prov.contains(source) && height(
                    edge_note(r.rels, k).conf,
                ) >= height(clamp(cs.last().confidence))
        }),
    decreases cs.len() - i,
{
    if i < cs.len() {
        let c = cs[i];
        let r = applied(e, c, source, rep);
        let all = applied_all(e, cs, source, rep, i).0.st;
        update_policy(e, c, source, rep);
        update_exact(e, c, source, rep);
        update_noted(e, c, source, rep);
        lemma_batch_names(r.0, cs, source, r.1, i + 1);
        lemma_names_read(e, c);
        let s = subject_of(e, c);
        let p = relation_of(e, c);
        let o = object_of(e, c);
        let seen = AnnV { conf: clamp(c.confidence), prov: set![source] };
        let k = if is_known(e, c) {
            choose|k: Seq<Value>|
                open_edge(e.st.rels, s, p, k) && k[2] == o && is_merge(edge_note(e.st.rels, k), seen, #[trigger] edge_note(
                    r.0.st.rels,
                    k,
                ))
        } else {
            new_edge(e, s, p, o)
        };
        assert(is_edge(r.0.st.rels, k) && k[4] == Value::Int(i64::MAX) && covers_note(edge_note(r.0.st.rels, k), seen)) by {
            if is_known(e, c) {
                assert(is_edge(e.st.rels, k));
                assert forall|q: Seq<char>| #[trigger] seen.prov.contains(q) implies edge_note(r.0.st.rels, k).prov.contains(q) by {}
            }
        }
        assert(edge_named(r.0.st, c, k));
        assert(seen.prov.contains(source));
        batch_applied(r.0, cs, source, r.1, i + 1);
        let x = lemma_batch(r.0, cs, source, r.1, i + 1, c, k);
        assert(edge_named(all, cs[i], x));
        assert(all == applied_all(r.0, cs, source, r.1, i + 1).0.st);
        assert(has_edge(all, cs[i]));
        assert forall|j: int| i <= j < cs.len() implies has_edge(all, #[trigger] cs[j]) by {}
        if i + 1 == cs.len() {
            assert(cs.last() == c);
            assert(all == r.0.st);
            assert(edge_named(all, cs.last(), k));
        }
    }
}

/// Law: an escalation names what conflicts: the candidate, where it was
/// observed, and every value that is open beside it.
pub proof fn escalation_names(names: Seq<Seq<char>>, c: CandV, source: Seq<char>, open: Seq<Seq<Value>>, t: Seq<char>)
    requires
        t == c.subj || t == c.pred || t == c.obj || t == source || exists|i: int| 0 <= i < open.len() && t == shown(
            names,
            (#[trigger] open[i])[2],
        ),
    ensures
        has_text(conflict_text(names, c, source, open), t),
{
    let values = open.map_values(|k: Seq<Value>| shown(names, k[2]));
    let list = joined(values, ", "@);
    let text = conflict_text(names, c, source, open);
    let p1 = "conflict: "@;
    let p2 = p1 + c.subj;
    let p3 = p2 + " --"@ + c.pred;
    let p4 = p3 + "--> "@ + c.obj;
    let p5 = p4 + " asserted in "@ + source;
    let p6 = p5 + ", but "@ + c.pred + " also open ("@;
    assert(text =~= (p6 + list) + ")"@);
    lemma_has_itself(t);
    if exists|i: int| 0 <= i < open.len() && t == shown(names, (#[trigger] open[i])[2]) {
        let i = choose|i: int| 0 <= i < open.len() && t == shown(names, (#[trigger] open[i])[2]);
        assert(values[i] == t);
        lemma_joined_has(values, ", "@, i);
        lemma_has_text_add(p6, list, t);
        lemma_has_text_add(p6 + list, ")"@, t);
    } else {
        lemma_has_text_add(p1, c.subj, t);
        lemma_has_text_add(p2 + " --"@, c.pred, t);
        lemma_has_text_add(p3 + "--> "@, c.obj, t);
        lemma_has_text_add(p4 + " asserted in "@, source, t);
        lemma_has_text_add(p2, " --"@ + c.pred, t);
        assert(p3 =~= p2 + (" --"@ + c.pred));
        lemma_has_text_add(p3, "--> "@ + c.obj, t);
        assert(p4 =~= p3 + ("--> "@ + c.obj));
        lemma_has_text_add(p4, " asserted in "@ + source, t);
        assert(p5 =~= p4 + (" asserted in "@ + source));
        let rest = ", but "@ + c.pred + " also open ("@ + list + ")"@;
        lemma_has_text_add(p5, rest, t);
        assert(text =~= p5 + rest);
    }
}

/// An edge that says enough goes on saying it while edges are closed.
proof fn lemma_covered_on(e: EngineV, open: Seq<Seq<Value>>, i: int, x: Seq<Value>, a: AnnV)
    requires
        rels_wf(e.st.rels),
        0 <= i <= open.len(),
        forall|j: int| 0 <= j < open.len() ==> (#[trigger] open[j]).len() == 6 && open[j][4] == Value::Int(i64::MAX),
        is_edge(e.st.rels, x),
        x[4] != Value::Int(i64::MAX),
        covers_note(edge_note(e.st.rels, x), a),
    ensures
        is_edge(with_closed(e, open, i).st.rels, x),
        covers_note(edge_note(with_closed(e, open, i).st.rels, x), a),
    decreases open.len() - i,
{
    if i < open.len() {
        let k = open[i];
        let gone = EngineV { st: store_retract(e.st, ("edge"@, k)), ..e };
        let shut = k.update(4, Value::Int(e.now));
        let ann = ann_from(NINE_TENTHS, "superseded"@);
        let e2 = with_edge(gone, shut, ann);
        lemma_retract_facts(e.st, ("edge"@, k));
        lemma_edge_gone(e, k, x);
        assert(is_edge(gone.st.rels, x)) by {
            assert(facts(gone.st.rels).contains(("edge"@, x)));
        }
        lemma_edge_noted(gone, shut, ann);
        lemma_with_edge(gone, shut, ann);
        assert(covers_note(edge_note(e2.st.rels, x), a)) by {
            assert forall|p: Seq<char>| #[trigger] a.prov.contains(p) implies edge_note(e2.st.rels, x).prov.contains(p) by {
                assert(edge_note(e.st.rels, x).prov.contains(p));
            }
        }
        lemma_covered_on(e2, open, i + 1, x, a);
    }
}

proof fn lemma_each_closed(e: EngineV, open: Seq<Seq<Value>>, i: int, j: int)
    requires
        rels_wf(e.st.rels),
        0 <= i <= j < open.len(),
        e.now != i64::MAX,
        forall|y: int| 0 <= y < open.len() ==> (#[trigger] open[y]).len() == 6 && open[y][4] == Value::Int(i64::MAX),
    ensures
        ({
            let r = with_closed(e, open, i).st.rels;
            let x = open[j].update(4, Value::Int(e.now));
            is_edge(r, x) && covers_note(edge_note(r, x), ann_from(NINE_TENTHS, "superseded"@))
        }),
    decreases open.len() - i,
{
    let k = open[i];
    let gone = EngineV { st: store_retract(e.st, ("edge"@, k)), ..e };
    let shut = k.update(4, Value::Int(e.now));
    let ann = ann_from(NINE_TENTHS, "superseded"@);
    let e2 = with_edge(gone, shut, ann);
    lemma_retract_facts(e.st, ("edge"@, k));
    lemma_edge_noted(gone, shut, ann);
    lemma_with_edge(gone, shut, ann);
    if i == j {
        assert forall|p: Seq<char>| #[trigger] ann.prov.contains(p) implies edge_note(e2.st.rels, shut).prov.contains(p) by {}
        assert(shut[4] == Value::Int(e.now));
        lemma_covered_on(e2, open, i + 1, shut, ann);
    } else {
        lemma_each_closed(e2, open, i + 1, j);
    }
}

/// Law: what is superseded stays, closed. Where a candidate supersedes others,
/// each edge that was open is kept with an end now, under the source that says
/// so and with at least nine tenths of confidence, and is open no more.
pub proof fn superseded_kept(e: EngineV, c: CandV, source: Seq<char>, rep: ReportV, y: Seq<Value>)
    requires
        rels_wf(e.st.rels),
        edges_formed(e.st.rels),
        e.now != i64::MAX,
        !is_known(e, c),
        is_exclusive(e, c),
        open_edge(e.st.rels, subject_of(e, c), relation_of(e, c), y),
    ensures
        ({
            let r = applied(e, c, source, rep).0.st.rels;
            let x = y.update(4, Value::Int(e.now));
            &&& is_edge(r, x)
            &&& height(edge_note(r, x).conf) >= height(NINE_TENTHS)
            &&& edge_note(r, x).prov.contains("superseded"@)
            &&& !is_edge(r, y)
        }),
{
    let e3 = named(e, c);
    let s = subject_of(e, c);
    let p = relation_of(e, c);
    let o = object_of(e, c);
    let ann = ann_from(c.confidence, source);
    let closing = ann_from(NINE_TENTHS, "superseded"@);
    let open = open_edges(e3, s, p);
    let k0 = new_edge(e3, s, p, o);
    let r = applied(e, c, source, rep).0.st.rels;
    let x = y.update(4, Value::Int(e.now));
    assert(e3.st.rels == e.st.rels && e3.now == e.now);
    assert forall|k: Seq<Value>| #[trigger] is_edge(e3.st.rels, k) implies k.len() == 6 by {
        assert(is_edge(e.st.rels, k));
    }
    lemma_open_edges(e3, s, p);
    lemma_edge_to(open, o, 0);
    lemma_known(e, c);
    assert(open_edge(e3.st.rels, s, p, y));
    assert(open.contains(y));
    let j = choose|j: int| 0 <= j < open.len() && open[j] == y;
    assert forall|i: int| 0 <= i < open.len() implies (#[trigger] open[i]).len() == 6 && open[i][4] == Value::Int(i64::MAX) by {
        assert(open_edge(e3.st.rels, s, p, open[i]));
        assert(is_edge(e.st.rels, open[i]));
    }
    let e4 = with_closed(e3, open, 0);
    lemma_with_closed(e3, open, 0);
    lemma_each_closed(e3, open, 0, j);
    lemma_with_edge(e4, k0, ann);
    lemma_edge_noted(e4, k0, ann);
    assert(k0[4] == Value::Int(i64::MAX));
    assert(x[4] == Value::Int(e.now));
    assert(edge_note(r, x) == edge_note(e4.st.rels, x));
    assert(closing.prov.contains("superseded"@));
    assert(clamp(NINE_TENTHS) == NINE_TENTHS);
    update_exact(e, c, source, rep);
    if is_edge(r, y) {
        assert(y[2] == o ==> is_known(e, c));
        assert(y != k0);
        let z = choose|z: Seq<Value>| #[trigger] open_edge(e.st.rels, s, p, z) && y == z.update(4, Value::Int(e.now));
        assert(is_edge(e.st.rels, z));
        assert(y[4] == Value::Int(e.now));
    }
}

/// Law: a conflict is reported in full. Where a candidate is escalated the report
/// ends with a line that names it, its episode, and every value that is open
/// beside it, and the lines before it stay.
pub proof fn conflicts_reported(e: EngineV, c: CandV, source: Seq<char>, rep: ReportV, k: Seq<Value>)
    requires
        rels_wf(e.st.rels),
        edges_formed(e.st.rels),
        open_edge(e.st.rels, subject_of(e, c), relation_of(e, c), k),
        !is_known(e, c),
        !is_exclusive(e, c),
        !is_set_valued(e, c, source),
    ensures
        ({
            let r = applied(e, c, source, rep);
            let t = r.1.escalations.last();
            &&& r.1.escalations.len() == rep.escalations.len() + 1
            &&& r.1.escalations.drop_last() == rep.escalations
            &&& has_text(t, c.subj)
            &&& has_text(t, c.pred)
            &&& has_text(t, c.obj)
            &&& has_text(t, source)
            &&& has_text(t, shown(r.0.st.names, k[2]))
        }),
{
    let e3 = named(e, c);
    let s = subject_of(e, c);
    let p = relation_of(e, c);
    let open = open_edges(e3, s, p);
    let r = applied(e, c, source, rep);
    assert(e3.st.rels == e.st.rels);
    assert forall|x: Seq<Value>| #[trigger] is_edge(e3.st.rels, x) implies x.len() == 6 by {
        assert(is_edge(e.st.rels, x));
    }
    lemma_open_edges(e3, s, p);
    lemma_known(e, c);
    assert(open_edge(e3.st.rels, s, p, k));
    assert(open.contains(k));
    let i = choose|i: int| 0 <= i < open.len() && open[i] == k;
    let names = r.0.st.names;
    escalation_names(names, c, source, open, c.subj);
    escalation_names(names, c, source, open, c.pred);
    escalation_names(names, c, source, open, c.obj);
    escalation_names(names, c, source, open, source);
    assert(shown(names, k[2]) == shown(names, open[i][2]));
    escalation_names(names, c, source, open, shown(names, k[2]));
    assert(r.1.escalations.drop_last() =~= rep.escalations);
}

/// Law: a relation is in a table where the store holds it there, or the program
/// states it.
pub proof fn tables_mean(e: EngineV, table: Seq<char>, p: Value, name: Seq<char>)
    requires
        rels_wf(e.st.rels),
        forall|k: KeyV| #[trigger] holds(e.st.rels, k) && k.0 == table ==> k.1.len() == 1,
    ensures
        in_table(e, table, p, name) <==> {
            ||| holds(e.st.rels, (table, seq![p]))
            ||| exists|i: int|
                0 <= i < e.clauses.len() && (#[trigger] e.clauses[i]).is_fact && e.clauses[i].head.pred == table
                    && e.clauses[i].head.args == seq![crate::ast::TermV::Sym(name)]
        },
{
    let q = query_of(e.st, table, seq![Some(p)]);
    if e.st.rels.contains_key(table) {
        let r = e.st.rels[table];
        assert forall|i: int| 0 <= i < r.rows.len() implies (#[trigger] r.rows[i]).key.len() == seq![Some(p)].len() by {
            lemma_row_of(e.st.rels, (table, r.rows[i].key), i);
        }
        query_exact(e.st, table, seq![Some(p)], seq![p]);
        if q.len() > 0 {
            query_exact(e.st, table, seq![Some(p)], q[0].0);
            let key = q[0].0;
            assert(crate::relation::has_key(r, key));
            let id = choose|id: int| 0 <= id < r.rows.len() && (#[trigger] r.rows[id]).key == key;
            assert(key.len() == 1);
            assert(seq![Some(p)][0] is Some);
            assert(key =~= seq![p]);
        }
        if holds(e.st.rels, (table, seq![p])) {
            assert(fits(seq![Some(p)], seq![p]));
        }
    }
    assert forall|i: int| 0 <= i < e.clauses.len() implies (crate::query::table_fact(#[trigger] e.clauses[i], table, name) <==> (
    e.clauses[i].is_fact && e.clauses[i].head.pred == table && e.clauses[i].head.args == seq![crate::ast::TermV::Sym(name)])) by {
        let args = e.clauses[i].head.args;
        if crate::query::table_fact(e.clauses[i], table, name) {
            assert(args =~= seq![crate::ast::TermV::Sym(name)]);
        }
    }
}

} // verus!

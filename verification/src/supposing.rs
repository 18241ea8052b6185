//! Supposing facts: in the state in which a hypothetical goal is answered
//! everything that is supposed holds beside what is stored, and afterwards the
//! memory is as it was.

use vstd::prelude::*;
use crate::agent::{edges_for, supposed};
use crate::demand::{after_assuming, assumed, gained, ran_assuming};
use crate::engine::{declared, engine_wf, prepared, ran, EngineV};
use crate::folds::lowered_program;
use crate::follow::{changes_followed_up, declaring_keeps_up, given_in, keeps_up, stated_underived};
use crate::frame::{run_keeps_base, same_facts, written_preds};
use crate::history::{is_edge, lemma_names_read, named, object_of, relation_of, subject_of};
use crate::intern::shown;
use crate::laid::is_written;
use crate::model::{facts, lemma_assert_facts};
use crate::notes::{declaring_notes, note};
use crate::perfect::is_model;
use crate::policy::{new_edge, with_symbol};
use crate::protocol::CandV;
use crate::query::{answers, goal_of};
use crate::relation::{ann_unit, FactV, KeyV, SupportV};
use crate::restore::known_key;
use crate::runs::run_consumes;
use crate::scope::run_settles;
use crate::solve::{lemma_prefix_trans, lemma_store_assert};
use crate::store::{holds, rels_wf, StoreV};
use crate::stratify::strata_error;
use crate::tally::{all_tallied, folds_apart};
use crate::value::Value;

verus! {

/// The facts of a list from a position on.
pub open spec fn listed_from(extra: Seq<KeyV>, i: int) -> Set<KeyV> {
    Set::new(|k: KeyV| exists|j: int| i <= j < extra.len() && #[trigger] extra[j] == k)
}

proof fn lemma_listed_from(extra: Seq<KeyV>, i: int)
    requires
        0 <= i < extra.len(),
    ensures
        listed_from(extra, i) == listed_from(extra, i + 1).insert(extra[i]),
{
    assert forall|k: KeyV| listed_from(extra, i).contains(k) <==> #[trigger] listed_from(extra, i + 1).insert(extra[i]).contains(k) by {
        if listed_from(extra, i).contains(k) {
            let j = choose|j: int| i <= j < extra.len() && #[trigger] extra[j] == k;
            if j > i {
                assert(i + 1 <= j && extra[j] == k);
            }
        }
        if listed_from(extra, i + 1).contains(k) {
            let j = choose|j: int| i + 1 <= j < extra.len() && #[trigger] extra[j] == k;
            assert(i <= j && extra[j] == k);
        }
    }
    assert(listed_from(extra, i) =~= listed_from(extra, i + 1).insert(extra[i]));
}

proof fn lemma_assumed(st: StoreV, extra: Seq<KeyV>, i: int)
    requires
        rels_wf(st.rels),
        0 <= i <= extra.len(),
    ensures
        ({
            let r = assumed(st, extra, i);
            &&& rels_wf(r.rels)
            &&& r.names == st.names
            &&& r.epoch == st.epoch
            &&& r.retracted == st.retracted
            &&& st.log.len() <= r.log.len()
            &&& facts(r.rels) == facts(st.rels).union(listed_from(extra, i))
            &&& forall|k: KeyV| #[trigger] holds(r.rels, k) && !holds(st.rels, k) ==> note(r.rels, k).prov == Set::<Seq<char>>::empty()
        }),
    decreases extra.len() - i,
{
    if i < extra.len() {
        let next = declared(st, extra[i], ann_unit());
        let f = FactV { ann: ann_unit(), supports: seq![SupportV::Base] };
        let r = assumed(st, extra, i);
        lemma_store_assert(st, extra[i], f);
        lemma_assert_facts(st, extra[i], f);
        declaring_notes(st, extra[i], ann_unit());
        lemma_assumed(next, extra, i + 1);
        lemma_listed_from(extra, i);
        assert(facts(next.rels) =~= facts(st.rels).insert(extra[i]));
        assert(facts(r.rels) =~= facts(st.rels).union(listed_from(extra, i)));
        assert forall|k: KeyV| #[trigger] holds(r.rels, k) && !holds(st.rels, k) implies note(r.rels, k).prov == Set::<Seq<char>>::empty() by {
            if holds(next.rels, k) {
                assert(k == extra[i]);
                lemma_note_kept(next, extra, i + 1, k);
            }
        }
    } else {
        assert(listed_from(extra, i) =~= Set::<KeyV>::empty());
        assert(facts(st.rels) =~= facts(st.rels).union(listed_from(extra, i)));
    }
}

/// What is supposed adds no source to a fact.
proof fn lemma_note_kept(st: StoreV, extra: Seq<KeyV>, i: int, k: KeyV)
    requires
        rels_wf(st.rels),
        0 <= i <= extra.len(),
        holds(st.rels, k),
    ensures
        holds(assumed(st, extra, i).rels, k),
        note(assumed(st, extra, i).rels, k).prov == note(st.rels, k).prov,
    decreases extra.len() - i,
{
    if i < extra.len() {
        let next = declared(st, extra[i], ann_unit());
        lemma_store_assert(st, extra[i], FactV { ann: ann_unit(), supports: seq![SupportV::Base] });
        declaring_notes(st, extra[i], ann_unit());
        if k == extra[i] {
            assert(note(next.rels, k).prov =~= note(st.rels, k).prov);
        }
        lemma_note_kept(next, extra, i + 1, k);
    }
}

/// Law: the base facts of the state in which a hypothetical goal is answered
/// are those of the store and all that is supposed; no others.
pub proof fn supposed_state(e: EngineV, extra: Seq<KeyV>, k: KeyV)
    requires
        engine_wf(e),
        e.ever.finite(),
        e.clauses.len() <= usize::MAX,
        strata_error(e.clauses) is None,
        !written_preds(e).contains(k.0),
    ensures
        holds(ran_assuming(e, extra).st.rels, k) <==> holds(e.st.rels, k) || exists|j: int| 0 <= j < extra.len() && #[trigger] extra[j] == k,
{
    let base = ran(e).0;
    let mid = EngineV { st: assumed(base.st, extra, 0), ..base };
    let r = ran(mid).0;
    run_keeps_base(e);
    run_consumes(e);
    lemma_assumed(base.st, extra, 0);
    run_keeps_base(mid);
    assert(written_preds(mid) =~= written_preds(e));
    assert(same_facts(e.st.rels, base.st.rels, k.0));
    assert(same_facts(mid.st.rels, r.st.rels, k.0));
    assert(holds(e.st.rels, k) <==> holds(base.st.rels, k));
    assert(holds(mid.st.rels, k) <==> holds(r.st.rels, k));
    assert(facts(mid.st.rels).contains(k) <==> facts(base.st.rels).union(listed_from(extra, 0)).contains(k));
}

proof fn lemma_assumed_keeps_up(e: EngineV, a: Seq<Seq<char>>, m: Set<KeyV>, extra: Seq<KeyV>, i: int)
    requires
        keeps_up(e, a, m),
        0 <= i <= extra.len(),
        forall|j: int| 0 <= j < extra.len() ==> !is_written(e.clauses, (#[trigger] extra[j]).0) && known_key(e.st.names, extra[j].1),
    ensures
        keeps_up(EngineV { st: assumed(e.st, extra, i), ..e }, a, m),
    decreases extra.len() - i,
{
    if i < extra.len() {
        declaring_keeps_up(e, a, m, extra[i], ann_unit());
        lemma_assumed_keeps_up(EngineV { st: declared(e.st, extra[i], ann_unit()), ..e }, a, m, extra, i + 1);
    }
}

/// Law: what follows from the supposition is derived. The state in which a
/// hypothetical goal is answered is the model of the program over the stored
/// and the supposed facts, aggregates included.
pub proof fn supposed_model(e: EngineV, extra: Seq<KeyV>)
    requires
        e.clauses.len() <= usize::MAX,
        folds_apart(e.clauses),
        stated_underived(e.clauses),
        ({
            let base = ran(e).0;
            let mid = EngineV { st: assumed(base.st, extra, 0), ..base };
            &&& base.clauses == e.clauses
            &&& base.now == e.now
            &&& keeps_up(base, base.st.names, facts(base.st.rels))
            &&& run_settles(mid)
        }),
        ran_assuming(e, extra).st.names.len() < usize::MAX,
        forall|j: int|
            0 <= j < extra.len() ==> !is_written(e.clauses, (#[trigger] extra[j]).0) && known_key(ran(e).0.st.names, extra[j].1),
    ensures
        ({
            let base = ran(e).0;
            let r = ran_assuming(e, extra).st;
            let all = facts(r.rels);
            let stored = facts(prepared(EngineV { st: assumed(base.st, extra, 0), ..base }).st.rels);
            &&& is_model(r.names, e.now, lowered_program(e.clauses), given_in(e.clauses, stored, all), all)
            &&& all_tallied(r.rels, e.clauses)
            &&& forall|j: int| 0 <= j < extra.len() ==> holds(r.rels, #[trigger] extra[j])
        }),
{
    let base = ran(e).0;
    let mid = EngineV { st: assumed(base.st, extra, 0), ..base };
    let r = ran_assuming(e, extra).st;
    lemma_assumed_keeps_up(base, base.st.names, facts(base.st.rels), extra, 0);
    changes_followed_up(mid, base.st.names, facts(base.st.rels));
    lemma_assumed(base.st, extra, 0);
    let p = prepared(mid).st;
    crate::runs::lemma_declare_extends(mid.st, e.clauses, 0);
    assert forall|j: int| 0 <= j < extra.len() implies holds(r.rels, #[trigger] extra[j]) by {
        assert(listed_from(extra, 0).contains(extra[j]));
        assert(facts(mid.st.rels).contains(extra[j]));
        assert(holds(mid.st.rels, extra[j]));
        crate::model::lemma_extends_holds(mid.st, p, extra[j]);
        assert(facts(p.rels).contains(extra[j]));
        assert(given_in(e.clauses, facts(p.rels), facts(r.rels)).contains(extra[j]));
        assert(facts(r.rels).contains(extra[j]));
    }
}

/// Law: a hypothetical goal leaves everything but the symbols, and the count of
/// what the supposition added, as it was. What counts as added is every fact that
/// holds with the supposition and not without it.
pub proof fn supposing_leaves(e: EngineV, extra: Seq<KeyV>)
    ensures
        ({
            let f = after_assuming(e, ran_assuming(e, extra));
            &&& f.st.rels == e.st.rels
            &&& f.st.log == e.st.log
            &&& f.st.feed == e.st.feed
            &&& f.st.epoch == e.st.epoch
            &&& f.st.retracted == e.st.retracted
            &&& f.clauses == e.clauses
            &&& f.batches == e.batches
            &&& f.ever == e.ever
            &&& f.dirty == e.dirty
            &&& f.mark == e.mark
            &&& f.now == e.now
            &&& f.counter == e.counter
            &&& f.hypothetical == Set::new(
                |k: KeyV| holds(ran_assuming(e, extra).st.rels, k) && !holds(ran(e).0.st.rels, k),
            ).len() as usize
        }),
{
    assert(gained(ran(e).0.st.rels, ran_assuming(e, extra).st.rels) =~= Set::new(
        |k: KeyV| holds(ran_assuming(e, extra).st.rels, k) && !holds(ran(e).0.st.rels, k),
    ));
}

/// A key is the edge that a candidate stands for, open from now on.
pub open spec fn stands_for(names: Seq<Seq<char>>, now: i64, c: CandV, k: KeyV) -> bool {
    &&& k.0 == "edge"@
    &&& k.1.len() == 6
    &&& k.1[0] is Sym && k.1[1] is Sym && k.1[2] is Sym
    &&& shown(names, k.1[0]) == c.subj && k.1[0]->Sym_0.0 < names.len()
    &&& shown(names, k.1[1]) == c.pred && k.1[1]->Sym_0.0 < names.len()
    &&& shown(names, k.1[2]) == c.obj && k.1[2]->Sym_0.0 < names.len()
    &&& k.1[3] == Value::Int(now)
    &&& k.1[4] == Value::Int(i64::MAX)
    &&& k.1[5] == Value::Int(now)
}

proof fn lemma_stands_later(a: Seq<Seq<char>>, b: Seq<Seq<char>>, now: i64, c: CandV, k: KeyV)
    requires
        a.is_prefix_of(b),
        stands_for(a, now, c, k),
    ensures
        stands_for(b, now, c, k),
{
}

/// Law: candidates that are supposed stand for one open edge each, with their
/// names.
pub proof fn supposed_edges(e: EngineV, cs: Seq<CandV>, i: int)
    requires
        0 <= i <= cs.len(),
        edges_for(e, cs, i).0.st.names.len() < usize::MAX,
    ensures
        ({
            let x = edges_for(e, cs, i);
            &&& x.1.len() == cs.len() - i
            &&& forall|j: int| i <= j < cs.len() ==> stands_for(x.0.st.names, e.now, cs[j], #[trigger] x.1[j - i])
            &&& e.st.names.is_prefix_of(x.0.st.names)
            &&& x.0 == (EngineV { st: StoreV { names: x.0.st.names, ..e.st }, ..e })
        }),
    decreases cs.len() - i,
{
    let x = edges_for(e, cs, i);
    if i < cs.len() {
        let c = cs[i];
        let e3 = named(e, c);
        let rest = edges_for(e3, cs, i + 1);
        supposed_names(e3, cs, i + 1);
        lemma_prefix_len(e3.st.names, x.0.st.names);
        supposed_edges(e3, cs, i + 1);
        lemma_names_read(e, c);
        lemma_prefix_trans(e.st.names, e3.st.names, x.0.st.names);
        let k: KeyV = ("edge"@, new_edge(e, subject_of(e, c), relation_of(e, c), object_of(e, c)));
        assert(x.1 == seq![k] + rest.1);
        assert(stands_for(e3.st.names, e.now, c, k));
        lemma_stands_later(e3.st.names, x.0.st.names, e.now, c, k);
        assert forall|j: int| i <= j < cs.len() implies stands_for(x.0.st.names, e.now, cs[j], #[trigger] x.1[j - i]) by {
            if j > i {
                assert(x.1[j - i] == rest.1[j - (i + 1)]);
            } else {
                assert(x.1[0] == k);
            }
        }
    } else {
        assert(e.st.names =~= e.st.names.subrange(0, e.st.names.len() as int));
    }
}

proof fn lemma_prefix_len(a: Seq<Seq<char>>, b: Seq<Seq<char>>)
    requires
        a.is_prefix_of(b),
    ensures
        a.len() <= b.len(),
{
}

/// Symbols are only added for what is supposed.
proof fn supposed_names(e: EngineV, cs: Seq<CandV>, i: int)
    ensures
        e.st.names.is_prefix_of(edges_for(e, cs, i).0.st.names),
    decreases cs.len() - i,
{
    if 0 <= i < cs.len() {
        let e1 = with_symbol(e, cs[i].subj);
        let e2 = with_symbol(e1, cs[i].pred);
        let e3 = with_symbol(e2, cs[i].obj);
        let f = edges_for(e, cs, i).0.st.names;
        assert(e.st.names =~= e1.st.names.subrange(0, e.st.names.len() as int));
        assert(e1.st.names =~= e2.st.names.subrange(0, e1.st.names.len() as int));
        assert(e2.st.names =~= e3.st.names.subrange(0, e2.st.names.len() as int));
        supposed_names(e3, cs, i + 1);
        lemma_prefix_trans(e2.st.names, e3.st.names, f);
        lemma_prefix_trans(e1.st.names, e2.st.names, f);
        lemma_prefix_trans(e.st.names, e1.st.names, f);
    } else {
        assert(e.st.names =~= e.st.names.subrange(0, e.st.names.len() as int));
    }
}

/// Law: a question about what would follow is answered with every candidate's
/// edge in place. The answers are those of a state in which each stands as an
/// open edge with its names, beside the edges of the memory and no others.
pub proof fn supposition_answered(e: EngineV, cs: Seq<CandV>, goal: Seq<char>)
    requires
        engine_wf(e),
        e.ever.finite(),
        e.clauses.len() <= usize::MAX,
        strata_error(e.clauses) is None,
        !written_preds(e).contains("edge"@),
        supposed(e, cs, goal) is Ok,
        edges_for(e, cs, 0).0.st.names.len() < usize::MAX,
    ensures
        ({
            let x = edges_for(e, cs, 0);
            let st = ran_assuming(x.0, x.1).st;
            &&& goal_of("hypothetical"@, goal) is Ok
            &&& supposed(e, cs, goal)->Ok_0.1 == answers(st, goal_of("hypothetical"@, goal)->Ok_0)
            &&& forall|j: int| 0 <= j < cs.len() ==> exists|k: KeyV| #[trigger]
                holds(st.rels, k) && stands_for(st.names, e.now, #[trigger] cs[j], k)
            &&& forall|k: Seq<Value>| #[trigger]
                is_edge(st.rels, k) ==> is_edge(e.st.rels, k) || exists|j: int|
                    0 <= j < cs.len() && stands_for(st.names, e.now, #[trigger] cs[j], ("edge"@, k))
            &&& forall|k: Seq<Value>| #[trigger] is_edge(e.st.rels, k) ==> is_edge(st.rels, k)
        }),
{
    let x = edges_for(e, cs, 0);
    let st = ran_assuming(x.0, x.1).st;
    let base = ran(x.0).0;
    let mid = EngineV { st: assumed(base.st, x.1, 0), ..base };
    supposed_edges(e, cs, 0);
    assert(written_preds(x.0) =~= written_preds(e));
    run_keeps_base(x.0);
    run_consumes(x.0);
    lemma_assumed(base.st, x.1, 0);
    run_keeps_base(mid);
    lemma_prefix_trans(x.0.st.names, base.st.names, st.names);
    assert forall|j: int| 0 <= j < cs.len() implies exists|k: KeyV| #[trigger]
        holds(st.rels, k) && stands_for(st.names, e.now, #[trigger] cs[j], k) by {
        let k = x.1[j - 0];
        assert(stands_for(x.0.st.names, e.now, cs[j], k));
        lemma_stands_later(x.0.st.names, st.names, e.now, cs[j], k);
        supposed_state(x.0, x.1, k);
        assert(x.1[j] == k);
        assert(holds(st.rels, k));
    }
    assert forall|k: Seq<Value>| #[trigger] is_edge(st.rels, k) implies is_edge(e.st.rels, k) || exists|j: int|
        0 <= j < cs.len() && stands_for(st.names, e.now, #[trigger] cs[j], ("edge"@, k)) by {
        supposed_state(x.0, x.1, ("edge"@, k));
        if !is_edge(e.st.rels, k) {
            let j = choose|j: int| 0 <= j < x.1.len() && #[trigger] x.1[j] == ("edge"@, k);
            assert(stands_for(x.0.st.names, e.now, cs[j], x.1[j - 0]));
            lemma_stands_later(x.0.st.names, st.names, e.now, cs[j], x.1[j]);
            assert(stands_for(st.names, e.now, cs[j], ("edge"@, k)));
        }
    }
    assert forall|k: Seq<Value>| #[trigger] is_edge(e.st.rels, k) implies is_edge(st.rels, k) by {
        supposed_state(x.0, x.1, ("edge"@, k));
    }
}

} // verus!

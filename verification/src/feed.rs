//! The change feed: replaying it keeps a projection in step with the store.

use vstd::prelude::*;
use crate::engine::{declared, ran, EngineV};
use crate::env::Bindings;
use crate::ast::TermV;
use crate::model::{facts, lemma_assert_facts};
use crate::query::since;
use crate::relation::{has_key, lemma_empty_wf, lemma_remove_keys, lemma_remove_wf, rel_remove, rel_wf, AnnV, FactV, KeyV, SupportV};
use crate::rules::{installed, uninstalled};
use crate::solve::{head_values, lemma_store_assert};
use crate::store::{change_epoch, holds, rels_wf, store_assert, store_clear, store_retract, ChangeV, RelsV, StoreV};
use crate::stratify::strata_error;
use crate::upkeep::{lemma_run_keeps, reseeded, run_end, upheld, with_names, with_rels, with_retracted};

verus! {

/// The facts of a predicate taken out of a set.
pub open spec fn without_pred(d: Set<KeyV>, p: Seq<char>) -> Set<KeyV> {
    d.filter(|k: KeyV| k.0 != p)
}

/// A projection after one event.
pub open spec fn replay_one(d: Set<KeyV>, c: ChangeV) -> Set<KeyV> {
    match c {
        ChangeV::Added(_, k) => d.insert(k),
        ChangeV::Retracted(_, k) => d.remove(k),
        ChangeV::Cleared(_, p) => without_pred(d, p),
    }
}

/// A projection after events, in turn.
pub open spec fn replay(d: Set<KeyV>, events: Seq<ChangeV>) -> Set<KeyV>
    decreases events.len(),
{
    if events.len() == 0 {
        d
    } else {
        replay_one(replay(d, events.drop_last()), events.last())
    }
}

/// A later store continues an earlier one: its feed goes on from there, dated
/// no earlier, and replaying what was added turns the earlier facts into the
/// later ones.
pub open spec fn continues(a: StoreV) -> spec_fn(StoreV) -> bool {
    |b: StoreV|
        {
            &&& rels_wf(b.rels)
            &&& a.feed.len() <= b.feed.len()
            &&& b.feed.take(a.feed.len() as int) == a.feed
            &&& a.epoch <= b.epoch
            &&& forall|i: int| a.feed.len() <= i < b.feed.len() ==> a.epoch <= change_epoch(#[trigger] b.feed[i])
            &&& replay(facts(a.rels), b.feed.skip(a.feed.len() as int)) == facts(b.rels)
        }
}

/// No event is dated after the epoch of the store.
pub open spec fn is_dated(st: StoreV) -> bool {
    forall|i: int| 0 <= i < st.feed.len() ==> change_epoch(#[trigger] st.feed[i]) <= st.epoch
}

/// All events are from earlier epochs.
pub open spec fn is_checkpoint(st: StoreV) -> bool {
    forall|i: int| 0 <= i < st.feed.len() ==> change_epoch(#[trigger] st.feed[i]) < st.epoch
}

// ------------------------------------------------------------------- changes

/// An event that does to a projection what was done to the facts keeps the
/// feed in step.
proof fn lemma_event(a: StoreV, b: StoreV, b2: StoreV, c: ChangeV)
    requires
        continues(a)(b),
        rels_wf(b2.rels),
        b2.feed == b.feed.push(c),
        b2.epoch == b.epoch,
        change_epoch(c) == b.epoch,
        facts(b2.rels) == replay_one(facts(b.rels), c),
    ensures
        continues(a)(b2),
{
    let n = a.feed.len() as int;
    let old_part = b.feed.skip(n);
    let new_part = b2.feed.skip(n);
    assert(b2.feed.take(n) =~= b.feed.take(n));
    assert(new_part =~= old_part.push(c));
    assert(new_part.drop_last() =~= old_part);
    assert(new_part.last() == c);
}

/// No event, no change.
proof fn lemma_no_event(a: StoreV, b: StoreV, b2: StoreV)
    requires
        continues(a)(b),
        rels_wf(b2.rels),
        b2.feed == b.feed,
        b2.epoch == b.epoch,
        facts(b2.rels) == facts(b.rels),
    ensures
        continues(a)(b2),
{
}

proof fn lemma_asserting(a: StoreV, b: StoreV, k: KeyV, f: FactV)
    requires
        continues(a)(b),
    ensures
        continues(a)(store_assert(b, k, f)),
{
    let b2 = store_assert(b, k, f);
    lemma_store_assert(b, k, f);
    lemma_assert_facts(b, k, f);
    if holds(b.rels, k) {
        assert(facts(b2.rels) =~= facts(b.rels));
        lemma_no_event(a, b, b2);
    } else {
        assert(facts(b2.rels) =~= facts(b.rels).insert(k));
        lemma_event(a, b, b2, ChangeV::Added(b.epoch, k));
    }
}

/// Retracting a fact takes it out.
pub proof fn lemma_retract_facts(b: StoreV, k: KeyV)
    requires
        rels_wf(b.rels),
    ensures
        rels_wf(store_retract(b, k).rels),
        facts(store_retract(b, k).rels) == facts(b.rels).remove(k),
{
    let b2 = store_retract(b, k);
    if b.rels.contains_key(k.0) {
        lemma_remove_wf(b.rels[k.0], k.1);
        let r = rel_remove(b.rels[k.0], k.1);
        assert(b2.rels[k.0].rows == r.rows && b2.rels[k.0].idx == r.idx);
        assert forall|j: KeyV| #[trigger] holds(b2.rels, j) <==> holds(b.rels, j) && j != k by {
            if j.0 == k.0 {
                lemma_remove_keys(b.rels[k.0], k.1, j.1);
                assert(has_key(b2.rels[k.0], j.1) <==> has_key(r, j.1));
            }
        }
    }
    assert(facts(b2.rels) =~= facts(b.rels).remove(k));
}

proof fn lemma_retracting(a: StoreV, b: StoreV, k: KeyV)
    requires
        continues(a)(b),
    ensures
        continues(a)(store_retract(b, k)),
{
    let b2 = store_retract(b, k);
    lemma_retract_facts(b, k);
    if holds(b.rels, k) {
        lemma_event(a, b, b2, ChangeV::Retracted(b.epoch, k));
    } else {
        assert(facts(b.rels).remove(k) =~= facts(b.rels));
        lemma_no_event(a, b, b2);
    }
}

proof fn lemma_clearing(a: StoreV, b: StoreV, n: Seq<char>)
    requires
        continues(a)(b),
    ensures
        continues(a)(store_clear(b, n)),
{
    let b2 = store_clear(b, n);
    lemma_empty_wf();
    if b.rels.contains_key(n) {
        assert forall|j: KeyV| #[trigger] holds(b2.rels, j) <==> holds(b.rels, j) && j.0 != n by {}
        assert(facts(b2.rels) =~= without_pred(facts(b.rels), n));
        if b.rels[n].rows.len() > 0 {
            lemma_event(a, b, b2, ChangeV::Cleared(b.epoch, n));
        } else {
            assert(without_pred(facts(b.rels), n) =~= facts(b.rels));
            lemma_no_event(a, b, b2);
        }
    }
}

proof fn lemma_reseeding(a: StoreV, b: StoreV, rels: RelsV)
    requires
        continues(a)(b),
        reseeded(b.rels, rels),
    ensures
        continues(a)(with_rels(b, rels)),
{
    assert forall|j: KeyV| #[trigger] holds(rels, j) <==> holds(b.rels, j) by {
        assert(rels.contains_key(j.0) <==> b.rels.contains_key(j.0));
    }
    assert(facts(rels) =~= facts(b.rels));
    assert forall|n: Seq<char>| #[trigger] rels.contains_key(n) implies rel_wf(rels[n]) by {
        assert(b.rels.contains_key(n));
    }
    lemma_no_event(a, b, with_rels(b, rels));
}

/// The single changes of a store keep its feed in step.
proof fn lemma_continues_upheld(a: StoreV)
    ensures
        upheld(continues(a)),
{
    let p = continues(a);
    assert forall|st: StoreV, args: Seq<TermV>, map: Bindings| p(st) implies #[trigger] p(
        with_names(st, head_values(st.names, args, map).0),
    ) by {}
    assert forall|st: StoreV, k: KeyV, f: FactV| p(st) && f.supports.len() == 1 implies #[trigger] p(store_assert(st, k, f)) by {
        lemma_asserting(a, st, k, f);
    }
    assert forall|st: StoreV, k: KeyV| p(st) implies #[trigger] p(store_retract(st, k)) by {
        lemma_retracting(a, st, k);
    }
    assert forall|st: StoreV, n: Seq<char>| p(st) implies #[trigger] p(store_clear(st, n)) by {
        lemma_clearing(a, st, n);
    }
    assert forall|st: StoreV, rels: RelsV| p(st) && reseeded(st.rels, rels) implies #[trigger] p(with_rels(st, rels)) by {
        lemma_reseeding(a, st, rels);
    }
    assert forall|st: StoreV, r: Set<Seq<char>>| p(st) implies #[trigger] p(with_retracted(st, r)) by {}
}

/// Law: the feed records every change. A store continues itself, and still
/// continues an earlier one after a fact is declared or retracted and after a
/// run.
pub proof fn feed_continues(a: StoreV, e: EngineV, k: KeyV, ann: AnnV)
    requires
        continues(a)(e.st),
        e.st.epoch < u64::MAX,
    ensures
        rels_wf(a.rels) ==> continues(a)(a),
        continues(a)(declared(e.st, k, ann)),
        continues(a)(store_retract(e.st, k)),
        continues(a)(ran(e).0.st),
{
    if rels_wf(a.rels) {
        assert(a.feed.take(a.feed.len() as int) =~= a.feed);
        assert(a.feed.skip(a.feed.len() as int) =~= Seq::empty());
    }
    lemma_asserting(a, e.st, k, FactV { ann, supports: seq![SupportV::Base] });
    lemma_retracting(a, e.st, k);
    lemma_continues_upheld(a);
    lemma_run_keeps(continues(a), e);
    lemma_epoch_upheld(e.st.epoch);
    lemma_run_keeps(in_epoch(e.st.epoch), e);
    assert(in_epoch(e.st.epoch)(run_end(e)));
}

/// The epoch of a store.
spec fn in_epoch(c: u64) -> spec_fn(StoreV) -> bool {
    |st: StoreV| st.epoch == c
}

proof fn lemma_epoch_upheld(c: u64)
    ensures
        upheld(in_epoch(c)),
{
}

// --------------------------------------------------------------- checkpoints

spec fn dated_in(c: u64) -> spec_fn(StoreV) -> bool {
    |st: StoreV| st.epoch == c && is_dated(st)
}

proof fn lemma_dated_upheld(c: u64)
    ensures
        upheld(dated_in(c)),
{
    let p = dated_in(c);
    assert forall|st: StoreV, k: KeyV, f: FactV| p(st) && f.supports.len() == 1 implies #[trigger] p(store_assert(st, k, f)) by {
        let b = store_assert(st, k, f);
        assert forall|i: int| 0 <= i < b.feed.len() implies change_epoch(#[trigger] b.feed[i]) <= b.epoch by {
            if i < st.feed.len() {
                assert(b.feed[i] == st.feed[i]);
            }
        }
    }
    assert forall|st: StoreV, k: KeyV| p(st) implies #[trigger] p(store_retract(st, k)) by {
        let b = store_retract(st, k);
        assert forall|i: int| 0 <= i < b.feed.len() implies change_epoch(#[trigger] b.feed[i]) <= b.epoch by {
            if i < st.feed.len() {
                assert(b.feed[i] == st.feed[i]);
            }
        }
    }
    assert forall|st: StoreV, n: Seq<char>| p(st) implies #[trigger] p(store_clear(st, n)) by {
        let b = store_clear(st, n);
        assert forall|i: int| 0 <= i < b.feed.len() implies change_epoch(#[trigger] b.feed[i]) <= b.epoch by {
            if i < st.feed.len() {
                assert(b.feed[i] == st.feed[i]);
            }
        }
    }
}

/// Law: the end of a run is a checkpoint. Every event so far is from an
/// earlier epoch than the one that begins.
pub proof fn run_is_checkpoint(e: EngineV)
    requires
        is_dated(e.st),
        e.st.epoch < u64::MAX,
        strata_error(e.clauses) is None,
    ensures
        is_checkpoint(ran(e).0.st),
        is_dated(ran(e).0.st),
{
    lemma_dated_upheld(e.st.epoch);
    assert(dated_in(e.st.epoch)(e.st));
    lemma_run_keeps(dated_in(e.st.epoch), e);
    let r = run_end(e);
    assert(dated_in(e.st.epoch)(r));
    assert forall|i: int| 0 <= i < r.feed.len() implies change_epoch(#[trigger] r.feed[i]) <= e.st.epoch by {}
}

proof fn lemma_filter_split(events: Seq<ChangeV>, n: int, f: spec_fn(ChangeV) -> bool)
    requires
        0 <= n <= events.len(),
        forall|i: int| 0 <= i < n ==> !f(#[trigger] events[i]),
        forall|i: int| n <= i < events.len() ==> f(#[trigger] events[i]),
    ensures
        events.filter(f) == events.skip(n),
    decreases events.len(),
{
    reveal(Seq::filter);
    if events.len() > 0 {
        let d = events.drop_last();
        if n < events.len() {
            lemma_filter_split(d, n, f);
            assert(events.skip(n) =~= d.skip(n).push(events.last()));
        } else {
            lemma_filter_split(d, n - 1, f);
            assert(d.skip(n - 1) =~= events.skip(n));
        }
    } else {
        assert(events.skip(n) =~= events);
    }
}

/// Law: asking for the changes since a checkpoint gives every event after it
/// and no other, and replaying them turns the facts of the checkpoint into
/// the present ones.
pub proof fn changes_keep_in_step(a: StoreV, b: StoreV)
    requires
        is_checkpoint(a),
        continues(a)(b),
    ensures
        b.feed.filter(since(a.epoch)) == b.feed.skip(a.feed.len() as int),
        replay(facts(a.rels), b.feed.filter(since(a.epoch))) == facts(b.rels),
{
    let n = a.feed.len() as int;
    assert forall|i: int| 0 <= i < n implies !since(a.epoch)(#[trigger] b.feed[i]) by {
        assert(b.feed.take(n)[i] == a.feed[i]);
    }
    lemma_filter_split(b.feed, n, since(a.epoch));
}

// --------------------------------------------------------------------- calls

/// What may be asked of an engine between two looks at the feed.
pub enum CallV {
    Declare(KeyV, AnnV),
    Retract(KeyV),
    Install(Seq<char>),
    Uninstall(Seq<char>),
    Advance(i64),
    Run,
}

/// An engine after one call. A batch that is refused changes nothing.
pub open spec fn after_call(e: EngineV, call: CallV) -> EngineV {
    match call {
        CallV::Declare(k, ann) => EngineV { st: declared(e.st, k, ann), ..e },
        CallV::Retract(k) => EngineV { st: store_retract(e.st, k), ..e },
        CallV::Install(src) => match installed(e, src) {
            Ok(x) => x,
            Err(_) => e,
        },
        CallV::Uninstall(id) => uninstalled(e, id),
        CallV::Advance(now) => EngineV { now, ..e },
        CallV::Run => ran(e).0,
    }
}

/// An engine after calls, in turn.
pub open spec fn after_calls(e: EngineV, calls: Seq<CallV>) -> EngineV
    decreases calls.len(),
{
    if calls.len() == 0 {
        e
    } else {
        after_call(after_calls(e, calls.drop_last()), calls.last())
    }
}

/// A call begins one epoch at most.
proof fn lemma_call_epoch(e: EngineV, call: CallV)
    ensures
        after_call(e, call).st.epoch <= e.st.epoch + 1,
{
    match call {
        CallV::Declare(k, ann) => {
            lemma_epoch_upheld(e.st.epoch);
            assert(in_epoch(e.st.epoch)(e.st));
        },
        CallV::Run => {
            lemma_epoch_upheld(e.st.epoch);
            assert(in_epoch(e.st.epoch)(e.st));
            lemma_run_keeps(in_epoch(e.st.epoch), e);
            assert(in_epoch(e.st.epoch)(run_end(e)));
        },
        _ => {},
    }
}

proof fn lemma_calls(a: StoreV, e: EngineV, calls: Seq<CallV>)
    requires
        continues(a)(e.st),
        e.st.epoch + calls.len() <= u64::MAX,
    ensures
        continues(a)(after_calls(e, calls).st),
        after_calls(e, calls).st.epoch <= e.st.epoch + calls.len(),
    decreases calls.len(),
{
    if calls.len() > 0 {
        let x = after_calls(e, calls.drop_last());
        lemma_calls(a, e, calls.drop_last());
        lemma_call_epoch(x, calls.last());
        match calls.last() {
            CallV::Declare(k, ann) => feed_continues(a, x, k, ann),
            CallV::Retract(k) => feed_continues(a, x, k, crate::relation::ann_unit()),
            CallV::Run => feed_continues(a, x, (Seq::empty(), Seq::empty()), crate::relation::ann_unit()),
            _ => {},
        }
    }
}

/// Law: after any calls, asking for the changes since a checkpoint gives what
/// happened after it, and replaying that turns the facts of the checkpoint
/// into the present ones.
pub proof fn replay_keeps_in_step(e: EngineV, calls: Seq<CallV>)
    requires
        rels_wf(e.st.rels),
        is_checkpoint(e.st),
        e.st.epoch + calls.len() <= u64::MAX,
    ensures
        ({
            let now = after_calls(e, calls).st;
            &&& now.feed.filter(since(e.st.epoch)) == now.feed.skip(e.st.feed.len() as int)
            &&& replay(facts(e.st.rels), now.feed.filter(since(e.st.epoch))) == facts(now.rels)
        }),
{
    assert(e.st.feed.take(e.st.feed.len() as int) =~= e.st.feed);
    assert(e.st.feed.skip(e.st.feed.len() as int) =~= Seq::empty());
    lemma_calls(e.st, e, calls);
    changes_keep_in_step(e.st, after_calls(e, calls).st);
}

} // verus!

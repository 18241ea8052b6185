//! Turns: an episode is taken in, the memory is maintained, and what was asked
//! leaves the memory as it was.

use vstd::prelude::*;
use crate::agent::{begun, ingested, maintained, news_of, next_episode, MemoryV};
use crate::ast::{AtomV, ClauseV};
use crate::canonical::seeded;
use crate::confidence::clamp;
use crate::demand::{after_demand, created_rows};
use crate::engine::{declared, engine_wf, eval_strata, prepared, ran, stale_readers, EngineV};
use crate::evaluate::{counted, eval_stratum_of, indices_of, is_temp};
use crate::extract::NINE_TENTHS;
use crate::frame::{lemma_stratum_touches, run_keeps_base, same_facts, writes_in, written_preds};
use crate::history::{batch_applied, edge_named, edge_note, edges_formed, has_edge};
use crate::intern::{intern_reads_back, interned, shown, with_name};
use crate::notes::{height, lemma_assert_notes};
use crate::policy::{applied_all, report_new, with_symbol, ReportV};
use crate::protocol::{reported, CandV};
use crate::query::{fact_text, logged_from};
use crate::readings::{changes_complete, is_selection, is_since, lemma_selection};
use crate::relation::{ann_unit, FactV, KeyV, SupportV};
use crate::server::{argument_values, context_budget, observe_tool, truncated};
use crate::solve::lemma_prefix_trans;
use crate::store::{holds, rels_wf, RelsV, StoreV};
use crate::stratify::{strata_error, strata_of};
use crate::text::{lemma_nat_text, nat_text, parsed_int};
use crate::value::Value;

verus! {

// ------------------------------------------------------------------- episodes

proof fn lemma_escalations(e: EngineV, cs: Seq<CandV>, source: Seq<char>, rep: ReportV, i: int)
    ensures
        rep.escalations.is_prefix_of(applied_all(e, cs, source, rep, i).1.escalations),
    decreases cs.len() - i,
{
    if 0 <= i < cs.len() {
        let r = crate::policy::applied(e, cs[i], source, rep);
        let all = applied_all(e, cs, source, rep, i).1.escalations;
        lemma_escalations(r.0, cs, source, r.1, i + 1);
        assert(rep.escalations.is_prefix_of(r.1.escalations));
        assert forall|x: int| 0 <= x < rep.escalations.len() implies rep.escalations[x] == all[x] by {
            assert(r.1.escalations[x] == all[x]);
        }
        assert(rep.escalations =~= all.subrange(0, rep.escalations.len() as int));
    }
}

/// Law: an episode is kept as it was told, behind the ones before it, under an id
/// that no episode before it has; each of its facts has an edge, that of the last
/// with the episode among its sources; and what it escalates is added to what
/// stands.
pub proof fn episode_taken_in(m: MemoryV, text: Seq<char>, ts: i64, speaker: Option<Seq<char>>, facts: Seq<CandV>)
    requires
        rels_wf(m.engine.st.rels),
        edges_formed(m.engine.st.rels),
        ts != i64::MAX,
        m.counter < u64::MAX,
        ingested(begun(m, ts), next_episode(m, text, ts, speaker), facts).0.engine.st.names.len() < usize::MAX,
    ensures
        ({
            let x = ingested(begun(m, ts), next_episode(m, text, ts, speaker), facts);
            let r = x.0;
            let ep = r.episodes.last();
            &&& r.episodes.len() == m.episodes.len() + 1
            &&& forall|i: int| 0 <= i < m.episodes.len() ==> #[trigger] r.episodes[i] == m.episodes[i]
            &&& ep.text == text && ep.ts == ts && ep.speaker == speaker
            &&& r.counter == m.counter + 1
            &&& forall|n: nat| n <= m.counter ==> ep.id != "ep"@ + #[trigger] nat_text(n)
            &&& forall|j: int| 0 <= j < facts.len() ==> has_edge(r.engine.st, #[trigger] facts[j])
            &&& facts.len() > 0 ==> exists|k: Seq<Value>| #[trigger]
                edge_named(r.engine.st, facts.last(), k) && k[4] == Value::Int(i64::MAX) && edge_note(r.engine.st.rels, k).prov.contains(
                    ep.id,
                ) && height(edge_note(r.engine.st.rels, k).conf) >= height(clamp(facts.last().confidence))
            &&& r.escalations == m.escalations + x.1.escalations
            &&& r.rules == m.rules && r.dynamic == m.dynamic && r.hyps == m.hyps && r.turn == m.turn
        }),
{
    let b = begun(m, ts);
    let ep = next_episode(m, text, ts, speaker);
    let n1 = (m.counter + 1) as nat;
    batch_applied(b.engine, facts, ep.id, report_new(), 0);
    lemma_nat_text(n1);
    assert forall|n: nat| n <= m.counter implies ep.id != "ep"@ + #[trigger] nat_text(n) by {
        lemma_nat_text(n);
        let x = "ep"@ + nat_text(n);
        let y = "ep"@ + nat_text(n1);
        if x == y {
            assert(x.skip("ep"@.len() as int) =~= nat_text(n));
            assert(y.skip("ep"@.len() as int) =~= nat_text(n1));
        }
    }
}

/// Law: escalations are never dropped. What a batch was given to report stays in
/// front of what it adds.
pub proof fn escalations_kept(e: EngineV, cs: Seq<CandV>, source: Seq<char>, rep: ReportV, i: int)
    ensures
        rep.escalations.is_prefix_of(applied_all(e, cs, source, rep, i).1.escalations),
{
    lemma_escalations(e, cs, source, rep, i);
}

/// Law: what is observed is there afterwards. Each fact of a text that is kept
/// has an edge once the memory was maintained, that of the last open, with the
/// episode among its sources. No rule derives edges.
pub proof fn observed_facts_found(m: MemoryV, text: Seq<char>, ts: i64, j: int)
    requires
        engine_wf(m.engine),
        edges_formed(m.engine.st.rels),
        ts != i64::MAX,
        m.counter < u64::MAX,
        0 <= j < reported(text, NINE_TENTHS).0.len(),
        ({
            let y = ingested(begun(m, ts), next_episode(m, text, ts, None), reported(text, NINE_TENTHS).0).0;
            &&& engine_wf(y.engine)
            &&& y.engine.ever.finite()
            &&& y.engine.clauses.len() <= usize::MAX
            &&& y.engine.st.names.len() < usize::MAX
            &&& !written_preds(EngineV { now: y.engine.now, ..y.engine }).contains("edge"@)
        }),
    ensures
        has_edge(observe_tool(m, text, Some(ts)).0.engine.st, reported(text, NINE_TENTHS).0[j]),
        !observe_tool(m, text, Some(ts)).1.is_error,
        observe_tool(m, text, Some(ts)).0.episodes.last().text == text,
{
    let cs = reported(text, NINE_TENTHS).0;
    let y = ingested(begun(m, ts), next_episode(m, text, ts, None), cs).0;
    let e = EngineV { now: y.engine.now, ..y.engine };
    episode_taken_in(m, text, ts, None, cs);
    run_keeps_base(e);
    let r = ran(e).0.st;
    assert(has_edge(y.engine.st, cs[j]));
    let k = choose|k: Seq<Value>| #[trigger] edge_named(y.engine.st, cs[j], k);
    assert(same_facts(e.st.rels, r.rels, "edge"@));
    assert forall|i: int| 0 <= i < e.st.names.len() implies e.st.names[i] == r.names[i] by {}
    assert(edge_named(r, cs[j], k));
}

/// Law: the budget of a context that is asked for is what was asked, at least
/// fifty tokens, and a thousand where nothing was.
pub proof fn budgets_mean(n: i64)
    ensures
        context_budget(None) == 1000,
        n < 50 ==> context_budget(Some(n)) == 50,
        50 <= n <= usize::MAX ==> context_budget(Some(n)) == n,
        n > usize::MAX ==> context_budget(Some(n)) == usize::MAX,
{
}

// ---------------------------------------------------------------- maintenance

/// Law: maintenance is a run at the given time. It keeps the episodes, the
/// escalations and the rules, and what is logged from then on is news.
pub proof fn maintenance_runs(m: MemoryV, now: i64)
    ensures
        ({
            let r = maintained(m, now).0;
            &&& r.engine == ran(EngineV { now, ..m.engine }).0
            &&& maintained(m, now).1 == ran(EngineV { now, ..m.engine }).1
            &&& r.engine.now == now
            &&& r.engine.clauses == m.engine.clauses
            &&& r.engine.batches == m.engine.batches
            &&& r.turn == m.engine.st.epoch
            &&& r.episodes == m.episodes
            &&& r.escalations == m.escalations
            &&& r.counter == m.counter
            &&& r.rules == m.rules
            &&& r.dynamic == m.dynamic
            &&& r.hyps == m.hyps
        }),
{
}

/// Law: the news are the facts logged since the last turn, in order, up to
/// twenty.
pub proof fn news_complete(m: MemoryV)
    ensures
        exists|at: Seq<int>| #[trigger]
            is_selection(at, m.engine.st.log.len() as int, is_since(m.engine.st.log, m.turn)) && news_of(m).len() == (if at.len() < 20 {
                at.len()
            } else {
                20
            }) && forall|x: int|
                0 <= x < news_of(m).len() ==> #[trigger] news_of(m)[x] == fact_text(
                    m.engine.st.names,
                    m.engine.st.log[at[x]].1.0,
                    m.engine.st.log[at[x]].1.1,
                ),
{
    let st = m.engine.st;
    let len = st.log.len() as int;
    changes_complete(st, m.turn);
    let at = choose|at: Seq<int>| #[trigger]
        is_selection(at, len, is_since(st.log, m.turn)) && logged_from(st.log, m.turn, len) == Seq::new(at.len(), |x: int| st.log[at[x]].1);
    assert(is_selection(at, len, is_since(st.log, m.turn)));
}

// --------------------------------------------------------------------- counts

/// Logged from a position on, and not of an intermediate relation.
pub open spec fn is_new_at(log: Seq<(u64, KeyV)>, from: int) -> spec_fn(int) -> bool {
    |i: int| from <= i && !is_temp(log[i].1.0)
}

proof fn lemma_counted(log: Seq<(u64, KeyV)>, from: int, n: int) -> (at: Seq<int>)
    requires
        0 <= from <= n <= log.len(),
    ensures
        is_selection(at, n, is_new_at(log, from)),
        at.len() == counted(log.subrange(from, n)),
    decreases n,
{
    if n == from {
        let at = Seq::<int>::empty();
        assert forall|i: int| #[trigger] at.contains(i) <==> 0 <= i < n && is_new_at(log, from)(i) by {}
        at
    } else {
        let b = lemma_counted(log, from, n - 1);
        lemma_selection(b, n - 1, is_new_at(log, from));
        let s = log.subrange(from, n);
        assert(s.drop_last() =~= log.subrange(from, n - 1));
        assert(s.last() == log[n - 1]);
        if is_temp(log[n - 1].1.0) {
            b
        } else {
            b.push(n - 1)
        }
    }
}

proof fn lemma_counted_adds(a: Seq<(u64, KeyV)>, b: Seq<(u64, KeyV)>)
    ensures
        counted(a + b) == counted(a) + counted(b),
    decreases b.len(),
{
    if b.len() > 0 {
        lemma_counted_adds(a, b.drop_last());
        assert((a + b).drop_last() =~= a + b.drop_last());
        assert((a + b).last() == b.last());
    } else {
        assert(a + b =~= a);
    }
}

proof fn lemma_strata_counted(st: StoreV, now: i64, cs: Seq<ClauseV>, strata: Seq<Seq<int>>, s: int)
    requires
        rels_wf(st.rels),
        0 <= s <= strata.len(),
        forall|i: int| 0 <= i < strata.len() ==> indices_of(#[trigger] strata[i], cs.len() as int),
    ensures
        ({
            let r = eval_strata(st, now, cs, strata, s);
            &&& st.log.is_prefix_of(r.st.log)
            &&& r.new == counted(r.st.log.skip(st.log.len() as int))
        }),
    decreases strata.len() - s,
{
    let r = eval_strata(st, now, cs, strata, s);
    let n = st.log.len() as int;
    if s < strata.len() {
        let e = eval_stratum_of(st, now, cs, strata[s]);
        let all = Set::<Seq<char>>::full();
        assert(writes_in(cs, all));
        lemma_stratum_touches(st, now, cs, strata[s], all);
        lemma_strata_counted(e.st, now, cs, strata, s + 1);
        let x = e.st.log.skip(n);
        let y = r.st.log.skip(e.st.log.len() as int);
        assert forall|i: int| 0 <= i < e.st.log.len() implies e.st.log[i] == r.st.log[i] by {}
        assert forall|i: int| 0 <= i < n implies st.log[i] == r.st.log[i] by {
            assert(st.log[i] == e.st.log[i]);
        }
        assert(st.log =~= r.st.log.subrange(0, n));
        assert(r.st.log.skip(n) =~= x + y);
        lemma_counted_adds(x, y);
    } else {
        assert(r.st.log.skip(n) =~= Seq::empty());
        assert(st.log =~= st.log.subrange(0, n));
    }
}

/// Law: a run counts the facts that it logs, but for those of intermediate
/// relations. It evaluates each stratum once: nothing was taken away, and no
/// negated predicate was added to.
pub proof fn run_counts(e: EngineV)
    requires
        rels_wf(prepared(e).st.rels),
        e.clauses.len() <= usize::MAX,
        strata_error(e.clauses) is None,
        ({
            let st = eval_strata(prepared(e).st, e.now, e.clauses, strata_of(e.clauses), 0).st;
            &&& st.retracted == Set::<Seq<char>>::empty()
            &&& stale_readers(st, e.clauses, e.mark) == Set::<Seq<char>>::empty()
        }),
    ensures
        exists|at: Seq<int>| #[trigger]
            is_selection(at, ran(e).0.st.log.len() as int, is_new_at(ran(e).0.st.log, prepared(e).st.log.len() as int)) && at.len() == ran(
                e,
            ).1,
{
    let p = prepared(e);
    let strata = strata_of(e.clauses);
    crate::stratify::strata_exist(e.clauses);
    crate::engine::lemma_strata_fit(e.clauses, strata);
    lemma_strata_counted(p.st, e.now, e.clauses, strata, 0);
    let log = ran(e).0.st.log;
    let from = p.st.log.len() as int;
    let at = lemma_counted(log, from, log.len() as int);
    assert(log.subrange(from, log.len() as int) =~= log.skip(from));
    assert(is_selection(at, log.len() as int, is_new_at(log, from)));
}

/// The facts of one store that another does not hold.
pub open spec fn added(a: RelsV, b: RelsV) -> Set<KeyV> {
    Set::new(|k: KeyV| holds(b, k) && !holds(a, k))
}

/// Law: seeding tells how many entities are new: as many as there are facts
/// afterwards that were not there, each that of an entity.
pub proof fn seeding_counts(e: EngineV, names: Seq<Seq<char>>, i: int)
    requires
        rels_wf(e.st.rels),
        0 <= i <= names.len(),
    ensures
        ({
            let r = seeded(e, names, i);
            &&& rels_wf(r.0.st.rels)
            &&& added(e.st.rels, r.0.st.rels).finite()
            &&& added(e.st.rels, r.0.st.rels).len() == r.1
            &&& forall|k: KeyV| #[trigger] holds(e.st.rels, k) ==> holds(r.0.st.rels, k)
            &&& forall|k: KeyV| #[trigger] added(e.st.rels, r.0.st.rels).contains(k) ==> k.0 == "entity"@ && k.1.len() == 1
        }),
    decreases names.len() - i,
{
    let r = seeded(e, names, i);
    if i < names.len() {
        let k: KeyV = ("entity"@, seq![Value::Sym(interned(e.st.names, names[i]))]);
        let e1 = with_symbol(e, names[i]);
        let next = EngineV { st: declared(e1.st, k, ann_unit()), ..e1 };
        lemma_assert_notes(e1.st, k, FactV { ann: ann_unit(), supports: seq![SupportV::Base] });
        seeding_counts(next, names, i + 1);
        let rest = added(next.st.rels, r.0.st.rels);
        let all = added(e.st.rels, r.0.st.rels);
        assert(holds(next.st.rels, k));
        assert forall|j: KeyV| #[trigger] holds(e.st.rels, j) implies holds(next.st.rels, j) by {
            if j != k {
                assert(holds(e1.st.rels, j));
            }
        }
        assert forall|j: KeyV| j != k && #[trigger] holds(next.st.rels, j) implies holds(e.st.rels, j) by {
            assert(holds(e1.st.rels, j));
        }
        if holds(e.st.rels, k) {
            assert(all =~= rest) by {
                assert forall|j: KeyV| all.contains(j) <==> rest.contains(j) by {}
            }
        } else {
            assert(!rest.contains(k));
            assert(all =~= rest.insert(k)) by {
                assert forall|j: KeyV| all.contains(j) <==> rest.insert(k).contains(j) by {}
            }
        }
    } else {
        assert(added(e.st.rels, r.0.st.rels) =~= Set::empty());
    }
}

/// Law: a text is cut only where it is too long, and then to its first
/// characters, with dots.
pub proof fn cuts_mean(s: Seq<char>, n: nat)
    ensures
        s.len() <= n ==> truncated(s, n) == s,
        s.len() > n ==> truncated(s, n) == s.subrange(0, n as int) + "..."@,
{
}

// --------------------------------------------------------------- deep queries

/// Law: a deep query leaves everything but the symbols, and the count of what it
/// derived, as it was.
pub proof fn asking_leaves(e: EngineV, goal: AtomV)
    ensures
        ({
            let f = after_demand(e, goal);
            &&& f.st.rels == e.st.rels
            &&& f.st.log == e.st.log
            &&& f.st.feed == e.st.feed
            &&& f.st.epoch == e.st.epoch
            &&& f.st.retracted == e.st.retracted
            &&& f.clauses == e.clauses
            &&& f.batches == e.batches
            &&& f.ever == e.ever
            &&& f.dirty == e.dirty
            &&& f.mark == e.mark
            &&& f.now == e.now
            &&& f.counter == e.counter
        }),
{
}

/// The lesser of a sum and the greatest count.
pub open spec fn capped(n: nat) -> usize {
    if n > usize::MAX {
        usize::MAX
    } else {
        n as usize
    }
}

/// Law: what a deep query derived is counted relation by relation: those of two
/// lists are those of the one and of the other, and a relation counts with all
/// its rows where it was not there before.
pub proof fn derived_counted(m: RelsV, before: RelsV, a: Seq<Seq<char>>, b: Seq<Seq<char>>, p: Seq<char>)
    ensures
        created_rows(m, before, Seq::empty()) == 0,
        created_rows(m, before, seq![p]) == (if before.contains_key(p) {
            0
        } else {
            capped(m[p].rows.len())
        }),
        created_rows(m, before, a + b) == capped((created_rows(m, before, a) + created_rows(m, before, b)) as nat),
    decreases b.len(),
{
    assert(seq![p].drop_last() =~= Seq::empty());
    assert(created_rows(m, before, seq![p].drop_last()) == 0);
    if b.len() > 0 {
        derived_counted(m, before, a, b.drop_last(), p);
        assert((a + b).drop_last() =~= a + b.drop_last());
        assert((a + b).last() == b.last());
    } else {
        assert(a + b =~= a);
    }
}

// ------------------------------------------------------------------ arguments

/// A value is what an argument denotes: a number that it reads as, or else the
/// symbol that has it as its name.
pub open spec fn is_argument(names: Seq<Seq<char>>, t: Seq<char>, v: Value) -> bool {
    match parsed_int(t) {
        Some(n) => v == Value::Int(n),
        None => v is Sym && v->Sym_0.0 < names.len() && names[v->Sym_0.0 as int] == t,
    }
}

/// Law: each argument of a fact that is asked about gets its value, in order.
pub proof fn arguments_valued(e: EngineV, args: Seq<Seq<char>>, i: int, acc: Seq<Value>)
    requires
        0 <= i <= args.len(),
        argument_values(e, args, i, acc).0.st.names.len() < usize::MAX,
    ensures
        ({
            let r = argument_values(e, args, i, acc);
            &&& e.st.names.is_prefix_of(r.0.st.names)
            &&& r.0.st.rels == e.st.rels
            &&& r.1.len() == acc.len() + (args.len() - i)
            &&& forall|x: int| 0 <= x < acc.len() ==> r.1[x] == #[trigger] acc[x]
            &&& forall|j: int| i <= j < args.len() ==> is_argument(r.0.st.names, #[trigger] args[j], r.1[acc.len() + (j - i)])
        }),
    decreases args.len() - i,
{
    let r = argument_values(e, args, i, acc);
    if i >= args.len() {
        assert(e.st.names =~= e.st.names.subrange(0, e.st.names.len() as int));
    } else {
        let t = args[i];
        let names = e.st.names;
        let next = match parsed_int(t) {
            Some(n) => (e, acc.push(Value::Int(n))),
            None => (with_symbol(e, t), acc.push(Value::Sym(interned(names, t)))),
        };
        lemma_arguments_names(next.0, args, i + 1, next.1);
        arguments_valued(next.0, args, i + 1, next.1);
        assert(r.1[acc.len() as int] == next.1[acc.len() as int]);
        if parsed_int(t) is None {
            assert(names.len() <= with_name(names, t).len());
            intern_reads_back(names, t);
            assert(names =~= with_name(names, t).subrange(0, names.len() as int));
            lemma_prefix_trans(names, next.0.st.names, r.0.st.names);
            assert(shown(with_name(names, t), Value::Sym(interned(names, t))) == t);
            let s = interned(names, t);
            assert(s.0 < next.0.st.names.len());
            assert(r.0.st.names[s.0 as int] == next.0.st.names[s.0 as int]);
        }
        assert forall|j: int| i <= j < args.len() implies is_argument(r.0.st.names, #[trigger] args[j], r.1[acc.len() + (j - i)]) by {
            if j > i {
                assert(is_argument(r.0.st.names, args[j], r.1[next.1.len() + (j - (i + 1))]));
            }
        }
        assert forall|x: int| 0 <= x < acc.len() implies r.1[x] == #[trigger] acc[x] by {
            assert(next.1[x] == acc[x]);
        }
    }
}

proof fn lemma_arguments_names(e: EngineV, args: Seq<Seq<char>>, i: int, acc: Seq<Value>)
    ensures
        e.st.names.len() <= argument_values(e, args, i, acc).0.st.names.len(),
    decreases args.len() - i,
{
    if 0 <= i < args.len() {
        match parsed_int(args[i]) {
            Some(n) => {
                lemma_arguments_names(e, args, i + 1, acc.push(Value::Int(n)));
            },
            None => {
                lemma_arguments_names(
                    with_symbol(e, args[i]),
                    args,
                    i + 1,
                    acc.push(Value::Sym(interned(e.st.names, args[i]))),
                );
            },
        }
    }
}

} // verus!

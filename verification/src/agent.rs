//! Agent memory: an engine with extraction, episodes and escalations.

use vstd::prelude::*;
use vstd::string::StringExecFns;
use crate::ast::{opt_text, AtomV, ClauseV};
use crate::context::{assemble_citing, assemble_context, context_text, entities_in_query, episodes_on_query, query_text};
use crate::demand::{after_assuming, after_demand, deep_answers, demand_program, is_plain, ran_assuming};
use crate::engine::{engine_new, engine_wf, ran, BatchV, Engine, EngineV};
use crate::explain::why_text;
use crate::extract::{episodes_view, Episode, EpisodeV, Extractor, NINE_TENTHS};
use crate::intern::interned;
use crate::parser::{parse_program, parsed, ParseError};
use crate::policy::{apply_updates, applied_all, new_edge, report_new, with_symbol, IngestReport, ReportV};
use crate::protocol::{cands_view, drops_view, parse_protocol_reported, reported, CandV, CandidateFact};
use crate::query::{answers, fact_text, goal_of, ground_value, hits_view, logged_from, query_of, Hit};
use crate::relation::{keys_view, Key, KeyV};
use crate::rules::{installed, next_batch, uninstalled, batch_position, ProgramError, ProgramErrorV};
use crate::scan::{trim_text, trimmed};
use crate::stratify::strata_error;
use crate::text::{about_quoted, debug_form, nat_text, nat_to_text, str_eq, texts};
use crate::value::Value;

verus! {

/// The rules of every memory.
pub const DEFAULT_RULES: &'static str = "\
# temporal projection: what is true NOW
current(E,R,O) :- edge(E,R,O,VF,VT,_), now(T), VF =< T, T < VT.
# curated exclusivity table for the update policy
exclusive(\"works_at\").
# set-valued predicates: asserting another value is ordinary data, not a
# conflict \u{2014} the update policy does not escalate them.
set_valued(\"recommendation\").
set_valued(\"evidence\").
set_valued(\"includes\").
set_valued(\"located\").
";

/// Agent memory.
#[derive(Debug)]
pub struct AgentMemory<X: Extractor> {
    pub engine: Engine,
    pub extractor: X,
    pub episodes: Vec<Episode>,
    pub escalations: Vec<String>,
    pub episode_counter: u64,
    /// The epoch that the last completed maintenance began in.
    pub last_turn_epoch: u64,
    pub extra_rules: String,
    /// Rule batches installed after construction: id and source, in the order
    /// of installation.
    pub dynamic_rule_sources: Vec<(String, String)>,
    pub hyp_counter: u64,
}

/// The value of an [`AgentMemory`], without its extractor.
#[verifier::ext_equal]
pub struct MemoryV {
    pub engine: EngineV,
    pub episodes: Seq<EpisodeV>,
    pub escalations: Seq<Seq<char>>,
    pub counter: u64,
    pub turn: u64,
    pub rules: Seq<char>,
    pub dynamic: Seq<(Seq<char>, Seq<char>)>,
    pub hyps: u64,
}

pub open spec fn sources_view(s: Seq<(String, String)>) -> Seq<(Seq<char>, Seq<char>)> {
    s.map_values(|p: (String, String)| (p.0@, p.1@))
}

impl<X: Extractor> View for AgentMemory<X> {
    type V = MemoryV;

    open spec fn view(&self) -> MemoryV {
        MemoryV {
            engine: self.engine@,
            episodes: episodes_view(self.episodes@),
            escalations: texts(self.escalations@),
            counter: self.episode_counter,
            turn: self.last_turn_epoch,
            rules: self.extra_rules@,
            dynamic: sources_view(self.dynamic_rule_sources@),
            hyps: self.hyp_counter,
        }
    }
}

/// The engine of a memory with the given rules besides the default ones.
pub open spec fn fresh_engine(extra: Seq<char>) -> Result<EngineV, ProgramErrorV> {
    match installed(engine_new(), DEFAULT_RULES@) {
        Err(e) => Err(e),
        Ok(e) => if trimmed(extra).len() == 0 {
            Ok(e)
        } else {
            installed(e, extra)
        },
    }
}

/// A memory around an engine, with nothing observed.
pub open spec fn memory_of(engine: EngineV, extra: Seq<char>) -> MemoryV {
    MemoryV {
        engine,
        episodes: Seq::empty(),
        escalations: Seq::empty(),
        counter: 0,
        turn: 0,
        rules: extra,
        dynamic: Seq::empty(),
        hyps: 0,
    }
}

// ------------------------------------------------------------ observation

/// The memory when an episode begins.
pub open spec fn begun(m: MemoryV, ts: i64) -> MemoryV {
    MemoryV { engine: EngineV { now: ts, ..m.engine }, counter: m.counter.wrapping_add(1), ..m }
}

/// The next episode.
pub open spec fn next_episode(m: MemoryV, text: Seq<char>, ts: i64, speaker: Option<Seq<char>>) -> EpisodeV {
    EpisodeV { id: "ep"@ + nat_text(m.counter.wrapping_add(1) as nat), text, ts, speaker }
}

/// The memory and the report after an episode with the given facts.
pub open spec fn ingested(m: MemoryV, ep: EpisodeV, facts: Seq<CandV>) -> (MemoryV, ReportV) {
    let r = applied_all(m.engine, facts, ep.id, report_new(), 0);
    (
        MemoryV {
            engine: r.0,
            episodes: m.episodes.push(ep),
            escalations: m.escalations + r.1.escalations,
            ..m
        },
        r.1,
    )
}

// ------------------------------------------------------------------ rules

/// The first batch with a source, from `i` on.
pub open spec fn batch_with(bs: Seq<BatchV>, src: Seq<char>, i: int) -> Option<int>
    decreases bs.len() - i,
{
    if i < 0 || i >= bs.len() {
        None
    } else if bs[i].1 == src {
        Some(i)
    } else {
        batch_with(bs, src, i + 1)
    }
}

/// Installing a batch: the memory after it and the batch's id, or why it was
/// rejected. A source that is installed already stays as it is.
pub open spec fn rules_installed(m: MemoryV, src: Seq<char>) -> Result<(MemoryV, Seq<char>), ProgramErrorV> {
    match batch_with(m.engine.batches, src, 0) {
        Some(i) => Ok((m, m.engine.batches[i].0)),
        None => match installed(m.engine, src) {
            Err(e) => Err(e),
            Ok(e) => {
                let id = next_batch(m.engine.counter);
                Ok((MemoryV { engine: e, dynamic: m.dynamic.push((id, src)), ..m }, id))
            },
        },
    }
}

pub open spec fn other_batch(id: Seq<char>) -> spec_fn((Seq<char>, Seq<char>)) -> bool {
    |p: (Seq<char>, Seq<char>)| p.0 != id
}

/// The memory after uninstalling a batch.
pub open spec fn rules_uninstalled(m: MemoryV, id: Seq<char>) -> MemoryV {
    if batch_position(m.engine.batches, id, 0) is Some {
        MemoryV { engine: uninstalled(m.engine, id), dynamic: m.dynamic.filter(other_batch(id)), ..m }
    } else {
        m
    }
}

// ---------------------------------------------------------------- queries

/// The memory and the count of new facts after a maintenance run.
pub open spec fn maintained(m: MemoryV, now: i64) -> (MemoryV, nat) {
    let r = ran(EngineV { now, ..m.engine });
    (MemoryV { engine: r.0, turn: m.engine.st.epoch, ..m }, r.1)
}

/// The memory when a hypothetical episode begins.
pub open spec fn supposing(m: MemoryV) -> MemoryV {
    MemoryV { hyps: m.hyps.wrapping_add(1), ..m }
}

/// The next hypothetical episode. Its id is never that of an observed one.
pub open spec fn next_supposed(m: MemoryV, text: Seq<char>) -> EpisodeV {
    EpisodeV { id: "hyp"@ + nat_text(m.hyps.wrapping_add(1) as nat), text, ts: m.engine.now, speaker: None }
}

/// The edges that candidates stand for, from position `i` on, and the engine
/// with their symbols.
pub open spec fn edges_for(e: EngineV, cs: Seq<CandV>, i: int) -> (EngineV, Seq<KeyV>)
    decreases cs.len() - i,
{
    if i < 0 || i >= cs.len() {
        (e, Seq::empty())
    } else {
        let s = Value::Sym(interned(e.st.names, cs[i].subj));
        let e1 = with_symbol(e, cs[i].subj);
        let p = Value::Sym(interned(e1.st.names, cs[i].pred));
        let e2 = with_symbol(e1, cs[i].pred);
        let o = Value::Sym(interned(e2.st.names, cs[i].obj));
        let e3 = with_symbol(e2, cs[i].obj);
        let rest = edges_for(e3, cs, i + 1);
        (rest.0, seq![("edge"@, new_edge(e, s, p, o))] + rest.1)
    }
}

/// What follows for a goal if the candidates were true: the answers, and the
/// engine after it, in which only symbols and the count of facts that would
/// be added are new.
pub open spec fn supposed(e: EngineV, cs: Seq<CandV>, goal: Seq<char>) -> Result<(EngineV, Seq<Seq<char>>), Seq<char>> {
    let x = edges_for(e, cs, 0);
    match goal_of("hypothetical"@, goal) {
        Err(m) => Err(m),
        Ok(a) => {
            let r = ran_assuming(x.0, x.1);
            Ok((after_assuming(x.0, r), answers(r.st, a)))
        },
    }
}

/// The edges that candidates stand for, with their symbols.
pub fn edges_of_candidates(engine: &mut Engine, cs: &Vec<CandidateFact>) -> (r: Vec<Key>)
    requires
        engine_wf(old(engine)@),
    ensures
        final(engine)@ == edges_for(old(engine)@, cands_view(cs@), 0).0,
        keys_view(r@) == edges_for(old(engine)@, cands_view(cs@), 0).1,
        engine_wf(final(engine)@),
{
    let ghost cv = cands_view(cs@);
    let ghost want = edges_for(engine@, cv, 0);
    let mut out: Vec<Key> = Vec::new();
    let mut i: usize = 0;
    assert(keys_view(out@) + want.1 =~= want.1);
    while i < cs.len()
        invariant
            i <= cs@.len(),
            cv == cands_view(cs@),
            engine_wf(engine@),
            want.0 == edges_for(engine@, cv, i as int).0,
            want.1 == keys_view(out@) + edges_for(engine@, cv, i as int).1,
        decreases cs@.len() - i,
    {
        let ghost e = engine@;
        let ghost before = keys_view(out@);
        assert(cv[i as int] == cs@[i as int]@);
        let now = engine.now;
        let s = engine.sym(cs[i].subj.as_str());
        let p = engine.sym(cs[i].pred.as_str());
        let o = engine.sym(cs[i].obj.as_str());
        let mut args: Vec<Value> = Vec::new();
        args.push(s);
        args.push(p);
        args.push(o);
        args.push(Value::Int(now));
        args.push(Value::Int(i64::MAX));
        args.push(Value::Int(now));
        let ghost k = ("edge"@, args@);
        assert(args@ =~= new_edge(e, s, p, o));
        out.push(("edge".to_owned(), args));
        proof {
            assert(keys_view(out@) =~= before.push(k));
            let rest = edges_for(engine@, cv, i + 1).1;
            assert(before + (seq![k] + rest) =~= before.push(k) + rest);
        }
        i += 1;
    }
    assert(keys_view(out@) + Seq::<KeyV>::empty() =~= keys_view(out@));
    out
}

/// What follows for a goal if the candidates were true: the answers and how
/// many facts would be added. The facts stay as they are.
pub fn suppose(engine: &mut Engine, cs: &Vec<CandidateFact>, goal: &str) -> (r: Result<(Vec<String>, usize), ParseError>)
    requires
        engine_wf(old(engine)@),
    ensures
        match r {
            Ok(x) => supposed(old(engine)@, cands_view(cs@), goal@) == Ok::<(EngineV, Seq<Seq<char>>), Seq<char>>(
                (final(engine)@, texts(x.0@)),
            ) && x.1 == final(engine)@.hypothetical,
            Err(e) => supposed(old(engine)@, cands_view(cs@), goal@) == Err::<(EngineV, Seq<Seq<char>>), Seq<char>>(e.0@)
                && final(engine)@ == edges_for(old(engine)@, cands_view(cs@), 0).0,
        },
        final(engine)@.st.rels == old(engine)@.st.rels,
        engine_wf(final(engine)@),
{
    proof {
        lemma_edges_for(engine@, cands_view(cs@), 0);
    }
    let extra = edges_of_candidates(engine, cs);
    match engine.hypothetical(&extra, goal) {
        Ok(rows) => Ok((rows, engine.last_hypothetical_facts)),
        Err(e) => Err(e),
    }
}

/// Making the symbols of candidates changes nothing else.
pub proof fn lemma_edges_for(e: EngineV, cs: Seq<CandV>, i: int)
    ensures
        edges_for(e, cs, i).0.st.rels == e.st.rels,
    decreases cs.len() - i,
{
    if 0 <= i < cs.len() {
        let e3 = with_symbol(with_symbol(with_symbol(e, cs[i].subj), cs[i].pred), cs[i].obj);
        lemma_edges_for(e3, cs, i + 1);
    }
}

/// The fact that a text states, with its arguments resolved.
pub open spec fn stated_fact(e: EngineV, c: ClauseV) -> Option<KeyV> {
    if exists|i: int| 0 <= i < c.head.args.len() && ground_value(e.st.names, #[trigger] c.head.args[i]) is None {
        None
    } else {
        Some((c.head.pred, Seq::new(c.head.args.len(), |i: int| ground_value(e.st.names, c.head.args[i])->Some_0)))
    }
}

/// The explanation of a fact given as text.
pub open spec fn why_answer(e: EngineV, fact: Seq<char>) -> Seq<char> {
    match parsed(fact + "."@) {
        Ok(cs) => if cs.len() == 1 {
            match stated_fact(e, cs[0]) {
                Some(k) => why_text(e.st, k),
                None => "why: "@ + fact + " contains variables"@,
            }
        } else {
            "why: cannot parse "@ + debug_form(fact)
        },
        Err(_) => "why: cannot parse "@ + debug_form(fact),
    }
}

/// The news: the first facts logged since the last turn, at most twenty.
pub open spec fn news_of(m: MemoryV) -> Seq<Seq<char>> {
    let all = logged_from(m.engine.st.log, m.turn, m.engine.st.log.len() as int);
    let n: int = if all.len() < 20 {
        all.len() as int
    } else {
        20
    };
    all.take(n).map_values(|k: KeyV| fact_text(m.engine.st.names, k.0, k.1))
}

fn name_with_number(prefix: &str, n: u64) -> (r: String)
    ensures
        r@ == prefix@ + nat_text(n as nat),
{
    let mut s = prefix.to_owned();
    let d = nat_to_text(n);
    s.append(d.as_str());
    s
}

impl<X: Extractor> AgentMemory<X> {
    /// A memory with the default rules and the given ones, or why the rules
    /// were rejected.
    pub fn new(extractor: X, extra_rules: &str) -> (r: Result<AgentMemory<X>, ProgramError>)
        ensures
            match r {
                Ok(m) => fresh_engine(extra_rules@) == Ok::<EngineV, ProgramErrorV>(m@.engine) && m@ == memory_of(
                    m@.engine,
                    extra_rules@,
                ) && m.extractor == extractor && engine_wf(m@.engine),
                Err(e) => fresh_engine(extra_rules@) == Err::<EngineV, ProgramErrorV>(e@),
            },
    {
        let mut engine = Engine::new();
        match engine.install_program(DEFAULT_RULES) {
            Ok(_) => {},
            Err(e) => {
                return Err(e);
            },
        }
        let t = trim_text(extra_rules);
        if !t.as_str().is_empty() {
            match engine.install_program(extra_rules) {
                Ok(_) => {},
                Err(e) => {
                    return Err(e);
                },
            }
        }
        let m = AgentMemory {
            engine,
            extractor,
            episodes: Vec::new(),
            escalations: Vec::new(),
            episode_counter: 0,
            last_turn_epoch: 0,
            extra_rules: extra_rules.to_owned(),
            dynamic_rule_sources: Vec::new(),
            hyp_counter: 0,
        };
        proof {
            assert(m@.episodes =~= Seq::empty());
            assert(m@.escalations =~= Seq::empty());
            assert(m@.dynamic =~= Seq::empty());
        }
        Ok(m)
    }

    /// Begins an episode: sets the clock and gives the episode its id.
    pub fn begin(&mut self, text: &str, ts: i64, speaker: Option<String>) -> (r: Episode)
        ensures
            final(self)@ == begun(old(self)@, ts),
            final(self).extractor == old(self).extractor,
            r@ == next_episode(old(self)@, text@, ts, opt_text(speaker)),
    {
        self.engine.set_now(ts);
        self.episode_counter = self.episode_counter.wrapping_add(1);
        Episode { id: name_with_number("ep", self.episode_counter), text: text.to_owned(), ts, speaker }
    }

    /// Ends an episode: applies its facts under the update policy.
    pub fn ingest(&mut self, episode: Episode, facts: &Vec<CandidateFact>) -> (r: IngestReport)
        requires
            engine_wf(old(self)@.engine),
        ensures
            final(self)@ == ingested(old(self)@, episode@, cands_view(facts@)).0,
            r@ == ingested(old(self)@, episode@, cands_view(facts@)).1,
            final(self).extractor == old(self).extractor,
            engine_wf(final(self)@.engine),
    {
        let ghost eps = self@.episodes;
        let ghost esc = self@.escalations;
        let report = apply_updates(&mut self.engine, facts, episode.id.as_str());
        let ghost ep = episode@;
        self.episodes.push(episode);
        assert(episodes_view(self.episodes@) =~= eps.push(ep));
        let ghost re = report@.escalations;
        let mut i: usize = 0;
        assert(esc + re.take(0) =~= esc);
        while i < report.escalations.len()
            invariant
                i <= report.escalations@.len(),
                re == texts(report.escalations@),
                texts(self.escalations@) == esc + re.take(i as int),
                self.extractor == old(self).extractor,
                episodes_view(self.episodes@) == eps.push(ep),
                self.engine@ == applied_all(old(self)@.engine, cands_view(facts@), ep.id, report_new(), 0).0,
                self.episode_counter == old(self).episode_counter,
                self.last_turn_epoch == old(self).last_turn_epoch,
                self.extra_rules == old(self).extra_rules,
                self.dynamic_rule_sources == old(self).dynamic_rule_sources,
                self.hyp_counter == old(self).hyp_counter,
            decreases report.escalations@.len() - i,
        {
            let e = report.escalations[i].clone();
            let ghost before = texts(self.escalations@);
            self.escalations.push(e);
            proof {
                assert(texts(self.escalations@) =~= before.push(e@));
                assert(esc + re.take(i + 1) =~= (esc + re.take(i as int)).push(e@));
            }
            i += 1;
        }
        assert(re.take(re.len() as int) =~= re);
        report
    }

    fn observe_episode(&mut self, text: &str, ts: i64, speaker: Option<String>) -> (r: IngestReport)
        requires
            engine_wf(old(self)@.engine),
        ensures
            exists|facts: Seq<CandV>|
                #![trigger ingested(begun(old(self)@, ts), next_episode(old(self)@, text@, ts, opt_text(speaker)), facts)]
                X::outcome(
                    old(self).extractor,
                    next_episode(old(self)@, text@, ts, opt_text(speaker)),
                    facts,
                    final(self).extractor,
                ) && (final(self)@, r@) == ingested(
                    begun(old(self)@, ts),
                    next_episode(old(self)@, text@, ts, opt_text(speaker)),
                    facts,
                ),
            engine_wf(final(self)@.engine),
    {
        let ghost m0 = self@;
        let ghost sp = opt_text(speaker);
        let episode = self.begin(text, ts, speaker);
        let ghost ep = episode@;
        let facts = self.extractor.extract(&episode);
        let ghost fv = cands_view(facts@);
        let ghost m1 = self@;
        assert(m1 == begun(m0, ts));
        let r = self.ingest(episode, &facts);
        assert((self@, r@) == ingested(begun(m0, ts), next_episode(m0, text@, ts, sp), fv));
        r
    }

    /// Observes an episode at the current time.
    pub fn observe(&mut self, text: &str) -> (r: IngestReport)
        requires
            engine_wf(old(self)@.engine),
        ensures
            exists|facts: Seq<CandV>|
                #![trigger ingested(
                    begun(old(self)@, old(self)@.engine.now),
                    next_episode(old(self)@, text@, old(self)@.engine.now, None),
                    facts,
                )]
                X::outcome(
                    old(self).extractor,
                    next_episode(old(self)@, text@, old(self)@.engine.now, None),
                    facts,
                    final(self).extractor,
                ) && (final(self)@, r@) == ingested(
                    begun(old(self)@, old(self)@.engine.now),
                    next_episode(old(self)@, text@, old(self)@.engine.now, None),
                    facts,
                ),
            engine_wf(final(self)@.engine),
    {
        let ts = self.engine.now;
        self.observe_episode(text, ts, None)
    }

    /// Observes an episode with a known speaker.
    pub fn observe_as(&mut self, text: &str, ts: i64, speaker: &str) -> (r: IngestReport)
        requires
            engine_wf(old(self)@.engine),
        ensures
            exists|facts: Seq<CandV>|
                #![trigger ingested(begun(old(self)@, ts), next_episode(old(self)@, text@, ts, Some(speaker@)), facts)]
                X::outcome(
                    old(self).extractor,
                    next_episode(old(self)@, text@, ts, Some(speaker@)),
                    facts,
                    final(self).extractor,
                ) && (final(self)@, r@) == ingested(
                    begun(old(self)@, ts),
                    next_episode(old(self)@, text@, ts, Some(speaker@)),
                    facts,
                ),
            engine_wf(final(self)@.engine),
    {
        self.observe_episode(text, ts, Some(speaker.to_owned()))
    }

    /// Observes an episode at a given time: from then on its facts hold, and
    /// then the facts that they supersede end.
    pub fn observe_at(&mut self, text: &str, ts: i64) -> (r: IngestReport)
        requires
            engine_wf(old(self)@.engine),
        ensures
            exists|facts: Seq<CandV>|
                #![trigger ingested(begun(old(self)@, ts), next_episode(old(self)@, text@, ts, None), facts)]
                X::outcome(
                    old(self).extractor,
                    next_episode(old(self)@, text@, ts, None),
                    facts,
                    final(self).extractor,
                ) && (final(self)@, r@) == ingested(begun(old(self)@, ts), next_episode(old(self)@, text@, ts, None), facts),
            engine_wf(final(self)@.engine),
    {
        self.observe_episode(text, ts, None)
    }

    /// Observes facts that the caller extracted, and reports the lines that
    /// were dropped.
    pub fn observe_extracted(&mut self, text: &str, ts: i64) -> (r: (IngestReport, Vec<(String, String)>))
        requires
            engine_wf(old(self)@.engine),
        ensures
            (final(self)@, r.0@) == ingested(
                begun(old(self)@, ts),
                next_episode(old(self)@, text@, ts, None),
                reported(text@, NINE_TENTHS).0,
            ),
            drops_view(r.1@) == reported(text@, NINE_TENTHS).1,
            final(self).extractor == old(self).extractor,
            engine_wf(final(self)@.engine),
    {
        let (facts, dropped) = parse_protocol_reported(text, NINE_TENTHS);
        let episode = self.begin(text, ts, None);
        let r = self.ingest(episode, &facts);
        (r, dropped)
    }

    /// Sets the clock and runs the rules. Gives the number of new facts.
    pub fn maintain(&mut self, now: i64) -> (r: usize)
        requires
            engine_wf(old(self)@.engine),
        ensures
            final(self)@ == maintained(old(self)@, now).0,
            r == maintained(old(self)@, now).1,
            final(self).extractor == old(self).extractor,
            engine_wf(final(self)@.engine),
    {
        self.engine.set_now(now);
        self.last_turn_epoch = self.engine.epoch();
        self.engine.run()
    }

    /// The conflicts that wait for a decision.
    pub fn escalations(&self) -> (r: &Vec<String>)
        ensures
            texts(r@) == self@.escalations,
    {
        &self.escalations
    }

    /// Dismisses an escalation, if there is one at the index.
    pub fn resolve_escalation(&mut self, idx: usize)
        ensures
            final(self)@ == (MemoryV {
                escalations: if idx < old(self)@.escalations.len() {
                    old(self)@.escalations.remove(idx as int)
                } else {
                    old(self)@.escalations
                },
                ..old(self)@
            }),
            final(self).extractor == old(self).extractor,
    {
        let ghost esc = self@.escalations;
        if idx < self.escalations.len() {
            self.escalations.remove(idx);
            assert(texts(self.escalations@) =~= esc.remove(idx as int));
        }
    }

    /// The bindings for a goal atom, or why it cannot be read.
    pub fn ask(&self, goal: &str) -> (r: Result<Vec<String>, ParseError>)
        requires
            engine_wf(self@.engine),
        ensures
            match r {
                Ok(rows) => goal_of("ask"@, goal@) is Ok && texts(rows@) == answers(
                    self@.engine.st,
                    goal_of("ask"@, goal@)->Ok_0,
                ),
                Err(e) => goal_of("ask"@, goal@) == Err::<AtomV, Seq<char>>(e.0@),
            },
    {
        self.engine.ask(goal)
    }

    /// Installs a rule batch and remembers its source. Installing the same
    /// source again changes nothing and gives the same id.
    pub fn install_rules(&mut self, src: &str) -> (r: Result<String, ProgramError>)
        ensures
            match r {
                Ok(id) => rules_installed(old(self)@, src@) == Ok::<(MemoryV, Seq<char>), ProgramErrorV>(
                    (final(self)@, id@),
                ),
                Err(e) => rules_installed(old(self)@, src@) == Err::<(MemoryV, Seq<char>), ProgramErrorV>(e@)
                    && final(self)@ == old(self)@,
            },
            final(self).extractor == old(self).extractor,
            engine_wf(old(self)@.engine) ==> engine_wf(final(self)@.engine),
    {
        let ghost bs = self@.engine.batches;
        let ghost ds = self@.dynamic;
        let n: usize = self.engine.rule_batches.len();
        let mut i: usize = 0;
        while i < n
            invariant
                i <= n,
                n == self.engine.rule_batches@.len(),
                bs == self@.engine.batches,
                batch_with(bs, src@, 0) == batch_with(bs, src@, i as int),
                self == old(self),
            decreases n - i,
        {
            assert(bs[i as int].1 == self.engine.rule_batches@[i as int].1@);
            if str_eq(self.engine.rule_batches[i].1.as_str(), src) {
                return Ok(self.engine.rule_batches[i].0.clone());
            }
            i += 1;
        }
        match self.engine.install_program(src) {
            Ok(id) => {
                self.dynamic_rule_sources.push((id.clone(), src.to_owned()));
                assert(sources_view(self.dynamic_rule_sources@) =~= ds.push((id@, src@)));
                Ok(id)
            },
            Err(e) => Err(e),
        }
    }

    /// Uninstalls a rule batch; tells whether there was one. What it derived
    /// goes with the next maintenance.
    pub fn uninstall_rules(&mut self, id: &str) -> (r: bool)
        ensures
            r == (batch_position(old(self)@.engine.batches, id@, 0) is Some),
            final(self)@ == rules_uninstalled(old(self)@, id@),
            final(self).extractor == old(self).extractor,
            engine_wf(old(self)@.engine) ==> engine_wf(final(self)@.engine),
    {
        let ghost ds = self@.dynamic;
        let ghost f = other_batch(id@);
        let removed = self.engine.uninstall(id);
        if removed {
            let mut kept: Vec<(String, String)> = Vec::new();
            let mut i: usize = 0;
            assert(ds.take(0) =~= Seq::empty());
            assert(sources_view(kept@) =~= ds.take(0).filter(f)) by {
                reveal(Seq::filter);
            }
            while i < self.dynamic_rule_sources.len()
                invariant
                    i <= self.dynamic_rule_sources@.len(),
                    ds == sources_view(self.dynamic_rule_sources@),
                    f == other_batch(id@),
                    sources_view(kept@) == ds.take(i as int).filter(f),
                decreases self.dynamic_rule_sources@.len() - i,
            {
                let ghost before = sources_view(kept@);
                let p = &self.dynamic_rule_sources[i];
                proof {
                    assert(ds[i as int] == (p.0@, p.1@));
                    assert(ds.take(i + 1) =~= ds.take(i as int).push(ds[i as int]));
                    ds.take(i as int).lemma_filter_push(ds[i as int], f);
                }
                if !str_eq(p.0.as_str(), id) {
                    kept.push((p.0.clone(), p.1.clone()));
                    assert(sources_view(kept@) =~= before.push(ds[i as int]));
                }
                i += 1;
            }
            assert(ds.take(ds.len() as int) =~= ds);
            self.dynamic_rule_sources = kept;
        }
        removed
    }

    /// The installed batches: id and source.
    pub fn rule_batches(&self) -> (r: Vec<(String, String)>)
        ensures
            r@.len() == self@.engine.batches.len(),
            forall|i: int|
                0 <= i < r@.len() ==> (#[trigger] r@[i]).0@ == self@.engine.batches[i].0 && r@[i].1@
                    == self@.engine.batches[i].1,
    {
        self.engine.batches()
    }

    /// What would follow for a goal if an episode were true: the answers and
    /// how many facts would be added. The facts stay as they are.
    pub fn what_if(&mut self, text: &str, goal: &str) -> (r: Result<(Vec<String>, usize), ParseError>)
        requires
            engine_wf(old(self)@.engine),
        ensures
            exists|facts: Seq<CandV>|
                #![trigger supposed(old(self)@.engine, facts, goal@)]
                X::outcome(old(self).extractor, next_supposed(old(self)@, text@), facts, final(self).extractor) && (match r {
                    Ok(x) => supposed(old(self)@.engine, facts, goal@) == Ok::<(EngineV, Seq<Seq<char>>), Seq<char>>(
                        (final(self)@.engine, texts(x.0@)),
                    ) && x.1 == final(self)@.engine.hypothetical,
                    Err(e) => supposed(old(self)@.engine, facts, goal@) == Err::<(EngineV, Seq<Seq<char>>), Seq<char>>(e.0@)
                        && final(self)@.engine == edges_for(old(self)@.engine, facts, 0).0,
                }),
            final(self)@ == (MemoryV { engine: final(self)@.engine, ..supposing(old(self)@) }),
            final(self)@.engine.st.rels == old(self)@.engine.st.rels,
            engine_wf(final(self)@.engine),
    {
        let ghost m0 = self@;
        self.hyp_counter = self.hyp_counter.wrapping_add(1);
        let episode = Episode {
            id: name_with_number("hyp", self.hyp_counter),
            text: text.to_owned(),
            ts: self.engine.now,
            speaker: None,
        };
        assert(episode@ == next_supposed(m0, text@));
        let facts = self.extractor.extract(&episode);
        let ghost fv = cands_view(facts@);
        let r = suppose(&mut self.engine, &facts, goal);
        assert(supposed(m0.engine, fv, goal@) == supposed(m0.engine, fv, goal@));
        r
    }

    /// The `near` facts of a session and an entity.
    pub fn query_near(&self, session: Value, entity: Value) -> (r: Vec<Hit>)
        requires
            engine_wf(self@.engine),
        ensures
            hits_view(r@) == query_of(self@.engine.st, "near"@, seq![Some(session), Some(entity), None]),
    {
        let mut pattern: Vec<Option<Value>> = Vec::new();
        pattern.push(Some(session));
        pattern.push(Some(entity));
        pattern.push(None);
        assert(pattern@ =~= seq![Some(session), Some(entity), None]);
        self.engine.query("near", &pattern)
    }

    /// The bindings for a goal, after a maintenance run at the current time,
    /// from an evaluation of its own: the rules that the predicate of the goal
    /// depends on are evaluated in full, and no others. The constants of the
    /// goal select among the results.
    pub fn ask_deep(&mut self, goal: &str) -> (r: Result<Vec<String>, ProgramError>)
        requires
            engine_wf(old(self)@.engine),
        ensures
            ({
                let m = maintained(old(self)@, old(self)@.engine.now).0;
                match r {
                    Ok(rows) => goal_of("ask_deep"@, goal@) is Ok && texts(rows@) == deep_answers(
                        m.engine,
                        goal_of("ask_deep"@, goal@)->Ok_0,
                    ) && final(self)@ == (MemoryV {
                        engine: after_demand(m.engine, goal_of("ask_deep"@, goal@)->Ok_0),
                        ..m
                    }) && (is_plain(m.engine, goal_of("ask_deep"@, goal@)->Ok_0) || strata_error(
                        demand_program(m.engine, goal_of("ask_deep"@, goal@)->Ok_0.pred),
                    ) is None),
                    Err(ProgramError::Parse(e)) => goal_of("ask_deep"@, goal@) == Err::<AtomV, Seq<char>>(e.0@)
                        && final(self)@ == m,
                    Err(ProgramError::Strat(e)) => goal_of("ask_deep"@, goal@) is Ok && !is_plain(
                        m.engine,
                        goal_of("ask_deep"@, goal@)->Ok_0,
                    ) && strata_error(demand_program(m.engine, goal_of("ask_deep"@, goal@)->Ok_0.pred)) == Some(e.0@)
                        && final(self)@ == m,
                }
            }),
            final(self).extractor == old(self).extractor,
            engine_wf(final(self)@.engine),
    {
        let now = self.engine.now;
        self.maintain(now);
        self.engine.ask_deep(goal)
    }

    /// The proof tree of a fact given as text.
    pub fn why(&self, fact: &str) -> (r: String)
        requires
            engine_wf(self@.engine),
        ensures
            r@ == why_answer(self@.engine, fact@),
    {
        let mut goal = fact.to_owned();
        goal.append(".");
        match parse_program(goal.as_str()) {
            Ok(clauses) => {
                if clauses.len() == 1 {
                    let head = &clauses[0].head;
                    let ghost c = crate::ast::clauses_view(clauses@)[0];
                    assert(c == clauses@[0]@);
                    match self.engine.ground_values(&head.args) {
                        Some(args) => {
                            assert(stated_fact(self@.engine, c) == Some((c.head.pred, args@))) by {
                                assert(Seq::new(
                                    c.head.args.len(),
                                    |i: int| ground_value(self@.engine.st.names, c.head.args[i])->Some_0,
                                ) =~= args@);
                                assert forall|i: int| 0 <= i < c.head.args.len() implies ground_value(
                                    self@.engine.st.names,
                                    #[trigger] c.head.args[i],
                                ) is Some by {
                                    assert(ground_value(self@.engine.st.names, c.head.args[i]) == Some(args@[i]));
                                }
                            }
                            return self.engine.why(head.pred.as_str(), &args);
                        },
                        None => {
                            let mut m = "why: ".to_owned();
                            m.append(fact);
                            m.append(" contains variables");
                            return m;
                        },
                    }
                }
            },
            Err(_) => {},
        }
        about_quoted("why: cannot parse ", fact)
    }

    /// The episodes taken in, in order.
    pub fn episodes(&self) -> (r: &Vec<Episode>)
        ensures
            episodes_view(r@) == self@.episodes,
    {
        &self.episodes
    }

    /// Model calls and failures of the extractor so far.
    pub fn extractor_stats(&self) -> (r: (usize, usize))
        ensures
            call_ensures(X::stats, (&self.extractor,), r),
    {
        self.extractor.stats()
    }

    /// The context window for a query that mentions entities: what is new,
    /// then distilled facts, then the episodes they come from.
    pub fn context(&self, entities: &Vec<String>, budget_tokens: usize) -> (r: String)
        requires
            engine_wf(self@.engine),
        ensures
            r@ == context_text(self@.engine, self@.episodes, texts(entities@), budget_tokens as nat, news_of(self@)),
    {
        let changes = self.engine.changes_from(self.last_turn_epoch);
        let ghost all = keys_view(changes@);
        let mut news: Vec<String> = Vec::new();
        let mut i: usize = 0;
        while i < changes.len() && i < 20
            invariant
                i <= changes@.len(),
                i <= 20,
                all == keys_view(changes@),
                news@.len() == i,
                forall|j: int|
                    0 <= j < i ==> (#[trigger] news@[j])@ == fact_text(self@.engine.st.names, all[j].0, all[j].1),
            decreases changes@.len() - i,
        {
            assert(all[i as int] == (changes@[i as int].0@, changes@[i as int].1@));
            news.push(self.engine.render_fact(changes[i].0.as_str(), &changes[i].1));
            i += 1;
        }
        assert(texts(news@) =~= news_of(self@));
        assemble_context(&self.engine, &self.episodes, entities, budget_tokens, &news)
    }

    /// The context window for a query in plain words: the facts of the
    /// entities that it names, in capital or small letters, and of their
    /// neighbours, the episodes those come from and the episodes that speak
    /// of the entities. There is no ranking by the words of the query: facts
    /// come by confidence, episodes by time.
    pub fn context_for_query(&self, query: &str, budget_tokens: usize) -> (r: String)
        requires
            engine_wf(self@.engine),
        ensures
            r@ == query_text(self@.engine, self@.episodes, query@, budget_tokens as nat),
    {
        let entities = entities_in_query(&self.engine, query);
        let news: Vec<String> = Vec::new();
        assert(texts(news@) =~= Seq::empty());
        let cited = episodes_on_query(&self.engine, &self.episodes, query);
        assemble_citing(&self.engine, &self.episodes, &entities, budget_tokens, &news, cited)
    }
}

// ---------------------------------------------------------------------- laws

proof fn lemma_batch_with(bs: Seq<BatchV>, src: Seq<char>, i: int)
    requires
        0 <= i <= bs.len(),
    ensures
        match batch_with(bs, src, i) {
            Some(j) => i <= j < bs.len() && bs[j].1 == src && forall|k: int| i <= k < j ==> (#[trigger] bs[k]).1 != src,
            None => forall|k: int| i <= k < bs.len() ==> (#[trigger] bs[k]).1 != src,
        },
    decreases bs.len() - i,
{
    if i < bs.len() && bs[i].1 != src {
        lemma_batch_with(bs, src, i + 1);
    }
}

/// Law: installing the same source twice is installing it once. The second
/// time nothing changes, and the id is that of the batch already there.
pub proof fn install_twice(m: MemoryV, src: Seq<char>)
    requires
        rules_installed(m, src) is Ok,
    ensures
        ({
            let r = rules_installed(m, src)->Ok_0;
            rules_installed(r.0, src) == Ok::<(MemoryV, Seq<char>), ProgramErrorV>((r.0, r.1))
        }),
{
    let r = rules_installed(m, src)->Ok_0;
    lemma_batch_with(m.engine.batches, src, 0);
    if batch_with(m.engine.batches, src, 0) is None {
        let bs = m.engine.batches;
        let after = r.0.engine.batches;
        assert(after.len() == bs.len() + 1);
        assert(after[bs.len() as int].1 == src && after[bs.len() as int].0 == r.1);
        lemma_batch_with(after, src, 0);
        assert forall|k: int| 0 <= k < bs.len() implies (#[trigger] after[k]).1 != src by {
            assert(after[k] == bs[k]);
        }
    }
}

/// Law: an uninstalled batch is no longer kept, and every other batch is, in
/// order.
pub proof fn uninstall_forgets(m: MemoryV, id: Seq<char>)
    requires
        batch_position(m.engine.batches, id, 0) is Some,
    ensures
        forall|i: int|
            0 <= i < rules_uninstalled(m, id).dynamic.len() ==> (#[trigger] rules_uninstalled(m, id).dynamic[i]).0 != id,
        forall|i: int|
            0 <= i < m.dynamic.len() && (#[trigger] m.dynamic[i]).0 != id ==> rules_uninstalled(m, id).dynamic.contains(m.dynamic[i]),
        (forall|i: int| 0 <= i < m.dynamic.len() ==> (#[trigger] m.dynamic[i]).0 != id) ==> rules_uninstalled(m, id).dynamic
            == m.dynamic,
{
    let f = other_batch(id);
    assert forall|i: int| 0 <= i < m.dynamic.filter(f).len() implies (#[trigger] m.dynamic.filter(f)[i]).0 != id by {
        m.dynamic.lemma_filter_pred(f, i);
    }
    assert forall|i: int| 0 <= i < m.dynamic.len() && (#[trigger] m.dynamic[i]).0 != id implies m.dynamic.filter(f).contains(
        m.dynamic[i],
    ) by {
        m.dynamic.lemma_filter_contains(f, i);
    }
    if forall|i: int| 0 <= i < m.dynamic.len() ==> (#[trigger] m.dynamic[i]).0 != id {
        lemma_filter_all(m.dynamic, f);
    }
}

proof fn lemma_filter_all<A>(s: Seq<A>, f: spec_fn(A) -> bool)
    requires
        forall|i: int| 0 <= i < s.len() ==> f(#[trigger] s[i]),
    ensures
        s.filter(f) == s,
    decreases s.len(),
{
    reveal(Seq::filter);
    if s.len() > 0 {
        assert forall|i: int| 0 <= i < s.drop_last().len() implies f(#[trigger] s.drop_last()[i]) by {
            assert(s.drop_last()[i] == s[i]);
        }
        lemma_filter_all(s.drop_last(), f);
        assert(s.drop_last().push(s.last()) =~= s);
    } else {
        assert(s.filter(f) =~= s);
    }
}

} // verus!

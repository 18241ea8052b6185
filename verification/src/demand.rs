//! Evaluations that leave the store as it is: hypothetical facts, and goals
//! over predicates that are not materialized.

use vstd::prelude::*;
use vstd::string::StringExecFns;
use crate::ast::{clauses_view, Atom, AtomV, Clause, ClauseV, Lit, LitV};
use crate::engine::{declared, engine_wf, ran, Engine, EngineV};
use crate::evaluate::{row_keys, Delta};
use crate::parser::ParseError;
use crate::query::{
    answers, answers_in, find_answers, find_answers_in, goal_of, has_clause, parse_goal, some_clause,
};
use crate::relation::{ann_unit, has_key, keys_view, rows_view, Ann, Key, KeyV, Relation};
use crate::rules::ProgramError;
use crate::sorted_set::{enumerate, models, SortedSet};
use crate::store::{copy_feed, copy_log, holds, rels_wf, Relations, RelsV, Store, StoreV};
use crate::stratify::{dependencies, edges_of, edges_view, linked, reaches, strata_error};
use crate::text::texts;
use crate::value::copy_key;

verus! {

// ----------------------------------------------------- hypothetical facts

/// The store after asserting the facts from position `i` on.
pub open spec fn assumed(st: StoreV, extra: Seq<KeyV>, i: int) -> StoreV
    decreases extra.len() - i,
{
    if i < 0 || i >= extra.len() {
        st
    } else {
        assumed(declared(st, extra[i], ann_unit()), extra, i + 1)
    }
}

/// The engine after a run, with the facts assumed and run again.
pub open spec fn ran_assuming(e: EngineV, extra: Seq<KeyV>) -> EngineV {
    let base = ran(e).0;
    ran(EngineV { st: assumed(base.st, extra, 0), ..base }).0
}

/// The facts of one state that another does not hold.
pub open spec fn gained(a: RelsV, b: RelsV) -> Set<KeyV> {
    Set::new(|k: KeyV| holds(b, k) && !holds(a, k))
}

/// The engine as it was, but for the symbols and the record of how many facts
/// the assumption added: those that hold with it and not without it.
pub open spec fn after_assuming(e: EngineV, r: EngineV) -> EngineV {
    EngineV {
        st: StoreV { names: r.st.names, ..e.st },
        hypothetical: gained(ran(e).0.st.rels, r.st.rels).len() as usize,
        ..e
    }
}

proof fn lemma_take_push<A>(s: Seq<A>, i: int, x: A)
    requires
        0 <= i < s.len(),
    ensures
        s.take(i + 1).contains(x) <==> s.take(i).contains(x) || s[i] == x,
{
    let t0 = s.take(i);
    let t1 = s.take(i + 1);
    if t0.contains(x) {
        let j = choose|j: int| 0 <= j < t0.len() && t0[j] == x;
        assert(t1[j] == x);
    }
    if s[i] == x {
        assert(t1[i] == x);
    }
    if t1.contains(x) {
        let j = choose|j: int| 0 <= j < t1.len() && t1[j] == x;
        if j < i {
            assert(t0[j] == x);
        }
    }
}

/// Adds the tuples of a relation that another state does not hold.
fn add_gained(before: &Relations, name: &str, rel: &Relation, out: &mut Delta)
    requires
        rels_wf(before@),
    ensures
        forall|k: KeyV| #[trigger]
            final(out)@.contains(k) <==> old(out)@.contains(k) || (k.0 == name@ && has_key(rel@, k.1) && !holds(before@, k)),
{
    let rows = rel.rows();
    let ghost ks = row_keys(rel@);
    let ghost d0 = out@;
    let mut j: usize = 0;
    while j < rows.len()
        invariant
            j <= rows@.len(),
            rels_wf(before@),
            ks == row_keys(rel@),
            rows_view(rows@) == rel@.rows,
            forall|k: KeyV| #[trigger]
                out@.contains(k) <==> d0.contains(k) || (k.0 == name@ && ks.take(j as int).contains(k.1) && !holds(before@, k)),
        decreases rows@.len() - j,
    {
        assert(rows_view(rows@)[j as int] == rows@[j as int]@);
        assert(ks[j as int] == rows@[j as int].key@);
        let known = match before.get(name) {
            Some(r) => r.contains(&rows[j].key),
            None => false,
        };
        assert(known == holds(before@, (name@, ks[j as int])));
        let ghost d1 = out@;
        if !known {
            let key: Key = (name.to_owned(), copy_key(&rows[j].key));
            assert(key@ == (name@, ks[j as int]));
            out.insert(key);
        }
        proof {
            assert forall|k: KeyV| #[trigger] out@.contains(k) <==> d0.contains(k) || (k.0 == name@ && ks.take(j + 1).contains(
                k.1,
            ) && !holds(before@, k)) by {
                lemma_take_push(ks, j as int, k.1);
                assert(d1.contains(k) <==> d0.contains(k) || (k.0 == name@ && ks.take(j as int).contains(k.1) && !holds(
                    before@,
                    k,
                )));
            }
        }
        j += 1;
    }
    proof {
        assert(ks.take(ks.len() as int) =~= ks);
        assert forall|k: KeyV| ks.contains(k.1) <==> #[trigger] has_key(rel@, k.1) by {
            if has_key(rel@, k.1) {
                let i = choose|i: int| 0 <= i < rel@.rows.len() && (#[trigger] rel@.rows[i]).key == k.1;
                assert(ks[i] == k.1);
            }
            if ks.contains(k.1) {
                let i = choose|i: int| 0 <= i < ks.len() && ks[i] == k.1;
                assert(rel@.rows[i].key == k.1);
            }
        }
    }
}

/// How many facts one state holds that another does not.
fn count_gained(before: &Relations, after: &Relations) -> (r: usize)
    requires
        rels_wf(before@),
    ensures
        r == gained(before@, after@).len(),
{
    let names = after.names();
    let ghost ts = texts(names@);
    let mut d: Delta = SortedSet::new();
    let mut i: usize = 0;
    while i < names.len()
        invariant
            i <= names@.len(),
            rels_wf(before@),
            ts == texts(names@),
            forall|n: Seq<char>| #[trigger] ts.contains(n) <==> after@.contains_key(n),
            forall|k: KeyV| #[trigger]
                d@.contains(k) <==> gained(before@, after@).contains(k) && ts.take(i as int).contains(k.0),
        decreases names@.len() - i,
    {
        let ghost d0 = d@;
        let name = names[i].as_str();
        assert(ts[i as int] == name@);
        assert(ts.contains(name@));
        if let Some(rel) = after.get(name) {
            add_gained(before, name, rel, &mut d);
        }
        proof {
            assert forall|k: KeyV| #[trigger] d@.contains(k) <==> gained(before@, after@).contains(k) && ts.take(i + 1).contains(
                k.0,
            ) by {
                lemma_take_push(ts, i as int, k.0);
                assert(d0.contains(k) <==> gained(before@, after@).contains(k) && ts.take(i as int).contains(k.0));
            }
        }
        i += 1;
    }
    proof {
        assert(ts.take(ts.len() as int) =~= ts);
        assert(d@ =~= gained(before@, after@)) by {
            assert forall|k: KeyV| gained(before@, after@).contains(k) implies ts.contains(k.0) by {}
        }
    }
    d.len()
}

// --------------------------------------------------------- demand program

/// The predicate has rows.
pub open spec fn materialized(st: StoreV, p: Seq<char>) -> bool {
    st.rels.contains_key(p) && st.rels[p].rows.len() > 0
}

/// The predicate is defined by the program and not materialized.
pub open spec fn on_demand(e: EngineV, p: Seq<char>) -> bool {
    has_clause(e.clauses, p) && !materialized(e.st, p)
}

/// The relation that stands for a predicate in a demand program.
pub open spec fn demand_name(e: EngineV, p: Seq<char>) -> Seq<char> {
    if on_demand(e, p) {
        "demand:"@ + p
    } else {
        p
    }
}

pub open spec fn demand_atom(e: EngineV, a: AtomV) -> AtomV {
    AtomV { pred: demand_name(e, a.pred), args: a.args }
}

pub open spec fn demand_lit(e: EngineV, l: LitV) -> LitV {
    match l {
        LitV::Pos(a) => LitV::Pos(demand_atom(e, a)),
        LitV::Neg(a) => LitV::Neg(demand_atom(e, a)),
        _ => l,
    }
}

pub open spec fn demand_clause(e: EngineV, c: ClauseV) -> ClauseV {
    ClauseV { head: demand_atom(e, c.head), body: c.body.map_values(|l: LitV| demand_lit(e, l)), ..c }
}

/// The clause takes part in answering a goal: it defines a predicate that is
/// not materialized and on which the goal depends.
pub open spec fn takes_part(e: EngineV, goal: Seq<char>, c: ClauseV) -> bool {
    on_demand(e, c.head.pred) && (c.is_fact || linked(edges_of(e.clauses), goal, c.head.pred))
}

/// The program that answers a goal: of the first `n` clauses those that take
/// part, over relations of their own.
pub open spec fn demand_upto(e: EngineV, goal: Seq<char>, n: int) -> Seq<ClauseV>
    decreases n,
{
    if n <= 0 {
        Seq::empty()
    } else if takes_part(e, goal, e.clauses[n - 1]) {
        demand_upto(e, goal, n - 1).push(demand_clause(e, e.clauses[n - 1]))
    } else {
        demand_upto(e, goal, n - 1)
    }
}

/// The program that answers a goal.
pub open spec fn demand_program(e: EngineV, goal: Seq<char>) -> Seq<ClauseV> {
    demand_upto(e, goal, e.clauses.len() as int)
}

/// The engine after a run of the demand program over the whole store.
pub open spec fn ran_demand(e: EngineV, goal: Seq<char>) -> EngineV {
    ran(
        EngineV {
            st: StoreV { retracted: Set::empty(), ..e.st },
            clauses: demand_program(e, goal),
            dirty: true,
            ever: Set::empty(),
            mark: e.st.log.len() as int,
            ..e
        },
    ).0
}

/// The rows of the named relations that are not in `before`, at most the
/// greatest count.
pub open spec fn created_rows(m: RelsV, before: RelsV, ps: Seq<Seq<char>>) -> usize
    decreases ps.len(),
{
    if ps.len() == 0 {
        0
    } else {
        let rest = created_rows(m, before, ps.drop_last());
        if before.contains_key(ps.last()) {
            rest
        } else if rest + m[ps.last()].rows.len() > usize::MAX {
            usize::MAX
        } else {
            (rest + m[ps.last()].rows.len()) as usize
        }
    }
}

/// The goal can be read off the store.
pub open spec fn is_plain(e: EngineV, goal: AtomV) -> bool {
    !has_clause(e.clauses, goal.pred) || materialized(e.st, goal.pred)
}

/// The answers to a goal, with its program run if need be.
pub open spec fn deep_answers(e: EngineV, goal: AtomV) -> Seq<Seq<char>> {
    if is_plain(e, goal) {
        answers(e.st, goal)
    } else {
        answers_in(ran_demand(e, goal.pred).st, "demand:"@ + goal.pred, goal.args)
    }
}

/// The engine after a demand-driven query: as it was, but for the symbols
/// and the record of how many facts were derived.
pub open spec fn after_demand(e: EngineV, goal: AtomV) -> EngineV {
    if is_plain(e, goal) {
        e
    } else {
        let r = ran_demand(e, goal.pred);
        EngineV {
            st: StoreV { names: r.st.names, ..e.st },
            demand: created_rows(r.st.rels, e.st.rels, enumerate::<String>(r.st.rels.dom())),
            ..e
        }
    }
}

fn has_rows(store: &Store, p: &str) -> (r: bool)
    ensures
        r == materialized(store@, p@),
{
    match store.relations.get(p) {
        Some(rel) => rel.len() > 0,
        None => false,
    }
}

fn count_created(store: &Store, before: &SortedSet<String>, Ghost(rels): Ghost<RelsV>) -> (r: usize)
    requires
        before@ == rels.dom(),
    ensures
        r == created_rows(store@.rels, rels, enumerate::<String>(store@.rels.dom())),
{
    let names = store.sorted_names();
    let ps = names.items();
    let ghost pv = models(ps@);
    let mut n: usize = 0;
    let mut i: usize = 0;
    assert(pv.take(0) =~= Seq::empty());
    while i < ps.len()
        invariant
            i <= ps@.len(),
            pv == models(ps@),
            pv.to_set() == store@.rels.dom(),
            before@ == rels.dom(),
            n == created_rows(store@.rels, rels, pv.take(i as int)),
        decreases ps@.len() - i,
    {
        assert(pv.take(i + 1).drop_last() =~= pv.take(i as int));
        assert(pv.take(i + 1).last() == ps@[i as int]@);
        assert(pv[i as int] == ps@[i as int]@);
        assert(pv.to_set().contains(pv[i as int]));
        if !before.contains(&ps[i]) {
            if let Some(rel) = store.relations.get(ps[i].as_str()) {
                let k: usize = rel.len();
                n = if k > usize::MAX - n {
                    usize::MAX
                } else {
                    n + k
                };
            }
        }
        i += 1;
    }
    assert(pv.take(pv.len() as int) =~= pv);
    n
}

impl Engine {
    /// Brings the store to its fixpoint, asserts facts and runs again, answers
    /// a goal, and puts the store back as it was.
    pub fn hypothetical(&mut self, extra: &Vec<Key>, goal: &str) -> (r: Result<Vec<String>, ParseError>)
        requires
            engine_wf(old(self)@),
        ensures
            match r {
                Ok(rows) => goal_of("hypothetical"@, goal@) is Ok && texts(rows@) == answers(
                    ran_assuming(old(self)@, keys_view(extra@)).st,
                    goal_of("hypothetical"@, goal@)->Ok_0,
                ) && final(self)@ == after_assuming(old(self)@, ran_assuming(old(self)@, keys_view(extra@))),
                Err(e) => goal_of("hypothetical"@, goal@) == Err::<AtomV, Seq<char>>(e.0@) && final(self)@ == old(self)@,
            },
            engine_wf(final(self)@),
    {
        let ghost e0 = self@;
        let head = match parse_goal("hypothetical", goal) {
            Ok(a) => a,
            Err(e) => {
                return Err(e);
            },
        };
        let relations = self.store.relations.duplicate();
        let log = copy_log(&self.store.change_log);
        let feed = copy_feed(&self.store.feed);
        let retracted = self.store.retracted.duplicate();
        let dirty = self.program_dirty;
        let log_len = self.last_run_log_len;
        let epoch = self.store.epoch;
        self.run();
        let ghost base = self@;
        let before = self.store.relations.duplicate();
        let ghost ks = keys_view(extra@);
        let ghost want = assumed(base.st, ks, 0);
        let mut i: usize = 0;
        while i < extra.len()
            invariant
                i <= extra@.len(),
                ks == keys_view(extra@),
                self@ == (EngineV { st: self.store@, ..base }),
                engine_wf(self@),
                want == assumed(self.store@, ks, i as int),
            decreases extra@.len() - i,
        {
            assert(ks[i as int] == extra@[i as int]@);
            self.declare(extra[i].0.as_str(), &extra[i].1, Ann::unit());
            i += 1;
        }
        self.run();
        let ghost ran_e = self@;
        self.last_hypothetical_facts = count_gained(&before, &self.store.relations);
        let rows = find_answers(&self.store, &head);
        self.store.relations = relations;
        self.store.change_log = log;
        self.store.feed = feed;
        self.store.retracted = retracted;
        self.program_dirty = dirty;
        self.last_run_log_len = log_len;
        self.store.epoch = epoch;
        assert(self@ =~= after_assuming(e0, ran_e));
        Ok(rows)
    }

    fn demand_name_of(&self, p: &str) -> (r: String)
        ensures
            r@ == demand_name(self@, p@),
    {
        if some_clause(&self.clauses, p) && !has_rows(&self.store, p) {
            let mut s = "demand:".to_owned();
            s.append(p);
            s
        } else {
            p.to_owned()
        }
    }

    fn demand_atom_of(&self, a: &Atom) -> (r: Atom)
        ensures
            r@ == demand_atom(self@, a@),
    {
        let b = a.duplicate();
        Atom { pred: self.demand_name_of(a.pred.as_str()), args: b.args }
    }

    fn demand_clause_of(&self, c: &Clause) -> (r: Clause)
        ensures
            r@ == demand_clause(self@, c@),
    {
        let mut body: Vec<Lit> = Vec::new();
        let mut i: usize = 0;
        while i < c.body.len()
            invariant
                i <= c.body@.len(),
                body@.len() == i,
                forall|j: int| 0 <= j < i ==> (#[trigger] body@[j])@ == demand_lit(self@, c.body@[j]@),
            decreases c.body@.len() - i,
        {
            let l = match &c.body[i] {
                Lit::Pos(a) => Lit::Pos(self.demand_atom_of(a)),
                Lit::Neg(a) => Lit::Neg(self.demand_atom_of(a)),
                other => other.duplicate(),
            };
            body.push(l);
            i += 1;
        }
        let d = c.duplicate();
        let r = Clause { name: d.name, head: self.demand_atom_of(&c.head), body, is_fact: c.is_fact };
        assert(r@.body =~= demand_clause(self@, c@).body);
        r
    }

    fn build_demand(&self, goal: &str) -> (r: Vec<Clause>)
        ensures
            clauses_view(r@) == demand_program(self@, goal@),
    {
        let ghost v = self@.clauses;
        let deps = dependencies(&self.clauses);
        let mut r: Vec<Clause> = Vec::new();
        let mut i: usize = 0;
        assert(clauses_view(r@) =~= Seq::empty());
        while i < self.clauses.len()
            invariant
                i <= self.clauses@.len(),
                v == self@.clauses,
                edges_view(deps@) == edges_of(v),
                clauses_view(r@) == demand_upto(self@, goal@, i as int),
            decreases self.clauses@.len() - i,
        {
            let c = &self.clauses[i];
            assert(v[i as int] == c@);
            let ghost r0 = clauses_view(r@);
            let p = c.head.pred.as_str();
            if some_clause(&self.clauses, p) && !has_rows(&self.store, p) && (c.is_fact || reaches(&deps, goal, p)) {
                r.push(self.demand_clause_of(c));
                assert(clauses_view(r@) =~= r0.push(demand_clause(self@, c@)));
            }
            i += 1;
        }
        r
    }

    /// Answers a goal without materializing what it asks for: the rules that
    /// the goal depends on are run over relations of their own, which are
    /// dropped again. A goal over facts, or over a materialized predicate, is
    /// read off the store.
    pub fn ask_deep(&mut self, goal: &str) -> (r: Result<Vec<String>, ProgramError>)
        requires
            engine_wf(old(self)@),
        ensures
            match r {
                Ok(rows) => goal_of("ask_deep"@, goal@) is Ok && texts(rows@) == deep_answers(
                    old(self)@,
                    goal_of("ask_deep"@, goal@)->Ok_0,
                ) && final(self)@ == after_demand(old(self)@, goal_of("ask_deep"@, goal@)->Ok_0) && (is_plain(
                    old(self)@,
                    goal_of("ask_deep"@, goal@)->Ok_0,
                ) || strata_error(demand_program(old(self)@, goal_of("ask_deep"@, goal@)->Ok_0.pred)) is None),
                Err(ProgramError::Parse(e)) => goal_of("ask_deep"@, goal@) == Err::<AtomV, Seq<char>>(e.0@) && final(self)@
                    == old(self)@,
                Err(ProgramError::Strat(e)) => goal_of("ask_deep"@, goal@) is Ok && !is_plain(
                    old(self)@,
                    goal_of("ask_deep"@, goal@)->Ok_0,
                ) && strata_error(demand_program(old(self)@, goal_of("ask_deep"@, goal@)->Ok_0.pred)) == Some(e.0@)
                    && final(self)@ == old(self)@,
            },
            engine_wf(final(self)@),
    {
        let ghost e0 = self@;
        let head = match parse_goal("ask_deep", goal) {
            Ok(a) => a,
            Err(e) => {
                return Err(ProgramError::Parse(e));
            },
        };
        let p = head.pred.as_str();
        if !some_clause(&self.clauses, p) || has_rows(&self.store, p) {
            return Ok(find_answers(&self.store, &head));
        }
        let mut clauses = self.build_demand(p);
        std::mem::swap(&mut self.clauses, &mut clauses);
        if let Err(e) = self.check_program() {
            self.clauses = clauses;
            assert(self@ =~= e0);
            return Err(ProgramError::Strat(e));
        }
        let before = self.store.sorted_names();
        let relations = self.store.relations.duplicate();
        let log = copy_log(&self.store.change_log);
        let feed = copy_feed(&self.store.feed);
        let epoch = self.store.epoch;
        let dirty = self.program_dirty;
        let log_len = self.last_run_log_len;
        let mut retracted: SortedSet<String> = SortedSet::new();
        let mut ever: SortedSet<String> = SortedSet::new();
        std::mem::swap(&mut self.store.retracted, &mut retracted);
        std::mem::swap(&mut self.ever_derived, &mut ever);
        self.program_dirty = true;
        self.last_run_log_len = self.store.change_log.len();
        self.run();
        let ghost ran_e = self@;
        assert(ran_e == ran_demand(e0, p@));
        let created = count_created(&self.store, &before, Ghost(e0.st.rels));
        let mut answer_pred = "demand:".to_owned();
        answer_pred.append(p);
        let rows = find_answers_in(&self.store, answer_pred.as_str(), &head.args);
        self.clauses = clauses;
        self.store.relations = relations;
        self.store.change_log = log;
        self.store.feed = feed;
        self.store.epoch = epoch;
        self.store.retracted = retracted;
        self.ever_derived = ever;
        self.program_dirty = dirty;
        self.last_run_log_len = log_len;
        self.last_demand_facts = created;
        assert(self@ =~= after_demand(e0, head@));
        Ok(rows)
    }
}

} // verus!

//! The engine: a fact store with a program of rules, evaluated
//! incrementally.

use vstd::prelude::*;
use crate::ast::{clauses_view, Clause, ClauseV, Lit, LitV};
use crate::env::Env;
use crate::evaluate::{eval_stratum, eval_stratum_of, indices_of, EvalV};
use crate::intern::{interned, with_name};
use crate::perfect::strata_settle;
use crate::recompute::{owner, owner_of, program_recompute, rebuilt, scoped, scoped_recompute, strata_fit, Names};
use crate::relation::{ann_unit, ids_view, supports_view, Ann, AnnV, FactV, KeyV, StoredFact, Support, SupportV};
use crate::scope::{invalidate_settles, run_settles};
use crate::solve::{ground_head, head_values};
use crate::sorted_set::SortedSet;
use crate::store::{holds, log_view, rels_settled, rels_wf, store_assert, store_retract, Store, StoreV};
use crate::stratify::{is_strata, strata, strata_error, strata_of, strata_view, StratError};
use crate::value::{Sym, Value};

verus! {

/// A rule batch: its id, its source, and where its clauses end.
pub type Batch = (String, String, usize);

/// The engine.
#[derive(Debug)]
pub struct Engine {
    pub store: Store,
    pub clauses: Vec<Clause>,
    pub now: i64,
    /// Facts that the most recent demand-driven query derived.
    pub last_demand_facts: usize,
    /// Facts that the most recent hypothetical evaluation would have added.
    pub last_hypothetical_facts: usize,
    pub rule_batches: Vec<Batch>,
    /// The program changed since the last run.
    pub program_dirty: bool,
    /// Predicates that have ever had a defining rule.
    pub ever_derived: Names,
    /// Length of the change log at the end of the last completed run.
    pub last_run_log_len: usize,
    /// How many batches were ever installed.
    pub batch_counter: u64,
}

/// The value of a [`Batch`].
pub type BatchV = (Seq<char>, Seq<char>, int);

/// The value of an [`Engine`].
#[verifier::ext_equal]
pub struct EngineV {
    pub st: StoreV,
    pub clauses: Seq<ClauseV>,
    pub now: i64,
    pub demand: usize,
    pub hypothetical: usize,
    pub batches: Seq<BatchV>,
    pub dirty: bool,
    pub ever: Set<Seq<char>>,
    pub mark: int,
    pub counter: u64,
}

pub open spec fn batches_view(s: Seq<Batch>) -> Seq<BatchV> {
    s.map_values(|b: Batch| (b.0@, b.1@, b.2 as int))
}

impl View for Engine {
    type V = EngineV;

    open spec fn view(&self) -> EngineV {
        EngineV {
            st: self.store@,
            clauses: clauses_view(self.clauses@),
            now: self.now,
            demand: self.last_demand_facts,
            hypothetical: self.last_hypothetical_facts,
            batches: batches_view(self.rule_batches@),
            dirty: self.program_dirty,
            ever: self.ever_derived@,
            mark: self.last_run_log_len as int,
            counter: self.batch_counter,
        }
    }
}

/// The relations are well formed, and the last run lies in the log.
pub open spec fn engine_wf(e: EngineV) -> bool {
    rels_wf(e.st.rels) && 0 <= e.mark <= e.st.log.len()
}

/// The empty engine.
pub open spec fn engine_new() -> EngineV {
    EngineV {
        st: StoreV {
            names: Seq::empty(),
            rels: Map::empty(),
            log: Seq::empty(),
            feed: Seq::empty(),
            epoch: 0,
            retracted: Set::empty(),
        },
        clauses: Seq::empty(),
        now: 0,
        demand: 0,
        hypothetical: 0,
        batches: Seq::empty(),
        dirty: true,
        ever: Set::empty(),
        mark: 0,
        counter: 0,
    }
}

/// The store after asserting a base fact.
pub open spec fn declared(st: StoreV, k: KeyV, ann: AnnV) -> StoreV {
    store_assert(st, k, FactV { ann, supports: seq![SupportV::Base] })
}

/// Asserts a base fact; tells whether it is new.
pub fn declare_in(store: &mut Store, pred: &str, args: &Vec<Value>, ann: Ann) -> (r: bool)
    requires
        rels_wf(old(store)@.rels),
    ensures
        final(store)@ == declared(old(store)@, (pred@, args@), ann@),
        r == !holds(old(store)@.rels, (pred@, args@)),
        rels_wf(final(store)@.rels),
{
    let mut supports: Vec<Support> = Vec::new();
    supports.push(Support::Base);
    assert(supports_view(supports@) =~= seq![SupportV::Base]);
    store.assert_fact(pred, args, StoredFact { ann, supports })
}

// -------------------------------------------------------------------- run

/// The store after asserting the facts of the program, from clause `i` on.
/// A fact whose arguments are not all constants is passed over.
pub open spec fn declare_facts(st: StoreV, cs: Seq<ClauseV>, i: int) -> StoreV
    decreases cs.len() - i,
{
    if i < 0 || i >= cs.len() {
        st
    } else if !cs[i].is_fact {
        declare_facts(st, cs, i + 1)
    } else {
        let h = head_values(st.names, cs[i].head.args, Map::empty());
        let st1 = StoreV { names: h.0, ..st };
        match h.1 {
            Some(args) => declare_facts(declared(st1, (cs[i].head.pred, args), ann_unit()), cs, i + 1),
            None => declare_facts(st1, cs, i + 1),
        }
    }
}

/// Evaluating the strata from position `s` on.
pub open spec fn eval_strata(st: StoreV, now: i64, cs: Seq<ClauseV>, strata: Seq<Seq<int>>, s: int) -> EvalV
    decreases strata.len() - s,
{
    if s < 0 || s >= strata.len() {
        EvalV { st, new: 0 }
    } else {
        let e = eval_stratum_of(st, now, cs, strata[s]);
        let rest = eval_strata(e.st, now, cs, strata, s + 1);
        EvalV { st: rest.st, new: e.new + rest.new }
    }
}

/// A predicate was added to since the mark.
pub open spec fn grew(st: StoreV, mark: int, p: Seq<char>) -> bool {
    exists|i: int| mark <= i < st.log.len() && (#[trigger] st.log[i]).1.0 == p
}

/// The literal negates a predicate that was added to.
pub open spec fn negates_grown(st: StoreV, mark: int, l: LitV) -> bool {
    match l {
        LitV::Neg(a) => grew(st, mark, a.pred),
        _ => false,
    }
}

/// The clause is a rule that negates a predicate that was added to.
pub open spec fn reads_grown(st: StoreV, mark: int, c: ClauseV) -> bool {
    !c.is_fact && exists|j: int| 0 <= j < c.body.len() && negates_grown(st, mark, #[trigger] c.body[j])
}

/// The relations filled by a rule that negates a predicate that was added to.
pub open spec fn stale_readers(st: StoreV, cs: Seq<ClauseV>, mark: int) -> Set<Seq<char>> {
    Set::new(
        |r: Seq<char>| exists|ci: int| 0 <= ci < cs.len() && reads_grown(st, mark, #[trigger] cs[ci]) && owner(cs[ci], ci) == r,
    )
}

/// At most `n` recomputes, while facts were removed or negated predicates
/// were added to.
pub open spec fn invalidate(
    st: StoreV,
    now: i64,
    cs: Seq<ClauseV>,
    strata: Seq<Seq<int>>,
    mark: int,
    n: nat,
) -> EvalV
    decreases n,
{
    let extra = stale_readers(st, cs, mark);
    if n == 0 || (st.retracted == Set::<Seq<char>>::empty() && extra == Set::<Seq<char>>::empty()) {
        EvalV { st, new: 0 }
    } else {
        let r = scoped(st, now, cs, strata, extra);
        let rest = invalidate(r.st, now, cs, strata, mark, (n - 1) as nat);
        EvalV { st: rest.st, new: r.new + rest.new }
    }
}

/// The engine before its strata are evaluated: rebuilt if the program
/// changed, with the facts of the program asserted.
pub open spec fn prepared(e: EngineV) -> EngineV {
    let ok = strata_error(e.clauses) is None;
    let st1 = if e.dirty && ok {
        rebuilt(e.st, e.clauses, strata_of(e.clauses), e.ever)
    } else {
        e.st
    };
    EngineV { st: declare_facts(st1, e.clauses, 0), dirty: e.dirty && !ok, ..e }
}

/// The engine after a run, and the number of facts derived.
pub open spec fn ran(e: EngineV) -> (EngineV, nat) {
    let p = prepared(e);
    if strata_error(e.clauses) is Some {
        (p, 0)
    } else {
        let strata = strata_of(e.clauses);
        let ev = eval_strata(p.st, e.now, e.clauses, strata, 0);
        let inv = invalidate(ev.st, e.now, e.clauses, strata, e.mark, strata.len() + 2);
        (
            EngineV {
                st: StoreV {
                    rels: rels_settled(inv.st.rels),
                    epoch: inv.st.epoch.wrapping_add(1),
                    ..inv.st
                },
                mark: inv.st.log.len() as int,
                ..p
            },
            ev.new + inv.new,
        )
    }
}

pub proof fn lemma_strata_fit(cs: Seq<ClauseV>, s: Seq<Seq<int>>)
    requires
        is_strata(cs, s),
    ensures
        strata_fit(s, cs.len() as int),
{
    let l = choose|l: Map<Seq<char>, nat>| #[trigger] crate::stratify::is_levels(cs, l) && crate::stratify::grouped(cs, l, s);
    assert forall|k: int| 0 <= k < s.len() implies indices_of(#[trigger] s[k], cs.len() as int) by {
        let all = Seq::new(cs.len(), |i: int| i);
        let f = crate::stratify::at_level(cs, l, k);
        assert(s[k] == all.filter(f));
        assert forall|i: int| 0 <= i < s[k].len() implies 0 <= #[trigger] s[k][i] < cs.len() by {
            all.lemma_filter_contains_rev(f, s[k][i]);
        }
    }
}

fn declare_program_facts(store: &mut Store, cs: &Vec<Clause>)
    requires
        rels_wf(old(store)@.rels),
    ensures
        final(store)@ == declare_facts(old(store)@, clauses_view(cs@), 0),
        rels_wf(final(store)@.rels),
        final(store)@.log.len() >= old(store)@.log.len(),
{
    let ghost v = clauses_view(cs@);
    let ghost want = declare_facts(store@, v, 0);
    let empty = Env::new();
    let mut i: usize = 0;
    while i < cs.len()
        invariant
            i <= cs@.len(),
            v == clauses_view(cs@),
            empty@.map == Map::<Seq<char>, Value>::empty(),
            rels_wf(store@.rels),
            want == declare_facts(store@, v, i as int),
            store@.log.len() >= old(store)@.log.len(),
        decreases cs@.len() - i,
    {
        let c = &cs[i];
        assert(v[i as int] == c@);
        if c.is_fact {
            if let Some(args) = ground_head(&mut store.interner, &c.head.args, &empty) {
                declare_in(store, c.head.pred.as_str(), &args, Ann::unit());
            }
        }
        i += 1;
    }
}

/// The predicates that were added to since the mark.
fn grown_names(store: &Store, mark: usize) -> (r: Names)
    requires
        mark <= store@.log.len(),
    ensures
        forall|p: Seq<char>| #[trigger] r@.contains(p) <==> grew(store@, mark as int, p),
{
    let mut r: Names = SortedSet::new();
    let mut i: usize = mark;
    let ghost log = store@.log;
    while i < store.change_log.len()
        invariant
            mark <= i <= store.change_log@.len(),
            log == log_view(store.change_log@),
            forall|p: Seq<char>| #[trigger] r@.contains(p) <==> exists|k: int| mark <= k < i && (#[trigger] log[k]).1.0 == p,
        decreases store.change_log@.len() - i,
    {
        let ghost r0 = r@;
        assert(log[i as int].1.0 == store.change_log@[i as int].1.0@);
        r.insert(store.change_log[i].1.0.clone());
        proof {
            assert forall|p: Seq<char>| #[trigger] r@.contains(p) <==> exists|k: int|
                mark <= k < i + 1 && (#[trigger] log[k]).1.0 == p by {
                if r0.contains(p) {
                    let k = choose|k: int| mark <= k < i && (#[trigger] log[k]).1.0 == p;
                    assert(mark <= k < i + 1 && log[k].1.0 == p);
                }
            }
        }
        i += 1;
    }
    r
}

fn negates_any(c: &Clause, names: &Names) -> (r: bool)
    ensures
        r == exists|j: int| 0 <= j < c@.body.len() && (match #[trigger] c@.body[j] {
            LitV::Neg(a) => names@.contains(a.pred),
            _ => false,
        }),
{
    let mut j: usize = 0;
    while j < c.body.len()
        invariant
            j <= c.body@.len(),
            forall|k: int| 0 <= k < j ==> !(match #[trigger] c@.body[k] {
                LitV::Neg(a) => names@.contains(a.pred),
                _ => false,
            }),
        decreases c.body@.len() - j,
    {
        assert(c@.body[j as int] == c.body@[j as int]@);
        if let Lit::Neg(a) = &c.body[j] {
            if names.contains(&a.pred) {
                return true;
            }
        }
        j += 1;
    }
    false
}

fn stale_names(store: &Store, cs: &Vec<Clause>, mark: usize) -> (r: Names)
    requires
        mark <= store@.log.len(),
    ensures
        r@ == stale_readers(store@, clauses_view(cs@), mark as int),
{
    let ghost v = clauses_view(cs@);
    let grown = grown_names(store, mark);
    let mut r: Names = SortedSet::new();
    let mut i: usize = 0;
    while i < cs.len()
        invariant
            i <= cs@.len(),
            v == clauses_view(cs@),
            forall|p: Seq<char>| #[trigger] grown@.contains(p) <==> grew(store@, mark as int, p),
            forall|p: Seq<char>| #[trigger]
                r@.contains(p) <==> exists|ci: int|
                    0 <= ci < i && reads_grown(store@, mark as int, #[trigger] v[ci]) && owner(v[ci], ci) == p,
        decreases cs@.len() - i,
    {
        let c = &cs[i];
        let ghost r0 = r@;
        assert(v[i as int] == c@);
        if !c.is_fact && negates_any(c, &grown) {
            r.insert(owner_of(c, i));
            proof {
                let j = choose|j: int| 0 <= j < c@.body.len() && (match #[trigger] c@.body[j] {
                    LitV::Neg(a) => grown@.contains(a.pred),
                    _ => false,
                });
                assert(negates_grown(store@, mark as int, c@.body[j]));
            }
        } else {
            proof {
                if reads_grown(store@, mark as int, c@) {
                    let j = choose|j: int| 0 <= j < c@.body.len() && negates_grown(store@, mark as int, #[trigger] c@.body[j]);
                    assert(match c@.body[j] {
                        LitV::Neg(a) => grown@.contains(a.pred),
                        _ => false,
                    });
                }
            }
        }
        proof {
            assert forall|p: Seq<char>| #[trigger] r@.contains(p) <==> exists|ci: int|
                0 <= ci < i + 1 && reads_grown(store@, mark as int, #[trigger] v[ci]) && owner(v[ci], ci) == p by {
                if r0.contains(p) {
                    let ci = choose|ci: int|
                        0 <= ci < i && reads_grown(store@, mark as int, #[trigger] v[ci]) && owner(v[ci], ci) == p;
                    assert(0 <= ci < i + 1 && reads_grown(store@, mark as int, v[ci]));
                }
                if r@.contains(p) && !r0.contains(p) {
                    assert(reads_grown(store@, mark as int, v[i as int]));
                }
            }
        }
        i += 1;
    }
    assert(r@ =~= stale_readers(store@, v, mark as int));
    r
}

impl Engine {
    /// An engine without program or facts.
    pub fn new() -> (r: Engine)
        ensures
            r@ == engine_new(),
            engine_wf(r@),
    {
        let r = Engine {
            store: Store::new(),
            clauses: Vec::new(),
            now: 0,
            last_demand_facts: 0,
            last_hypothetical_facts: 0,
            rule_batches: Vec::new(),
            program_dirty: true,
            ever_derived: SortedSet::new(),
            last_run_log_len: 0,
            batch_counter: 0,
        };
        assert(r@.clauses =~= Seq::empty());
        assert(r@.batches =~= Seq::empty());
        r
    }

    /// Asserts a base fact with confidence and provenance; tells whether it
    /// is new.
    pub fn declare(&mut self, pred: &str, args: &Vec<Value>, ann: Ann) -> (r: bool)
        requires
            engine_wf(old(self)@),
        ensures
            final(self)@ == (EngineV { st: declared(old(self)@.st, (pred@, args@), ann@), ..old(self)@ }),
            r == !holds(old(self)@.st.rels, (pred@, args@)),
            engine_wf(final(self)@),
    {
        declare_in(&mut self.store, pred, args, ann)
    }

    /// The symbol of a name, made if need be.
    pub fn sym(&mut self, s: &str) -> (r: Value)
        ensures
            r == Value::Sym(interned(old(self)@.st.names, s@)),
            final(self)@ == (EngineV {
                st: StoreV { names: with_name(old(self)@.st.names, s@), ..old(self)@.st },
                ..old(self)@
            }),
    {
        Value::Sym(self.store.interner.intern(s))
    }

    /// Removes a base fact; tells whether it was there. The next run
    /// recomputes what depends on the predicate.
    pub fn retract(&mut self, pred: &str, args: &Vec<Value>) -> (r: bool)
        requires
            engine_wf(old(self)@),
        ensures
            final(self)@ == (EngineV { st: store_retract(old(self)@.st, (pred@, args@)), ..old(self)@ }),
            r == holds(old(self)@.st.rels, (pred@, args@)),
            engine_wf(final(self)@),
    {
        self.store.retract(pred, args)
    }

    /// Sets the clock.
    pub fn set_now(&mut self, now: i64)
        ensures
            final(self)@ == (EngineV { now, ..old(self)@ }),
    {
        self.now = now;
    }

    /// How many runs were completed.
    pub fn epoch(&self) -> (r: u64)
        ensures
            r == self@.st.epoch,
    {
        self.store.epoch
    }

    /// The strata of the program, or why there are none.
    pub fn strata(&self) -> (r: Result<Vec<Vec<usize>>, StratError>)
        ensures
            match r {
                Ok(s) => strata_error(self@.clauses) is None && strata_view(s@) == strata_of(self@.clauses) && is_strata(
                    self@.clauses,
                    strata_view(s@),
                ),
                Err(e) => strata_error(self@.clauses) == Some(e.0@),
            },
    {
        strata(&self.clauses)
    }

    /// Whether the program can be evaluated, or why not.
    pub fn check_program(&self) -> (r: Result<(), StratError>)
        ensures
            match r {
                Ok(_) => strata_error(self@.clauses) is None,
                Err(e) => strata_error(self@.clauses) == Some(e.0@),
            },
    {
        match strata(&self.clauses) {
            Ok(_) => Ok(()),
            Err(e) => Err(e),
        }
    }

    /// Runs, or incrementally re-runs, the program. Gives the number of new
    /// facts. What was pending is consumed.
    pub fn run(&mut self) -> (r: usize)
        requires
            engine_wf(old(self)@),
        ensures
            final(self)@ == ran(old(self)@).0,
            r == ran(old(self)@).1,
            engine_wf(final(self)@),
            final(self)@.st.log.len() >= old(self)@.st.log.len(),
            strata_error(old(self)@.clauses) is None ==> run_settles(old(self)@),
    {
        let ghost e0 = self@;
        let ghost cs = self@.clauses;
        let plan = strata(&self.clauses);
        if self.program_dirty {
            if let Ok(s) = &plan {
                proof {
                    lemma_strata_fit(cs, strata_view(s@));
                }
                program_recompute(&mut self.store, &self.clauses, s, &self.ever_derived);
                self.program_dirty = false;
            }
        }
        declare_program_facts(&mut self.store, &self.clauses);
        assert(self@ == prepared(e0));
        let strata = match plan {
            Ok(s) => s,
            Err(_) => {
                return 0;
            },
        };
        let ghost sv = strata_view(strata@);
        proof {
            lemma_strata_fit(cs, sv);
        }
        let ghost st1 = self.store@;
        let ghost want = eval_strata(st1, self.now, cs, sv, 0);
        let mut derived: usize = 0;
        let mut s: usize = 0;
        while s < strata.len()
            invariant
                s <= strata@.len(),
                sv == strata_view(strata@),
                cs == clauses_view(self.clauses@),
                strata_fit(sv, cs.len() as int),
                self.clauses == old(self).clauses,
                self.now == old(self).now,
                self.program_dirty == prepared(e0).dirty,
                self@ == (EngineV { st: self.store@, ..prepared(e0) }),
                rels_wf(self.store@.rels),
                st1.log.len() <= self.store@.log.len(),
                derived <= self.store@.log.len() - st1.log.len(),
                ({
                    let rest = eval_strata(self.store@, self.now, cs, sv, s as int);
                    want == EvalV { st: rest.st, new: rest.new + derived as nat }
                }),
                strata_settle(self.store@, self.now, cs, sv, s as int) ==> strata_settle(st1, self.now, cs, sv, 0),
            decreases strata@.len() - s,
        {
            assert(sv[s as int] == ids_view(strata@[s as int]@));
            assert(indices_of(sv[s as int], cs.len() as int));
            let d = eval_stratum(&mut self.store, self.now, &self.clauses, &strata[s]);
            let size: usize = self.store.change_log.len();
            assert(size == self.store@.log.len());
            derived += d;
            s += 1;
        }
        let ghost st2 = self.store@;
        let ghost d2 = derived as nat;
        let mark = self.last_run_log_len;
        let limit: u128 = strata.len() as u128 + 2;
        let ghost inv = invalidate(st2, self.now, cs, sv, mark as int, limit as nat);
        let mut round: u128 = 0;
        let mut stale = stale_names(&self.store, &self.clauses, mark);
        while round < limit && !(self.store.retracted.is_empty() && stale.is_empty())
            invariant
                round <= limit,
                mark == e0.mark,
                sv == strata_view(strata@),
                cs == clauses_view(self.clauses@),
                strata_fit(sv, cs.len() as int),
                self.clauses == old(self).clauses,
                self.now == old(self).now,
                self@ == (EngineV { st: self.store@, ..prepared(e0) }),
                rels_wf(self.store@.rels),
                mark <= self.store@.log.len(),
                st1.log.len() <= self.store@.log.len(),
                derived <= self.store@.log.len() - st1.log.len(),
                stale@ == stale_readers(self.store@, cs, mark as int),
                ({
                    let rest = invalidate(self.store@, self.now, cs, sv, mark as int, (limit - round) as nat);
                    inv == EvalV { st: rest.st, new: (rest.new + derived - d2) as nat }
                }),
                invalidate_settles(self.store@, self.now, cs, sv, mark as int, (limit - round) as nat) ==> invalidate_settles(
                    st2,
                    self.now,
                    cs,
                    sv,
                    mark as int,
                    limit as nat,
                ),
                d2 <= derived,
            decreases limit - round,
        {
            let d = scoped_recompute(&mut self.store, self.now, &self.clauses, &strata, &stale);
            let size: usize = self.store.change_log.len();
            assert(size == self.store@.log.len());
            derived += d;
            stale = stale_names(&self.store, &self.clauses, mark);
            round += 1;
        }
        self.last_run_log_len = self.store.change_log.len();
        self.store.relations.settle();
        self.store.epoch = self.store.epoch.wrapping_add(1);
        derived
    }
}

} // verus!

//! Rule batches: installing and uninstalling parts of the program.

use vstd::prelude::*;
use vstd::string::StringExecFns;
use crate::ast::{clauses_view, Clause, ClauseV};
use crate::engine::{batches_view, engine_wf, BatchV, Engine, EngineV};
use crate::evaluate::{agg_temp_pred, temp_name};
use crate::parser::{parse_program, parsed, ParseError};
use crate::recompute::Names;
use crate::stratify::{aggregates, is_agg_clause, strata, strata_error, StratError};
use crate::text::{nat_text, nat_to_text, str_eq};

verus! {

/// Why a program or a goal was rejected.
#[derive(Debug)]
pub enum ProgramError {
    Parse(ParseError),
    Strat(StratError),
}

/// The value of a [`ProgramError`].
pub enum ProgramErrorV {
    Parse(Seq<char>),
    Strat(Seq<char>),
}

impl View for ProgramError {
    type V = ProgramErrorV;

    open spec fn view(&self) -> ProgramErrorV {
        match *self {
            ProgramError::Parse(e) => ProgramErrorV::Parse(e.0@),
            ProgramError::Strat(e) => ProgramErrorV::Strat(e.0@),
        }
    }
}

/// The message of a rejection.
pub open spec fn error_text(e: ProgramErrorV) -> Seq<char> {
    match e {
        ProgramErrorV::Parse(m) => "parse error: "@ + m,
        ProgramErrorV::Strat(m) => "stratification error: "@ + m,
    }
}

impl ProgramError {
    /// The message for a reader.
    pub fn message(&self) -> (r: String)
        ensures
            r@ == error_text(self@),
    {
        match self {
            ProgramError::Parse(e) => e.message(),
            ProgramError::Strat(e) => e.message(),
        }
    }
}

// -------------------------------------------------------------- installing

/// The relation is filled by a rule at or after the given index.
pub open spec fn newly_derived(cs: Seq<ClauseV>, from: int, p: Seq<char>) -> bool {
    exists|ci: int|
        from <= ci < cs.len() && !(#[trigger] cs[ci]).is_fact && (cs[ci].head.pred == p || (aggregates(cs[ci]) && temp_name(
            cs[ci],
            ci,
        ) == p))
}

/// The id of the next batch.
pub open spec fn next_batch(counter: u64) -> Seq<char> {
    "batch"@ + nat_text(counter.wrapping_add(1) as nat)
}

/// The engine after installing clauses as a batch.
pub open spec fn with_batch(e: EngineV, cs: Seq<ClauseV>, src: Seq<char>) -> EngineV {
    let all = e.clauses + cs;
    EngineV {
        clauses: all,
        batches: e.batches.push((next_batch(e.counter), src, all.len() as int)),
        dirty: true,
        ever: Set::new(|p: Seq<char>| e.ever.contains(p) || newly_derived(all, e.clauses.len() as int, p)),
        counter: e.counter.wrapping_add(1),
        ..e
    }
}

/// Installing a program: the engine with the new batch, or why it was
/// rejected.
pub open spec fn installed(e: EngineV, src: Seq<char>) -> Result<EngineV, ProgramErrorV> {
    match parsed(src) {
        Err(m) => Err(ProgramErrorV::Parse(m)),
        Ok(cs) => match strata_error(e.clauses + cs) {
            Some(m) => Err(ProgramErrorV::Strat(m)),
            None => Ok(with_batch(e, cs, src)),
        },
    }
}

fn add_derived(ever: &mut Names, cs: &Vec<Clause>, from: usize)
    requires
        from <= cs@.len(),
    ensures
        final(ever)@ == Set::new(
            |p: Seq<char>| old(ever)@.contains(p) || newly_derived(clauses_view(cs@), from as int, p),
        ),
{
    let ghost v = clauses_view(cs@);
    let ghost e0 = ever@;
    let mut i: usize = from;
    while i < cs.len()
        invariant
            from <= i <= cs@.len(),
            v == clauses_view(cs@),
            forall|p: Seq<char>| #[trigger] ever@.contains(p) <==> e0.contains(p) || newly_derived(v.take(i as int), from as int, p),
        decreases cs@.len() - i,
    {
        let c = &cs[i];
        assert(v[i as int] == c@);
        let ghost e1 = ever@;
        if !c.is_fact {
            ever.insert(c.head.pred.clone());
            if is_agg_clause(c) {
                ever.insert(agg_temp_pred(c, i));
            }
        }
        proof {
            let t0 = v.take(i as int);
            let t1 = v.take(i + 1);
            assert forall|p: Seq<char>| #[trigger] ever@.contains(p) <==> e0.contains(p) || newly_derived(t1, from as int, p) by {
                if newly_derived(t0, from as int, p) {
                    let ci = choose|ci: int|
                        from <= ci < t0.len() && !(#[trigger] t0[ci]).is_fact && (t0[ci].head.pred == p || (aggregates(t0[ci])
                            && temp_name(t0[ci], ci) == p));
                    assert(t1[ci] == t0[ci]);
                }
                if newly_derived(t1, from as int, p) {
                    let ci = choose|ci: int|
                        from <= ci < t1.len() && !(#[trigger] t1[ci]).is_fact && (t1[ci].head.pred == p || (aggregates(t1[ci])
                            && temp_name(t1[ci], ci) == p));
                    if ci < i {
                        assert(t0[ci] == t1[ci]);
                        assert(newly_derived(t0, from as int, p));
                    }
                }
                if ever@.contains(p) && !e1.contains(p) {
                    assert(t1[i as int] == c@);
                }
            }
        }
        i += 1;
    }
    proof {
        assert(v.take(v.len() as int) =~= v);
        assert(ever@ =~= Set::new(|p: Seq<char>| e0.contains(p) || newly_derived(v, from as int, p)));
    }
}

impl Engine {
    /// Installs a program as a new batch and gives the batch's id. A program
    /// that does not parse, or that cannot be stratified together with what
    /// is installed, is rejected whole.
    pub fn install_program(&mut self, src: &str) -> (r: Result<String, ProgramError>)
        ensures
            match r {
                Ok(id) => installed(old(self)@, src@) == Ok::<EngineV, ProgramErrorV>(final(self)@) && id@ == next_batch(
                    old(self)@.counter,
                ),
                Err(e) => installed(old(self)@, src@) == Err::<EngineV, ProgramErrorV>(e@) && final(self)@ == old(self)@,
            },
            engine_wf(old(self)@) ==> engine_wf(final(self)@),
    {
        let ghost e0 = self@;
        let new = match parse_program(src) {
            Ok(cs) => cs,
            Err(e) => {
                return Err(ProgramError::Parse(e));
            },
        };
        let ghost nv = clauses_view(new@);
        let mut all: Vec<Clause> = Vec::new();
        let mut i: usize = 0;
        while i < self.clauses.len()
            invariant
                i <= self.clauses@.len(),
                all@.len() == i,
                forall|j: int| 0 <= j < i ==> (#[trigger] all@[j])@ == self.clauses@[j]@,
            decreases self.clauses@.len() - i,
        {
            all.push(self.clauses[i].duplicate());
            i += 1;
        }
        let from: usize = all.len();
        let mut j: usize = 0;
        while j < new.len()
            invariant
                j <= new@.len(),
                from == self.clauses@.len(),
                all@.len() == from + j,
                forall|k: int| 0 <= k < from ==> (#[trigger] all@[k])@ == self.clauses@[k]@,
                forall|k: int| from <= k < from + j ==> (#[trigger] all@[k])@ == new@[k - from]@,
            decreases new@.len() - j,
        {
            all.push(new[j].duplicate());
            j += 1;
        }
        assert(clauses_view(all@) =~= e0.clauses + nv);
        if let Err(e) = strata(&all) {
            return Err(ProgramError::Strat(e));
        }
        self.batch_counter = self.batch_counter.wrapping_add(1);
        let mut id = "batch".to_owned();
        let n = nat_to_text(self.batch_counter);
        id.append(n.as_str());
        add_derived(&mut self.ever_derived, &all, from);
        let ghost b0 = batches_view(self.rule_batches@);
        self.rule_batches.push((id.clone(), src.to_owned(), all.len()));
        assert(batches_view(self.rule_batches@) =~= b0.push((id@, src@, all@.len() as int)));
        self.clauses = all;
        self.program_dirty = true;
        assert(self@ =~= with_batch(e0, nv, src@));
        Ok(id)
    }

    /// The installed batches: ids and sources.
    pub fn batches(&self) -> (r: Vec<(String, String)>)
        ensures
            r@.len() == self@.batches.len(),
            forall|i: int|
                0 <= i < r@.len() ==> (#[trigger] r@[i]).0@ == self@.batches[i].0 && r@[i].1@ == self@.batches[i].1,
    {
        let mut r: Vec<(String, String)> = Vec::new();
        let mut i: usize = 0;
        while i < self.rule_batches.len()
            invariant
                i <= self.rule_batches@.len(),
                r@.len() == i,
                forall|j: int|
                    0 <= j < i ==> (#[trigger] r@[j]).0@ == self.rule_batches@[j].0@ && r@[j].1@ == self.rule_batches@[j].1@,
            decreases self.rule_batches@.len() - i,
        {
            r.push((self.rule_batches[i].0.clone(), self.rule_batches[i].1.clone()));
            i += 1;
        }
        r
    }

    /// Uninstalls a batch; tells whether there was one with that id. What its
    /// rules derived goes away in the next run.
    pub fn uninstall(&mut self, id: &str) -> (r: bool)
        ensures
            r == (batch_position(old(self)@.batches, id@, 0) is Some),
            final(self)@ == uninstalled(old(self)@, id@),
            engine_wf(old(self)@) ==> engine_wf(final(self)@),
    {
        let ghost e0 = self@;
        let ghost bs = self@.batches;
        let mut pos: usize = 0;
        while pos < self.rule_batches.len() && !str_eq(self.rule_batches[pos].0.as_str(), id)
            invariant
                pos <= self.rule_batches@.len(),
                bs == batches_view(self.rule_batches@),
                batch_position(bs, id@, 0) == batch_position(bs, id@, pos as int),
            decreases self.rule_batches@.len() - pos,
        {
            assert(bs[pos as int].0 == self.rule_batches@[pos as int].0@);
            pos += 1;
        }
        if pos == self.rule_batches.len() {
            return false;
        }
        assert(bs[pos as int].0 == self.rule_batches@[pos as int].0@);
        let gone = self.rule_batches.remove(pos);
        let end = gone.2;
        let ghost rest = batches_view(self.rule_batches@);
        assert(rest =~= bs.remove(pos as int));
        let start: usize = if pos > 0 {
            assert(rest[pos - 1] == bs[pos - 1]);
            self.rule_batches[pos - 1].2
        } else {
            0
        };
        assert(start == batch_start(bs, pos as int));
        if start <= end && end <= self.clauses.len() {
            let mut kept: Vec<Clause> = Vec::new();
            let mut i: usize = 0;
            let n: usize = self.clauses.len();
            let removed: usize = end - start;
            let ghost cv = e0.clauses;
            while i < n
                invariant
                    i <= n,
                    n == self.clauses@.len(),
                    cv == clauses_view(self.clauses@),
                    start <= end <= n,
                    removed == end - start,
                    kept@.len() == (if i < start {
                        i as int
                    } else if i < end {
                        start as int
                    } else {
                        i - removed
                    }),
                    forall|j: int|
                        0 <= j < kept@.len() ==> (#[trigger] kept@[j])@ == (if j < start {
                            cv[j]
                        } else {
                            cv[j + removed]
                        }),
                decreases n - i,
            {
                assert(cv[i as int] == self.clauses@[i as int]@);
                if i < start || i >= end {
                    kept.push(self.clauses[i].duplicate());
                }
                i += 1;
            }
            assert(clauses_view(kept@) =~= cv.take(start as int) + cv.skip(end as int));
            self.clauses = kept;
            add_derived(&mut self.ever_derived, &self.clauses, start);
            let ghost ever = self.ever_derived@;
            let mut k: usize = 0;
            let m: usize = self.rule_batches.len();
            while k < m
                invariant
                    k <= m,
                    m == self.rule_batches@.len(),
                    m == rest.len(),
                    start <= end,
                    removed == end - start,
                    forall|j: int|
                        0 <= j < k ==> batches_view(self.rule_batches@)[j] == (if j < pos {
                            #[trigger] rest[j]
                        } else {
                            moved_end(rest[j], start as int, end as int)
                        }),
                    forall|j: int| k <= j < m ==> batches_view(self.rule_batches@)[j] == #[trigger] rest[j],
                    self@ == (EngineV { batches: batches_view(self.rule_batches@), clauses: clauses_view(kept@), ever, ..e0 }),
                decreases m - k,
            {
                let ghost b1 = self.rule_batches@;
                assert(batches_view(b1)[k as int] == rest[k as int]);
                if k >= pos && self.rule_batches[k].2 >= end {
                    let e2: usize = self.rule_batches[k].2 - removed;
                    self.rule_batches[k].2 = e2;
                }
                proof {
                    let b2 = self.rule_batches@;
                    assert forall|j: int| 0 <= j < m && j != k implies #[trigger] batches_view(b2)[j] == batches_view(b1)[j] by {
                        assert(b2[j] == b1[j]);
                    }
                    assert(k >= pos ==> batches_view(b2)[k as int] == moved_end(rest[k as int], start as int, end as int));
                }
                k += 1;
            }
            proof {
                let got = batches_view(self.rule_batches@);
                let want = batches_without(bs, pos as int, start as int, end as int);
                assert forall|j: int| 0 <= j < got.len() implies got[j] == #[trigger] want[j] by {
                    assert(rest[j] == (if j < pos {
                        bs[j]
                    } else {
                        bs[j + 1]
                    }));
                }
                assert(got =~= want);
            }
        }
        self.program_dirty = true;
        assert(self@ =~= uninstalled(e0, id@));
        true
    }
}

// ------------------------------------------------------------ uninstalling

/// The first batch with an id, from position `i` on.
pub open spec fn batch_position(bs: Seq<BatchV>, id: Seq<char>, i: int) -> Option<int>
    decreases bs.len() - i,
{
    if i < 0 || i >= bs.len() {
        None
    } else if bs[i].0 == id {
        Some(i)
    } else {
        batch_position(bs, id, i + 1)
    }
}

/// Where the clauses of a batch start.
pub open spec fn batch_start(bs: Seq<BatchV>, pos: int) -> int {
    if pos > 0 {
        bs[pos - 1].2
    } else {
        0
    }
}

/// A batch behind the clauses from `start` to `end`, after they are gone.
pub open spec fn moved_end(b: BatchV, start: int, end: int) -> BatchV {
    if b.2 >= end {
        (b.0, b.1, b.2 - (end - start))
    } else {
        b
    }
}

/// The batches without the one at a position, whose clauses went from `start`
/// to `end`.
pub open spec fn batches_without(bs: Seq<BatchV>, pos: int, start: int, end: int) -> Seq<BatchV> {
    Seq::new(
        (bs.len() - 1) as nat,
        |i: int|
            if i < pos {
                bs[i]
            } else {
                moved_end(bs[i + 1], start, end)
            },
    )
}

/// The engine without a batch. The clauses behind it move up, so that their
/// intermediate relations get other names.
pub open spec fn uninstalled(e: EngineV, id: Seq<char>) -> EngineV {
    match batch_position(e.batches, id, 0) {
        None => e,
        Some(pos) => {
            let end = e.batches[pos].2;
            let start = batch_start(e.batches, pos);
            let rest = e.batches.remove(pos);
            if start <= end <= e.clauses.len() {
                EngineV {
                    clauses: e.clauses.take(start) + e.clauses.skip(end),
                    batches: batches_without(e.batches, pos, start, end),
                    dirty: true,
                    ever: Set::new(
                        |p: Seq<char>|
                            e.ever.contains(p) || newly_derived(e.clauses.take(start) + e.clauses.skip(end), start, p),
                    ),
                    ..e
                }
            } else {
                EngineV { batches: rest, dirty: true, ..e }
            }
        },
    }
}

/// The batches cover the clauses, each from where the one before it ends.
pub open spec fn tiled(e: EngineV) -> bool {
    &&& e.clauses.len() == (if e.batches.len() > 0 {
        e.batches.last().2
    } else {
        0
    })
    &&& forall|i: int| 0 <= i < e.batches.len() ==> 0 <= batch_start(e.batches, i) <= (#[trigger] e.batches[i]).2
}

/// The clauses of a batch.
pub open spec fn owned(e: EngineV, i: int) -> Seq<ClauseV> {
    e.clauses.subrange(batch_start(e.batches, i), e.batches[i].2)
}

proof fn lemma_ends_ordered(e: EngineV, i: int, j: int)
    requires
        tiled(e),
        0 <= i <= j < e.batches.len(),
    ensures
        e.batches[i].2 <= e.batches[j].2 <= e.clauses.len(),
    decreases e.batches.len() - i,
{
    if i + 1 < e.batches.len() {
        assert(batch_start(e.batches, i + 1) <= e.batches[i + 1].2);
        if i < j {
            lemma_ends_ordered(e, i + 1, j);
        } else {
            lemma_ends_ordered(e, i + 1, i + 1);
        }
    }
}

proof fn lemma_batch_position(bs: Seq<BatchV>, id: Seq<char>, i: int, k: int)
    requires
        0 <= i <= k < bs.len(),
        bs[k].0 == id,
        forall|j: int| i <= j < k ==> (#[trigger] bs[j]).0 != id,
    ensures
        batch_position(bs, id, i) == Some(k),
    decreases k - i,
{
    if i < k {
        lemma_batch_position(bs, id, i + 1, k);
    }
}

pub proof fn lemma_position_found(bs: Seq<BatchV>, id: Seq<char>, i: int)
    requires
        0 <= i,
        batch_position(bs, id, i) is Some,
    ensures
        i <= batch_position(bs, id, i)->Some_0 < bs.len(),
        bs[batch_position(bs, id, i)->Some_0].0 == id,
    decreases bs.len() - i,
{
    if i < bs.len() && bs[i].0 != id {
        lemma_position_found(bs, id, i + 1);
    }
}

/// Law: uninstalling the batch that was just installed gives back the clauses
/// and the batches that there were.
pub proof fn install_uninstall(e: EngineV, src: Seq<char>)
    requires
        installed(e, src) is Ok,
        tiled(e),
        forall|i: int| 0 <= i < e.batches.len() ==> (#[trigger] e.batches[i]).0 != next_batch(e.counter),
    ensures
        uninstalled(installed(e, src)->Ok_0, next_batch(e.counter)).clauses == e.clauses,
        uninstalled(installed(e, src)->Ok_0, next_batch(e.counter)).batches == e.batches,
        uninstalled(installed(e, src)->Ok_0, next_batch(e.counter)).st == e.st,
{
    let f = installed(e, src)->Ok_0;
    let id = next_batch(e.counter);
    let k = e.batches.len() as int;
    assert forall|j: int| 0 <= j < k implies (#[trigger] f.batches[j]).0 != id by {
        assert(f.batches[j] == e.batches[j]);
    }
    lemma_batch_position(f.batches, id, 0, k);
    let start = batch_start(f.batches, k);
    assert(start == e.clauses.len());
    let u = uninstalled(f, id);
    assert(u.clauses =~= e.clauses);
    assert(u.batches =~= e.batches);
}

/// Law: installing keeps the clauses covered by batches, gives the new batch
/// its clauses, and leaves every other batch its own.
pub proof fn install_tiles(e: EngineV, src: Seq<char>)
    requires
        installed(e, src) is Ok,
        tiled(e),
    ensures
        tiled(installed(e, src)->Ok_0),
        parsed(src) == Ok::<Seq<ClauseV>, Seq<char>>(owned(installed(e, src)->Ok_0, e.batches.len() as int)),
        forall|i: int| 0 <= i < e.batches.len() ==> #[trigger] owned(installed(e, src)->Ok_0, i) == owned(e, i),
{
    let f = installed(e, src)->Ok_0;
    let n = e.batches.len() as int;
    assert forall|i: int| 0 <= i < f.batches.len() implies 0 <= batch_start(f.batches, i) <= (#[trigger] f.batches[i]).2 by {
        if i < n {
            assert(f.batches[i] == e.batches[i]);
            assert(0 <= batch_start(e.batches, i) <= e.batches[i].2);
        }
    }
    assert(owned(f, n) =~= parsed(src)->Ok_0);
    assert forall|i: int| 0 <= i < n implies #[trigger] owned(f, i) == owned(e, i) by {
        lemma_ends_ordered(e, i, i);
        assert(f.batches[i] == e.batches[i]);
        assert(batch_start(f.batches, i) == batch_start(e.batches, i));
        assert(0 <= batch_start(e.batches, i) <= e.batches[i].2);
        assert(owned(f, i) =~= owned(e, i));
    }
}

/// Law: uninstalling a batch takes its clauses and nothing else. The batches
/// Where the batches end and start once the one at `pos` is gone.
proof fn lemma_batches_after(e: EngineV, pos: int)
    requires
        tiled(e),
        0 <= pos < e.batches.len(),
    ensures
        ({
            let start = batch_start(e.batches, pos);
            let end = e.batches[pos].2;
            let bs = batches_without(e.batches, pos, start, end);
            &&& 0 <= start <= end <= e.clauses.len()
            &&& forall|i: int|
                0 <= i < pos ==> #[trigger] bs[i] == e.batches[i] && batch_start(bs, i) == batch_start(e.batches, i)
            &&& forall|i: int|
                pos <= i < bs.len() ==> (#[trigger] bs[i]).0 == e.batches[i + 1].0 && bs[i].2 == e.batches[i + 1].2 - (end - start)
                    && batch_start(bs, i) == batch_start(e.batches, i + 1) - (end - start)
        }),
{
    let start = batch_start(e.batches, pos);
    let end = e.batches[pos].2;
    let bs = batches_without(e.batches, pos, start, end);
    lemma_ends_ordered(e, pos, pos);
    assert forall|i: int| 0 <= i < pos implies #[trigger] bs[i] == e.batches[i] && batch_start(bs, i) == batch_start(
        e.batches,
        i,
    ) by {
        if i > 0 {
            assert(bs[i - 1] == e.batches[i - 1]);
        }
    }
    assert forall|i: int| pos <= i < bs.len() implies (#[trigger] bs[i]).0 == e.batches[i + 1].0 && bs[i].2 == e.batches[i
        + 1].2 - (end - start) && batch_start(bs, i) == batch_start(e.batches, i + 1) - (end - start) by {
        lemma_ends_ordered(e, pos, i + 1);
        if i > pos {
            lemma_ends_ordered(e, pos, i);
            assert(bs[i - 1] == moved_end(e.batches[i], start, end));
        } else if pos > 0 {
            assert(bs[pos - 1] == e.batches[pos - 1]);
        }
    }
}

proof fn lemma_tiled_after(e: EngineV, pos: int, u: EngineV)
    requires
        tiled(e),
        0 <= pos < e.batches.len(),
        u.batches == batches_without(e.batches, pos, batch_start(e.batches, pos), e.batches[pos].2),
        u.clauses == e.clauses.take(batch_start(e.batches, pos)) + e.clauses.skip(e.batches[pos].2),
    ensures
        tiled(u),
{
    lemma_batches_after(e, pos);
    let gone = e.batches[pos].2 - batch_start(e.batches, pos);
    assert forall|i: int| 0 <= i < u.batches.len() implies 0 <= batch_start(u.batches, i) <= (#[trigger] u.batches[i]).2 by {
        if i < pos {
            assert(0 <= batch_start(e.batches, i) <= e.batches[i].2);
        } else {
            assert(batch_start(e.batches, i + 1) <= e.batches[i + 1].2);
            lemma_ends_ordered(e, pos, i);
        }
    }
    let last = u.batches.len() - 1;
    if last >= pos {
        assert(u.batches[last].2 == e.batches[last + 1].2 - gone);
    } else if last >= 0 {
        assert(u.batches[last] == e.batches[last]);
    }
}

#[verifier::rlimit(40)]
proof fn lemma_owned_after(e: EngineV, pos: int, u: EngineV, i: int)
    requires
        tiled(e),
        0 <= pos < e.batches.len(),
        u.batches == batches_without(e.batches, pos, batch_start(e.batches, pos), e.batches[pos].2),
        u.clauses == e.clauses.take(batch_start(e.batches, pos)) + e.clauses.skip(e.batches[pos].2),
        0 <= i < u.batches.len(),
    ensures
        owned(u, i) == owned(e, if i < pos {
            i
        } else {
            i + 1
        }),
{
    lemma_batches_after(e, pos);
    let start = batch_start(e.batches, pos);
    let end = e.batches[pos].2;
    if i < pos {
        assert(u.batches[i] == e.batches[i]);
        lemma_ends_ordered(e, i, pos - 1);
        assert(0 <= batch_start(e.batches, i) <= e.batches[i].2);
        assert(owned(u, i) =~= owned(e, i));
    } else {
        assert(u.batches[i].2 == e.batches[i + 1].2 - (end - start));
        lemma_ends_ordered(e, pos, i);
        lemma_ends_ordered(e, i, i + 1);
        assert forall|k: int| 0 <= k < owned(u, i).len() implies owned(u, i)[k] == #[trigger] owned(e, i + 1)[k] by {
            assert(owned(u, i)[k] == u.clauses[batch_start(u.batches, i) + k]);
        }
        assert(owned(u, i) =~= owned(e, i + 1));
    }
}

/// Law: uninstalling a batch takes its clauses and no others. The batches
/// still cover the clauses, and every other batch owns the clauses that it
/// owned.
pub proof fn uninstall_keeps_others(e: EngineV, id: Seq<char>)
    requires
        tiled(e),
        batch_position(e.batches, id, 0) is Some,
    ensures
        ({
            let pos = batch_position(e.batches, id, 0)->Some_0;
            let u = uninstalled(e, id);
            &&& 0 <= pos < e.batches.len()
            &&& e.batches[pos].0 == id
            &&& tiled(u)
            &&& u.dirty
            &&& u.batches.len() == e.batches.len() - 1
            &&& u.clauses == e.clauses.take(batch_start(e.batches, pos)) + e.clauses.skip(e.batches[pos].2)
            &&& forall|i: int| 0 <= i < pos ==> #[trigger] owned(u, i) == owned(e, i) && u.batches[i].0 == e.batches[i].0
            &&& forall|i: int|
                pos <= i < u.batches.len() ==> #[trigger] owned(u, i) == owned(e, i + 1) && u.batches[i].0 == e.batches[i + 1].0
        }),
{
    lemma_position_found(e.batches, id, 0);
    let pos = batch_position(e.batches, id, 0)->Some_0;
    let u = uninstalled(e, id);
    lemma_batches_after(e, pos);
    lemma_tiled_after(e, pos, u);
    assert forall|i: int| 0 <= i < pos implies #[trigger] owned(u, i) == owned(e, i) && u.batches[i].0 == e.batches[i].0 by {
        lemma_owned_after(e, pos, u, i);
        assert(u.batches[i] == e.batches[i]);
    }
    assert forall|i: int| pos <= i < u.batches.len() implies #[trigger] owned(u, i) == owned(e, i + 1) && u.batches[i].0
        == e.batches[i + 1].0 by {
        lemma_owned_after(e, pos, u, i);
        assert(u.batches[i].0 == e.batches[i + 1].0);
    }
}

} // verus!

//! The update policy: what a candidate fact does to the edges in the store.

use vstd::prelude::*;
use vstd::string::StringExecFns;
use crate::confidence::clamp;
use crate::engine::{declared, engine_wf, Engine, EngineV};
use crate::extract::NINE_TENTHS;
use crate::intern::{interned, shown, with_name};
use crate::protocol::{CandV, CandidateFact};
use crate::query::{hits_view, query_of, table_fact};
use crate::relation::{Ann, AnnV};
use crate::sorted_set::models;
use crate::store::{store_retract, StoreV};
use crate::text::{join, joined, texts};
use crate::value::{copy_key, Value};

verus! {

/// What an ingestion did.
#[derive(Debug)]
pub struct IngestReport {
    pub added: usize,
    pub updated: usize,
    pub noop: usize,
    pub escalations: Vec<String>,
}

/// The value of an [`IngestReport`].
#[verifier::ext_equal]
pub struct ReportV {
    pub added: nat,
    pub updated: nat,
    pub noop: nat,
    pub escalations: Seq<Seq<char>>,
}

impl View for IngestReport {
    type V = ReportV;

    open spec fn view(&self) -> ReportV {
        ReportV {
            added: self.added as nat,
            updated: self.updated as nat,
            noop: self.noop as nat,
            escalations: texts(self.escalations@),
        }
    }
}

pub open spec fn report_new() -> ReportV {
    ReportV { added: 0, updated: 0, noop: 0, escalations: Seq::empty() }
}

impl Default for IngestReport {
    fn default() -> (r: Self)
        ensures
            r@ == report_new(),
    {
        let r = IngestReport { added: 0, updated: 0, noop: 0, escalations: Vec::new() };
        assert(r@.escalations =~= Seq::empty());
        r
    }
}

/// An annotation with one source.
pub open spec fn ann_from(conf: u64, source: Seq<char>) -> AnnV {
    AnnV { conf: clamp(conf), prov: set![source] }
}

/// An annotation with one source.
pub fn ann_of(conf: u64, source: &str) -> (r: Ann)
    ensures
        r@ == ann_from(conf, source@),
{
    let mut v: Vec<String> = Vec::new();
    v.push(source.to_owned());
    proof {
        assert(texts(v@) =~= seq![source@]);
        assert(texts(v@).to_set() =~= set![source@]) by {
            assert(texts(v@)[0] == source@);
        }
    }
    Ann::base(conf, &v)
}

/// The engine with the symbol of a name.
pub open spec fn with_symbol(e: EngineV, s: Seq<char>) -> EngineV {
    EngineV { st: StoreV { names: with_name(e.st.names, s), ..e.st }, ..e }
}

/// An edge is open: it has no end yet.
pub open spec fn is_open() -> spec_fn(Seq<Value>) -> bool {
    |k: Seq<Value>| k[4] == Value::Int(i64::MAX)
}

/// The open edges of a subject and a relation.
pub open spec fn open_edges(e: EngineV, s: Value, p: Value) -> Seq<Seq<Value>> {
    query_of(e.st, "edge"@, seq![Some(s), Some(p), None, None, None, None]).map_values(|h: (Seq<Value>, AnnV)| h.0).filter(
        is_open(),
    )
}

/// A new edge, open from now on.
pub open spec fn new_edge(e: EngineV, s: Value, p: Value, o: Value) -> Seq<Value> {
    seq![s, p, o, Value::Int(e.now), Value::Int(i64::MAX), Value::Int(e.now)]
}

/// The engine after asserting an edge.
pub open spec fn with_edge(e: EngineV, k: Seq<Value>, ann: AnnV) -> EngineV {
    EngineV { st: declared(e.st, ("edge"@, k), ann), ..e }
}

/// The engine after closing the given edges from position `i` on: each is
/// replaced by one that ends now.
pub open spec fn with_closed(e: EngineV, open: Seq<Seq<Value>>, i: int) -> EngineV
    decreases open.len() - i,
{
    if i < 0 || i >= open.len() {
        e
    } else {
        let gone = EngineV { st: store_retract(e.st, ("edge"@, open[i])), ..e };
        with_closed(
            with_edge(gone, open[i].update(4, Value::Int(e.now)), ann_from(NINE_TENTHS, "superseded"@)),
            open,
            i + 1,
        )
    }
}

/// The relation is in a table of the program or of the store.
pub open spec fn in_table(e: EngineV, table: Seq<char>, p: Value, name: Seq<char>) -> bool {
    query_of(e.st, table, seq![Some(p)]).len() > 0 || exists|i: int|
        0 <= i < e.clauses.len() && table_fact(#[trigger] e.clauses[i], table, name)
}

/// The position of the edge with an object, from `i` on.
pub open spec fn edge_to(open: Seq<Seq<Value>>, o: Value, i: int) -> Option<int>
    decreases open.len() - i,
{
    if i < 0 || i >= open.len() {
        None
    } else if open[i][2] == o {
        Some(i)
    } else {
        edge_to(open, o, i + 1)
    }
}

/// The message for a relation with two values that is not known to have many.
pub open spec fn conflict_text(names: Seq<Seq<char>>, c: CandV, source: Seq<char>, open: Seq<Seq<Value>>) -> Seq<char> {
    "conflict: "@ + c.subj + " --"@ + c.pred + "--> "@ + c.obj + " asserted in "@ + source + ", but "@ + c.pred
        + " also open ("@ + joined(open.map_values(|k: Seq<Value>| shown(names, k[2])), ", "@) + ")"@
}

/// What a candidate fact does:
/// - no open edge with its subject and relation: it is added;
/// - an open edge with the same object: its annotation is merged;
/// - open edges with other objects only: where the relation is exclusive they
///   are closed and it is added in their place; where it is set-valued it is
///   added; else it is added and the conflict is escalated.
pub open spec fn applied(e: EngineV, c: CandV, source: Seq<char>, rep: ReportV) -> (EngineV, ReportV) {
    let s = Value::Sym(interned(e.st.names, c.subj));
    let e1 = with_symbol(e, c.subj);
    let p = Value::Sym(interned(e1.st.names, c.pred));
    let e2 = with_symbol(e1, c.pred);
    let o = Value::Sym(interned(e2.st.names, c.obj));
    let e3 = with_symbol(e2, c.obj);
    let open = open_edges(e3, s, p);
    let ann = ann_from(c.confidence, source);
    if open.len() == 0 {
        (with_edge(e3, new_edge(e3, s, p, o), ann), ReportV { added: rep.added + 1, ..rep })
    } else {
        match edge_to(open, o, 0) {
            Some(i) => (with_edge(e3, open[i], ann), ReportV { noop: rep.noop + 1, ..rep }),
            None => if in_table(e3, "exclusive"@, p, c.pred) {
                let e4 = with_closed(e3, open, 0);
                (with_edge(e4, new_edge(e4, s, p, o), ann), ReportV { updated: rep.updated + 1, ..rep })
            } else {
                let e4 = with_edge(e3, new_edge(e3, s, p, o), ann);
                if in_table(e4, "set_valued"@, p, c.pred) {
                    (e4, ReportV { added: rep.added + 1, ..rep })
                } else {
                    (
                        e4,
                        ReportV {
                            added: rep.added + 1,
                            escalations: rep.escalations.push(conflict_text(e4.st.names, c, source, open)),
                            ..rep
                        },
                    )
                }
            },
        }
    }
}

/// Applying the candidates from position `i` on.
pub open spec fn applied_all(e: EngineV, cs: Seq<CandV>, source: Seq<char>, rep: ReportV, i: int) -> (EngineV, ReportV)
    decreases cs.len() - i,
{
    if i < 0 || i >= cs.len() {
        (e, rep)
    } else {
        let r = applied(e, cs[i], source, rep);
        applied_all(r.0, cs, source, r.1, i + 1)
    }
}

fn find_open(engine: &Engine, s: Value, p: Value) -> (r: Vec<Vec<Value>>)
    requires
        engine_wf(engine@),
    ensures
        models(r@) == open_edges(engine@, s, p),
        forall|i: int| 0 <= i < r@.len() ==> (#[trigger] r@[i])@.len() == 6,
{
    let mut pattern: Vec<Option<Value>> = Vec::new();
    pattern.push(Some(s));
    pattern.push(Some(p));
    pattern.push(None);
    pattern.push(None);
    pattern.push(None);
    pattern.push(None);
    assert(pattern@ =~= seq![Some(s), Some(p), None, None, None, None]);
    let hits = engine.query("edge", &pattern);
    let ghost q = query_of(engine@.st, "edge"@, pattern@);
    let ghost ks = q.map_values(|h: (Seq<Value>, AnnV)| h.0);
    let ghost f = is_open();
    let mut r: Vec<Vec<Value>> = Vec::new();
    let mut i: usize = 0;
    assert(ks.take(0) =~= Seq::empty());
    assert(models(r@) =~= ks.take(0).filter(f)) by {
        reveal(Seq::filter);
    }
    assert(hits_view(hits@).len() == hits@.len());
    while i < hits.len()
        invariant
            i <= hits@.len(),
            hits_view(hits@) == q,
            q.len() == hits@.len(),
            q == query_of(engine@.st, "edge"@, pattern@),
            pattern@.len() == 6,
            ks == q.map_values(|h: (Seq<Value>, AnnV)| h.0),
            f == is_open(),
            models(r@) == ks.take(i as int).filter(f),
            forall|j: int| 0 <= j < r@.len() ==> (#[trigger] r@[j])@.len() == 6,
        decreases hits@.len() - i,
    {
        let k = &hits[i].0;
        let ghost r0 = models(r@);
        proof {
            assert(hits_view(hits@)[i as int].0 == k@);
            assert(ks[i as int] == k@);
            lemma_hit_len(engine@.st, "edge"@, pattern@, i as int);
            assert(ks.take(i + 1) =~= ks.take(i as int).push(k@));
            ks.take(i as int).lemma_filter_push(k@, f);
        }
        if k[4] == Value::Int(i64::MAX) {
            r.push(copy_key(k));
            assert(models(r@) =~= r0.push(k@));
        }
        i += 1;
    }
    assert(ks.take(ks.len() as int) =~= ks);
    r
}

/// A query with a pattern gives tuples of its length.
pub proof fn lemma_hit_len(st: StoreV, pred: Seq<char>, pattern: Seq<Option<Value>>, i: int)
    requires
        pattern.len() > 0,
        0 <= i < query_of(st, pred, pattern).len(),
    ensures
        query_of(st, pred, pattern)[i].0.len() == pattern.len(),
{
    let r = st.rels[pred];
    let ids = crate::query::rows_for(r, pattern);
    assert(query_of(st, pred, pattern)[i].0 == r.rows[ids[i]].key);
}

fn is_in_table(engine: &Engine, table: &str, p: Value, name: &str) -> (r: bool)
    requires
        engine_wf(engine@),
    ensures
        r == in_table(engine@, table@, p, name@),
{
    let mut pattern: Vec<Option<Value>> = Vec::new();
    pattern.push(Some(p));
    assert(pattern@ =~= seq![Some(p)]);
    let hits = engine.query(table, &pattern);
    assert(hits_view(hits@).len() == hits@.len());
    hits.len() > 0 || engine.table_holds(table, name)
}

fn assert_open(engine: &mut Engine, s: Value, p: Value, o: Value, conf: u64, source: &str)
    requires
        engine_wf(old(engine)@),
    ensures
        final(engine)@ == with_edge(old(engine)@, new_edge(old(engine)@, s, p, o), ann_from(conf, source@)),
        engine_wf(final(engine)@),
{
    let now = engine.now;
    let mut args: Vec<Value> = Vec::new();
    args.push(s);
    args.push(p);
    args.push(o);
    args.push(Value::Int(now));
    args.push(Value::Int(i64::MAX));
    args.push(Value::Int(now));
    assert(args@ =~= new_edge(engine@, s, p, o));
    engine.declare("edge", &args, ann_of(conf, source));
}

fn write_conflict(engine: &Engine, c: &CandidateFact, source: &str, open: &Vec<Vec<Value>>) -> (r: String)
    requires
        forall|i: int| 0 <= i < open@.len() ==> (#[trigger] open@[i])@.len() == 6,
    ensures
        r@ == conflict_text(engine@.st.names, c@, source@, models(open@)),
{
    let ghost os = models(open@);
    let ghost names = engine@.st.names;
    let mut others: Vec<String> = Vec::new();
    let mut i: usize = 0;
    while i < open.len()
        invariant
            i <= open@.len(),
            os == models(open@),
            names == engine@.st.names,
            forall|j: int| 0 <= j < open@.len() ==> (#[trigger] open@[j])@.len() == 6,
            others@.len() == i,
            forall|j: int| 0 <= j < i ==> (#[trigger] others@[j])@ == shown(names, os[j][2]),
        decreases open@.len() - i,
    {
        assert(os[i as int] == open@[i as int]@);
        others.push(engine.store.interner.display(&open[i][2]));
        i += 1;
    }
    assert(texts(others@) =~= os.map_values(|k: Seq<Value>| shown(names, k[2])));
    let mut m = "conflict: ".to_owned();
    m.append(c.subj.as_str());
    m.append(" --");
    m.append(c.pred.as_str());
    m.append("--> ");
    m.append(c.obj.as_str());
    m.append(" asserted in ");
    m.append(source);
    m.append(", but ");
    m.append(c.pred.as_str());
    m.append(" also open (");
    let list = join(&others, ", ");
    m.append(list.as_str());
    m.append(")");
    m
}

fn close_edges(engine: &mut Engine, open: &Vec<Vec<Value>>)
    requires
        engine_wf(old(engine)@),
        forall|i: int| 0 <= i < open@.len() ==> (#[trigger] open@[i])@.len() == 6,
    ensures
        final(engine)@ == with_closed(old(engine)@, models(open@), 0),
        engine_wf(final(engine)@),
{
    let ghost os = models(open@);
    let ghost want = with_closed(engine@, os, 0);
    let mut i: usize = 0;
    while i < open.len()
        invariant
            i <= open@.len(),
            os == models(open@),
            forall|j: int| 0 <= j < open@.len() ==> (#[trigger] open@[j])@.len() == 6,
            engine_wf(engine@),
            want == with_closed(engine@, os, i as int),
        decreases open@.len() - i,
    {
        assert(os[i as int] == open@[i as int]@);
        let mut closed = copy_key(&open[i]);
        closed[4] = Value::Int(engine.now);
        engine.retract("edge", &open[i]);
        engine.declare("edge", &closed, ann_of(NINE_TENTHS, "superseded"));
        i += 1;
    }
}

/// Applies one candidate fact.
pub fn apply_update(engine: &mut Engine, c: &CandidateFact, source: &str, report: &mut IngestReport)
    requires
        engine_wf(old(engine)@),
        old(report).added < usize::MAX,
        old(report).updated < usize::MAX,
        old(report).noop < usize::MAX,
    ensures
        final(engine)@ == applied(old(engine)@, c@, source@, old(report)@).0,
        final(report)@ == applied(old(engine)@, c@, source@, old(report)@).1,
        engine_wf(final(engine)@),
{
    let ghost esc0 = texts(report.escalations@);
    let s = engine.sym(c.subj.as_str());
    let p = engine.sym(c.pred.as_str());
    let o = engine.sym(c.obj.as_str());
    let open = find_open(engine, s, p);
    let ghost os = models(open@);
    assert(os.len() == open@.len());
    if open.len() == 0 {
        assert_open(engine, s, p, o, c.confidence, source);
        report.added = report.added + 1;
        return;
    }
    let mut i: usize = 0;
    while i < open.len() && open[i][2] != o
        invariant
            i <= open@.len(),
            os == models(open@),
            forall|j: int| 0 <= j < open@.len() ==> (#[trigger] open@[j])@.len() == 6,
            edge_to(os, o, 0) == edge_to(os, o, i as int),
        decreases open@.len() - i,
    {
        assert(os[i as int] == open@[i as int]@);
        i += 1;
    }
    if i < open.len() {
        assert(os[i as int] == open@[i as int]@);
        engine.declare("edge", &open[i], ann_of(c.confidence, source));
        report.noop = report.noop + 1;
        return;
    }
    if is_in_table(engine, "exclusive", p, c.pred.as_str()) {
        close_edges(engine, &open);
        assert_open(engine, s, p, o, c.confidence, source);
        report.updated = report.updated + 1;
    } else {
        assert_open(engine, s, p, o, c.confidence, source);
        if !is_in_table(engine, "set_valued", p, c.pred.as_str()) {
            let m = write_conflict(engine, c, source, &open);
            report.escalations.push(m);
            assert(texts(report.escalations@) =~= esc0.push(m@));
        }
        report.added = report.added + 1;
    }
}

/// Applies candidate facts in turn.
pub fn apply_updates(engine: &mut Engine, cs: &Vec<CandidateFact>, source: &str) -> (r: IngestReport)
    requires
        engine_wf(old(engine)@),
    ensures
        final(engine)@ == applied_all(old(engine)@, crate::protocol::cands_view(cs@), source@, report_new(), 0).0,
        r@ == applied_all(old(engine)@, crate::protocol::cands_view(cs@), source@, report_new(), 0).1,
        engine_wf(final(engine)@),
{
    let ghost cv = crate::protocol::cands_view(cs@);
    let ghost want = applied_all(engine@, cv, source@, report_new(), 0);
    let mut report = IngestReport::default();
    let n: usize = cs.len();
    let mut i: usize = 0;
    while i < n
        invariant
            i <= n,
            n == cs@.len(),
            cv == crate::protocol::cands_view(cs@),
            engine_wf(engine@),
            report.added <= i,
            report.updated <= i,
            report.noop <= i,
            want == applied_all(engine@, cv, source@, report@, i as int),
        decreases n - i,
    {
        assert(cv[i as int] == cs@[i as int]@);
        let ghost rep = report@;
        let ghost e = engine@;
        apply_update(engine, &cs[i], source, &mut report);
        assert(report@.added <= rep.added + 1 && report@.updated <= rep.updated + 1 && report@.noop <= rep.noop + 1);
        i += 1;
    }
    report
}

} // verus!

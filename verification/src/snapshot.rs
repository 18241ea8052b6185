//! Snapshots: a memory as text, and back.

use vstd::prelude::*;
use vstd::string::StringExecFns;
use crate::agent::{fresh_engine, memory_of, rules_installed, AgentMemory, MemoryV};
use crate::decimal::{parse_float, parsed_float};
use crate::engine::{declared, engine_wf, ran, Engine, EngineV};
use crate::escape::{esc, esc_item, escaped, escaped_item, unesc, unescaped};
use crate::extract::{episodes_view, Episode, EpisodeV, Extractor};
use crate::intern::{interned, shown};
use crate::notation::{shortest_text, shortest_to_text};
use crate::policy::with_symbol;
use crate::query::derived_pred;
use crate::relation::{rows_view, Ann, AnnV, Row, RowV};
use crate::rules::{error_text, ProgramError, ProgramErrorV};
use crate::scan::{lines_of, split_lines};
use crate::sorted_set::{enumerate, models};
use crate::text::{
    about_quoted, debug_form, end_lines, ended_lines, int_text, int_to_text, join, joined, parse_int, parsed_int, slice_text,
    str_eq, texts, to_chars,
};
use crate::confidence::clamp;
use crate::value::Value;

verus! {

// ---------------------------------------------------------------- writing

/// A value in a snapshot.
pub open spec fn value_field(names: Seq<Seq<char>>, v: Value) -> Seq<char> {
    match v {
        Value::Sym(_) => "s:"@ + escaped(shown(names, v)),
        Value::Int(i) => "i:"@ + int_text(i as int),
    }
}

/// The record of a fact.
pub open spec fn fact_record(names: Seq<Seq<char>>, pred: Seq<char>, row: RowV) -> Seq<char> {
    "FACT\t"@ + escaped(pred) + "\t"@ + shortest_text(row.fact.ann.conf) + "\t"@ + joined(
        enumerate::<String>(row.fact.ann.prov).map_values(|p: Seq<char>| escaped_item(p)),
        ","@,
    ) + "\t"@ + joined(row.key.map_values(|v: Value| value_field(names, v)), " "@)
}

/// The records of the base facts of the first `n` predicates. What rules
/// define is derived anew when the snapshot is read.
pub open spec fn fact_records(e: EngineV, ps: Seq<Seq<char>>, n: int) -> Seq<Seq<char>>
    decreases n,
{
    if n <= 0 {
        Seq::empty()
    } else if derived_pred(e, ps[n - 1]) {
        fact_records(e, ps, n - 1)
    } else {
        fact_records(e, ps, n - 1) + e.st.rels[ps[n - 1]].rows.map_values(
            |r: RowV| fact_record(e.st.names, ps[n - 1], r),
        )
    }
}

/// The record of an episode.
pub open spec fn episode_record(ep: EpisodeV) -> Seq<char> {
    "EP\t"@ + escaped(ep.id) + "\t"@ + int_text(ep.ts as int) + "\t"@ + (match ep.speaker {
        Some(s) => escaped_item(s),
        None => Seq::empty(),
    }) + "\t"@ + escaped(ep.text)
}

/// The lines of a snapshot.
pub open spec fn snapshot_lines(m: MemoryV) -> Seq<Seq<char>> {
    let ps = enumerate::<String>(m.engine.st.rels.dom());
    seq!["LEMMALOG1"@, "NOW\t"@ + int_text(m.engine.now as int), "RULES\t"@ + escaped(m.rules)] + m.dynamic.map_values(
        |p: (Seq<char>, Seq<char>)| "BATCH\t"@ + escaped(p.1),
    ) + m.episodes.map_values(|ep: EpisodeV| episode_record(ep)) + m.escalations.map_values(
        |e: Seq<char>| "ESC\t"@ + escaped(e),
    ) + fact_records(m.engine, ps, ps.len() as int)
}

/// A memory as text: rules, clock, episodes, escalations and base facts with
/// their annotations.
pub open spec fn snapshot_text(m: MemoryV) -> Seq<char> {
    ended_lines(snapshot_lines(m), snapshot_lines(m).len() as int)
}

fn extend_lines(lines: &mut Vec<String>, more: Vec<String>)
    ensures
        texts(final(lines)@) == texts(old(lines)@) + texts(more@),
{
    let ghost a = texts(lines@);
    let ghost b = texts(more@);
    let mut i: usize = 0;
    assert(a + b.take(0) =~= a);
    while i < more.len()
        invariant
            i <= more@.len(),
            b == texts(more@),
            texts(lines@) == a + b.take(i as int),
        decreases more@.len() - i,
    {
        let ghost before = texts(lines@);
        lines.push(more[i].clone());
        proof {
            assert(texts(lines@) =~= before.push(b[i as int]));
            assert(a + b.take(i + 1) =~= (a + b.take(i as int)).push(b[i as int]));
        }
        i += 1;
    }
    assert(b.take(b.len() as int) =~= b);
}

fn tagged(tag: &str, text: &str) -> (r: String)
    ensures
        r@ == tag@ + escaped(text@),
{
    let mut s = tag.to_owned();
    let t = esc(text);
    s.append(t.as_str());
    s
}

fn write_value(engine: &Engine, v: &Value) -> (r: String)
    ensures
        r@ == value_field(engine@.st.names, *v),
{
    match v {
        Value::Sym(_) => {
            let name = engine.store.interner.display(v);
            tagged("s:", name.as_str())
        },
        Value::Int(i) => {
            let mut s = "i:".to_owned();
            let d = int_to_text(*i);
            s.append(d.as_str());
            s
        },
    }
}

fn write_fact(engine: &Engine, pred: &str, row: &Row) -> (r: String)
    ensures
        r@ == fact_record(engine@.st.names, pred@, row@),
{
    let ghost names = engine@.st.names;
    let mut args: Vec<String> = Vec::new();
    let mut i: usize = 0;
    while i < row.key.len()
        invariant
            i <= row.key@.len(),
            names == engine@.st.names,
            args@.len() == i,
            forall|j: int| 0 <= j < i ==> (#[trigger] args@[j])@ == value_field(names, row.key@[j]),
        decreases row.key@.len() - i,
    {
        args.push(write_value(engine, &row.key[i]));
        i += 1;
    }
    assert(texts(args@) =~= row@.key.map_values(|v: Value| value_field(names, v)));
    let mut s = tagged("FACT\t", pred);
    s.append("\t");
    let c = shortest_to_text(&row.fact.ann.conf);
    s.append(c.as_str());
    s.append("\t");
    let sources = row.fact.ann.prov.items();
    let ghost sv = models(sources@);
    let mut items: Vec<String> = Vec::new();
    let mut k: usize = 0;
    while k < sources.len()
        invariant
            k <= sources@.len(),
            sv == models(sources@),
            items@.len() == k,
            forall|j: int| 0 <= j < k ==> (#[trigger] items@[j])@ == escaped_item(sv[j]),
        decreases sources@.len() - k,
    {
        assert(sv[k as int] == sources@[k as int]@);
        items.push(esc_item(sources[k].as_str()));
        k += 1;
    }
    assert(texts(items@) =~= sv.map_values(|p: Seq<char>| escaped_item(p)));
    let prov = join(&items, ",");
    s.append(prov.as_str());
    s.append("\t");
    let list = join(&args, " ");
    s.append(list.as_str());
    s
}

fn write_facts(engine: &Engine) -> (r: Vec<String>)
    ensures
        ({
            let ps = enumerate::<String>(engine@.st.rels.dom());
            texts(r@) == fact_records(engine@, ps, ps.len() as int)
        }),
{
    let set = engine.store.sorted_names();
    let preds = set.items();
    let ghost ps = models(preds@);
    let ghost e = engine@;
    let mut lines: Vec<String> = Vec::new();
    let mut i: usize = 0;
    assert(texts(lines@) =~= Seq::empty());
    while i < preds.len()
        invariant
            i <= preds@.len(),
            e == engine@,
            ps == models(preds@),
            ps.to_set() == e.st.rels.dom(),
            texts(lines@) == fact_records(e, ps, i as int),
        decreases preds@.len() - i,
    {
        let pred = preds[i].as_str();
        assert(ps[i as int] == pred@);
        if !engine.is_derived_pred(pred) {
            assert(ps.to_set().contains(ps[i as int]));
            if let Some(rel) = engine.store.relations.get(pred) {
                let rows = rel.rows();
                let ghost rv = rel@.rows;
                let mut more: Vec<String> = Vec::new();
                let mut j: usize = 0;
                while j < rows.len()
                    invariant
                        j <= rows@.len(),
                        e == engine@,
                        rv == rows_view(rows@),
                        more@.len() == j,
                        forall|k: int| 0 <= k < j ==> (#[trigger] more@[k])@ == fact_record(e.st.names, pred@, rv[k]),
                    decreases rows@.len() - j,
                {
                    assert(rv[j as int] == rows@[j as int]@);
                    more.push(write_fact(engine, pred, &rows[j]));
                    j += 1;
                }
                assert(texts(more@) =~= rv.map_values(|r: RowV| fact_record(e.st.names, pred@, r)));
                extend_lines(&mut lines, more);
            }
        }
        i += 1;
    }
    lines
}

fn write_episode(ep: &Episode) -> (r: String)
    ensures
        r@ == episode_record(ep@),
{
    let mut s = tagged("EP\t", ep.id.as_str());
    s.append("\t");
    let ts = int_to_text(ep.ts);
    s.append(ts.as_str());
    s.append("\t");
    let ghost before = s@;
    if let Some(name) = &ep.speaker {
        let n = esc_item(name.as_str());
        s.append(n.as_str());
    }
    assert(before + Seq::<char>::empty() =~= before);
    s.append("\t");
    let t = esc(ep.text.as_str());
    s.append(t.as_str());
    s
}

// ---------------------------------------------------------------- reading

/// Why a snapshot cannot be read.
#[derive(Debug)]
pub enum LoadError {
    NotSnapshot,
    BadEpisode,
    BadFact,
    BadArg(String),
    BadInteger(String),
    BadNumber(String),
    Program(ProgramError),
}

/// The value of a [`LoadError`].
pub enum LoadErrorV {
    NotSnapshot,
    BadEpisode,
    BadFact,
    BadArg(Seq<char>),
    BadInteger(Seq<char>),
    BadNumber(Seq<char>),
    Program(ProgramErrorV),
}

impl View for LoadError {
    type V = LoadErrorV;

    open spec fn view(&self) -> LoadErrorV {
        match *self {
            LoadError::NotSnapshot => LoadErrorV::NotSnapshot,
            LoadError::BadEpisode => LoadErrorV::BadEpisode,
            LoadError::BadFact => LoadErrorV::BadFact,
            LoadError::BadArg(s) => LoadErrorV::BadArg(s@),
            LoadError::BadInteger(s) => LoadErrorV::BadInteger(s@),
            LoadError::BadNumber(s) => LoadErrorV::BadNumber(s@),
            LoadError::Program(e) => LoadErrorV::Program(e@),
        }
    }
}

/// The message of a [`LoadError`].
pub open spec fn load_error_text(e: LoadErrorV) -> Seq<char> {
    match e {
        LoadErrorV::NotSnapshot => "not a lemmalog snapshot"@,
        LoadErrorV::BadEpisode => "bad EP record"@,
        LoadErrorV::BadFact => "bad FACT record"@,
        LoadErrorV::BadArg(s) => "bad arg "@ + debug_form(s),
        LoadErrorV::BadInteger(s) => "bad integer "@ + debug_form(s),
        LoadErrorV::BadNumber(s) => "bad number "@ + debug_form(s),
        LoadErrorV::Program(p) => error_text(p),
    }
}

impl LoadError {
    /// The message for a reader.
    pub fn message(&self) -> (r: String)
        ensures
            r@ == load_error_text(self@),
    {
        match self {
            LoadError::NotSnapshot => "not a lemmalog snapshot".to_owned(),
            LoadError::BadEpisode => "bad EP record".to_owned(),
            LoadError::BadFact => "bad FACT record".to_owned(),
            LoadError::BadArg(s) => about_quoted("bad arg ", s.as_str()),
            LoadError::BadInteger(s) => about_quoted("bad integer ", s.as_str()),
            LoadError::BadNumber(s) => about_quoted("bad number ", s.as_str()),
            LoadError::Program(e) => e.message(),
        }
    }
}

/// An argument of a fact in a snapshot.
#[derive(Debug)]
pub enum Arg {
    S(String),
    I(i64),
}

/// The value of an [`Arg`].
pub enum ArgV {
    S(Seq<char>),
    I(i64),
}

impl View for Arg {
    type V = ArgV;

    open spec fn view(&self) -> ArgV {
        match *self {
            Arg::S(s) => ArgV::S(s@),
            Arg::I(i) => ArgV::I(i),
        }
    }
}

pub open spec fn args_view(s: Seq<Arg>) -> Seq<ArgV> {
    s.map_values(|a: Arg| a@)
}

/// A fact in a snapshot.
#[derive(Debug)]
pub struct FactRecord {
    pub pred: String,
    /// A binary64 pattern.
    pub conf: u64,
    pub prov: Vec<String>,
    pub args: Vec<Arg>,
}

/// The value of a [`FactRecord`].
#[verifier::ext_equal]
pub struct FactRecordV {
    pub pred: Seq<char>,
    pub conf: u64,
    pub prov: Seq<Seq<char>>,
    pub args: Seq<ArgV>,
}

impl View for FactRecord {
    type V = FactRecordV;

    open spec fn view(&self) -> FactRecordV {
        FactRecordV { pred: self.pred@, conf: self.conf, prov: texts(self.prov@), args: args_view(self.args@) }
    }
}

pub open spec fn records_view(s: Seq<FactRecord>) -> Seq<FactRecordV> {
    s.map_values(|f: FactRecord| f@)
}

/// What a snapshot holds.
#[derive(Debug)]
pub struct Snapshot {
    pub rules: String,
    pub batches: Vec<String>,
    pub now: i64,
    pub episodes: Vec<Episode>,
    pub escalations: Vec<String>,
    pub facts: Vec<FactRecord>,
}

/// The value of a [`Snapshot`].
#[verifier::ext_equal]
pub struct SnapshotV {
    pub rules: Seq<char>,
    pub batches: Seq<Seq<char>>,
    pub now: i64,
    pub episodes: Seq<EpisodeV>,
    pub escalations: Seq<Seq<char>>,
    pub facts: Seq<FactRecordV>,
}

impl View for Snapshot {
    type V = SnapshotV;

    open spec fn view(&self) -> SnapshotV {
        SnapshotV {
            rules: self.rules@,
            batches: texts(self.batches@),
            now: self.now,
            episodes: episodes_view(self.episodes@),
            escalations: texts(self.escalations@),
            facts: records_view(self.facts@),
        }
    }
}

/// The snapshot of nothing.
pub open spec fn snapshot_new() -> SnapshotV {
    SnapshotV {
        rules: Seq::empty(),
        batches: Seq::empty(),
        now: 0,
        episodes: Seq::empty(),
        escalations: Seq::empty(),
        facts: Seq::empty(),
    }
}

/// The first position of a character from `i` on.
pub open spec fn first_from(s: Seq<char>, c: char, i: int) -> Option<int>
    decreases s.len() - i,
{
    if i < 0 || i >= s.len() {
        None
    } else if s[i] == c {
        Some(i)
    } else {
        first_from(s, c, i + 1)
    }
}

/// What stands before and behind the first occurrence of a character.
pub open spec fn cut(s: Seq<char>, c: char) -> Option<(Seq<char>, Seq<char>)> {
    match first_from(s, c, 0) {
        Some(i) => Some((s.take(i), s.skip(i + 1))),
        None => None,
    }
}

/// The nonempty parts between the occurrences of a character.
pub open spec fn parts_between(s: Seq<char>, c: char) -> Seq<Seq<char>>
    decreases s.len(),
{
    match first_from(s, c, 0) {
        Some(i) => if 0 <= i < s.len() {
            (if i > 0 {
                seq![s.take(i)]
            } else {
                Seq::empty()
            }) + parts_between(s.skip(i + 1), c)
        } else {
            Seq::empty()
        },
        None => if s.len() > 0 {
            seq![s]
        } else {
            Seq::empty()
        },
    }
}

/// The four fields of a record.
pub open spec fn four_fields(s: Seq<char>) -> Option<(Seq<char>, Seq<char>, Seq<char>, Seq<char>)> {
    match cut(s, '\t') {
        None => None,
        Some(a) => match cut(a.1, '\t') {
            None => None,
            Some(b) => match cut(b.1, '\t') {
                None => None,
                Some(c) => Some((a.0, b.0, c.0, c.1)),
            },
        },
    }
}

/// An argument.
pub open spec fn read_arg(a: Seq<char>) -> Result<ArgV, LoadErrorV> {
    if a.len() >= 2 && a.take(2) == "s:"@ {
        Ok(ArgV::S(unescaped(a.skip(2))))
    } else if a.len() >= 2 && a.take(2) == "i:"@ {
        match parsed_int(a.skip(2)) {
            Some(i) => Ok(ArgV::I(i)),
            None => Err(LoadErrorV::BadInteger(a.skip(2))),
        }
    } else {
        Err(LoadErrorV::BadArg(a))
    }
}

/// The arguments from position `i` on, after those read before.
pub open spec fn read_args(parts: Seq<Seq<char>>, i: int, acc: Seq<ArgV>) -> Result<Seq<ArgV>, LoadErrorV>
    decreases parts.len() - i,
{
    if i < 0 || i >= parts.len() {
        Ok(acc)
    } else {
        match read_arg(parts[i]) {
            Ok(a) => read_args(parts, i + 1, acc.push(a)),
            Err(e) => Err(e),
        }
    }
}

/// A fact.
pub open spec fn read_fact(s: Seq<char>) -> Result<FactRecordV, LoadErrorV> {
    match four_fields(s) {
        None => Err(LoadErrorV::BadFact),
        Some(f) => match read_args(parts_between(f.3, ' '), 0, Seq::empty()) {
            Err(e) => Err(e),
            Ok(args) => match parsed_float(f.1) {
                None => Err(LoadErrorV::BadNumber(f.1)),
                Some(conf) => Ok(
                    FactRecordV {
                        pred: unescaped(f.0),
                        conf,
                        prov: parts_between(f.2, ',').map_values(|p: Seq<char>| unescaped(p)),
                        args,
                    },
                ),
            },
        },
    }
}

/// An episode.
pub open spec fn read_episode(s: Seq<char>) -> Result<EpisodeV, LoadErrorV> {
    match four_fields(s) {
        None => Err(LoadErrorV::BadEpisode),
        Some(f) => match parsed_int(f.1) {
            None => Err(LoadErrorV::BadInteger(f.1)),
            Some(ts) => Ok(
                EpisodeV {
                    id: unescaped(f.0),
                    text: unescaped(f.3),
                    ts,
                    speaker: if f.2.len() == 0 {
                        None
                    } else {
                        Some(unescaped(f.2))
                    },
                },
            ),
        },
    }
}

/// What a line adds. A line without a tab, or with an unknown tag, adds
/// nothing.
pub open spec fn read_line(s: SnapshotV, line: Seq<char>) -> Result<SnapshotV, LoadErrorV> {
    match cut(line, '\t') {
        None => Ok(s),
        Some((tag, rest)) => if tag == "NOW"@ {
            match parsed_int(rest) {
                Some(now) => Ok(SnapshotV { now, ..s }),
                None => Err(LoadErrorV::BadInteger(rest)),
            }
        } else if tag == "RULES"@ {
            Ok(SnapshotV { rules: unescaped(rest), ..s })
        } else if tag == "BATCH"@ {
            Ok(SnapshotV { batches: s.batches.push(unescaped(rest)), ..s })
        } else if tag == "EP"@ {
            match read_episode(rest) {
                Ok(ep) => Ok(SnapshotV { episodes: s.episodes.push(ep), ..s }),
                Err(e) => Err(e),
            }
        } else if tag == "ESC"@ {
            Ok(SnapshotV { escalations: s.escalations.push(unescaped(rest)), ..s })
        } else if tag == "FACT"@ {
            match read_fact(rest) {
                Ok(f) => Ok(SnapshotV { facts: s.facts.push(f), ..s }),
                Err(e) => Err(e),
            }
        } else {
            Ok(s)
        },
    }
}

/// What the lines from position `i` on add.
pub open spec fn read_lines(s: SnapshotV, lines: Seq<Seq<char>>, i: int) -> Result<SnapshotV, LoadErrorV>
    decreases lines.len() - i,
{
    if i < 0 || i >= lines.len() {
        Ok(s)
    } else {
        match read_line(s, lines[i]) {
            Ok(t) => read_lines(t, lines, i + 1),
            Err(e) => Err(e),
        }
    }
}

/// What a snapshot holds, or why it cannot be read.
pub open spec fn snapshot_read(text: Seq<char>) -> Result<SnapshotV, LoadErrorV> {
    let lines = lines_of(text);
    if lines.len() > 0 && (lines[0] == "LEMMALOG1"@ || lines[0] == "CORTEXLOG1"@) {
        read_lines(snapshot_new(), lines, 1)
    } else {
        Err(LoadErrorV::NotSnapshot)
    }
}

fn position_of(v: &Vec<char>, a: usize, c: char) -> (r: Option<usize>)
    requires
        a <= v@.len(),
    ensures
        match r {
            Some(i) => first_from(v@, c, a as int) == Some(i as int) && a <= i < v@.len(),
            None => first_from(v@, c, a as int) is None,
        },
{
    let mut i: usize = a;
    while i < v.len()
        invariant
            a <= i <= v@.len(),
            first_from(v@, c, a as int) == first_from(v@, c, i as int),
        decreases v@.len() - i,
    {
        if v[i] == c {
            return Some(i);
        }
        i += 1;
    }
    None
}

/// What stands before and behind the first occurrence of a character.
fn cut_text(s: &str, c: char) -> (r: Option<(String, String)>)
    ensures
        match r {
            Some(p) => cut(s@, c) == Some((p.0@, p.1@)),
            None => cut(s@, c) is None,
        },
{
    let v = to_chars(s);
    let n: usize = v.len();
    match position_of(&v, 0, c) {
        Some(i) => {
            let a = slice_text(&v, 0, i);
            let b = slice_text(&v, i + 1, n);
            proof {
                assert(a@ =~= s@.take(i as int));
                assert(b@ =~= s@.skip(i + 1));
            }
            Some((a, b))
        },
        None => None,
    }
}

fn split_between(s: &str, c: char) -> (r: Vec<String>)
    ensures
        texts(r@) == parts_between(s@, c),
{
    let v = to_chars(s);
    let n: usize = v.len();
    let mut out: Vec<String> = Vec::new();
    let mut a: usize = 0;
    let mut more = true;
    assert(s@.skip(0) =~= s@);
    assert(texts(out@) + parts_between(s@, c) =~= parts_between(s@, c));
    while more
        invariant
            n == v@.len(),
            a <= n,
            v@ == s@,
            more ==> parts_between(s@, c) == texts(out@) + parts_between(s@.skip(a as int), c),
            !more ==> parts_between(s@, c) == texts(out@),
        decreases n - a + (if more { 1int } else { 0int }),
    {
        let ghost rest = s@.skip(a as int);
        let ghost before = texts(out@);
        proof {
            lemma_first_skip(s@, c, a as int, 0);
        }
        match position_of(&v, a, c) {
            Some(i) => {
                proof {
                    assert(rest.take(i - a) =~= s@.subrange(a as int, i as int));
                    assert(rest.skip(i - a + 1) =~= s@.skip(i + 1));
                }
                if i > a {
                    let part = slice_text(&v, a, i);
                    out.push(part);
                    proof {
                        assert(texts(out@) =~= before.push(part@));
                        assert(before + (seq![part@] + parts_between(s@.skip(i + 1), c)) =~= before.push(part@)
                            + parts_between(s@.skip(i + 1), c));
                    }
                } else {
                    assert(before + (Seq::<Seq<char>>::empty() + parts_between(s@.skip(i + 1), c)) =~= before
                        + parts_between(s@.skip(i + 1), c));
                }
                a = i + 1;
            },
            None => {
                if a < n {
                    let part = slice_text(&v, a, n);
                    out.push(part);
                    proof {
                        assert(part@ =~= rest);
                        assert(texts(out@) =~= before.push(part@));
                        assert(before + seq![part@] =~= before.push(part@));
                    }
                } else {
                    assert(before + Seq::<Seq<char>>::empty() =~= before);
                }
                more = false;
            },
        }
    }
    out
}

/// Searching behind a prefix.
pub proof fn lemma_first_skip(s: Seq<char>, c: char, a: int, i: int)
    requires
        0 <= a <= s.len(),
        0 <= i,
    ensures
        first_from(s.skip(a), c, i) == (match first_from(s, c, a + i) {
            Some(k) => Some(k - a),
            None => None,
        }),
        first_from(s, c, a + i) is Some ==> a + i <= first_from(s, c, a + i)->Some_0 < s.len(),
    decreases s.len() - a - i,
{
    if a + i < s.len() {
        assert(s.skip(a)[i] == s[a + i]);
        if s[a + i] != c {
            lemma_first_skip(s, c, a, i + 1);
        }
    }
}

type Fields = (String, String, String, String);

fn split_fields(s: &str) -> (r: Option<Fields>)
    ensures
        match r {
            Some(f) => four_fields(s@) == Some((f.0@, f.1@, f.2@, f.3@)),
            None => four_fields(s@) is None,
        },
{
    match cut_text(s, '\t') {
        None => None,
        Some((a, x)) => match cut_text(x.as_str(), '\t') {
            None => None,
            Some((b, y)) => match cut_text(y.as_str(), '\t') {
                None => None,
                Some((c, d)) => Some((a, b, c, d)),
            },
        },
    }
}

fn parse_integer(s: &str) -> (r: Option<i64>)
    ensures
        r == parsed_int(s@),
{
    let v = to_chars(s);
    assert(v@.subrange(0, v@.len() as int) =~= s@);
    parse_int(&v, 0, v.len())
}

fn parse_arg(s: &str) -> (r: Result<Arg, LoadError>)
    ensures
        match r {
            Ok(a) => read_arg(s@) == Ok::<ArgV, LoadErrorV>(a@),
            Err(e) => read_arg(s@) == Err::<ArgV, LoadErrorV>(e@),
        },
{
    let v = to_chars(s);
    let n: usize = v.len();
    proof {
        reveal_strlit("s:");
        reveal_strlit("i:");
        if n >= 2 {
            let t = s@.take(2);
            assert(t[0] == s@[0] && t[1] == s@[1]);
            assert(t == "s:"@ <==> (s@[0] == 's' && s@[1] == ':')) by {
                if s@[0] == 's' && s@[1] == ':' {
                    assert(t =~= "s:"@);
                }
            }
            assert(t == "i:"@ <==> (s@[0] == 'i' && s@[1] == ':')) by {
                if s@[0] == 'i' && s@[1] == ':' {
                    assert(t =~= "i:"@);
                }
            }
        }
    }
    if n >= 2 && v[1] == ':' && v[0] == 's' {
        let t = slice_text(&v, 2, n);
        assert(t@ =~= s@.skip(2));
        Ok(Arg::S(unesc(t.as_str())))
    } else if n >= 2 && v[1] == ':' && v[0] == 'i' {
        let t = slice_text(&v, 2, n);
        assert(t@ =~= s@.skip(2));
        match parse_integer(t.as_str()) {
            Some(i) => Ok(Arg::I(i)),
            None => Err(LoadError::BadInteger(t)),
        }
    } else {
        Err(LoadError::BadArg(s.to_owned()))
    }
}

fn parse_fact(s: &str) -> (r: Result<FactRecord, LoadError>)
    ensures
        match r {
            Ok(f) => read_fact(s@) == Ok::<FactRecordV, LoadErrorV>(f@),
            Err(e) => read_fact(s@) == Err::<FactRecordV, LoadErrorV>(e@),
        },
{
    let f = match split_fields(s) {
        Some(f) => f,
        None => {
            return Err(LoadError::BadFact);
        },
    };
    let parts = split_between(f.3.as_str(), ' ');
    let ghost pv = texts(parts@);
    let mut args: Vec<Arg> = Vec::new();
    let mut i: usize = 0;
    assert(args_view(args@) =~= Seq::empty());
    while i < parts.len()
        invariant
            i <= parts@.len(),
            pv == texts(parts@),
            four_fields(s@) is Some,
            pv == parts_between(four_fields(s@)->Some_0.3, ' '),
            read_args(pv, 0, Seq::empty()) == read_args(pv, i as int, args_view(args@)),
        decreases parts@.len() - i,
    {
        let ghost before = args_view(args@);
        assert(pv[i as int] == parts@[i as int]@);
        match parse_arg(parts[i].as_str()) {
            Ok(a) => {
                let ghost av = a@;
                args.push(a);
                assert(args_view(args@) =~= before.push(av));
            },
            Err(e) => {
                return Err(e);
            },
        }
        i += 1;
    }
    let sources = split_between(f.2.as_str(), ',');
    let ghost sv = texts(sources@);
    let mut prov: Vec<String> = Vec::new();
    let mut j: usize = 0;
    while j < sources.len()
        invariant
            j <= sources@.len(),
            sv == texts(sources@),
            prov@.len() == j,
            forall|k: int| 0 <= k < j ==> (#[trigger] prov@[k])@ == unescaped(sv[k]),
        decreases sources@.len() - j,
    {
        assert(sv[j as int] == sources@[j as int]@);
        prov.push(unesc(sources[j].as_str()));
        j += 1;
    }
    assert(texts(prov@) =~= sv.map_values(|p: Seq<char>| unescaped(p)));
    let digits = to_chars(f.1.as_str());
    match parse_float(&digits) {
        Some(conf) => Ok(FactRecord { pred: unesc(f.0.as_str()), conf, prov, args }),
        None => Err(LoadError::BadNumber(f.1)),
    }
}

fn parse_episode(s: &str) -> (r: Result<Episode, LoadError>)
    ensures
        match r {
            Ok(ep) => read_episode(s@) == Ok::<EpisodeV, LoadErrorV>(ep@),
            Err(e) => read_episode(s@) == Err::<EpisodeV, LoadErrorV>(e@),
        },
{
    let f = match split_fields(s) {
        Some(f) => f,
        None => {
            return Err(LoadError::BadEpisode);
        },
    };
    let ts = match parse_integer(f.1.as_str()) {
        Some(ts) => ts,
        None => {
            return Err(LoadError::BadInteger(f.1));
        },
    };
    let speaker = if f.2.as_str().is_empty() {
        None
    } else {
        Some(unesc(f.2.as_str()))
    };
    Ok(Episode { id: unesc(f.0.as_str()), text: unesc(f.3.as_str()), ts, speaker })
}

fn add_line(s: &mut Snapshot, line: &str) -> (r: Result<(), LoadError>)
    ensures
        match r {
            Ok(_) => read_line(old(s)@, line@) == Ok::<SnapshotV, LoadErrorV>(final(s)@),
            Err(e) => read_line(old(s)@, line@) == Err::<SnapshotV, LoadErrorV>(e@),
        },
{
    let ghost s0 = s@;
    match cut_text(line, '\t') {
        None => {},
        Some((tag, rest)) => {
            if str_eq(tag.as_str(), "NOW") {
                match parse_integer(rest.as_str()) {
                    Some(now) => {
                        s.now = now;
                    },
                    None => {
                        return Err(LoadError::BadInteger(rest));
                    },
                }
            } else if str_eq(tag.as_str(), "RULES") {
                s.rules = unesc(rest.as_str());
            } else if str_eq(tag.as_str(), "BATCH") {
                let b = unesc(rest.as_str());
                let ghost bv = b@;
                s.batches.push(b);
                assert(s@.batches =~= s0.batches.push(bv));
            } else if str_eq(tag.as_str(), "EP") {
                match parse_episode(rest.as_str()) {
                    Ok(ep) => {
                        let ghost ev = ep@;
                        s.episodes.push(ep);
                        assert(s@.episodes =~= s0.episodes.push(ev));
                    },
                    Err(e) => {
                        return Err(e);
                    },
                }
            } else if str_eq(tag.as_str(), "ESC") {
                let b = unesc(rest.as_str());
                let ghost bv = b@;
                s.escalations.push(b);
                assert(s@.escalations =~= s0.escalations.push(bv));
            } else if str_eq(tag.as_str(), "FACT") {
                match parse_fact(rest.as_str()) {
                    Ok(f) => {
                        let ghost fv = f@;
                        s.facts.push(f);
                        assert(s@.facts =~= s0.facts.push(fv));
                    },
                    Err(e) => {
                        return Err(e);
                    },
                }
            }
        },
    }
    Ok(())
}

/// Reads a snapshot.
pub fn read_snapshot(text: &str) -> (r: Result<Snapshot, LoadError>)
    ensures
        match r {
            Ok(s) => snapshot_read(text@) == Ok::<SnapshotV, LoadErrorV>(s@),
            Err(e) => snapshot_read(text@) == Err::<SnapshotV, LoadErrorV>(e@),
        },
{
    let lines = split_lines(text);
    let ghost lv = texts(lines@);
    if lines.len() == 0 {
        return Err(LoadError::NotSnapshot);
    }
    assert(lv[0] == lines@[0]@);
    if !(str_eq(lines[0].as_str(), "LEMMALOG1") || str_eq(lines[0].as_str(), "CORTEXLOG1")) {
        return Err(LoadError::NotSnapshot);
    }
    let mut s = Snapshot {
        rules: String::new(),
        batches: Vec::new(),
        now: 0,
        episodes: Vec::new(),
        escalations: Vec::new(),
        facts: Vec::new(),
    };
    assert(s@ =~= snapshot_new());
    let mut i: usize = 1;
    while i < lines.len()
        invariant
            1 <= i <= lines@.len(),
            lv == texts(lines@),
            lv == lines_of(text@),
            lv[0] == "LEMMALOG1"@ || lv[0] == "CORTEXLOG1"@,
            read_lines(snapshot_new(), lv, 1) == read_lines(s@, lv, i as int),
        decreases lines@.len() - i,
    {
        assert(lv[i as int] == lines@[i as int]@);
        match add_line(&mut s, lines[i].as_str()) {
            Ok(_) => {},
            Err(e) => {
                return Err(e);
            },
        }
        i += 1;
    }
    Ok(s)
}

// -------------------------------------------------------------- restoring

/// Installing batches from position `i` on.
pub open spec fn batches_installed(m: MemoryV, sources: Seq<Seq<char>>, i: int) -> Result<MemoryV, ProgramErrorV>
    decreases sources.len() - i,
{
    if i < 0 || i >= sources.len() {
        Ok(m)
    } else {
        match rules_installed(m, sources[i]) {
            Ok(r) => batches_installed(r.0, sources, i + 1),
            Err(e) => Err(e),
        }
    }
}

/// The values of arguments from position `i` on, and the engine with their
/// symbols.
pub open spec fn resolved(e: EngineV, args: Seq<ArgV>, i: int, acc: Seq<Value>) -> (EngineV, Seq<Value>)
    decreases args.len() - i,
{
    if i < 0 || i >= args.len() {
        (e, acc)
    } else {
        match args[i] {
            ArgV::S(name) => resolved(
                with_symbol(e, name),
                args,
                i + 1,
                acc.push(Value::Sym(interned(e.st.names, name))),
            ),
            ArgV::I(n) => resolved(e, args, i + 1, acc.push(Value::Int(n))),
        }
    }
}

/// The engine after asserting a recorded fact.
pub open spec fn with_record(e: EngineV, f: FactRecordV) -> EngineV {
    let r = resolved(e, f.args, 0, Seq::empty());
    EngineV {
        st: declared(r.0.st, (f.pred, r.1), AnnV { conf: clamp(f.conf), prov: f.prov.to_set() }),
        ..r.0
    }
}

/// The engine after asserting the recorded facts from position `i` on.
pub open spec fn with_records(e: EngineV, fs: Seq<FactRecordV>, i: int) -> EngineV
    decreases fs.len() - i,
{
    if i < 0 || i >= fs.len() {
        e
    } else {
        with_records(with_record(e, fs[i]), fs, i + 1)
    }
}

/// The memory with the rules of a snapshot.
pub open spec fn with_rules(s: SnapshotV) -> Result<MemoryV, ProgramErrorV> {
    match fresh_engine(s.rules) {
        Err(e) => Err(e),
        Ok(e) => batches_installed(memory_of(e, s.rules), s.batches, 0),
    }
}

/// The memory that a snapshot stands for, derived facts included.
pub open spec fn restored(s: SnapshotV) -> Result<MemoryV, ProgramErrorV> {
    match with_rules(s) {
        Err(e) => Err(e),
        Ok(m) => {
            let e = ran(EngineV { now: s.now, ..with_records(m.engine, s.facts, 0) }).0;
            Ok(
                MemoryV {
                    engine: e,
                    episodes: s.episodes,
                    escalations: s.escalations,
                    counter: s.episodes.len() as u64,
                    turn: e.st.epoch,
                    ..m
                },
            )
        },
    }
}

/// Reading a snapshot and restoring the memory.
pub open spec fn loaded(text: Seq<char>) -> Result<MemoryV, LoadErrorV> {
    match snapshot_read(text) {
        Err(e) => Err(e),
        Ok(s) => match restored(s) {
            Err(e) => Err(LoadErrorV::Program(e)),
            Ok(m) => Ok(m),
        },
    }
}

fn declare_record(engine: &mut Engine, f: &FactRecord)
    requires
        engine_wf(old(engine)@),
    ensures
        final(engine)@ == with_record(old(engine)@, f@),
        engine_wf(final(engine)@),
{
    let ghost av = args_view(f.args@);
    let ghost want = resolved(engine@, av, 0, Seq::empty());
    let mut args: Vec<Value> = Vec::new();
    let mut i: usize = 0;
    while i < f.args.len()
        invariant
            i <= f.args@.len(),
            av == args_view(f.args@),
            engine_wf(engine@),
            want == resolved(engine@, av, i as int, args@),
        decreases f.args@.len() - i,
    {
        assert(av[i as int] == f.args@[i as int]@);
        let v = match &f.args[i] {
            Arg::S(name) => engine.sym(name.as_str()),
            Arg::I(n) => Value::Int(*n),
        };
        args.push(v);
        i += 1;
    }
    let ann = Ann::base(f.conf, &f.prov);
    engine.declare(f.pred.as_str(), &args, ann);
}

impl<X: Extractor> AgentMemory<X> {
    /// The memory as text. What rules derive is left out: reading the text
    /// derives it anew.
    pub fn save(&self) -> (r: String)
        ensures
            r@ == snapshot_text(self@),
    {
        let ghost m = self@;
        let mut lines: Vec<String> = Vec::new();
        lines.push("LEMMALOG1".to_owned());
        let mut now = "NOW\t".to_owned();
        let d = int_to_text(self.engine.now);
        now.append(d.as_str());
        lines.push(now);
        lines.push(tagged("RULES\t", self.extra_rules.as_str()));
        let ghost head = seq!["LEMMALOG1"@, "NOW\t"@ + int_text(m.engine.now as int), "RULES\t"@ + escaped(m.rules)];
        assert(texts(lines@) =~= head);
        let mut more: Vec<String> = Vec::new();
        let mut i: usize = 0;
        while i < self.dynamic_rule_sources.len()
            invariant
                i <= self.dynamic_rule_sources@.len(),
                m == self@,
                more@.len() == i,
                forall|j: int| 0 <= j < i ==> (#[trigger] more@[j])@ == "BATCH\t"@ + escaped(m.dynamic[j].1),
            decreases self.dynamic_rule_sources@.len() - i,
        {
            assert(m.dynamic[i as int].1 == self.dynamic_rule_sources@[i as int].1@);
            more.push(tagged("BATCH\t", self.dynamic_rule_sources[i].1.as_str()));
            i += 1;
        }
        assert(texts(more@) =~= m.dynamic.map_values(|p: (Seq<char>, Seq<char>)| "BATCH\t"@ + escaped(p.1)));
        extend_lines(&mut lines, more);
        let mut more: Vec<String> = Vec::new();
        let mut i: usize = 0;
        while i < self.episodes.len()
            invariant
                i <= self.episodes@.len(),
                m == self@,
                more@.len() == i,
                forall|j: int| 0 <= j < i ==> (#[trigger] more@[j])@ == episode_record(m.episodes[j]),
            decreases self.episodes@.len() - i,
        {
            assert(m.episodes[i as int] == self.episodes@[i as int]@);
            more.push(write_episode(&self.episodes[i]));
            i += 1;
        }
        assert(texts(more@) =~= m.episodes.map_values(|ep: EpisodeV| episode_record(ep)));
        extend_lines(&mut lines, more);
        let mut more: Vec<String> = Vec::new();
        let mut i: usize = 0;
        while i < self.escalations.len()
            invariant
                i <= self.escalations@.len(),
                m == self@,
                more@.len() == i,
                forall|j: int| 0 <= j < i ==> (#[trigger] more@[j])@ == "ESC\t"@ + escaped(m.escalations[j]),
            decreases self.escalations@.len() - i,
        {
            assert(m.escalations[i as int] == self.escalations@[i as int]@);
            more.push(tagged("ESC\t", self.escalations[i].as_str()));
            i += 1;
        }
        assert(texts(more@) =~= m.escalations.map_values(|e: Seq<char>| "ESC\t"@ + escaped(e)));
        extend_lines(&mut lines, more);
        let facts = write_facts(&self.engine);
        extend_lines(&mut lines, facts);
        assert(texts(lines@) == snapshot_lines(m));
        end_lines(&lines)
    }

    /// The memory that a snapshot stands for, with the given extractor.
    pub fn load(extractor: X, text: &str) -> (r: Result<AgentMemory<X>, LoadError>)
        ensures
            match r {
                Ok(m) => loaded(text@) == Ok::<MemoryV, LoadErrorV>(m@) && m.extractor == extractor && engine_wf(m@.engine),
                Err(e) => loaded(text@) == Err::<MemoryV, LoadErrorV>(e@),
            },
    {
        let s = match read_snapshot(text) {
            Ok(s) => s,
            Err(e) => {
                return Err(e);
            },
        };
        let ghost sv = s@;
        let mut m = match AgentMemory::new(extractor, s.rules.as_str()) {
            Ok(m) => m,
            Err(e) => {
                return Err(LoadError::Program(e));
            },
        };
        let ghost m0 = m@;
        let mut i: usize = 0;
        while i < s.batches.len()
            invariant
                i <= s.batches@.len(),
                sv == s@,
                snapshot_read(text@) == Ok::<SnapshotV, LoadErrorV>(sv),
                fresh_engine(sv.rules) == Ok::<EngineV, ProgramErrorV>(m0.engine),
                m0 == memory_of(m0.engine, sv.rules),
                m.extractor == extractor,
                engine_wf(m@.engine),
                batches_installed(m0, sv.batches, 0) == batches_installed(m@, sv.batches, i as int),
            decreases s.batches@.len() - i,
        {
            assert(sv.batches[i as int] == s.batches@[i as int]@);
            match m.install_rules(s.batches[i].as_str()) {
                Ok(_) => {},
                Err(e) => {
                    return Err(LoadError::Program(e));
                },
            }
            i += 1;
        }
        let ghost m1 = m@;
        m.escalations = s.escalations;
        m.episodes = s.episodes;
        m.episode_counter = m.episodes.len() as u64;
        let ghost m2 = m@;
        let mut j: usize = 0;
        while j < s.facts.len()
            invariant
                j <= s.facts@.len(),
                sv.facts == records_view(s.facts@),
                m.extractor == extractor,
                engine_wf(m@.engine),
                m@ == (MemoryV { engine: m@.engine, ..m2 }),
                with_records(m1.engine, sv.facts, 0) == with_records(m@.engine, sv.facts, j as int),
            decreases s.facts@.len() - j,
        {
            assert(sv.facts[j as int] == s.facts@[j as int]@);
            declare_record(&mut m.engine, &s.facts[j]);
            j += 1;
        }
        m.engine.set_now(s.now);
        m.engine.run();
        m.last_turn_epoch = m.engine.epoch();
        Ok(m)
    }
}

} // verus!

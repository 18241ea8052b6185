//! Reading the store: patterns, goals and renderings.

use vstd::prelude::*;
use vstd::string::StringExecFns;
use crate::ast::{clauses_view, terms_view, Atom, AtomV, Clause, ClauseV, Term, TermV};
use crate::engine::{Engine, EngineV};
use crate::env::{binding, Bindings, Env};
use crate::evaluate::row_keys;
use crate::intern::{shown, symbol_of, Interner};
use crate::parser::{parse_program, parsed, ParseError};
use crate::relation::{
    copy_pair, fits, has_key, ids_view, keys_view, lemma_lookup, rel_lookup, rel_wf, row_of, rows_view, Ann, AnnV, FactV, Key, KeyV,
    RelV, Relation, StoredFact,
};
use crate::solve::{bind_all, bind_args, bound_pattern, resolve_bound};
use crate::sorted_set::{enumerate, models};
use crate::store::{change_epoch, feed_view, log_view, rels_wf, Change, ChangeV, Store, StoreV};
use crate::text::{about_quoted, debug_form, join, joined, nat_text, nat_to_text, str_eq, texts, to_chars};
use crate::value::{copy_key, Value};

verus! {

// ---------------------------------------------------------------- patterns

/// The pattern fixes some position.
pub open spec fn fixes(pattern: Seq<Option<Value>>) -> bool {
    exists|i: int| 0 <= i < pattern.len() && (#[trigger] pattern[i]) is Some
}

/// The rows to consider for a pattern.
pub open spec fn rows_for(r: RelV, pattern: Seq<Option<Value>>) -> Seq<int> {
    if fixes(pattern) {
        rel_lookup(r, pattern)
    } else {
        Seq::new(r.rows.len(), |i: int| i)
    }
}

/// A tuple and its annotation.
pub type Hit = (Vec<Value>, Ann);

pub open spec fn hits_view(s: Seq<Hit>) -> Seq<(Seq<Value>, AnnV)> {
    s.map_values(|h: Hit| (h.0@, h.1@))
}

/// What a query for a pattern gives: the rows that fit it, unless one of them
/// has another number of values than the pattern. The empty pattern fits
/// every row.
pub open spec fn query_of(st: StoreV, pred: Seq<char>, pattern: Seq<Option<Value>>) -> Seq<(Seq<Value>, AnnV)> {
    if !st.rels.contains_key(pred) {
        Seq::empty()
    } else {
        let r = st.rels[pred];
        let ids = rows_for(r, pattern);
        if pattern.len() > 0 && exists|k: int| 0 <= k < ids.len() && r.rows[#[trigger] ids[k]].key.len() != pattern.len() {
            Seq::empty()
        } else {
            ids.map_values(|id: int| (r.rows[id].key, r.rows[id].fact.ann))
        }
    }
}

fn fixes_some(pattern: &Vec<Option<Value>>) -> (r: bool)
    ensures
        r == fixes(pattern@),
{
    let mut i: usize = 0;
    while i < pattern.len()
        invariant
            i <= pattern@.len(),
            forall|j: int| 0 <= j < i ==> (#[trigger] pattern@[j]) is None,
        decreases pattern@.len() - i,
    {
        if pattern[i].is_some() {
            return true;
        }
        i += 1;
    }
    false
}

fn find_rows(rel: &Relation, pattern: &Vec<Option<Value>>) -> (r: Vec<usize>)
    requires
        rel_wf(rel@),
    ensures
        ids_view(r@) == rows_for(rel@, pattern@),
        forall|k: int| 0 <= k < r@.len() ==> (#[trigger] r@[k]) < rel@.rows.len(),
{
    if fixes_some(pattern) {
        let ids = rel.lookup(pattern);
        proof {
            lemma_lookup(rel@, pattern@);
            assert forall|k: int| 0 <= k < ids@.len() implies (#[trigger] ids@[k]) < rel@.rows.len() by {
                assert(ids_view(ids@)[k] == ids@[k]);
            }
        }
        ids
    } else {
        let mut ids: Vec<usize> = Vec::new();
        let n: usize = rel.len();
        let mut i: usize = 0;
        while i < n
            invariant
                i <= n,
                n == rel@.rows.len(),
                ids@.len() == i,
                forall|j: int| 0 <= j < i ==> #[trigger] ids@[j] == j,
            decreases n - i,
        {
            ids.push(i);
            i += 1;
        }
        assert(ids_view(ids@) =~= rows_for(rel@, pattern@));
        ids
    }
}

/// Where all tuples of a relation have as many values as the pattern, a query
/// gives exactly those that fit it.
pub proof fn query_exact(st: StoreV, pred: Seq<char>, pattern: Seq<Option<Value>>, key: Seq<Value>)
    requires
        rels_wf(st.rels),
        st.rels.contains_key(pred),
        forall|i: int| 0 <= i < st.rels[pred].rows.len() ==> (#[trigger] st.rels[pred].rows[i]).key.len() == pattern.len(),
    ensures
        (exists|k: int| 0 <= k < query_of(st, pred, pattern).len() && (#[trigger] query_of(st, pred, pattern)[k]).0 == key)
            <==> has_key(st.rels[pred], key) && fits(pattern, key),
{
    let r = st.rels[pred];
    let ids = rows_for(r, pattern);
    let q = query_of(st, pred, pattern);
    lemma_lookup(r, pattern);
    assert forall|k: int| 0 <= k < ids.len() implies 0 <= #[trigger] ids[k] < r.rows.len() && fits(
        pattern,
        r.rows[ids[k]].key,
    ) by {
        if fixes(pattern) {
            assert(ids.contains(ids[k]));
        }
    }
    if exists|k: int| 0 <= k < q.len() && (#[trigger] q[k]).0 == key {
        let k = choose|k: int| 0 <= k < q.len() && (#[trigger] q[k]).0 == key;
        assert(q[k] == (r.rows[ids[k]].key, r.rows[ids[k]].fact.ann));
        assert(r.rows[ids[k]].key == key);
    }
    if has_key(r, key) && fits(pattern, key) {
        let id = choose|id: int| 0 <= id < r.rows.len() && (#[trigger] r.rows[id]).key == key;
        assert(ids.contains(id)) by {
            if fixes(pattern) {
                assert(crate::relation::fits_fully(pattern, key));
            } else {
                assert(ids[id] == id);
            }
        }
        let k = choose|k: int| 0 <= k < ids.len() && ids[k] == id;
        assert(q[k].0 == key);
    }
}

// ------------------------------------------------------------- renderings

/// The texts of some values.
pub open spec fn shown_all(names: Seq<Seq<char>>, args: Seq<Value>) -> Seq<Seq<char>> {
    args.map_values(|v: Value| shown(names, v))
}

/// A fact as text.
pub open spec fn fact_text(names: Seq<Seq<char>>, pred: Seq<char>, args: Seq<Value>) -> Seq<char> {
    pred + "("@ + joined(shown_all(names, args), ", "@) + ")"@
}

/// A fact as text.
pub fn fact_to_text(interner: &Interner, pred: &str, args: &Vec<Value>) -> (r: String)
    ensures
        r@ == fact_text(interner@, pred@, args@),
{
    let mut parts: Vec<String> = Vec::new();
    let mut i: usize = 0;
    while i < args.len()
        invariant
            i <= args@.len(),
            parts@.len() == i,
            forall|j: int| 0 <= j < i ==> (#[trigger] parts@[j])@ == shown(interner@, args@[j]),
        decreases args@.len() - i,
    {
        parts.push(interner.display(&args[i]));
        i += 1;
    }
    assert(texts(parts@) =~= shown_all(interner@, args@));
    let mut out = pred.to_owned();
    out.append("(");
    let inner = join(&parts, ", ");
    out.append(inner.as_str());
    out.append(")");
    out
}

// ------------------------------------------------------------------ goals

/// The variables of an argument list, in order.
pub open spec fn vars_of(args: Seq<TermV>) -> Seq<Seq<char>>
    decreases args.len(),
{
    if args.len() == 0 {
        Seq::empty()
    } else {
        match args.last() {
            TermV::Var(v) => vars_of(args.drop_last()).push(v),
            _ => vars_of(args.drop_last()),
        }
    }
}

/// One variable with its value.
pub open spec fn binding_text(names: Seq<Seq<char>>, map: Bindings, v: Seq<char>) -> Seq<char> {
    v + "="@ + (match binding(map, v) {
        Some(x) => shown(names, x),
        None => "_"@,
    })
}

/// One answer: each variable with its value.
pub open spec fn answer_text(names: Seq<Seq<char>>, map: Bindings, vars: Seq<Seq<char>>) -> Seq<char> {
    joined(vars.map_values(|v: Seq<char>| binding_text(names, map, v)), ", "@)
}

/// The answers from the first `n` of the given rows.
pub open spec fn answers_upto(names: Seq<Seq<char>>, r: RelV, ids: Seq<int>, args: Seq<TermV>, n: int) -> Seq<Seq<char>>
    decreases n,
{
    if n <= 0 {
        Seq::empty()
    } else {
        let before = answers_upto(names, r, ids, args, n - 1);
        match bind_all(names, args, r.rows[ids[n - 1]].key, Map::empty()) {
            Some(map) => before.push(answer_text(names, map, vars_of(args))),
            None => before,
        }
    }
}

/// The answers, with those to a goal without variables reduced to one.
pub open spec fn reduced(vars: Seq<Seq<char>>, rows: Seq<Seq<char>>) -> Seq<Seq<char>> {
    if vars.len() == 0 && rows.len() > 0 {
        seq![Seq::empty()]
    } else {
        rows
    }
}

/// The answers to a goal.
pub open spec fn answers(st: StoreV, goal: AtomV) -> Seq<Seq<char>> {
    if !st.rels.contains_key(goal.pred) {
        Seq::empty()
    } else {
        let r = st.rels[goal.pred];
        let ids = rows_for(r, bound_pattern(st.names, goal.args, Map::empty()));
        reduced(vars_of(goal.args), answers_upto(st.names, r, ids, goal.args, ids.len() as int))
    }
}

/// The goal that a text denotes, or why it denotes none.
pub open spec fn goal_of(who: Seq<char>, goal: Seq<char>) -> Result<AtomV, Seq<char>> {
    match parsed(goal + "."@) {
        Err(m) => Err(m),
        Ok(cs) => if cs.len() == 1 && cs[0].is_fact {
            Ok(cs[0].head)
        } else {
            Err(who + ": expected a single atom, got "@ + debug_form(goal))
        },
    }
}

/// Parses a goal.
pub fn parse_goal(who: &str, goal: &str) -> (r: Result<Atom, ParseError>)
    ensures
        match r {
            Ok(a) => goal_of(who@, goal@) == Ok::<AtomV, Seq<char>>(a@),
            Err(e) => goal_of(who@, goal@) == Err::<AtomV, Seq<char>>(e.0@),
        },
{
    let mut text = goal.to_owned();
    text.append(".");
    match parse_program(text.as_str()) {
        Err(e) => Err(e),
        Ok(cs) => {
            let ghost v = clauses_view(cs@);
            if cs.len() == 1 {
                assert(v[0] == cs@[0]@);
                if cs[0].is_fact {
                    return Ok(cs[0].head.duplicate());
                }
            }
            let mut m = who.to_owned();
            m.append(": expected a single atom, got ");
            Err(ParseError(about_quoted(m.as_str(), goal)))
        },
    }
}

fn variables(args: &Vec<Term>) -> (r: Vec<String>)
    ensures
        texts(r@) == vars_of(terms_view(args@)),
{
    let ghost ts = terms_view(args@);
    let mut r: Vec<String> = Vec::new();
    let mut i: usize = 0;
    assert(ts.take(0) =~= Seq::empty());
    assert(texts(r@) =~= Seq::empty());
    while i < args.len()
        invariant
            i <= args@.len(),
            ts == terms_view(args@),
            texts(r@) == vars_of(ts.take(i as int)),
        decreases args@.len() - i,
    {
        assert(ts.take(i + 1).drop_last() =~= ts.take(i as int));
        assert(ts.take(i + 1).last() == args@[i as int]@);
        let ghost r0 = texts(r@);
        if let Term::Var(v) = &args[i] {
            r.push(v.clone());
            assert(texts(r@) =~= r0.push(v@));
        }
        i += 1;
    }
    assert(ts.take(ts.len() as int) =~= ts);
    r
}

fn answer(interner: &Interner, env: &Env, vars: &Vec<String>) -> (r: String)
    ensures
        r@ == answer_text(interner@, env@.map, texts(vars@)),
{
    let ghost vs = texts(vars@);
    let mut parts: Vec<String> = Vec::new();
    let mut i: usize = 0;
    while i < vars.len()
        invariant
            i <= vars@.len(),
            vs == texts(vars@),
            parts@.len() == i,
            forall|j: int| 0 <= j < i ==> (#[trigger] parts@[j])@ == binding_text(interner@, env@.map, vs[j]),
        decreases vars@.len() - i,
    {
        assert(vs[i as int] == vars@[i as int]@);
        let mut s = vars[i].clone();
        s.append("=");
        match env.lookup(vars[i].as_str()) {
            Some(x) => {
                let t = interner.display(&x);
                s.append(t.as_str());
            },
            None => {
                s.append("_");
            },
        }
        parts.push(s);
        i += 1;
    }
    assert(texts(parts@) =~= vs.map_values(|v: Seq<char>| binding_text(interner@, env@.map, v)));
    join(&parts, ", ")
}

/// The answers from the given rows.
fn collect_answers(interner: &Interner, rel: &Relation, ids: &Vec<usize>, args: &Vec<Term>) -> (r: Vec<String>)
    requires
        forall|k: int| 0 <= k < ids@.len() ==> (#[trigger] ids@[k]) < rel@.rows.len(),
    ensures
        texts(r@) == reduced(
            vars_of(terms_view(args@)),
            answers_upto(interner@, rel@, ids_view(ids@), terms_view(args@), ids@.len() as int),
        ),
{
    let ghost ts = terms_view(args@);
    let ghost iv = ids_view(ids@);
    let vars = variables(args);
    let mut rows: Vec<String> = Vec::new();
    let mut i: usize = 0;
    assert(texts(rows@) =~= Seq::empty());
    while i < ids.len()
        invariant
            i <= ids@.len(),
            ts == terms_view(args@),
            iv == ids_view(ids@),
            texts(vars@) == vars_of(ts),
            forall|k: int| 0 <= k < ids@.len() ==> (#[trigger] ids@[k]) < rel@.rows.len(),
            texts(rows@) == answers_upto(interner@, rel@, iv, ts, i as int),
        decreases ids@.len() - i,
    {
        let id = ids[i];
        assert(iv[i as int] == id);
        let mut env = Env::new();
        let ghost r0 = texts(rows@);
        if bind_args(interner, args, &rel.rows()[id].key, &mut env) {
            rows.push(answer(interner, &env, &vars));
            assert(texts(rows@) =~= r0.push(answer_text(interner@, env@.map, vars_of(ts))));
        }
        i += 1;
    }
    if vars.len() == 0 && rows.len() > 0 {
        assert(texts(vars@).len() == 0);
        assert(texts(rows@).len() > 0);
        let mut one: Vec<String> = Vec::new();
        one.push(String::new());
        assert(texts(one@) =~= seq![Seq::empty()]);
        return one;
    }
    assert(texts(vars@).len() == vars@.len());
    assert(texts(rows@).len() == rows@.len());
    rows
}

/// The answers to a goal.
pub fn find_answers(store: &Store, goal: &Atom) -> (r: Vec<String>)
    requires
        rels_wf(store@.rels),
    ensures
        texts(r@) == answers(store@, goal@),
{
    match store.relations.get(goal.pred.as_str()) {
        None => {
            let r: Vec<String> = Vec::new();
            assert(texts(r@) =~= Seq::empty());
            r
        },
        Some(rel) => {
            let bound = resolve_bound(&store.interner, &goal.args, &Env::new());
            let ids = find_rows(rel, &bound);
            collect_answers(&store.interner, rel, &ids, &goal.args)
        },
    }
}

/// The answers from all rows of a relation.
pub open spec fn answers_in(st: StoreV, pred: Seq<char>, args: Seq<TermV>) -> Seq<Seq<char>> {
    if !st.rels.contains_key(pred) {
        Seq::empty()
    } else {
        let r = st.rels[pred];
        let ids = Seq::new(r.rows.len(), |i: int| i);
        reduced(vars_of(args), answers_upto(st.names, r, ids, args, ids.len() as int))
    }
}

/// The answers from all rows of a relation.
pub fn find_answers_in(store: &Store, pred: &str, args: &Vec<Term>) -> (r: Vec<String>)
    requires
        rels_wf(store@.rels),
    ensures
        texts(r@) == answers_in(store@, pred@, terms_view(args@)),
{
    match store.relations.get(pred) {
        None => {
            let r: Vec<String> = Vec::new();
            assert(texts(r@) =~= Seq::empty());
            r
        },
        Some(rel) => {
            let all: Vec<Option<Value>> = Vec::new();
            let ids = find_rows(rel, &all);
            collect_answers(&store.interner, rel, &ids, args)
        },
    }
}

// ----------------------------------------------------------- engine reads

/// The keys logged in the given epoch or later, among the first `n`.
pub open spec fn logged_from(log: Seq<(u64, KeyV)>, epoch: u64, n: int) -> Seq<KeyV>
    decreases n,
{
    if n <= 0 {
        Seq::empty()
    } else {
        let before = logged_from(log, epoch, n - 1);
        if log[n - 1].0 >= epoch {
            before.push(log[n - 1].1)
        } else {
            before
        }
    }
}

/// The event happened in the given epoch or later.
pub open spec fn since(epoch: u64) -> spec_fn(ChangeV) -> bool {
    |c: ChangeV| change_epoch(c) >= epoch
}

/// The value of a name that may not be known. An unknown name has no symbol; it
/// is given the least integer, which facts can hold like any other.
pub open spec fn symbol_value(names: Seq<Seq<char>>, s: Seq<char>) -> Value {
    match symbol_of(names, s) {
        Some(x) => Value::Sym(x),
        None => Value::Int(i64::MIN),
    }
}

/// The value of a constant whose symbol is known.
pub open spec fn ground_value(names: Seq<Seq<char>>, t: TermV) -> Option<Value> {
    match t {
        TermV::Sym(s) => match symbol_of(names, s) {
            Some(x) => Some(Value::Sym(x)),
            None => None,
        },
        TermV::Int(i) => Some(Value::Int(i)),
        _ => None,
    }
}

/// The program states a fact of one symbol.
pub open spec fn table_fact(c: ClauseV, pred: Seq<char>, sym: Seq<char>) -> bool {
    c.is_fact && c.head.pred == pred && c.head.args.len() == 1 && (match c.head.args[0] {
        TermV::Sym(s) => s == sym,
        _ => false,
    })
}

/// The text begins with another.
pub open spec fn starts_with(s: Seq<char>, p: Seq<char>) -> bool {
    p.len() <= s.len() && s.take(p.len() as int) == p
}

/// Some clause has the predicate as its head.
pub open spec fn has_clause(cs: Seq<ClauseV>, pred: Seq<char>) -> bool {
    exists|i: int| 0 <= i < cs.len() && (#[trigger] cs[i]).head.pred == pred
}

/// Some rule, a clause with a body, has the predicate as its head.
pub open spec fn has_rule(cs: Seq<ClauseV>, pred: Seq<char>) -> bool {
    exists|i: int| 0 <= i < cs.len() && !(#[trigger] cs[i]).is_fact && cs[i].head.pred == pred
}

/// The predicate is or was defined by a rule, or holds the solutions of an
/// aggregating rule. One whose clauses only state facts is not.
pub open spec fn derived_pred(e: EngineV, pred: Seq<char>) -> bool {
    starts_with(pred, "__agg:"@) || e.ever.contains(pred) || has_rule(e.clauses, pred)
}

/// The value of an optional fact.
pub open spec fn fact_opt(f: Option<StoredFact>) -> Option<FactV> {
    match f {
        Some(x) => Some(x@),
        None => None,
    }
}

/// Whether the text begins with another.
pub fn text_starts_with(s: &str, p: &str) -> (r: bool)
    ensures
        r == starts_with(s@, p@),
{
    let a = to_chars(s);
    let b = to_chars(p);
    if b.len() > a.len() {
        return false;
    }
    let mut i: usize = 0;
    while i < b.len()
        invariant
            i <= b@.len() <= a@.len(),
            a@ == s@,
            b@ == p@,
            forall|j: int| 0 <= j < i ==> #[trigger] a@[j] == b@[j],
        decreases b@.len() - i,
    {
        if a[i] != b[i] {
            assert(a@.take(b@.len() as int)[i as int] != b@[i as int]);
            return false;
        }
        i += 1;
    }
    assert(a@.take(b@.len() as int) =~= b@);
    true
}

/// Whether some clause has the predicate as its head.
pub fn some_clause(cs: &Vec<Clause>, pred: &str) -> (r: bool)
    ensures
        r == has_clause(clauses_view(cs@), pred@),
{
    let ghost v = clauses_view(cs@);
    let mut i: usize = 0;
    while i < cs.len()
        invariant
            i <= cs@.len(),
            v == clauses_view(cs@),
            forall|j: int| 0 <= j < i ==> (#[trigger] v[j]).head.pred != pred@,
        decreases cs@.len() - i,
    {
        assert(v[i as int] == cs@[i as int]@);
        if str_eq(cs[i].head.pred.as_str(), pred) {
            return true;
        }
        i += 1;
    }
    false
}

/// Whether some rule has the predicate as its head.
pub fn some_rule(cs: &Vec<Clause>, pred: &str) -> (r: bool)
    ensures
        r == has_rule(clauses_view(cs@), pred@),
{
    let ghost v = clauses_view(cs@);
    let mut i: usize = 0;
    while i < cs.len()
        invariant
            i <= cs@.len(),
            v == clauses_view(cs@),
            forall|j: int| 0 <= j < i && !(#[trigger] v[j]).is_fact ==> v[j].head.pred != pred@,
        decreases cs@.len() - i,
    {
        assert(v[i as int] == cs@[i as int]@);
        if !cs[i].is_fact && str_eq(cs[i].head.pred.as_str(), pred) {
            return true;
        }
        i += 1;
    }
    false
}

impl Engine {
    /// The tuples of a predicate that fit a pattern, with their annotations;
    /// `None` fits every value.
    pub fn query(&self, pred: &str, pattern: &Vec<Option<Value>>) -> (r: Vec<Hit>)
        requires
            rels_wf(self@.st.rels),
        ensures
            hits_view(r@) == query_of(self@.st, pred@, pattern@),
    {
        let mut out: Vec<Hit> = Vec::new();
        assert(hits_view(out@) =~= Seq::empty());
        let rel = match self.store.relations.get(pred) {
            Some(rel) => rel,
            None => {
                return out;
            },
        };
        let ids = find_rows(rel, pattern);
        let ghost iv = ids_view(ids@);
        let mut i: usize = 0;
        while i < ids.len()
            invariant
                i <= ids@.len(),
                self@.st.rels.contains_key(pred@),
                rel@ == self@.st.rels[pred@],
                iv == ids_view(ids@),
                iv == rows_for(rel@, pattern@),
                forall|k: int| 0 <= k < ids@.len() ==> (#[trigger] ids@[k]) < rel@.rows.len(),
                out@.len() == i,
                forall|k: int| 0 <= k < i ==> (#[trigger] out@[k]).0@ == rel@.rows[iv[k]].key && out@[k].1@ == rel@.rows[iv[k]].fact.ann,
                pattern@.len() > 0 ==> forall|k: int| 0 <= k < i ==> rel@.rows[#[trigger] iv[k]].key.len() == pattern@.len(),
            decreases ids@.len() - i,
        {
            assert(iv[i as int] == ids@[i as int]);
            let row = &rel.rows()[ids[i]];
            assert(rel@.rows[iv[i as int]] == row@);
            if pattern.len() > 0 && pattern.len() != row.key.len() {
                let none: Vec<Hit> = Vec::new();
                assert(hits_view(none@) =~= Seq::empty());
                return none;
            }
            out.push((copy_key(&row.key), row.fact.ann.duplicate()));
            i += 1;
        }
        assert(hits_view(out@) =~= query_of(self@.st, pred@, pattern@));
        out
    }

    /// The answers to a goal such as `current("alice", R, O)`: the values of
    /// its variables, one row for each fact that matches. A goal without
    /// variables has one empty answer if it holds.
    pub fn ask(&self, goal: &str) -> (r: Result<Vec<String>, ParseError>)
        requires
            rels_wf(self@.st.rels),
        ensures
            match r {
                Ok(rows) => goal_of("ask"@, goal@) is Ok && texts(rows@) == answers(self@.st, goal_of("ask"@, goal@)->Ok_0),
                Err(e) => goal_of("ask"@, goal@) == Err::<AtomV, Seq<char>>(e.0@),
            },
    {
        match parse_goal("ask", goal) {
            Ok(head) => Ok(find_answers(&self.store, &head)),
            Err(e) => Err(e),
        }
    }

    /// The facts created in the given epoch or later.
    pub fn changes_from(&self, epoch: u64) -> (r: Vec<Key>)
        ensures
            keys_view(r@) == logged_from(self@.st.log, epoch, self@.st.log.len() as int),
    {
        let ghost log = self@.st.log;
        let mut r: Vec<Key> = Vec::new();
        let mut i: usize = 0;
        assert(keys_view(r@) =~= Seq::empty());
        while i < self.store.change_log.len()
            invariant
                i <= self.store.change_log@.len(),
                log == log_view(self.store.change_log@),
                keys_view(r@) == logged_from(log, epoch, i as int),
            decreases self.store.change_log@.len() - i,
        {
            let e = &self.store.change_log[i];
            assert(log[i as int] == (e.0, e.1@));
            let ghost r0 = keys_view(r@);
            if e.0 >= epoch {
                r.push(copy_pair(&e.1));
                assert(keys_view(r@) =~= r0.push(e.1@));
            }
            i += 1;
        }
        r
    }

    /// The events of the change feed in the given epoch or later.
    pub fn changes_since(&self, epoch: u64) -> (r: Vec<Change>)
        ensures
            feed_view(r@) == self@.st.feed.filter(since(epoch)),
    {
        let ghost feed = self@.st.feed;
        let ghost f = since(epoch);
        let mut r: Vec<Change> = Vec::new();
        let mut i: usize = 0;
        assert(feed.take(0) =~= Seq::empty());
        assert(feed_view(r@) =~= feed.take(0).filter(f)) by {
            reveal(Seq::filter);
        }
        while i < self.store.feed.len()
            invariant
                i <= self.store.feed@.len(),
                feed == feed_view(self.store.feed@),
                f == since(epoch),
                feed_view(r@) == feed.take(i as int).filter(f),
            decreases self.store.feed@.len() - i,
        {
            let c = &self.store.feed[i];
            let ghost r0 = feed_view(r@);
            proof {
                assert(feed[i as int] == c@);
                assert(feed.take(i + 1) =~= feed.take(i as int).push(c@));
                feed.take(i as int).lemma_filter_push(c@, f);
            }
            if c.epoch() >= epoch {
                r.push(c.duplicate());
                assert(feed_view(r@) =~= r0.push(c@));
            }
            i += 1;
        }
        assert(feed.take(feed.len() as int) =~= feed);
        r
    }

    /// The tuples of a relation.
    pub fn relation_keys(&self, pred: &str) -> (r: Vec<Vec<Value>>)
        ensures
            models(r@) == (if self@.st.rels.contains_key(pred@) {
                row_keys(self@.st.rels[pred@])
            } else {
                Seq::empty()
            }),
    {
        match self.store.relations.get(pred) {
            Some(rel) => {
                let r = rel.keys();
                assert(models(r@) =~= row_keys(rel@));
                r
            },
            None => {
                let r: Vec<Vec<Value>> = Vec::new();
                assert(models(r@) =~= Seq::empty());
                r
            },
        }
    }

    /// The relations with their names, each once.
    pub fn relations_iter(&self) -> (r: Vec<(String, &Relation)>)
        ensures
            forall|i: int| 0 <= i < r@.len() ==> self@.st.rels.contains_key((#[trigger] r@[i]).0@) && self@.st.rels[r@[i].0@]
                == r@[i].1@,
            forall|i: int, j: int| 0 <= i < j < r@.len() ==> (#[trigger] r@[i]).0@ != (#[trigger] r@[j]).0@,
            forall|n: Seq<char>| #[trigger]
                self@.st.rels.contains_key(n) ==> exists|i: int| 0 <= i < r@.len() && (#[trigger] r@[i]).0@ == n,
    {
        let names = self.store.relations.names();
        let ghost ns = texts(names@);
        let mut r: Vec<(String, &Relation)> = Vec::new();
        let mut i: usize = 0;
        while i < names.len()
            invariant
                i <= names@.len(),
                ns == texts(names@),
                forall|n: Seq<char>| ns.contains(n) <==> self@.st.rels.contains_key(n),
                r@.len() == i,
                forall|j: int| 0 <= j < i ==> self@.st.rels.contains_key((#[trigger] r@[j]).0@) && self@.st.rels[r@[j].0@]
                    == r@[j].1@ && r@[j].0@ == ns[j],
            decreases names@.len() - i,
        {
            assert(ns[i as int] == names@[i as int]@);
            assert(ns.contains(ns[i as int]));
            match self.store.relations.get(names[i].as_str()) {
                Some(rel) => {
                    r.push((names[i].clone(), rel));
                },
                None => {},
            }
            i += 1;
        }
        proof {
            assert forall|n: Seq<char>| #[trigger] self@.st.rels.contains_key(n) implies exists|i: int|
                0 <= i < r@.len() && (#[trigger] r@[i]).0@ == n by {
                assert(ns.contains(n));
                let k = choose|k: int| 0 <= k < ns.len() && ns[k] == n;
                assert(r@[k].0@ == n);
            }
        }
        r
    }

    /// Whether the program states the fact `pred(sym)`. Unlike a query this
    /// does not need a run.
    pub fn table_holds(&self, pred: &str, sym: &str) -> (r: bool)
        ensures
            r == exists|i: int| 0 <= i < self@.clauses.len() && table_fact(#[trigger] self@.clauses[i], pred@, sym@),
    {
        let ghost v = self@.clauses;
        let mut i: usize = 0;
        while i < self.clauses.len()
            invariant
                i <= self.clauses@.len(),
                v == clauses_view(self.clauses@),
                forall|j: int| 0 <= j < i ==> !table_fact(#[trigger] v[j], pred@, sym@),
            decreases self.clauses@.len() - i,
        {
            let c = &self.clauses[i];
            assert(v[i as int] == c@);
            if c.is_fact && c.head.args.len() == 1 && str_eq(c.head.pred.as_str(), pred) {
                assert(c@.head.args[0] == c.head.args@[0]@);
                if let Term::Sym(s) = &c.head.args[0] {
                    if str_eq(s.as_str(), sym) {
                        assert(table_fact(self@.clauses[i as int], pred@, sym@));
                        return true;
                    }
                }
            }
            i += 1;
        }
        false
    }

    /// Whether the predicate is or was rule-defined, or holds the solutions
    /// of an aggregating rule: its facts are no base facts.
    pub fn is_derived_pred(&self, pred: &str) -> (r: bool)
        ensures
            r == derived_pred(self@, pred@),
    {
        let name = pred.to_owned();
        text_starts_with(pred, "__agg:") || self.ever_derived.contains(&name) || some_rule(&self.clauses, pred)
    }

    /// A stored fact.
    pub fn fact(&self, pred: &str, args: &Vec<Value>) -> (r: Option<StoredFact>)
        requires
            rels_wf(self@.st.rels),
        ensures
            fact_opt(r) == (if crate::store::holds(self@.st.rels, (pred@, args@)) {
                Some(self@.st.rels[pred@].rows[row_of(self@.st.rels[pred@], args@)].fact)
            } else {
                None
            }),
    {
        match self.store.relations.get(pred) {
            Some(rel) => match rel.get(args) {
                Some(f) => Some(f.duplicate()),
                None => None,
            },
            None => None,
        }
    }

    /// The value of a name, without making a symbol.
    pub fn sym_of(&self, s: &str) -> (r: Value)
        ensures
            r == symbol_value(self@.st.names, s@),
    {
        match self.store.interner.lookup(s) {
            Some(x) => Value::Sym(x),
            None => Value::Int(i64::MIN),
        }
    }

    /// The values of an argument list of known constants.
    pub fn ground_values(&self, pat: &Vec<Term>) -> (r: Option<Vec<Value>>)
        ensures
            match r {
                Some(vs) => vs@.len() == pat@.len() && forall|i: int|
                    0 <= i < vs@.len() ==> ground_value(self@.st.names, terms_view(pat@)[i]) == Some(#[trigger] vs@[i]),
                None => exists|i: int|
                    0 <= i < pat@.len() && ground_value(self@.st.names, #[trigger] terms_view(pat@)[i]) is None,
            },
    {
        let mut r: Vec<Value> = Vec::new();
        let mut i: usize = 0;
        while i < pat.len()
            invariant
                i <= pat@.len(),
                r@.len() == i,
                forall|j: int| 0 <= j < i ==> ground_value(self@.st.names, terms_view(pat@)[j]) == Some(#[trigger] r@[j]),
            decreases pat@.len() - i,
        {
            assert(terms_view(pat@)[i as int] == pat@[i as int]@);
            match &pat[i] {
                Term::Sym(s) => match self.store.interner.lookup(s.as_str()) {
                    Some(x) => {
                        r.push(Value::Sym(x));
                    },
                    None => {
                        assert(ground_value(self@.st.names, terms_view(pat@)[i as int]) is None);
                        return None;
                    },
                },
                Term::Int(n) => {
                    r.push(Value::Int(*n));
                },
                _ => {
                    assert(ground_value(self@.st.names, terms_view(pat@)[i as int]) is None);
                    return None;
                },
            }
            i += 1;
        }
        Some(r)
    }

    /// A fact as text.
    pub fn render_fact(&self, pred: &str, args: &Vec<Value>) -> (r: String)
        ensures
            r@ == fact_text(self@.st.names, pred@, args@),
    {
        fact_to_text(&self.store.interner, pred, args)
    }
}

// ----------------------------------------------------------------- schema

/// The first facts of a relation, one to a line.
pub open spec fn samples(names: Seq<Seq<char>>, pred: Seq<char>, r: RelV, n: int) -> Seq<char>
    decreases n,
{
    if n <= 0 {
        Seq::empty()
    } else {
        samples(names, pred, r, n - 1) + "  "@ + fact_text(names, pred, r.rows[n - 1].key) + "\n"@
    }
}

/// A relation with its arity, its number of rows and its first facts.
pub open spec fn relation_summary(names: Seq<Seq<char>>, pred: Seq<char>, r: RelV) -> Seq<char> {
    let arity = if r.rows.len() > 0 {
        r.rows[0].key.len()
    } else {
        0
    };
    let shown = if r.rows.len() < 3 {
        r.rows.len() as int
    } else {
        3
    };
    pred + "/"@ + nat_text(arity) + ": "@ + nat_text(r.rows.len()) + " rows\n"@ + samples(names, pred, r, shown)
}

/// The summaries of the named relations in turn.
pub open spec fn summaries(st: StoreV, ps: Seq<Seq<char>>) -> Seq<char>
    decreases ps.len(),
{
    if ps.len() == 0 {
        Seq::empty()
    } else {
        summaries(st, ps.drop_last()) + relation_summary(st.names, ps.last(), st.rels[ps.last()])
    }
}

/// Every relation with its arity, its number of rows and its first facts, in
/// the order of their names.
pub open spec fn summary_of(st: StoreV) -> Seq<char> {
    summaries(st, enumerate::<String>(st.rels.dom()))
}

impl Engine {
    /// Every relation with its arity, its number of rows and up to three
    /// facts.
    pub fn schema_summary(&self) -> (r: String)
        ensures
            r@ == summary_of(self@.st),
    {
        let names = self.store.sorted_names();
        let ps = names.items();
        let ghost pv = models(ps@);
        let mut out = String::new();
        let mut i: usize = 0;
        assert(pv.take(0) =~= Seq::empty());
        assert(out@ =~= Seq::empty());
        while i < ps.len()
            invariant
                i <= ps@.len(),
                pv == models(ps@),
                pv.to_set() == self@.st.rels.dom(),
                out@ == summaries(self@.st, pv.take(i as int)),
            decreases ps@.len() - i,
        {
            assert(pv.take(i + 1).drop_last() =~= pv.take(i as int));
            assert(pv.take(i + 1).last() == ps@[i as int]@);
            assert(pv[i as int] == ps@[i as int]@);
            assert(pv.to_set().contains(pv[i as int]));
            let text = match self.store.relations.get(ps[i].as_str()) {
                Some(rel) => summarize(&self.store.interner, ps[i].as_str(), rel),
                None => String::new(),
            };
            out.append(text.as_str());
            i += 1;
        }
        assert(pv.take(pv.len() as int) =~= pv);
        out
    }
}

fn summarize(interner: &Interner, pred: &str, rel: &Relation) -> (r: String)
    ensures
        r@ == relation_summary(interner@, pred@, rel@),
{
    let rows = rel.rows();
    let n: usize = rel.len();
    let arity: usize = if n > 0 {
        assert(rel@.rows[0] == rows@[0]@);
        rows[0].key.len()
    } else {
        0
    };
    let mut out = pred.to_owned();
    out.append("/");
    let t = nat_to_text(arity as u64);
    out.append(t.as_str());
    out.append(": ");
    let t = nat_to_text(n as u64);
    out.append(t.as_str());
    out.append(" rows\n");
    let ghost head = out@;
    let most: usize = if n < 3 {
        n
    } else {
        3
    };
    let mut i: usize = 0;
    assert(head + samples(interner@, pred@, rel@, 0) =~= head);
    while i < most
        invariant
            i <= most <= n,
            n == rel@.rows.len(),
            rows_view(rows@) == rel@.rows,
            out@ == head + samples(interner@, pred@, rel@, i as int),
        decreases most - i,
    {
        assert(rel@.rows[i as int] == rows@[i as int]@);
        let ghost before = samples(interner@, pred@, rel@, i as int);
        out.append("  ");
        let t = fact_to_text(interner, pred, &rows[i].key);
        out.append(t.as_str());
        out.append("\n");
        assert(out@ =~= head + (before + "  "@ + t@ + "\n"@));
        i += 1;
    }
    out
}

} // verus!

//! The tools that the memory offers to a host model: each takes plain
//! arguments and gives a text. Input errors are replies that are marked as
//! errors, so that the model can correct itself.

use vstd::prelude::*;
use vstd::string::StringExecFns;
use crate::agent::{
    begun, edges_for, ingested, maintained, next_episode, rules_installed, rules_uninstalled, suppose, supposed, AgentMemory,
    MemoryV,
};
use crate::ast::opt_text;
use crate::canonical::{
    alias_conflicts, assert_aliases, canonicalization_sources, conflicts_of, names_in, seeded, views_upto, with_aliases,
    CANONICAL_RULES,
};
use crate::context::query_text;
use crate::demand::{after_demand, deep_answers, demand_program, is_plain};
use crate::engine::{engine_wf, ran, BatchV, Engine, EngineV};
use crate::explain::{fact_line, sources_to_text, why_text};
use crate::extract::{Extractor, NINE_TENTHS};
use crate::intern::interned;
use crate::notation::fixed_to_text;
use crate::policy::{with_symbol, ReportV, IngestReport};
use crate::protocol::{
    cands_view, drops_view, parse_protocol, parse_protocol_reported, protocol_facts, reported, split_parts, split_unquoted,
};
use crate::query::{answers, fact_text, goal_of};
use crate::relation::{rows_view, RelV};
use crate::rules::{batch_position, error_text, ProgramError, ProgramErrorV};
use crate::scan::{find_from, find_last, find_text, last_below, trim_range, trim_text, trimmed};
use crate::sorted_set::{enumerate, models};
use crate::stratify::strata_error;
use crate::text::{
    about_quoted, debug_form, join, joined, nat_text, nat_to_text, parse_int, parsed_int, slice_text, str_eq, texts, to_chars,
};
use crate::value::Value;

verus! {

/// The arguments of a tool. A text that was not given is empty.
#[derive(Debug)]
pub struct ToolArgs {
    pub facts: String,
    pub goal: String,
    pub fact: String,
    pub rules: String,
    pub id: String,
    pub pred: String,
    pub query: String,
    pub ts: Option<i64>,
    pub budget_tokens: Option<i64>,
}

/// The value of [`ToolArgs`].
#[verifier::ext_equal]
pub struct ToolArgsV {
    pub facts: Seq<char>,
    pub goal: Seq<char>,
    pub fact: Seq<char>,
    pub rules: Seq<char>,
    pub id: Seq<char>,
    pub pred: Seq<char>,
    pub query: Seq<char>,
    pub ts: Option<i64>,
    pub budget_tokens: Option<i64>,
}

impl View for ToolArgs {
    type V = ToolArgsV;

    open spec fn view(&self) -> ToolArgsV {
        ToolArgsV {
            facts: self.facts@,
            goal: self.goal@,
            fact: self.fact@,
            rules: self.rules@,
            id: self.id@,
            pred: self.pred@,
            query: self.query@,
            ts: self.ts,
            budget_tokens: self.budget_tokens,
        }
    }
}

/// What a tool answers.
#[derive(Debug)]
pub struct Reply {
    pub text: String,
    pub is_error: bool,
}

/// The value of a [`Reply`].
#[verifier::ext_equal]
pub struct ReplyV {
    pub text: Seq<char>,
    pub is_error: bool,
}

impl View for Reply {
    type V = ReplyV;

    open spec fn view(&self) -> ReplyV {
        ReplyV { text: self.text@, is_error: self.is_error }
    }
}

pub open spec fn told(text: Seq<char>) -> ReplyV {
    ReplyV { text, is_error: false }
}

pub open spec fn refused(text: Seq<char>) -> ReplyV {
    ReplyV { text, is_error: true }
}

fn tell(text: String) -> (r: Reply)
    ensures
        r@ == told(text@),
{
    Reply { text, is_error: false }
}

fn refuse(text: String) -> (r: Reply)
    ensures
        r@ == refused(text@),
{
    Reply { text, is_error: true }
}

// ------------------------------------------------------------------- texts

/// The first `n` characters, with dots where there were more.
pub open spec fn truncated(s: Seq<char>, n: nat) -> Seq<char> {
    if s.len() <= n {
        s
    } else {
        s.take(n as int) + "..."@
    }
}

/// A text cut after so many characters.
pub fn truncate(s: &str, n: usize) -> (r: String)
    ensures
        r@ == truncated(s@, n as nat),
{
    let v = to_chars(s);
    if v.len() <= n {
        s.to_owned()
    } else {
        let mut t = slice_text(&v, 0, n);
        assert(t@ =~= s@.take(n as int));
        t.append("...");
        t
    }
}

/// The answers to a query, one to a line.
pub open spec fn rows_text(rows: Seq<Seq<char>>) -> Seq<char> {
    if rows.len() == 0 {
        "(no answers)"@
    } else {
        joined(rows, "\n"@)
    }
}

fn rows_to_text(rows: &Vec<String>) -> (r: String)
    ensures
        r@ == rows_text(texts(rows@)),
{
    if rows.len() == 0 {
        "(no answers)".to_owned()
    } else {
        join(rows, "\n")
    }
}

fn push_number(out: &mut String, n: usize)
    ensures
        final(out)@ == old(out)@ + nat_text(n as nat),
{
    let d = nat_to_text(n as u64);
    out.append(d.as_str());
}

/// A goal that could not be answered.
pub open spec fn goal_problem(lead: Seq<char>, goal: Seq<char>, reason: Seq<char>, hint: Seq<char>) -> Seq<char> {
    lead + truncated(goal, 120) + "`\nreason: "@ + reason + hint
}

fn write_goal_problem(lead: &str, goal: &str, reason: &str, hint: &str) -> (r: String)
    ensures
        r@ == goal_problem(lead@, goal@, reason@, hint@),
{
    let mut s = lead.to_owned();
    let g = truncate(goal, 120);
    s.append(g.as_str());
    s.append("`\nreason: ");
    s.append(reason);
    s.append(hint);
    s
}

// ---------------------------------------------------------------- observing

/// The lines for the first `n` escalations.
pub open spec fn escalation_lines(es: Seq<Seq<char>>, n: int) -> Seq<char>
    decreases n,
{
    if n <= 0 {
        Seq::empty()
    } else {
        escalation_lines(es, n - 1) + "\nescalation: "@ + es[n - 1]
    }
}

/// A dropped line and the reason.
pub open spec fn drop_line(d: (Seq<char>, Seq<char>), width: nat) -> Seq<char> {
    "  `"@ + truncated(d.0, width) + "` \u{2014} "@ + d.1
}

/// The lines for the first `n` dropped lines.
pub open spec fn drop_lines(ds: Seq<(Seq<char>, Seq<char>)>, n: int) -> Seq<char>
    decreases n,
{
    if n <= 0 {
        Seq::empty()
    } else {
        drop_lines(ds, n - 1) + "\n"@ + drop_line(ds[n - 1], 80)
    }
}

/// The first of `most` and the length.
pub open spec fn at_most(len: nat, most: int) -> int {
    if len < most {
        len as int
    } else {
        most
    }
}

pub open spec fn escalation_part(es: Seq<Seq<char>>) -> Seq<char> {
    escalation_lines(es, at_most(es.len(), 3)) + (if es.len() > 3 {
        "\n(+"@ + nat_text((es.len() - 3) as nat) + " more escalations)"@
    } else {
        Seq::empty()
    })
}

pub open spec fn drop_part(ds: Seq<(Seq<char>, Seq<char>)>) -> Seq<char> {
    if ds.len() == 0 {
        Seq::empty()
    } else {
        "\ndropped "@ + nat_text(ds.len()) + " line(s) \u{2014} NOT asserted:"@ + drop_lines(ds, at_most(ds.len(), 5)) + (if ds.len()
            > 5 {
            "\n  (+"@ + nat_text((ds.len() - 5) as nat) + " more)"@
        } else {
            Seq::empty()
        })
    }
}

/// What an observation did: the counts, the first three escalations, and the
/// first five dropped lines.
pub open spec fn observe_text(rep: ReportV, ds: Seq<(Seq<char>, Seq<char>)>) -> Seq<char> {
    "added="@ + nat_text(rep.added) + " updated="@ + nat_text(rep.updated) + " noop="@ + nat_text(rep.noop) + " escalations="@
        + nat_text(rep.escalations.len()) + escalation_part(rep.escalations) + drop_part(ds)
}

fn write_drop(d: &(String, String), width: usize) -> (r: String)
    ensures
        r@ == drop_line((d.0@, d.1@), width as nat),
{
    let mut s = "  `".to_owned();
    let t = truncate(d.0.as_str(), width);
    s.append(t.as_str());
    s.append("` \u{2014} ");
    s.append(d.1.as_str());
    s
}

fn write_escalations(es: &Vec<String>) -> (r: String)
    ensures
        r@ == escalation_part(texts(es@)),
{
    let ghost ev = texts(es@);
    let n: usize = es.len();
    let mut out = String::new();
    let mut i: usize = 0;
    assert(out@ =~= Seq::empty());
    while i < n && i < 3
        invariant
            i <= n,
            i <= 3,
            n == es@.len(),
            ev == texts(es@),
            out@ == escalation_lines(ev, i as int),
        decreases n - i,
    {
        assert(ev[i as int] == es@[i as int]@);
        out.append("\nescalation: ");
        out.append(es[i].as_str());
        i += 1;
    }
    let ghost lines = out@;
    if n > 3 {
        out.append("\n(+");
        push_number(&mut out, n - 3);
        out.append(" more escalations)");
        assert(out@ =~= escalation_part(ev));
    }
    assert(lines + Seq::<char>::empty() =~= lines);
    out
}

fn write_drops(ds: &Vec<(String, String)>) -> (r: String)
    ensures
        r@ == drop_part(drops_view(ds@)),
{
    let ghost dv = drops_view(ds@);
    let k: usize = ds.len();
    let mut out = String::new();
    assert(out@ =~= Seq::empty());
    if k == 0 {
        return out;
    }
    out.append("\ndropped ");
    push_number(&mut out, k);
    out.append(" line(s) \u{2014} NOT asserted:");
    let ghost lead = out@;
    assert(lead =~= "\ndropped "@ + nat_text(dv.len()) + " line(s) \u{2014} NOT asserted:"@);
    let mut j: usize = 0;
    assert(lead + drop_lines(dv, 0) =~= lead);
    while j < k && j < 5
        invariant
            j <= k,
            j <= 5,
            k == ds@.len(),
            dv == drops_view(ds@),
            out@ == lead + drop_lines(dv, j as int),
        decreases k - j,
    {
        assert(dv[j as int] == (ds@[j as int].0@, ds@[j as int].1@));
        out.append("\n");
        let d = write_drop(&ds[j], 80);
        out.append(d.as_str());
        assert(out@ =~= lead + drop_lines(dv, j + 1));
        j += 1;
    }
    let ghost lines = out@;
    if k > 5 {
        out.append("\n  (+");
        push_number(&mut out, k - 5);
        out.append(" more)");
        assert(out@ =~= drop_part(dv));
    }
    assert(lines + Seq::<char>::empty() =~= lines);
    out
}

fn write_observe(rep: &IngestReport, ds: &Vec<(String, String)>) -> (r: String)
    ensures
        r@ == observe_text(rep@, drops_view(ds@)),
{
    let mut out = "added=".to_owned();
    push_number(&mut out, rep.added);
    out.append(" updated=");
    push_number(&mut out, rep.updated);
    out.append(" noop=");
    push_number(&mut out, rep.noop);
    out.append(" escalations=");
    push_number(&mut out, rep.escalations.len());
    let es = write_escalations(&rep.escalations);
    out.append(es.as_str());
    let drops = write_drops(ds);
    out.append(drops.as_str());
    out
}

/// Observing facts at a time, the current one if none is given, and running
/// the rules.
pub open spec fn observe_tool(m: MemoryV, facts: Seq<char>, ts: Option<i64>) -> (MemoryV, ReplyV) {
    let t = match ts {
        Some(t) => t,
        None => m.engine.now,
    };
    let x = reported(facts, NINE_TENTHS);
    let y = ingested(begun(m, t), next_episode(m, facts, t, None), x.0);
    (maintained(y.0, y.0.engine.now).0, told(observe_text(y.1, x.1)))
}

// ----------------------------------------------------------------- querying

pub open spec fn query_tool(m: MemoryV, goal: Seq<char>) -> ReplyV {
    match goal_of("ask"@, goal) {
        Ok(a) => told(rows_text(answers(m.engine.st, a))),
        Err(e) => refused(
            goal_problem(
                "parse: could not parse goal `"@,
                goal,
                "parse error: "@ + e,
                "\nhint: quote entity names \u{2014} bare capitalized words are variables. Example: reports_to(\"Alice\", Y)"@,
            ),
        ),
    }
}

pub open spec fn deep_problem(goal: Seq<char>, reason: Seq<char>) -> ReplyV {
    refused(
        goal_problem(
            "query: could not evaluate `"@,
            goal,
            reason,
            "\nhint: quote entity names \u{2014} bare capitalized words are variables. Example: reports_to(\"Alice\", Y)"@,
        ),
    )
}

pub open spec fn deep_tool(m: MemoryV, goal: Seq<char>) -> (MemoryV, ReplyV) {
    match goal_of("ask_deep"@, goal) {
        Err(e) => (m, deep_problem(goal, "parse error: "@ + e)),
        Ok(a) => if !is_plain(m.engine, a) && strata_error(demand_program(m.engine, a.pred)) is Some {
            (
                m,
                deep_problem(
                    goal,
                    "stratification error: "@ + strata_error(demand_program(m.engine, a.pred))->Some_0,
                ),
            )
        } else {
            (MemoryV { engine: after_demand(m.engine, a), ..m }, told(rows_text(deep_answers(m.engine, a))))
        },
    }
}

// --------------------------------------------------------------- explaining

/// A text without the dots at its end.
pub open spec fn without_dots(s: Seq<char>) -> Seq<char>
    decreases s.len(),
{
    if s.len() > 0 && s.last() == '.' {
        without_dots(s.drop_last())
    } else {
        s
    }
}

/// A text without the quotes at its start.
pub open spec fn quotes_off_front(s: Seq<char>) -> Seq<char>
    decreases s.len(),
{
    if s.len() > 0 && s[0] == '"' {
        quotes_off_front(s.drop_first())
    } else {
        s
    }
}

/// A text without the quotes at its end.
pub open spec fn quotes_off_back(s: Seq<char>) -> Seq<char>
    decreases s.len(),
{
    if s.len() > 0 && s.last() == '"' {
        quotes_off_back(s.drop_last())
    } else {
        s
    }
}

/// A text without the quotes around it.
pub open spec fn quotes_off(s: Seq<char>) -> Seq<char> {
    quotes_off_back(quotes_off_front(s))
}

/// A predicate and bare arguments, read from `pred(arg, ...)`. Every argument
/// is a constant, whatever its case; quotes come off.
pub open spec fn fact_atom(text: Seq<char>) -> Result<(Seq<char>, Seq<Seq<char>>), Seq<char>> {
    let s = without_dots(trimmed(text));
    match find_from(s, seq!['('], 0) {
        None => Err("expected pred(args): "@ + debug_form(s)),
        Some(open) => match last_below(s, ')', s.len() as int) {
            None => Err("expected pred(args): "@ + debug_form(s)),
            Some(close) => if close <= open {
                Err("expected pred(args): "@ + debug_form(s))
            } else {
                let pred = trimmed(s.subrange(0, open));
                let args = split_parts(s.subrange(open + 1, close)).map_values(|a: Seq<char>| quotes_off(a));
                if pred.len() == 0 {
                    Err("missing predicate: "@ + debug_form(s))
                } else if exists|i: int| 0 <= i < args.len() && (#[trigger] args[i]).len() == 0 {
                    Err("empty argument in "@ + debug_form(s) + " (why needs a ground fact)"@)
                } else {
                    Ok((pred, args))
                }
            },
        },
    }
}

/// The values of arguments from position `i` on: integers, and symbols for
/// the rest.
pub open spec fn argument_values(e: EngineV, args: Seq<Seq<char>>, i: int, acc: Seq<Value>) -> (EngineV, Seq<Value>)
    decreases args.len() - i,
{
    if i < 0 || i >= args.len() {
        (e, acc)
    } else {
        match parsed_int(args[i]) {
            Some(n) => argument_values(e, args, i + 1, acc.push(Value::Int(n))),
            None => argument_values(
                with_symbol(e, args[i]),
                args,
                i + 1,
                acc.push(Value::Sym(interned(e.st.names, args[i]))),
            ),
        }
    }
}

pub open spec fn why_tool(m: MemoryV, fact: Seq<char>) -> (MemoryV, ReplyV) {
    match fact_atom(fact) {
        Err(e) => (m, refused("input: "@ + e + "\nexample: reports_to(Alice, Carol)"@)),
        Ok(f) => {
            let x = argument_values(m.engine, f.1, 0, Seq::empty());
            (MemoryV { engine: x.0, ..m }, told(why_text(x.0.st, (f.0, x.1))))
        },
    }
}

fn trim_quotes(s: &str) -> (r: String)
    ensures
        r@ == quotes_off(s@),
{
    let v = to_chars(s);
    let mut a: usize = 0;
    let mut b: usize = v.len();
    assert(s@.skip(0) =~= s@);
    while a < b && v[a] == '"'
        invariant
            a <= b,
            b == v@.len(),
            v@ == s@,
            quotes_off_front(s@) == quotes_off_front(s@.skip(a as int)),
        decreases b - a,
    {
        assert(s@.skip(a as int).drop_first() =~= s@.skip(a + 1));
        a += 1;
    }
    let ghost f = s@.skip(a as int);
    assert(s@.subrange(a as int, b as int) =~= f);
    while a < b && v[b - 1] == '"'
        invariant
            a <= b <= v@.len(),
            v@ == s@,
            quotes_off_back(f) == quotes_off_back(s@.subrange(a as int, b as int)),
        decreases b - a,
    {
        assert(s@.subrange(a as int, b as int).drop_last() =~= s@.subrange(a as int, b - 1));
        b -= 1;
    }
    proof {
        let t = s@.subrange(a as int, b as int);
        if a < b {
            assert(t.last() == s@[b - 1]);
        }
    }
    slice_text(&v, a, b)
}

/// Reads `pred(arg, ...)`.
pub fn parse_fact_atom(text: &str) -> (r: Result<(String, Vec<String>), String>)
    ensures
        match r {
            Ok(f) => fact_atom(text@) == Ok::<(Seq<char>, Seq<Seq<char>>), Seq<char>>((f.0@, texts(f.1@))),
            Err(e) => fact_atom(text@) == Err::<(Seq<char>, Seq<Seq<char>>), Seq<char>>(e@),
        },
{
    let t = trim_text(text);
    let w = to_chars(t.as_str());
    let mut n: usize = w.len();
    assert(w@.subrange(0, n as int) =~= t@);
    while n > 0 && w[n - 1] == '.'
        invariant
            n <= w@.len(),
            w@ == t@,
            without_dots(t@) == without_dots(t@.subrange(0, n as int)),
        decreases n,
    {
        assert(t@.subrange(0, n as int).drop_last() =~= t@.subrange(0, n - 1));
        n -= 1;
    }
    proof {
        if n > 0 {
            assert(t@.subrange(0, n as int).last() == t@[n - 1]);
        }
    }
    let s = slice_text(&w, 0, n);
    assert(s@ == without_dots(trimmed(text@)));
    let v = to_chars(s.as_str());
    let paren = "(";
    proof {
        reveal_strlit("(");
        assert("("@ =~= seq!['(']);
    }
    let open = match find_text(&v, paren) {
        Some(i) => i,
        None => {
            return Err(about_quoted("expected pred(args): ", s.as_str()));
        },
    };
    let len: usize = v.len();
    assert(v@.subrange(0, len as int) =~= v@);
    let close = match find_last(&v, 0, len, ')') {
        Some(i) => i,
        None => {
            return Err(about_quoted("expected pred(args): ", s.as_str()));
        },
    };
    if close <= open {
        return Err(about_quoted("expected pred(args): ", s.as_str()));
    }
    let (a, b) = trim_range(&v, 0, open);
    let pred = slice_text(&v, a, b);
    if pred.as_str().is_empty() {
        return Err(about_quoted("missing predicate: ", s.as_str()));
    }
    let inner = slice_text(&v, open + 1, close);
    let parts = split_unquoted(inner.as_str());
    let ghost pv = texts(parts@);
    let ghost av = pv.map_values(|a: Seq<char>| quotes_off(a));
    let mut args: Vec<String> = Vec::new();
    let mut empty = false;
    let mut i: usize = 0;
    while i < parts.len()
        invariant
            i <= parts@.len(),
            pv == texts(parts@),
            av == pv.map_values(|a: Seq<char>| quotes_off(a)),
            args@.len() == i,
            forall|j: int| 0 <= j < i ==> (#[trigger] args@[j])@ == av[j],
            empty == exists|j: int| 0 <= j < i && (#[trigger] av[j]).len() == 0,
        decreases parts@.len() - i,
    {
        assert(pv[i as int] == parts@[i as int]@);
        let x = trim_quotes(parts[i].as_str());
        assert(x@ == av[i as int]);
        if x.as_str().is_empty() {
            empty = true;
        }
        args.push(x);
        i += 1;
    }
    assert(texts(args@) =~= av);
    if empty {
        let mut m = about_quoted("empty argument in ", s.as_str());
        m.append(" (why needs a ground fact)");
        return Err(m);
    }
    Ok((pred, args))
}

fn resolve_arguments(engine: &mut Engine, args: &Vec<String>) -> (r: Vec<Value>)
    requires
        engine_wf(old(engine)@),
    ensures
        (final(engine)@, r@) == argument_values(old(engine)@, texts(args@), 0, Seq::empty()),
        engine_wf(final(engine)@),
{
    let ghost av = texts(args@);
    let ghost want = argument_values(engine@, av, 0, Seq::empty());
    let mut vals: Vec<Value> = Vec::new();
    let mut i: usize = 0;
    while i < args.len()
        invariant
            i <= args@.len(),
            av == texts(args@),
            engine_wf(engine@),
            want == argument_values(engine@, av, i as int, vals@),
        decreases args@.len() - i,
    {
        assert(av[i as int] == args@[i as int]@);
        let v = to_chars(args[i].as_str());
        assert(v@.subrange(0, v@.len() as int) =~= av[i as int]);
        let x = match parse_int(&v, 0, v.len()) {
            Some(n) => Value::Int(n),
            None => engine.sym(args[i].as_str()),
        };
        vals.push(x);
        i += 1;
    }
    vals
}

// -------------------------------------------------------------------- rules

pub open spec fn install_tool(m: MemoryV, rules: Seq<char>) -> (MemoryV, ReplyV) {
    match rules_installed(m, rules) {
        Err(e) => (
            m,
            refused(
                "rules rejected \u{2014} nothing installed:\n"@ + error_text(e)
                    + "\ncommon causes: recursion through negation; aggregates outside rule heads; parse errors (rules end with '.')"@,
            ),
        ),
        Ok(x) => {
            let r = ran(x.0.engine);
            (
                MemoryV { engine: r.0, ..x.0 },
                told("installed "@ + x.1 + "; backfill derived +"@ + nat_text(r.1) + " facts"@),
            )
        },
    }
}

pub open spec fn uninstall_tool(m: MemoryV, id: Seq<char>) -> (MemoryV, ReplyV) {
    if batch_position(m.engine.batches, id, 0) is Some {
        let u = rules_uninstalled(m, id);
        (MemoryV { engine: ran(u.engine).0, ..u }, told("uninstalled "@ + id + "; derivations recomputed"@))
    } else {
        (
            m,
            refused(
                "input: no batch "@ + debug_form(id) + " \u{2014} call lemmalog_batches to list installed ids"@,
            ),
        )
    }
}

/// One line for a batch.
pub open spec fn batch_line(b: BatchV) -> Seq<char> {
    b.0 + ": "@ + b.1
}

pub open spec fn batches_tool(m: MemoryV) -> ReplyV {
    told(joined(m.engine.batches.map_values(|b: BatchV| batch_line(b)), "\n"@))
}

// ------------------------------------------------------------- hypotheticals

pub open spec fn what_if_tool(m: MemoryV, facts: Seq<char>, goal: Seq<char>) -> (MemoryV, ReplyV) {
    let x = reported(facts, NINE_TENTHS);
    if x.0.len() == 0 && trimmed(facts).len() > 0 {
        (
            m,
            refused(
                "input: no valid facts in the hypothetical.\n"@ + joined(
                    x.1.map_values(|d: (Seq<char>, Seq<char>)| drop_line(d, 60)),
                    "\n"@,
                ),
            ),
        )
    } else {
        match supposed(m.engine, x.0, goal) {
            Ok(r) => (MemoryV { engine: r.0, ..m }, told(rows_text(r.1))),
            Err(e) => (
                MemoryV { engine: edges_for(m.engine, x.0, 0).0, ..m },
                refused(
                    goal_problem(
                        "query: could not evaluate `"@,
                        goal,
                        "parse error: "@ + e,
                        "\nhint: quote entity names \u{2014} bare capitalized words are variables"@,
                    ),
                ),
            ),
        }
    }
}

// --------------------------------------------------------- canonicalization

/// The predicates that have canonical views.
pub open spec fn viewed() -> Seq<Seq<char>> {
    seq!["current"@]
}

/// Installing the rules and the views of canonicalization as batches: the
/// memory after it, or why one was rejected and the memory then.
pub open spec fn canonical_batches(m: MemoryV) -> (MemoryV, Option<ProgramErrorV>) {
    let views = views_upto(m.engine, viewed(), 1);
    match rules_installed(m, CANONICAL_RULES@) {
        Err(e) => (m, Some(e)),
        Ok(x) => {
            let m1 = MemoryV {
                engine: seeded(x.0.engine, names_in(x.0.engine, viewed(), 0, Seq::empty()), 0).0,
                ..x.0
            };
            if views.len() == 0 {
                (m1, None)
            } else {
                match rules_installed(m1, views) {
                    Err(e) => (m1, Some(e)),
                    Ok(y) => (y.0, None),
                }
            }
        },
    }
}

pub open spec fn canonicalize_tool(m: MemoryV, facts: Seq<char>) -> (MemoryV, ReplyV) {
    let fs = protocol_facts(facts, NINE_TENTHS);
    let x = with_aliases(m.engine, fs, 0);
    if x.1.len() == 0 {
        (
            m,
            refused(
                "input: no alias edges found \u{2014} lines must look like `local --alias_of[0.9]--> canonical`"@,
            ),
        )
    } else {
        let b = canonical_batches(MemoryV { engine: x.0, ..m });
        match b.1 {
            Some(e) => (b.0, refused("canonicalization rejected: "@ + error_text(e))),
            None => {
                let m1 = maintained(b.0, b.0.engine.now).0;
                let cs = conflicts_of(m1.engine);
                (
                    m1,
                    told(
                        if cs.len() == 0 {
                            "canonicalization installed; no conflicts"@
                        } else {
                            "canonicalization installed; CONFLICTS (retract bad alias edges):\n"@ + joined(cs, "\n"@)
                        },
                    ),
                )
            },
        }
    }
}

// ---------------------------------------------------------- reading it out

/// The budget of a context: at least fifty tokens, a thousand if none is
/// given.
pub open spec fn context_budget(b: Option<i64>) -> nat {
    let n: int = match b {
        Some(x) => x as int,
        None => 1000,
    };
    if n < 50 {
        50
    } else if n > usize::MAX {
        usize::MAX as nat
    } else {
        n as nat
    }
}

pub open spec fn context_tool(m: MemoryV, query: Seq<char>, budget: Option<i64>) -> ReplyV {
    if trimmed(query).len() == 0 {
        refused(
            "input: `query` is required \u{2014} the natural-language question the context should serve"@,
        )
    } else {
        told(
            query_text(m.engine, m.episodes, query, context_budget(budget)),
        )
    }
}

/// The facts of a relation up to row `n`, each with confidence and
/// provenance.
pub open spec fn relation_dump(names: Seq<Seq<char>>, pred: Seq<char>, r: RelV, n: int) -> Seq<char>
    decreases n,
{
    if n <= 0 {
        Seq::empty()
    } else {
        relation_dump(names, pred, r, n - 1) + fact_line(
            Seq::empty(),
            fact_text(names, pred, r.rows[n - 1].key),
            r.rows[n - 1].fact,
        )
    }
}

/// The facts of the first `n` predicates, or of the given one among them.
pub open spec fn dump_upto(e: EngineV, pred: Seq<char>, ps: Seq<Seq<char>>, n: int) -> Seq<char>
    decreases n,
{
    if n <= 0 {
        Seq::empty()
    } else if pred.len() > 0 && ps[n - 1] != pred {
        dump_upto(e, pred, ps, n - 1)
    } else {
        let r = e.st.rels[ps[n - 1]];
        dump_upto(e, pred, ps, n - 1) + relation_dump(e.st.names, ps[n - 1], r, r.rows.len() as int)
    }
}

pub open spec fn dump_tool(m: MemoryV, pred: Seq<char>) -> ReplyV {
    let ps = enumerate::<String>(m.engine.st.rels.dom());
    let out = dump_upto(m.engine, pred, ps, ps.len() as int);
    told(
        if out.len() == 0 {
            "(empty)\n"@
        } else {
            out
        },
    )
}

fn dump_relation(engine: &Engine, pred: &str, out: &mut String)
    requires
        engine@.st.rels.contains_key(pred@),
    ensures
        ({
            let r = engine@.st.rels[pred@];
            final(out)@ == old(out)@ + relation_dump(engine@.st.names, pred@, r, r.rows.len() as int)
        }),
{
    let ghost names = engine@.st.names;
    let ghost o = out@;
    if let Some(rel) = engine.store.relations.get(pred) {
        let ghost rv = rel@;
        let rows = rel.rows();
        let mut i: usize = 0;
        assert(o + relation_dump(names, pred@, rv, 0) =~= o);
        while i < rows.len()
            invariant
                i <= rows@.len(),
                names == engine@.st.names,
                rv.rows == rows_view(rows@),
                out@ == o + relation_dump(names, pred@, rv, i as int),
            decreases rows@.len() - i,
        {
            let ghost before = out@;
            let row = &rows[i];
            assert(rv.rows[i as int] == row@);
            let mut line = engine.render_fact(pred, &row.key);
            line.append("  (conf ");
            let c = fixed_to_text(&row.fact.ann.conf, 3);
            line.append(c.as_str());
            line.append(", prov ");
            let p = sources_to_text(&row.fact.ann.prov);
            line.append(p.as_str());
            line.append(")\n");
            out.append(line.as_str());
            proof {
                assert(line@ =~= fact_line(Seq::empty(), fact_text(names, pred@, row@.key), row@.fact));
                assert(out@ =~= o + relation_dump(names, pred@, rv, i + 1));
            }
            i += 1;
        }
    }
}

fn dump_facts(engine: &Engine, pred: &str) -> (r: String)
    ensures
        ({
            let ps = enumerate::<String>(engine@.st.rels.dom());
            r@ == dump_upto(engine@, pred@, ps, ps.len() as int)
        }),
{
    let set = engine.store.sorted_names();
    let preds = set.items();
    let ghost ps = models(preds@);
    let mut out = String::new();
    let mut i: usize = 0;
    assert(out@ =~= Seq::empty());
    while i < preds.len()
        invariant
            i <= preds@.len(),
            ps == models(preds@),
            ps.to_set() == engine@.st.rels.dom(),
            out@ == dump_upto(engine@, pred@, ps, i as int),
        decreases preds@.len() - i,
    {
        assert(ps[i as int] == preds@[i as int]@);
        assert(ps.to_set().contains(ps[i as int]));
        if pred.is_empty() || str_eq(preds[i].as_str(), pred) {
            dump_relation(engine, preds[i].as_str(), &mut out);
        }
        i += 1;
    }
    out
}

// ------------------------------------------------------------------- saving

/// What the caller has to do with the file of the memory.
#[derive(Debug, Clone, Copy, PartialEq, Eq, Structural)]
pub enum Effect {
    /// Nothing.
    Nothing,
    /// Save the memory and answer with the outcome.
    Save,
    /// Save the memory; a failure is added to the reply.
    AutoSave,
}

/// The reply of the save tool once the memory was saved, or not.
pub open spec fn saved_text(path: Seq<char>, failure: Option<Seq<char>>) -> ReplyV {
    match failure {
        None => told("saved to "@ + path),
        Some(e) => refused("io: snapshot save failed: "@ + e),
    }
}

/// The reply to a request to save, given how saving went.
pub fn save_reply(path: &str, failure: Option<String>) -> (r: Reply)
    ensures
        r@ == saved_text(path@, opt_text(failure)),
{
    match failure {
        None => {
            let mut s = "saved to ".to_owned();
            s.append(path);
            tell(s)
        },
        Some(e) => {
            let mut s = "io: snapshot save failed: ".to_owned();
            s.append(e.as_str());
            refuse(s)
        },
    }
}

/// A reply after the memory was saved, or not. A failure is not silent, and
/// it is no error of the input.
pub open spec fn autosaved(reply: ReplyV, path: Seq<char>, failure: Option<Seq<char>>) -> ReplyV {
    match failure {
        None => reply,
        Some(e) => told(
            reply.text + "\nWARNING: auto-save to "@ + path + " failed: "@ + e + " \u{2014} memory is NOT persisted"@,
        ),
    }
}

/// The reply to a call that changed the memory, given how saving went.
pub fn autosave_reply(reply: Reply, path: &str, failure: Option<String>) -> (r: Reply)
    ensures
        r@ == autosaved(reply@, path@, opt_text(failure)),
{
    match failure {
        None => reply,
        Some(e) => {
            let mut s = reply.text;
            s.append("\nWARNING: auto-save to ");
            s.append(path);
            s.append(" failed: ");
            s.append(e.as_str());
            s.append(" \u{2014} memory is NOT persisted");
            tell(s)
        },
    }
}

// --------------------------------------------------------------------- tools

/// What a tool does to the memory and what it answers. The save tool is not
/// among these: what it answers rests on the file.
pub open spec fn tool_result(m: MemoryV, name: Seq<char>, a: ToolArgsV) -> Option<(MemoryV, ReplyV)> {
    if name == "lemmalog_observe"@ {
        Some(observe_tool(m, a.facts, a.ts))
    } else if name == "lemmalog_query"@ {
        Some((m, query_tool(m, a.goal)))
    } else if name == "lemmalog_query_deep"@ {
        Some(deep_tool(m, a.goal))
    } else if name == "lemmalog_why"@ {
        Some(why_tool(m, a.fact))
    } else if name == "lemmalog_install_rules"@ {
        Some(install_tool(m, a.rules))
    } else if name == "lemmalog_uninstall"@ {
        Some(uninstall_tool(m, a.id))
    } else if name == "lemmalog_batches"@ {
        Some((m, batches_tool(m)))
    } else if name == "lemmalog_what_if"@ {
        Some(what_if_tool(m, a.facts, a.goal))
    } else if name == "lemmalog_canonicalize"@ {
        Some(canonicalize_tool(m, a.facts))
    } else if name == "lemmalog_context"@ {
        Some((m, context_tool(m, a.query, a.budget_tokens)))
    } else if name == "lemmalog_dump"@ {
        Some((m, dump_tool(m, a.pred)))
    } else if name == "lemmalog_run"@ {
        let r = ran(m.engine);
        Some((MemoryV { engine: r.0, ..m }, told("+"@ + nat_text(r.1) + " facts"@)))
    } else {
        None
    }
}

/// The tools that change what is to be kept.
pub open spec fn keeps(name: Seq<char>) -> bool {
    ||| name == "lemmalog_observe"@
    ||| name == "lemmalog_install_rules"@
    ||| name == "lemmalog_uninstall"@
    ||| name == "lemmalog_canonicalize"@
}

/// A call of a tool: the memory after it, and the reply with what to do with
/// the file, or that there is no such tool.
pub open spec fn call_result(m: MemoryV, name: Seq<char>, a: ToolArgsV, path: Option<Seq<char>>) -> (
    MemoryV,
    Result<(ReplyV, Effect), Seq<char>>,
) {
    if name == "lemmalog_save"@ {
        match path {
            Some(_) => (m, Ok((told(Seq::empty()), Effect::Save))),
            None => (
                m,
                Ok(
                    (
                        refused(
                            "input: LEMMALOG_MCP_PATH not set \u{2014} register the server with --env LEMMALOG_MCP_PATH=..."@,
                        ),
                        Effect::Nothing,
                    ),
                ),
            ),
        }
    } else {
        match tool_result(m, name, a) {
            Some(r) => (
                r.0,
                Ok(
                    (
                        r.1,
                        if !r.1.is_error && keeps(name) && path is Some {
                            Effect::AutoSave
                        } else {
                            Effect::Nothing
                        },
                    ),
                ),
            ),
            None => (m, Err("unknown tool "@ + debug_form(name))),
        }
    }
}

fn call_observe<X: Extractor>(m: &mut AgentMemory<X>, facts: &str, ts: Option<i64>) -> (r: Reply)
    requires
        engine_wf(old(m)@.engine),
    ensures
        (final(m)@, r@) == observe_tool(old(m)@, facts@, ts),
        final(m).extractor == old(m).extractor,
        engine_wf(final(m)@.engine),
{
    let t: i64 = match ts {
        Some(t) => t,
        None => m.engine.now,
    };
    let (report, dropped) = m.observe_extracted(facts, t);
    let now: i64 = m.engine.now;
    m.maintain(now);
    tell(write_observe(&report, &dropped))
}

fn call_query<X: Extractor>(m: &AgentMemory<X>, goal: &str) -> (r: Reply)
    requires
        engine_wf(m@.engine),
    ensures
        r@ == query_tool(m@, goal@),
{
    match m.engine.ask(goal) {
        Ok(rows) => tell(rows_to_text(&rows)),
        Err(e) => {
            let reason = e.message();
            refuse(
                write_goal_problem(
                    "parse: could not parse goal `",
                    goal,
                    reason.as_str(),
                    "\nhint: quote entity names \u{2014} bare capitalized words are variables. Example: reports_to(\"Alice\", Y)",
                ),
            )
        },
    }
}

fn call_deep<X: Extractor>(m: &mut AgentMemory<X>, goal: &str) -> (r: Reply)
    requires
        engine_wf(old(m)@.engine),
    ensures
        (final(m)@, r@) == deep_tool(old(m)@, goal@),
        final(m).extractor == old(m).extractor,
        engine_wf(final(m)@.engine),
{
    match m.engine.ask_deep(goal) {
        Ok(rows) => tell(rows_to_text(&rows)),
        Err(e) => {
            let reason = e.message();
            refuse(
                write_goal_problem(
                    "query: could not evaluate `",
                    goal,
                    reason.as_str(),
                    "\nhint: quote entity names \u{2014} bare capitalized words are variables. Example: reports_to(\"Alice\", Y)",
                ),
            )
        },
    }
}

fn call_why<X: Extractor>(m: &mut AgentMemory<X>, fact: &str) -> (r: Reply)
    requires
        engine_wf(old(m)@.engine),
    ensures
        (final(m)@, r@) == why_tool(old(m)@, fact@),
        final(m).extractor == old(m).extractor,
        engine_wf(final(m)@.engine),
{
    match parse_fact_atom(fact) {
        Ok((pred, parts)) => {
            let vals = resolve_arguments(&mut m.engine, &parts);
            tell(m.engine.why(pred.as_str(), &vals))
        },
        Err(e) => {
            let mut s = "input: ".to_owned();
            s.append(e.as_str());
            s.append("\nexample: reports_to(Alice, Carol)");
            refuse(s)
        },
    }
}

fn call_install<X: Extractor>(m: &mut AgentMemory<X>, rules: &str) -> (r: Reply)
    requires
        engine_wf(old(m)@.engine),
    ensures
        (final(m)@, r@) == install_tool(old(m)@, rules@),
        final(m).extractor == old(m).extractor,
        engine_wf(final(m)@.engine),
{
    match m.install_rules(rules) {
        Ok(id) => {
            let n = m.engine.run();
            let mut s = "installed ".to_owned();
            s.append(id.as_str());
            s.append("; backfill derived +");
            push_number(&mut s, n);
            s.append(" facts");
            tell(s)
        },
        Err(e) => {
            let mut s = "rules rejected \u{2014} nothing installed:\n".to_owned();
            let t = e.message();
            s.append(t.as_str());
            s.append(
                "\ncommon causes: recursion through negation; aggregates outside rule heads; parse errors (rules end with '.')",
            );
            refuse(s)
        },
    }
}

fn call_uninstall<X: Extractor>(m: &mut AgentMemory<X>, id: &str) -> (r: Reply)
    requires
        engine_wf(old(m)@.engine),
    ensures
        (final(m)@, r@) == uninstall_tool(old(m)@, id@),
        final(m).extractor == old(m).extractor,
        engine_wf(final(m)@.engine),
{
    if m.uninstall_rules(id) {
        m.engine.run();
        let mut s = "uninstalled ".to_owned();
        s.append(id);
        s.append("; derivations recomputed");
        tell(s)
    } else {
        let mut s = about_quoted("input: no batch ", id);
        s.append(" \u{2014} call lemmalog_batches to list installed ids");
        refuse(s)
    }
}

fn call_batches<X: Extractor>(m: &AgentMemory<X>) -> (r: Reply)
    ensures
        r@ == batches_tool(m@),
{
    let ghost bs = m@.engine.batches;
    let batches = m.engine.batches();
    let mut lines: Vec<String> = Vec::new();
    let mut i: usize = 0;
    while i < batches.len()
        invariant
            i <= batches@.len(),
            batches@.len() == bs.len(),
            forall|j: int| 0 <= j < batches@.len() ==> (#[trigger] batches@[j]).0@ == bs[j].0 && batches@[j].1@ == bs[j].1,
            lines@.len() == i,
            forall|j: int| 0 <= j < i ==> (#[trigger] lines@[j])@ == batch_line(bs[j]),
        decreases batches@.len() - i,
    {
        let mut s = batches[i].0.clone();
        s.append(": ");
        s.append(batches[i].1.as_str());
        lines.push(s);
        i += 1;
    }
    assert(texts(lines@) =~= bs.map_values(|b: BatchV| batch_line(b)));
    tell(join(&lines, "\n"))
}

fn call_what_if<X: Extractor>(m: &mut AgentMemory<X>, facts: &str, goal: &str) -> (r: Reply)
    requires
        engine_wf(old(m)@.engine),
    ensures
        (final(m)@, r@) == what_if_tool(old(m)@, facts@, goal@),
        final(m).extractor == old(m).extractor,
        engine_wf(final(m)@.engine),
{
    let (cands, dropped) = parse_protocol_reported(facts, NINE_TENTHS);
    let t = trim_text(facts);
    assert(cands_view(cands@).len() == cands@.len());
    if cands.len() == 0 && !t.as_str().is_empty() {
        let ghost dv = drops_view(dropped@);
        let mut lines: Vec<String> = Vec::new();
        let mut i: usize = 0;
        while i < dropped.len()
            invariant
                i <= dropped@.len(),
                dv == drops_view(dropped@),
                lines@.len() == i,
                forall|j: int| 0 <= j < i ==> (#[trigger] lines@[j])@ == drop_line(dv[j], 60),
            decreases dropped@.len() - i,
        {
            assert(dv[i as int] == (dropped@[i as int].0@, dropped@[i as int].1@));
            lines.push(write_drop(&dropped[i], 60));
            i += 1;
        }
        assert(texts(lines@) =~= dv.map_values(|d: (Seq<char>, Seq<char>)| drop_line(d, 60)));
        let mut s = "input: no valid facts in the hypothetical.\n".to_owned();
        let list = join(&lines, "\n");
        s.append(list.as_str());
        return refuse(s);
    }
    match suppose(&mut m.engine, &cands, goal) {
        Ok((rows, _)) => tell(rows_to_text(&rows)),
        Err(e) => {
            let reason = e.message();
            refuse(
                write_goal_problem(
                    "query: could not evaluate `",
                    goal,
                    reason.as_str(),
                    "\nhint: quote entity names \u{2014} bare capitalized words are variables",
                ),
            )
        },
    }
}

fn install_views<X: Extractor>(m: &mut AgentMemory<X>) -> (r: Option<ProgramError>)
    requires
        engine_wf(old(m)@.engine),
    ensures
        final(m)@ == canonical_batches(old(m)@).0,
        match r {
            Some(e) => canonical_batches(old(m)@).1 == Some(e@),
            None => canonical_batches(old(m)@).1 is None,
        },
        final(m).extractor == old(m).extractor,
        engine_wf(final(m)@.engine),
{
    let mut preds: Vec<String> = Vec::new();
    preds.push("current".to_owned());
    assert(texts(preds@) =~= viewed());
    let (rules, views) = canonicalization_sources(&m.engine, &preds);
    match m.install_rules(rules) {
        Ok(_) => {},
        Err(e) => {
            return Some(e);
        },
    }
    m.engine.seed_entities(&preds);
    if !views.as_str().is_empty() {
        match m.install_rules(views.as_str()) {
            Ok(_) => {},
            Err(e) => {
                return Some(e);
            },
        }
    }
    None
}

fn some_alias(fs: &Vec<crate::protocol::CandidateFact>) -> (r: bool)
    ensures
        r == exists|i: int| 0 <= i < fs@.len() && (#[trigger] fs@[i]).pred@ == "alias_of"@,
{
    let mut i: usize = 0;
    while i < fs.len()
        invariant
            i <= fs@.len(),
            forall|j: int| 0 <= j < i ==> (#[trigger] fs@[j]).pred@ != "alias_of"@,
        decreases fs@.len() - i,
    {
        if str_eq(fs[i].pred.as_str(), "alias_of") {
            return true;
        }
        i += 1;
    }
    false
}

/// There are aliases among the facts from position `i` on exactly if one of
/// them is an alias.
proof fn lemma_some_alias(e: EngineV, fs: Seq<crate::protocol::CandV>, i: int)
    requires
        0 <= i,
    ensures
        with_aliases(e, fs, i).1.len() > 0 <==> exists|k: int| i <= k < fs.len() && (#[trigger] fs[k]).pred == "alias_of"@,
    decreases fs.len() - i,
{
    if i < fs.len() {
        let e1 = crate::canonical::with_alias(e, fs[i].subj, fs[i].obj, fs[i].confidence);
        lemma_some_alias(e1, fs, i + 1);
        lemma_some_alias(e, fs, i + 1);
    }
}

fn call_canonicalize<X: Extractor>(m: &mut AgentMemory<X>, facts: &str) -> (r: Reply)
    requires
        engine_wf(old(m)@.engine),
    ensures
        (final(m)@, r@) == canonicalize_tool(old(m)@, facts@),
        final(m).extractor == old(m).extractor,
        engine_wf(final(m)@.engine),
{
    let fs = parse_protocol(facts, NINE_TENTHS);
    let ghost fv = cands_view(fs@);
    proof {
        lemma_some_alias(m@.engine, fv, 0);
        assert forall|i: int| 0 <= i < fs@.len() implies fv[i].pred == (#[trigger] fs@[i]).pred@ by {}
    }
    if !some_alias(&fs) {
        assert forall|k: int| 0 <= k < fv.len() implies (#[trigger] fv[k]).pred != "alias_of"@ by {
            assert(fv[k].pred == fs@[k].pred@);
        }
        return refuse(
            "input: no alias edges found \u{2014} lines must look like `local --alias_of[0.9]--> canonical`".to_owned(),
        );
    }
    proof {
        let k = choose|i: int| 0 <= i < fs@.len() && (#[trigger] fs@[i]).pred@ == "alias_of"@;
        assert(fv[k].pred == "alias_of"@);
    }
    assert_aliases(&mut m.engine, &fs);
    match install_views(m) {
        Some(e) => {
            let mut s = "canonicalization rejected: ".to_owned();
            let t = e.message();
            s.append(t.as_str());
            refuse(s)
        },
        None => {
            let now: i64 = m.engine.now;
            m.maintain(now);
            let conflicts = alias_conflicts(&m.engine);
            assert(texts(conflicts@).len() == conflicts@.len());
            if conflicts.len() == 0 {
                tell("canonicalization installed; no conflicts".to_owned())
            } else {
                let mut s = "canonicalization installed; CONFLICTS (retract bad alias edges):\n".to_owned();
                let list = join(&conflicts, "\n");
                s.append(list.as_str());
                tell(s)
            }
        },
    }
}

fn call_context<X: Extractor>(m: &AgentMemory<X>, query: &str, budget: Option<i64>) -> (r: Reply)
    requires
        engine_wf(m@.engine),
    ensures
        r@ == context_tool(m@, query@, budget),
{
    let t = trim_text(query);
    if t.as_str().is_empty() {
        return refuse(
            "input: `query` is required \u{2014} the natural-language question the context should serve".to_owned(),
        );
    }
    let b: i64 = match budget {
        Some(x) => x,
        None => 1000,
    };
    let tokens: usize = if b < 50 {
        50
    } else if b as u64 > usize::MAX as u64 {
        usize::MAX
    } else {
        b as usize
    };
    tell(m.context_for_query(query, tokens))
}

fn call_dump<X: Extractor>(m: &AgentMemory<X>, pred: &str) -> (r: Reply)
    ensures
        r@ == dump_tool(m@, pred@),
{
    let out = dump_facts(&m.engine, pred);
    if out.as_str().is_empty() {
        tell("(empty)\n".to_owned())
    } else {
        tell(out)
    }
}

/// Calls a tool other than the save tool, if there is one of the name.
fn call_plain<X: Extractor>(m: &mut AgentMemory<X>, name: &str, a: &ToolArgs) -> (r: Option<Reply>)
    requires
        engine_wf(old(m)@.engine),
    ensures
        match r {
            Some(x) => tool_result(old(m)@, name@, a@) == Some((final(m)@, x@)),
            None => tool_result(old(m)@, name@, a@) is None && final(m)@ == old(m)@,
        },
        final(m).extractor == old(m).extractor,
        engine_wf(final(m)@.engine),
{
    if str_eq(name, "lemmalog_observe") {
        Some(call_observe(m, a.facts.as_str(), a.ts))
    } else if str_eq(name, "lemmalog_query") {
        Some(call_query(m, a.goal.as_str()))
    } else if str_eq(name, "lemmalog_query_deep") {
        Some(call_deep(m, a.goal.as_str()))
    } else if str_eq(name, "lemmalog_why") {
        Some(call_why(m, a.fact.as_str()))
    } else if str_eq(name, "lemmalog_install_rules") {
        Some(call_install(m, a.rules.as_str()))
    } else if str_eq(name, "lemmalog_uninstall") {
        Some(call_uninstall(m, a.id.as_str()))
    } else if str_eq(name, "lemmalog_batches") {
        Some(call_batches(m))
    } else if str_eq(name, "lemmalog_what_if") {
        Some(call_what_if(m, a.facts.as_str(), a.goal.as_str()))
    } else if str_eq(name, "lemmalog_canonicalize") {
        Some(call_canonicalize(m, a.facts.as_str()))
    } else if str_eq(name, "lemmalog_context") {
        Some(call_context(m, a.query.as_str(), a.budget_tokens))
    } else if str_eq(name, "lemmalog_dump") {
        Some(call_dump(m, a.pred.as_str()))
    } else if str_eq(name, "lemmalog_run") {
        let n = m.engine.run();
        let mut s = "+".to_owned();
        push_number(&mut s, n);
        s.append(" facts");
        Some(tell(s))
    } else {
        None
    }
}

/// Calls a tool: the reply and what to do with the file of the memory, or
/// that there is no such tool. `path` is where the memory is kept, if
/// anywhere.
pub fn tool_call<X: Extractor>(m: &mut AgentMemory<X>, name: &str, a: &ToolArgs, path: Option<&str>) -> (r: Result<
    (Reply, Effect),
    String,
>)
    requires
        engine_wf(old(m)@.engine),
    ensures
        ({
            let p = match path {
                Some(s) => Some(s@),
                None => None,
            };
            let want = call_result(old(m)@, name@, a@, p);
            &&& final(m)@ == want.0
            &&& match r {
                Ok(x) => want.1 == Ok::<(ReplyV, Effect), Seq<char>>((x.0@, x.1)),
                Err(e) => want.1 == Err::<(ReplyV, Effect), Seq<char>>(e@),
            }
        }),
        final(m).extractor == old(m).extractor,
        engine_wf(final(m)@.engine),
{
    if str_eq(name, "lemmalog_save") {
        return match path {
            Some(_) => {
                let r = tell(String::new());
                assert(r.text@ =~= Seq::empty());
                Ok((r, Effect::Save))
            },
            None => Ok(
                (
                    refuse(
                        "input: LEMMALOG_MCP_PATH not set \u{2014} register the server with --env LEMMALOG_MCP_PATH=...".to_owned(),
                    ),
                    Effect::Nothing,
                ),
            ),
        };
    }
    match call_plain(m, name, a) {
        Some(reply) => {
            let keeps = str_eq(name, "lemmalog_observe") || str_eq(name, "lemmalog_install_rules") || str_eq(
                name,
                "lemmalog_uninstall",
            ) || str_eq(name, "lemmalog_canonicalize");
            let effect = if !reply.is_error && keeps && path.is_some() {
                Effect::AutoSave
            } else {
                Effect::Nothing
            };
            Ok((reply, effect))
        },
        None => Err(about_quoted("unknown tool ", name)),
    }
}

} // verus!

//! The rule language.
//!
//! A program is a sequence of clauses. `head(X, Y) :- body1(X), !body2(Y).`
//! is a rule, `fact("a", 1).` a fact. Body literals are atoms, negated atoms
//! (`!`), comparisons (`<`, `=<`, `>`, `>=`, `=`, `\=`) whose right side may
//! add and subtract, and `now(T)`. Capitalised words are variables, `_` is a
//! wildcard, other words and quoted strings are symbols. `count`, `min`,
//! `max` and `sum` aggregate in rule heads. `#` starts a comment.

use vstd::prelude::*;
use vstd::string::StringExecFns;
use crate::ast::{
    clauses_view, lits_view, terms_view, AggFn, Atom, AtomV, Clause, ClauseV, Expr, ExprV, Lit, LitV, Term, TermV,
};
use crate::lexer::{tokenize, tokens, toks_view, Tok, TokV};
use crate::syntax::{comparison, make_comparison};
use crate::text::{parse_int, parsed_int, str_eq};

verus! {

/// Text that is not a program, and why.
#[derive(Debug)]
pub struct ParseError(pub String);

impl ParseError {
    /// The message for a reader.
    pub fn message(&self) -> (r: String)
        ensures
            r@ == "parse error: "@ + self.0@,
    {
        let mut s = "parse error: ".to_owned();
        s.append(self.0.as_str());
        s
    }
}

/// What was read and the position after it, or why nothing was.
pub type Read<T> = Result<(T, int), Seq<char>>;

pub open spec fn tok_at(ts: Seq<TokV>, i: int) -> Option<TokV> {
    if 0 <= i < ts.len() {
        Some(ts[i])
    } else {
        None
    }
}

/// The aggregate function of a name.
pub open spec fn agg_fn(w: Seq<char>) -> Option<AggFn> {
    if w == "count"@ {
        Some(AggFn::Count)
    } else if w == "min"@ {
        Some(AggFn::Min)
    } else if w == "max"@ {
        Some(AggFn::Max)
    } else if w == "sum"@ {
        Some(AggFn::Sum)
    } else {
        None
    }
}

/// An integer constant.
pub open spec fn number(digits: Seq<char>, after: int) -> Read<TermV> {
    match parsed_int(digits) {
        Some(n) => Ok((TermV::Int(n), after)),
        None => Err("integer out of range"@),
    }
}

/// A variable, a wildcard or a constant.
pub open spec fn simple_term(ts: Seq<TokV>, i: int) -> Read<TermV> {
    match tok_at(ts, i) {
        Some(TokV::Name(v)) => Ok((TermV::Var(v), i + 1)),
        Some(TokV::Blank) => Ok((TermV::Wildcard, i + 1)),
        Some(TokV::Quoted(s)) => Ok((TermV::Sym(s), i + 1)),
        Some(TokV::Word(w)) => if tok_at(ts, i + 1) == Some(TokV::Open) && agg_fn(w) is Some {
            Err("aggregates are only allowed in rule heads"@)
        } else {
            Ok((TermV::Sym(w), i + 1))
        },
        Some(TokV::Number(d)) => number(d, i + 1),
        Some(TokV::Minus) => match tok_at(ts, i + 1) {
            Some(TokV::Number(d)) => number(seq!['-'] + d, i + 2),
            _ => Err("expected a term"@),
        },
        _ => Err("expected a term"@),
    }
}

/// A head term: an aggregate or a simple term.
pub open spec fn head_term(ts: Seq<TokV>, i: int) -> Read<TermV> {
    match tok_at(ts, i) {
        Some(TokV::Word(w)) => match agg_fn(w) {
            Some(f) => if tok_at(ts, i + 1) == Some(TokV::Open) {
                match simple_term(ts, i + 2) {
                    Ok(t) => if tok_at(ts, t.1) == Some(TokV::Close) {
                        Ok((TermV::Agg(f, Box::new(t.0)), t.1 + 1))
                    } else {
                        Err("expected ')' after an aggregate"@)
                    },
                    Err(m) => Err(m),
                }
            } else {
                simple_term(ts, i)
            },
            None => simple_term(ts, i),
        },
        _ => simple_term(ts, i),
    }
}

/// A term in a head or in a body.
pub open spec fn term(ts: Seq<TokV>, i: int, head: bool) -> Read<TermV> {
    if head {
        head_term(ts, i)
    } else {
        simple_term(ts, i)
    }
}

/// The arguments from `i` on, up to the closing bracket.
pub open spec fn args_from(ts: Seq<TokV>, i: int, head: bool, acc: Seq<TermV>) -> Read<Seq<TermV>>
    decreases ts.len() - i,
{
    match term(ts, i, head) {
        Err(m) => Err(m),
        Ok(t) => match tok_at(ts, t.1) {
            Some(TokV::Comma) => args_from(ts, t.1 + 1, head, acc.push(t.0)),
            Some(TokV::Close) => Ok((acc.push(t.0), t.1 + 1)),
            _ => Err("expected ',' or ')'"@),
        },
    }
}

/// A predicate with its arguments.
pub open spec fn atom(ts: Seq<TokV>, i: int, head: bool) -> Read<AtomV> {
    match tok_at(ts, i) {
        Some(TokV::Word(p)) => if tok_at(ts, i + 1) != Some(TokV::Open) {
            Err("expected '(' after a predicate"@)
        } else if tok_at(ts, i + 2) == Some(TokV::Close) {
            Ok((AtomV { pred: p, args: Seq::empty() }, i + 3))
        } else {
            match args_from(ts, i + 2, head, Seq::empty()) {
                Ok(a) => Ok((AtomV { pred: p, args: a.0 }, a.1)),
                Err(m) => Err(m),
            }
        },
        _ => Err("expected a predicate"@),
    }
}

/// The rest of a sum, after the expression `acc`.
pub open spec fn expr_from(ts: Seq<TokV>, i: int, acc: ExprV) -> Read<ExprV>
    decreases ts.len() - i,
{
    match tok_at(ts, i) {
        Some(TokV::Plus) => match simple_term(ts, i + 1) {
            Ok(t) => expr_from(ts, t.1, ExprV::Add(Box::new(acc), Box::new(ExprV::T(t.0)))),
            Err(m) => Err(m),
        },
        Some(TokV::Minus) => match simple_term(ts, i + 1) {
            Ok(t) => expr_from(ts, t.1, ExprV::Sub(Box::new(acc), Box::new(ExprV::T(t.0)))),
            Err(m) => Err(m),
        },
        _ => Ok((acc, i)),
    }
}

/// A sum of terms.
pub open spec fn expr(ts: Seq<TokV>, i: int) -> Read<ExprV> {
    match simple_term(ts, i) {
        Ok(t) => expr_from(ts, t.1, ExprV::T(t.0)),
        Err(m) => Err(m),
    }
}

/// A body literal.
pub open spec fn literal(ts: Seq<TokV>, i: int) -> Read<LitV> {
    match tok_at(ts, i) {
        Some(TokV::Bang) => match atom(ts, i + 1, false) {
            Ok(a) => Ok((LitV::Neg(a.0), a.1)),
            Err(m) => Err(m),
        },
        Some(TokV::Word(w)) => if tok_at(ts, i + 1) != Some(TokV::Open) {
            compared_terms(ts, i)
        } else if w == "now"@ {
            match simple_term(ts, i + 2) {
                Ok(t) => if tok_at(ts, t.1) == Some(TokV::Close) {
                    Ok((LitV::Now(t.0), t.1 + 1))
                } else {
                    Err("expected ')' after now"@)
                },
                Err(m) => Err(m),
            }
        } else {
            match atom(ts, i, false) {
                Ok(a) => Ok((LitV::Pos(a.0), a.1)),
                Err(m) => Err(m),
            }
        },
        _ => compared_terms(ts, i),
    }
}

/// A comparison.
pub open spec fn compared_terms(ts: Seq<TokV>, i: int) -> Read<LitV> {
    match simple_term(ts, i) {
        Err(m) => Err(m),
        Ok(t) => match tok_at(ts, t.1) {
            None => Err("expected a comparison"@),
            Some(op) => match expr(ts, t.1 + 1) {
                Err(m) => if comparison(op, t.0, ExprV::T(t.0)) is Some {
                    Err(m)
                } else {
                    Err("expected a comparison"@)
                },
                Ok(e) => match comparison(op, t.0, e.0) {
                    Some(l) => Ok((l, e.1)),
                    None => Err("expected a comparison"@),
                },
            },
        },
    }
}

/// The literals from `i` on, up to the full stop.
pub open spec fn body_from(ts: Seq<TokV>, i: int, acc: Seq<LitV>) -> Read<Seq<LitV>>
    decreases ts.len() - i,
{
    match literal(ts, i) {
        Err(m) => Err(m),
        Ok(l) => if l.1 <= i {
            Err("expected a literal"@)
        } else {
            match tok_at(ts, l.1) {
                Some(TokV::Comma) => body_from(ts, l.1 + 1, acc.push(l.0)),
                Some(TokV::Dot) => Ok((acc.push(l.0), l.1 + 1)),
                _ => Err("expected ',' or '.' after a literal"@),
            }
        },
    }
}

/// A fact or a rule.
pub open spec fn clause(ts: Seq<TokV>, i: int) -> Read<ClauseV> {
    match atom(ts, i, true) {
        Err(m) => Err(m),
        Ok(a) => match tok_at(ts, a.1) {
            Some(TokV::Dot) => Ok((ClauseV { name: None, head: a.0, body: Seq::empty(), is_fact: true }, a.1 + 1)),
            Some(TokV::If) => match body_from(ts, a.1 + 1, Seq::empty()) {
                Ok(b) => Ok((ClauseV { name: None, head: a.0, body: b.0, is_fact: false }, b.1)),
                Err(m) => Err(m),
            },
            _ => Err("expected ':-' or '.' after a head"@),
        },
    }
}

/// The clauses from `i` on.
pub open spec fn program_from(ts: Seq<TokV>, i: int, acc: Seq<ClauseV>) -> Result<Seq<ClauseV>, Seq<char>>
    decreases ts.len() - i,
{
    if i < 0 || i >= ts.len() {
        Ok(acc)
    } else {
        match clause(ts, i) {
            Err(m) => Err(m),
            Ok(c) => if !(i < c.1 <= ts.len()) {
                Ok(acc)
            } else {
                program_from(ts, c.1, acc.push(c.0))
            },
        }
    }
}

/// The program that a text denotes, or why it is none.
pub open spec fn parsed(s: Seq<char>) -> Result<Seq<ClauseV>, Seq<char>> {
    match tokens(s) {
        Err(m) => Err(m),
        Ok(ts) => program_from(ts, 0, Seq::empty()),
    }
}

fn is_tok(ts: &Vec<Tok>, i: usize, t: &Tok) -> (r: bool)
    requires
        t is Open || t is Close || t is Comma || t is Dot || t is If || t is Bang || t is Plus || t is Minus,
    ensures
        r == (tok_at(toks_view(ts@), i as int) == Some(t@)),
        r ==> i < ts@.len() && i < usize::MAX,
{
    if i >= ts.len() {
        return false;
    }
    assert(toks_view(ts@)[i as int] == ts@[i as int]@);
    match (&ts[i], t) {
        (Tok::Open, Tok::Open) => true,
        (Tok::Close, Tok::Close) => true,
        (Tok::Comma, Tok::Comma) => true,
        (Tok::Dot, Tok::Dot) => true,
        (Tok::If, Tok::If) => true,
        (Tok::Bang, Tok::Bang) => true,
        (Tok::Plus, Tok::Plus) => true,
        (Tok::Minus, Tok::Minus) => true,
        _ => false,
    }
}

fn find_agg_fn(w: &str) -> (r: Option<AggFn>)
    ensures
        r == agg_fn(w@),
{
    if str_eq(w, "count") {
        Some(AggFn::Count)
    } else if str_eq(w, "min") {
        Some(AggFn::Min)
    } else if str_eq(w, "max") {
        Some(AggFn::Max)
    } else if str_eq(w, "sum") {
        Some(AggFn::Sum)
    } else {
        None
    }
}

/// What was read is what the grammar says, and lies within the tokens.
pub open spec fn reads_as<T, V>(r: Result<(T, usize), String>, want: Read<V>, view: spec_fn(T) -> V, i: int, n: int) -> bool {
    match r {
        Ok(t) => want == Ok::<(V, int), Seq<char>>((view(t.0), t.1 as int)) && i < t.1 <= n,
        Err(m) => want == Err::<(V, int), Seq<char>>(m@),
    }
}

fn read_number(digits: &Vec<char>, after: usize) -> (r: Result<(Term, usize), String>)
    ensures
        match r {
            Ok(t) => number(digits@, after as int) == Ok::<(TermV, int), Seq<char>>((t.0@, t.1 as int)) && t.1 == after,
            Err(m) => number(digits@, after as int) == Err::<(TermV, int), Seq<char>>(m@),
        },
{
    assert(digits@.subrange(0, digits@.len() as int) =~= digits@);
    match parse_int(digits, 0, digits.len()) {
        Some(n) => Ok((Term::Int(n), after)),
        None => Err("integer out of range".to_owned()),
    }
}

fn read_simple_term(ts: &Vec<Tok>, i: usize) -> (r: Result<(Term, usize), String>)
    ensures
        reads_as(r, simple_term(toks_view(ts@), i as int), |t: Term| t@, i as int, ts@.len() as int),
{
    let ghost v = toks_view(ts@);
    let n: usize = ts.len();
    if i >= n {
        return Err("expected a term".to_owned());
    }
    assert(v[i as int] == ts@[i as int]@);
    match &ts[i] {
        Tok::Name(x) => Ok((Term::Var(x.clone()), i + 1)),
        Tok::Blank => Ok((Term::Wildcard, i + 1)),
        Tok::Quoted(x) => Ok((Term::Sym(x.clone()), i + 1)),
        Tok::Word(w) => {
            if is_tok(ts, i + 1, &Tok::Open) && find_agg_fn(w.as_str()).is_some() {
                Err("aggregates are only allowed in rule heads".to_owned())
            } else {
                Ok((Term::Sym(w.clone()), i + 1))
            }
        },
        Tok::Number(d) => read_number(d, i + 1),
        Tok::Minus => {
            if i + 1 < n {
                assert(v[i + 1] == ts@[i + 1]@);
                if let Tok::Number(d) = &ts[i + 1] {
                    let mut signed: Vec<char> = Vec::new();
                    signed.push('-');
                    let mut k: usize = 0;
                    while k < d.len()
                        invariant
                            k <= d@.len(),
                            signed@ =~= seq!['-'] + d@.take(k as int),
                        decreases d@.len() - k,
                    {
                        signed.push(d[k]);
                        assert(d@.take(k + 1) =~= d@.take(k as int).push(d@[k as int]));
                        k += 1;
                    }
                    assert(d@.take(d@.len() as int) =~= d@);
                    return read_number(&signed, i + 2);
                }
            }
            Err("expected a term".to_owned())
        },
        _ => Err("expected a term".to_owned()),
    }
}

fn read_term(ts: &Vec<Tok>, i: usize, head: bool) -> (r: Result<(Term, usize), String>)
    ensures
        reads_as(r, term(toks_view(ts@), i as int, head), |t: Term| t@, i as int, ts@.len() as int),
{
    let ghost v = toks_view(ts@);
    let n: usize = ts.len();
    if head && i < n {
        assert(v[i as int] == ts@[i as int]@);
        if let Tok::Word(w) = &ts[i] {
            if let Some(f) = find_agg_fn(w.as_str()) {
                if is_tok(ts, i + 1, &Tok::Open) {
                    return match read_simple_term(ts, i + 2) {
                        Ok((t, j)) => {
                            if is_tok(ts, j, &Tok::Close) {
                                Ok((Term::Agg(f, Box::new(t)), j + 1))
                            } else {
                                Err("expected ')' after an aggregate".to_owned())
                            }
                        },
                        Err(m) => Err(m),
                    };
                }
            }
        }
    }
    read_simple_term(ts, i)
}

fn read_args(ts: &Vec<Tok>, i: usize, head: bool) -> (r: Result<(Vec<Term>, usize), String>)
    ensures
        reads_as(
            r,
            args_from(toks_view(ts@), i as int, head, Seq::empty()),
            |t: Vec<Term>| terms_view(t@),
            i as int,
            ts@.len() as int,
        ),
{
    let ghost v = toks_view(ts@);
    let mut args: Vec<Term> = Vec::new();
    let mut k: usize = i;
    assert(terms_view(args@) =~= Seq::empty());
    loop
        invariant
            v == toks_view(ts@),
            i <= k,
            args_from(v, i as int, head, Seq::empty()) == args_from(v, k as int, head, terms_view(args@)),
        decreases ts@.len() + 1 - k,
    {
        let ghost before = terms_view(args@);
        match read_term(ts, k, head) {
            Err(m) => {
                return Err(m);
            },
            Ok((t, j)) => {
                args.push(t);
                assert(terms_view(args@) =~= before.push(t@));
                if is_tok(ts, j, &Tok::Comma) {
                    k = j + 1;
                } else if is_tok(ts, j, &Tok::Close) {
                    return Ok((args, j + 1));
                } else {
                    return Err("expected ',' or ')'".to_owned());
                }
            },
        }
    }
}

fn read_atom(ts: &Vec<Tok>, i: usize, head: bool) -> (r: Result<(Atom, usize), String>)
    ensures
        reads_as(r, atom(toks_view(ts@), i as int, head), |t: Atom| t@, i as int, ts@.len() as int),
{
    let ghost v = toks_view(ts@);
    let n: usize = ts.len();
    if i >= n {
        return Err("expected a predicate".to_owned());
    }
    assert(v[i as int] == ts@[i as int]@);
    match &ts[i] {
        Tok::Word(p) => {
            if !is_tok(ts, i + 1, &Tok::Open) {
                Err("expected '(' after a predicate".to_owned())
            } else if is_tok(ts, i + 2, &Tok::Close) {
                let a = Atom { pred: p.clone(), args: Vec::new() };
                assert(a@.args =~= Seq::empty());
                Ok((a, i + 3))
            } else {
                match read_args(ts, i + 2, head) {
                    Ok((args, j)) => Ok((Atom { pred: p.clone(), args }, j)),
                    Err(m) => Err(m),
                }
            }
        },
        _ => Err("expected a predicate".to_owned()),
    }
}

fn read_expr(ts: &Vec<Tok>, i: usize) -> (r: Result<(Expr, usize), String>)
    ensures
        reads_as(r, expr(toks_view(ts@), i as int), |t: Expr| t@, i as int, ts@.len() as int),
{
    let ghost v = toks_view(ts@);
    let (first, start) = match read_simple_term(ts, i) {
        Ok((t, j)) => (t, j),
        Err(m) => {
            return Err(m);
        },
    };
    let mut e = Expr::T(first);
    let mut k: usize = start;
    loop
        invariant
            v == toks_view(ts@),
            i < k <= ts@.len(),
            expr(v, i as int) == expr_from(v, k as int, e@),
        decreases ts@.len() - k,
    {
        let plus = is_tok(ts, k, &Tok::Plus);
        let minus = is_tok(ts, k, &Tok::Minus);
        if !plus && !minus {
            return Ok((e, k));
        }
        match read_simple_term(ts, k + 1) {
            Err(m) => {
                return Err(m);
            },
            Ok((t, j)) => {
                let right = Expr::T(t);
                assert(right@ == ExprV::T(t@));
                e = if plus {
                    Expr::Add(Box::new(e), Box::new(right))
                } else {
                    Expr::Sub(Box::new(e), Box::new(right))
                };
                k = j;
            },
        }
    }
}

fn read_comparison(ts: &Vec<Tok>, i: usize) -> (r: Result<(Lit, usize), String>)
    ensures
        reads_as(r, compared_terms(toks_view(ts@), i as int), |t: Lit| t@, i as int, ts@.len() as int),
{
    let ghost v = toks_view(ts@);
    match read_simple_term(ts, i) {
        Err(m) => Err(m),
        Ok((t, j)) => {
            if j >= ts.len() {
                return Err("expected a comparison".to_owned());
            }
            assert(v[j as int] == ts@[j as int]@);
            let probe = make_comparison(&ts[j], t.duplicate(), Expr::T(t.duplicate()));
            if probe.is_none() {
                assert(comparison(v[j as int], t@, ExprV::T(t@)) is None);
                return Err("expected a comparison".to_owned());
            }
            match read_expr(ts, j + 1) {
                Err(m) => Err(m),
                Ok((e, k)) => match make_comparison(&ts[j], t, e) {
                    Some(l) => Ok((l, k)),
                    None => Err("expected a comparison".to_owned()),
                },
            }
        },
    }
}

fn read_literal(ts: &Vec<Tok>, i: usize) -> (r: Result<(Lit, usize), String>)
    ensures
        reads_as(r, literal(toks_view(ts@), i as int), |t: Lit| t@, i as int, ts@.len() as int),
{
    let ghost v = toks_view(ts@);
    let n: usize = ts.len();
    if i >= n {
        return read_comparison(ts, i);
    }
    assert(v[i as int] == ts@[i as int]@);
    match &ts[i] {
        Tok::Bang => match read_atom(ts, i + 1, false) {
            Ok((a, j)) => Ok((Lit::Neg(a), j)),
            Err(m) => Err(m),
        },
        Tok::Word(w) => {
            if !is_tok(ts, i + 1, &Tok::Open) {
                read_comparison(ts, i)
            } else if str_eq(w.as_str(), "now") {
                match read_simple_term(ts, i + 2) {
                    Ok((t, j)) => {
                        if is_tok(ts, j, &Tok::Close) {
                            Ok((Lit::Now(t), j + 1))
                        } else {
                            Err("expected ')' after now".to_owned())
                        }
                    },
                    Err(m) => Err(m),
                }
            } else {
                match read_atom(ts, i, false) {
                    Ok((a, j)) => Ok((Lit::Pos(a), j)),
                    Err(m) => Err(m),
                }
            }
        },
        _ => read_comparison(ts, i),
    }
}

fn read_body(ts: &Vec<Tok>, i: usize) -> (r: Result<(Vec<Lit>, usize), String>)
    ensures
        reads_as(
            r,
            body_from(toks_view(ts@), i as int, Seq::empty()),
            |t: Vec<Lit>| lits_view(t@),
            i as int,
            ts@.len() as int,
        ),
{
    let ghost v = toks_view(ts@);
    let mut body: Vec<Lit> = Vec::new();
    let mut k: usize = i;
    assert(lits_view(body@) =~= Seq::empty());
    loop
        invariant
            v == toks_view(ts@),
            i <= k,
            body_from(v, i as int, Seq::empty()) == body_from(v, k as int, lits_view(body@)),
        decreases ts@.len() + 1 - k,
    {
        let ghost before = lits_view(body@);
        match read_literal(ts, k) {
            Err(m) => {
                return Err(m);
            },
            Ok((l, j)) => {
                body.push(l);
                assert(lits_view(body@) =~= before.push(l@));
                if is_tok(ts, j, &Tok::Comma) {
                    k = j + 1;
                } else if is_tok(ts, j, &Tok::Dot) {
                    return Ok((body, j + 1));
                } else {
                    return Err("expected ',' or '.' after a literal".to_owned());
                }
            },
        }
    }
}

fn read_clause(ts: &Vec<Tok>, i: usize) -> (r: Result<(Clause, usize), String>)
    ensures
        reads_as(r, clause(toks_view(ts@), i as int), |t: Clause| t@, i as int, ts@.len() as int),
{
    match read_atom(ts, i, true) {
        Err(m) => Err(m),
        Ok((head, j)) => {
            if is_tok(ts, j, &Tok::Dot) {
                let c = Clause { name: None, head, body: Vec::new(), is_fact: true };
                assert(c@.body =~= Seq::empty());
                Ok((c, j + 1))
            } else if is_tok(ts, j, &Tok::If) {
                match read_body(ts, j + 1) {
                    Ok((body, k)) => Ok((Clause { name: None, head, body, is_fact: false }, k)),
                    Err(m) => Err(m),
                }
            } else {
                Err("expected ':-' or '.' after a head".to_owned())
            }
        },
    }
}

/// Parses a program.
pub fn parse_program(text: &str) -> (r: Result<Vec<Clause>, ParseError>)
    ensures
        match r {
            Ok(cs) => parsed(text@) == Ok::<Seq<ClauseV>, Seq<char>>(clauses_view(cs@)),
            Err(e) => parsed(text@) == Err::<Seq<ClauseV>, Seq<char>>(e.0@),
        },
{
    let ts = match tokenize(text) {
        Ok(ts) => ts,
        Err(m) => {
            return Err(ParseError(m));
        },
    };
    let ghost v = toks_view(ts@);
    let mut out: Vec<Clause> = Vec::new();
    let mut i: usize = 0;
    assert(clauses_view(out@) =~= Seq::empty());
    while i < ts.len()
        invariant
            i <= ts@.len(),
            v == toks_view(ts@),
            parsed(text@) == program_from(v, i as int, clauses_view(out@)),
        decreases ts@.len() - i,
    {
        let ghost before = clauses_view(out@);
        match read_clause(&ts, i) {
            Err(m) => {
                return Err(ParseError(m));
            },
            Ok((c, j)) => {
                out.push(c);
                assert(clauses_view(out@) =~= before.push(c@));
                i = j;
            },
        }
    }
    Ok(out)
}

} // verus!

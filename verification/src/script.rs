//! Programs as text: how clauses are written, and that they read back.

use vstd::prelude::*;
use crate::ast::{AggFn, AtomV, ClauseV, CmpOp, ExprV, LitV, TermV};
use crate::lexer::{
    digits_end, is_blank, is_lower, is_upper, is_word_char, mark_token, next_token, quoted_from, tokens_from, word_end,
    word_token, TokV,
};
use crate::parser::{
    agg_fn, args_from, atom, body_from, clause, compared_terms, expr, expr_from, literal, parsed,
    program_from, simple_term, term, tok_at,
};
use crate::text::{int_reads_back, int_text, is_digit, lemma_nat_text, nat_text};

verus! {

// --------------------------------------------------------------------- shapes

/// A text of letters, digits and underscores.
pub open spec fn all_word_chars(w: Seq<char>) -> bool {
    forall|i: int| 0 <= i < w.len() ==> is_word_char(#[trigger] w[i])
}

/// A predicate as programs name it: a word that starts with a small letter.
pub open spec fn is_predicate(w: Seq<char>) -> bool {
    w.len() > 0 && is_lower(w[0]) && all_word_chars(w)
}

/// A variable: a word that starts with a capital or an underscore, and is not
/// the wildcard.
pub open spec fn is_variable(w: Seq<char>) -> bool {
    &&& w.len() > 0
    &&& is_upper(w[0]) || w[0] == '_'
    &&& w != seq!['_']
    &&& all_word_chars(w)
}

/// A term that may stand anywhere.
pub open spec fn is_simple_term(t: TermV) -> bool {
    match t {
        TermV::Var(v) => is_variable(v),
        TermV::Agg(_, _) => false,
        _ => true,
    }
}

/// A term that may stand in a head.
pub open spec fn is_head_term(t: TermV) -> bool {
    match t {
        TermV::Agg(_, x) => is_simple_term(*x),
        _ => is_simple_term(t),
    }
}

/// A term that may stand at a place.
pub open spec fn may_stand(t: TermV, head: bool) -> bool {
    if head {
        is_head_term(t)
    } else {
        is_simple_term(t)
    }
}

/// An atom that can be written.
pub open spec fn is_atom(a: AtomV, head: bool) -> bool {
    is_predicate(a.pred) && forall|i: int| 0 <= i < a.args.len() ==> may_stand(#[trigger] a.args[i], head)
}

/// An expression that can be written: terms added and subtracted from left to
/// right.
pub open spec fn is_sum(e: ExprV) -> bool
    decreases e,
{
    match e {
        ExprV::T(t) => is_simple_term(t),
        ExprV::Add(a, b) => is_sum(*a) && *b is T && is_simple_term((*b)->T_0),
        ExprV::Sub(a, b) => is_sum(*a) && *b is T && is_simple_term((*b)->T_0),
    }
}

/// A literal that can be written.
pub open spec fn is_literal(l: LitV) -> bool {
    match l {
        LitV::Pos(a) => is_atom(a, false) && a.pred != "now"@,
        LitV::Neg(a) => is_atom(a, false),
        LitV::Cmp(_, a, b) => is_simple_term(a) && is_sum(b),
        LitV::Now(t) => is_simple_term(t),
    }
}

/// A clause that can be written.
pub open spec fn is_clause(c: ClauseV) -> bool {
    &&& c.name is None
    &&& c.is_fact <==> c.body.len() == 0
    &&& is_atom(c.head, true)
    &&& forall|i: int| 0 <= i < c.body.len() ==> is_literal(#[trigger] c.body[i])
}

// --------------------------------------------------------------------- tokens

/// A sequence stands in another at a place.
pub open spec fn has<T>(s: Seq<T>, i: int, w: Seq<T>) -> bool {
    &&& 0 <= i
    &&& i + w.len() <= s.len()
    &&& forall|j: int| 0 <= j < w.len() ==> s[i + j] == #[trigger] w[j]
}

/// The name of an aggregate function.
pub open spec fn agg_name(f: AggFn) -> Seq<char> {
    match f {
        AggFn::Count => "count"@,
        AggFn::Min => "min"@,
        AggFn::Max => "max"@,
        AggFn::Sum => "sum"@,
    }
}

/// The tokens of a term.
pub open spec fn term_marks(t: TermV) -> Seq<TokV>
    decreases t,
{
    match t {
        TermV::Var(v) => seq![TokV::Name(v)],
        TermV::Wildcard => seq![TokV::Blank],
        TermV::Sym(s) => seq![TokV::Quoted(s)],
        TermV::Int(i) => if i < 0 {
            seq![TokV::Minus, TokV::Number(nat_text((-i) as nat))]
        } else {
            seq![TokV::Number(nat_text(i as nat))]
        },
        TermV::Agg(f, x) => seq![TokV::Word(agg_name(f)), TokV::Open] + term_marks(*x) + seq![TokV::Close],
    }
}

/// The tokens of arguments, from one on, and of the bracket after them.
pub open spec fn args_marks(args: Seq<TermV>, k: int) -> Seq<TokV>
    decreases args.len() - k,
{
    if 0 <= k < args.len() {
        term_marks(args[k]) + (if k + 1 < args.len() {
            seq![TokV::Comma] + args_marks(args, k + 1)
        } else {
            seq![TokV::Close]
        })
    } else {
        Seq::empty()
    }
}

/// The tokens of an atom.
pub open spec fn atom_marks(a: AtomV) -> Seq<TokV> {
    seq![TokV::Word(a.pred), TokV::Open] + (if a.args.len() == 0 {
        seq![TokV::Close]
    } else {
        args_marks(a.args, 0)
    })
}

/// The tokens of an expression.
pub open spec fn expr_marks(e: ExprV) -> Seq<TokV>
    decreases e,
{
    match e {
        ExprV::T(t) => term_marks(t),
        ExprV::Add(a, b) => expr_marks(*a) + seq![TokV::Plus] + expr_marks(*b),
        ExprV::Sub(a, b) => expr_marks(*a) + seq![TokV::Minus] + expr_marks(*b),
    }
}

/// The token of a comparison.
pub open spec fn op_mark(op: CmpOp) -> TokV {
    match op {
        CmpOp::Lt => TokV::Less,
        CmpOp::Le => TokV::AtMost,
        CmpOp::Gt => TokV::More,
        CmpOp::Ge => TokV::AtLeast,
        CmpOp::Eq => TokV::Same,
        CmpOp::Ne => TokV::Different,
    }
}

/// The tokens of a literal.
pub open spec fn lit_marks(l: LitV) -> Seq<TokV> {
    match l {
        LitV::Pos(a) => atom_marks(a),
        LitV::Neg(a) => seq![TokV::Bang] + atom_marks(a),
        LitV::Cmp(op, a, b) => term_marks(a) + seq![op_mark(op)] + expr_marks(b),
        LitV::Now(t) => seq![TokV::Word("now"@), TokV::Open] + term_marks(t) + seq![TokV::Close],
    }
}

/// The tokens of literals, from one on, and of the dot after them.
pub open spec fn body_marks(body: Seq<LitV>, k: int) -> Seq<TokV>
    decreases body.len() - k,
{
    if 0 <= k < body.len() {
        lit_marks(body[k]) + (if k + 1 < body.len() {
            seq![TokV::Comma] + body_marks(body, k + 1)
        } else {
            seq![TokV::Dot]
        })
    } else {
        Seq::empty()
    }
}

/// The tokens of a clause.
pub open spec fn clause_marks(c: ClauseV) -> Seq<TokV> {
    atom_marks(c.head) + (if c.is_fact {
        seq![TokV::Dot]
    } else {
        seq![TokV::If] + body_marks(c.body, 0)
    })
}

/// The tokens of clauses, from one on.
pub open spec fn program_marks(cs: Seq<ClauseV>, k: int) -> Seq<TokV>
    decreases cs.len() - k,
{
    if 0 <= k < cs.len() {
        clause_marks(cs[k]) + program_marks(cs, k + 1)
    } else {
        Seq::empty()
    }
}

proof fn lemma_has_parts<T>(s: Seq<T>, i: int, a: Seq<T>, b: Seq<T>)
    requires
        has(s, i, a + b),
    ensures
        has(s, i, a),
        has(s, i + a.len(), b),
{
    let w = a + b;
    assert forall|j: int| 0 <= j < a.len() implies s[i + j] == #[trigger] a[j] by {
        assert(w[j] == a[j]);
    }
    assert forall|j: int| 0 <= j < b.len() implies s[i + a.len() + j] == #[trigger] b[j] by {
        assert(w[a.len() + j] == b[j]);
    }
}

proof fn lemma_agg_name(f: AggFn)
    ensures
        agg_fn(agg_name(f)) == Some(f),
        is_predicate(agg_name(f)),
{
    reveal_strlit("count");
    reveal_strlit("min");
    reveal_strlit("max");
    reveal_strlit("sum");
    assert("min"@[1] == 'i' && "max"@[1] == 'a' && "sum"@[1] == 'u');
}

proof fn lemma_simple_read(ts: Seq<TokV>, i: int, t: TermV)
    requires
        has(ts, i, term_marks(t)),
        is_simple_term(t),
    ensures
        simple_term(ts, i) == Ok::<(TermV, int), Seq<char>>((t, i + term_marks(t).len())),
        term_marks(t).len() > 0,
        tok_at(ts, i) matches Some(TokV::Word(_)) ==> false,
{
    let ms = term_marks(t);
    assert(ts[i + 0] == ms[0]);
    match t {
        TermV::Int(n) => {
            int_reads_back(n);
            if n < 0 {
                assert(ts[i + 1] == ms[1]);
            }
        },
        _ => {},
    }
}

proof fn lemma_term_read(ts: Seq<TokV>, i: int, t: TermV, head: bool)
    requires
        has(ts, i, term_marks(t)),
        may_stand(t, head),
    ensures
        term(ts, i, head) == Ok::<(TermV, int), Seq<char>>((t, i + term_marks(t).len())),
        term_marks(t).len() > 0,
{
    if t is Agg {
        let f = t->Agg_0;
        let x = *t->Agg_1;
        let start = seq![TokV::Word(agg_name(f)), TokV::Open];
        let mid = term_marks(x);
        let end = seq![TokV::Close];
        lemma_agg_name(f);
        lemma_has_parts(ts, i, start + mid, end);
        lemma_has_parts(ts, i, start, mid);
        assert(ts[i + 0] == start[0]);
        assert(ts[i + 1] == start[1]);
        lemma_simple_read(ts, i + 2, x);
        assert(ts[i + (start + mid).len() + 0] == end[0]);
        assert(head);
        assert(t == TermV::Agg(f, Box::new(x)));
    } else {
        lemma_simple_read(ts, i, t);
    }
}

proof fn lemma_args_read(ts: Seq<TokV>, i: int, args: Seq<TermV>, k: int, head: bool)
    requires
        0 <= k < args.len(),
        has(ts, i, args_marks(args, k)),
        forall|j: int| 0 <= j < args.len() ==> may_stand(#[trigger] args[j], head),
    ensures
        args_from(ts, i, head, args.take(k)) == Ok::<(Seq<TermV>, int), Seq<char>>((args, i + args_marks(args, k).len())),
    decreases args.len() - k,
{
    let first = term_marks(args[k]);
    let j = i + first.len();
    if k + 1 < args.len() {
        lemma_has_parts(ts, i, first, seq![TokV::Comma] + args_marks(args, k + 1));
        lemma_has_parts(ts, j, seq![TokV::Comma], args_marks(args, k + 1));
        assert(ts[j + 0] == seq![TokV::Comma][0]);
        lemma_args_read(ts, j + 1, args, k + 1, head);
        assert(args.take(k).push(args[k]) =~= args.take(k + 1));
    } else {
        lemma_has_parts(ts, i, first, seq![TokV::Close]);
        assert(ts[j + 0] == seq![TokV::Close][0]);
        assert(args.take(k).push(args[k]) =~= args);
    }
    lemma_term_read(ts, i, args[k], head);
}

proof fn lemma_first_mark(args: Seq<TermV>, head: bool)
    requires
        args.len() > 0,
        may_stand(args[0], head),
    ensures
        args_marks(args, 0).len() > 0,
        args_marks(args, 0)[0] != TokV::Close,
{
    let t = args[0];
    if t is Agg {
        let ms = seq![TokV::Word(agg_name(t->Agg_0)), TokV::Open] + term_marks(*t->Agg_1) + seq![TokV::Close];
        assert(term_marks(t) == ms);
        assert(ms[0] == TokV::Word(agg_name(t->Agg_0)));
    }
    assert(args_marks(args, 0)[0] == term_marks(t)[0]);
}

proof fn lemma_atom_read(ts: Seq<TokV>, i: int, a: AtomV, head: bool)
    requires
        has(ts, i, atom_marks(a)),
        is_atom(a, head),
    ensures
        atom(ts, i, head) == Ok::<(AtomV, int), Seq<char>>((a, i + atom_marks(a).len())),
        tok_at(ts, i) == Some(TokV::Word(a.pred)),
        tok_at(ts, i + 1) == Some(TokV::Open),
{
    let start = seq![TokV::Word(a.pred), TokV::Open];
    if a.args.len() == 0 {
        lemma_has_parts(ts, i, start, seq![TokV::Close]);
        assert(ts[i + 2 + 0] == seq![TokV::Close][0]);
        assert(a.args =~= Seq::empty());
    } else {
        lemma_has_parts(ts, i, start, args_marks(a.args, 0));
        lemma_args_read(ts, i + 2, a.args, 0, head);
        lemma_first_mark(a.args, head);
        assert(ts[i + 2 + 0] == args_marks(a.args, 0)[0]);
        assert(a.args.take(0) =~= Seq::empty());
    }
    assert(ts[i + 0] == start[0]);
    assert(ts[i + 1] == start[1]);
}

proof fn lemma_sum_read(ts: Seq<TokV>, i: int, e: ExprV)
    requires
        has(ts, i, expr_marks(e)),
        is_sum(e),
    ensures
        expr(ts, i) == expr_from(ts, i + expr_marks(e).len(), e),
        expr_marks(e).len() > 0,
    decreases e,
{
    match e {
        ExprV::T(t) => {
            lemma_simple_read(ts, i, t);
        },
        ExprV::Add(a, b) => {
            let left = expr_marks(*a);
            let t = (*b)->T_0;
            lemma_has_parts(ts, i, left + seq![TokV::Plus], expr_marks(*b));
            lemma_has_parts(ts, i, left, seq![TokV::Plus]);
            lemma_sum_read(ts, i, *a);
            assert(ts[i + left.len() + 0] == seq![TokV::Plus][0]);
            lemma_simple_read(ts, i + left.len() + 1, t);
            assert(e == ExprV::Add(a, Box::new(ExprV::T(t))));
        },
        ExprV::Sub(a, b) => {
            let left = expr_marks(*a);
            let t = (*b)->T_0;
            lemma_has_parts(ts, i, left + seq![TokV::Minus], expr_marks(*b));
            lemma_has_parts(ts, i, left, seq![TokV::Minus]);
            lemma_sum_read(ts, i, *a);
            assert(ts[i + left.len() + 0] == seq![TokV::Minus][0]);
            lemma_simple_read(ts, i + left.len() + 1, t);
            assert(e == ExprV::Sub(a, Box::new(ExprV::T(t))));
        },
    }
}

/// A literal ends before a token.
spec fn ends_literal(t: TokV) -> bool {
    t is Comma || t is Dot
}

proof fn lemma_literal_read(ts: Seq<TokV>, i: int, l: LitV)
    requires
        has(ts, i, lit_marks(l)),
        is_literal(l),
        i + lit_marks(l).len() < ts.len(),
        ends_literal(ts[i + lit_marks(l).len()]),
    ensures
        literal(ts, i) == Ok::<(LitV, int), Seq<char>>((l, i + lit_marks(l).len())),
        lit_marks(l).len() > 0,
{
    match l {
        LitV::Pos(a) => {
            lemma_atom_read(ts, i, a, false);
        },
        LitV::Neg(a) => {
            lemma_has_parts(ts, i, seq![TokV::Bang], atom_marks(a));
            assert(ts[i + 0] == seq![TokV::Bang][0]);
            lemma_atom_read(ts, i + 1, a, false);
        },
        LitV::Cmp(op, a, b) => {
            let left = term_marks(a);
            let mid = seq![op_mark(op)];
            lemma_has_parts(ts, i, left + mid, expr_marks(b));
            lemma_has_parts(ts, i, left, mid);
            lemma_simple_read(ts, i, a);
            assert(ts[i + left.len() + 0] == mid[0]);
            lemma_sum_read(ts, i + left.len() + 1, b);
            assert(compared_terms(ts, i) == Ok::<(LitV, int), Seq<char>>((l, i + lit_marks(l).len())));
            assert(tok_at(ts, i) is Some);
            assert(ts[i + 0] == left[0]);
        },
        LitV::Now(t) => {
            let start = seq![TokV::Word("now"@), TokV::Open];
            lemma_has_parts(ts, i, start + term_marks(t), seq![TokV::Close]);
            lemma_has_parts(ts, i, start, term_marks(t));
            assert(ts[i + 0] == start[0]);
            assert(ts[i + 1] == start[1]);
            lemma_simple_read(ts, i + 2, t);
            assert(ts[i + (start + term_marks(t)).len() + 0] == seq![TokV::Close][0]);
        },
    }
}

proof fn lemma_body_read(ts: Seq<TokV>, i: int, body: Seq<LitV>, k: int)
    requires
        0 <= k < body.len(),
        has(ts, i, body_marks(body, k)),
        forall|j: int| 0 <= j < body.len() ==> is_literal(#[trigger] body[j]),
    ensures
        body_from(ts, i, body.take(k)) == Ok::<(Seq<LitV>, int), Seq<char>>((body, i + body_marks(body, k).len())),
    decreases body.len() - k,
{
    let first = lit_marks(body[k]);
    let j = i + first.len();
    if k + 1 < body.len() {
        lemma_has_parts(ts, i, first, seq![TokV::Comma] + body_marks(body, k + 1));
        lemma_has_parts(ts, j, seq![TokV::Comma], body_marks(body, k + 1));
        assert(ts[j + 0] == seq![TokV::Comma][0]);
        lemma_body_read(ts, j + 1, body, k + 1);
        assert(body.take(k).push(body[k]) =~= body.take(k + 1));
    } else {
        lemma_has_parts(ts, i, first, seq![TokV::Dot]);
        assert(ts[j + 0] == seq![TokV::Dot][0]);
        assert(body.take(k).push(body[k]) =~= body);
    }
    lemma_literal_read(ts, i, body[k]);
}

proof fn lemma_clause_read(ts: Seq<TokV>, i: int, c: ClauseV)
    requires
        has(ts, i, clause_marks(c)),
        is_clause(c),
    ensures
        clause(ts, i) == Ok::<(ClauseV, int), Seq<char>>((c, i + clause_marks(c).len())),
        clause_marks(c).len() > 0,
{
    let h = atom_marks(c.head);
    let j = i + h.len();
    if c.is_fact {
        lemma_has_parts(ts, i, h, seq![TokV::Dot]);
        assert(ts[j + 0] == seq![TokV::Dot][0]);
        assert(c.body =~= Seq::empty());
    } else {
        lemma_has_parts(ts, i, h, seq![TokV::If] + body_marks(c.body, 0));
        lemma_has_parts(ts, j, seq![TokV::If], body_marks(c.body, 0));
        assert(ts[j + 0] == seq![TokV::If][0]);
        lemma_body_read(ts, j + 1, c.body, 0);
        assert(c.body.take(0) =~= Seq::empty());
    }
    lemma_atom_read(ts, i, c.head, true);
}

proof fn lemma_program_read(ts: Seq<TokV>, i: int, cs: Seq<ClauseV>, k: int)
    requires
        0 <= k <= cs.len(),
        has(ts, i, program_marks(cs, k)),
        i + program_marks(cs, k).len() == ts.len(),
        forall|j: int| 0 <= j < cs.len() ==> is_clause(#[trigger] cs[j]),
    ensures
        program_from(ts, i, cs.take(k)) == Ok::<Seq<ClauseV>, Seq<char>>(cs),
    decreases cs.len() - k,
{
    if k < cs.len() {
        let first = clause_marks(cs[k]);
        lemma_has_parts(ts, i, first, program_marks(cs, k + 1));
        lemma_clause_read(ts, i, cs[k]);
        lemma_program_read(ts, i + first.len(), cs, k + 1);
        assert(cs.take(k).push(cs[k]) =~= cs.take(k + 1));
    } else {
        assert(cs.take(k) =~= cs);
    }
}

// ----------------------------------------------------------------------- text

/// A text as it stands between double quotes.
pub open spec fn quote_escaped(s: Seq<char>) -> Seq<char>
    decreases s.len(),
{
    if s.len() == 0 {
        Seq::empty()
    } else {
        (if s[0] == '"' || s[0] == '\\' {
            seq!['\\', s[0]]
        } else {
            seq![s[0]]
        }) + quote_escaped(s.drop_first())
    }
}

/// How a term is written.
pub open spec fn term_text(t: TermV) -> Seq<char>
    decreases t,
{
    match t {
        TermV::Var(v) => v,
        TermV::Wildcard => seq!['_'],
        TermV::Sym(s) => seq!['"'] + quote_escaped(s) + seq!['"'],
        TermV::Int(i) => int_text(i as int),
        TermV::Agg(f, x) => agg_name(f) + seq!['('] + term_text(*x) + seq![')'],
    }
}

/// How arguments are written, from one on, with the bracket after them; `gap`
/// follows each comma.
pub open spec fn args_text(args: Seq<TermV>, k: int, gap: Seq<char>) -> Seq<char>
    decreases args.len() - k,
{
    if 0 <= k < args.len() {
        term_text(args[k]) + (if k + 1 < args.len() {
            seq![','] + gap + args_text(args, k + 1, gap)
        } else {
            seq![')']
        })
    } else {
        Seq::empty()
    }
}

/// How an atom is written.
pub open spec fn atom_text(a: AtomV, gap: Seq<char>) -> Seq<char> {
    a.pred + seq!['('] + (if a.args.len() == 0 {
        seq![')']
    } else {
        args_text(a.args, 0, gap)
    })
}

/// How an expression is written.
pub open spec fn expr_text(e: ExprV) -> Seq<char>
    decreases e,
{
    match e {
        ExprV::T(t) => term_text(t),
        ExprV::Add(a, b) => expr_text(*a) + seq![' ', '+', ' '] + expr_text(*b),
        ExprV::Sub(a, b) => expr_text(*a) + seq![' ', '-', ' '] + expr_text(*b),
    }
}

/// How a comparison is written.
pub open spec fn op_text(op: CmpOp) -> Seq<char> {
    match op {
        CmpOp::Lt => seq!['<'],
        CmpOp::Le => seq!['=', '<'],
        CmpOp::Gt => seq!['>'],
        CmpOp::Ge => seq!['>', '='],
        CmpOp::Eq => seq!['='],
        CmpOp::Ne => seq!['\\', '='],
    }
}

/// How a literal is written.
pub open spec fn lit_text(l: LitV, gap: Seq<char>) -> Seq<char> {
    match l {
        LitV::Pos(a) => atom_text(a, gap),
        LitV::Neg(a) => seq!['!'] + atom_text(a, gap),
        LitV::Cmp(op, a, b) => term_text(a) + seq![' '] + op_text(op) + seq![' '] + expr_text(b),
        LitV::Now(t) => "now"@ + seq!['('] + term_text(t) + seq![')'],
    }
}

/// How literals are written, from one on, with the dot after them.
pub open spec fn body_text(body: Seq<LitV>, k: int, gap: Seq<char>) -> Seq<char>
    decreases body.len() - k,
{
    if 0 <= k < body.len() {
        lit_text(body[k], gap) + (if k + 1 < body.len() {
            seq![',', ' '] + body_text(body, k + 1, gap)
        } else {
            seq!['.']
        })
    } else {
        Seq::empty()
    }
}

/// How a clause is written.
pub open spec fn clause_text(c: ClauseV, gap: Seq<char>) -> Seq<char> {
    atom_text(c.head, gap) + (if c.is_fact {
        seq!['.']
    } else {
        seq![' ', ':', '-', ' '] + body_text(c.body, 0, gap)
    })
}

/// How clauses are written, from one on, a line each.
pub open spec fn clauses_text(cs: Seq<ClauseV>, k: int) -> Seq<char>
    decreases cs.len() - k,
{
    if 0 <= k < cs.len() {
        clause_text(cs[k], seq![' ']) + seq!['\n'] + clauses_text(cs, k + 1)
    } else {
        Seq::empty()
    }
}

/// How a program is written.
pub open spec fn program_text(cs: Seq<ClauseV>) -> Seq<char> {
    clauses_text(cs, 0)
}

/// Between two places of a text stand these tokens.
pub open spec fn spans(s: Seq<char>, i: int, e: int, ms: Seq<TokV>) -> bool {
    &&& 0 <= i <= e <= s.len()
    &&& forall|acc: Seq<TokV>| #[trigger] tokens_from(s, i, acc) == tokens_from(s, e, acc + ms)
}

/// No word goes on at a place of a text.
pub open spec fn breaks(s: Seq<char>, i: int) -> bool {
    i >= s.len() || !is_word_char(s[i])
}

/// A gap between tokens.
pub open spec fn is_gap(g: Seq<char>) -> bool {
    forall|i: int| 0 <= i < g.len() ==> is_blank(#[trigger] g[i])
}

/// What stands in two parts stands in both together.
pub proof fn lemma_spans_join(s: Seq<char>, i: int, m: int, e: int, a: Seq<TokV>, b: Seq<TokV>)
    requires
        spans(s, i, m, a),
        spans(s, m, e, b),
    ensures
        spans(s, i, e, a + b),
{
    assert forall|acc: Seq<TokV>| #[trigger] tokens_from(s, i, acc) == tokens_from(s, e, acc + (a + b)) by {
        assert(tokens_from(s, m, acc + a) == tokens_from(s, e, (acc + a) + b));
        assert((acc + a) + b =~= acc + (a + b));
    }
}

/// A token of its own.
proof fn lemma_one_token(s: Seq<char>, i: int, e: int, t: TokV)
    requires
        0 <= i < e <= s.len(),
        next_token(s, i) == Ok::<(Option<TokV>, int), Seq<char>>((Some(t), e)),
    ensures
        spans(s, i, e, seq![t]),
{
    assert forall|acc: Seq<TokV>| #[trigger] tokens_from(s, i, acc) == tokens_from(s, e, acc + seq![t]) by {
        assert(acc.push(t) =~= acc + seq![t]);
    }
}

/// A gap holds no token.
pub proof fn lemma_gap_spans(s: Seq<char>, i: int, g: Seq<char>)
    requires
        has(s, i, g),
        is_gap(g),
    ensures
        spans(s, i, i + g.len(), Seq::empty()),
    decreases g.len(),
{
    if g.len() == 0 {
        assert forall|acc: Seq<TokV>| #[trigger] tokens_from(s, i, acc) == tokens_from(s, i, acc + Seq::empty()) by {
            assert(acc + Seq::<TokV>::empty() =~= acc);
        }
    } else {
        let l = g.drop_last();
        assert(g =~= l + seq![g.last()]);
        lemma_has_parts(s, i, l, seq![g.last()]);
        lemma_gap_spans(s, i, l);
        let j = i + l.len();
        assert(s[j + 0] == seq![g.last()][0]);
        assert(is_blank(g[g.len() - 1]));
        assert forall|acc: Seq<TokV>| #[trigger] tokens_from(s, j, acc) == tokens_from(s, j + 1, acc + Seq::empty()) by {
            assert(acc + Seq::<TokV>::empty() =~= acc);
        }
        lemma_spans_join(s, i, j, j + 1, Seq::empty(), Seq::empty());
        assert(Seq::<TokV>::empty() + Seq::<TokV>::empty() =~= Seq::empty());
    }
}

proof fn lemma_word_end(s: Seq<char>, i: int, e: int)
    requires
        0 <= i <= e <= s.len(),
        forall|j: int| i <= j < e ==> is_word_char(#[trigger] s[j]),
        breaks(s, e),
    ensures
        word_end(s, i) == e,
    decreases e - i,
{
    if i < e {
        lemma_word_end(s, i + 1, e);
    }
}

proof fn lemma_digits_end(s: Seq<char>, i: int, e: int)
    requires
        0 <= i <= e <= s.len(),
        forall|j: int| i <= j < e ==> is_digit(#[trigger] s[j]),
        breaks(s, e),
    ensures
        digits_end(s, i) == e,
    decreases e - i,
{
    if i < e {
        lemma_digits_end(s, i + 1, e);
    }
}

proof fn lemma_word_spans(s: Seq<char>, i: int, w: Seq<char>)
    requires
        has(s, i, w),
        w.len() > 0,
        !is_digit(w[0]),
        all_word_chars(w),
        breaks(s, i + w.len()),
    ensures
        spans(s, i, i + w.len(), seq![word_token(w)]),
{
    let e = i + w.len();
    assert forall|j: int| i <= j < e implies is_word_char(#[trigger] s[j]) by {
        assert(s[i + (j - i)] == w[j - i]);
    }
    assert(s[i + 0] == w[0]);
    assert(is_word_char(w[0]));
    lemma_word_end(s, i + 1, e);
    assert(s.subrange(i, e) =~= w) by {
        assert forall|j: int| 0 <= j < w.len() implies s.subrange(i, e)[j] == w[j] by {
            assert(s[i + j] == w[j]);
        }
    }
    lemma_one_token(s, i, e, word_token(w));
}

proof fn lemma_number_spans(s: Seq<char>, i: int, n: nat)
    requires
        has(s, i, nat_text(n)),
        breaks(s, i + nat_text(n).len()),
    ensures
        spans(s, i, i + nat_text(n).len(), seq![TokV::Number(nat_text(n))]),
{
    let w = nat_text(n);
    lemma_nat_text(n);
    let e = i + w.len();
    assert forall|j: int| i <= j < e implies is_digit(#[trigger] s[j]) by {
        assert(s[i + (j - i)] == w[j - i]);
    }
    lemma_digits_end(s, i + 1, e);
    assert(is_digit(s[i]));
    assert(s.subrange(i, e) =~= w) by {
        assert forall|j: int| 0 <= j < w.len() implies s.subrange(i, e)[j] == w[j] by {
            assert(s[i + j] == w[j]);
        }
    }
    lemma_one_token(s, i, e, TokV::Number(w));
}

proof fn lemma_quoted_from(s: Seq<char>, i: int, w: Seq<char>, acc: Seq<char>)
    requires
        has(s, i, quote_escaped(w) + seq!['"']),
    ensures
        quoted_from(s, i, acc) == Some((acc + w, i + quote_escaped(w).len() + 1)),
    decreases w.len(),
{
    lemma_has_parts(s, i, quote_escaped(w), seq!['"']);
    if w.len() == 0 {
        assert(s[i + 0 + 0] == seq!['"'][0]);
        assert(acc + w =~= acc);
    } else {
        let first = if w[0] == '"' || w[0] == '\\' {
            seq!['\\', w[0]]
        } else {
            seq![w[0]]
        };
        let rest = quote_escaped(w.drop_first());
        assert(quote_escaped(w) + seq!['"'] =~= first + (rest + seq!['"']));
        lemma_has_parts(s, i, first, rest + seq!['"']);
        lemma_quoted_from(s, i + first.len(), w.drop_first(), acc.push(w[0]));
        assert(s[i + 0] == first[0]);
        if w[0] == '"' || w[0] == '\\' {
            assert(s[i + 1] == first[1]);
        }
        assert(acc.push(w[0]) + w.drop_first() =~= acc + w);
    }
}

/// A punctuation mark of one character.
proof fn lemma_mark_spans(s: Seq<char>, i: int, c: char)
    requires
        0 <= i < s.len(),
        s[i] == c,
        c == '(' || c == ')' || c == ',' || c == '.' || c == '+' || c == '-',
    ensures
        spans(s, i, i + 1, seq![mark_token(c, '\0')->Some_0.0]),
{
    lemma_one_token(s, i, i + 1, mark_token(c, '\0')->Some_0.0);
}

proof fn lemma_term_spans(s: Seq<char>, i: int, t: TermV)
    requires
        has(s, i, term_text(t)),
        is_head_term(t),
        breaks(s, i + term_text(t).len()),
    ensures
        spans(s, i, i + term_text(t).len(), term_marks(t)),
    decreases t,
{
    let e = i + term_text(t).len();
    match t {
        TermV::Var(v) => {
            lemma_word_spans(s, i, v);
            assert(!(v =~= seq!['_']));
            assert(word_token(v) == TokV::Name(v));
        },
        TermV::Wildcard => {
            lemma_word_spans(s, i, seq!['_']);
        },
        TermV::Sym(w) => {
            let body = quote_escaped(w) + seq!['"'];
            assert(term_text(t) =~= seq!['"'] + body);
            lemma_has_parts(s, i, seq!['"'], body);
            assert(s[i + 0] == seq!['"'][0]);
            lemma_quoted_from(s, i + 1, w, Seq::empty());
            assert(Seq::<char>::empty() + w =~= w);
            lemma_one_token(s, i, e, TokV::Quoted(w));
        },
        TermV::Int(n) => {
            if n < 0 {
                let d = nat_text((-n) as nat);
                lemma_has_parts(s, i, seq!['-'], d);
                assert(s[i + 0] == seq!['-'][0]);
                lemma_mark_spans(s, i, '-');
                lemma_number_spans(s, i + 1, (-n) as nat);
                lemma_spans_join(s, i, i + 1, e, seq![TokV::Minus], seq![TokV::Number(d)]);
                assert(seq![TokV::Minus] + seq![TokV::Number(d)] =~= term_marks(t));
            } else {
                lemma_number_spans(s, i, n as nat);
            }
        },
        TermV::Agg(f, x) => {
            let w = agg_name(f);
            let inner = term_text(*x);
            lemma_agg_name(f);
            lemma_has_parts(s, i, w + seq!['('] + inner, seq![')']);
            lemma_has_parts(s, i, w + seq!['('], inner);
            lemma_has_parts(s, i, w, seq!['(']);
            let a = i + w.len();
            let b = a + 1 + inner.len();
            assert(s[a + 0] == seq!['('][0]);
            assert((w + seq!['('] + inner).len() == w.len() + 1 + inner.len());
            assert(s[b + 0] == seq![')'][0]);
            lemma_word_spans(s, i, w);
            assert(w[0] != '_');
            assert(!(w =~= seq!['_']));
            lemma_mark_spans(s, a, '(');
            lemma_term_spans(s, a + 1, *x);
            lemma_mark_spans(s, b, ')');
            lemma_spans_join(s, i, a, a + 1, seq![TokV::Word(w)], seq![TokV::Open]);
            assert(seq![TokV::Word(w)] + seq![TokV::Open] =~= seq![TokV::Word(w), TokV::Open]);
            lemma_spans_join(s, i, a + 1, b, seq![TokV::Word(w), TokV::Open], term_marks(*x));
            lemma_spans_join(s, i, b, e, seq![TokV::Word(w), TokV::Open] + term_marks(*x), seq![TokV::Close]);
        },
    }
}

proof fn lemma_args_spans(s: Seq<char>, i: int, args: Seq<TermV>, k: int, gap: Seq<char>)
    requires
        0 <= k < args.len(),
        has(s, i, args_text(args, k, gap)),
        is_gap(gap),
        forall|j: int| 0 <= j < args.len() ==> is_head_term(#[trigger] args[j]),
    ensures
        spans(s, i, i + args_text(args, k, gap).len(), args_marks(args, k)),
    decreases args.len() - k,
{
    let first = term_text(args[k]);
    let m = i + first.len();
    if k + 1 < args.len() {
        let rest = args_text(args, k + 1, gap);
        let more = args_marks(args, k + 1);
        lemma_has_parts(s, i, first, seq![','] + gap + rest);
        lemma_has_parts(s, m, seq![','] + gap, rest);
        lemma_has_parts(s, m, seq![','], gap);
        assert(s[m + 0] == seq![','][0]);
        let n = m + 1 + gap.len();
        assert((seq![','] + gap).len() == 1 + gap.len());
        lemma_mark_spans(s, m, ',');
        lemma_gap_spans(s, m + 1, gap);
        lemma_args_spans(s, n, args, k + 1, gap);
        lemma_spans_join(s, m, m + 1, n, seq![TokV::Comma], Seq::empty());
        assert(seq![TokV::Comma] + Seq::<TokV>::empty() =~= seq![TokV::Comma]);
        lemma_spans_join(s, m, n, n + rest.len(), seq![TokV::Comma], more);
        lemma_term_spans(s, i, args[k]);
        lemma_spans_join(s, i, m, n + rest.len(), term_marks(args[k]), seq![TokV::Comma] + more);
    } else {
        lemma_has_parts(s, i, first, seq![')']);
        assert(s[m + 0] == seq![')'][0]);
        lemma_term_spans(s, i, args[k]);
        lemma_mark_spans(s, m, ')');
        lemma_spans_join(s, i, m, m + 1, term_marks(args[k]), seq![TokV::Close]);
    }
}

proof fn lemma_atom_spans(s: Seq<char>, i: int, a: AtomV, head: bool, gap: Seq<char>)
    requires
        has(s, i, atom_text(a, gap)),
        is_atom(a, head),
        is_gap(gap),
    ensures
        spans(s, i, i + atom_text(a, gap).len(), atom_marks(a)),
        i < s.len(),
        is_lower(s[i]),
{
    let rest = if a.args.len() == 0 {
        seq![')']
    } else {
        args_text(a.args, 0, gap)
    };
    lemma_has_parts(s, i, a.pred + seq!['('], rest);
    lemma_has_parts(s, i, a.pred, seq!['(']);
    let m = i + a.pred.len();
    let e = i + atom_text(a, gap).len();
    assert(s[i + 0] == a.pred[0]);
    assert(s[m + 0] == seq!['('][0]);
    lemma_word_spans(s, i, a.pred);
    assert(a.pred[0] != '_');
    assert(!(a.pred =~= seq!['_']));
    lemma_mark_spans(s, m, '(');
    lemma_spans_join(s, i, m, m + 1, seq![TokV::Word(a.pred)], seq![TokV::Open]);
    assert(seq![TokV::Word(a.pred)] + seq![TokV::Open] =~= seq![TokV::Word(a.pred), TokV::Open]);
    assert((a.pred + seq!['(']).len() == a.pred.len() + 1);
    if a.args.len() == 0 {
        assert(s[m + 1 + 0] == seq![')'][0]);
        lemma_mark_spans(s, m + 1, ')');
        lemma_spans_join(s, i, m + 1, e, seq![TokV::Word(a.pred), TokV::Open], seq![TokV::Close]);
    } else {
        assert forall|j: int| 0 <= j < a.args.len() implies is_head_term(#[trigger] a.args[j]) by {
            assert(may_stand(a.args[j], head));
        }
        lemma_args_spans(s, m + 1, a.args, 0, gap);
        lemma_spans_join(s, i, m + 1, e, seq![TokV::Word(a.pred), TokV::Open], args_marks(a.args, 0));
    }
}

/// A sign between blanks.
proof fn lemma_sign_spans(s: Seq<char>, i: int, c: char)
    requires
        has(s, i, seq![' ', c, ' ']),
        c == '+' || c == '-',
    ensures
        spans(s, i, i + 3, seq![mark_token(c, '\0')->Some_0.0]),
        !is_word_char(s[i]),
{
    let w = seq![' ', c, ' '];
    assert(s[i + 0] == w[0]);
    assert(s[i + 1] == w[1]);
    assert(s[i + 2] == w[2]);
    assert(has(s, i, seq![' ']));
    assert(has(s, i + 2, seq![' ']));
    lemma_gap_spans(s, i, seq![' ']);
    lemma_mark_spans(s, i + 1, c);
    lemma_gap_spans(s, i + 2, seq![' ']);
    let k = seq![mark_token(c, '\0')->Some_0.0];
    lemma_spans_join(s, i, i + 1, i + 2, Seq::empty(), k);
    assert(Seq::<TokV>::empty() + k =~= k);
    lemma_spans_join(s, i, i + 2, i + 3, k, Seq::empty());
    assert(k + Seq::<TokV>::empty() =~= k);
}

proof fn lemma_expr_spans(s: Seq<char>, i: int, e: ExprV)
    requires
        has(s, i, expr_text(e)),
        is_sum(e),
        breaks(s, i + expr_text(e).len()),
    ensures
        spans(s, i, i + expr_text(e).len(), expr_marks(e)),
    decreases e, 0nat,
{
    match e {
        ExprV::T(t) => {
            lemma_term_spans(s, i, t);
        },
        ExprV::Add(a, b) => {
            lemma_sum_spans(s, i, *a, '+', *b);
        },
        ExprV::Sub(a, b) => {
            lemma_sum_spans(s, i, *a, '-', *b);
        },
    }
}

proof fn lemma_sum_spans(s: Seq<char>, i: int, a: ExprV, c: char, b: ExprV)
    requires
        has(s, i, expr_text(a) + seq![' ', c, ' '] + expr_text(b)),
        c == '+' || c == '-',
        is_sum(a),
        b is T,
        is_simple_term(b->T_0),
        breaks(s, i + (expr_text(a) + seq![' ', c, ' '] + expr_text(b)).len()),
    ensures
        spans(
            s,
            i,
            i + (expr_text(a) + seq![' ', c, ' '] + expr_text(b)).len(),
            expr_marks(a) + seq![mark_token(c, '\0')->Some_0.0] + expr_marks(b),
        ),
    decreases a, 1nat,
{
    let left = expr_text(a);
    let sign = seq![' ', c, ' '];
    let k = seq![mark_token(c, '\0')->Some_0.0];
    lemma_has_parts(s, i, left + sign, expr_text(b));
    lemma_has_parts(s, i, left, sign);
    let m = i + left.len();
    lemma_sign_spans(s, m, c);
    lemma_expr_spans(s, i, a);
    assert((left + sign).len() == left.len() + 3);
    lemma_term_spans(s, m + 3, b->T_0);
    lemma_spans_join(s, i, m, m + 3, expr_marks(a), k);
    lemma_spans_join(s, i, m + 3, m + 3 + expr_text(b).len(), expr_marks(a) + k, expr_marks(b));
}

proof fn lemma_op_spans(s: Seq<char>, i: int, op: CmpOp)
    requires
        has(s, i, op_text(op)),
        i + op_text(op).len() < s.len(),
        s[i + op_text(op).len()] == ' ',
    ensures
        spans(s, i, i + op_text(op).len(), seq![op_mark(op)]),
{
    let w = op_text(op);
    assert(s[i + 0] == w[0]);
    if w.len() == 2 {
        assert(s[i + 1] == w[1]);
    }
    lemma_one_token(s, i, i + w.len(), op_mark(op));
}

proof fn lemma_compared_spans(s: Seq<char>, i: int, op: CmpOp, a: TermV, b: ExprV)
    requires
        has(s, i, term_text(a) + seq![' '] + op_text(op) + seq![' '] + expr_text(b)),
        is_simple_term(a),
        is_sum(b),
        breaks(s, i + (term_text(a) + seq![' '] + op_text(op) + seq![' '] + expr_text(b)).len()),
    ensures
        spans(
            s,
            i,
            i + (term_text(a) + seq![' '] + op_text(op) + seq![' '] + expr_text(b)).len(),
            term_marks(a) + seq![op_mark(op)] + expr_marks(b),
        ),
{
    let sp = seq![' '];
    let ta = term_text(a);
    let to = op_text(op);
    lemma_has_parts(s, i, ta + sp + to + sp, expr_text(b));
    lemma_has_parts(s, i, ta + sp + to, sp);
    lemma_has_parts(s, i, ta + sp, to);
    lemma_has_parts(s, i, ta, sp);
    let m = i + ta.len();
    let n = m + 1 + to.len();
    let e = n + 1 + expr_text(b).len();
    assert((ta + sp).len() == ta.len() + 1);
    assert((ta + sp + to).len() == ta.len() + 1 + to.len());
    assert((ta + sp + to + sp).len() == ta.len() + 2 + to.len());
    assert(s[m + 0] == sp[0]);
    assert(s[n + 0] == sp[0]);
    lemma_term_spans(s, i, a);
    lemma_gap_spans(s, m, sp);
    lemma_op_spans(s, m + 1, op);
    lemma_gap_spans(s, n, sp);
    lemma_expr_spans(s, n + 1, b);
    let none = Seq::<TokV>::empty();
    let k = seq![op_mark(op)];
    lemma_spans_join(s, i, m, m + 1, term_marks(a), none);
    assert(term_marks(a) + none =~= term_marks(a));
    lemma_spans_join(s, i, m + 1, n, term_marks(a), k);
    lemma_spans_join(s, i, n, n + 1, term_marks(a) + k, none);
    assert(term_marks(a) + k + none =~= term_marks(a) + k);
    lemma_spans_join(s, i, n + 1, e, term_marks(a) + k, expr_marks(b));
}

proof fn lemma_now_spans(s: Seq<char>, i: int, t: TermV)
    requires
        has(s, i, "now"@ + seq!['('] + term_text(t) + seq![')']),
        is_simple_term(t),
    ensures
        spans(
            s,
            i,
            i + ("now"@ + seq!['('] + term_text(t) + seq![')']).len(),
            seq![TokV::Word("now"@), TokV::Open] + term_marks(t) + seq![TokV::Close],
        ),
{
    reveal_strlit("now");
    let w = "now"@;
    let inner = term_text(t);
    lemma_has_parts(s, i, w + seq!['('] + inner, seq![')']);
    lemma_has_parts(s, i, w + seq!['('], inner);
    lemma_has_parts(s, i, w, seq!['(']);
    let a = i + 3;
    let b = a + 1 + inner.len();
    assert(s[a + 0] == seq!['('][0]);
    assert((w + seq!['('] + inner).len() == 4 + inner.len());
    assert(s[b + 0] == seq![')'][0]);
    assert(all_word_chars(w));
    lemma_word_spans(s, i, w);
    assert(w[0] == 'n');
    assert(!(w =~= seq!['_']));
    assert(word_token(w) == TokV::Word(w));
    lemma_mark_spans(s, a, '(');
    lemma_term_spans(s, a + 1, t);
    lemma_mark_spans(s, b, ')');
    lemma_spans_join(s, i, a, a + 1, seq![TokV::Word(w)], seq![TokV::Open]);
    assert(seq![TokV::Word(w)] + seq![TokV::Open] =~= seq![TokV::Word(w), TokV::Open]);
    lemma_spans_join(s, i, a + 1, b, seq![TokV::Word(w), TokV::Open], term_marks(t));
    lemma_spans_join(s, i, b, b + 1, seq![TokV::Word(w), TokV::Open] + term_marks(t), seq![TokV::Close]);
}

proof fn lemma_lit_spans(s: Seq<char>, i: int, l: LitV, gap: Seq<char>)
    requires
        has(s, i, lit_text(l, gap)),
        is_literal(l),
        is_gap(gap),
        breaks(s, i + lit_text(l, gap).len()),
    ensures
        spans(s, i, i + lit_text(l, gap).len(), lit_marks(l)),
{
    match l {
        LitV::Pos(a) => {
            lemma_atom_spans(s, i, a, false, gap);
        },
        LitV::Neg(a) => {
            lemma_has_parts(s, i, seq!['!'], atom_text(a, gap));
            assert(s[i + 0] == seq!['!'][0]);
            lemma_atom_spans(s, i + 1, a, false, gap);
            lemma_one_token(s, i, i + 1, TokV::Bang);
            lemma_spans_join(s, i, i + 1, i + 1 + atom_text(a, gap).len(), seq![TokV::Bang], atom_marks(a));
        },
        LitV::Cmp(op, a, b) => {
            lemma_compared_spans(s, i, op, a, b);
        },
        LitV::Now(t) => {
            lemma_now_spans(s, i, t);
        },
    }
}

proof fn lemma_body_spans(s: Seq<char>, i: int, body: Seq<LitV>, k: int, gap: Seq<char>)
    requires
        0 <= k < body.len(),
        has(s, i, body_text(body, k, gap)),
        is_gap(gap),
        forall|j: int| 0 <= j < body.len() ==> is_literal(#[trigger] body[j]),
    ensures
        spans(s, i, i + body_text(body, k, gap).len(), body_marks(body, k)),
    decreases body.len() - k,
{
    let first = lit_text(body[k], gap);
    let m = i + first.len();
    if k + 1 < body.len() {
        let rest = body_text(body, k + 1, gap);
        let more = body_marks(body, k + 1);
        let sep = seq![',', ' '];
        lemma_has_parts(s, i, first, sep + rest);
        lemma_has_parts(s, m, sep, rest);
        assert(s[m + 0] == sep[0]);
        assert(s[m + 1] == sep[1]);
        lemma_mark_spans(s, m, ',');
        assert(has(s, m + 1, seq![' ']));
        lemma_gap_spans(s, m + 1, seq![' ']);
        lemma_body_spans(s, m + 2, body, k + 1, gap);
        lemma_spans_join(s, m, m + 1, m + 2, seq![TokV::Comma], Seq::empty());
        assert(seq![TokV::Comma] + Seq::<TokV>::empty() =~= seq![TokV::Comma]);
        lemma_spans_join(s, m, m + 2, m + 2 + rest.len(), seq![TokV::Comma], more);
        lemma_lit_spans(s, i, body[k], gap);
        lemma_spans_join(s, i, m, m + 2 + rest.len(), lit_marks(body[k]), seq![TokV::Comma] + more);
    } else {
        lemma_has_parts(s, i, first, seq!['.']);
        assert(s[m + 0] == seq!['.'][0]);
        lemma_lit_spans(s, i, body[k], gap);
        lemma_mark_spans(s, m, '.');
        lemma_spans_join(s, i, m, m + 1, lit_marks(body[k]), seq![TokV::Dot]);
    }
}

/// A clause as it stands in a text.
pub proof fn lemma_clause_spans(s: Seq<char>, i: int, c: ClauseV, gap: Seq<char>)
    requires
        has(s, i, clause_text(c, gap)),
        is_clause(c),
        is_gap(gap),
    ensures
        spans(s, i, i + clause_text(c, gap).len(), clause_marks(c)),
{
    let h = atom_text(c.head, gap);
    let m = i + h.len();
    if c.is_fact {
        lemma_has_parts(s, i, h, seq!['.']);
        assert(s[m + 0] == seq!['.'][0]);
        lemma_atom_spans(s, i, c.head, true, gap);
        lemma_mark_spans(s, m, '.');
        lemma_spans_join(s, i, m, m + 1, atom_marks(c.head), seq![TokV::Dot]);
    } else {
        let sep = seq![' ', ':', '-', ' '];
        let rest = body_text(c.body, 0, gap);
        let more = body_marks(c.body, 0);
        let none = Seq::<TokV>::empty();
        lemma_has_parts(s, i, h, sep + rest);
        lemma_has_parts(s, m, sep, rest);
        assert(s[m + 0] == sep[0]);
        assert(s[m + 1] == sep[1]);
        assert(s[m + 2] == sep[2]);
        assert(s[m + 3] == sep[3]);
        assert(has(s, m, seq![' ']));
        assert(has(s, m + 3, seq![' ']));
        lemma_atom_spans(s, i, c.head, true, gap);
        lemma_gap_spans(s, m, seq![' ']);
        lemma_one_token(s, m + 1, m + 3, TokV::If);
        lemma_gap_spans(s, m + 3, seq![' ']);
        lemma_body_spans(s, m + 4, c.body, 0, gap);
        lemma_spans_join(s, m, m + 1, m + 3, none, seq![TokV::If]);
        assert(none + seq![TokV::If] =~= seq![TokV::If]);
        lemma_spans_join(s, m, m + 3, m + 4, seq![TokV::If], none);
        assert(seq![TokV::If] + none =~= seq![TokV::If]);
        lemma_spans_join(s, m, m + 4, m + 4 + rest.len(), seq![TokV::If], more);
        lemma_spans_join(s, i, m, m + 4 + rest.len(), atom_marks(c.head), seq![TokV::If] + more);
    }
}

proof fn lemma_clauses_span(s: Seq<char>, i: int, cs: Seq<ClauseV>, k: int)
    requires
        0 <= k <= cs.len(),
        has(s, i, clauses_text(cs, k)),
        forall|j: int| 0 <= j < cs.len() ==> is_clause(#[trigger] cs[j]),
    ensures
        spans(s, i, i + clauses_text(cs, k).len(), program_marks(cs, k)),
    decreases cs.len() - k,
{
    if k < cs.len() {
        let gap = seq![' '];
        let first = clause_text(cs[k], gap);
        let rest = clauses_text(cs, k + 1);
        let none = Seq::<TokV>::empty();
        lemma_has_parts(s, i, first + seq!['\n'], rest);
        lemma_has_parts(s, i, first, seq!['\n']);
        let m = i + first.len();
        assert((first + seq!['\n']).len() == first.len() + 1);
        lemma_clause_spans(s, i, cs[k], gap);
        lemma_gap_spans(s, m, seq!['\n']);
        lemma_clauses_span(s, m + 1, cs, k + 1);
        lemma_spans_join(s, i, m, m + 1, clause_marks(cs[k]), none);
        assert(clause_marks(cs[k]) + none =~= clause_marks(cs[k]));
        lemma_spans_join(s, i, m + 1, m + 1 + rest.len(), clause_marks(cs[k]), program_marks(cs, k + 1));
    } else {
        assert forall|acc: Seq<TokV>| #[trigger] tokens_from(s, i, acc) == tokens_from(s, i, acc + Seq::empty()) by {
            assert(acc + Seq::<TokV>::empty() =~= acc);
        }
    }
}

/// A text that spans the tokens of clauses is read as these clauses.
pub proof fn lemma_spanned(s: Seq<char>, cs: Seq<ClauseV>)
    requires
        spans(s, 0, s.len() as int, program_marks(cs, 0)),
        forall|j: int| 0 <= j < cs.len() ==> is_clause(#[trigger] cs[j]),
    ensures
        parsed(s) == Ok::<Seq<ClauseV>, Seq<char>>(cs),
{
    let ms = program_marks(cs, 0);
    let none = Seq::<TokV>::empty();
    assert(tokens_from(s, 0, none) == tokens_from(s, s.len() as int, none + ms));
    assert(none + ms =~= ms);
    lemma_program_read(ms, 0, cs, 0);
    assert(cs.take(0) =~= Seq::empty());
}

/// Law: a program that is written down reads back as it was.
pub proof fn program_reads_back(cs: Seq<ClauseV>)
    requires
        forall|i: int| 0 <= i < cs.len() ==> is_clause(#[trigger] cs[i]),
    ensures
        parsed(program_text(cs)) == Ok::<Seq<ClauseV>, Seq<char>>(cs),
{
    let s = program_text(cs);
    lemma_clauses_span(s, 0, cs, 0);
    lemma_spanned(s, cs);
}

} // verus!

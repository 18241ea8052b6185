//! Programs: terms, literals and clauses.

use vstd::prelude::*;

verus! {

/// Aggregate functions.
#[derive(Debug, Clone, Copy, PartialEq, Eq, Structural)]
pub enum AggFn {
    Count,
    Min,
    Max,
    Sum,
}

/// A term. Aggregates occur in rule heads only.
#[derive(Debug)]
pub enum Term {
    Var(String),
    Int(i64),
    Sym(String),
    Wildcard,
    Agg(AggFn, Box<Term>),
}

/// The value of a [`Term`].
pub enum TermV {
    Var(Seq<char>),
    Int(i64),
    Sym(Seq<char>),
    Wildcard,
    Agg(AggFn, Box<TermV>),
}

pub open spec fn term_view(t: Term) -> TermV
    decreases t,
{
    match t {
        Term::Var(v) => TermV::Var(v@),
        Term::Int(i) => TermV::Int(i),
        Term::Sym(s) => TermV::Sym(s@),
        Term::Wildcard => TermV::Wildcard,
        Term::Agg(f, inner) => TermV::Agg(f, Box::new(term_view(*inner))),
    }
}

impl View for Term {
    type V = TermV;

    open spec fn view(&self) -> TermV {
        term_view(*self)
    }
}

/// The values of a sequence of terms.
pub open spec fn terms_view(s: Seq<Term>) -> Seq<TermV> {
    s.map_values(|t: Term| t@)
}

impl Term {
    /// A copy.
    pub fn duplicate(&self) -> (r: Term)
        ensures
            r@ == self@,
        decreases self,
    {
        match self {
            Term::Var(v) => Term::Var(v.clone()),
            Term::Int(i) => Term::Int(*i),
            Term::Sym(s) => Term::Sym(s.clone()),
            Term::Wildcard => Term::Wildcard,
            Term::Agg(f, inner) => Term::Agg(*f, Box::new(inner.duplicate())),
        }
    }
}

/// Comparison operators.
#[derive(Debug, Clone, Copy, PartialEq, Eq, Structural)]
pub enum CmpOp {
    Lt,
    Le,
    Gt,
    Ge,
    Eq,
    Ne,
}

/// An additive integer expression.
#[derive(Debug)]
pub enum Expr {
    T(Term),
    Add(Box<Expr>, Box<Expr>),
    Sub(Box<Expr>, Box<Expr>),
}

/// The value of an [`Expr`].
pub enum ExprV {
    T(TermV),
    Add(Box<ExprV>, Box<ExprV>),
    Sub(Box<ExprV>, Box<ExprV>),
}

pub open spec fn expr_view(e: Expr) -> ExprV
    decreases e,
{
    match e {
        Expr::T(t) => ExprV::T(t@),
        Expr::Add(a, b) => ExprV::Add(Box::new(expr_view(*a)), Box::new(expr_view(*b))),
        Expr::Sub(a, b) => ExprV::Sub(Box::new(expr_view(*a)), Box::new(expr_view(*b))),
    }
}

impl View for Expr {
    type V = ExprV;

    open spec fn view(&self) -> ExprV {
        expr_view(*self)
    }
}

impl Expr {
    /// A copy.
    pub fn duplicate(&self) -> (r: Expr)
        ensures
            r@ == self@,
        decreases self,
    {
        match self {
            Expr::T(t) => Expr::T(t.duplicate()),
            Expr::Add(a, b) => Expr::Add(Box::new(a.duplicate()), Box::new(b.duplicate())),
            Expr::Sub(a, b) => Expr::Sub(Box::new(a.duplicate()), Box::new(b.duplicate())),
        }
    }
}

/// A predicate applied to terms.
#[derive(Debug)]
pub struct Atom {
    pub pred: String,
    pub args: Vec<Term>,
}

/// The value of an [`Atom`].
#[verifier::ext_equal]
pub struct AtomV {
    pub pred: Seq<char>,
    pub args: Seq<TermV>,
}

impl View for Atom {
    type V = AtomV;

    open spec fn view(&self) -> AtomV {
        AtomV { pred: self.pred@, args: terms_view(self.args@) }
    }
}

impl Atom {
    /// A copy.
    pub fn duplicate(&self) -> (r: Atom)
        ensures
            r@ == self@,
    {
        let mut args: Vec<Term> = Vec::new();
        let mut i: usize = 0;
        while i < self.args.len()
            invariant
                i <= self.args@.len(),
                args@.len() == i,
                forall|j: int| 0 <= j < i ==> (#[trigger] args@[j])@ == self.args@[j]@,
            decreases self.args@.len() - i,
        {
            args.push(self.args[i].duplicate());
            i += 1;
        }
        assert(terms_view(args@) =~= terms_view(self.args@));
        Atom { pred: self.pred.clone(), args }
    }
}

/// A body literal.
#[derive(Debug)]
pub enum Lit {
    Pos(Atom),
    Neg(Atom),
    Cmp(CmpOp, Term, Expr),
    Now(Term),
}

/// The value of a [`Lit`].
pub enum LitV {
    Pos(AtomV),
    Neg(AtomV),
    Cmp(CmpOp, TermV, ExprV),
    Now(TermV),
}

impl View for Lit {
    type V = LitV;

    open spec fn view(&self) -> LitV {
        match *self {
            Lit::Pos(a) => LitV::Pos(a@),
            Lit::Neg(a) => LitV::Neg(a@),
            Lit::Cmp(op, t, e) => LitV::Cmp(op, t@, e@),
            Lit::Now(t) => LitV::Now(t@),
        }
    }
}

impl Lit {
    /// A copy.
    pub fn duplicate(&self) -> (r: Lit)
        ensures
            r@ == self@,
    {
        match self {
            Lit::Pos(a) => Lit::Pos(a.duplicate()),
            Lit::Neg(a) => Lit::Neg(a.duplicate()),
            Lit::Cmp(op, t, e) => Lit::Cmp(*op, t.duplicate(), e.duplicate()),
            Lit::Now(t) => Lit::Now(t.duplicate()),
        }
    }
}

/// A rule, or a fact when `is_fact` is set.
#[derive(Debug)]
pub struct Clause {
    pub name: Option<String>,
    pub head: Atom,
    pub body: Vec<Lit>,
    pub is_fact: bool,
}

/// The value of a [`Clause`].
#[verifier::ext_equal]
pub struct ClauseV {
    pub name: Option<Seq<char>>,
    pub head: AtomV,
    pub body: Seq<LitV>,
    pub is_fact: bool,
}

pub open spec fn opt_text(s: Option<String>) -> Option<Seq<char>> {
    match s {
        Some(t) => Some(t@),
        None => None,
    }
}

/// The values of a sequence of literals.
pub open spec fn lits_view(s: Seq<Lit>) -> Seq<LitV> {
    s.map_values(|l: Lit| l@)
}

impl View for Clause {
    type V = ClauseV;

    open spec fn view(&self) -> ClauseV {
        ClauseV {
            name: opt_text(self.name),
            head: self.head@,
            body: lits_view(self.body@),
            is_fact: self.is_fact,
        }
    }
}

/// The values of a sequence of clauses.
pub open spec fn clauses_view(s: Seq<Clause>) -> Seq<ClauseV> {
    s.map_values(|c: Clause| c@)
}

/// A copy of a sequence of literals.
pub fn copy_lits(body: &Vec<Lit>) -> (r: Vec<Lit>)
    ensures
        lits_view(r@) == lits_view(body@),
{
    let mut r: Vec<Lit> = Vec::new();
    let mut i: usize = 0;
    while i < body.len()
        invariant
            i <= body@.len(),
            r@.len() == i,
            forall|j: int| 0 <= j < i ==> (#[trigger] r@[j])@ == body@[j]@,
        decreases body@.len() - i,
    {
        r.push(body[i].duplicate());
        i += 1;
    }
    assert(lits_view(r@) =~= lits_view(body@));
    r
}

impl Clause {
    /// A copy.
    pub fn duplicate(&self) -> (r: Clause)
        ensures
            r@ == self@,
    {
        let name = match &self.name {
            Some(n) => Some(n.clone()),
            None => None,
        };
        Clause {
            name,
            head: self.head.duplicate(),
            body: copy_lits(&self.body),
            is_fact: self.is_fact,
        }
    }
}

} // verus!

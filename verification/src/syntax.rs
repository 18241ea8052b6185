//! Comparison literals from tokens.

use vstd::prelude::*;
use crate::ast::{CmpOp, Expr, ExprV, Lit, LitV, Term, TermV};
use crate::lexer::{Tok, TokV};

verus! {

/// The comparison that a token stands for.
pub open spec fn comparison(op: TokV, a: TermV, b: ExprV) -> Option<LitV> {
    match op {
        TokV::Less => Some(LitV::Cmp(CmpOp::Lt, a, b)),
        TokV::AtMost => Some(LitV::Cmp(CmpOp::Le, a, b)),
        TokV::More => Some(LitV::Cmp(CmpOp::Gt, a, b)),
        TokV::AtLeast => Some(LitV::Cmp(CmpOp::Ge, a, b)),
        TokV::Same => Some(LitV::Cmp(CmpOp::Eq, a, b)),
        TokV::Different => Some(LitV::Cmp(CmpOp::Ne, a, b)),
        _ => None,
    }
}

/// The comparison that a token stands for.
pub fn make_comparison(op: &Tok, a: Term, b: Expr) -> (r: Option<Lit>)
    ensures
        match r {
            Some(l) => comparison(op@, a@, b@) == Some(l@),
            None => comparison(op@, a@, b@) is None,
        },
{
    match op {
        Tok::Less => Some(Lit::Cmp(CmpOp::Lt, a, b)),
        Tok::AtMost => Some(Lit::Cmp(CmpOp::Le, a, b)),
        Tok::More => Some(Lit::Cmp(CmpOp::Gt, a, b)),
        Tok::AtLeast => Some(Lit::Cmp(CmpOp::Ge, a, b)),
        Tok::Same => Some(Lit::Cmp(CmpOp::Eq, a, b)),
        Tok::Different => Some(Lit::Cmp(CmpOp::Ne, a, b)),
        _ => None,
    }
}

} // verus!

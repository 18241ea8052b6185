//! Exact predicates: the facts of a group of predicates are exact where they
//! are the least that its rules derive from the facts of the others. Where the
//! derived predicates together are exact, the facts are the model of the
//! program.

use vstd::prelude::*;
use crate::ast::{AtomV, ClauseV, LitV, TermV};
use crate::env::Bindings;
use crate::model::{
    body_true, constants_known, has_instance, head_fact, is_instance, leads_into, lemma_symbol, lit_constants_known, lit_true, term_is,
};
use crate::perfect::{is_model, program_closed};
use crate::recompute::{body_reads, lit_reads};
use crate::relation::KeyV;
use crate::restore::known_key;
use crate::runs::{lemma_expr_before, lemma_head_later, lemma_head_possible, lemma_instance_before, set_known};
use crate::scope::lemma_body_grows;
use crate::stratify::defined;
use crate::value::Value;

verus! {

/// The facts of a predicate in one set are in another.
pub open spec fn covers(a: Set<KeyV>, b: Set<KeyV>, q: Seq<char>) -> bool {
    forall|key: Seq<Value>| #[trigger] a.contains((q, key)) ==> b.contains((q, key))
}

/// Two sets have the same facts of a predicate.
pub open spec fn alike(a: Set<KeyV>, b: Set<KeyV>, q: Seq<char>) -> bool {
    covers(a, b, q) && covers(b, a, q)
}

/// The facts of each atom of a rule in one set are in another.
pub open spec fn atoms_covered(c: ClauseV, a: Set<KeyV>, b: Set<KeyV>) -> bool {
    forall|j: int| 0 <= j < c.body.len() ==> (match #[trigger] c.body[j] {
        LitV::Pos(x) => covers(a, b, x.pred),
        _ => true,
    })
}

/// The facts of each negated atom of a rule in one set are in another.
pub open spec fn negated_covered(c: ClauseV, a: Set<KeyV>, b: Set<KeyV>) -> bool {
    forall|j: int| 0 <= j < c.body.len() ==> (match #[trigger] c.body[j] {
        LitV::Neg(x) => covers(a, b, x.pred),
        _ => true,
    })
}

/// A body stays true with more facts for its atoms and fewer for its negated
/// ones.
pub proof fn lemma_body_moves(
    b: Seq<Seq<char>>,
    now: i64,
    c: ClauseV,
    m1: Set<KeyV>,
    n1: Set<KeyV>,
    m2: Set<KeyV>,
    n2: Set<KeyV>,
    x: Bindings,
)
    requires
        body_true(b, now, c, m1, n1, x),
        atoms_covered(c, m1, m2),
        negated_covered(c, n2, n1),
    ensures
        body_true(b, now, c, m2, n2, x),
{
    assert forall|j: int| 0 <= j < c.body.len() implies lit_true(b, now, #[trigger] c.body[j], m2, n2, x) by {
        assert(lit_true(b, now, c.body[j], m1, n1, x));
        match c.body[j] {
            LitV::Pos(a) => {
                let key = choose|key: Seq<Value>| m1.contains((a.pred, key)) && #[trigger] is_instance(b, a.args, key, x);
                assert(covers(m1, m2, a.pred));
                assert(m2.contains((a.pred, key)));
            },
            LitV::Neg(a) => {
                if has_instance(b, a, n2, x) {
                    let key = choose|key: Seq<Value>| n2.contains((a.pred, key)) && #[trigger] is_instance(b, a.args, key, x);
                    assert(covers(n2, n1, a.pred));
                    assert(n1.contains((a.pred, key)));
                }
            },
            _ => {},
        }
    }
}

/// A set is closed under the rules of some predicates.
pub open spec fn closed_for(
    b: Seq<Seq<char>>,
    now: i64,
    cs: Seq<ClauseV>,
    ps: Set<Seq<char>>,
    m: Set<KeyV>,
    n: Set<KeyV>,
) -> bool {
    forall|i: int|
        0 <= i < cs.len() && !(#[trigger] cs[i]).is_fact && ps.contains(cs[i].head.pred) ==> leads_into(b, now, cs[i], m, n, m)
}

/// The facts of the other predicates.
pub open spec fn outside(all: Set<KeyV>, ps: Set<Seq<char>>) -> Set<KeyV> {
    Set::new(|k: KeyV| all.contains(k) && !ps.contains(k.0))
}

/// The facts of some predicates are the least that their rules derive from the
/// other facts.
pub open spec fn is_exact(b: Seq<Seq<char>>, now: i64, cs: Seq<ClauseV>, ps: Set<Seq<char>>, all: Set<KeyV>) -> bool {
    &&& closed_for(b, now, cs, ps, all, all)
    &&& forall|m: Set<KeyV>| #[trigger]
        closed_for(b, now, cs, ps, m, all) && outside(all, ps).subset_of(m) ==> all.subset_of(m)
}

/// The facts of some predicates from one set, all others from another.
pub open spec fn patched(all: Set<KeyV>, ps: Set<Seq<char>>, m: Set<KeyV>) -> Set<KeyV> {
    Set::new(
        |k: KeyV|
            if ps.contains(k.0) {
                m.contains(k)
            } else {
                all.contains(k)
            },
    )
}

/// A rule of one of the predicates reads a predicate.
pub open spec fn group_reads(cs: Seq<ClauseV>, ps: Set<Seq<char>>, i: int, q: Seq<char>) -> bool {
    0 <= i < cs.len() && !cs[i].is_fact && ps.contains(cs[i].head.pred) && body_reads(cs[i], q)
}

/// Two sets have the same facts of some predicates and of what their rules
/// read.
pub open spec fn same_inputs(cs: Seq<ClauseV>, ps: Set<Seq<char>>, a: Set<KeyV>, b: Set<KeyV>) -> bool {
    &&& forall|p: Seq<char>| #[trigger] ps.contains(p) ==> alike(a, b, p)
    &&& forall|i: int, q: Seq<char>| #[trigger] group_reads(cs, ps, i, q) ==> alike(a, b, q)
}

pub proof fn lemma_inputs_covered(cs: Seq<ClauseV>, ps: Set<Seq<char>>, a: Set<KeyV>, b: Set<KeyV>, i: int)
    requires
        same_inputs(cs, ps, a, b),
        0 <= i < cs.len(),
        !cs[i].is_fact,
        ps.contains(cs[i].head.pred),
    ensures
        atoms_covered(cs[i], a, b),
        atoms_covered(cs[i], b, a),
        negated_covered(cs[i], a, b),
        negated_covered(cs[i], b, a),
{
    let c = cs[i];
    assert forall|j: int| 0 <= j < c.body.len() implies (match #[trigger] c.body[j] {
        LitV::Pos(x) => covers(a, b, x.pred) && covers(b, a, x.pred),
        LitV::Neg(x) => covers(a, b, x.pred) && covers(b, a, x.pred),
        _ => true,
    }) by {
        match c.body[j] {
            LitV::Pos(x) => {
                assert(lit_reads(c.body[j], x.pred));
                assert(body_reads(c, x.pred));
                assert(group_reads(cs, ps, i, x.pred));
                assert(alike(a, b, x.pred));
            },
            LitV::Neg(x) => {
                assert(lit_reads(c.body[j], x.pred));
                assert(body_reads(c, x.pred));
                assert(group_reads(cs, ps, i, x.pred));
                assert(alike(a, b, x.pred));
            },
            _ => {},
        }
    }
}

/// Whether predicates are exact rests on their own facts and on those that
/// their rules read.
pub proof fn lemma_exact_moves(b: Seq<Seq<char>>, now: i64, cs: Seq<ClauseV>, ps: Set<Seq<char>>, a1: Set<KeyV>, a2: Set<KeyV>)
    requires
        is_exact(b, now, cs, ps, a1),
        same_inputs(cs, ps, a1, a2),
    ensures
        is_exact(b, now, cs, ps, a2),
{
    assert forall|i: int| 0 <= i < cs.len() && !(#[trigger] cs[i]).is_fact && ps.contains(cs[i].head.pred) implies leads_into(
        b,
        now,
        cs[i],
        a2,
        a2,
        a2,
    ) by {
        let c = cs[i];
        lemma_inputs_covered(cs, ps, a1, a2, i);
        assert(leads_into(b, now, c, a1, a1, a1));
        assert(alike(a1, a2, c.head.pred));
        assert forall|x: Bindings| #[trigger] body_true(b, now, c, a2, a2, x) && head_fact(b, c, x) is Some implies a2.contains(
            head_fact(b, c, x)->Some_0,
        ) by {
            lemma_body_moves(b, now, c, a2, a2, a1, a1, x);
            let k = head_fact(b, c, x)->Some_0;
            assert(a1.contains((c.head.pred, k.1)));
            assert(a2.contains((c.head.pred, k.1)));
        }
    }
    assert forall|m: Set<KeyV>| #[trigger] closed_for(b, now, cs, ps, m, a2) && outside(a2, ps).subset_of(m) implies a2.subset_of(m) by {
        let m1 = patched(a1, ps, m);
        assert(closed_for(b, now, cs, ps, m1, a1)) by {
            assert forall|i: int| 0 <= i < cs.len() && !(#[trigger] cs[i]).is_fact && ps.contains(cs[i].head.pred) implies leads_into(
                b,
                now,
                cs[i],
                m1,
                a1,
                m1,
            ) by {
                let c = cs[i];
                lemma_inputs_covered(cs, ps, a1, a2, i);
                assert(leads_into(b, now, c, m, a2, m));
                assert(atoms_covered(c, m1, m)) by {
                    assert forall|j: int| 0 <= j < c.body.len() implies (match #[trigger] c.body[j] {
                        LitV::Pos(x) => covers(m1, m, x.pred),
                        _ => true,
                    }) by {
                        if let LitV::Pos(x) = c.body[j] {
                            assert(covers(a1, a2, x.pred));
                            assert forall|key: Seq<Value>| #[trigger] m1.contains((x.pred, key)) implies m.contains((x.pred, key)) by {
                                if !ps.contains(x.pred) {
                                    assert(a1.contains((x.pred, key)));
                                    assert(outside(a2, ps).contains((x.pred, key)));
                                }
                            }
                        }
                    }
                }
                assert forall|x: Bindings| #[trigger] body_true(b, now, c, m1, a1, x) && head_fact(b, c, x) is Some implies m1.contains(
                    head_fact(b, c, x)->Some_0,
                ) by {
                    lemma_body_moves(b, now, c, m1, a1, m, a2, x);
                }
            }
        }
        assert(outside(a1, ps).subset_of(m1));
        assert(a1.subset_of(m1));
        assert forall|k: KeyV| #[trigger] a2.contains(k) implies m.contains(k) by {
            if ps.contains(k.0) {
                assert(alike(a1, a2, k.0));
                assert(a2.contains((k.0, k.1)));
                assert(a1.contains((k.0, k.1)));
                assert(m1.contains(k));
            } else {
                assert(outside(a2, ps).contains(k));
            }
        }
    }
}

/// Where predicates are exact, so are some of them.
pub proof fn lemma_exact_part(
    b: Seq<Seq<char>>,
    now: i64,
    cs: Seq<ClauseV>,
    ps: Set<Seq<char>>,
    part: Set<Seq<char>>,
    all: Set<KeyV>,
)
    requires
        is_exact(b, now, cs, ps, all),
        part.subset_of(ps),
    ensures
        is_exact(b, now, cs, part, all),
{
    assert(closed_for(b, now, cs, part, all, all)) by {
        assert forall|i: int| 0 <= i < cs.len() && !(#[trigger] cs[i]).is_fact && part.contains(cs[i].head.pred) implies leads_into(
            b,
            now,
            cs[i],
            all,
            all,
            all,
        ) by {
            assert(ps.contains(cs[i].head.pred));
        }
    }
    assert forall|m: Set<KeyV>| #[trigger] closed_for(b, now, cs, part, m, all) && outside(all, part).subset_of(m) implies all.subset_of(
        m,
    ) by {
        let both = m.intersect(all);
        assert forall|i: int| 0 <= i < cs.len() && !(#[trigger] cs[i]).is_fact && ps.contains(cs[i].head.pred) implies leads_into(
            b,
            now,
            cs[i],
            both,
            all,
            both,
        ) by {
            let c = cs[i];
            assert(leads_into(b, now, c, all, all, all));
            assert forall|x: Bindings| #[trigger] body_true(b, now, c, both, all, x) && head_fact(b, c, x) is Some implies both.contains(
                head_fact(b, c, x)->Some_0,
            ) by {
                lemma_body_grows(b, now, c, both, all, all, x);
                let k = head_fact(b, c, x)->Some_0;
                if part.contains(c.head.pred) {
                    assert(leads_into(b, now, c, m, all, m));
                    lemma_body_grows(b, now, c, both, m, all, x);
                } else {
                    assert(outside(all, part).contains(k));
                }
            }
        }
        assert(closed_for(b, now, cs, ps, both, all));
        assert forall|k: KeyV| #[trigger] outside(all, ps).contains(k) implies both.contains(k) by {
            assert(outside(all, part).contains(k));
        }
        assert(all.subset_of(both));
    }
}

// ------------------------------------------------------------------- models

/// The predicates that rules derive.
pub open spec fn defined_in(cs: Seq<ClauseV>) -> Set<Seq<char>> {
    Set::new(|p: Seq<char>| defined(cs, p))
}

/// Where the derived predicates are exact, the facts are the model of the
/// program over the facts of the others.
pub proof fn lemma_exact_model(b: Seq<Seq<char>>, now: i64, cs: Seq<ClauseV>, given: Set<KeyV>, all: Set<KeyV>)
    requires
        is_exact(b, now, cs, defined_in(cs), all),
        given.subset_of(all),
        forall|k: KeyV| #[trigger] all.contains(k) && !defined(cs, k.0) ==> given.contains(k),
    ensures
        is_model(b, now, cs, given, all),
{
    assert forall|i: int| 0 <= i < cs.len() && !(#[trigger] cs[i]).is_fact implies leads_into(b, now, cs[i], all, all, all) by {
        assert(defined(cs, cs[i].head.pred));
    }
    assert forall|m: Set<KeyV>| #[trigger] program_closed(b, now, cs, m, all) && given.subset_of(m) implies all.subset_of(m) by {
        assert(closed_for(b, now, cs, defined_in(cs), m, all));
        assert(outside(all, defined_in(cs)).subset_of(m));
    }
}

/// In a model over underived facts, the derived predicates are exact.
pub proof fn lemma_model_exact(b: Seq<Seq<char>>, now: i64, cs: Seq<ClauseV>, given: Set<KeyV>, all: Set<KeyV>)
    requires
        is_model(b, now, cs, given, all),
        forall|k: KeyV| #[trigger] given.contains(k) ==> !defined(cs, k.0),
    ensures
        is_exact(b, now, cs, defined_in(cs), all),
{
    assert forall|m: Set<KeyV>| #[trigger] closed_for(b, now, cs, defined_in(cs), m, all) && outside(all, defined_in(cs)).subset_of(
        m,
    ) implies all.subset_of(m) by {
        assert forall|i: int| 0 <= i < cs.len() && !(#[trigger] cs[i]).is_fact implies leads_into(b, now, cs[i], m, all, m) by {
            assert(defined(cs, cs[i].head.pred));
        }
        assert(program_closed(b, now, cs, m, all));
        assert forall|k: KeyV| #[trigger] given.contains(k) implies m.contains(k) by {
            assert(outside(all, defined_in(cs)).contains(k));
        }
    }
}

// --------------------------------------------------------------- later names

proof fn lemma_instance_later(a: Seq<Seq<char>>, b: Seq<Seq<char>>, args: Seq<TermV>, key: Seq<Value>, x: Bindings)
    requires
        a.is_prefix_of(b),
        b.no_duplicates(),
        b.len() < usize::MAX,
        is_instance(a, args, key, x),
    ensures
        is_instance(b, args, key, x),
{
    assert forall|i: int| 0 <= i < args.len() implies term_is(b, #[trigger] args[i], key[i], x) by {
        assert(term_is(a, args[i], key[i], x));
        if let TermV::Sym(n) = args[i] {
            lemma_symbol(a, b, n);
        }
    }
}

/// Whether a body is true in known facts does not depend on names that came
/// later.
proof fn lemma_same_truth(
    a: Seq<Seq<char>>,
    b: Seq<Seq<char>>,
    now: i64,
    c: ClauseV,
    m: Set<KeyV>,
    n: Set<KeyV>,
    x: Bindings,
)
    requires
        a.is_prefix_of(b),
        b.no_duplicates(),
        b.len() < usize::MAX,
        constants_known(a, c),
        set_known(a, m),
        set_known(a, n),
    ensures
        body_true(a, now, c, m, n, x) <==> body_true(b, now, c, m, n, x),
{
    assert forall|j: int| 0 <= j < c.body.len() implies lit_true(a, now, #[trigger] c.body[j], m, n, x) == lit_true(
        b,
        now,
        c.body[j],
        m,
        n,
        x,
    ) by {
        assert(lit_constants_known(a, c.body[j]));
        match c.body[j] {
            LitV::Pos(y) => lemma_same_instances(a, b, y, m, x),
            LitV::Neg(y) => lemma_same_instances(a, b, y, n, x),
            LitV::Cmp(_, y, z) => {
                if let TermV::Sym(k) = y {
                    lemma_symbol(a, b, k);
                }
                lemma_expr_before(a, b, z, x);
            },
            _ => {},
        }
    }
    if body_true(a, now, c, m, n, x) {
        assert forall|j: int| 0 <= j < c.body.len() implies lit_true(b, now, #[trigger] c.body[j], m, n, x) by {
            assert(lit_true(a, now, c.body[j], m, n, x));
        }
    }
    if body_true(b, now, c, m, n, x) {
        assert forall|j: int| 0 <= j < c.body.len() implies lit_true(a, now, #[trigger] c.body[j], m, n, x) by {
            assert(lit_true(b, now, c.body[j], m, n, x));
        }
    }
}

proof fn lemma_same_instances(a: Seq<Seq<char>>, b: Seq<Seq<char>>, y: AtomV, m: Set<KeyV>, x: Bindings)
    requires
        a.is_prefix_of(b),
        b.no_duplicates(),
        b.len() < usize::MAX,
        set_known(a, m),
    ensures
        has_instance(a, y, m, x) == has_instance(b, y, m, x),
{
    if has_instance(a, y, m, x) {
        let key = choose|key: Seq<Value>| m.contains((y.pred, key)) && #[trigger] is_instance(a, y.args, key, x);
        lemma_instance_later(a, b, y.args, key, x);
    }
    if has_instance(b, y, m, x) {
        let key = choose|key: Seq<Value>| m.contains((y.pred, key)) && #[trigger] is_instance(b, y.args, key, x);
        let k: KeyV = (y.pred, key);
        assert(m.contains(k));
        assert(known_key(a, k.1));
        lemma_instance_before(a, b, y.args, key, x);
    }
}

/// What a rule derives from known facts is the same with later names, where it
/// is known.
proof fn lemma_same_head(a: Seq<Seq<char>>, b: Seq<Seq<char>>, c: ClauseV, into: Set<KeyV>, x: Bindings)
    requires
        a.is_prefix_of(b),
        b.no_duplicates(),
        b.len() < usize::MAX,
        set_known(a, into),
        head_fact(a, c, x) is Some ==> into.contains(head_fact(a, c, x)->Some_0),
    ensures
        head_fact(a, c, x) == head_fact(b, c, x),
{
    lemma_head_possible(a, b, c.head.args, 0, x, Seq::empty(), Seq::empty());
    if head_fact(a, c, x) is Some {
        let k = head_fact(a, c, x)->Some_0;
        assert(known_key(a, k.1));
        lemma_head_later(a, b, c.head.args, 0, x, Seq::empty());
    }
}

/// The rules of a program compare with known constants only.
pub open spec fn comparisons_known(names: Seq<Seq<char>>, cs: Seq<ClauseV>) -> bool {
    forall|i: int| 0 <= i < cs.len() && !(#[trigger] cs[i]).is_fact ==> constants_known(names, cs[i])
}

/// Exact predicates stay so with names that come later.
pub proof fn lemma_exact_later(
    a: Seq<Seq<char>>,
    b: Seq<Seq<char>>,
    now: i64,
    cs: Seq<ClauseV>,
    ps: Set<Seq<char>>,
    all: Set<KeyV>,
)
    requires
        a.is_prefix_of(b),
        b.no_duplicates(),
        b.len() < usize::MAX,
        comparisons_known(a, cs),
        set_known(a, all),
        is_exact(a, now, cs, ps, all),
    ensures
        is_exact(b, now, cs, ps, all),
{
    assert forall|i: int| 0 <= i < cs.len() && !(#[trigger] cs[i]).is_fact && ps.contains(cs[i].head.pred) implies leads_into(
        b,
        now,
        cs[i],
        all,
        all,
        all,
    ) by {
        let c = cs[i];
        assert(constants_known(a, c));
        assert(leads_into(a, now, c, all, all, all));
        assert forall|x: Bindings| #[trigger] body_true(b, now, c, all, all, x) && head_fact(b, c, x) is Some implies all.contains(
            head_fact(b, c, x)->Some_0,
        ) by {
            lemma_same_truth(a, b, now, c, all, all, x);
            lemma_same_head(a, b, c, all, x);
        }
    }
    assert forall|m: Set<KeyV>| #[trigger] closed_for(b, now, cs, ps, m, all) && outside(all, ps).subset_of(m) implies all.subset_of(
        m,
    ) by {
        let both = m.intersect(all);
        assert(set_known(a, both)) by {
            assert forall|k: KeyV| #[trigger] both.contains(k) implies known_key(a, k.1) by {
                assert(all.contains(k));
            }
        }
        assert forall|i: int| 0 <= i < cs.len() && !(#[trigger] cs[i]).is_fact && ps.contains(cs[i].head.pred) implies leads_into(
            a,
            now,
            cs[i],
            both,
            all,
            both,
        ) by {
            let c = cs[i];
            assert(constants_known(a, c));
            assert(leads_into(a, now, c, all, all, all));
            assert(leads_into(b, now, c, m, all, m));
            assert forall|x: Bindings| #[trigger] body_true(a, now, c, both, all, x) && head_fact(a, c, x) is Some implies both.contains(
                head_fact(a, c, x)->Some_0,
            ) by {
                lemma_same_truth(a, b, now, c, both, all, x);
                lemma_body_grows(a, now, c, both, all, all, x);
                lemma_body_grows(b, now, c, both, m, all, x);
                lemma_same_head(a, b, c, all, x);
            }
        }
        assert(closed_for(a, now, cs, ps, both, all));
        assert(outside(all, ps).subset_of(both));
        assert(all.subset_of(both));
    }
}

// -------------------------------------------------------------------- support

/// A fact follows from others by a rule.
pub open spec fn follows_by(
    b: Seq<Seq<char>>,
    now: i64,
    c: ClauseV,
    all: Set<KeyV>,
    k: KeyV,
    x: Bindings,
) -> bool {
    !c.is_fact && body_true(b, now, c, all, all, x) && head_fact(b, c, x) == Some(k)
}

/// A fact follows from others by some rule of a program.
pub open spec fn follows(b: Seq<Seq<char>>, now: i64, cs: Seq<ClauseV>, all: Set<KeyV>, k: KeyV) -> bool {
    exists|i: int, x: Bindings| 0 <= i < cs.len() && #[trigger] follows_by(b, now, cs[i], all, k, x)
}

/// Law: a model holds what was given and what follows by a rule from what it
/// holds, and nothing else.
pub proof fn facts_supported(b: Seq<Seq<char>>, now: i64, cs: Seq<ClauseV>, given: Set<KeyV>, all: Set<KeyV>, k: KeyV)
    requires
        is_model(b, now, cs, given, all),
    ensures
        all.contains(k) <==> given.contains(k) || follows(b, now, cs, all, k),
{
    if follows(b, now, cs, all, k) {
        let (i, x) = choose|i: int, x: Bindings| 0 <= i < cs.len() && #[trigger] follows_by(b, now, cs[i], all, k, x);
        assert(leads_into(b, now, cs[i], all, all, all));
    }
    if all.contains(k) && !given.contains(k) && !follows(b, now, cs, all, k) {
        let m = all.remove(k);
        assert forall|i: int| 0 <= i < cs.len() && !(#[trigger] cs[i]).is_fact implies leads_into(
            b,
            now,
            cs[i],
            m,
            all,
            m,
        ) by {
            let c = cs[i];
            assert forall|x: Bindings| #[trigger]
                body_true(b, now, c, m, all, x) && head_fact(b, c, x) is Some implies m.contains(
                head_fact(b, c, x)->Some_0,
            ) by {
                lemma_body_moves(b, now, c, m, all, all, all, x);
                assert(leads_into(b, now, c, all, all, all));
                if head_fact(b, c, x)->Some_0 == k {
                    assert(follows_by(b, now, cs[i], all, k, x));
                }
            }
        }
        assert(program_closed(b, now, cs, m, all));
    }
}

} // verus!

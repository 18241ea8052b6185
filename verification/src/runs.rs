//! Runs over time: each run of a program without negation or aggregates gives
//! its model, whether it starts over or from what earlier runs derived.

use vstd::prelude::*;
use crate::ast::{ClauseV, ExprV, LitV, TermV};
use crate::engine::{
    declare_facts, declared, eval_strata, invalidate, lemma_strata_fit, negates_grown, prepared, ran, reads_grown, stale_readers,
    EngineV,
};
use crate::env::Bindings;
use crate::evaluate::{
    agg_fns, args_of, delta_args, eval_stratum_of, evaluated, fire_from, fixpoint, fixpoint_extends, fold_clause, fold_groups,
    fold_stratum, fold_values, group_len, group_rows, groups, has_atom, in_group, indices_of, lemma_fixpoint, matching, pending_delta,
    prefix_pattern, retract_others, round_from, row_keys, settles, stratum_rules, temp_name, EvalV,
};
use crate::intern::{interned, with_name};
use crate::model::{
    all_known, body_true, constants_known, expr_known, expr_value, facts, head_fact, is_instance, known_map, leads_into,
    lemma_assert_facts, lemma_extends_holds, lemma_head_distinct, lemma_head_known, lemma_interned, lemma_known_grows, lemma_symbol,
    lit_constants_known, lit_true, term_is,
};
use crate::perfect::{
    all_simple, derived_from, is_model, is_simple, lemma_asserted, lemma_nothing_folded, lemma_strata_spares, leveled, pending_held,
    settled, strata_give_model, strata_settle,
};
use crate::recompute::{
    clear_each, in_heads, rebuilt, rels_seed_set, scope_here, scope_pass, scope_passes, scope_seeds, scope_start, scope_step, scoped,
    stated_in, ScopeV,
};
use crate::relation::{ann_unit, fits, has_key, key_set, lemma_lookup, rel_lookup, FactV, KeyV, RelV, RowV, SupportV};
use crate::restore::{known_key, known_value};
use crate::solve::{
    head_from, head_values, lemma_head_names, lemma_prefix_trans, lemma_store_extends_self, lemma_store_extends_trans, store_extends,
};
use crate::sorted_set::{enumerate, lemma_enumerable};
use crate::store::{holds, rels_settled, rels_wf, store_clear, RelsV, StoreV};
use crate::stratify::{aggregates, at_level, is_strata, strata_error, strata_of};
use crate::upkeep::{formed, lemma_formed_upheld, lemma_run_keeps, run_end};
use crate::value::Value;

verus! {

/// A rule without negated atoms.
pub open spec fn is_positive(c: ClauseV) -> bool {
    forall|j: int| 0 <= j < c.body.len() ==> !(#[trigger] c.body[j] is Neg)
}

/// No rule of a program has a negated atom.
pub open spec fn all_positive(cs: Seq<ClauseV>) -> bool {
    forall|i: int| 0 <= i < cs.len() && !(#[trigger] cs[i]).is_fact ==> is_positive(cs[i])
}

/// The facts of a set speak of known symbols.
pub open spec fn set_known(names: Seq<Seq<char>>, d: Set<KeyV>) -> bool {
    forall|k: KeyV| #[trigger] d.contains(k) ==> known_key(names, k.1)
}

/// The rules are simple and derive nothing from the facts that is not among
/// them.
pub open spec fn caught_up(names: Seq<Seq<char>>, now: i64, cs: Seq<ClauseV>, d: Set<KeyV>) -> bool {
    all_simple(names, cs) && set_known(names, d) && derived_from(names, now, cs, d, d, d)
}

/// A store as its operations keep it: distinct names, facts of known symbols,
/// finitely many, and only stored facts pending.
pub open spec fn is_sound(st: StoreV) -> bool {
    &&& rels_wf(st.rels)
    &&& st.names.no_duplicates()
    &&& all_known(st)
    &&& pending_held(st.rels)
    &&& facts(st.rels).finite()
}

// --------------------------------------------------------------- later names

pub proof fn lemma_instance_before(
    a: Seq<Seq<char>>,
    b: Seq<Seq<char>>,
    args: Seq<TermV>,
    key: Seq<Value>,
    s: Bindings,
)
    requires
        a.is_prefix_of(b),
        b.no_duplicates(),
        b.len() < usize::MAX,
        known_key(a, key),
        is_instance(b, args, key, s),
    ensures
        is_instance(a, args, key, s),
{
    assert forall|i: int| 0 <= i < args.len() implies term_is(a, #[trigger] args[i], key[i], s) by {
        assert(term_is(b, args[i], key[i], s));
        assert(known_value(a, key[i]));
        if let TermV::Sym(n) = args[i] {
            lemma_symbol(a, b, n);
        }
    }
}

pub proof fn lemma_expr_before(a: Seq<Seq<char>>, b: Seq<Seq<char>>, e: ExprV, s: Bindings)
    requires
        a.is_prefix_of(b),
        b.no_duplicates(),
        b.len() < usize::MAX,
        expr_known(a, e),
    ensures
        expr_value(a, e, s) == expr_value(b, e, s),
    decreases e,
{
    match e {
        ExprV::T(t) => {
            if let TermV::Sym(n) = t {
                lemma_symbol(a, b, n);
            }
        },
        ExprV::Add(x, y) => {
            lemma_expr_before(a, b, *x, s);
            lemma_expr_before(a, b, *y, s);
        },
        ExprV::Sub(x, y) => {
            lemma_expr_before(a, b, *x, s);
            lemma_expr_before(a, b, *y, s);
        },
    }
}

proof fn lemma_head_starts(names: Seq<Seq<char>>, args: Seq<TermV>, i: int, s: Bindings, acc: Seq<Value>)
    requires
        head_from(names, args, i, s, acc).1 is Some,
    ensures
        acc.is_prefix_of(head_from(names, args, i, s, acc).1->Some_0),
    decreases args.len() - i,
{
    if 0 <= i < args.len() {
        match args[i] {
            TermV::Sym(n) => {
                let x = Value::Sym(interned(names, n));
                lemma_head_starts(with_name(names, n), args, i + 1, s, acc.push(x));
                lemma_push_prefix(acc, x, head_from(names, args, i, s, acc).1->Some_0);
            },
            TermV::Int(n) => {
                lemma_head_starts(names, args, i + 1, s, acc.push(Value::Int(n)));
                lemma_push_prefix(acc, Value::Int(n), head_from(names, args, i, s, acc).1->Some_0);
            },
            TermV::Var(v) => {
                lemma_head_starts(names, args, i + 1, s, acc.push(s[v]));
                lemma_push_prefix(acc, s[v], head_from(names, args, i, s, acc).1->Some_0);
            },
            _ => {},
        }
    } else {
        assert(acc =~= acc.subrange(0, acc.len() as int));
    }
}

proof fn lemma_push_prefix(acc: Seq<Value>, x: Value, r: Seq<Value>)
    requires
        acc.push(x).is_prefix_of(r),
    ensures
        acc.is_prefix_of(r),
        acc.len() < r.len(),
        r[acc.len() as int] == x,
{
    let p = acc.push(x);
    assert forall|i: int| 0 <= i < p.len() implies p[i] == r[i] by {
        assert(p == r.subrange(0, p.len() as int));
    }
    assert(p[acc.len() as int] == x);
    assert(acc =~= r.subrange(0, acc.len() as int)) by {
        assert forall|i: int| 0 <= i < acc.len() implies acc[i] == r[i] by {
            assert(p[i] == acc[i]);
        }
    }
}

/// A head of known symbols is the same with later names.
pub proof fn lemma_head_later(
    a: Seq<Seq<char>>,
    b: Seq<Seq<char>>,
    args: Seq<TermV>,
    i: int,
    s: Bindings,
    acc: Seq<Value>,
)
    requires
        a.is_prefix_of(b),
        b.no_duplicates(),
        b.len() < usize::MAX,
        0 <= i <= args.len(),
        head_from(a, args, i, s, acc).1 is Some,
        known_key(a, head_from(a, args, i, s, acc).1->Some_0),
    ensures
        head_from(b, args, i, s, acc).1 == head_from(a, args, i, s, acc).1,
    decreases args.len() - i,
{
    if i < args.len() {
        match args[i] {
            TermV::Sym(n) => {
                let x = Value::Sym(interned(a, n));
                let r = head_from(a, args, i, s, acc).1->Some_0;
                lemma_head_starts(with_name(a, n), args, i + 1, s, acc.push(x));
                lemma_push_prefix(acc, x, r);
                assert(known_value(a, r[acc.len() as int]));
                assert(a.contains(n));
                assert(with_name(a, n) == a);
                lemma_interned(a, b, n);
                lemma_head_later(a, b, args, i + 1, s, acc.push(x));
            },
            TermV::Int(n) => {
                lemma_head_later(a, b, args, i + 1, s, acc.push(Value::Int(n)));
            },
            TermV::Var(v) => {
                lemma_head_later(a, b, args, i + 1, s, acc.push(s[v]));
            },
            _ => {},
        }
    }
}

pub proof fn lemma_head_possible(a: Seq<Seq<char>>, b: Seq<Seq<char>>, args: Seq<TermV>, i: int, s: Bindings, x: Seq<Value>, y: Seq<Value>)
    ensures
        head_from(a, args, i, s, x).1 is Some <==> head_from(b, args, i, s, y).1 is Some,
    decreases args.len() - i,
{
    if 0 <= i < args.len() {
        match args[i] {
            TermV::Sym(n) => {
                lemma_head_possible(
                    with_name(a, n),
                    with_name(b, n),
                    args,
                    i + 1,
                    s,
                    x.push(Value::Sym(interned(a, n))),
                    y.push(Value::Sym(interned(b, n))),
                );
            },
            TermV::Int(n) => {
                lemma_head_possible(a, b, args, i + 1, s, x.push(Value::Int(n)), y.push(Value::Int(n)));
            },
            TermV::Var(v) => {
                lemma_head_possible(a, b, args, i + 1, s, x.push(s[v]), y.push(s[v]));
            },
            _ => {},
        }
    }
}

/// What a positive rule derives from facts does not depend on names that came
/// later.
proof fn lemma_leads_later(
    a: Seq<Seq<char>>,
    b: Seq<Seq<char>>,
    now: i64,
    c: ClauseV,
    d: Set<KeyV>,
    n: Set<KeyV>,
    n2: Set<KeyV>,
    into: Set<KeyV>,
)
    requires
        a.is_prefix_of(b),
        b.no_duplicates(),
        b.len() < usize::MAX,
        constants_known(a, c),
        is_positive(c),
        set_known(a, d),
        set_known(a, into),
        leads_into(a, now, c, d, n, into),
    ensures
        leads_into(b, now, c, d, n2, into),
{
    assert forall|s: Bindings| #[trigger] body_true(b, now, c, d, n2, s) && head_fact(b, c, s) is Some implies into.contains(
        head_fact(b, c, s)->Some_0,
    ) by {
        assert(body_true(a, now, c, d, n, s)) by {
            assert forall|j: int| 0 <= j < c.body.len() implies lit_true(a, now, #[trigger] c.body[j], d, n, s) by {
                assert(lit_true(b, now, c.body[j], d, n2, s));
                assert(lit_constants_known(a, c.body[j]));
                match c.body[j] {
                    LitV::Pos(x) => {
                        let key = choose|key: Seq<Value>| d.contains((x.pred, key)) && #[trigger] is_instance(b, x.args, key, s);
                        lemma_instance_before(a, b, x.args, key, s);
                    },
                    LitV::Cmp(op, x, y) => {
                        if let TermV::Sym(m) = x {
                            lemma_symbol(a, b, m);
                        }
                        lemma_expr_before(a, b, y, s);
                    },
                    _ => {},
                }
            }
        }
        lemma_head_possible(a, b, c.head.args, 0, s, Seq::empty(), Seq::empty());
        assert(head_fact(a, c, s) is Some);
        let k = head_fact(a, c, s)->Some_0;
        assert(into.contains(k));
        lemma_head_later(a, b, c.head.args, 0, s, Seq::empty());
    }
}

// ---------------------------------------------------------------- preparing

pub proof fn lemma_declare_grows(st: StoreV, cs: Seq<ClauseV>, i: int)
    requires
        rels_wf(st.rels),
    ensures
        st.names.is_prefix_of(declare_facts(st, cs, i).names),
        rels_wf(declare_facts(st, cs, i).rels),
        declare_facts(st, cs, i).retracted == st.retracted,
    decreases cs.len() - i,
{
    assert(st.names =~= st.names.subrange(0, st.names.len() as int));
    if 0 <= i < cs.len() {
        if !cs[i].is_fact {
            lemma_declare_grows(st, cs, i + 1);
        } else {
            let h = head_values(st.names, cs[i].head.args, Map::empty());
            let st1 = StoreV { names: h.0, ..st };
            lemma_head_names(st.names, cs[i].head.args, 0, Map::empty(), Seq::empty());
            match h.1 {
                Some(args) => {
                    let st2 = declared(st1, (cs[i].head.pred, args), ann_unit());
                    crate::solve::lemma_store_assert(st1, (cs[i].head.pred, args), FactV { ann: ann_unit(), supports: seq![SupportV::Base] });
                    lemma_declare_grows(st2, cs, i + 1);
                    lemma_prefix_trans(st.names, st2.names, declare_facts(st2, cs, i + 1).names);
                },
                None => {
                    lemma_declare_grows(st1, cs, i + 1);
                    lemma_prefix_trans(st.names, st1.names, declare_facts(st1, cs, i + 1).names);
                },
            }
        }
    }
}

/// Asserting the facts of a program keeps a store sound and its settled facts
/// settled.
pub proof fn lemma_declared(st: StoreV, cs: Seq<ClauseV>, i: int)
    requires
        is_sound(st),
        declare_facts(st, cs, i).names.len() < usize::MAX,
    ensures
        is_sound(declare_facts(st, cs, i)),
        settled(declare_facts(st, cs, i).rels) == settled(st.rels),
    decreases cs.len() - i,
{
    if 0 <= i < cs.len() {
        if !cs[i].is_fact {
            lemma_declared(st, cs, i + 1);
        } else {
            let args = cs[i].head.args;
            let h = head_values(st.names, args, Map::empty());
            let st1 = StoreV { names: h.0, ..st };
            lemma_head_names(st.names, args, 0, Map::empty(), Seq::empty());
            lemma_head_distinct(st.names, args, 0, Map::empty(), Seq::empty());
            assert forall|k: KeyV| #[trigger] holds(st1.rels, k) implies known_key(st1.names, k.1) by {
                assert(holds(st.rels, k));
                lemma_known_grows(st.names, st1.names, k.1);
            }
            match h.1 {
                Some(vals) => {
                    let k = (cs[i].head.pred, vals);
                    let f = FactV { ann: ann_unit(), supports: seq![SupportV::Base] };
                    let st2 = declared(st1, k, ann_unit());
                    lemma_declare_grows(st1, cs, i + 1);
                    crate::solve::lemma_store_assert(st1, k, f);
                    lemma_declare_grows(st2, cs, i + 1);
                    assert(known_map(st.names, Map::empty()));
                    lemma_head_known(st.names, args, 0, Map::empty(), Seq::empty());
                    lemma_assert_facts(st1, k, f);
                    lemma_asserted(st1, k, f);
                    assert forall|j: KeyV| #[trigger] holds(st2.rels, j) implies known_key(st2.names, j.1) by {
                        if j != k {
                            assert(holds(st1.rels, j));
                        }
                    }
                    lemma_declared(st2, cs, i + 1);
                },
                None => {
                    lemma_declared(st1, cs, i + 1);
                },
            }
        }
    }
}

pub proof fn lemma_same_rows(a: RelsV, b: RelsV, k: KeyV)
    requires
        a.contains_key(k.0) <==> b.contains_key(k.0),
        a.contains_key(k.0) ==> a[k.0].rows == b[k.0].rows,
    ensures
        holds(a, k) <==> holds(b, k),
{
}

pub proof fn lemma_key_set(r: RelV, key: Seq<Value>)
    ensures
        key_set(r).contains(key) <==> has_key(r, key),
{
    let ks = r.rows.map_values(|x: RowV| x.key);
    if has_key(r, key) {
        let i = choose|i: int| 0 <= i < r.rows.len() && (#[trigger] r.rows[i]).key == key;
        assert(ks[i] == key);
    }
    if ks.to_set().contains(key) {
        let i = choose|i: int| 0 <= i < ks.len() && ks[i] == key;
        assert(r.rows[i].key == key);
    }
}

/// Clearing relations keeps a store sound.
pub proof fn lemma_cleared(st: StoreV, ps: Seq<Seq<char>>)
    requires
        is_sound(st),
    ensures
        is_sound(clear_each(st, ps)),
        clear_each(st, ps).names == st.names,
        clear_each(st, ps).retracted == st.retracted,
    decreases ps.len(),
{
    if ps.len() > 0 {
        let st1 = store_clear(st, ps[0]);
        crate::relation::lemma_empty_wf();
        assert forall|k: KeyV| #[trigger] holds(st1.rels, k) implies holds(st.rels, k) by {}
        assert(facts(st1.rels).subset_of(facts(st.rels)));
        vstd::set_lib::lemma_set_subset_finite(facts(st.rels), facts(st1.rels));
        assert forall|k: KeyV| #[trigger] pending_delta(st1.rels).contains(k) implies holds(st1.rels, k) by {
            assert(pending_delta(st.rels).contains(k));
        }
        lemma_cleared(st1, ps.drop_first());
    }
}

/// Starting over keeps a store sound and settles nothing.
pub proof fn lemma_rebuilt(st: StoreV, cs: Seq<ClauseV>, strata: Seq<Seq<int>>, ever: Set<Seq<char>>)
    requires
        is_sound(st),
    ensures
        is_sound(rebuilt(st, cs, strata, ever)),
        rebuilt(st, cs, strata, ever).names == st.names,
        rebuilt(st, cs, strata, ever).retracted == st.retracted,
        settled(rebuilt(st, cs, strata, ever).rels) == Set::<KeyV>::empty(),
{
    let all = Set::new(|p: Seq<char>| ever.contains(p) || in_heads(cs, strata, p));
    let c = clear_each(st, enumerate::<String>(all));
    lemma_cleared(st, enumerate::<String>(all));
    let r = rebuilt(st, cs, strata, ever);
    assert forall|k: KeyV| #[trigger] holds(r.rels, k) <==> holds(c.rels, k) by {
        lemma_same_rows(c.rels, r.rels, k);
    }
    assert(facts(r.rels) =~= facts(c.rels));
    assert forall|k: KeyV| #[trigger] holds(r.rels, k) implies known_key(r.names, k.1) by {
        assert(holds(c.rels, k));
    }
    assert forall|k: KeyV| #[trigger] holds(r.rels, k) implies pending_delta(r.rels).contains(k) by {
        assert(holds(c.rels, k));
        lemma_key_set(c.rels[k.0], k.1);
    }
    assert forall|k: KeyV| #[trigger] pending_delta(r.rels).contains(k) implies holds(r.rels, k) by {
        if c.rels[k.0].pending.contains(k.1) {
            assert(pending_delta(c.rels).contains(k));
        } else {
            lemma_key_set(c.rels[k.0], k.1);
        }
    }
    assert(settled(r.rels) =~= Set::<KeyV>::empty());
    assert(rels_wf(r.rels)) by {
        assert forall|n: Seq<char>| #[trigger] r.rels.contains_key(n) implies crate::relation::rel_wf(r.rels[n]) by {
            assert(c.rels.contains_key(n));
        }
    }
}

// ------------------------------------------------------------------ running

/// Rules with an atom derive nothing from nothing.
pub proof fn lemma_nothing_derived(now: i64, cs: Seq<ClauseV>, n: Set<KeyV>, into: Set<KeyV>)
    ensures
        forall|b: Seq<Seq<char>>| #[trigger] derived_from(b, now, cs, Set::empty(), n, into),
{
    assert forall|b: Seq<Seq<char>>| #[trigger] derived_from(b, now, cs, Set::empty(), n, into) by {
        assert forall|i: int| 0 <= i < cs.len() && !(#[trigger] cs[i]).is_fact && has_atom(cs[i]) implies leads_into(
            b,
            now,
            cs[i],
            Set::empty(),
            n,
            into,
        ) by {
            let c = cs[i];
            let j = choose|j: int| 0 <= j < c.body.len() && #[trigger] c.body[j] is Pos;
            assert forall|s: Bindings| !(#[trigger] body_true(b, now, c, Set::empty(), n, s)) by {
                if body_true(b, now, c, Set::empty(), n, s) {
                    assert(lit_true(b, now, c.body[j], Set::empty(), n, s));
                }
            }
        }
    }
}

/// A run of a program without negation or aggregates ends with what its
/// strata give.
pub proof fn lemma_ran_strata(e: EngineV)
    requires
        is_sound(e.st),
        e.st.retracted == Set::<Seq<char>>::empty(),
        e.clauses.len() <= usize::MAX,
        strata_error(e.clauses) is None,
        all_positive(e.clauses),
        all_simple(prepared(e).st.names, e.clauses),
    ensures
        ({
            let f = eval_strata(prepared(e).st, e.now, e.clauses, strata_of(e.clauses), 0).st;
            &&& ran(e).0.st.rels == rels_settled(f.rels)
            &&& ran(e).0.st.names == f.names
            &&& ran(e).0.st.retracted == Set::<Seq<char>>::empty()
            &&& store_extends(prepared(e).st, f)
        }),
{
    let cs = e.clauses;
    let strata = strata_of(cs);
    let st1 = if e.dirty {
        rebuilt(e.st, cs, strata, e.ever)
    } else {
        e.st
    };
    let p = prepared(e).st;
    let f = eval_strata(p, e.now, cs, strata, 0).st;
    if e.dirty {
        lemma_rebuilt(e.st, cs, strata, e.ever);
    }
    crate::stratify::strata_exist(cs);
    let l = choose|l: Map<Seq<char>, nat>| #[trigger]
        crate::stratify::is_levels(cs, l) && crate::stratify::grouped(cs, l, strata);
    assert(leveled(cs, l, strata));
    lemma_declare_grows(st1, cs, 0);
    lemma_strata_spares(p, e.now, cs, l, strata, 0);
    lemma_not_stale(f, cs, e.mark);
    assert(invalidate(f, e.now, cs, strata, e.mark, strata.len() + 2).st == f);
}

/// Law: a run of a program without negation gives its model over the stored
/// facts, and leaves the store so that the next run does too. A run starts
/// over, or goes on from facts that were settled under the given names.
pub proof fn run_gives_model(e: EngineV, a: Seq<Seq<char>>)
    requires
        is_sound(e.st),
        e.st.retracted == Set::<Seq<char>>::empty(),
        e.clauses.len() <= usize::MAX,
        strata_error(e.clauses) is None,
        all_positive(e.clauses),
        all_simple(prepared(e).st.names, e.clauses),
        strata_settle(prepared(e).st, e.now, e.clauses, strata_of(e.clauses), 0),
        ran(e).0.st.names.len() < usize::MAX,
        e.dirty || (a.is_prefix_of(e.st.names) && caught_up(a, e.now, e.clauses, settled(e.st.rels))),
    ensures
        is_model(ran(e).0.st.names, e.now, e.clauses, facts(prepared(e).st.rels), facts(ran(e).0.st.rels)),
        is_sound(ran(e).0.st),
        ran(e).0.st.retracted == Set::<Seq<char>>::empty(),
        settled(ran(e).0.st.rels) == facts(ran(e).0.st.rels),
        caught_up(ran(e).0.st.names, e.now, e.clauses, settled(ran(e).0.st.rels)),
        ran(e).0.st.names == eval_strata(prepared(e).st, e.now, e.clauses, strata_of(e.clauses), 0).st.names,
{
    let cs = e.clauses;
    let strata = strata_of(cs);
    let st1 = if e.dirty {
        rebuilt(e.st, cs, strata, e.ever)
    } else {
        e.st
    };
    let p = prepared(e).st;
    let f = eval_strata(p, e.now, cs, strata, 0).st;
    if e.dirty {
        lemma_rebuilt(e.st, cs, strata, e.ever);
    }
    crate::stratify::strata_exist(cs);
    let l = choose|l: Map<Seq<char>, nat>| #[trigger]
        crate::stratify::is_levels(cs, l) && crate::stratify::grouped(cs, l, strata);
    assert(crate::perfect::leveled(cs, l, strata));
    lemma_declare_grows(st1, cs, 0);
    lemma_ran_strata(e);
    let r = ran(e).0.st;
    lemma_declared(st1, cs, 0);
    assert(derived_from(f.names, e.now, cs, settled(p.rels), facts(f.rels), facts(p.rels))) by {
        if e.dirty {
            lemma_nothing_derived(e.now, cs, facts(f.rels), facts(p.rels));
        } else {
            let d = settled(e.st.rels);
            lemma_prefix_trans(a, e.st.names, p.names);
            lemma_prefix_trans(a, p.names, f.names);
            crate::perfect::lemma_strata_distinct(p, e.now, cs, l, strata, 0);
            assert forall|i: int| 0 <= i < cs.len() && !(#[trigger] cs[i]).is_fact && has_atom(cs[i]) implies leads_into(
                f.names,
                e.now,
                cs[i],
                settled(p.rels),
                facts(f.rels),
                facts(p.rels),
            ) by {
                assert(is_simple(a, cs[i]));
                assert(is_positive(cs[i]));
                assert(leads_into(a, e.now, cs[i], d, d, d));
                lemma_leads_later(a, f.names, e.now, cs[i], d, d, facts(f.rels), d);
                assert(leads_into(f.names, e.now, cs[i], d, facts(f.rels), d));
                assert(d.subset_of(facts(p.rels)));
            }
        }
    }
    strata_give_model(p, e.now, cs);
    lemma_settled(f);
    assert(facts(r.rels) =~= facts(f.rels));
    assert(settled(r.rels) =~= facts(r.rels));
    let all = facts(r.rels);
    crate::perfect::lemma_simple_grows(p.names, f.names, cs);
    assert(set_known(r.names, all)) by {
        assert forall|k: KeyV| #[trigger] all.contains(k) implies known_key(r.names, k.1) by {
            assert(holds(f.rels, k));
        }
    }
}

pub proof fn lemma_settled(st: StoreV)
    requires
        is_sound(st),
    ensures
        forall|k: KeyV| #[trigger] holds(rels_settled(st.rels), k) <==> holds(st.rels, k),
        forall|k: KeyV| !(#[trigger] pending_delta(rels_settled(st.rels)).contains(k)),
        rels_wf(rels_settled(st.rels)),
{
    let r = rels_settled(st.rels);
    assert forall|k: KeyV| #[trigger] holds(r, k) <==> holds(st.rels, k) by {
        lemma_same_rows(st.rels, r, k);
    }
    assert forall|n: Seq<char>| #[trigger] r.contains_key(n) implies crate::relation::rel_wf(r[n]) by {
        assert(st.rels.contains_key(n));
    }
}

/// Rules without negated atoms are never stale.
pub proof fn lemma_not_stale(st: StoreV, cs: Seq<ClauseV>, mark: int)
    requires
        all_positive(cs),
    ensures
        stale_readers(st, cs, mark) == Set::<Seq<char>>::empty(),
{
    assert forall|r: Seq<char>| !(#[trigger] stale_readers(st, cs, mark).contains(r)) by {
        if stale_readers(st, cs, mark).contains(r) {
            let ci = choose|ci: int| 0 <= ci < cs.len() && reads_grown(st, mark, #[trigger] cs[ci]) && cs[ci].head.pred == r;
            assert(is_positive(cs[ci]));
            let j = choose|j: int| 0 <= j < cs[ci].body.len() && negates_grown(st, mark, #[trigger] cs[ci].body[j]);
            assert(!(cs[ci].body[j] is Neg));
        }
    }
    assert(stale_readers(st, cs, mark) =~= Set::<Seq<char>>::empty());
}

// ---------------------------------------------------------------- idle runs

/// The facts that a program states are stored.
pub open spec fn facts_stated(st: StoreV, cs: Seq<ClauseV>) -> bool {
    forall|i: int| 0 <= i < cs.len() && (#[trigger] cs[i]).is_fact ==> is_stated(st, cs[i])
}

/// The fact that a clause states is stored, and its constants are known.
pub open spec fn is_stated(st: StoreV, c: ClauseV) -> bool {
    let h = head_values(st.names, c.head.args, Map::empty());
    h.0 == st.names && match h.1 {
        Some(args) => holds(st.rels, (c.head.pred, args)),
        None => true,
    }
}

/// The same relations with the same tuples in the same order.
pub open spec fn same_keys(a: RelsV, b: RelsV) -> bool {
    &&& a.dom() == b.dom()
    &&& forall|n: Seq<char>| #[trigger] a.contains_key(n) ==> row_keys(a[n]) == row_keys(b[n]) && a[n].pending == b[n].pending
}

/// Nothing but the notes on facts differs.
pub open spec fn same_but_notes(a: StoreV, b: StoreV) -> bool {
    &&& a.names == b.names
    &&& a.log == b.log
    &&& a.feed == b.feed
    &&& a.epoch == b.epoch
    &&& a.retracted == b.retracted
    &&& same_keys(a.rels, b.rels)
    &&& rels_wf(b.rels)
}

pub proof fn lemma_same_keys(a: RelsV, b: RelsV)
    requires
        same_keys(a, b),
    ensures
        facts(a) == facts(b),
        pending_delta(a) == pending_delta(b),
{
    assert forall|k: KeyV| #[trigger] holds(a, k) <==> holds(b, k) by {
        assert(a.contains_key(k.0) <==> b.contains_key(k.0));
        if a.contains_key(k.0) {
            lemma_key_set(a[k.0], k.1);
            lemma_key_set(b[k.0], k.1);
        }
    }
    assert(facts(a) =~= facts(b));
    assert(pending_delta(a) =~= pending_delta(b)) by {
        assert forall|k: KeyV| pending_delta(a).contains(k) <==> pending_delta(b).contains(k) by {
            assert(a.contains_key(k.0) <==> b.contains_key(k.0));
        }
    }
}

pub proof fn lemma_declare_again(st: StoreV, cs: Seq<ClauseV>, i: int)
    requires
        rels_wf(st.rels),
        facts_stated(st, cs),
    ensures
        same_but_notes(st, declare_facts(st, cs, i)),
    decreases cs.len() - i,
{
    if 0 <= i < cs.len() {
        if !cs[i].is_fact {
            lemma_declare_again(st, cs, i + 1);
        } else {
            assert(is_stated(st, cs[i]));
            let h = head_values(st.names, cs[i].head.args, Map::empty());
            let st1 = StoreV { names: h.0, ..st };
            assert(st1 == st);
            match h.1 {
                Some(args) => {
                    let k = (cs[i].head.pred, args);
                    let f = FactV { ann: ann_unit(), supports: seq![SupportV::Base] };
                    let st2 = declared(st1, k, ann_unit());
                    crate::solve::lemma_store_assert(st, k, f);
                    assert(st2.rels.dom() =~= st.rels.dom());
                    assert(row_keys(st2.rels[k.0]) =~= row_keys(st.rels[k.0]));
                    assert(same_keys(st.rels, st2.rels));
                    lemma_same_keys(st.rels, st2.rels);
                    assert(facts_stated(st2, cs)) by {
                        assert forall|j: int| 0 <= j < cs.len() && (#[trigger] cs[j]).is_fact implies is_stated(st2, cs[j]) by {
                            assert(is_stated(st, cs[j]));
                            if let Some(x) = head_values(st.names, cs[j].head.args, Map::empty()).1 {
                                assert(facts(st.rels).contains((cs[j].head.pred, x)));
                                assert(facts(st2.rels).contains((cs[j].head.pred, x)));
                            }
                        }
                    }
                    lemma_declare_again(st2, cs, i + 1);
                },
                None => {
                    lemma_declare_again(st1, cs, i + 1);
                },
            }
        }
    }
}

proof fn lemma_no_delta(p: Seq<char>)
    ensures
        delta_args(Set::<KeyV>::empty(), p).len() == 0,
{
    let s = args_of(Set::<KeyV>::empty(), p);
    assert(s =~= Set::empty());
    lemma_enumerable::<Vec<Value>>(s);
    let q = delta_args(Set::<KeyV>::empty(), p);
    if q.len() > 0 {
        assert(q.to_set().contains(q[0]));
    }
}

proof fn lemma_idle_from(st: StoreV, now: i64, c: ClauseV, i: int, out: Seq<KeyV>)
    ensures
        fire_from(st, now, c, i, Set::empty(), out).st == st,
        fire_from(st, now, c, i, Set::empty(), out).out == out,
    decreases c.body.len() - i,
{
    if 0 <= i < c.body.len() {
        if let LitV::Pos(a) = c.body[i] {
            lemma_no_delta(a.pred);
        }
        lemma_idle_from(st, now, c, i + 1, out);
    }
}

proof fn lemma_idle_round(st: StoreV, now: i64, cs: Seq<ClauseV>, i: int, out: Seq<KeyV>)
    requires
        forall|j: int| 0 <= j < cs.len() ==> has_atom(#[trigger] cs[j]),
    ensures
        round_from(st, now, cs, i, Set::empty(), out).st == st,
        round_from(st, now, cs, i, Set::empty(), out).out == out,
    decreases cs.len() - i,
{
    if 0 <= i < cs.len() {
        assert(has_atom(cs[i]));
        lemma_idle_from(st, now, cs[i], 0, out);
        lemma_idle_round(st, now, cs, i + 1, out);
    }
}

/// Rules with atoms.
pub open spec fn all_relational(cs: Seq<ClauseV>) -> bool {
    forall|i: int| 0 <= i < cs.len() && !(#[trigger] cs[i]).is_fact ==> has_atom(cs[i])
}

/// A tuple begins with the values of a group, as far as it goes.
pub open spec fn begins(key: Seq<Value>, g: Seq<Value>) -> bool {
    forall|i: int| 0 <= i < g.len() && i < key.len() ==> #[trigger] key[i] == g[i]
}

/// The folded tuple of a group is stored, and no other of the group.
pub open spec fn group_folded(rels: RelsV, c: ClauseV, g: Seq<Value>, rows: Seq<Seq<Value>>) -> bool {
    let out = g + fold_values(agg_fns(c.head.args), rows);
    &&& holds(rels, (c.head.pred, out))
    &&& forall|key: Seq<Value>| #[trigger] holds(rels, (c.head.pred, key)) && begins(key, g) ==> key == out
}

/// The groups of an aggregate are folded.
pub open spec fn is_folded(rels: RelsV, c: ClauseV, ci: int) -> bool {
    let temp = temp_name(c, ci);
    let gl = group_len(c.head.args) as int;
    rels.contains_key(temp) ==> forall|g: Seq<Value>| #[trigger]
        groups(row_keys(rels[temp]), gl).contains(g) ==> group_folded(rels, c, g, group_rows(row_keys(rels[temp]), gl, g))
}

/// All aggregates are up to date.
pub open spec fn all_folded(rels: RelsV, cs: Seq<ClauseV>) -> bool {
    forall|i: int| 0 <= i < cs.len() && !(#[trigger] cs[i]).is_fact && aggregates(cs[i]) ==> is_folded(rels, cs[i], i)
}

pub proof fn lemma_retract_none(st: StoreV, p: Seq<char>, olds: Seq<Seq<Value>>, keep: Seq<Value>)
    requires
        forall|i: int| 0 <= i < olds.len() ==> #[trigger] olds[i] == keep,
    ensures
        retract_others(st, p, olds, keep) == (EvalV { st, new: 0 }),
    decreases olds.len(),
{
    if olds.len() > 0 {
        assert(olds[0] == keep);
        let d = olds.drop_first();
        assert forall|i: int| 0 <= i < d.len() implies #[trigger] d[i] == keep by {
            assert(d[i] == olds[i + 1]);
        }
        lemma_retract_none(st, p, d, keep);
    }
}

proof fn lemma_fold_again(st: StoreV, c: ClauseV, temp: Seq<char>, keys: Seq<Seq<Value>>, gs: Seq<Seq<Value>>)
    requires
        rels_wf(st.rels),
        forall|i: int|
            0 <= i < gs.len() ==> group_folded(
                st.rels,
                c,
                #[trigger] gs[i],
                group_rows(keys, group_len(c.head.args) as int, gs[i]),
            ),
    ensures
        fold_groups(st, c, temp, keys, gs) == (EvalV { st, new: 0 }),
    decreases gs.len(),
{
    if gs.len() > 0 {
        let g = gs[0];
        let p = c.head.pred;
        let rows = group_rows(keys, group_len(c.head.args) as int, g);
        let fns = agg_fns(c.head.args);
        let out = g + fold_values(fns, rows);
        assert(group_folded(st.rels, c, g, rows));
        let pat = prefix_pattern(g, fns.len());
        let olds = matching(st.rels, p, pat);
        assert forall|i: int| 0 <= i < olds.len() implies #[trigger] olds[i] == out by {
            let r = st.rels[p];
            lemma_lookup(r, pat);
            let id = rel_lookup(r, pat)[i];
            assert(rel_lookup(r, pat).contains(id));
            let key = r.rows[id].key;
            assert(olds[i] == key);
            assert(has_key(r, key));
            assert(holds(st.rels, (p, key)));
            assert(begins(key, g)) by {
                assert(fits(pat, key));
                assert forall|j: int| 0 <= j < g.len() && j < key.len() implies #[trigger] key[j] == g[j] by {
                    assert(pat[j] == Some(g[j]));
                }
            }
        }
        lemma_retract_none(st, p, olds, out);
        let d = gs.drop_first();
        assert forall|i: int| 0 <= i < d.len() implies group_folded(
            st.rels,
            c,
            #[trigger] d[i],
            group_rows(keys, group_len(c.head.args) as int, d[i]),
        ) by {
            assert(d[i] == gs[i + 1]);
        }
        lemma_fold_again(st, c, temp, keys, d);
    }
}

pub proof fn lemma_groups_finite(keys: Seq<Seq<Value>>, gl: int)
    ensures
        groups(keys, gl).finite(),
{
    let heads = keys.map_values(|k: Seq<Value>| k.take(gl)).to_set();
    vstd::seq_lib::seq_to_set_is_finite(keys.map_values(|k: Seq<Value>| k.take(gl)));
    assert forall|g: Seq<Value>| #[trigger] groups(keys, gl).contains(g) implies heads.contains(g) by {
        let i = choose|i: int| 0 <= i < keys.len() && #[trigger] in_group(gl, g)(keys[i]);
        assert(keys.map_values(|k: Seq<Value>| k.take(gl))[i] == g);
    }
    vstd::set_lib::lemma_set_subset_finite(heads, groups(keys, gl));
}

/// Folding a rule whose groups are folded changes nothing.
pub proof fn lemma_clause_folded_again(st: StoreV, c: ClauseV, ci: int)
    requires
        rels_wf(st.rels),
        is_folded(st.rels, c, ci),
    ensures
        fold_clause(st, c, ci) == (EvalV { st, new: 0 }),
{
    let temp = temp_name(c, ci);
    if st.rels.contains_key(temp) {
        let keys = row_keys(st.rels[temp]);
        let gl = group_len(c.head.args) as int;
        let gs = enumerate::<Vec<Value>>(groups(keys, gl));
        lemma_groups_finite(keys, gl);
        lemma_enumerable::<Vec<Value>>(groups(keys, gl));
        assert forall|j: int| 0 <= j < gs.len() implies group_folded(st.rels, c, #[trigger] gs[j], group_rows(keys, gl, gs[j])) by {
            assert(gs.to_set().contains(gs[j]));
            assert(groups(keys, gl).contains(gs[j]));
        }
        lemma_fold_again(st, c, temp, keys, gs);
    }
}

pub proof fn lemma_folded_again(st: StoreV, cs: Seq<ClauseV>, idx: Seq<int>, i: int)
    requires
        rels_wf(st.rels),
        all_folded(st.rels, cs),
        forall|j: int| 0 <= j < idx.len() ==> 0 <= #[trigger] idx[j] < cs.len() && !cs[idx[j]].is_fact,
    ensures
        fold_stratum(st, cs, idx, i) == st,
    decreases idx.len() - i,
{
    if 0 <= i < idx.len() {
        let ci = idx[i];
        let c = cs[ci];
        if aggregates(c) {
            assert(is_folded(st.rels, c, ci));
            lemma_clause_folded_again(st, c, ci);
        }
        lemma_folded_again(st, cs, idx, i + 1);
    }
}

/// The positions in a stratum are positions of rules.
pub proof fn lemma_stratum_rules(cs: Seq<ClauseV>, l: Map<Seq<char>, nat>, strata: Seq<Seq<int>>, s: int)
    requires
        leveled(cs, l, strata),
        0 <= s < strata.len(),
    ensures
        forall|j: int| 0 <= j < strata[s].len() ==> 0 <= #[trigger] strata[s][j] < cs.len() && !cs[strata[s][j]].is_fact,
{
    let from = Seq::new(cs.len(), |i: int| i);
    let keep = at_level(cs, l, s);
    assert(is_strata(cs, strata));
    lemma_strata_fit(cs, strata);
    assert(strata[s] == from.filter(keep));
    assert forall|j: int| 0 <= j < strata[s].len() implies 0 <= #[trigger] strata[s][j] < cs.len() && !cs[strata[s][j]].is_fact by {
        from.lemma_filter_pred(keep, j);
        assert(indices_of(strata[s], cs.len() as int));
    }
}

proof fn lemma_idle_strata(st: StoreV, now: i64, cs: Seq<ClauseV>, l: Map<Seq<char>, nat>, strata: Seq<Seq<int>>, s: int)
    requires
        leveled(cs, l, strata),
        all_relational(cs),
        rels_wf(st.rels),
        all_folded(st.rels, cs),
        0 <= s <= strata.len(),
        pending_delta(st.rels) == Set::<KeyV>::empty(),
    ensures
        eval_strata(st, now, cs, strata, s).st == st,
        eval_strata(st, now, cs, strata, s).new == 0,
    decreases strata.len() - s,
{
    if s < strata.len() {
        let idx = strata[s];
        let rules = stratum_rules(cs, idx);
        lemma_stratum_rules(cs, l, strata, s);
        assert forall|j: int| 0 <= j < rules.len() implies has_atom(#[trigger] rules[j]) by {
            assert(0 <= idx[j] < cs.len() && !cs[idx[j]].is_fact);
            assert(has_atom(cs[idx[j]]));
            assert(rules[j] == evaluated(cs[idx[j]], idx[j]));
            assert(rules[j].body == cs[idx[j]].body);
            let x = choose|x: int| 0 <= x < cs[idx[j]].body.len() && #[trigger] cs[idx[j]].body[x] is Pos;
            assert(rules[j].body[x] is Pos);
        }
        lemma_idle_round(st, now, rules, 0, Seq::empty());
        assert(settles(st, now, rules, Set::empty(), 1));
        lemma_fixpoint(st, now, rules, Set::empty(), 1);
        lemma_folded_again(st, cs, idx, 0);
        lemma_idle_strata(st, now, cs, l, strata, s + 1);
    }
}

/// What is folded is folded whatever the notes on facts.
proof fn lemma_folded_same(a: RelsV, b: RelsV, cs: Seq<ClauseV>)
    requires
        same_keys(a, b),
        all_folded(a, cs),
    ensures
        all_folded(b, cs),
{
    lemma_same_keys(a, b);
    assert forall|k: KeyV| #![trigger holds(a, k)] #![trigger holds(b, k)] holds(a, k) <==> holds(b, k) by {
        assert(facts(a).contains(k) <==> facts(b).contains(k));
    }
    assert forall|i: int| 0 <= i < cs.len() && !(#[trigger] cs[i]).is_fact && aggregates(cs[i]) implies is_folded(b, cs[i], i) by {
        let c = cs[i];
        let temp = temp_name(c, i);
        let gl = group_len(c.head.args) as int;
        assert(is_folded(a, c, i));
        if b.contains_key(temp) {
            assert(a.contains_key(temp));
            let keys = row_keys(a[temp]);
            assert(row_keys(b[temp]) == keys);
            assert forall|g: Seq<Value>| #[trigger] groups(keys, gl).contains(g) implies group_folded(
                b,
                c,
                g,
                group_rows(keys, gl, g),
            ) by {
                assert(group_folded(a, c, g, group_rows(keys, gl, g)));
            }
        }
    }
}

/// Law: a run with nothing new to do derives nothing. The program has not
/// changed, its facts are stored and its aggregates are up to date; nothing is
/// pending, nothing was retracted, and nothing was added since the last run.
pub proof fn idle_run(e: EngineV)
    requires
        rels_wf(e.st.rels),
        !e.dirty,
        e.clauses.len() <= usize::MAX,
        strata_error(e.clauses) is None,
        all_relational(e.clauses),
        facts_stated(e.st, e.clauses),
        all_folded(e.st.rels, e.clauses),
        pending_delta(e.st.rels) == Set::<KeyV>::empty(),
        e.st.retracted == Set::<Seq<char>>::empty(),
        e.mark == e.st.log.len(),
    ensures
        ran(e).1 == 0,
        facts(ran(e).0.st.rels) == facts(e.st.rels),
        ran(e).0.st.feed == e.st.feed,
        ran(e).0.st.log == e.st.log,
{
    let cs = e.clauses;
    let strata = strata_of(cs);
    crate::stratify::strata_exist(cs);
    let l = choose|l: Map<Seq<char>, nat>| #[trigger]
        crate::stratify::is_levels(cs, l) && crate::stratify::grouped(cs, l, strata);
    assert(leveled(cs, l, strata));
    let p = prepared(e).st;
    lemma_declare_again(e.st, cs, 0);
    lemma_same_keys(e.st.rels, p.rels);
    lemma_folded_same(e.st.rels, p.rels, cs);
    lemma_idle_strata(p, e.now, cs, l, strata, 0);
    assert(stale_readers(p, cs, e.mark) =~= Set::<Seq<char>>::empty()) by {
        assert forall|r: Seq<char>| !(#[trigger] stale_readers(p, cs, e.mark).contains(r)) by {
            if stale_readers(p, cs, e.mark).contains(r) {
                let ci = choose|ci: int|
                    0 <= ci < cs.len() && reads_grown(p, e.mark, #[trigger] cs[ci]) && cs[ci].head.pred == r;
                let j = choose|j: int| 0 <= j < cs[ci].body.len() && negates_grown(p, e.mark, #[trigger] cs[ci].body[j]);
                assert(negates_grown(p, e.mark, cs[ci].body[j]));
            }
        }
    }
    assert(invalidate(p, e.now, cs, strata, e.mark, strata.len() + 2).st == p);
    assert forall|k: KeyV| #[trigger] holds(rels_settled(p.rels), k) <==> holds(p.rels, k) by {
        lemma_same_rows(p.rels, rels_settled(p.rels), k);
    }
    assert(facts(ran(e).0.st.rels) =~= facts(p.rels));
}

/// Interning the constants of a head once more changes nothing.
pub proof fn lemma_head_again(
    a: Seq<Seq<char>>,
    b: Seq<Seq<char>>,
    args: Seq<TermV>,
    i: int,
    s: Bindings,
    acc: Seq<Value>,
)
    requires
        b.no_duplicates(),
        b.len() < usize::MAX,
        head_from(a, args, i, s, acc).0.is_prefix_of(b),
    ensures
        head_from(b, args, i, s, acc) == (b, head_from(a, args, i, s, acc).1),
    decreases args.len() - i,
{
    if 0 <= i < args.len() {
        match args[i] {
            TermV::Sym(n) => {
                let a1 = with_name(a, n);
                let x = Value::Sym(interned(a, n));
                lemma_head_names(a1, args, i + 1, s, acc.push(x));
                lemma_prefix_trans(a1, head_from(a, args, i, s, acc).0, b);
                lemma_interned(a, b, n);
                lemma_head_again(a1, b, args, i + 1, s, acc.push(x));
            },
            TermV::Int(n) => {
                lemma_head_again(a, b, args, i + 1, s, acc.push(Value::Int(n)));
            },
            TermV::Var(v) => {
                if s.contains_key(v) {
                    lemma_head_again(a, b, args, i + 1, s, acc.push(s[v]));
                }
            },
            _ => {},
        }
    }
}

/// After the facts of a program were asserted they are stored, in every store
/// that extends that one.
pub proof fn lemma_stated(st: StoreV, cs: Seq<ClauseV>, i: int, j: int, f: StoreV)
    requires
        rels_wf(st.rels),
        0 <= i <= j < cs.len(),
        cs[j].is_fact,
        store_extends(declare_facts(st, cs, i), f),
        f.names.no_duplicates(),
        f.names.len() < usize::MAX,
    ensures
        is_stated(f, cs[j]),
    decreases cs.len() - i,
{
    if !cs[i].is_fact {
        lemma_stated(st, cs, i + 1, j, f);
    } else {
        let h = head_values(st.names, cs[i].head.args, Map::empty());
        let st1 = StoreV { names: h.0, ..st };
        let st2 = match h.1 {
            Some(args) => declared(st1, (cs[i].head.pred, args), ann_unit()),
            None => st1,
        };
        if let Some(args) = h.1 {
            crate::solve::lemma_store_assert(
                st1,
                (cs[i].head.pred, args),
                FactV { ann: ann_unit(), supports: seq![SupportV::Base] },
            );
        }
        if i < j {
            lemma_stated(st2, cs, i + 1, j, f);
        } else {
            lemma_declare_extends(st2, cs, i + 1);
            lemma_store_extends_trans(st2, declare_facts(st2, cs, i + 1), f);
            lemma_head_again(st.names, f.names, cs[i].head.args, 0, Map::empty(), Seq::empty());
            if let Some(args) = h.1 {
                lemma_extends_holds(st2, f, (cs[i].head.pred, args));
            }
        }
    }
}

pub proof fn lemma_declare_extends(st: StoreV, cs: Seq<ClauseV>, i: int)
    requires
        rels_wf(st.rels),
    ensures
        store_extends(st, declare_facts(st, cs, i)),
    decreases cs.len() - i,
{
    lemma_store_extends_self(st);
    if 0 <= i < cs.len() {
        if !cs[i].is_fact {
            lemma_declare_extends(st, cs, i + 1);
        } else {
            let h = head_values(st.names, cs[i].head.args, Map::empty());
            let st1 = StoreV { names: h.0, ..st };
            lemma_head_names(st.names, cs[i].head.args, 0, Map::empty(), Seq::empty());
            assert(store_extends(st, st1));
            match h.1 {
                Some(args) => {
                    let k = (cs[i].head.pred, args);
                    let st2 = declared(st1, k, ann_unit());
                    crate::solve::lemma_store_assert(st1, k, FactV { ann: ann_unit(), supports: seq![SupportV::Base] });
                    lemma_store_extends_trans(st, st1, st2);
                    lemma_declare_extends(st2, cs, i + 1);
                    lemma_store_extends_trans(st, st2, declare_facts(st2, cs, i + 1));
                },
                None => {
                    lemma_declare_extends(st1, cs, i + 1);
                    lemma_store_extends_trans(st, st1, declare_facts(st1, cs, i + 1));
                },
            }
        }
    }
}

/// Law: after a run of a program without negation, a second run derives
/// nothing and changes no fact.
pub proof fn second_positive_run_idle(e: EngineV, a: Seq<Seq<char>>)
    requires
        is_sound(e.st),
        e.st.retracted == Set::<Seq<char>>::empty(),
        e.clauses.len() <= usize::MAX,
        strata_error(e.clauses) is None,
        all_positive(e.clauses),
        all_relational(e.clauses),
        all_simple(prepared(e).st.names, e.clauses),
        strata_settle(prepared(e).st, e.now, e.clauses, strata_of(e.clauses), 0),
        ran(e).0.st.names.len() < usize::MAX,
        e.dirty || (a.is_prefix_of(e.st.names) && caught_up(a, e.now, e.clauses, settled(e.st.rels))),
    ensures
        ran(ran(e).0).1 == 0,
        facts(ran(ran(e).0).0.st.rels) == facts(ran(e).0.st.rels),
        ran(ran(e).0).0.st.feed == ran(e).0.st.feed,
{
    run_gives_model(e, a);
    let r = ran(e).0;
    let cs = e.clauses;
    let strata = strata_of(cs);
    let p = prepared(e).st;
    let st1 = if e.dirty {
        rebuilt(e.st, cs, strata, e.ever)
    } else {
        e.st
    };
    if e.dirty {
        lemma_rebuilt(e.st, cs, strata, e.ever);
    }
    lemma_declare_grows(st1, cs, 0);
    crate::stratify::strata_exist(cs);
    let l = choose|l: Map<Seq<char>, nat>| #[trigger]
        crate::stratify::is_levels(cs, l) && crate::stratify::grouped(cs, l, strata);
    assert(leveled(cs, l, strata));
    let f = eval_strata(p, e.now, cs, strata, 0).st;
    lemma_strata_spares(p, e.now, cs, l, strata, 0);
    lemma_not_stale(f, cs, e.mark);
    assert(invalidate(f, e.now, cs, strata, e.mark, strata.len() + 2).st == f);
    assert forall|k: KeyV| #[trigger] holds(r.st.rels, k) <==> holds(f.rels, k) by {
        lemma_same_rows(f.rels, rels_settled(f.rels), k);
    }
    assert forall|i: int| 0 <= i < cs.len() && (#[trigger] cs[i]).is_fact implies is_stated(r.st, cs[i]) by {
        lemma_stated(st1, cs, 0, i, f);
    }
    assert forall|i: int| 0 <= i < cs.len() && !(#[trigger] cs[i]).is_fact implies !aggregates(cs[i]) by {
        assert(is_simple(p.names, cs[i]));
    }
    assert(all_folded(r.st.rels, cs));
    assert(pending_delta(r.st.rels) =~= Set::<KeyV>::empty());
    idle_run(r);
}

/// Law: a run consumes what was pending. After it nothing is pending, the
/// program counts as evaluated, and the additions of the next run count from
/// here.
pub proof fn run_consumes(e: EngineV)
    requires
        rels_wf(e.st.rels),
        strata_error(e.clauses) is None,
    ensures
        pending_delta(ran(e).0.st.rels) == Set::<KeyV>::empty(),
        !ran(e).0.dirty,
        ran(e).0.mark == ran(e).0.st.log.len(),
        ran(e).0.clauses == e.clauses,
        rels_wf(ran(e).0.st.rels),
{
    lemma_formed_upheld();
    assert(formed()(e.st));
    lemma_run_keeps(formed(), e);
    assert(formed()(run_end(e)));
    assert(pending_delta(ran(e).0.st.rels) =~= Set::<KeyV>::empty());
}

/// Law: a run right after another derives nothing and changes no fact, if the
/// first left the facts of the program stored, its aggregates up to date and
/// nothing retracted.
pub proof fn second_run_idle(e: EngineV)
    requires
        rels_wf(e.st.rels),
        e.clauses.len() <= usize::MAX,
        strata_error(e.clauses) is None,
        all_relational(e.clauses),
        facts_stated(ran(e).0.st, e.clauses),
        all_folded(ran(e).0.st.rels, e.clauses),
        ran(e).0.st.retracted == Set::<Seq<char>>::empty(),
    ensures
        ran(ran(e).0).1 == 0,
        facts(ran(ran(e).0).0.st.rels) == facts(ran(e).0.st.rels),
        ran(ran(e).0).0.st.feed == ran(e).0.st.feed,
{
    run_consumes(e);
    idle_run(ran(e).0);
}

// -------------------------------------------------------- what was retracted

/// No rule aggregates.
pub open spec fn no_aggregates(cs: Seq<ClauseV>) -> bool {
    forall|i: int| 0 <= i < cs.len() && !(#[trigger] cs[i]).is_fact ==> !aggregates(cs[i])
}

proof fn lemma_stratum_retracts_none(
    st: StoreV,
    now: i64,
    cs: Seq<ClauseV>,
    l: Map<Seq<char>, nat>,
    strata: Seq<Seq<int>>,
    s: int,
)
    requires
        leveled(cs, l, strata),
        no_aggregates(cs),
        0 <= s < strata.len(),
        rels_wf(st.rels),
    ensures
        eval_stratum_of(st, now, cs, strata[s]).st.retracted == st.retracted,
        rels_wf(eval_stratum_of(st, now, cs, strata[s]).st.rels),
{
    let idx = strata[s];
    lemma_stratum_rules(cs, l, strata, s);
    assert forall|j: int| 0 <= j < idx.len() implies !aggregates(cs[#[trigger] idx[j]]) by {
        assert(0 <= idx[j] < cs.len() && !cs[idx[j]].is_fact);
    }
    fixpoint_extends(st, now, stratum_rules(cs, idx), pending_delta(st.rels));
    lemma_nothing_folded(fixpoint(st, now, stratum_rules(cs, idx), pending_delta(st.rels)).st, cs, idx, 0);
}

proof fn lemma_strata_retract_none(
    st: StoreV,
    now: i64,
    cs: Seq<ClauseV>,
    l: Map<Seq<char>, nat>,
    strata: Seq<Seq<int>>,
    s: int,
)
    requires
        leveled(cs, l, strata),
        no_aggregates(cs),
        0 <= s <= strata.len(),
        rels_wf(st.rels),
    ensures
        eval_strata(st, now, cs, strata, s).st.retracted == st.retracted,
        rels_wf(eval_strata(st, now, cs, strata, s).st.rels),
    decreases strata.len() - s,
{
    if s < strata.len() {
        lemma_stratum_retracts_none(st, now, cs, l, strata, s);
        lemma_strata_retract_none(eval_stratum_of(st, now, cs, strata[s]).st, now, cs, l, strata, s + 1);
    }
}

pub proof fn lemma_clear_retracts_none(st: StoreV, ps: Seq<Seq<char>>)
    requires
        rels_wf(st.rels),
    ensures
        clear_each(st, ps).retracted == st.retracted,
        rels_wf(clear_each(st, ps).rels),
    decreases ps.len(),
{
    if ps.len() > 0 {
        crate::relation::lemma_empty_wf();
        lemma_clear_retracts_none(store_clear(st, ps[0]), ps.drop_first());
    }
}

proof fn lemma_pass_retracts_none(
    sc: ScopeV,
    now: i64,
    cs: Seq<ClauseV>,
    l: Map<Seq<char>, nat>,
    strata: Seq<Seq<int>>,
    s: int,
)
    requires
        leveled(cs, l, strata),
        no_aggregates(cs),
        0 <= s <= strata.len(),
        rels_wf(sc.st.rels),
    ensures
        scope_pass(sc, now, cs, strata, s).st.retracted == sc.st.retracted,
        rels_wf(scope_pass(sc, now, cs, strata, s).st.rels),
    decreases strata.len() - s,
{
    if s < strata.len() {
        let stratum = strata[s];
        let here = scope_here(cs, stratum, sc.to_clear);
        if here != Set::<Seq<char>>::empty() {
            let cleared = clear_each(sc.st, enumerate::<String>(here));
            lemma_clear_retracts_none(sc.st, enumerate::<String>(here));
            let seeded = StoreV { rels: rels_seed_set(cleared.rels, scope_seeds(cs, here)), ..cleared };
            assert(rels_wf(seeded.rels)) by {
                assert forall|n: Seq<char>| #[trigger] seeded.rels.contains_key(n) implies crate::relation::rel_wf(
                    seeded.rels[n],
                ) by {
                    assert(cleared.rels.contains_key(n));
                }
            }
            lemma_declare_grows(seeded, stated_in(cs, here), 0);
            lemma_stratum_retracts_none(declare_facts(seeded, stated_in(cs, here), 0), now, cs, l, strata, s);
        }
        lemma_pass_retracts_none(scope_step(sc, now, cs, strata, stratum), now, cs, l, strata, s + 1);
    }
}

proof fn lemma_passes_retract_none(
    sc: ScopeV,
    now: i64,
    cs: Seq<ClauseV>,
    l: Map<Seq<char>, nat>,
    strata: Seq<Seq<int>>,
    n: nat,
)
    requires
        leveled(cs, l, strata),
        no_aggregates(cs),
        rels_wf(sc.st.rels),
    ensures
        scope_passes(sc, now, cs, strata, n).st.retracted == sc.st.retracted,
        rels_wf(scope_passes(sc, now, cs, strata, n).st.rels),
    decreases n,
{
    if !(n == 0 || sc.to_clear == Set::<Seq<char>>::empty()) {
        lemma_pass_retracts_none(sc, now, cs, l, strata, 0);
        lemma_passes_retract_none(scope_pass(sc, now, cs, strata, 0), now, cs, l, strata, (n - 1) as nat);
    }
}

proof fn lemma_invalidate_forgets(
    st: StoreV,
    now: i64,
    cs: Seq<ClauseV>,
    l: Map<Seq<char>, nat>,
    strata: Seq<Seq<int>>,
    mark: int,
    n: nat,
)
    requires
        leveled(cs, l, strata),
        no_aggregates(cs),
        rels_wf(st.rels),
        n > 0 || st.retracted == Set::<Seq<char>>::empty(),
    ensures
        invalidate(st, now, cs, strata, mark, n).st.retracted == Set::<Seq<char>>::empty(),
    decreases n,
{
    let extra = stale_readers(st, cs, mark);
    if !(n == 0 || (st.retracted == Set::<Seq<char>>::empty() && extra == Set::<Seq<char>>::empty())) {
        let sc = ScopeV {
            st: StoreV { retracted: Set::empty(), ..st },
            to_clear: scope_start(cs, strata, st.retracted, extra),
            derived: 0,
            before: Map::empty(),
        };
        lemma_passes_retract_none(sc, now, cs, l, strata, strata.len() + 2);
        let r = scoped(st, now, cs, strata, extra);
        lemma_invalidate_forgets(r.st, now, cs, l, strata, mark, (n - 1) as nat);
    }
}

/// Law: after a run of a program without aggregates no retraction is left to
/// follow up, and a second run derives nothing and changes no fact, if the
/// facts of the program are stored.
pub proof fn retractions_followed_up(e: EngineV)
    requires
        rels_wf(e.st.rels),
        e.clauses.len() <= usize::MAX,
        strata_error(e.clauses) is None,
        all_relational(e.clauses),
        no_aggregates(e.clauses),
    ensures
        ran(e).0.st.retracted == Set::<Seq<char>>::empty(),
        facts_stated(ran(e).0.st, e.clauses) ==> {
            &&& ran(ran(e).0).1 == 0
            &&& facts(ran(ran(e).0).0.st.rels) == facts(ran(e).0.st.rels)
            &&& ran(ran(e).0).0.st.feed == ran(e).0.st.feed
        },
{
    let cs = e.clauses;
    let strata = strata_of(cs);
    crate::stratify::strata_exist(cs);
    let l = choose|l: Map<Seq<char>, nat>| #[trigger]
        crate::stratify::is_levels(cs, l) && crate::stratify::grouped(cs, l, strata);
    assert(leveled(cs, l, strata));
    let st1 = if e.dirty {
        rebuilt(e.st, cs, strata, e.ever)
    } else {
        e.st
    };
    assert(rels_wf(st1.rels)) by {
        if e.dirty {
            let all = Set::new(|p: Seq<char>| e.ever.contains(p) || in_heads(cs, strata, p));
            let c = clear_each(e.st, enumerate::<String>(all));
            lemma_clear_retracts_none(e.st, enumerate::<String>(all));
            assert forall|n: Seq<char>| #[trigger] st1.rels.contains_key(n) implies crate::relation::rel_wf(st1.rels[n]) by {
                assert(c.rels.contains_key(n));
            }
        }
    }
    lemma_declare_grows(st1, cs, 0);
    let p = prepared(e).st;
    lemma_strata_retract_none(p, e.now, cs, l, strata, 0);
    let ev = eval_strata(p, e.now, cs, strata, 0);
    lemma_invalidate_forgets(ev.st, e.now, cs, l, strata, e.mark, strata.len() + 2);
    if facts_stated(ran(e).0.st, cs) {
        second_run_idle(e);
    }
}

} // verus!

//! Amounts: what the aggregates of a rule are, what the shape of its head says,
//! and what a folded fact is noted with.

use vstd::prelude::*;
use crate::ast::{AggFn, ClauseV, CmpOp, TermV};
use crate::builtins::compared;
use crate::confidence::ONE_BITS;
use crate::evaluate::{
    agg_fns, fold_group, fold_label, fold_values, folded, folded_terms, greatest_is_greatest, group_len, group_rows, group_terms,
    in_group, int_column, least_is_least, lowered, matching, prefix_pattern, retract_others, total,
};
use crate::feed::lemma_retract_facts;
use crate::model::facts;
use crate::notes::{lemma_assert_notes, lemma_row_of, note, witnesses};
use crate::order::lemma_int_column;
use crate::readings::{is_selection, lemma_selection};
use crate::relation::{ann_unit, has_key, row_of, FactV, KeyV, SupportV};
use crate::store::{holds, rels_wf, store_retract, StoreV};
use crate::tally::lemma_retract_others;
use crate::value::Value;

verus! {

// -------------------------------------------------------------------- numbers

/// A row has a number in a column.
pub open spec fn has_number(row: Seq<Value>, at: int, n: i64) -> bool {
    0 <= at < row.len() && row[at] == Value::Int(n)
}

/// Some row has a number in a column.
pub open spec fn some_number(rows: Seq<Seq<Value>>, at: int, n: i64) -> bool {
    exists|j: int| 0 <= j < rows.len() && #[trigger] has_number(rows[j], at, n)
}

proof fn lemma_column(rows: Seq<Seq<Value>>, at: int, n: i64)
    ensures
        int_column(rows, at).contains(n) <==> some_number(rows, at, n),
{
    lemma_int_column(rows, at, n);
    if some_number(rows, at, n) {
        let j = choose|j: int| 0 <= j < rows.len() && #[trigger] has_number(rows[j], at, n);
        assert(at < rows[j].len() && rows[j][at] == Value::Int(n));
    }
    if int_column(rows, at).contains(n) {
        let j = choose|j: int| 0 <= j < rows.len() && at < (#[trigger] rows[j]).len() && rows[j][at] == Value::Int(n);
        assert(has_number(rows[j], at, n));
    }
}

/// Law: the minimum and the maximum of a column are numbers that stand in it, and
/// no number in it is below or above them. A column without numbers has 0.
pub proof fn extremes_mean(rows: Seq<Seq<Value>>, at: int, n: i64)
    ensures
        some_number(rows, at, n) ==> {
            &&& some_number(rows, at, folded(AggFn::Min, rows, at))
            &&& some_number(rows, at, folded(AggFn::Max, rows, at))
            &&& folded(AggFn::Min, rows, at) <= n <= folded(AggFn::Max, rows, at)
        },
        (forall|x: i64| !(#[trigger] some_number(rows, at, x))) ==> folded(AggFn::Min, rows, at) == 0 && folded(AggFn::Max, rows, at) == 0,
{
    let s = int_column(rows, at);
    lemma_column(rows, at, n);
    if some_number(rows, at, n) {
        let i = choose|i: int| 0 <= i < s.len() && s[i] == n;
        least_is_least(s);
        greatest_is_greatest(s);
        assert(s[i] == n);
        lemma_column(rows, at, folded(AggFn::Min, rows, at));
        lemma_column(rows, at, folded(AggFn::Max, rows, at));
    }
    if s.len() > 0 {
        lemma_column(rows, at, s[0]);
        assert(some_number(rows, at, s[0]));
    }
}

/// Law: a sum takes every row. The sum over two lists of rows, one after the
/// other, is the sum of their sums, wrapping around; that of one row is its
/// number, or 0 where it has none, and that of no rows is 0.
pub proof fn sums_split(a: Seq<Seq<Value>>, b: Seq<Seq<Value>>, row: Seq<Value>, at: int)
    ensures
        folded(AggFn::Sum, Seq::empty(), at) == 0,
        forall|n: i64| #[trigger] has_number(row, at, n) ==> folded(AggFn::Sum, seq![row], at) == n,
        (forall|n: i64| !(#[trigger] has_number(row, at, n))) ==> folded(AggFn::Sum, seq![row], at) == 0,
        folded(AggFn::Sum, a + b, at) == folded(AggFn::Sum, a, at).wrapping_add(folded(AggFn::Sum, b, at)),
    decreases b.len(),
{
    let one = seq![row];
    assert(one.drop_last() =~= Seq::empty());
    assert(one.last() == row);
    let none = int_column(Seq::empty(), at);
    if 0 <= at < row.len() {
        if let Value::Int(i) = row[at] {
            assert(has_number(row, at, i));
            let s = int_column(one, at);
            assert(s =~= seq![i]);
            assert(s.drop_last() =~= Seq::empty());
            assert(total(s) == total(Seq::empty()).wrapping_add(i));
        }
    }
    if b.len() == 0 {
        assert(a + b =~= a);
    } else {
        let d = b.drop_last();
        sums_split(a, d, row, at);
        assert((a + b).drop_last() =~= a + d);
        assert((a + b).last() == b.last());
        let r = b.last();
        if 0 <= at < r.len() {
            if let Value::Int(i) = r[at] {
                assert(int_column(a + b, at).drop_last() =~= int_column(a + d, at));
                assert(int_column(b, at).drop_last() =~= int_column(d, at));
                let x = total(int_column(a, at));
                let y = total(int_column(d, at));
                assert(x.wrapping_add(y).wrapping_add(i) == x.wrapping_add(y.wrapping_add(i)));
            }
        }
    }
}

/// The different values in a column.
pub open spec fn different(rows: Seq<Seq<Value>>, at: int) -> Set<Value> {
    Set::new(|v: Value| exists|j: int| 0 <= j < rows.len() && at < (#[trigger] rows[j]).len() && rows[j][at] == v)
}

/// Law: a count is the number of different values in a column.
pub proof fn counts_mean(rows: Seq<Seq<Value>>, at: int)
    ensures
        folded(AggFn::Count, rows, at) == different(rows, at).len() as i64,
{
    assert(crate::evaluate::column(rows, at) =~= different(rows, at));
}

/// Law: two integers are compared as numbers, two values of any kind are equal or
/// not, and of the orders each is the opposite of another.
pub proof fn comparisons_mean(x: i64, y: i64, a: Value, b: Value)
    ensures
        compared(CmpOp::Lt, Value::Int(x), Value::Int(y)) <==> x < y,
        compared(CmpOp::Le, Value::Int(x), Value::Int(y)) <==> x <= y,
        compared(CmpOp::Gt, Value::Int(x), Value::Int(y)) <==> x > y,
        compared(CmpOp::Ge, Value::Int(x), Value::Int(y)) <==> x >= y,
        compared(CmpOp::Eq, a, b) <==> a == b,
        compared(CmpOp::Ne, a, b) <==> a != b,
        compared(CmpOp::Lt, a, b) <==> compared(CmpOp::Gt, b, a),
        compared(CmpOp::Le, a, b) <==> compared(CmpOp::Ge, b, a),
        compared(CmpOp::Lt, a, b) <==> !compared(CmpOp::Ge, a, b),
        compared(CmpOp::Le, a, b) <==> compared(CmpOp::Lt, a, b) || a == b,
{
}

// ---------------------------------------------------------------------- heads

pub open spec fn is_agg_at(args: Seq<TermV>) -> spec_fn(int) -> bool {
    |i: int| args[i] is Agg
}

pub open spec fn is_group_at(args: Seq<TermV>) -> spec_fn(int) -> bool {
    |i: int| !(args[i] is Agg)
}

proof fn lemma_shape(args: Seq<TermV>) -> (r: (Seq<int>, Seq<int>))
    ensures
        is_selection(r.0, args.len() as int, is_group_at(args)),
        is_selection(r.1, args.len() as int, is_agg_at(args)),
        group_terms(args) == Seq::new(r.0.len(), |x: int| args[r.0[x]]),
        folded_terms(args) == Seq::new(r.1.len(), |x: int| *args[r.1[x]]->Agg_1),
        agg_fns(args) == Seq::new(r.1.len(), |x: int| args[r.1[x]]->Agg_0),
        group_len(args) == r.0.len(),
        forall|x: int| 0 <= x < r.0.len() ==> 0 <= #[trigger] r.0[x] < args.len(),
        forall|x: int| 0 <= x < r.1.len() ==> 0 <= #[trigger] r.1[x] < args.len(),
    decreases args.len(),
{
    if args.len() == 0 {
        let r = (Seq::<int>::empty(), Seq::<int>::empty());
        assert(group_terms(args) =~= Seq::new(r.0.len(), |x: int| args[r.0[x]]));
        assert(folded_terms(args) =~= Seq::new(r.1.len(), |x: int| *args[r.1[x]]->Agg_1));
        assert(agg_fns(args) =~= Seq::new(r.1.len(), |x: int| args[r.1[x]]->Agg_0));
        r
    } else {
        let less = args.drop_last();
        let n = less.len() as int;
        let b = lemma_shape(less);
        assert(is_selection(b.0, n, is_group_at(args))) by {
            assert forall|i: int| #[trigger] b.0.contains(i) <==> 0 <= i < n && is_group_at(args)(i) by {
                if 0 <= i < n {
                    assert(less[i] == args[i]);
                }
            }
        }
        assert(is_selection(b.1, n, is_agg_at(args))) by {
            assert forall|i: int| #[trigger] b.1.contains(i) <==> 0 <= i < n && is_agg_at(args)(i) by {
                if 0 <= i < n {
                    assert(less[i] == args[i]);
                }
            }
        }
        lemma_selection(b.0, n, is_group_at(args));
        lemma_selection(b.1, n, is_agg_at(args));
        assert(args[n] == args.last());
        let r = if args.last() is Agg {
            (b.0, b.1.push(n))
        } else {
            (b.0.push(n), b.1)
        };
        assert(group_terms(args) =~= Seq::new(r.0.len(), |x: int| args[r.0[x]]));
        assert(folded_terms(args) =~= Seq::new(r.1.len(), |x: int| *args[r.1[x]]->Agg_1));
        assert(agg_fns(args) =~= Seq::new(r.1.len(), |x: int| args[r.1[x]]->Agg_0));
        r
    }
}

/// Law: the solutions of an aggregating rule list every argument of its head,
/// those that form the group first and what is aggregated behind them, each in
/// order; and a group folds to one value for each aggregate, over the column
/// that belongs to it.
pub proof fn heads_split(c: ClauseV, ci: int, rows: Seq<Seq<Value>>)
    ensures
        exists|at: Seq<int>, by: Seq<int>|
            {
                &&& #[trigger] is_selection(at, c.head.args.len() as int, is_group_at(c.head.args))
                &&& #[trigger] is_selection(by, c.head.args.len() as int, is_agg_at(c.head.args))
                &&& lowered(c, ci).head.args == Seq::new(at.len(), |x: int| c.head.args[at[x]]) + Seq::new(
                    by.len(),
                    |x: int| *c.head.args[by[x]]->Agg_1,
                )
                &&& lowered(c, ci).body == c.body
                &&& group_len(c.head.args) == at.len()
                &&& fold_values(agg_fns(c.head.args), rows) == Seq::new(
                    by.len(),
                    |x: int| Value::Int(folded(c.head.args[by[x]]->Agg_0, rows, x)),
                )
            },
{
    let args = c.head.args;
    let r = lemma_shape(args);
    let at = r.0;
    let by = r.1;
    assert(is_selection(at, args.len() as int, is_group_at(args)) && is_selection(by, args.len() as int, is_agg_at(args)));
    assert(fold_values(agg_fns(args), rows) =~= Seq::new(by.len(), |x: int| Value::Int(folded(args[by[x]]->Agg_0, rows, x))));
}

// --------------------------------------------------------------------- groups

/// A tuple begins with the values of a group.
pub open spec fn begins(keys: Seq<Seq<Value>>, gl: int, g: Seq<Value>) -> spec_fn(int) -> bool {
    |i: int| keys[i].len() >= gl && keys[i].take(gl) == g
}

proof fn lemma_group_rows(keys: Seq<Seq<Value>>, gl: int, g: Seq<Value>, n: int) -> (at: Seq<int>)
    requires
        0 <= n <= keys.len(),
    ensures
        is_selection(at, n, begins(keys, gl, g)),
        keys.take(n).filter(in_group(gl, g)) == Seq::new(at.len(), |x: int| keys[at[x]]),
    decreases n,
{
    let f = in_group(gl, g);
    if n == 0 {
        let at = Seq::<int>::empty();
        assert(keys.take(0) =~= Seq::empty());
        assert(keys.take(0).filter(f) =~= Seq::new(at.len(), |x: int| keys[at[x]])) by {
            reveal(Seq::filter);
        }
        at
    } else {
        let b = lemma_group_rows(keys, gl, g, n - 1);
        let k = keys[n - 1];
        lemma_selection(b, n - 1, begins(keys, gl, g));
        assert(keys.take(n) =~= keys.take(n - 1).push(k));
        keys.take(n - 1).lemma_filter_push(k, f);
        let at = if f(k) {
            b.push(n - 1)
        } else {
            b
        };
        assert(keys.take(n).filter(f) =~= Seq::new(at.len(), |x: int| keys[at[x]]));
        at
    }
}

/// Law: the rows of a group are what follows the values of the group in every
/// solution that begins with them, in order.
pub proof fn groups_complete(keys: Seq<Seq<Value>>, gl: int, g: Seq<Value>)
    ensures
        exists|at: Seq<int>| #[trigger]
            is_selection(at, keys.len() as int, begins(keys, gl, g)) && group_rows(keys, gl, g) == Seq::new(
                at.len(),
                |x: int| keys[at[x]].skip(gl),
            ),
{
    let at = lemma_group_rows(keys, gl, g, keys.len() as int);
    assert(keys.take(keys.len() as int) =~= keys);
    assert(group_rows(keys, gl, g) =~= Seq::new(at.len(), |x: int| keys[at[x]].skip(gl)));
}

// ---------------------------------------------------------------------- notes

/// Law: a fact that is retracted is gone, and every other fact stays, with its
/// note and its witnesses.
pub proof fn retracting_notes(st: StoreV, k: KeyV)
    requires
        rels_wf(st.rels),
    ensures
        ({
            let r = store_retract(st, k).rels;
            &&& rels_wf(r)
            &&& !holds(r, k)
            &&& forall|j: KeyV| j != k ==> (#[trigger] holds(r, j) <==> holds(st.rels, j))
            &&& forall|j: KeyV| j != k && holds(st.rels, j) ==> #[trigger] note(r, j) == note(st.rels, j)
            &&& forall|j: KeyV| j != k && holds(st.rels, j) ==> #[trigger] witnesses(r, j) == witnesses(st.rels, j)
        }),
{
    let r = store_retract(st, k).rels;
    lemma_retract_facts(st, k);
    assert forall|j: KeyV| #[trigger] holds(r, j) <==> holds(st.rels, j) && j != k by {
        assert(facts(r).contains(j) <==> facts(st.rels).remove(k).contains(j));
    }
    assert forall|j: KeyV| j != k && #[trigger] holds(st.rels, j) implies note(r, j) == note(st.rels, j) && witnesses(r, j) == witnesses(
        st.rels,
        j,
    ) by {
        let old = st.rels[j.0];
        let i = row_of(old, j.1);
        assert(old.rows[i].key == j.1);
        if j.0 == k.0 && has_key(old, k.1) {
            let id = row_of(old, k.1);
            assert(old.rows[id].key == k.1);
            let last = old.rows.len() - 1;
            if i == last {
                assert(r[j.0].rows[id] == old.rows[last]);
                lemma_row_of(r, j, id);
            } else {
                assert(r[j.0].rows[i] == old.rows[i]);
                lemma_row_of(r, j, i);
            }
        } else {
            assert(r[j.0].rows == old.rows);
            lemma_row_of(r, j, i);
        }
    }
}

/// Law: a folded fact that is new has full confidence and no sources, and rests
/// on the first solution of its group.
pub proof fn folding_notes(st: StoreV, c: ClauseV, temp: Seq<char>, g: Seq<Value>, rows: Seq<Seq<Value>>)
    requires
        rels_wf(st.rels),
        rows.len() > 0,
        !holds(st.rels, (c.head.pred, g + fold_values(agg_fns(c.head.args), rows))),
    ensures
        ({
            let k = (c.head.pred, g + fold_values(agg_fns(c.head.args), rows));
            let r = fold_group(st, c, temp, g, rows).st.rels;
            &&& holds(r, k)
            &&& note(r, k).conf == ONE_BITS
            &&& note(r, k).prov == Set::<Seq<char>>::empty()
            &&& witnesses(r, k) == seq![SupportV::Rule { rule: fold_label(c), body: seq![(temp, g + rows[0])] }]
        }),
{
    let p = c.head.pred;
    let fns = agg_fns(c.head.args);
    let out = g + fold_values(fns, rows);
    let olds = matching(st.rels, p, prefix_pattern(g, fns.len()));
    let m = retract_others(st, p, olds, out).st;
    lemma_retract_others(st, p, olds, out);
    let support = SupportV::Rule { rule: fold_label(c), body: seq![(temp, g + rows[0])] };
    lemma_assert_notes(m, (p, out), FactV { ann: ann_unit(), supports: seq![support] });
}

} // verus!

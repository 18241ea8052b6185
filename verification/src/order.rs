//! Aggregates do not depend on the order of their rows.

use vstd::prelude::*;
use crate::ast::{AggFn, ClauseV};
use crate::evaluate::{
    agg_fns, column, fold_values, folded, greatest, greatest_is_greatest, group_len, group_rows, in_column, in_group, int_column, least,
    least_is_least, total,
};
use crate::tally::{groups_of, is_tally, tally};
use crate::value::Value;

verus! {

/// Two lists of the same tuples, each listed once.
pub open spec fn same_listed(a: Seq<Seq<Value>>, b: Seq<Seq<Value>>) -> bool {
    &&& a.no_duplicates()
    &&& b.no_duplicates()
    &&& forall|x: Seq<Value>| #[trigger] a.contains(x) <==> b.contains(x)
}

/// What a row adds to the sum of a column.
spec fn share(row: Seq<Value>, at: int) -> int {
    if 0 <= at < row.len() {
        match row[at] {
            Value::Int(i) => i as int,
            Value::Sym(_) => 0,
        }
    } else {
        0
    }
}

spec fn sum_at(rows: Seq<Seq<Value>>, at: int) -> int
    decreases rows.len(),
{
    if rows.len() == 0 {
        0
    } else {
        sum_at(rows.drop_last(), at) + share(rows.last(), at)
    }
}

/// A total is the sum, up to multiples of the number of machine integers.
proof fn lemma_total(rows: Seq<Seq<Value>>, at: int)
    ensures
        (total(int_column(rows, at)) - sum_at(rows, at)) % 0x10000000000000000 == 0,
    decreases rows.len(),
{
    if rows.len() > 0 {
        let d = rows.drop_last();
        lemma_total(d, at);
        let before = int_column(d, at);
        if 0 <= at < rows.last().len() {
            if let Value::Int(i) = rows.last()[at] {
                assert(before.push(i).drop_last() =~= before);
                assert(total(int_column(rows, at)) == total(before).wrapping_add(i));
            }
        }
    }
}

proof fn lemma_sum_remove(rows: Seq<Seq<Value>>, at: int, j: int)
    requires
        0 <= j < rows.len(),
    ensures
        sum_at(rows, at) == sum_at(rows.remove(j), at) + share(rows[j], at),
    decreases rows.len(),
{
    if j == rows.len() - 1 {
        assert(rows.remove(j) =~= rows.drop_last());
    } else {
        lemma_sum_remove(rows.drop_last(), at, j);
        assert(rows.remove(j).drop_last() =~= rows.drop_last().remove(j));
        assert(rows.remove(j).last() == rows.last());
    }
}

proof fn lemma_sum_same(a: Seq<Seq<Value>>, b: Seq<Seq<Value>>, at: int)
    requires
        same_listed(a, b),
    ensures
        sum_at(a, at) == sum_at(b, at),
    decreases a.len(),
{
    if a.len() == 0 {
        if b.len() > 0 {
            assert(b.contains(b[0]));
            assert(a.contains(b[0]));
        }
    } else {
        let x = a.last();
        let d = a.drop_last();
        assert(a[a.len() - 1] == x);
        assert(a.contains(x));
        let j = choose|j: int| 0 <= j < b.len() && b[j] == x;
        let r = b.remove(j);
        assert forall|y: Seq<Value>| #[trigger] d.contains(y) <==> r.contains(y) by {
            if d.contains(y) {
                let i = choose|i: int| 0 <= i < d.len() && d[i] == y;
                assert(a[i] == y && y != x);
                assert(a.contains(y));
                let k = choose|k: int| 0 <= k < b.len() && b[k] == y;
                if k < j {
                    assert(r[k] == y);
                } else {
                    assert(r[k - 1] == y);
                }
            }
            if r.contains(y) {
                let i = choose|i: int| 0 <= i < r.len() && r[i] == y;
                let k = if i < j {
                    i
                } else {
                    i + 1
                };
                assert(b[k] == y && k != j);
                assert(b.contains(y));
                assert(a.contains(y));
                let m = choose|m: int| 0 <= m < a.len() && a[m] == y;
                assert(d[m] == y);
            }
        }
        lemma_sum_same(d, r, at);
        lemma_sum_remove(b, at, j);
    }
}

pub proof fn lemma_int_column(rows: Seq<Seq<Value>>, at: int, n: i64)
    ensures
        int_column(rows, at).contains(n) <==> 0 <= at && in_column(rows, at, Value::Int(n)),
    decreases rows.len(),
{
    let s = int_column(rows, at);
    if rows.len() > 0 {
        let d = rows.drop_last();
        let before = int_column(d, at);
        lemma_int_column(d, at, n);
        if s.contains(n) {
            let i = choose|i: int| 0 <= i < s.len() && s[i] == n;
            if i < before.len() {
                assert(before[i] == n);
                assert(before.contains(n));
                let j = choose|j: int| 0 <= j < d.len() && at < (#[trigger] d[j]).len() && d[j][at] == Value::Int(n);
                assert(rows[j] == d[j]);
            } else {
                assert(rows[rows.len() - 1][at] == Value::Int(n));
            }
        }
        if 0 <= at && in_column(rows, at, Value::Int(n)) {
            let j = choose|j: int| 0 <= j < rows.len() && at < (#[trigger] rows[j]).len() && rows[j][at] == Value::Int(n);
            if j < d.len() {
                assert(d[j] == rows[j]);
                let i = choose|i: int| 0 <= i < before.len() && before[i] == n;
                assert(s[i] == n);
            } else {
                assert(s[before.len() as int] == n);
            }
        }
    }
}

proof fn lemma_in_column_same(a: Seq<Seq<Value>>, b: Seq<Seq<Value>>, at: int, v: Value)
    requires
        same_listed(a, b),
        in_column(a, at, v),
    ensures
        in_column(b, at, v),
{
    let j = choose|j: int| 0 <= j < a.len() && at < (#[trigger] a[j]).len() && a[j][at] == v;
    assert(a.contains(a[j]));
    let k = choose|k: int| 0 <= k < b.len() && b[k] == a[j];
    assert(b[k][at] == v);
}

proof fn lemma_listed_back(a: Seq<Seq<Value>>, b: Seq<Seq<Value>>)
    requires
        same_listed(a, b),
    ensures
        same_listed(b, a),
{
}

/// Law: an aggregate depends on the rows of its group alone, not on their
/// order.
pub proof fn folds_alike(f: AggFn, a: Seq<Seq<Value>>, b: Seq<Seq<Value>>, at: int)
    requires
        same_listed(a, b),
        0 <= at,
    ensures
        folded(f, a, at) == folded(f, b, at),
{
    lemma_listed_back(a, b);
    let x = int_column(a, at);
    let y = int_column(b, at);
    assert forall|v: Value| #[trigger] in_column(a, at, v) <==> in_column(b, at, v) by {
        if in_column(a, at, v) {
            lemma_in_column_same(a, b, at, v);
        }
        if in_column(b, at, v) {
            lemma_in_column_same(b, a, at, v);
        }
    }
    assert forall|n: i64| #[trigger] x.contains(n) <==> y.contains(n) by {
        lemma_int_column(a, at, n);
        lemma_int_column(b, at, n);
    }
    match f {
        AggFn::Count => {
            assert(column(a, at) =~= column(b, at));
        },
        AggFn::Sum => {
            lemma_total(a, at);
            lemma_total(b, at);
            lemma_sum_same(a, b, at);
        },
        _ => {
            if x.len() > 0 {
                assert(x.contains(x[0]));
                assert(y.contains(x[0]));
                least_is_least(x);
                least_is_least(y);
                greatest_is_greatest(x);
                greatest_is_greatest(y);
                assert(y.contains(least(x)) && x.contains(least(y)));
                assert(y.contains(greatest(x)) && x.contains(greatest(y)));
            } else if y.len() > 0 {
                assert(y.contains(y[0]));
                assert(x.contains(y[0]));
            }
        },
    }
}

/// The rows of a group are the same where the tuples are.
proof fn lemma_group_rows_same(a: Seq<Seq<Value>>, b: Seq<Seq<Value>>, gl: int, g: Seq<Value>)
    requires
        same_listed(a, b),
        0 <= gl,
    ensures
        same_listed(group_rows(a, gl, g), group_rows(b, gl, g)),
{
    lemma_listed_back(a, b);
    lemma_group_rows_once(a, gl, g);
    lemma_group_rows_once(b, gl, g);
    assert forall|x: Seq<Value>| #[trigger] group_rows(a, gl, g).contains(x) <==> group_rows(b, gl, g).contains(x) by {
        if group_rows(a, gl, g).contains(x) {
            lemma_group_row(a, b, gl, g, x);
        }
        if group_rows(b, gl, g).contains(x) {
            lemma_group_row(b, a, gl, g, x);
        }
    }
}

proof fn lemma_group_row(a: Seq<Seq<Value>>, b: Seq<Seq<Value>>, gl: int, g: Seq<Value>, x: Seq<Value>)
    requires
        same_listed(a, b),
        group_rows(a, gl, g).contains(x),
    ensures
        group_rows(b, gl, g).contains(x),
{
    let f = in_group(gl, g);
    let ra = a.filter(f);
    let rb = b.filter(f);
    let i = choose|i: int| 0 <= i < group_rows(a, gl, g).len() && group_rows(a, gl, g)[i] == x;
    a.lemma_filter_pred(f, i);
    assert(ra.contains(ra[i]));
    a.lemma_filter_contains_rev(f, ra[i]);
    assert(a.contains(ra[i]) && f(ra[i]));
    let j = choose|j: int| 0 <= j < b.len() && b[j] == ra[i];
    b.lemma_filter_contains(f, j);
    let k = choose|k: int| 0 <= k < rb.len() && rb[k] == ra[i];
    assert(group_rows(b, gl, g)[k] == x);
}

proof fn lemma_group_rows_once(a: Seq<Seq<Value>>, gl: int, g: Seq<Value>)
    requires
        a.no_duplicates(),
        0 <= gl,
    ensures
        group_rows(a, gl, g).no_duplicates(),
{
    let f = in_group(gl, g);
    let ra = a.filter(f);
    let rows = group_rows(a, gl, g);
    lemma_filter_once(a, f);
    assert forall|i: int, j: int| 0 <= i < rows.len() && 0 <= j < rows.len() && i != j implies rows[i] != rows[j] by {
        a.lemma_filter_pred(f, i);
        a.lemma_filter_pred(f, j);
        if rows[i] == rows[j] {
            assert(ra[i] =~= ra[i].take(gl) + ra[i].skip(gl));
            assert(ra[j] =~= ra[j].take(gl) + ra[j].skip(gl));
            assert(ra[i] == ra[j]);
        }
    }
}

proof fn lemma_filter_once(a: Seq<Seq<Value>>, f: spec_fn(Seq<Value>) -> bool)
    requires
        a.no_duplicates(),
    ensures
        a.filter(f).no_duplicates(),
    decreases a.len(),
{
    reveal(Seq::filter);
    if a.len() > 0 {
        let d = a.drop_last();
        lemma_filter_once(d, f);
        assert forall|i: int| 0 <= i < d.filter(f).len() implies #[trigger] d.filter(f)[i] != a.last() by {
            assert(d.filter(f).contains(d.filter(f)[i]));
            d.lemma_filter_contains_rev(f, d.filter(f)[i]);
            let j = choose|j: int| 0 <= j < d.len() && d[j] == d.filter(f)[i];
            assert(a[j] != a[a.len() - 1]);
        }
    }
}

/// What a group folds to depends on the solutions alone, not on their order.
proof fn lemma_tally_alike(c: ClauseV, a: Seq<Seq<Value>>, b: Seq<Seq<Value>>, key: Seq<Value>)
    requires
        same_listed(a, b),
        is_tally(c, a, key),
    ensures
        is_tally(c, b, key),
{
    let gl = group_len(c.head.args) as int;
    let g = choose|g: Seq<Value>| #[trigger] groups_of(c, a).contains(g) && key == tally(c, a, g);
    let i = choose|i: int| 0 <= i < a.len() && #[trigger] in_group(gl, g)(a[i]);
    assert(a.contains(a[i]));
    let j = choose|j: int| 0 <= j < b.len() && b[j] == a[i];
    assert(in_group(gl, g)(b[j]));
    assert(groups_of(c, b).contains(g));
    lemma_group_rows_same(a, b, gl, g);
    let fns = agg_fns(c.head.args);
    assert(fold_values(fns, group_rows(a, gl, g)) =~= fold_values(fns, group_rows(b, gl, g))) by {
        assert forall|k: int| 0 <= k < fns.len() implies #[trigger] folded(fns[k], group_rows(a, gl, g), k) == folded(
            fns[k],
            group_rows(b, gl, g),
            k,
        ) by {
            folds_alike(fns[k], group_rows(a, gl, g), group_rows(b, gl, g), k);
        }
    }
    assert(key == tally(c, b, g));
}

/// Law: the facts that the solutions of a rule fold to do not depend on the
/// order of the solutions.
pub proof fn tallies_alike(c: ClauseV, a: Seq<Seq<Value>>, b: Seq<Seq<Value>>)
    requires
        same_listed(a, b),
    ensures
        forall|key: Seq<Value>| #[trigger] is_tally(c, a, key) <==> is_tally(c, b, key),
{
    lemma_listed_back(a, b);
    assert forall|key: Seq<Value>| #[trigger] is_tally(c, a, key) <==> is_tally(c, b, key) by {
        if is_tally(c, a, key) {
            lemma_tally_alike(c, a, b, key);
        }
        if is_tally(c, b, key) {
            lemma_tally_alike(c, b, a, key);
        }
    }
}

} // verus!

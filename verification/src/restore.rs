//! What a memory is after it was saved and loaded.

use vstd::prelude::*;
use crate::agent::{fresh_engine, memory_of, rules_installed, MemoryV};
use crate::confidence::{clamp, unit_bits};
use crate::engine::{declared, engine_new, engine_wf, ran, EngineV};
use crate::frame::{run_keeps_base, same_facts, written_preds};
use crate::intern::{interned, with_name};
use crate::policy::with_symbol;
use crate::query::derived_pred;
use crate::relation::{has_key, lemma_insert_wf, rel_insert, rel_wf, row_of, AnnV, FactV, KeyV, RelV, RowV, SupportV};
use crate::reload::{arg_of, base_records, fits, kept, pred_fits, record_of, snapshot_reads_back};
use crate::rules::installed;
use crate::snapshot::{batches_installed, loaded, resolved, snapshot_text, with_record, with_records, with_rules, ArgV, FactRecordV, SnapshotV};
use crate::solve::{lemma_prefix_trans, lemma_store_assert};
use crate::sorted_set::{enumerate, lemma_enumerable, Item};
use crate::store::{holds, rel_at, rels_wf, StoreV};
use crate::value::{Sym, Value};

verus! {

/// The symbols of a tuple are known.
pub open spec fn known_key(names: Seq<Seq<char>>, key: Seq<Value>) -> bool {
    forall|i: int| 0 <= i < key.len() ==> known_value(names, #[trigger] key[i])
}

pub open spec fn known_value(names: Seq<Seq<char>>, v: Value) -> bool {
    match v {
        Value::Sym(s) => s.0 < names.len(),
        Value::Int(_) => true,
    }
}

/// A tuple as a snapshot records it.
pub open spec fn args_of_key(names: Seq<Seq<char>>, key: Seq<Value>) -> Seq<ArgV> {
    key.map_values(|v: Value| arg_of(names, v))
}

/// A tuple with known symbols stands for the recorded arguments.
pub open spec fn denotes(names: Seq<Seq<char>>, key: Seq<Value>, args: Seq<ArgV>) -> bool {
    known_key(names, key) && args_of_key(names, key) == args
}

/// The annotation that a record states.
pub open spec fn ann_in(f: FactRecordV) -> AnnV {
    AnnV { conf: clamp(f.conf), prov: f.prov.to_set() }
}

/// The tuple is the recorded fact: predicate, arguments and annotation.
pub open spec fn is_recorded(st: StoreV, key: Seq<Value>, f: FactRecordV) -> bool {
    &&& holds(st.rels, (f.pred, key))
    &&& denotes(st.names, key, f.args)
    &&& st.rels[f.pred].rows[row_of(st.rels[f.pred], key)].fact.ann == ann_in(f)
}

/// The record is a fact of the store.
pub open spec fn recorded(st: StoreV, f: FactRecordV) -> bool {
    exists|key: Seq<Value>| is_recorded(st, key, f)
}

/// The tuple of a predicate is among the first `n` records.
pub open spec fn from_records(st: StoreV, k: KeyV, fs: Seq<FactRecordV>, n: int) -> bool {
    exists|j: int| 0 <= j < n && (#[trigger] fs[j]).pred == k.0 && denotes(st.names, k.1, fs[j].args)
}

/// The base facts of an engine are the recorded ones, with their annotations.
pub open spec fn base_facts_are(e: EngineV, fs: Seq<FactRecordV>) -> bool {
    &&& forall|j: int| 0 <= j < fs.len() && !derived_pred(e, fs[j].pred) ==> recorded(e.st, #[trigger] fs[j])
    &&& forall|k: KeyV| #[trigger]
        holds(e.st.rels, k) && !derived_pred(e, k.0) ==> from_records(e.st, k, fs, fs.len() as int)
}

/// The facts of every predicate that the program has no clause of, nor ever
/// had a rule of, are the recorded ones, with their annotations.
pub open spec fn plain_facts_are(e: EngineV, fs: Seq<FactRecordV>) -> bool {
    &&& forall|j: int| 0 <= j < fs.len() && !written_preds(e).contains(fs[j].pred) ==> recorded(e.st, #[trigger] fs[j])
    &&& forall|k: KeyV| #[trigger]
        holds(e.st.rels, k) && !written_preds(e).contains(k.0) ==> from_records(e.st, k, fs, fs.len() as int)
}

/// No fact is recorded twice.
pub open spec fn records_distinct(fs: Seq<FactRecordV>) -> bool {
    forall|i: int, j: int|
        0 <= i < j < fs.len() ==> (#[trigger] fs[i]).pred != (#[trigger] fs[j]).pred || fs[i].args != fs[j].args
}

// ------------------------------------------------------------------ symbols

proof fn lemma_with_name_prefix(names: Seq<Seq<char>>, s: Seq<char>)
    ensures
        names.is_prefix_of(with_name(names, s)),
{
    assert(names =~= with_name(names, s).subrange(0, names.len() as int));
}

/// What is known stays known when names are added.
proof fn lemma_denotes_grows(a: Seq<Seq<char>>, b: Seq<Seq<char>>, key: Seq<Value>, args: Seq<ArgV>)
    requires
        a.is_prefix_of(b),
        denotes(a, key, args),
    ensures
        denotes(b, key, args),
{
    assert forall|i: int| 0 <= i < key.len() implies known_value(b, #[trigger] key[i]) && arg_of(b, key[i]) == arg_of(a, key[i]) by {
        assert(known_value(a, key[i]));
        if let Value::Sym(s) = key[i] {
            assert(a[s.0 as int] == b[s.0 as int]);
        }
    }
    assert(args_of_key(b, key) =~= args_of_key(a, key));
}

/// Two tuples that stand for the same arguments are one.
proof fn lemma_denotes_unique(names: Seq<Seq<char>>, a: Seq<Value>, b: Seq<Value>, args: Seq<ArgV>)
    requires
        names.no_duplicates(),
        denotes(names, a, args),
        denotes(names, b, args),
    ensures
        a == b,
{
    assert(args_of_key(names, a).len() == args_of_key(names, b).len());
    assert forall|i: int| 0 <= i < a.len() implies a[i] == b[i] by {
        assert(args_of_key(names, a)[i] == args_of_key(names, b)[i]);
        assert(known_value(names, a[i]) && known_value(names, b[i]));
    }
    assert(a =~= b);
}

proof fn lemma_resolved(e: EngineV, args: Seq<ArgV>, i: int, acc: Seq<Value>)
    requires
        0 <= i <= args.len(),
        acc.len() == i,
        denotes(e.st.names, acc, args.take(i)),
        e.st.names.no_duplicates(),
        resolved(e, args, i, acc).0.st.names.len() < usize::MAX,
    ensures
        ({
            let r = resolved(e, args, i, acc);
            &&& denotes(r.0.st.names, r.1, args)
            &&& e.st.names.is_prefix_of(r.0.st.names)
            &&& r.0.st.names.no_duplicates()
            &&& r.0 == (EngineV { st: StoreV { names: r.0.st.names, ..e.st }, ..e })
        }),
    decreases args.len() - i,
{
    if i < args.len() {
        match args[i] {
            ArgV::S(name) => {
                let v = Value::Sym(interned(e.st.names, name));
                let e1 = with_symbol(e, name);
                let names = e1.st.names;
                let r = resolved(e1, args, i + 1, acc.push(v));
                lemma_with_name_prefix(e.st.names, name);
                lemma_resolved_prefix(e1, args, i + 1, acc.push(v));
                crate::intern::intern_reads_back(e.st.names, name);
                lemma_denotes_grows(e.st.names, names, acc, args.take(i));
                assert(known_value(names, v));
                assert(args_of_key(names, acc.push(v)) =~= args.take(i + 1)) by {
                    assert(args.take(i + 1) =~= args.take(i).push(args[i]));
                    assert(args_of_key(names, acc.push(v)) =~= args_of_key(names, acc).push(arg_of(names, v)));
                }
                assert forall|k: int| 0 <= k < acc.push(v).len() implies known_value(names, #[trigger] acc.push(v)[k]) by {
                    if k < acc.len() {
                        assert(acc.push(v)[k] == acc[k]);
                    }
                }
                lemma_resolved(e1, args, i + 1, acc.push(v));
                lemma_prefix_trans(e.st.names, names, r.0.st.names);
            },
            ArgV::I(n) => {
                let v = Value::Int(n);
                let names = e.st.names;
                assert(args_of_key(names, acc.push(v)) =~= args.take(i + 1)) by {
                    assert(args.take(i + 1) =~= args.take(i).push(args[i]));
                    assert(args_of_key(names, acc.push(v)) =~= args_of_key(names, acc).push(arg_of(names, v)));
                }
                assert forall|k: int| 0 <= k < acc.push(v).len() implies known_value(names, #[trigger] acc.push(v)[k]) by {
                    if k < acc.len() {
                        assert(acc.push(v)[k] == acc[k]);
                    }
                }
                lemma_resolved(e, args, i + 1, acc.push(v));
            },
        }
    } else {
        assert(args.take(i) =~= args);
        assert(e.st.names =~= e.st.names.subrange(0, e.st.names.len() as int));
    }
}

pub proof fn lemma_resolved_prefix(e: EngineV, args: Seq<ArgV>, i: int, acc: Seq<Value>)
    ensures
        e.st.names.is_prefix_of(resolved(e, args, i, acc).0.st.names),
    decreases args.len() - i,
{
    assert(e.st.names =~= e.st.names.subrange(0, e.st.names.len() as int));
    if 0 <= i < args.len() {
        match args[i] {
            ArgV::S(name) => {
                let e1 = with_symbol(e, name);
                let v = Value::Sym(interned(e.st.names, name));
                lemma_with_name_prefix(e.st.names, name);
                lemma_resolved_prefix(e1, args, i + 1, acc.push(v));
                lemma_prefix_trans(e.st.names, e1.st.names, resolved(e1, args, i + 1, acc.push(v)).0.st.names);
            },
            ArgV::I(n) => {
                lemma_resolved_prefix(e, args, i + 1, acc.push(Value::Int(n)));
            },
        }
    }
}

// ------------------------------------------------------------------ records

/// A fact that was asserted anew, and the facts beside it.
proof fn lemma_declared(st: StoreV, k: KeyV, ann: AnnV)
    requires
        rels_wf(st.rels),
        !holds(st.rels, k),
    ensures
        ({
            let st2 = declared(st, k, ann);
            &&& rels_wf(st2.rels)
            &&& holds(st2.rels, k)
            &&& st2.rels[k.0].rows[row_of(st2.rels[k.0], k.1)].fact.ann == ann
            &&& st2.names == st.names
            &&& forall|j: KeyV| #[trigger] holds(st2.rels, j) ==> j == k || holds(st.rels, j)
            &&& forall|j: KeyV| #[trigger] holds(st.rels, j) ==> holds(st2.rels, j) && st2.rels[j.0].rows[row_of(
                st2.rels[j.0],
                j.1,
            )].fact == st.rels[j.0].rows[row_of(st.rels[j.0], j.1)].fact
        }),
{
    let f = FactV { ann, supports: seq![SupportV::Base] };
    lemma_store_assert(st, k, f);
    let st2 = declared(st, k, ann);
    let r = rel_at(st.rels, k.0);
    let r2 = rel_insert(r, k.1, f);
    crate::relation::lemma_empty_wf();
    assert(!has_key(r, k.1)) by {
        if has_key(r, k.1) {
            assert(st.rels.contains_key(k.0));
        }
    }
    let n = r.rows.len() as int;
    assert(r2.rows[n].key == k.1);
    assert(rel_wf(r2)) by {
        lemma_insert_wf(r, k.1, f);
    }
    assert(row_of(r2, k.1) == n) by {
        let i = row_of(r2, k.1);
        if i != n {
            assert(r2.rows[i].key == k.1 && r2.rows[n].key == k.1);
        }
    }
    assert forall|j: KeyV| #[trigger] holds(st2.rels, j) implies j == k || holds(st.rels, j) by {
        if j.0 == k.0 {
            let i = choose|i: int| 0 <= i < r2.rows.len() && (#[trigger] r2.rows[i]).key == j.1;
            if i < n {
                assert(r.rows[i].key == j.1);
                assert(has_key(r, j.1));
                assert(st.rels.contains_key(k.0));
            }
        }
    }
    assert forall|j: KeyV| #[trigger] holds(st.rels, j) implies holds(st2.rels, j) && st2.rels[j.0].rows[row_of(
        st2.rels[j.0],
        j.1,
    )].fact == st.rels[j.0].rows[row_of(st.rels[j.0], j.1)].fact by {
        if j.0 == k.0 {
            let i = row_of(r, j.1);
            assert(r2.rows[i] == r.rows[i]);
            assert(has_key(r2, j.1));
            let i2 = row_of(r2, j.1);
            assert(i2 == i) by {
                if i2 != i {
                    assert(r2.rows[i2].key == r2.rows[i].key);
                }
            }
        }
    }
}

/// What holds after the first `n` records were asserted.
spec fn asserted(st: StoreV, fs: Seq<FactRecordV>, n: int) -> bool {
    &&& rels_wf(st.rels)
    &&& st.names.no_duplicates()
    &&& forall|j: int| 0 <= j < n ==> recorded(st, #[trigger] fs[j])
    &&& forall|k: KeyV| #[trigger] holds(st.rels, k) ==> from_records(st, k, fs, n)
}

proof fn lemma_with_record(e: EngineV, fs: Seq<FactRecordV>, n: int)
    requires
        0 <= n < fs.len(),
        records_distinct(fs),
        asserted(e.st, fs, n),
        with_record(e, fs[n]).st.names.len() < usize::MAX,
    ensures
        asserted(with_record(e, fs[n]).st, fs, n + 1),
        with_record(e, fs[n]) == (EngineV { st: with_record(e, fs[n]).st, ..e }),
{
    let f = fs[n];
    let r = resolved(e, f.args, 0, Seq::empty());
    assert(args_of_key(e.st.names, Seq::empty()) =~= f.args.take(0));
    lemma_resolved(e, f.args, 0, Seq::empty());
    let st1 = r.0.st;
    let k = (f.pred, r.1);
    assert(st1.rels == e.st.rels);
    assert forall|j: KeyV| #[trigger] holds(st1.rels, j) implies from_records(st1, j, fs, n) by {
        assert(holds(e.st.rels, j));
        let i = choose|i: int| 0 <= i < n && (#[trigger] fs[i]).pred == j.0 && denotes(e.st.names, j.1, fs[i].args);
        lemma_denotes_grows(e.st.names, st1.names, j.1, fs[i].args);
    }
    assert(!holds(st1.rels, k)) by {
        if holds(st1.rels, k) {
            let i = choose|i: int| 0 <= i < n && (#[trigger] fs[i]).pred == k.0 && denotes(st1.names, k.1, fs[i].args);
            assert(fs[i].args == fs[n].args);
        }
    }
    let ann = ann_in(f);
    lemma_declared(st1, k, ann);
    let st2 = declared(st1, k, ann);
    assert(with_record(e, f).st == st2);
    assert forall|j: int| 0 <= j < n + 1 implies recorded(st2, #[trigger] fs[j]) by {
        if j < n {
            let key = choose|key: Seq<Value>| is_recorded(e.st, key, fs[j]);
            lemma_denotes_grows(e.st.names, st2.names, key, fs[j].args);
            assert(holds(st1.rels, (fs[j].pred, key)));
            assert(holds(st2.rels, (fs[j].pred, key)));
            assert(is_recorded(st2, key, fs[j]));
        } else {
            assert(is_recorded(st2, r.1, fs[j]));
        }
    }
    assert forall|j: KeyV| #[trigger] holds(st2.rels, j) implies from_records(st2, j, fs, n + 1) by {
        if holds(st1.rels, j) {
            let i = choose|i: int| 0 <= i < n && (#[trigger] fs[i]).pred == j.0 && denotes(st1.names, j.1, fs[i].args);
            assert(0 <= i < n + 1 && fs[i].pred == j.0);
        } else {
            assert(j == k);
            assert(fs[n].pred == j.0 && denotes(st2.names, j.1, fs[n].args));
        }
    }
}

/// Names only grow while records are asserted.
proof fn lemma_records_names(e: EngineV, fs: Seq<FactRecordV>, i: int)
    ensures
        e.st.names.is_prefix_of(with_records(e, fs, i).st.names),
    decreases fs.len() - i,
{
    assert(e.st.names =~= e.st.names.subrange(0, e.st.names.len() as int));
    if 0 <= i < fs.len() {
        let e1 = with_record(e, fs[i]);
        lemma_resolved_prefix(e, fs[i].args, 0, Seq::empty());
        lemma_records_names(e1, fs, i + 1);
        lemma_prefix_trans(e.st.names, e1.st.names, with_records(e1, fs, i + 1).st.names);
    }
}

proof fn lemma_with_records(e: EngineV, fs: Seq<FactRecordV>, n: int)
    requires
        0 <= n <= fs.len(),
        records_distinct(fs),
        asserted(e.st, fs, n),
        with_records(e, fs, n).st.names.len() < usize::MAX,
    ensures
        asserted(with_records(e, fs, n).st, fs, fs.len() as int),
        with_records(e, fs, n) == (EngineV { st: with_records(e, fs, n).st, ..e }),
    decreases fs.len() - n,
{
    if n < fs.len() {
        lemma_records_names(with_record(e, fs[n]), fs, n + 1);
        lemma_with_record(e, fs, n);
        lemma_with_records(with_record(e, fs[n]), fs, n + 1);
    }
}

// -------------------------------------------------------------------- rules

pub proof fn lemma_batches_store(m: MemoryV, sources: Seq<Seq<char>>, i: int)
    requires
        batches_installed(m, sources, i) is Ok,
    ensures
        batches_installed(m, sources, i)->Ok_0.engine.st == m.engine.st,
        batches_installed(m, sources, i)->Ok_0.engine.mark == m.engine.mark,
        batches_installed(m, sources, i)->Ok_0.rules == m.rules,
    decreases sources.len() - i,
{
    if 0 <= i < sources.len() {
        let r = rules_installed(m, sources[i]);
        lemma_batches_store(r->Ok_0.0, sources, i + 1);
    }
}

/// The sources of batches are not installed already: each differs from those
/// before it and from every installed one.
pub open spec fn new_sources(e: EngineV, sources: Seq<Seq<char>>) -> bool {
    &&& forall|i: int, j: int| 0 <= i < j < sources.len() ==> #[trigger] sources[i] != #[trigger] sources[j]
    &&& forall|i: int, b: int|
        0 <= i < sources.len() && 0 <= b < e.batches.len() ==> #[trigger] sources[i] != (#[trigger] e.batches[b]).1
}

proof fn lemma_batch_with_none(bs: Seq<crate::engine::BatchV>, src: Seq<char>, i: int)
    requires
        0 <= i,
        forall|b: int| 0 <= b < bs.len() ==> (#[trigger] bs[b]).1 != src,
    ensures
        crate::agent::batch_with(bs, src, i) is None,
    decreases bs.len() - i,
{
    if i < bs.len() {
        lemma_batch_with_none(bs, src, i + 1);
    }
}

/// New batches are remembered in their order.
proof fn lemma_batches_dynamic(m: MemoryV, sources: Seq<Seq<char>>, i: int)
    requires
        0 <= i <= sources.len(),
        new_sources(m.engine, sources.skip(i)),
        batches_installed(m, sources, i) is Ok,
    ensures
        batches_installed(m, sources, i)->Ok_0.dynamic.map_values(|p: (Seq<char>, Seq<char>)| p.1) == m.dynamic.map_values(
            |p: (Seq<char>, Seq<char>)| p.1,
        ) + sources.skip(i),
    decreases sources.len() - i,
{
    let snd = |p: (Seq<char>, Seq<char>)| p.1;
    if i < sources.len() {
        let t = sources.skip(i);
        let src = sources[i];
        assert(t[0] == src);
        lemma_batch_with_none(m.engine.batches, src, 0);
        let r = rules_installed(m, src)->Ok_0;
        let u = sources.skip(i + 1);
        assert(new_sources(r.0.engine, u)) by {
            assert forall|a: int, b: int| 0 <= a < b < u.len() implies #[trigger] u[a] != #[trigger] u[b] by {
                assert(u[a] == t[a + 1] && u[b] == t[b + 1]);
            }
            assert forall|a: int, b: int| 0 <= a < u.len() && 0 <= b < r.0.engine.batches.len() implies #[trigger] u[a] != (
            #[trigger] r.0.engine.batches[b]).1 by {
                assert(u[a] == t[a + 1]);
                if b < m.engine.batches.len() {
                    assert(r.0.engine.batches[b] == m.engine.batches[b]);
                } else {
                    assert(r.0.engine.batches[b].1 == src);
                    assert(t[0] != t[a + 1]);
                }
            }
        }
        lemma_batches_dynamic(r.0, sources, i + 1);
        assert(r.0.dynamic.map_values(snd) + u =~= m.dynamic.map_values(snd) + t);
    } else {
        assert(m.dynamic.map_values(snd) + sources.skip(i) =~= m.dynamic.map_values(snd));
    }
}

// --------------------------------------------------------------------- laws

/// The facts of a memory are in order: names are distinct, facts speak of
/// known symbols, and there are finitely many sources.
pub open spec fn in_order(e: EngineV) -> bool {
    &&& rels_wf(e.st.rels)
    &&& e.st.rels.dom().finite()
    &&& e.st.names.no_duplicates()
    &&& forall|k: KeyV| #[trigger] holds(e.st.rels, k) ==> known_key(e.st.names, k.1)
    &&& forall|p: Seq<char>, i: int|
        e.st.rels.contains_key(p) && 0 <= i < e.st.rels[p].rows.len() ==> (#[trigger] e.st.rels[p].rows[i]).fact.ann.prov.finite()
            && unit_bits(e.st.rels[p].rows[i].fact.ann.conf)
}

/// The position of a record: its predicate and its row.
proof fn lemma_record_source(e: EngineV, ps: Seq<Seq<char>>, n: int, j: int) -> (r: (int, int))
    requires
        0 <= n <= ps.len(),
        0 <= j < base_records(e, ps, n).len(),
    ensures
        0 <= r.0 < n,
        !derived_pred(e, ps[r.0]),
        0 <= r.1 < e.st.rels[ps[r.0]].rows.len(),
        base_records(e, ps, n)[j] == record_of(e.st.names, ps[r.0], e.st.rels[ps[r.0]].rows[r.1]),
        j < base_records(e, ps, r.0 + 1).len(),
        j >= base_records(e, ps, r.0).len(),
        r.1 == j - base_records(e, ps, r.0).len(),
    decreases n,
{
    let a = base_records(e, ps, n - 1);
    if derived_pred(e, ps[n - 1]) || j < a.len() {
        let r = lemma_record_source(e, ps, n - 1, j);
        if !derived_pred(e, ps[n - 1]) {
            assert(base_records(e, ps, n)[j] == a[j]);
        }
        r
    } else {
        (n - 1, j - a.len())
    }
}

proof fn lemma_ann_back(row: RowV, f: FactRecordV)
    requires
        row.fact.ann.prov.finite(),
        unit_bits(row.fact.ann.conf),
        f.conf == row.fact.ann.conf,
        f.prov == enumerate::<String>(row.fact.ann.prov),
    ensures
        ann_in(f) == row.fact.ann,
{
    lemma_enumerable::<String>(row.fact.ann.prov);
}

/// Every record of a base fact is one, and no fact is recorded twice.
proof fn lemma_kept_facts(e: EngineV)
    requires
        in_order(e),
    ensures
        ({
            let ps = enumerate::<String>(e.st.rels.dom());
            let fs = base_records(e, ps, ps.len() as int);
            records_distinct(fs) && base_facts_are(e, fs)
        }),
{
    let ps = enumerate::<String>(e.st.rels.dom());
    let n = ps.len() as int;
    let fs = base_records(e, ps, n);
    let names = e.st.names;
    lemma_enumerable::<String>(e.st.rels.dom());
    assert forall|i: int| 0 <= i < n implies e.st.rels.contains_key(#[trigger] ps[i]) by {
        assert(ps.to_set().contains(ps[i]));
    }
    assert forall|i: int, j: int| 0 <= i < j < fs.len() implies (#[trigger] fs[i]).pred != (#[trigger] fs[j]).pred || fs[i].args
        != fs[j].args by {
        let a = lemma_record_source(e, ps, n, i);
        let b = lemma_record_source(e, ps, n, j);
        if a.0 == b.0 {
            let rel = e.st.rels[ps[a.0]];
            assert(a.1 < b.1);
            let x = rel.rows[a.1].key;
            let y = rel.rows[b.1].key;
            assert(rel_wf(rel));
            assert(x != y);
            assert(holds(e.st.rels, (ps[a.0], x)) && holds(e.st.rels, (ps[a.0], y)));
            if fs[i].args == fs[j].args {
                assert(denotes(names, x, fs[i].args) && denotes(names, y, fs[i].args));
                lemma_denotes_unique(names, x, y, fs[i].args);
            }
        } else if ps[a.0] == ps[b.0] {
            String::before_irreflexive(ps[a.0]);
            if a.0 < b.0 {
                assert(String::before(ps[a.0], ps[b.0]));
            } else {
                assert(String::before(ps[b.0], ps[a.0]));
            }
        }
    }
    assert forall|j: int| 0 <= j < fs.len() && !derived_pred(e, fs[j].pred) implies recorded(e.st, #[trigger] fs[j]) by {
        let a = lemma_record_source(e, ps, n, j);
        let p = ps[a.0];
        let rel = e.st.rels[p];
        let key = rel.rows[a.1].key;
        assert(rel_wf(rel));
        assert(holds(e.st.rels, (p, key)));
        let i = row_of(rel, key);
        assert(i == a.1) by {
            if i != a.1 {
                assert(rel.rows[i].key == rel.rows[a.1].key);
            }
        }
        lemma_ann_back(rel.rows[a.1], fs[j]);
        assert(is_recorded(e.st, key, fs[j]));
    }
    assert forall|k: KeyV| #[trigger] holds(e.st.rels, k) && !derived_pred(e, k.0) implies from_records(
        e.st,
        k,
        fs,
        fs.len() as int,
    ) by {
        assert(ps.to_set().contains(k.0));
        let x = choose|x: int| 0 <= x < ps.len() && ps[x] == k.0;
        let rel = e.st.rels[k.0];
        let y = choose|y: int| 0 <= y < rel.rows.len() && (#[trigger] rel.rows[y]).key == k.1;
        let j = lemma_record_place(e, ps, n, x, y);
        assert(fs[j].pred == k.0 && denotes(names, k.1, fs[j].args));
    }
}

/// Every base fact has a record.
proof fn lemma_record_place(e: EngineV, ps: Seq<Seq<char>>, n: int, x: int, y: int) -> (j: int)
    requires
        0 <= x < n <= ps.len(),
        !derived_pred(e, ps[x]),
        0 <= y < e.st.rels[ps[x]].rows.len(),
    ensures
        0 <= j < base_records(e, ps, n).len(),
        base_records(e, ps, n)[j] == record_of(e.st.names, ps[x], e.st.rels[ps[x]].rows[y]),
    decreases n,
{
    let a = base_records(e, ps, n - 1);
    if x == n - 1 {
        a.len() + y
    } else {
        let j = lemma_record_place(e, ps, n - 1, x, y);
        if !derived_pred(e, ps[n - 1]) {
            assert(base_records(e, ps, n)[j] == a[j]);
        }
        j
    }
}

proof fn lemma_same_row(a: RelV, b: RelV, key: Seq<Value>)
    requires
        a.rows == b.rows,
    ensures
        has_key(a, key) == has_key(b, key),
        row_of(a, key) == row_of(b, key),
{
    assert(a.rows =~= b.rows);
}

/// A run keeps the recorded base facts.
proof fn lemma_run_recorded(e: EngineV, fs: Seq<FactRecordV>)
    requires
        engine_wf(e),
        e.ever.finite(),
        e.clauses.len() <= usize::MAX,
        asserted(e.st, fs, fs.len() as int),
    ensures
        plain_facts_are(ran(e).0, fs),
{
    let r = ran(e).0;
    run_keeps_base(e);
    let t = written_preds(e);
    assert(r.clauses == e.clauses && r.ever == e.ever);
    assert(written_preds(r) =~= t);
    assert forall|j: int| 0 <= j < fs.len() && !written_preds(r).contains(fs[j].pred) implies recorded(r.st, #[trigger] fs[j]) by {
        let p = fs[j].pred;
        assert(recorded(e.st, fs[j]));
        let key = choose|key: Seq<Value>| is_recorded(e.st, key, fs[j]);
        assert(!t.contains(p));
        assert(same_facts(e.st.rels, r.st.rels, p));
        lemma_same_row(e.st.rels[p], r.st.rels[p], key);
        lemma_denotes_grows(e.st.names, r.st.names, key, fs[j].args);
        assert(is_recorded(r.st, key, fs[j]));
    }
    assert forall|k: KeyV| #[trigger] holds(r.st.rels, k) && !written_preds(r).contains(k.0) implies from_records(
        r.st,
        k,
        fs,
        fs.len() as int,
    ) by {
        assert(!t.contains(k.0));
        assert(same_facts(e.st.rels, r.st.rels, k.0));
        lemma_same_row(e.st.rels[k.0], r.st.rels[k.0], k.1);
        assert(holds(e.st.rels, k));
        let i = choose|i: int| 0 <= i < fs.len() && (#[trigger] fs[i]).pred == k.0 && denotes(e.st.names, k.1, fs[i].args);
        lemma_denotes_grows(e.st.names, r.st.names, k.1, fs[i].args);
        assert(fs[i].pred == k.0);
    }
}

/// The engine of a snapshot before its rules run: the rules are installed, and
/// every recorded fact is declared.
pub open spec fn unrun(s: SnapshotV) -> EngineV {
    EngineV { now: s.now, ..with_records(with_rules(s)->Ok_0.engine, s.facts, 0) }
}

/// Law: a memory that was saved and loaded has the same rules, clock,
/// episodes, escalations, and base facts with their annotations. Every base
/// fact is declared again, those of predicates that the program states facts
/// of too, and then the rules run: what they derive is derived anew.
///
/// Its rules must install, and there must be room for its symbols.
pub proof fn load_restores(m: MemoryV)
    requires
        in_order(m.engine),
        with_rules(kept(m)) is Ok,
        ({
            let e = with_rules(kept(m))->Ok_0.engine;
            e.ever.finite() && e.clauses.len() <= usize::MAX && with_records(e, kept(m).facts, 0).st.names.len() < usize::MAX
        }),
    ensures
        loaded(snapshot_text(m)) is Ok,
        ({
            let r = loaded(snapshot_text(m))->Ok_0;
            &&& r.rules == m.rules
            &&& r.engine.now == m.engine.now
            &&& r.episodes == m.episodes
            &&& r.escalations == m.escalations
            &&& base_facts_are(m.engine, kept(m).facts)
            &&& r.engine == ran(unrun(kept(m))).0
            &&& forall|j: int| 0 <= j < kept(m).facts.len() ==> recorded(unrun(kept(m)).st, #[trigger] kept(m).facts[j])
            &&& forall|k: KeyV| #[trigger]
                holds(unrun(kept(m)).st.rels, k) ==> from_records(unrun(kept(m)).st, k, kept(m).facts, kept(m).facts.len() as int)
            &&& plain_facts_are(r.engine, kept(m).facts)
        }),
        ({
            let sources = m.dynamic.map_values(|p: (Seq<char>, Seq<char>)| p.1);
            new_sources(fresh_engine(m.rules)->Ok_0, sources) ==> loaded(snapshot_text(m))->Ok_0.dynamic.map_values(
                |p: (Seq<char>, Seq<char>)| p.1,
            ) == sources
        }),
{
    assert(fits(m)) by {
        let ps = enumerate::<String>(m.engine.st.rels.dom());
        lemma_enumerable::<String>(m.engine.st.rels.dom());
        assert forall|i: int| 0 <= i < ps.len() implies pred_fits(m.engine, #[trigger] ps[i]) by {
            assert(ps.to_set().contains(ps[i]));
        }
    }
    snapshot_reads_back(m);
    let s = kept(m);
    let fs = s.facts;
    lemma_kept_facts(m.engine);
    let base = memory_of(fresh_engine(s.rules)->Ok_0, s.rules);
    let m1 = with_rules(s)->Ok_0;
    lemma_batches_store(base, s.batches, 0);
    assert(m1.engine.st == engine_new().st) by {
        let d = installed(engine_new(), crate::agent::DEFAULT_RULES@);
        assert(d is Ok);
    }
    assert(asserted(m1.engine.st, fs, 0)) by {
        let st = m1.engine.st;
        assert forall|k: KeyV| #[trigger] holds(st.rels, k) implies from_records(st, k, fs, 0) by {}
    }
    lemma_with_records(m1.engine, fs, 0);
    let e = EngineV { now: s.now, ..with_records(m1.engine, fs, 0) };
    assert(engine_wf(e)) by {
        assert(e.mark == 0);
    }
    lemma_run_recorded(e, fs);
    let sources = m.dynamic.map_values(|p: (Seq<char>, Seq<char>)| p.1);
    if new_sources(fresh_engine(m.rules)->Ok_0, sources) {
        assert(sources.skip(0) =~= sources);
        lemma_batches_dynamic(base, sources, 0);
        assert(base.dynamic.map_values(|p: (Seq<char>, Seq<char>)| p.1) + sources.skip(0) =~= sources);
    }
}

} // verus!

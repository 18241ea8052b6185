//! What a snapshot gives back.

use vstd::prelude::*;
use crate::agent::MemoryV;
use crate::confidence::unit_bits;
use crate::engine::EngineV;
use crate::escape::{
    escaped, escaped_is_one_field, escaped_is_one_item, escaped_item, is_break, unescaped, unescaped_escaped,
};
use crate::extract::EpisodeV;
use crate::intern::shown;
use crate::lexer::line_end;
use crate::notation::{confidence_reads_back, lemma_shortest_chars, shortest_text};
use crate::query::derived_pred;
use crate::relation::RowV;
use crate::scan::{lines_from, lines_of, without_cr};
use crate::snapshot::{
    cut, episode_record, fact_record, fact_records, first_from, four_fields, parts_between, read_arg, read_args, read_episode,
    read_fact, read_line, read_lines, snapshot_lines, snapshot_new, snapshot_read, snapshot_text, value_field, ArgV,
    FactRecordV, LoadErrorV, SnapshotV,
};
use crate::sorted_set::enumerate;
use crate::text::{ended_lines, int_reads_back, int_text, is_digit, joined, lemma_int_chars};
use crate::value::Value;

verus! {

// ------------------------------------------------------------------- lines

/// A text that is one line: it holds no line end, and does not end in a
/// carriage return.
pub open spec fn is_line(s: Seq<char>) -> bool {
    &&& forall|i: int| 0 <= i < s.len() ==> #[trigger] s[i] != '\n'
    &&& s.len() > 0 ==> s.last() != '\r'
}

proof fn lemma_ended_prefix(lines: Seq<Seq<char>>, k: int, n: int)
    requires
        0 <= k <= n <= lines.len(),
    ensures
        ended_lines(lines, k).len() <= ended_lines(lines, n).len(),
        forall|i: int|
            0 <= i < ended_lines(lines, k).len() ==> ended_lines(lines, n)[i] == #[trigger] ended_lines(lines, k)[i],
    decreases n - k,
{
    reveal_strlit("\n");
    if k < n {
        lemma_ended_prefix(lines, k, n - 1);
        let a = ended_lines(lines, k);
        let b = ended_lines(lines, n - 1);
        let c = ended_lines(lines, n);
        assert(c == b + lines[n - 1] + "\n"@);
        assert forall|i: int| 0 <= i < a.len() implies c[i] == #[trigger] a[i] by {
            assert(b[i] == a[i]);
        }
    }
}

proof fn lemma_line_end_at(s: Seq<char>, i: int, e: int)
    requires
        0 <= i <= e < s.len(),
        s[e] == '\n',
        forall|k: int| i <= k < e ==> #[trigger] s[k] != '\n',
    ensures
        line_end(s, i) == e,
    decreases e - i,
{
    if i < e {
        assert(s[i] != '\n');
        lemma_line_end_at(s, i + 1, e);
    }
}

proof fn lemma_lines_from(lines: Seq<Seq<char>>, k: int)
    requires
        0 <= k <= lines.len(),
        forall|j: int| 0 <= j < lines.len() ==> is_line(#[trigger] lines[j]),
    ensures
        lines_from(ended_lines(lines, lines.len() as int), ended_lines(lines, k).len() as int) == lines.skip(k),
    decreases lines.len() - k,
{
    reveal_strlit("\n");
    let n = lines.len() as int;
    let s = ended_lines(lines, n);
    let i = ended_lines(lines, k).len() as int;
    lemma_ended_prefix(lines, k, n);
    if k == n {
        assert(lines.skip(k) =~= Seq::empty());
    } else {
        lemma_lines_from(lines, k + 1);
        lemma_ended_prefix(lines, k + 1, n);
        let t = ended_lines(lines, k + 1);
        let l = lines[k];
        assert(t == ended_lines(lines, k) + l + "\n"@);
        let e = i + l.len();
        assert(t[e] == '\n');
        assert(s[e] == t[e]);
        assert forall|j: int| i <= j < e implies #[trigger] s[j] != '\n' by {
            assert(s[j] == t[j]);
            assert(t[j] == l[j - i]);
        }
        lemma_line_end_at(s, i, e);
        assert(s.subrange(i, e) =~= l) by {
            assert forall|j: int| 0 <= j < l.len() implies s.subrange(i, e)[j] == #[trigger] l[j] by {
                assert(s[i + j] == t[i + j]);
                assert(t[i + j] == l[j]);
            }
        }
        assert(is_line(l));
        assert(without_cr(l) == l);
        assert(lines_from(s, i) =~= seq![l] + lines_from(s, e + 1));
        assert(seq![l] + lines.skip(k + 1) =~= lines.skip(k));
    }
}

/// Law: lines that were written one under the other read back.
pub proof fn lines_read_back(lines: Seq<Seq<char>>)
    requires
        forall|j: int| 0 <= j < lines.len() ==> is_line(#[trigger] lines[j]),
    ensures
        lines_of(ended_lines(lines, lines.len() as int)) == lines,
{
    lemma_lines_from(lines, 0);
    assert(lines.skip(0) =~= lines);
}

// ------------------------------------------------------------------ fields

/// The character does not occur.
pub open spec fn lacks(s: Seq<char>, c: char) -> bool {
    forall|i: int| 0 <= i < s.len() ==> #[trigger] s[i] != c
}

proof fn lemma_first_at(s: Seq<char>, c: char, i: int, e: int)
    requires
        0 <= i <= e < s.len(),
        s[e] == c,
        forall|k: int| i <= k < e ==> #[trigger] s[k] != c,
    ensures
        first_from(s, c, i) == Some(e),
    decreases e - i,
{
    if i < e {
        assert(s[i] != c);
        lemma_first_at(s, c, i + 1, e);
    }
}

proof fn lemma_first_none(s: Seq<char>, c: char, i: int)
    requires
        0 <= i,
        lacks(s, c),
    ensures
        first_from(s, c, i) is None,
    decreases s.len() - i,
{
    if i < s.len() {
        lemma_first_none(s, c, i + 1);
    }
}

proof fn lemma_cut(a: Seq<char>, c: char, b: Seq<char>)
    requires
        lacks(a, c),
    ensures
        cut(a + seq![c] + b, c) == Some((a, b)),
{
    let s = a + seq![c] + b;
    assert forall|k: int| 0 <= k < a.len() implies #[trigger] s[k] != c by {
        assert(s[k] == a[k]);
    }
    assert(s[a.len() as int] == c);
    lemma_first_at(s, c, 0, a.len() as int);
    assert(s.take(a.len() as int) =~= a);
    assert(s.skip(a.len() as int + 1) =~= b);
}

proof fn lemma_four_fields(a: Seq<char>, b: Seq<char>, c: Seq<char>, d: Seq<char>)
    requires
        lacks(a, '\t'),
        lacks(b, '\t'),
        lacks(c, '\t'),
    ensures
        four_fields(a + "\t"@ + b + "\t"@ + c + "\t"@ + d) == Some((a, b, c, d)),
{
    reveal_strlit("\t");
    let t = seq!['\t'];
    assert("\t"@ =~= t);
    let s = a + "\t"@ + b + "\t"@ + c + "\t"@ + d;
    let x = b + t + (c + t + d);
    assert(s =~= a + t + x);
    lemma_cut(a, '\t', x);
    lemma_cut(b, '\t', c + t + d);
    lemma_cut(c, '\t', d);
}

/// The first of joined parts stands in front.
pub proof fn lemma_joined_front(parts: Seq<Seq<char>>, sep: Seq<char>)
    requires
        parts.len() >= 2,
    ensures
        joined(parts, sep) == parts[0] + sep + joined(parts.drop_first(), sep),
    decreases parts.len(),
{
    let d = parts.drop_first();
    if parts.len() == 2 {
        assert(parts.drop_last() =~= seq![parts[0]]);
        assert(joined(parts.drop_last(), sep) == parts[0]);
        assert(d =~= seq![parts[1]]);
    } else {
        let l = parts.drop_last();
        lemma_joined_front(l, sep);
        assert(l.drop_first() =~= d.drop_last());
        assert(d.last() == parts.last());
        assert(joined(parts, sep) =~= parts[0] + sep + joined(d, sep));
    }
}

/// A part of a list: not empty, without the separator.
pub open spec fn is_part(s: Seq<char>, c: char) -> bool {
    s.len() > 0 && lacks(s, c)
}

/// Parts that were joined come apart again.
proof fn lemma_parts_joined(parts: Seq<Seq<char>>, c: char)
    requires
        forall|i: int| 0 <= i < parts.len() ==> is_part(#[trigger] parts[i], c),
    ensures
        parts_between(joined(parts, seq![c]), c) == parts,
    decreases parts.len(),
{
    let sep = seq![c];
    let s = joined(parts, sep);
    if parts.len() == 0 {
        lemma_first_none(s, c, 0);
        assert(parts =~= Seq::empty());
    } else if parts.len() == 1 {
        assert(is_part(parts[0], c));
        lemma_first_none(s, c, 0);
        assert(parts =~= seq![parts[0]]);
    } else {
        let d = parts.drop_first();
        assert forall|i: int| 0 <= i < d.len() implies is_part(#[trigger] d[i], c) by {
            assert(d[i] == parts[i + 1]);
        }
        lemma_joined_front(parts, sep);
        lemma_parts_joined(d, c);
        let a = parts[0];
        let b = joined(d, sep);
        assert(is_part(parts[0], c));
        assert(s == a + sep + b);
        assert forall|k: int| 0 <= k < a.len() implies #[trigger] s[k] != c by {
            assert(s[k] == a[k]);
        }
        assert(s[a.len() as int] == c);
        lemma_first_at(s, c, 0, a.len() as int);
        assert(s.take(a.len() as int) =~= a);
        assert(s.skip(a.len() as int + 1) =~= b);
        assert(parts =~= seq![a] + d);
    }
}

/// A list without a character that neither its parts nor its separator hold.
proof fn lemma_joined_lacks(parts: Seq<Seq<char>>, sep: Seq<char>, c: char)
    requires
        forall|i: int| 0 <= i < parts.len() ==> lacks(#[trigger] parts[i], c),
        lacks(sep, c),
    ensures
        lacks(joined(parts, sep), c),
    decreases parts.len(),
{
    if parts.len() == 1 {
        assert(lacks(parts[0], c));
    } else if parts.len() > 1 {
        let l = parts.drop_last();
        assert forall|i: int| 0 <= i < l.len() implies lacks(#[trigger] l[i], c) by {
            assert(l[i] == parts[i]);
        }
        lemma_joined_lacks(l, sep, c);
        let a = joined(l, sep);
        let b = parts.last();
        assert(lacks(parts[parts.len() - 1], c));
        let s = a + sep + b;
        assert forall|i: int| 0 <= i < s.len() implies #[trigger] s[i] != c by {
            if i < a.len() {
                assert(s[i] == a[i]);
            } else if i < a.len() + sep.len() {
                assert(s[i] == sep[i - a.len()]);
            } else {
                assert(s[i] == b[i - a.len() - sep.len()]);
            }
        }
    }
}

// ----------------------------------------------------------------- records

/// An argument as a snapshot records it.
pub open spec fn arg_of(names: Seq<Seq<char>>, v: Value) -> ArgV {
    match v {
        Value::Sym(_) => ArgV::S(shown(names, v)),
        Value::Int(i) => ArgV::I(i),
    }
}

/// A fact as a snapshot records it.
pub open spec fn record_of(names: Seq<Seq<char>>, pred: Seq<char>, row: RowV) -> FactRecordV {
    FactRecordV {
        pred,
        conf: row.fact.ann.conf,
        prov: enumerate::<String>(row.fact.ann.prov),
        args: row.key.map_values(|v: Value| arg_of(names, v)),
    }
}

/// The records of the base facts of the first `n` predicates.
pub open spec fn base_records(e: EngineV, ps: Seq<Seq<char>>, n: int) -> Seq<FactRecordV>
    decreases n,
{
    if n <= 0 {
        Seq::empty()
    } else if derived_pred(e, ps[n - 1]) {
        base_records(e, ps, n - 1)
    } else {
        base_records(e, ps, n - 1) + e.st.rels[ps[n - 1]].rows.map_values(
            |r: RowV| record_of(e.st.names, ps[n - 1], r),
        )
    }
}

/// What is worth keeping of a memory: rules, clock, episodes, escalations and
/// base facts with their annotations.
pub open spec fn kept(m: MemoryV) -> SnapshotV {
    let ps = enumerate::<String>(m.engine.st.rels.dom());
    SnapshotV {
        rules: m.rules,
        batches: m.dynamic.map_values(|p: (Seq<char>, Seq<char>)| p.1),
        now: m.engine.now,
        episodes: m.episodes,
        escalations: m.escalations,
        facts: base_records(m.engine, ps, ps.len() as int),
    }
}

/// A text does not end in a carriage return.
pub open spec fn ends_well(s: Seq<char>) -> bool {
    s.len() > 0 ==> s.last() != '\r'
}

/// The confidence of every base fact of a predicate lies between zero and one.
pub open spec fn pred_fits(e: EngineV, p: Seq<char>) -> bool {
    derived_pred(e, p) || forall|i: int|
        0 <= i < e.st.rels[p].rows.len() ==> unit_bits((#[trigger] e.st.rels[p].rows[i]).fact.ann.conf)
}

/// The confidence of every base fact lies between zero and one.
pub open spec fn fits(m: MemoryV) -> bool {
    let ps = enumerate::<String>(m.engine.st.rels.dom());
    forall|i: int| 0 <= i < ps.len() ==> pred_fits(m.engine, #[trigger] ps[i])
}

proof fn lemma_line_of(a: Seq<char>, b: Seq<char>)
    requires
        lacks(a, '\n'),
        a.len() > 0 && a.last() != '\r',
        lacks(b, '\n'),
        ends_well(b),
    ensures
        is_line(a + b),
{
    let s = a + b;
    assert forall|i: int| 0 <= i < s.len() implies #[trigger] s[i] != '\n' by {
        if i < a.len() {
            assert(s[i] == a[i]);
        } else {
            assert(s[i] == b[i - a.len()]);
        }
    }
    if b.len() > 0 {
        assert(s.last() == b.last());
    } else {
        assert(s =~= a);
    }
}

proof fn lemma_escaped_lacks(s: Seq<char>)
    ensures
        lacks(escaped(s), '\t'),
        lacks(escaped(s), '\n'),
        lacks(escaped(s), ' '),
        ends_well(escaped(s)),
{
    escaped_is_one_field(s);
    if escaped(s).len() > 0 {
        assert(!is_break(escaped(s)[escaped(s).len() - 1]));
    }
}

proof fn lemma_item(s: Seq<char>)
    ensures
        is_part(escaped_item(s), ','),
        lacks(escaped_item(s), '\t'),
        lacks(escaped_item(s), '\n'),
        unescaped(escaped_item(s)) == s,
{
    escaped_is_one_item(s);
    unescaped_escaped(s);
}

/// A tagged line with one escaped field.
proof fn lemma_tagged(tag: Seq<char>, s: Seq<char>)
    requires
        lacks(tag, '\t'),
        lacks(tag, '\n'),
    ensures
        is_line(tag + seq!['\t'] + escaped(s)),
        cut(tag + seq!['\t'] + escaped(s), '\t') == Some((tag, escaped(s))),
        unescaped(escaped(s)) == s,
{
    lemma_escaped_lacks(s);
    lemma_cut(tag, '\t', escaped(s));
    unescaped_escaped(s);
    let a = tag + seq!['\t'];
    assert forall|i: int| 0 <= i < a.len() implies #[trigger] a[i] != '\n' by {
        if i < tag.len() {
            assert(a[i] == tag[i]);
        }
    }
    lemma_line_of(a, escaped(s));
}

proof fn lemma_int_field(i: int)
    ensures
        lacks(int_text(i), '\t'),
        lacks(int_text(i), '\n'),
        lacks(int_text(i), ' '),
        int_text(i).len() > 0,
        ends_well(int_text(i)),
{
    lemma_int_chars(i);
    let t = int_text(i);
    assert(is_digit(t[t.len() - 1]) || t[t.len() - 1] == '-');
    assert forall|k: int| 0 <= k < t.len() implies #[trigger] t[k] != '\t' && t[k] != '\n' && t[k] != ' ' by {
        assert(is_digit(t[k]) || t[k] == '-');
    }
}

proof fn lemma_now_line(s: SnapshotV, now: i64)
    ensures
        is_line("NOW\t"@ + int_text(now as int)),
        read_line(s, "NOW\t"@ + int_text(now as int)) == Ok::<SnapshotV, LoadErrorV>(SnapshotV { now, ..s }),
{
    reveal_strlit("NOW\t");
    reveal_strlit("NOW");
    let d = int_text(now as int);
    lemma_int_field(now as int);
    int_reads_back(now);
    assert("NOW\t"@ =~= "NOW"@ + seq!['\t']);
    lemma_cut("NOW"@, '\t', d);
    lemma_line_of("NOW\t"@, d);
}

proof fn lemma_rules_line(s: SnapshotV, rules: Seq<char>)
    ensures
        is_line("RULES\t"@ + escaped(rules)),
        read_line(s, "RULES\t"@ + escaped(rules)) == Ok::<SnapshotV, LoadErrorV>(SnapshotV { rules, ..s }),
{
    reveal_strlit("RULES\t");
    reveal_strlit("RULES");
    reveal_strlit("NOW");
    assert("RULES\t"@ =~= "RULES"@ + seq!['\t']);
    lemma_tagged("RULES"@, rules);
    assert("RULES"@.len() != "NOW"@.len());
}

proof fn lemma_batch_line(s: SnapshotV, src: Seq<char>)
    ensures
        is_line("BATCH\t"@ + escaped(src)),
        read_line(s, "BATCH\t"@ + escaped(src)) == Ok::<SnapshotV, LoadErrorV>(
            SnapshotV { batches: s.batches.push(src), ..s },
        ),
{
    reveal_strlit("BATCH\t");
    reveal_strlit("BATCH");
    reveal_strlit("RULES");
    reveal_strlit("NOW");
    assert("BATCH\t"@ =~= "BATCH"@ + seq!['\t']);
    lemma_tagged("BATCH"@, src);
    assert("BATCH"@.len() != "NOW"@.len());
    assert("BATCH"@[0] != "RULES"@[0]);
}

proof fn lemma_escalation_line(s: SnapshotV, e: Seq<char>)
    ensures
        is_line("ESC\t"@ + escaped(e)),
        read_line(s, "ESC\t"@ + escaped(e)) == Ok::<SnapshotV, LoadErrorV>(
            SnapshotV { escalations: s.escalations.push(e), ..s },
        ),
{
    reveal_strlit("ESC\t");
    reveal_strlit("ESC");
    reveal_strlit("EP");
    reveal_strlit("BATCH");
    reveal_strlit("RULES");
    reveal_strlit("NOW");
    assert("ESC\t"@ =~= "ESC"@ + seq!['\t']);
    lemma_tagged("ESC"@, e);
    assert("ESC"@[0] != "NOW"@[0]);
    assert("ESC"@.len() != "RULES"@.len());
    assert("ESC"@.len() != "BATCH"@.len());
    assert("ESC"@.len() != "EP"@.len());
}

proof fn lemma_episode_line(s: SnapshotV, ep: EpisodeV)
    ensures
        is_line(episode_record(ep)),
        read_line(s, episode_record(ep)) == Ok::<SnapshotV, LoadErrorV>(
            SnapshotV { episodes: s.episodes.push(ep), ..s },
        ),
{
    reveal_strlit("EP\t");
    reveal_strlit("EP");
    reveal_strlit("\t");
    reveal_strlit("BATCH");
    reveal_strlit("RULES");
    reveal_strlit("NOW");
    let tab = seq!['\t'];
    assert("\t"@ =~= tab);
    assert("EP\t"@ =~= "EP"@ + tab);
    let id = escaped(ep.id);
    let ts = int_text(ep.ts as int);
    let sp = match ep.speaker {
        Some(x) => escaped_item(x),
        None => Seq::empty(),
    };
    if ep.speaker is Some {
        lemma_item(ep.speaker->Some_0);
    }
    let text = escaped(ep.text);
    lemma_escaped_lacks(ep.id);
    lemma_escaped_lacks(ep.text);
    lemma_int_field(ep.ts as int);
    int_reads_back(ep.ts);
    unescaped_escaped(ep.id);
    unescaped_escaped(ep.text);
    let rest = id + "\t"@ + ts + "\t"@ + sp + "\t"@ + text;
    lemma_four_fields(id, ts, sp, text);
    let line = episode_record(ep);
    assert(line =~= "EP"@ + tab + rest);
    lemma_cut("EP"@, '\t', rest);
    assert("EP"@.len() != "NOW"@.len());
    assert("EP"@.len() != "RULES"@.len());
    assert("EP"@.len() != "BATCH"@.len());
    assert(read_episode(rest) == Ok::<EpisodeV, LoadErrorV>(ep)) by {
        if ep.speaker is Some {
            assert(sp.len() > 0);
        }
    }
    let a = "EP\t"@ + id + "\t"@ + ts + "\t"@ + sp + "\t"@;
    assert forall|i: int| 0 <= i < a.len() implies #[trigger] a[i] != '\n' by {
        let n1 = 3 + id.len();
        let n2 = n1 + 1 + ts.len();
        let n3 = n2 + 1 + sp.len();
        if i < 3 {
            assert(a[i] == "EP\t"@[i]);
        } else if i < n1 {
            assert(a[i] == id[i - 3]);
        } else if i == n1 {
        } else if i < n2 {
            assert(a[i] == ts[i - n1 - 1]);
        } else if i == n2 {
        } else if i < n3 {
            assert(a[i] == sp[i - n2 - 1]);
        }
    }
    assert(a.last() == '\t');
    lemma_line_of(a, text);
    assert(line =~= a + text);
}

proof fn lemma_value_field(names: Seq<Seq<char>>, v: Value)
    ensures
        is_part(value_field(names, v), ' '),
        lacks(value_field(names, v), '\n'),
        read_arg(value_field(names, v)) == Ok::<ArgV, LoadErrorV>(arg_of(names, v)),
        ends_well(value_field(names, v)),
{
    reveal_strlit("s:");
    reveal_strlit("i:");
    let f = value_field(names, v);
    match v {
        Value::Sym(_) => {
            let t = escaped(shown(names, v));
            lemma_escaped_lacks(shown(names, v));
            unescaped_escaped(shown(names, v));
            assert forall|i: int| 0 <= i < f.len() implies #[trigger] f[i] != ' ' && f[i] != '\n' by {
                if i >= 2 {
                    assert(f[i] == t[i - 2]);
                }
            }
            assert(f.take(2) =~= "s:"@);
            assert(f.skip(2) =~= t);
            if t.len() > 0 {
                assert(f.last() == t.last());
            } else {
                assert(f =~= "s:"@);
            }
        },
        Value::Int(n) => {
            let t = int_text(n as int);
            lemma_int_field(n as int);
            int_reads_back(n);
            assert forall|i: int| 0 <= i < f.len() implies #[trigger] f[i] != ' ' && f[i] != '\n' by {
                if i >= 2 {
                    assert(f[i] == t[i - 2]);
                }
            }
            assert(f.take(2) =~= "i:"@);
            assert(f.take(2)[0] == 'i');
            assert(f.take(2) != "s:"@);
            assert(f.skip(2) =~= t);
            assert(f.last() == t.last());
        },
    }
}

proof fn lemma_read_args(names: Seq<Seq<char>>, key: Seq<Value>, parts: Seq<Seq<char>>, i: int, acc: Seq<ArgV>)
    requires
        parts == key.map_values(|v: Value| value_field(names, v)),
        0 <= i <= key.len(),
        acc == key.take(i).map_values(|v: Value| arg_of(names, v)),
    ensures
        read_args(parts, i, acc) == Ok::<Seq<ArgV>, LoadErrorV>(key.map_values(|v: Value| arg_of(names, v))),
    decreases key.len() - i,
{
    if i < key.len() {
        lemma_value_field(names, key[i]);
        assert(parts[i] == value_field(names, key[i]));
        let next = acc.push(arg_of(names, key[i]));
        assert(next =~= key.take(i + 1).map_values(|v: Value| arg_of(names, v)));
        lemma_read_args(names, key, parts, i + 1, next);
    } else {
        assert(key.take(i) =~= key);
    }
}

proof fn lemma_fact_line(s: SnapshotV, names: Seq<Seq<char>>, pred: Seq<char>, row: RowV)
    requires
        unit_bits(row.fact.ann.conf),
    ensures
        is_line(fact_record(names, pred, row)),
        read_line(s, fact_record(names, pred, row)) == Ok::<SnapshotV, LoadErrorV>(
            SnapshotV { facts: s.facts.push(record_of(names, pred, row)), ..s },
        ),
{
    reveal_strlit("FACT\t");
    reveal_strlit("FACT");
    reveal_strlit("\t");
    reveal_strlit(",");
    reveal_strlit(" ");
    reveal_strlit("ESC");
    reveal_strlit("EP");
    reveal_strlit("BATCH");
    reveal_strlit("RULES");
    reveal_strlit("NOW");
    let tab = seq!['\t'];
    assert("\t"@ =~= tab);
    assert(","@ =~= seq![',']);
    assert(" "@ =~= seq![' ']);
    assert("FACT\t"@ =~= "FACT"@ + tab);
    let conf = row.fact.ann.conf;
    let c = shortest_text(conf);
    lemma_shortest_chars(conf);
    confidence_reads_back(conf);
    assert forall|i: int| 0 <= i < c.len() implies #[trigger] c[i] != '\t' && c[i] != '\n' by {
        assert(is_digit(c[i]) || c[i] == '.' || c[i] == '-');
    }
    let sources = enumerate::<String>(row.fact.ann.prov);
    let items = sources.map_values(|p: Seq<char>| escaped_item(p));
    let prov = joined(items, ","@);
    assert forall|i: int| 0 <= i < items.len() implies is_part(#[trigger] items[i], ',') && lacks(items[i], '\t') && lacks(
        items[i],
        '\n',
    ) && unescaped(items[i]) == sources[i] by {
        lemma_item(sources[i]);
    }
    lemma_parts_joined(items, ',');
    lemma_joined_lacks(items, ","@, '\t');
    lemma_joined_lacks(items, ","@, '\n');
    assert(parts_between(prov, ',').map_values(|p: Seq<char>| unescaped(p)) =~= sources);
    let name = escaped(pred);
    lemma_escaped_lacks(pred);
    unescaped_escaped(pred);
    let fields = row.key.map_values(|v: Value| value_field(names, v));
    let args = joined(fields, " "@);
    assert forall|i: int| 0 <= i < fields.len() implies is_part(#[trigger] fields[i], ' ') && lacks(fields[i], '\n') by {
        lemma_value_field(names, row.key[i]);
    }
    lemma_parts_joined(fields, ' ');
    lemma_joined_lacks(fields, " "@, '\n');
    assert(row.key.take(0).map_values(|v: Value| arg_of(names, v)) =~= Seq::empty());
    lemma_read_args(names, row.key, fields, 0, Seq::empty());
    let rest = name + "\t"@ + c + "\t"@ + prov + "\t"@ + args;
    lemma_four_fields(name, c, prov, args);
    let line = fact_record(names, pred, row);
    assert(line =~= "FACT"@ + tab + rest);
    lemma_cut("FACT"@, '\t', rest);
    assert("FACT"@.len() != "NOW"@.len());
    assert("FACT"@.len() != "RULES"@.len());
    assert("FACT"@.len() != "BATCH"@.len());
    assert("FACT"@.len() != "EP"@.len());
    assert("FACT"@.len() != "ESC"@.len());
    let rec = record_of(names, pred, row);
    assert(read_fact(rest) == Ok::<FactRecordV, LoadErrorV>(rec));
    let a = "FACT\t"@ + name + "\t"@ + c + "\t"@ + prov + "\t"@;
    assert forall|i: int| 0 <= i < a.len() implies #[trigger] a[i] != '\n' by {
        let n1 = 5 + name.len();
        let n2 = n1 + 1 + c.len();
        let n3 = n2 + 1 + prov.len();
        if i < 5 {
            assert(a[i] == "FACT\t"@[i]);
        } else if i < n1 {
            assert(a[i] == name[i - 5]);
        } else if i == n1 {
        } else if i < n2 {
            assert(a[i] == c[i - n1 - 1]);
        } else if i == n2 {
        } else if i < n3 {
            assert(a[i] == prov[i - n2 - 1]);
        }
    }
    assert(a.last() == '\t');
    assert(ends_well(args)) by {
        if fields.len() > 0 {
            let v = row.key.last();
            lemma_value_field(names, v);
            assert(fields.last() == value_field(names, v));
            lemma_joined_last(fields, " "@);
        }
    }
    lemma_line_of(a, args);
    assert(line =~= a + args);
}

/// A list ends as its last part does.
proof fn lemma_joined_last(parts: Seq<Seq<char>>, sep: Seq<char>)
    requires
        parts.len() > 0,
        parts.last().len() > 0,
    ensures
        joined(parts, sep).len() > 0,
        joined(parts, sep).last() == parts.last().last(),
{
    if parts.len() > 1 {
        let a = joined(parts.drop_last(), sep) + sep;
        let s = a + parts.last();
        assert(s.last() == parts.last().last());
    }
}

// ------------------------------------------------------------- whole texts

/// Reading the batches from the `j`-th on.
proof fn lemma_read_batches(s: SnapshotV, lines: Seq<Seq<char>>, from: int, sources: Seq<Seq<char>>, j: int)
    requires
        0 <= from,
        0 <= j <= sources.len(),
        from + sources.len() <= lines.len(),
        forall|k: int| 0 <= k < sources.len() ==> lines[from + k] == "BATCH\t"@ + escaped(#[trigger] sources[k]),
    ensures
        read_lines(s, lines, from + j) == read_lines(
            SnapshotV { batches: s.batches + sources.skip(j), ..s },
            lines,
            from + sources.len(),
        ),
    decreases sources.len() - j,
{
    if j < sources.len() {
        let src = sources[j];
        lemma_batch_line(s, src);
        let t = SnapshotV { batches: s.batches.push(src), ..s };
        lemma_read_batches(t, lines, from, sources, j + 1);
        assert(t.batches + sources.skip(j + 1) =~= s.batches + sources.skip(j));
    } else {
        assert(s.batches + sources.skip(j) =~= s.batches);
    }
}

/// Reading the episodes from the `j`-th on.
proof fn lemma_read_episodes(s: SnapshotV, lines: Seq<Seq<char>>, from: int, eps: Seq<EpisodeV>, j: int)
    requires
        0 <= from,
        0 <= j <= eps.len(),
        from + eps.len() <= lines.len(),
        forall|k: int| 0 <= k < eps.len() ==> lines[from + k] == episode_record(#[trigger] eps[k]),
    ensures
        read_lines(s, lines, from + j) == read_lines(
            SnapshotV { episodes: s.episodes + eps.skip(j), ..s },
            lines,
            from + eps.len(),
        ),
    decreases eps.len() - j,
{
    if j < eps.len() {
        lemma_episode_line(s, eps[j]);
        let t = SnapshotV { episodes: s.episodes.push(eps[j]), ..s };
        lemma_read_episodes(t, lines, from, eps, j + 1);
        assert(t.episodes + eps.skip(j + 1) =~= s.episodes + eps.skip(j));
    } else {
        assert(s.episodes + eps.skip(j) =~= s.episodes);
    }
}

/// Reading the escalations from the `j`-th on.
proof fn lemma_read_escalations(s: SnapshotV, lines: Seq<Seq<char>>, from: int, es: Seq<Seq<char>>, j: int)
    requires
        0 <= from,
        0 <= j <= es.len(),
        from + es.len() <= lines.len(),
        forall|k: int| 0 <= k < es.len() ==> lines[from + k] == "ESC\t"@ + escaped(#[trigger] es[k]),
    ensures
        read_lines(s, lines, from + j) == read_lines(
            SnapshotV { escalations: s.escalations + es.skip(j), ..s },
            lines,
            from + es.len(),
        ),
    decreases es.len() - j,
{
    if j < es.len() {
        lemma_escalation_line(s, es[j]);
        let t = SnapshotV { escalations: s.escalations.push(es[j]), ..s };
        lemma_read_escalations(t, lines, from, es, j + 1);
        assert(t.escalations + es.skip(j + 1) =~= s.escalations + es.skip(j));
    } else {
        assert(s.escalations + es.skip(j) =~= s.escalations);
    }
}

/// Each record of a base fact is a line that reads as that fact.
pub open spec fn reads_as(line: Seq<char>, f: FactRecordV) -> bool {
    is_line(line) && forall|s: SnapshotV|
        #[trigger] read_line(s, line) == Ok::<SnapshotV, LoadErrorV>(SnapshotV { facts: s.facts.push(f), ..s })
}

proof fn lemma_records(e: EngineV, ps: Seq<Seq<char>>, n: int)
    requires
        0 <= n <= ps.len(),
        forall|i: int| 0 <= i < ps.len() ==> pred_fits(e, #[trigger] ps[i]),
    ensures
        fact_records(e, ps, n).len() == base_records(e, ps, n).len(),
        forall|k: int|
            0 <= k < fact_records(e, ps, n).len() ==> reads_as(#[trigger] fact_records(e, ps, n)[k], base_records(e, ps, n)[k]),
    decreases n,
{
    if n > 0 {
        lemma_records(e, ps, n - 1);
        let p = ps[n - 1];
        assert(pred_fits(e, ps[n - 1]));
        if !derived_pred(e, p) {
            let rows = e.st.rels[p].rows;
            let la = fact_records(e, ps, n - 1);
            let ra = base_records(e, ps, n - 1);
            let l = fact_records(e, ps, n);
            let r = base_records(e, ps, n);
            assert forall|k: int| 0 <= k < l.len() implies reads_as(#[trigger] l[k], r[k]) by {
                if k < la.len() {
                    assert(l[k] == la[k]);
                    assert(r[k] == ra[k]);
                } else {
                    let row = rows[k - la.len()];
                    assert(unit_bits(rows[k - la.len()].fact.ann.conf));
                    assert(l[k] == fact_record(e.st.names, p, row));
                    assert(r[k] == record_of(e.st.names, p, row));
                    assert forall|s: SnapshotV| #[trigger] read_line(s, l[k]) == Ok::<SnapshotV, LoadErrorV>(
                        SnapshotV { facts: s.facts.push(r[k]), ..s },
                    ) by {
                        lemma_fact_line(s, e.st.names, p, row);
                    }
                    lemma_fact_line(snapshot_new(), e.st.names, p, row);
                }
            }
        }
    }
}

/// Reading the facts from the `j`-th on.
proof fn lemma_read_facts(s: SnapshotV, lines: Seq<Seq<char>>, from: int, fs: Seq<FactRecordV>, j: int)
    requires
        0 <= from,
        0 <= j <= fs.len(),
        from + fs.len() == lines.len(),
        forall|k: int| 0 <= k < fs.len() ==> reads_as(lines[from + k], #[trigger] fs[k]),
    ensures
        read_lines(s, lines, from + j) == Ok::<SnapshotV, LoadErrorV>(SnapshotV { facts: s.facts + fs.skip(j), ..s }),
    decreases fs.len() - j,
{
    if j < fs.len() {
        assert(reads_as(lines[from + j], fs[j]));
        let t = SnapshotV { facts: s.facts.push(fs[j]), ..s };
        assert(read_line(s, lines[from + j]) == Ok::<SnapshotV, LoadErrorV>(t));
        lemma_read_facts(t, lines, from, fs, j + 1);
        assert(t.facts + fs.skip(j + 1) =~= s.facts + fs.skip(j));
    } else {
        assert(s.facts + fs.skip(j) =~= s.facts);
    }
}

/// Where the parts of a snapshot stand among its lines.
proof fn lemma_snapshot_lines(m: MemoryV)
    requires
        fits(m),
    ensures
        ({
            let ps = enumerate::<String>(m.engine.st.rels.dom());
            let lines = snapshot_lines(m);
            let sources = m.dynamic.map_values(|p: (Seq<char>, Seq<char>)| p.1);
            let facts = base_records(m.engine, ps, ps.len() as int);
            let n2 = 3int + sources.len();
            let n3: int = n2 + m.episodes.len();
            let n4: int = n3 + m.escalations.len();
            &&& lines.len() == n4 + facts.len()
            &&& lines[0] == "LEMMALOG1"@
            &&& lines[1] == "NOW\t"@ + int_text(m.engine.now as int)
            &&& lines[2] == "RULES\t"@ + escaped(m.rules)
            &&& forall|k: int| 0 <= k < sources.len() ==> lines[3 + k] == "BATCH\t"@ + escaped(#[trigger] sources[k])
            &&& forall|k: int| 0 <= k < m.episodes.len() ==> lines[n2 + k] == episode_record(#[trigger] m.episodes[k])
            &&& forall|k: int|
                0 <= k < m.escalations.len() ==> lines[n3 + k] == "ESC\t"@ + escaped(#[trigger] m.escalations[k])
            &&& forall|k: int| 0 <= k < facts.len() ==> reads_as(lines[n4 + k], #[trigger] facts[k])
        }),
{
    let ps = enumerate::<String>(m.engine.st.rels.dom());
    let lines = snapshot_lines(m);
    let sources = m.dynamic.map_values(|p: (Seq<char>, Seq<char>)| p.1);
    let facts = base_records(m.engine, ps, ps.len() as int);
    let recs = fact_records(m.engine, ps, ps.len() as int);
    lemma_records(m.engine, ps, ps.len() as int);
    let n2 = 3int + sources.len();
    let n3: int = n2 + m.episodes.len();
    let n4: int = n3 + m.escalations.len();
    assert forall|k: int| 0 <= k < facts.len() implies reads_as(lines[n4 + k], #[trigger] facts[k]) by {
        assert(lines[n4 + k] == recs[k]);
        assert(reads_as(recs[k], facts[k]));
    }
}

/// Every line of a snapshot is one line.
proof fn lemma_snapshot_is_lines(m: MemoryV)
    requires
        fits(m),
    ensures
        forall|j: int| 0 <= j < snapshot_lines(m).len() ==> is_line(#[trigger] snapshot_lines(m)[j]),
{
    lemma_snapshot_lines(m);
    let ps = enumerate::<String>(m.engine.st.rels.dom());
    let lines = snapshot_lines(m);
    let sources = m.dynamic.map_values(|p: (Seq<char>, Seq<char>)| p.1);
    let facts = base_records(m.engine, ps, ps.len() as int);
    let n2 = 3int + sources.len();
    let n3: int = n2 + m.episodes.len();
    let n4: int = n3 + m.escalations.len();
    let s0 = snapshot_new();
    assert forall|j: int| 0 <= j < lines.len() implies is_line(#[trigger] lines[j]) by {
        if j == 0 {
            reveal_strlit("LEMMALOG1");
        } else if j == 1 {
            lemma_now_line(s0, m.engine.now);
        } else if j == 2 {
            lemma_rules_line(s0, m.rules);
        } else if j < n2 {
            lemma_batch_line(s0, sources[j - 3]);
            assert(lines[3 + (j - 3)] == "BATCH\t"@ + escaped(sources[j - 3]));
        } else if j < n3 {
            lemma_episode_line(s0, m.episodes[j - n2]);
            assert(lines[n2 + (j - n2)] == episode_record(m.episodes[j - n2]));
        } else if j < n4 {
            lemma_escalation_line(s0, m.escalations[j - n3]);
            assert(lines[n3 + (j - n3)] == "ESC\t"@ + escaped(m.escalations[j - n3]));
        } else {
            assert(reads_as(lines[n4 + (j - n4)], facts[j - n4]));
        }
    }
}

/// Reading the lines of a snapshot behind the first.
proof fn lemma_lines_kept(m: MemoryV)
    requires
        fits(m),
    ensures
        read_lines(snapshot_new(), snapshot_lines(m), 1) == Ok::<SnapshotV, LoadErrorV>(kept(m)),
{
    lemma_snapshot_lines(m);
    let e = m.engine;
    let ps = enumerate::<String>(e.st.rels.dom());
    let lines = snapshot_lines(m);
    let sources = m.dynamic.map_values(|p: (Seq<char>, Seq<char>)| p.1);
    let facts = base_records(e, ps, ps.len() as int);
    let n2 = 3int + sources.len();
    let n3: int = n2 + m.episodes.len();
    let n4: int = n3 + m.escalations.len();
    let s0 = snapshot_new();
    lemma_now_line(s0, e.now);
    let s1 = SnapshotV { now: e.now, ..s0 };
    lemma_rules_line(s1, m.rules);
    let s2 = SnapshotV { rules: m.rules, ..s1 };
    assert(read_lines(s0, lines, 1) == read_lines(s1, lines, 2));
    assert(read_lines(s1, lines, 2) == read_lines(s2, lines, 3));
    lemma_read_batches(s2, lines, 3, sources, 0);
    let s3 = SnapshotV { batches: s2.batches + sources.skip(0), ..s2 };
    lemma_read_episodes(s3, lines, n2, m.episodes, 0);
    let s4 = SnapshotV { episodes: s3.episodes + m.episodes.skip(0), ..s3 };
    lemma_read_escalations(s4, lines, n3, m.escalations, 0);
    let s5 = SnapshotV { escalations: s4.escalations + m.escalations.skip(0), ..s4 };
    lemma_read_facts(s5, lines, n4, facts, 0);
    let s6 = SnapshotV { facts: s5.facts + facts.skip(0), ..s5 };
    assert(s6.batches =~= sources);
    assert(s6.episodes =~= m.episodes);
    assert(s6.escalations =~= m.escalations);
    assert(s6.facts =~= facts);
}

/// Law: a snapshot gives back what is worth keeping of the memory that it was
/// taken of.
pub proof fn snapshot_reads_back(m: MemoryV)
    requires
        fits(m),
    ensures
        snapshot_read(snapshot_text(m)) == Ok::<SnapshotV, LoadErrorV>(kept(m)),
{
    lemma_snapshot_lines(m);
    lemma_snapshot_is_lines(m);
    lemma_lines_kept(m);
    lines_read_back(snapshot_lines(m));
}

} // verus!

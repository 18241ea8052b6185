//! Lines: what the line protocol says of each line, and that a candidate that is
//! written as a line reads back.

use vstd::prelude::*;
use crate::confidence::unit_bits;
use crate::notation::{confidence_reads_back, lemma_shortest_chars, shortest_text};
use crate::protocol::{
    all_name_chars, alphanumeric, edge_line, entity_problem, fact_problem, in_quotes, is_clean, is_name_char, is_reference, lower_text,
    parsed_line, part_start, plain_fact, predicate_line, protocol_upto, quoted_problem, quotes_before, relation_part, reported_upto,
    separators, split_parts, strict_upto, unquoted, without_brackets, CandV,
};
use crate::readings::{is_selection, lemma_selection};
use crate::scan::{all_snake, byte_length, find_from, is_snake, last_below, stands_at, trim_left, trim_right, trimmed, white, words_upto};
use crate::server::{fact_atom, quotes_off, quotes_off_back, quotes_off_front, without_dots};
use crate::text::joined;

verus! {

// ---------------------------------------------------------------------- texts

/// Only white space.
pub open spec fn all_white(s: Seq<char>) -> bool {
    forall|i: int| 0 <= i < s.len() ==> white(#[trigger] s[i])
}

/// No white space at either end.
pub open spec fn is_tight(s: Seq<char>) -> bool {
    s.len() > 0 ==> !white(s[0]) && !white(s.last())
}

/// Law: trimming takes off the white space around a text, all of it, and nothing
/// else.
pub proof fn trimming_means(a: Seq<char>, s: Seq<char>, b: Seq<char>)
    requires
        all_white(a),
        is_tight(s),
        all_white(b),
    ensures
        trimmed(a + s + b) == s,
    decreases a.len(),
{
    let t = a + s + b;
    if a.len() > 0 {
        let d = a.drop_first();
        assert(t.drop_first() =~= d + s + b);
        assert(white(a[0]));
        assert(t[0] == a[0]);
        assert forall|i: int| 0 <= i < d.len() implies white(#[trigger] d[i]) by {
            assert(a[i + 1] == d[i]);
        }
        trimming_means(d, s, b);
    } else if s.len() == 0 {
        assert(t =~= b);
        lemma_left_white(b);
    } else {
        assert(t =~= s + b);
        assert(t[0] == s[0]);
        lemma_right_white(s, b);
    }
}

proof fn lemma_left_white(b: Seq<char>)
    requires
        all_white(b),
    ensures
        trim_left(b).len() == 0,
    decreases b.len(),
{
    if b.len() > 0 {
        let d = b.drop_first();
        assert(white(b[0]));
        assert forall|i: int| 0 <= i < d.len() implies white(#[trigger] d[i]) by {
            assert(b[i + 1] == d[i]);
        }
        lemma_left_white(d);
    }
}

proof fn lemma_right_white(s: Seq<char>, b: Seq<char>)
    requires
        all_white(b),
        s.len() > 0,
        !white(s.last()),
    ensures
        trim_right(s + b) == s,
    decreases b.len(),
{
    if b.len() > 0 {
        let d = b.drop_last();
        assert(white(b[b.len() - 1]));
        assert((s + b).last() == b.last());
        assert((s + b).drop_last() =~= s + d);
        assert forall|i: int| 0 <= i < d.len() implies white(#[trigger] d[i]) by {
            assert(b[i] == d[i]);
        }
        lemma_right_white(s, d);
    } else {
        assert(s + b =~= s);
    }
}

/// Law: the bytes of a text are those of its pieces, and a character has one to
/// four, by its number.
pub proof fn bytes_split(a: Seq<char>, b: Seq<char>, c: char)
    ensures
        byte_length(a + b) == byte_length(a) + byte_length(b),
        byte_length(Seq::empty()) == 0,
        byte_length(seq![c]) == if (c as u32) < 0x80 {
            1nat
        } else if (c as u32) < 0x800 {
            2nat
        } else if (c as u32) < 0x10000 {
            3nat
        } else {
            4nat
        },
    decreases b.len(),
{
    assert(seq![c].drop_last() =~= Seq::empty());
    assert(byte_length(seq![c]) == byte_length(seq![c].drop_last()) + crate::scan::char_bytes(c));
    if b.len() > 0 {
        bytes_split(a, b.drop_last(), c);
        assert((a + b).drop_last() =~= a + b.drop_last());
        assert((a + b).last() == b.last());
    } else {
        assert(a + b =~= a);
    }
}

/// The number of words of a text.
pub open spec fn words(s: Seq<char>) -> nat {
    words_upto(s, s.len() as int)
}

proof fn lemma_words_first(a: Seq<char>, b: Seq<char>, n: int)
    requires
        0 <= n <= a.len(),
    ensures
        words_upto(a + b, n) == words_upto(a, n),
    decreases n,
{
    if n > 0 {
        lemma_words_first(a, b, n - 1);
        assert((a + b)[n - 1] == a[n - 1]);
        if n > 1 {
            assert((a + b)[n - 2] == a[n - 2]);
        }
    }
}

proof fn lemma_words_second(a: Seq<char>, b: Seq<char>, n: int)
    requires
        0 <= n <= b.len(),
        a.len() > 0,
        white(a.last()),
    ensures
        words_upto(a + b, a.len() + n) == words_upto(a, a.len() as int) + words_upto(b, n),
    decreases n,
{
    if n > 0 {
        lemma_words_second(a, b, n - 1);
        assert((a + b)[a.len() + n - 1] == b[n - 1]);
        if n > 1 {
            assert((a + b)[a.len() + n - 2] == b[n - 2]);
        } else {
            assert((a + b)[a.len() - 1] == a.last());
        }
    } else {
        lemma_words_first(a, b, a.len() as int);
    }
}

proof fn lemma_one_word(s: Seq<char>, n: int)
    requires
        0 < n <= s.len(),
        forall|i: int| 0 <= i < s.len() ==> !white(#[trigger] s[i]),
    ensures
        words_upto(s, n) == 1,
    decreases n,
{
    if n > 1 {
        lemma_one_word(s, n - 1);
        assert(!white(s[n - 2]));
    } else {
        assert(!white(s[0]));
        assert(words_upto(s, 0) == 0);
    }
}

proof fn lemma_no_word(s: Seq<char>, n: int)
    requires
        0 <= n <= s.len(),
        all_white(s),
    ensures
        words_upto(s, n) == 0,
    decreases n,
{
    if n > 0 {
        lemma_no_word(s, n - 1);
        assert(white(s[n - 1]));
    }
}

/// Law: words are what white space parts. A text without it is one word; white
/// space has none; and the words of two texts with white space between are those
/// of both.
pub proof fn words_split(a: Seq<char>, w: Seq<char>, b: Seq<char>)
    requires
        w.len() > 0,
        all_white(w),
    ensures
        words(w) == 0,
        words(a + w + b) == words(a) + words(b),
        a.len() > 0 && (forall|i: int| 0 <= i < a.len() ==> !white(#[trigger] a[i])) ==> words(a) == 1,
{
    let aw = a + w;
    lemma_no_word(w, w.len() as int);
    assert(white(w[w.len() - 1]));
    assert(aw.last() == w.last());
    lemma_words_second(aw, b, b.len() as int);
    lemma_words_kept(a, w, w.len() as int);
    if a.len() > 0 && (forall|i: int| 0 <= i < a.len() ==> !white(#[trigger] a[i])) {
        lemma_one_word(a, a.len() as int);
    }
}

proof fn lemma_words_kept(a: Seq<char>, w: Seq<char>, n: int)
    requires
        0 <= n <= w.len(),
        all_white(w),
    ensures
        words_upto(a + w, a.len() + n) == words(a),
    decreases n,
{
    if n > 0 {
        lemma_words_kept(a, w, n - 1);
        assert(white(w[n - 1]));
        assert((a + w)[a.len() + n - 1] == w[n - 1]);
    } else {
        lemma_words_first(a, w, a.len() as int);
    }
}

// ------------------------------------------------------------------ every line

/// A line states a fact that is kept.
pub open spec fn is_kept(lines: Seq<Seq<char>>, conf: u64) -> spec_fn(int) -> bool {
    |i: int|
        trimmed(lines[i]).len() > 0 && parsed_line(lines[i], conf) is Ok && fact_problem(parsed_line(lines[i], conf)->Ok_0) is None
}

/// A line that is not blank states no fact that is kept.
pub open spec fn is_dropped(lines: Seq<Seq<char>>, conf: u64) -> spec_fn(int) -> bool {
    |i: int| trimmed(lines[i]).len() > 0 && !is_kept(lines, conf)(i)
}

/// Why a line is dropped.
pub open spec fn drop_reason(line: Seq<char>, conf: u64) -> Seq<char> {
    match parsed_line(line, conf) {
        Err(m) => m,
        Ok(c) => fact_problem(c)->Some_0,
    }
}

proof fn lemma_reported(lines: Seq<Seq<char>>, conf: u64, n: int) -> (r: (Seq<int>, Seq<int>))
    requires
        0 <= n <= lines.len(),
    ensures
        is_selection(r.0, n, is_kept(lines, conf)),
        is_selection(r.1, n, is_dropped(lines, conf)),
        reported_upto(lines, conf, n).0 == Seq::new(r.0.len(), |x: int| plain_fact(parsed_line(lines[r.0[x]], conf)->Ok_0)),
        reported_upto(lines, conf, n).1 == Seq::new(r.1.len(), |x: int| (trimmed(lines[r.1[x]]), drop_reason(lines[r.1[x]], conf))),
    decreases n,
{
    if n == 0 {
        let r = (Seq::<int>::empty(), Seq::<int>::empty());
        assert(reported_upto(lines, conf, n).0 =~= Seq::new(r.0.len(), |x: int| plain_fact(parsed_line(lines[r.0[x]], conf)->Ok_0)));
        assert(reported_upto(lines, conf, n).1 =~= Seq::new(
            r.1.len(),
            |x: int| (trimmed(lines[r.1[x]]), drop_reason(lines[r.1[x]], conf)),
        ));
        r
    } else {
        let b = lemma_reported(lines, conf, n - 1);
        lemma_selection(b.0, n - 1, is_kept(lines, conf));
        lemma_selection(b.1, n - 1, is_dropped(lines, conf));
        let r = (
            if is_kept(lines, conf)(n - 1) {
                b.0.push(n - 1)
            } else {
                b.0
            },
            if is_dropped(lines, conf)(n - 1) {
                b.1.push(n - 1)
            } else {
                b.1
            },
        );
        assert(reported_upto(lines, conf, n).0 =~= Seq::new(r.0.len(), |x: int| plain_fact(parsed_line(lines[r.0[x]], conf)->Ok_0)));
        assert(reported_upto(lines, conf, n).1 =~= Seq::new(
            r.1.len(),
            |x: int| (trimmed(lines[r.1[x]]), drop_reason(lines[r.1[x]], conf)),
        ));
        r
    }
}

/// Law: of the lines of a text, in order, each that states a fact without a
/// problem gives that fact, its quotes taken off, and each other one that is not
/// blank is dropped with the reason.
pub proof fn every_line_judged(lines: Seq<Seq<char>>, conf: u64, n: int)
    requires
        0 <= n <= lines.len(),
    ensures
        exists|at: Seq<int>| #[trigger]
            is_selection(at, n, is_kept(lines, conf)) && reported_upto(lines, conf, n).0 == Seq::new(
                at.len(),
                |x: int| plain_fact(parsed_line(lines[at[x]], conf)->Ok_0),
            ),
        exists|at: Seq<int>| #[trigger]
            is_selection(at, n, is_dropped(lines, conf)) && reported_upto(lines, conf, n).1 == Seq::new(
                at.len(),
                |x: int| (trimmed(lines[at[x]]), drop_reason(lines[at[x]], conf)),
            ),
{
    let r = lemma_reported(lines, conf, n);
    assert(is_selection(r.0, n, is_kept(lines, conf)));
    assert(is_selection(r.1, n, is_dropped(lines, conf)));
}

/// A line that parses.
pub open spec fn is_stated(lines: Seq<Seq<char>>, conf: u64) -> spec_fn(int) -> bool {
    |i: int| parsed_line(lines[i], conf) is Ok
}

/// An edge line with two entity names and a relation name.
pub open spec fn is_strict(lines: Seq<Seq<char>>, conf: u64) -> spec_fn(int) -> bool {
    |i: int| edge_line(trimmed(lines[i]), conf) is Ok && is_clean(edge_line(trimmed(lines[i]), conf)->Ok_0)
}

proof fn lemma_stated(lines: Seq<Seq<char>>, conf: u64, n: int) -> (r: (Seq<int>, Seq<int>))
    requires
        0 <= n <= lines.len(),
    ensures
        is_selection(r.0, n, is_stated(lines, conf)),
        is_selection(r.1, n, is_strict(lines, conf)),
        protocol_upto(lines, conf, n) == Seq::new(r.0.len(), |x: int| parsed_line(lines[r.0[x]], conf)->Ok_0),
        strict_upto(lines, conf, n) == Seq::new(r.1.len(), |x: int| edge_line(trimmed(lines[r.1[x]]), conf)->Ok_0),
    decreases n,
{
    if n == 0 {
        let r = (Seq::<int>::empty(), Seq::<int>::empty());
        assert(protocol_upto(lines, conf, n) =~= Seq::new(r.0.len(), |x: int| parsed_line(lines[r.0[x]], conf)->Ok_0));
        assert(strict_upto(lines, conf, n) =~= Seq::new(r.1.len(), |x: int| edge_line(trimmed(lines[r.1[x]]), conf)->Ok_0));
        r
    } else {
        let b = lemma_stated(lines, conf, n - 1);
        lemma_selection(b.0, n - 1, is_stated(lines, conf));
        lemma_selection(b.1, n - 1, is_strict(lines, conf));
        let r = (
            if is_stated(lines, conf)(n - 1) {
                b.0.push(n - 1)
            } else {
                b.0
            },
            if is_strict(lines, conf)(n - 1) {
                b.1.push(n - 1)
            } else {
                b.1
            },
        );
        assert(protocol_upto(lines, conf, n) =~= Seq::new(r.0.len(), |x: int| parsed_line(lines[r.0[x]], conf)->Ok_0));
        assert(strict_upto(lines, conf, n) =~= Seq::new(r.1.len(), |x: int| edge_line(trimmed(lines[r.1[x]]), conf)->Ok_0));
        r
    }
}

/// Law: the plain parse of a text gives the fact of every line that parses, in
/// order, and the strict one that of every clean edge line.
pub proof fn every_line_read(lines: Seq<Seq<char>>, conf: u64, n: int)
    requires
        0 <= n <= lines.len(),
    ensures
        exists|at: Seq<int>| #[trigger]
            is_selection(at, n, is_stated(lines, conf)) && protocol_upto(lines, conf, n) == Seq::new(
                at.len(),
                |x: int| parsed_line(lines[at[x]], conf)->Ok_0,
            ),
        exists|at: Seq<int>| #[trigger]
            is_selection(at, n, is_strict(lines, conf)) && strict_upto(lines, conf, n) == Seq::new(
                at.len(),
                |x: int| edge_line(trimmed(lines[at[x]]), conf)->Ok_0,
            ),
{
    let r = lemma_stated(lines, conf, n);
    assert(is_selection(r.0, n, is_stated(lines, conf)));
    assert(is_selection(r.1, n, is_strict(lines, conf)));
}

/// Law: an entity name is a text that is not empty, does not refer without
/// naming, has up to sixty bytes and eight words, and only characters that can
/// stand in a name. In quotes the first two are enough.
pub proof fn entities_judged(s: Seq<char>)
    ensures
        entity_problem(s) is None <==> {
            &&& s.len() > 0
            &&& !is_reference(lower_text(s))
            &&& byte_length(s) <= 60
            &&& words(s) <= 8
            &&& forall|i: int| 0 <= i < s.len() ==> {
                let c = #[trigger] s[i];
                alphanumeric(c) || c == '_' || c == '-' || c == '\'' || c == ' '
            }
        },
        quoted_problem(s) is None <==> s.len() > 0 && !is_reference(lower_text(s)),
{
    if entity_problem(s) is None {
        assert(all_name_chars(s));
        assert forall|i: int| 0 <= i < s.len() implies ({
            let c = #[trigger] s[i];
            alphanumeric(c) || c == '_' || c == '-' || c == '\'' || c == ' '
        }) by {
            assert(is_name_char(s[i]));
        }
    }
}

/// Law: a fact is kept where its subject and its object are entity names, with
/// quotes or without, and its relation is a relation name.
pub proof fn facts_judged(c: CandV)
    ensures
        fact_problem(c) is None <==> {
            &&& if in_quotes(c.subj) {
                quoted_problem(unquoted(c.subj)) is None
            } else {
                entity_problem(c.subj) is None
            }
            &&& if in_quotes(c.obj) {
                quoted_problem(unquoted(c.obj)) is None
            } else {
                entity_problem(c.obj) is None
            }
            &&& forall|i: int| 0 <= i < c.pred.len() ==> {
                let x = #[trigger] c.pred[i];
                ('a' <= x && x <= 'z') || ('0' <= x && x <= '9') || x == '_'
            }
        },
        plain_fact(c).pred == c.pred,
        plain_fact(c).confidence == c.confidence,
        plain_fact(c).subj == (if c.subj.len() >= 2 && c.subj[0] == '"' && c.subj.last() == '"' {
            c.subj.subrange(1, c.subj.len() - 1)
        } else {
            c.subj
        }),
        plain_fact(c).obj == (if c.obj.len() >= 2 && c.obj[0] == '"' && c.obj.last() == '"' {
            c.obj.subrange(1, c.obj.len() - 1)
        } else {
            c.obj
        }),
{
    if all_snake(c.pred) {
        assert forall|i: int| 0 <= i < c.pred.len() implies ({
            let x = #[trigger] c.pred[i];
            ('a' <= x && x <= 'z') || ('0' <= x && x <= '9') || x == '_'
        }) by {
            assert(is_snake(c.pred[i]));
        }
    }
}

// --------------------------------------------------------------------- reading

/// A candidate as a line, with its confidence.
pub open spec fn written_edge(c: CandV) -> Seq<char> {
    c.subj + " --"@ + c.pred + "["@ + shortest_text(c.confidence) + "]--> "@ + c.obj
}

/// A candidate as a line, without its confidence.
pub open spec fn written_plainly(c: CandV) -> Seq<char> {
    c.subj + " --"@ + c.pred + "--> "@ + c.obj
}

/// A candidate that a line can hold: the subject has no double dash, the object
/// does not end with a bracket, neither has white space around it, and the
/// relation is a relation name.
pub open spec fn is_writable(c: CandV) -> bool {
    &&& c.subj.len() > 0 && is_tight(c.subj)
    &&& forall|i: int| 0 <= i < c.subj.len() - 1 ==> !(#[trigger] c.subj[i] == '-' && c.subj[i + 1] == '-')
    &&& c.obj.len() > 0 && is_tight(c.obj) && c.obj.last() != ')'
    &&& c.pred.len() > 0 && all_snake(c.pred)
}

proof fn lemma_find_first(s: Seq<char>, p: Seq<char>, i: int, j: int)
    requires
        0 <= i <= j,
        stands_at(s, p, j),
        forall|k: int| i <= k < j ==> !(#[trigger] stands_at(s, p, k)),
    ensures
        find_from(s, p, i) == Some(j),
    decreases j - i,
{
    if i < j {
        lemma_find_first(s, p, i + 1, j);
    }
}

proof fn lemma_no_last(s: Seq<char>, c: char, n: int)
    requires
        0 <= n <= s.len(),
        forall|i: int| 0 <= i < n ==> (#[trigger] s[i]) != c,
    ensures
        last_below(s, c, n) is None,
    decreases n,
{
    if n > 0 {
        lemma_no_last(s, c, n - 1);
    }
}

proof fn lemma_last(s: Seq<char>, c: char, n: int, j: int)
    requires
        0 <= j < n <= s.len(),
        s[j] == c,
        forall|i: int| j < i < n ==> (#[trigger] s[i]) != c,
    ensures
        last_below(s, c, n) == Some(j),
    decreases n,
{
    if n - 1 > j {
        lemma_last(s, c, n - 1, j);
    }
}

proof fn lemma_last_at(s: Seq<char>, c: char, n: int)
    ensures
        match last_below(s, c, n) {
            Some(j) => 0 <= j < n && s[j] == c,
            None => true,
        },
    decreases n,
{
    if n > 0 {
        lemma_last_at(s, c, n - 1);
    }
}

/// What a line with an edge reads as, whatever stands between the dashes.
proof fn lemma_edge(c: CandV, rel: Seq<char>, line: Seq<char>, d: u64)
    requires
        is_writable(c),
        line == c.subj + " --"@ + rel + "--> "@ + c.obj,
        rel.len() > 0,
        is_tight(rel),
        forall|i: int| 0 <= i < rel.len() - 1 ==> !(#[trigger] rel[i] == '-' && rel[i + 1] == '-'),
        rel.last() != '-',
    ensures
        parsed_line(line, d) == (if relation_part(rel, d).0.len() == 0 {
            Err("empty relation"@)
        } else {
            Ok(CandV { subj: c.subj, pred: relation_part(rel, d).0, obj: c.obj, confidence: relation_part(rel, d).1 })
        }),
{
    reveal_strlit(" --");
    reveal_strlit("--> ");
    reveal_strlit("--");
    reveal_strlit("-->");
    let n = line.len() as int;
    let a = c.subj.len() as int;
    let m = rel.len() as int;
    let none = Seq::<char>::empty();
    assert(none + line + none =~= line);
    assert(line[0] == c.subj[0]);
    assert(line.last() == c.obj.last());
    trimming_means(none, line, none);
    lemma_last_at(line, ')', n);
    assert(line[n - 1] == c.obj.last());
    assert(predicate_line(line, d) is None);
    assert forall|k: int| 0 <= k < a + 1 implies !(#[trigger] stands_at(line, "--"@, k)) by {
        if stands_at(line, "--"@, k) {
            let t = line.subrange(k, k + 2);
            assert(t[0] == '-' && t[1] == '-');
            assert(line[k] == '-' && line[k + 1] == '-');
            if k < a {
                assert(line[k] == c.subj[k]);
                if k + 1 < a {
                    assert(line[k + 1] == c.subj[k + 1]);
                } else {
                    assert(line[k + 1] == ' ');
                }
            } else {
                assert(line[k] == ' ');
            }
        }
    }
    assert(line.subrange(a + 1, a + 3) =~= "--"@);
    lemma_find_first(line, "--"@, 0, a + 1);
    let rest = line.subrange(a + 3, n);
    assert(rest =~= rel + "--> "@ + c.obj);
    assert forall|k: int| 0 <= k < m implies !(#[trigger] stands_at(rest, "-->"@, k)) by {
        if stands_at(rest, "-->"@, k) {
            let t = rest.subrange(k, k + 3);
            assert(t[0] == '-' && t[1] == '-');
            assert(rest[k] == '-' && rest[k + 1] == '-');
            assert(rest[k] == rel[k]);
            if k + 1 < m {
                assert(rest[k + 1] == rel[k + 1]);
            }
        }
    }
    assert(rest.subrange(m, m + 3) =~= "-->"@);
    lemma_find_first(rest, "-->"@, 0, m);
    assert(rest.subrange(0, m) =~= none + rel + none);
    trimming_means(none, rel, none);
    assert(white(' '));
    assert(line.subrange(0, a + 1) =~= none + c.subj + seq![' ']);
    trimming_means(none, c.subj, seq![' ']);
    assert(rest.subrange(m + 3, rest.len() as int) =~= seq![' '] + c.obj + none);
    trimming_means(seq![' '], c.obj, none);
}

/// Law: what is written as an edge line reads back: the subject, the relation, the
/// object and the confidence. Without a confidence it reads with the one that is
/// the default.
pub proof fn edges_read_back(c: CandV, d: u64)
    requires
        is_writable(c),
        unit_bits(c.confidence),
    ensures
        parsed_line(written_edge(c), d) == Ok::<CandV, Seq<char>>(c),
        parsed_line(written_plainly(c), d) == Ok::<CandV, Seq<char>>(CandV { confidence: d, ..c }),
{
    let num = shortest_text(c.confidence);
    let p = c.pred.len() as int;
    reveal_strlit("[");
    reveal_strlit("]--> ");
    reveal_strlit("--> ");
    lemma_shortest_chars(c.confidence);
    confidence_reads_back(c.confidence);
    assert forall|i: int| 0 <= i < p implies (#[trigger] c.pred[i]) != '[' && c.pred[i] != '-' && !white(c.pred[i]) by {
        assert(crate::scan::is_snake(c.pred[i]));
    }
    // With a confidence.
    let rel = c.pred + "["@ + num + "]"@;
    reveal_strlit("]");
    let n = rel.len() as int;
    assert(written_edge(c) =~= c.subj + " --"@ + rel + "--> "@ + c.obj);
    assert(rel[n - 1] == ']' && rel[p] == '[');
    assert forall|i: int| p < i < n - 1 implies (#[trigger] rel[i]) == num[i - p - 1] by {}
    lemma_last(rel, '[', n, p);
    assert(rel[0] == c.pred[0]);
    assert forall|i: int| 0 <= i < rel.len() - 1 implies !(#[trigger] rel[i] == '-' && rel[i + 1] == '-') by {
        reveal_strlit("-0");
        if i < p {
            assert(rel[i] == c.pred[i]);
        } else if p < i && i + 1 < n - 1 {
            assert(rel[i] == num[i - p - 1] && rel[i + 1] == num[i - p]);
        }
    }
    lemma_edge(c, rel, written_edge(c), d);
    let tail = rel.subrange(p + 1, n);
    assert(tail =~= num.push(']'));
    assert(tail.drop_last() =~= num);
    assert(without_brackets(tail) == without_brackets(num));
    assert(without_brackets(num) == num);
    let none = Seq::<char>::empty();
    assert(none + num + none =~= num);
    trimming_means(none, num, none);
    assert(rel.subrange(0, p) =~= none + c.pred + none);
    trimming_means(none, c.pred, none);
    // Without one.
    lemma_no_last(c.pred, '[', p);
    lemma_edge(c, c.pred, written_plainly(c), d);
}

/// Nothing in a text parts it or has a meaning of its own.
pub open spec fn is_plain_part(s: Seq<char>) -> bool {
    &&& s.len() > 0
    &&& is_tight(s)
    &&& forall|i: int| 0 <= i < s.len() ==> {
        let c = #[trigger] s[i];
        c != ',' && c != '"' && c != '(' && c != ')'
    }
}

proof fn lemma_no_quotes(s: Seq<char>, n: int)
    requires
        0 <= n <= s.len(),
        forall|i: int| 0 <= i < s.len() ==> (#[trigger] s[i]) != '"',
    ensures
        quotes_before(s, n) == 0,
    decreases n,
{
    if n > 0 {
        lemma_no_quotes(s, n - 1);
        assert(s[n - 1] != '"');
    }
}

proof fn lemma_separators_first(a: Seq<char>, t: Seq<char>, n: int)
    requires
        0 <= n <= a.len() <= t.len(),
        forall|i: int| 0 <= i < a.len() ==> a[i] == #[trigger] t[i],
        forall|i: int| 0 <= i < t.len() ==> (#[trigger] t[i]) != '"',
    ensures
        separators(t, n) == separators(a, n),
    decreases n,
{
    if n > 0 {
        lemma_separators_first(a, t, n - 1);
        assert(a[n - 1] == t[n - 1]);
        lemma_no_quotes(t, n - 1);
        assert forall|i: int| 0 <= i < a.len() implies (#[trigger] a[i]) != '"' by {
            assert(a[i] == t[i]);
        }
        lemma_no_quotes(a, n - 1);
    }
}

proof fn lemma_separators_past(t: Seq<char>, m: int, n: int)
    requires
        0 <= m <= n <= t.len(),
        forall|i: int| m <= i < n ==> (#[trigger] t[i]) != ',',
    ensures
        separators(t, n) == separators(t, m),
    decreases n,
{
    if n > m {
        lemma_separators_past(t, m, n - 1);
        assert(t[n - 1] != ',');
    }
}

proof fn lemma_separators_below(t: Seq<char>, n: int)
    requires
        0 <= n <= t.len(),
    ensures
        forall|k: int| 0 <= k < separators(t, n).len() ==> 0 <= #[trigger] separators(t, n)[k] < n,
        forall|j: int, k: int| 0 <= j < k < separators(t, n).len() ==> (#[trigger] separators(t, n)[j]) < (#[trigger] separators(t, n)[k]),
    decreases n,
{
    if n > 0 {
        lemma_separators_below(t, n - 1);
        let b = separators(t, n - 1);
        let s = separators(t, n);
        assert(s == b || s == b.push(n - 1));
        assert forall|k: int| 0 <= k < s.len() implies 0 <= #[trigger] s[k] < n by {
            if k < b.len() {
                assert(s[k] == b[k]);
            }
        }
        assert forall|j: int, k: int| 0 <= j < k < s.len() implies (#[trigger] s[j]) < (#[trigger] s[k]) by {
            assert(s[j] == b[j]);
            if k < b.len() {
                assert(s[k] == b[k]);
            }
        }
    }
}

/// One more part behind a comma.
proof fn lemma_split_push(a: Seq<char>, b: Seq<char>)
    requires
        forall|i: int| 0 <= i < a.len() ==> (#[trigger] a[i]) != '"',
        forall|i: int| 0 <= i < b.len() ==> (#[trigger] b[i]) != '"' && b[i] != ',',
    ensures
        split_parts(a + seq![','] + b) == split_parts(a).push(trimmed(b)),
{
    let t = a + seq![','] + b;
    let n = a.len() as int;
    let len = t.len() as int;
    assert forall|i: int| 0 <= i < t.len() implies (#[trigger] t[i]) != '"' by {
        if i < n {
            assert(t[i] == a[i]);
        } else if i > n {
            assert(t[i] == b[i - n - 1]);
        }
    }
    assert forall|i: int| n + 1 <= i < len implies (#[trigger] t[i]) != ',' by {
        assert(t[i] == b[i - n - 1]);
    }
    lemma_separators_first(a, t, n);
    lemma_no_quotes(t, n);
    assert(t[n] == ',');
    assert(separators(t, n + 1) == separators(t, n).push(n));
    lemma_separators_past(t, n + 1, len);
    let x = separators(a, n);
    let y = separators(t, len);
    lemma_separators_below(a, n);
    assert(y == x.push(n));
    let left = split_parts(t);
    let right = split_parts(a).push(trimmed(b));
    assert forall|k: int| 0 <= k < left.len() implies left[k] == right[k] by {
        let from = part_start(y, k);
        if k < x.len() {
            assert(y[k] == x[k]);
            if k > 0 {
                assert(y[k - 1] == x[k - 1]);
                assert(x[k - 1] < x[k]);
            }
            assert(t.subrange(from, y[k]) =~= a.subrange(part_start(x, k), x[k]));
        } else if k == x.len() {
            assert(y[k] == n);
            if k > 0 {
                assert(y[k - 1] == x[k - 1]);
            }
            assert(t.subrange(from, n) =~= a.subrange(part_start(x, k), n));
        } else {
            assert(y[k - 1] == n);
            assert(t.subrange(n + 1, len) =~= b);
        }
    }
    assert(left =~= right);
}

proof fn lemma_parts(parts: Seq<Seq<char>>)
    requires
        parts.len() > 0,
        forall|i: int| 0 <= i < parts.len() ==> is_plain_part(#[trigger] parts[i]),
    ensures
        split_parts(joined(parts, ", "@)) == parts,
        forall|i: int| 0 <= i < joined(parts, ", "@).len() ==> (#[trigger] joined(parts, ", "@)[i]) != '"' && joined(parts, ", "@)[i] != ')',
    decreases parts.len(),
{
    let s = joined(parts, ", "@);
    let none = Seq::<char>::empty();
    let p = parts.last();
    assert(is_plain_part(parts[parts.len() - 1]));
    reveal_strlit(", ");
    if parts.len() == 1 {
        assert(s == p);
        lemma_separators_past(s, 0, s.len() as int);
        assert(separators(s, s.len() as int) == Seq::<int>::empty());
        assert(s.subrange(0, s.len() as int) =~= none + p + none);
        trimming_means(none, p, none);
        assert(split_parts(s) =~= parts);
    } else {
        let d = parts.drop_last();
        let a = joined(d, ", "@);
        assert forall|i: int| 0 <= i < d.len() implies is_plain_part(#[trigger] d[i]) by {
            assert(d[i] == parts[i]);
        }
        lemma_parts(d);
        let b = seq![' '] + p;
        assert(s =~= a + seq![','] + b);
        assert forall|i: int| 0 <= i < b.len() implies (#[trigger] b[i]) != '"' && b[i] != ',' && b[i] != ')' by {
            if i > 0 {
                assert(b[i] == p[i - 1]);
            }
        }
        lemma_split_push(a, b);
        assert(white(' '));
        assert(b =~= seq![' '] + p + none);
        trimming_means(seq![' '], p, none);
        assert(d.push(p) =~= parts);
        assert forall|i: int| 0 <= i < s.len() implies (#[trigger] s[i]) != '"' && s[i] != ')' by {
            if i < a.len() {
                assert(s[i] == a[i]);
            } else if i > a.len() {
                assert(s[i] == b[i - a.len() - 1]);
            }
        }
    }
}

/// Law: arguments that are written with commas between them are read as they
/// were, however many they are.
pub proof fn parts_read_back(parts: Seq<Seq<char>>)
    requires
        parts.len() > 0,
        forall|i: int| 0 <= i < parts.len() ==> is_plain_part(#[trigger] parts[i]),
    ensures
        split_parts(joined(parts, ", "@)) == parts,
{
    lemma_parts(parts);
}

proof fn lemma_call(pred: Seq<char>, inner: Seq<char>, s: Seq<char>)
    requires
        s == pred + "("@ + inner + ")"@,
        pred.len() > 0,
        all_snake(pred),
        forall|i: int| 0 <= i < inner.len() ==> (#[trigger] inner[i]) != ')',
    ensures
        trimmed(s) == s,
        s.last() == ')',
        find_from(s, seq!['('], 0) == Some(pred.len() as int),
        last_below(s, ')', s.len() as int) == Some(s.len() - 1),
        trimmed(s.subrange(0, pred.len() as int)) == pred,
        s.subrange(1int + pred.len(), s.len() - 1) == inner,
{
    reveal_strlit("(");
    reveal_strlit(")");
    let n = pred.len() as int;
    let none = Seq::<char>::empty();
    assert forall|i: int| 0 <= i < n implies !white(#[trigger] pred[i]) && pred[i] != '(' by {
        assert(is_snake(pred[i]));
    }
    assert(s[0] == pred[0]);
    assert(s.last() == ')');
    assert(none + s + none =~= s);
    trimming_means(none, s, none);
    assert forall|k: int| 0 <= k < n implies !(#[trigger] stands_at(s, seq!['('], k)) by {
        if stands_at(s, seq!['('], k) {
            assert(s.subrange(k, k + 1)[0] == '(');
            assert(s[k] == pred[k]);
        }
    }
    assert(s.subrange(n, n + 1) =~= seq!['(']);
    lemma_find_first(s, seq!['('], 0, n);
    lemma_last(s, ')', s.len() as int, s.len() - 1);
    assert(s.subrange(0, n) =~= none + pred + none);
    trimming_means(none, pred, none);
    assert(s.subrange(n + 1, s.len() - 1) =~= inner);
}

/// Law: what is written as `pred(subject, object)` reads back, with the default
/// confidence.
pub proof fn predicates_read_back(c: CandV, d: u64)
    requires
        is_plain_part(c.subj),
        is_plain_part(c.obj),
        c.pred.len() > 0,
        all_snake(c.pred),
    ensures
        parsed_line(c.pred + "("@ + c.subj + ", "@ + c.obj + ")"@, d) == Ok::<CandV, Seq<char>>(CandV { confidence: d, ..c }),
{
    let parts = seq![c.subj, c.obj];
    let inner = joined(parts, ", "@);
    let s = c.pred + "("@ + c.subj + ", "@ + c.obj + ")"@;
    assert(parts.drop_last() =~= seq![c.subj]);
    assert(joined(parts.drop_last(), ", "@) == c.subj);
    assert(inner == c.subj + ", "@ + c.obj);
    assert(s =~= c.pred + "("@ + inner + ")"@);
    lemma_parts(parts);
    lemma_call(c.pred, inner, s);
}

/// Law: a fact that is asked about, written as `pred(arg, ...)`, reads back with
/// all its arguments, however many they are.
pub proof fn atoms_read_back(pred: Seq<char>, args: Seq<Seq<char>>)
    requires
        pred.len() > 0,
        all_snake(pred),
        args.len() > 0,
        forall|i: int| 0 <= i < args.len() ==> is_plain_part(#[trigger] args[i]),
    ensures
        fact_atom(pred + "("@ + joined(args, ", "@) + ")"@) == Ok::<(Seq<char>, Seq<Seq<char>>), Seq<char>>((pred, args)),
{
    let inner = joined(args, ", "@);
    let s = pred + "("@ + inner + ")"@;
    lemma_parts(args);
    lemma_call(pred, inner, s);
    assert(without_dots(s) == s);
    let read = args.map_values(|a: Seq<char>| quotes_off(a));
    assert forall|i: int| 0 <= i < args.len() implies #[trigger] read[i] == args[i] by {
        assert(is_plain_part(args[i]));
        assert(args[i][0] != '"' && args[i][args[i].len() - 1] != '"');
        assert(quotes_off_front(args[i]) == args[i]);
        assert(quotes_off_back(args[i]) == args[i]);
    }
    assert(read =~= args);
}

} // verus!

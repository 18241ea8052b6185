//! Escaping of fields in snapshots.

use vstd::prelude::*;
use crate::text::to_chars;

verus! {

/// How a character is written in a field, or in an item of a list.
pub open spec fn escaped_char(c: char, item: bool) -> Seq<char> {
    if c == '\\' {
        seq!['\\', '\\']
    } else if c == '\t' {
        seq!['\\', 't']
    } else if c == '\n' {
        seq!['\\', 'n']
    } else if c == '\r' {
        seq!['\\', 'r']
    } else if c == ' ' {
        seq!['\\', 's']
    } else if c == ',' && item {
        seq!['\\', 'c']
    } else {
        seq![c]
    }
}

/// The characters of a text, each as it is written.
pub open spec fn escaped_chars(s: Seq<char>, item: bool) -> Seq<char>
    decreases s.len(),
{
    if s.len() == 0 {
        Seq::empty()
    } else {
        escaped_chars(s.drop_last(), item) + escaped_char(s.last(), item)
    }
}

/// A text as one field: backslashes, tabs, line ends, carriage returns and
/// spaces are escaped.
pub open spec fn escaped(s: Seq<char>) -> Seq<char> {
    escaped_chars(s, false)
}

/// A text as one item of a list: commas are escaped too, and the empty text is
/// marked.
pub open spec fn escaped_item(s: Seq<char>) -> Seq<char> {
    if s.len() == 0 {
        seq!['\\', 'e']
    } else {
        escaped_chars(s, true)
    }
}

/// The text of a field from position `i` on. A backslash before any other
/// character, and one at the end, stands for itself.
pub open spec fn unescaped_from(s: Seq<char>, i: int) -> Seq<char>
    decreases s.len() - i,
{
    if i < 0 || i >= s.len() {
        Seq::empty()
    } else if s[i] != '\\' {
        seq![s[i]] + unescaped_from(s, i + 1)
    } else if i + 1 >= s.len() {
        seq!['\\']
    } else if s[i + 1] == 't' {
        seq!['\t'] + unescaped_from(s, i + 2)
    } else if s[i + 1] == 'n' {
        seq!['\n'] + unescaped_from(s, i + 2)
    } else if s[i + 1] == 'r' {
        seq!['\r'] + unescaped_from(s, i + 2)
    } else if s[i + 1] == 's' {
        seq![' '] + unescaped_from(s, i + 2)
    } else if s[i + 1] == 'c' {
        seq![','] + unescaped_from(s, i + 2)
    } else if s[i + 1] == 'e' {
        unescaped_from(s, i + 2)
    } else if s[i + 1] == '\\' {
        seq!['\\'] + unescaped_from(s, i + 2)
    } else {
        seq!['\\', s[i + 1]] + unescaped_from(s, i + 2)
    }
}

/// The text of a field.
pub open spec fn unescaped(s: Seq<char>) -> Seq<char> {
    unescaped_from(s, 0)
}

/// A character that a field does not hold.
pub open spec fn is_break(c: char) -> bool {
    c == '\t' || c == '\n' || c == '\r' || c == ' '
}

proof fn lemma_escaped_chars(s: Seq<char>, item: bool)
    ensures
        forall|i: int| 0 <= i < escaped_chars(s, item).len() ==> !is_break(#[trigger] escaped_chars(s, item)[i]),
        item ==> forall|i: int| 0 <= i < escaped_chars(s, item).len() ==> #[trigger] escaped_chars(s, item)[i] != ',',
        escaped_chars(s, item).len() == 0 <==> s.len() == 0,
    decreases s.len(),
{
    if s.len() > 0 {
        lemma_escaped_chars(s.drop_last(), item);
    }
}

/// Law: an escaped field holds no tab, no line end, no carriage return and no
/// space.
pub proof fn escaped_is_one_field(s: Seq<char>)
    ensures
        forall|i: int| 0 <= i < escaped(s).len() ==> !is_break(#[trigger] escaped(s)[i]),
        escaped(s).len() == 0 <==> s.len() == 0,
{
    lemma_escaped_chars(s, false);
}

/// Law: an escaped item is not empty, and holds no comma nor what a field does
/// not hold.
pub proof fn escaped_is_one_item(s: Seq<char>)
    ensures
        forall|i: int| 0 <= i < escaped_item(s).len() ==> !is_break(#[trigger] escaped_item(s)[i]) && escaped_item(s)[i] != ',',
        escaped_item(s).len() > 0,
{
    lemma_escaped_chars(s, true);
}

/// Reading a field from the front.
proof fn lemma_escaped_front(s: Seq<char>, item: bool)
    requires
        s.len() > 0,
    ensures
        escaped_chars(s, item) == escaped_char(s[0], item) + escaped_chars(s.drop_first(), item),
    decreases s.len(),
{
    let first = escaped_char(s[0], item);
    if s.len() == 1 {
        assert(s.drop_last() =~= Seq::empty());
        assert(s.drop_first() =~= Seq::empty());
        assert(escaped_chars(s, item) =~= first + escaped_chars(s.drop_first(), item));
    } else {
        lemma_escaped_front(s.drop_last(), item);
        assert(s.drop_last().drop_first() =~= s.drop_first().drop_last());
        assert(s.drop_first().last() == s.last());
        assert(escaped_chars(s, item) =~= first + (escaped_chars(s.drop_first().drop_last(), item) + escaped_char(
            s.last(),
            item,
        )));
    }
}

proof fn lemma_unescaped_shift(p: Seq<char>, s: Seq<char>, i: int)
    requires
        i >= 0,
    ensures
        unescaped_from(p + s, p.len() + i) == unescaped_from(s, i),
    decreases s.len() - i,
{
    let t = p + s;
    let k = p.len() + i;
    if i < s.len() {
        assert(t[k] == s[i]);
        if i + 1 < s.len() {
            assert(t[k + 1] == s[i + 1]);
            lemma_unescaped_shift(p, s, i + 2);
        }
        lemma_unescaped_shift(p, s, i + 1);
    }
}

proof fn lemma_chars_read_back(s: Seq<char>, item: bool)
    ensures
        unescaped(escaped_chars(s, item)) == s,
    decreases s.len(),
{
    if s.len() == 0 {
        assert(escaped_chars(s, item) =~= Seq::empty());
        assert(unescaped(escaped_chars(s, item)) =~= s);
    } else {
        let d = s.drop_first();
        lemma_chars_read_back(d, item);
        lemma_escaped_front(s, item);
        let p = escaped_char(s[0], item);
        lemma_unescaped_shift(p, escaped_chars(d, item), 0);
        let t = escaped_chars(s, item);
        assert(t[0] == p[0]);
        if p.len() == 2 {
            assert(t[1] == p[1]);
        }
        assert(unescaped(t) =~= seq![s[0]] + unescaped(escaped_chars(d, item)));
        assert(seq![s[0]] + d =~= s);
    }
}

/// Law: a text that was escaped reads back.
pub proof fn unescaped_escaped(s: Seq<char>)
    ensures
        unescaped(escaped(s)) == s,
        unescaped(escaped_item(s)) == s,
{
    lemma_chars_read_back(s, false);
    lemma_chars_read_back(s, true);
    if s.len() == 0 {
        reveal_with_fuel(unescaped_from, 2);
        assert(unescaped(seq!['\\', 'e']) =~= s);
    }
}

/// Escapes a field.
pub fn esc(s: &str) -> (r: String)
    ensures
        r@ == escaped(s@),
{
    escape_chars(s, false)
}

/// Escapes an item of a list.
pub fn esc_item(s: &str) -> (r: String)
    ensures
        r@ == escaped_item(s@),
{
    if s.is_empty() {
        let r = "\\e".to_owned();
        proof {
            reveal_strlit("\\e");
        }
        assert(r@ =~= seq!['\\', 'e']);
        r
    } else {
        escape_chars(s, true)
    }
}

fn escape_chars(s: &str, item: bool) -> (r: String)
    ensures
        r@ == escaped_chars(s@, item),
{
    let v = to_chars(s);
    let mut out = String::new();
    let mut i: usize = 0;
    assert(s@.take(0) =~= Seq::empty());
    assert(out@ =~= Seq::empty());
    while i < v.len()
        invariant
            i <= v@.len(),
            v@ == s@,
            out@ == escaped_chars(s@.take(i as int), item),
        decreases v@.len() - i,
    {
        let c = v[i];
        let ghost before = out@;
        assert(s@.take(i + 1).drop_last() =~= s@.take(i as int));
        if c == '\\' {
            out.push('\\');
            out.push('\\');
        } else if c == '\t' {
            out.push('\\');
            out.push('t');
        } else if c == '\n' {
            out.push('\\');
            out.push('n');
        } else if c == '\r' {
            out.push('\\');
            out.push('r');
        } else if c == ' ' {
            out.push('\\');
            out.push('s');
        } else if c == ',' && item {
            out.push('\\');
            out.push('c');
        } else {
            out.push(c);
        }
        assert(out@ =~= before + escaped_char(c, item));
        i += 1;
    }
    assert(s@.take(s@.len() as int) =~= s@);
    out
}

/// The text of an escaped field.
pub fn unesc(s: &str) -> (r: String)
    ensures
        r@ == unescaped(s@),
{
    let v = to_chars(s);
    let n: usize = v.len();
    let mut out = String::new();
    let mut i: usize = 0;
    assert(out@ + unescaped_from(s@, 0) =~= unescaped(s@));
    while i < n
        invariant
            i <= n,
            n == v@.len(),
            v@ == s@,
            unescaped(s@) == out@ + unescaped_from(s@, i as int),
        decreases n - i,
    {
        let ghost before = out@;
        let ghost rest = unescaped_from(s@, i as int);
        if v[i] != '\\' {
            out.push(v[i]);
            assert(before + rest =~= out@ + unescaped_from(s@, i + 1));
            i += 1;
        } else if n - i == 1 {
            out.push('\\');
            assert(before + rest =~= out@ + unescaped_from(s@, i + 1));
            i += 1;
        } else {
            let d = v[i + 1];
            if d == 't' {
                out.push('\t');
            } else if d == 'n' {
                out.push('\n');
            } else if d == 'r' {
                out.push('\r');
            } else if d == 's' {
                out.push(' ');
            } else if d == 'c' {
                out.push(',');
            } else if d == 'e' {
            } else if d == '\\' {
                out.push('\\');
            } else {
                out.push('\\');
                out.push(d);
            }
            assert(before + rest =~= out@ + unescaped_from(s@, i + 2));
            i += 2;
        }
    }
    assert(out@ + Seq::<char>::empty() =~= out@);
    out
}

} // verus!

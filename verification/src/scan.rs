//! Scanning text: blanks, lines, words and substrings.

use vstd::prelude::*;
use crate::lexer::line_end;
use crate::text::{slice_text, texts, to_chars};

verus! {

/// The character is white space, as Unicode has it.
pub open spec fn white(c: char) -> bool {
    let n = c as u32;
    ||| 9 <= n <= 13
    ||| n == 32
    ||| n == 0x85
    ||| n == 0xA0
    ||| n == 0x1680
    ||| 0x2000 <= n <= 0x200A
    ||| n == 0x2028
    ||| n == 0x2029
    ||| n == 0x202F
    ||| n == 0x205F
    ||| n == 0x3000
}

/// Whether the character is white space.
pub fn is_white(c: char) -> (r: bool)
    ensures
        r == white(c),
{
    let n: u32 = c as u32;
    (9 <= n && n <= 13) || n == 32 || n == 0x85 || n == 0xA0 || n == 0x1680 || (0x2000 <= n && n <= 0x200A) || n == 0x2028
        || n == 0x2029 || n == 0x202F || n == 0x205F || n == 0x3000
}

/// The text without the white space at its start.
pub open spec fn trim_left(s: Seq<char>) -> Seq<char>
    decreases s.len(),
{
    if s.len() > 0 && white(s[0]) {
        trim_left(s.drop_first())
    } else {
        s
    }
}

/// The text without the white space at its end.
pub open spec fn trim_right(s: Seq<char>) -> Seq<char>
    decreases s.len(),
{
    if s.len() > 0 && white(s.last()) {
        trim_right(s.drop_last())
    } else {
        s
    }
}

/// The text without white space around it.
pub open spec fn trimmed(s: Seq<char>) -> Seq<char> {
    trim_right(trim_left(s))
}

/// The part of a range without white space around it.
pub fn trim_range(v: &Vec<char>, a: usize, b: usize) -> (r: (usize, usize))
    requires
        a <= b <= v@.len(),
    ensures
        a <= r.0 <= r.1 <= b,
        v@.subrange(r.0 as int, r.1 as int) == trimmed(v@.subrange(a as int, b as int)),
{
    let ghost s = v@.subrange(a as int, b as int);
    let mut i: usize = a;
    while i < b && is_white(v[i])
        invariant
            a <= i <= b <= v@.len(),
            trim_left(s) == trim_left(v@.subrange(i as int, b as int)),
        decreases b - i,
    {
        assert(v@.subrange(i as int, b as int).drop_first() =~= v@.subrange(i + 1, b as int));
        i += 1;
    }
    let ghost t = v@.subrange(i as int, b as int);
    assert(trim_left(s) == t);
    let mut j: usize = b;
    while j > i && is_white(v[j - 1])
        invariant
            a <= i <= j <= b <= v@.len(),
            trim_right(t) == trim_right(v@.subrange(i as int, j as int)),
        decreases j - i,
    {
        assert(v@.subrange(i as int, j as int).drop_last() =~= v@.subrange(i as int, j - 1));
        assert(v@.subrange(i as int, j as int).last() == v@[j - 1]);
        j -= 1;
    }
    proof {
        if j > i {
            assert(v@.subrange(i as int, j as int).last() == v@[j - 1]);
        }
    }
    (i, j)
}

/// The text without white space around it.
pub fn trim_text(s: &str) -> (r: String)
    ensures
        r@ == trimmed(s@),
{
    let v = to_chars(s);
    assert(v@.subrange(0, v@.len() as int) =~= s@);
    let (a, b) = trim_range(&v, 0, v.len());
    slice_text(&v, a, b)
}

// ------------------------------------------------------------------ lines

/// The text without a carriage return at its end.
pub open spec fn without_cr(s: Seq<char>) -> Seq<char> {
    if s.len() > 0 && s.last() == '\r' {
        s.drop_last()
    } else {
        s
    }
}

/// The lines from `i` on. A line feed ends a line, together with a carriage
/// return before it.
pub open spec fn lines_from(s: Seq<char>, i: int) -> Seq<Seq<char>>
    decreases s.len() - i,
{
    if i < 0 || i >= s.len() {
        Seq::empty()
    } else {
        let e = line_end(s, i);
        if i <= e < s.len() {
            seq![without_cr(s.subrange(i, e))] + lines_from(s, e + 1)
        } else {
            seq![s.subrange(i, s.len() as int)]
        }
    }
}

/// The lines of a text.
pub open spec fn lines_of(s: Seq<char>) -> Seq<Seq<char>> {
    lines_from(s, 0)
}

fn find_line_end(v: &Vec<char>, i: usize) -> (r: usize)
    requires
        i <= v@.len(),
    ensures
        r == line_end(v@, i as int),
        i <= r <= v@.len(),
{
    let mut j: usize = i;
    while j < v.len() && v[j] != '\n'
        invariant
            i <= j <= v@.len(),
            line_end(v@, i as int) == line_end(v@, j as int),
        decreases v@.len() - j,
    {
        j += 1;
    }
    j
}

/// The lines of a text.
pub fn split_lines(s: &str) -> (r: Vec<String>)
    ensures
        texts(r@) == lines_of(s@),
{
    let v = to_chars(s);
    let n: usize = v.len();
    let mut r: Vec<String> = Vec::new();
    let mut i: usize = 0;
    assert(texts(r@) + lines_from(v@, 0) =~= lines_of(s@));
    while i < n
        invariant
            i <= n,
            n == v@.len(),
            v@ == s@,
            texts(r@) + lines_from(v@, i as int) == lines_of(s@),
        decreases n - i,
    {
        let ghost before = texts(r@);
        let e = find_line_end(&v, i);
        if e == n {
            let line = slice_text(&v, i, n);
            r.push(line);
            assert(texts(r@) =~= before.push(line@));
            assert(texts(r@) =~= before + lines_from(v@, i as int));
            assert(texts(r@) =~= texts(r@) + lines_from(v@, n as int));
            i = n;
        } else {
            let end: usize = if e > i && v[e - 1] == '\r' {
                e - 1
            } else {
                e
            };
            let line = slice_text(&v, i, end);
            proof {
                let t = v@.subrange(i as int, e as int);
                if e > i {
                    assert(t.last() == v@[e - 1]);
                    assert(t.drop_last() =~= v@.subrange(i as int, e - 1));
                }
                assert(line@ == without_cr(t));
            }
            r.push(line);
            assert(texts(r@) =~= before.push(line@));
            assert(texts(r@) + lines_from(v@, e + 1) =~= before + lines_from(v@, i as int));
            i = e + 1;
        }
    }
    assert(texts(r@) + lines_from(v@, n as int) =~= texts(r@));
    r
}

// ------------------------------------------------------------- substrings

/// The text `p` stands at position `i`.
pub open spec fn stands_at(s: Seq<char>, p: Seq<char>, i: int) -> bool {
    0 <= i && i + p.len() <= s.len() && s.subrange(i, i + p.len()) == p
}

/// The first position, from `i` on, at which `p` stands.
pub open spec fn find_from(s: Seq<char>, p: Seq<char>, i: int) -> Option<int>
    decreases s.len() + 1 - i,
{
    if i < 0 || i > s.len() {
        None
    } else if stands_at(s, p, i) {
        Some(i)
    } else {
        find_from(s, p, i + 1)
    }
}

fn is_at(v: &Vec<char>, p: &Vec<char>, i: usize) -> (r: bool)
    requires
        i <= v@.len(),
    ensures
        r == stands_at(v@, p@, i as int),
{
    let n: usize = v.len();
    if p.len() > n - i {
        return false;
    }
    let mut j: usize = 0;
    while j < p.len()
        invariant
            j <= p@.len(),
            n == v@.len(),
            i + p@.len() <= n,
            forall|k: int| 0 <= k < j ==> #[trigger] p@[k] == v@[i + k],
        decreases p@.len() - j,
    {
        if v[i + j] != p[j] {
            assert(v@.subrange(i as int, i + p@.len())[j as int] != p@[j as int]);
            return false;
        }
        j += 1;
    }
    assert(v@.subrange(i as int, i + p@.len()) =~= p@);
    true
}

/// The first position at which `p` stands.
pub fn find_text(v: &Vec<char>, p: &str) -> (r: Option<usize>)
    ensures
        match r {
            Some(i) => find_from(v@, p@, 0) == Some(i as int) && i + p@.len() <= v@.len(),
            None => find_from(v@, p@, 0) is None,
        },
{
    find_chars(v, &to_chars(p))
}

/// The first position at which the characters stand.
pub fn find_chars(v: &Vec<char>, p: &Vec<char>) -> (r: Option<usize>)
    ensures
        match r {
            Some(i) => find_from(v@, p@, 0) == Some(i as int) && i + p@.len() <= v@.len(),
            None => find_from(v@, p@, 0) is None,
        },
{
    let n: usize = v.len();
    let mut i: usize = 0;
    while i < n
        invariant
            i <= n,
            n == v@.len(),
            find_from(v@, p@, 0) == find_from(v@, p@, i as int),
        decreases n - i,
    {
        if is_at(v, p, i) {
            return Some(i);
        }
        i += 1;
    }
    if is_at(v, p, n) {
        return Some(n);
    }
    assert(find_from(v@, p@, n + 1) is None);
    None
}

/// The last position below `n` at which a character stands.
pub open spec fn last_below(s: Seq<char>, c: char, n: int) -> Option<int>
    decreases n,
{
    if n <= 0 {
        None
    } else if s[n - 1] == c {
        Some(n - 1)
    } else {
        last_below(s, c, n - 1)
    }
}

/// The last position at which a character stands.
pub fn find_last(v: &Vec<char>, a: usize, b: usize, c: char) -> (r: Option<usize>)
    requires
        a <= b <= v@.len(),
    ensures
        match r {
            Some(i) => a <= i < b && last_below(v@.subrange(a as int, b as int), c, b - a) == Some(i - a),
            None => last_below(v@.subrange(a as int, b as int), c, b - a) is None,
        },
{
    let ghost s = v@.subrange(a as int, b as int);
    let mut i: usize = b;
    while i > a
        invariant
            a <= i <= b <= v@.len(),
            s == v@.subrange(a as int, b as int),
            last_below(s, c, b - a) == last_below(s, c, i - a),
        decreases i,
    {
        assert(s[i - a - 1] == v@[i - 1]);
        if v[i - 1] == c {
            return Some(i - 1);
        }
        i -= 1;
    }
    None
}

// ------------------------------------------------------------------ sizes

/// The number of bytes of a character in UTF-8.
pub open spec fn char_bytes(c: char) -> nat {
    let n = c as u32;
    if n < 0x80 {
        1
    } else if n < 0x800 {
        2
    } else if n < 0x10000 {
        3
    } else {
        4
    }
}

/// The number of bytes of a text in UTF-8.
pub open spec fn byte_length(s: Seq<char>) -> nat
    decreases s.len(),
{
    if s.len() == 0 {
        0
    } else {
        byte_length(s.drop_last()) + char_bytes(s.last())
    }
}

/// The number of bytes of a text in UTF-8.
pub fn count_bytes(s: &str) -> (r: u128)
    ensures
        r == byte_length(s@),
        r <= 4 * usize::MAX,
{
    let v = to_chars(s);
    let mut n: u128 = 0;
    let mut i: usize = 0;
    assert(v@.take(0) =~= Seq::empty());
    while i < v.len()
        invariant
            i <= v@.len(),
            n <= 4 * i,
            n == byte_length(v@.take(i as int)),
        decreases v@.len() - i,
    {
        assert(v@.take(i + 1).drop_last() =~= v@.take(i as int));
        assert(v@.take(i + 1).last() == v@[i as int]);
        let c: u32 = v[i] as u32;
        let w: u128 = if c < 0x80 {
            1
        } else if c < 0x800 {
            2
        } else if c < 0x10000 {
            3
        } else {
            4
        };
        n = n + w;
        i += 1;
    }
    assert(v@.take(v@.len() as int) =~= v@);
    n
}

/// A word starts at the position: a character that is no white space, at the
/// start or after white space.
pub open spec fn word_starts(s: Seq<char>, i: int) -> bool {
    !white(s[i]) && (i == 0 || white(s[i - 1]))
}

/// The number of words among the first `n` characters.
pub open spec fn words_upto(s: Seq<char>, n: int) -> nat
    decreases n,
{
    if n <= 0 {
        0
    } else {
        words_upto(s, n - 1) + (if word_starts(s, n - 1) {
            1nat
        } else {
            0nat
        })
    }
}

/// The number of words of a text.
pub fn count_words(s: &str) -> (r: usize)
    ensures
        r == words_upto(s@, s@.len() as int),
{
    let v = to_chars(s);
    let mut n: usize = 0;
    let mut i: usize = 0;
    while i < v.len()
        invariant
            i <= v@.len(),
            v@ == s@,
            n <= i,
            n == words_upto(s@, i as int),
        decreases v@.len() - i,
    {
        if !is_white(v[i]) && (i == 0 || is_white(v[i - 1])) {
            n += 1;
        }
        i += 1;
    }
    n
}

/// The character can stand in a relation name.
pub open spec fn is_snake(c: char) -> bool {
    ('a' <= c && c <= 'z') || ('0' <= c && c <= '9') || c == '_'
}

/// Every character can stand in a relation name.
pub open spec fn all_snake(s: Seq<char>) -> bool {
    forall|i: int| 0 <= i < s.len() ==> is_snake(#[trigger] s[i])
}

/// Whether every character of a range can stand in a relation name.
pub fn range_is_snake(v: &Vec<char>, a: usize, b: usize) -> (r: bool)
    requires
        a <= b <= v@.len(),
    ensures
        r == all_snake(v@.subrange(a as int, b as int)),
{
    let ghost s = v@.subrange(a as int, b as int);
    let mut i: usize = a;
    while i < b
        invariant
            a <= i <= b <= v@.len(),
            s == v@.subrange(a as int, b as int),
            forall|k: int| 0 <= k < i - a ==> is_snake(#[trigger] s[k]),
        decreases b - i,
    {
        let c = v[i];
        assert(s[i - a] == c);
        let low = 'a' <= c && c <= 'z';
        let num = '0' <= c && c <= '9';
        if !(low || num || c == '_') {
            return false;
        }
        i += 1;
    }
    true
}

/// Whether every character of a text can stand in a relation name.
pub fn text_is_snake(s: &str) -> (r: bool)
    ensures
        r == all_snake(s@),
{
    let v = to_chars(s);
    assert(v@.subrange(0, v@.len() as int) =~= s@);
    range_is_snake(&v, 0, v.len())
}

} // verus!

//! Tokens of program text.

use vstd::prelude::*;
use crate::text::{is_digit, slice_text, to_chars};

verus! {

/// A token. Numbers keep their digits.
#[derive(Debug)]
pub enum Tok {
    Word(String),
    Name(String),
    Blank,
    Number(Vec<char>),
    Quoted(String),
    Open,
    Close,
    Comma,
    Dot,
    If,
    Bang,
    Less,
    AtMost,
    More,
    AtLeast,
    Same,
    Different,
    Plus,
    Minus,
}

/// The value of a [`Tok`].
pub enum TokV {
    Word(Seq<char>),
    Name(Seq<char>),
    Blank,
    Number(Seq<char>),
    Quoted(Seq<char>),
    Open,
    Close,
    Comma,
    Dot,
    If,
    Bang,
    Less,
    AtMost,
    More,
    AtLeast,
    Same,
    Different,
    Plus,
    Minus,
}

impl View for Tok {
    type V = TokV;

    open spec fn view(&self) -> TokV {
        match *self {
            Tok::Word(s) => TokV::Word(s@),
            Tok::Name(s) => TokV::Name(s@),
            Tok::Blank => TokV::Blank,
            Tok::Number(s) => TokV::Number(s@),
            Tok::Quoted(s) => TokV::Quoted(s@),
            Tok::Open => TokV::Open,
            Tok::Close => TokV::Close,
            Tok::Comma => TokV::Comma,
            Tok::Dot => TokV::Dot,
            Tok::If => TokV::If,
            Tok::Bang => TokV::Bang,
            Tok::Less => TokV::Less,
            Tok::AtMost => TokV::AtMost,
            Tok::More => TokV::More,
            Tok::AtLeast => TokV::AtLeast,
            Tok::Same => TokV::Same,
            Tok::Different => TokV::Different,
            Tok::Plus => TokV::Plus,
            Tok::Minus => TokV::Minus,
        }
    }
}

pub open spec fn toks_view(s: Seq<Tok>) -> Seq<TokV> {
    s.map_values(|t: Tok| t@)
}

pub open spec fn is_blank(c: char) -> bool {
    c == ' ' || c == '\t' || c == '\r' || c == '\n'
}

pub open spec fn is_upper(c: char) -> bool {
    'A' <= c && c <= 'Z'
}

pub open spec fn is_lower(c: char) -> bool {
    'a' <= c && c <= 'z'
}

/// The character can stand in a word after its first character.
pub open spec fn is_word_char(c: char) -> bool {
    is_upper(c) || is_lower(c) || is_digit(c) || c == '_'
}

/// The position after the word characters from `i` on.
pub open spec fn word_end(s: Seq<char>, i: int) -> int
    decreases s.len() - i,
{
    if 0 <= i < s.len() && is_word_char(s[i]) {
        word_end(s, i + 1)
    } else {
        i
    }
}

/// The position after the digits from `i` on.
pub open spec fn digits_end(s: Seq<char>, i: int) -> int
    decreases s.len() - i,
{
    if 0 <= i < s.len() && is_digit(s[i]) {
        digits_end(s, i + 1)
    } else {
        i
    }
}

/// The position of the end of the line from `i` on.
pub open spec fn line_end(s: Seq<char>, i: int) -> int
    decreases s.len() - i,
{
    if 0 <= i < s.len() && s[i] != '\n' {
        line_end(s, i + 1)
    } else {
        i
    }
}

/// What a character after a backslash stands for.
pub open spec fn escaped(c: char) -> char {
    if c == 'n' {
        '\n'
    } else if c == 't' {
        '\t'
    } else {
        c
    }
}

/// The quoted text from `i` on, and the position after its closing quote; a
/// backslash escapes the next character.
pub open spec fn quoted_from(s: Seq<char>, i: int, acc: Seq<char>) -> Option<(Seq<char>, int)>
    decreases s.len() - i,
{
    if i < 0 || i >= s.len() {
        None
    } else if s[i] == '"' {
        Some((acc, i + 1))
    } else if s[i] == '\\' {
        if i + 1 < s.len() {
            quoted_from(s, i + 2, acc.push(escaped(s[i + 1])))
        } else {
            None
        }
    } else {
        quoted_from(s, i + 1, acc.push(s[i]))
    }
}

/// A word: a variable if it starts with a capital letter or an underscore,
/// the blank if it is an underscore alone.
pub open spec fn word_token(w: Seq<char>) -> TokV {
    if w =~= seq!['_'] {
        TokV::Blank
    } else if is_upper(w[0]) || w[0] == '_' {
        TokV::Name(w)
    } else {
        TokV::Word(w)
    }
}

/// The character at a position, a zero past the end.
pub open spec fn char_at(s: Seq<char>, i: int) -> char {
    if 0 <= i < s.len() {
        s[i]
    } else {
        '\0'
    }
}

/// The token of one or two punctuation characters, and its length.
pub open spec fn mark_token(c: char, d: char) -> Option<(TokV, int)> {
    if c == '(' {
        Some((TokV::Open, 1))
    } else if c == ')' {
        Some((TokV::Close, 1))
    } else if c == ',' {
        Some((TokV::Comma, 1))
    } else if c == '.' {
        Some((TokV::Dot, 1))
    } else if c == '+' {
        Some((TokV::Plus, 1))
    } else if c == '-' {
        Some((TokV::Minus, 1))
    } else if c == ':' && d == '-' {
        Some((TokV::If, 2))
    } else if c == '\\' && d == '=' {
        Some((TokV::Different, 2))
    } else if c == '!' && d == '=' {
        Some((TokV::Different, 2))
    } else if c == '!' {
        Some((TokV::Bang, 1))
    } else if c == '=' && d == '<' {
        Some((TokV::AtMost, 2))
    } else if c == '=' {
        Some((TokV::Same, 1))
    } else if c == '<' && d == '=' {
        Some((TokV::AtMost, 2))
    } else if c == '<' {
        Some((TokV::Less, 1))
    } else if c == '>' && d == '=' {
        Some((TokV::AtLeast, 2))
    } else if c == '>' {
        Some((TokV::More, 1))
    } else {
        None
    }
}

/// The next token from `i` on and the position after it. Blanks and comments
/// give no token.
pub open spec fn next_token(s: Seq<char>, i: int) -> Result<(Option<TokV>, int), Seq<char>> {
    let c = s[i];
    if is_blank(c) {
        Ok((None, i + 1))
    } else if c == '#' {
        Ok((None, line_end(s, i + 1)))
    } else if is_upper(c) || is_lower(c) || c == '_' {
        let e = word_end(s, i + 1);
        Ok((Some(word_token(s.subrange(i, e))), e))
    } else if is_digit(c) {
        let e = digits_end(s, i + 1);
        Ok((Some(TokV::Number(s.subrange(i, e))), e))
    } else if c == '"' {
        match quoted_from(s, i + 1, Seq::empty()) {
            Some(q) => Ok((Some(TokV::Quoted(q.0)), q.1)),
            None => Err("unterminated string"@),
        }
    } else {
        match mark_token(c, char_at(s, i + 1)) {
            Some(m) => Ok((Some(m.0), i + m.1)),
            None => Err("unexpected character '"@ + seq![c] + "'"@),
        }
    }
}

/// The tokens from `i` on, after those in `acc`.
pub open spec fn tokens_from(s: Seq<char>, i: int, acc: Seq<TokV>) -> Result<Seq<TokV>, Seq<char>>
    decreases s.len() - i,
{
    if i < 0 || i >= s.len() {
        Ok(acc)
    } else {
        match next_token(s, i) {
            Err(m) => Err(m),
            Ok(t) => if !(i < t.1 <= s.len()) {
                Ok(acc)
            } else {
                match t.0 {
                    Some(k) => tokens_from(s, t.1, acc.push(k)),
                    None => tokens_from(s, t.1, acc),
                }
            },
        }
    }
}

/// The tokens of a text.
pub open spec fn tokens(s: Seq<char>) -> Result<Seq<TokV>, Seq<char>> {
    tokens_from(s, 0, Seq::empty())
}

fn blank(c: char) -> (r: bool)
    ensures
        r == is_blank(c),
{
    c == ' ' || c == '\t' || c == '\r' || c == '\n'
}

fn word_char(c: char) -> (r: bool)
    ensures
        r == is_word_char(c),
{
    ('A' <= c && c <= 'Z') || ('a' <= c && c <= 'z') || ('0' <= c && c <= '9') || c == '_'
}

fn find_word_end(s: &Vec<char>, i: usize) -> (r: usize)
    requires
        i <= s@.len(),
    ensures
        r == word_end(s@, i as int),
        i <= r <= s@.len(),
{
    let mut j: usize = i;
    while j < s.len() && word_char(s[j])
        invariant
            i <= j <= s@.len(),
            word_end(s@, i as int) == word_end(s@, j as int),
        decreases s@.len() - j,
    {
        j += 1;
    }
    j
}

fn find_digits_end(s: &Vec<char>, i: usize) -> (r: usize)
    requires
        i <= s@.len(),
    ensures
        r == digits_end(s@, i as int),
        i <= r <= s@.len(),
{
    let mut j: usize = i;
    while j < s.len() && '0' <= s[j] && s[j] <= '9'
        invariant
            i <= j <= s@.len(),
            digits_end(s@, i as int) == digits_end(s@, j as int),
        decreases s@.len() - j,
    {
        j += 1;
    }
    j
}

fn find_line_end(s: &Vec<char>, i: usize) -> (r: usize)
    requires
        i <= s@.len(),
    ensures
        r == line_end(s@, i as int),
        i <= r <= s@.len(),
{
    let mut j: usize = i;
    while j < s.len() && s[j] != '\n'
        invariant
            i <= j <= s@.len(),
            line_end(s@, i as int) == line_end(s@, j as int),
        decreases s@.len() - j,
    {
        j += 1;
    }
    j
}

fn read_quoted(s: &Vec<char>, i: usize) -> (r: Option<(String, usize)>)
    requires
        i <= s@.len(),
    ensures
        match r {
            Some(q) => quoted_from(s@, i as int, Seq::empty()) == Some((q.0@, q.1 as int)) && i < q.1 <= s@.len(),
            None => quoted_from(s@, i as int, Seq::empty()) is None,
        },
{
    let mut out = String::new();
    let mut j: usize = i;
    assert(out@ =~= Seq::empty());
    while j < s.len()
        invariant
            i <= j <= s@.len(),
            quoted_from(s@, i as int, Seq::empty()) == quoted_from(s@, j as int, out@),
        decreases s@.len() - j,
    {
        let c = s[j];
        if c == '"' {
            return Some((out, j + 1));
        }
        if c == '\\' {
            if j + 1 >= s.len() {
                return None;
            }
            let d = s[j + 1];
            if d == 'n' {
                out.push('\n');
            } else if d == 't' {
                out.push('\t');
            } else {
                out.push(d);
            }
            j += 2;
        } else {
            out.push(c);
            j += 1;
        }
    }
    None
}

fn read_mark(c: char, d: char) -> (r: Option<(Tok, usize)>)
    ensures
        match r {
            Some(m) => mark_token(c, d) == Some((m.0@, m.1 as int)) && 1 <= m.1 <= 2 && (m.1 == 2 ==> d != '\0'),
            None => mark_token(c, d) is None,
        },
{
    if c == '(' {
        Some((Tok::Open, 1))
    } else if c == ')' {
        Some((Tok::Close, 1))
    } else if c == ',' {
        Some((Tok::Comma, 1))
    } else if c == '.' {
        Some((Tok::Dot, 1))
    } else if c == '+' {
        Some((Tok::Plus, 1))
    } else if c == '-' {
        Some((Tok::Minus, 1))
    } else if c == ':' && d == '-' {
        Some((Tok::If, 2))
    } else if c == '\\' && d == '=' {
        Some((Tok::Different, 2))
    } else if c == '!' && d == '=' {
        Some((Tok::Different, 2))
    } else if c == '!' {
        Some((Tok::Bang, 1))
    } else if c == '=' && d == '<' {
        Some((Tok::AtMost, 2))
    } else if c == '=' {
        Some((Tok::Same, 1))
    } else if c == '<' && d == '=' {
        Some((Tok::AtMost, 2))
    } else if c == '<' {
        Some((Tok::Less, 1))
    } else if c == '>' && d == '=' {
        Some((Tok::AtLeast, 2))
    } else if c == '>' {
        Some((Tok::More, 1))
    } else {
        None
    }
}

/// The value of an optional token.
pub open spec fn tok_opt(t: Option<Tok>) -> Option<TokV> {
    match t {
        Some(k) => Some(k@),
        None => None,
    }
}

fn read_token(s: &Vec<char>, i: usize) -> (r: Result<(Option<Tok>, usize), String>)
    requires
        i < s@.len(),
    ensures
        match r {
            Ok(t) => next_token(s@, i as int) == Ok::<(Option<TokV>, int), Seq<char>>((tok_opt(t.0), t.1 as int)) && i < t.1
                <= s@.len(),
            Err(m) => next_token(s@, i as int) == Err::<(Option<TokV>, int), Seq<char>>(m@),
        },
{
    let n: usize = s.len();
    let c = s[i];
    if blank(c) {
        return Ok((None, i + 1));
    }
    if c == '#' {
        return Ok((None, find_line_end(s, i + 1)));
    }
    if ('A' <= c && c <= 'Z') || ('a' <= c && c <= 'z') || c == '_' {
        let e = find_word_end(s, i + 1);
        let w = slice_text(s, i, e);
        let tok = if e == i + 1 && c == '_' {
            assert(w@ =~= seq!['_']);
            Tok::Blank
        } else if ('A' <= c && c <= 'Z') || c == '_' {
            assert(w@[0] == c);
            assert(w@.len() == e - i);
            Tok::Name(w)
        } else {
            assert(w@[0] == c);
            Tok::Word(w)
        };
        return Ok((Some(tok), e));
    }
    if '0' <= c && c <= '9' {
        let e = find_digits_end(s, i + 1);
        let mut ds: Vec<char> = Vec::new();
        let mut j: usize = i;
        while j < e
            invariant
                i <= j <= e <= s@.len(),
                ds@.len() == j - i,
                forall|k: int| 0 <= k < j - i ==> #[trigger] ds@[k] == s@[i + k],
            decreases e - j,
        {
            ds.push(s[j]);
            j += 1;
        }
        assert(ds@ =~= s@.subrange(i as int, e as int));
        return Ok((Some(Tok::Number(ds)), e));
    }
    if c == '"' {
        return match read_quoted(s, i + 1) {
            Some(q) => Ok((Some(Tok::Quoted(q.0)), q.1)),
            None => Err("unterminated string".to_owned()),
        };
    }
    let d = if i + 1 < n {
        s[i + 1]
    } else {
        '\0'
    };
    match read_mark(c, d) {
        Some(m) => Ok((Some(m.0), i + m.1)),
        None => {
            let mut m = "unexpected character '".to_owned();
            m.push(c);
            assert(m@ =~= "unexpected character '"@ + seq![c]);
            m.push('\'');
            proof {
                reveal_strlit("'");
                assert(m@ =~= "unexpected character '"@ + seq![c] + "'"@);
            }
            Err(m)
        },
    }
}

/// The tokens of a text.
pub fn tokenize(text: &str) -> (r: Result<Vec<Tok>, String>)
    ensures
        match r {
            Ok(ts) => tokens(text@) == Ok::<Seq<TokV>, Seq<char>>(toks_view(ts@)),
            Err(m) => tokens(text@) == Err::<Seq<TokV>, Seq<char>>(m@),
        },
{
    let s = to_chars(text);
    let mut out: Vec<Tok> = Vec::new();
    let mut i: usize = 0;
    assert(toks_view(out@) =~= Seq::empty());
    while i < s.len()
        invariant
            i <= s@.len(),
            tokens(s@) == tokens_from(s@, i as int, toks_view(out@)),
            s@ == text@,
        decreases s@.len() - i,
    {
        let ghost before = toks_view(out@);
        match read_token(&s, i) {
            Err(m) => {
                return Err(m);
            },
            Ok((tok, e)) => {
                if let Some(t) = tok {
                    out.push(t);
                    assert(toks_view(out@) =~= before.push(t@));
                }
                i = e;
            },
        }
    }
    Ok(out)
}

} // verus!

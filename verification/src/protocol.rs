//! The line protocol for facts: `S --rel--> O`, with an optional confidence
//! `S --rel[0.8]--> O`, or `rel(S, O)`.

use vstd::prelude::*;
use vstd::string::StringExecFns;
use crate::decimal::{parse_float, parsed_float};
use crate::scan::{
    all_snake, byte_length, count_bytes, count_words, find_from, find_last, find_text, last_below, lines_of, range_is_snake,
    split_lines, text_is_snake, trim_range, trim_text, trimmed, words_upto,
};
use crate::text::{nat_text, nat_to_text, slice_text, str_eq, texts, to_chars};

verus! {

/// A fact proposed by extraction; the confidence is a binary64 pattern.
#[derive(Debug)]
pub struct CandidateFact {
    pub subj: String,
    pub pred: String,
    pub obj: String,
    pub confidence: u64,
}

/// The value of a [`CandidateFact`].
#[verifier::ext_equal]
pub struct CandV {
    pub subj: Seq<char>,
    pub pred: Seq<char>,
    pub obj: Seq<char>,
    pub confidence: u64,
}

impl View for CandidateFact {
    type V = CandV;

    open spec fn view(&self) -> CandV {
        CandV { subj: self.subj@, pred: self.pred@, obj: self.obj@, confidence: self.confidence }
    }
}

impl CandidateFact {
    /// A copy.
    pub fn duplicate(&self) -> (r: CandidateFact)
        ensures
            r@ == self@,
    {
        CandidateFact {
            subj: self.subj.clone(),
            pred: self.pred.clone(),
            obj: self.obj.clone(),
            confidence: self.confidence,
        }
    }
}

pub open spec fn cands_view(s: Seq<CandidateFact>) -> Seq<CandV> {
    s.map_values(|c: CandidateFact| c@)
}

/// A copy of a list of candidates.
pub fn copy_cands(cs: &Vec<CandidateFact>) -> (r: Vec<CandidateFact>)
    ensures
        cands_view(r@) == cands_view(cs@),
{
    let mut r: Vec<CandidateFact> = Vec::new();
    let mut i: usize = 0;
    while i < cs.len()
        invariant
            i <= cs@.len(),
            r@.len() == i,
            forall|j: int| 0 <= j < i ==> (#[trigger] r@[j])@ == cs@[j]@,
        decreases cs@.len() - i,
    {
        r.push(cs[i].duplicate());
        i += 1;
    }
    assert(cands_view(r@) =~= cands_view(cs@));
    r
}

// ---------------------------------------------------------------- entities

/// The lower-case form of a text.
pub uninterp spec fn lower_text(s: Seq<char>) -> Seq<char>;

/// `str::to_lowercase` gives the text with every character in lower case, by
/// the Unicode tables; the result is named, not stated.
#[verifier::external_body]
fn to_lower(s: &str) -> (r: String)
    ensures
        r@ == lower_text(s@),
{
    s.to_lowercase()
}

/// The character is a letter or a number.
pub uninterp spec fn alphanumeric(c: char) -> bool;

/// `char::is_alphanumeric` tells whether the character is a letter or a
/// number by the Unicode tables; the result is named, not stated.
#[verifier::external_body]
fn is_alphanumeric(c: char) -> (r: bool)
    ensures
        r == alphanumeric(c),
{
    c.is_alphanumeric()
}

/// A word that refers to an entity without naming it.
pub open spec fn is_reference(s: Seq<char>) -> bool {
    ||| s == "i"@
    ||| s == "me"@
    ||| s == "my"@
    ||| s == "mine"@
    ||| s == "speaker"@
    ||| s == "user"@
    ||| s == "they"@
    ||| s == "them"@
    ||| s == "he"@
    ||| s == "she"@
    ||| s == "it"@
    ||| s == "we"@
    ||| s == "you"@
    ||| s == "that"@
}

/// The message for a word that does not name an entity.
pub open spec fn reference_problem(s: Seq<char>) -> Seq<char> {
    "'"@ + s + "' is a pronoun or role word \u{2014} resolve it to the entity's real name"@
}

/// The character can stand in an entity name, given whether it is a letter or
/// a number.
pub open spec fn name_char(c: char, letter: bool) -> bool {
    letter || c == '_' || c == '-' || c == '\'' || c == ' '
}

/// The character can stand in an entity name.
pub open spec fn is_name_char(c: char) -> bool {
    name_char(c, alphanumeric(c))
}

/// All characters can stand in an entity name.
pub open spec fn all_name_chars(s: Seq<char>) -> bool {
    forall|i: int| 0 <= i < s.len() ==> is_name_char(#[trigger] s[i])
}

/// Why a text is no entity name, if it is none, given its lower-case form and
/// whether all its characters can stand in a name.
pub open spec fn judged_token(s: Seq<char>, lower: Seq<char>, plain: bool) -> Option<Seq<char>> {
    if s.len() == 0 {
        Some("empty entity name"@)
    } else if is_reference(lower) {
        Some(reference_problem(s))
    } else if byte_length(s) > 60 || words_upto(s, s.len() as int) > 8 {
        Some("looks like prose (more than 8 words) \u{2014} entity names are short"@)
    } else if !plain {
        Some(
            "contains punctuation or prose characters \u{2014} entity names use letters, digits, '_', '-', apostrophes"@,
        )
    } else {
        None
    }
}

/// Why a text is no entity name, if it is none.
pub open spec fn entity_problem(s: Seq<char>) -> Option<Seq<char>> {
    judged_token(s, lower_text(s), all_name_chars(s))
}

/// Why a text that was quoted is no entity name, if it is none, given its
/// lower-case form: only emptiness and words that refer without naming are
/// rejected.
pub open spec fn judged_literal(s: Seq<char>, lower: Seq<char>) -> Option<Seq<char>> {
    if s.len() == 0 {
        Some("empty entity name"@)
    } else if is_reference(lower) {
        Some(reference_problem(s))
    } else {
        None
    }
}

/// Why a text that was quoted is no entity name, if it is none.
pub open spec fn quoted_problem(s: Seq<char>) -> Option<Seq<char>> {
    judged_literal(s, lower_text(s))
}

/// The value of an optional text.
pub open spec fn reason_view(r: Option<String>) -> Option<Seq<char>> {
    match r {
        Some(s) => Some(s@),
        None => None,
    }
}

fn refers(s: &str) -> (r: bool)
    ensures
        r == is_reference(s@),
{
    str_eq(s, "i") || str_eq(s, "me") || str_eq(s, "my") || str_eq(s, "mine") || str_eq(s, "speaker") || str_eq(s, "user")
        || str_eq(s, "they") || str_eq(s, "them") || str_eq(s, "he") || str_eq(s, "she") || str_eq(s, "it") || str_eq(
        s,
        "we",
    ) || str_eq(s, "you") || str_eq(s, "that")
}

/// Whether a character can stand in an entity name, given whether it is a
/// letter or a number.
pub fn fits_name(c: char, letter: bool) -> (r: bool)
    ensures
        r == name_char(c, letter),
{
    letter || c == '_' || c == '-' || c == '\'' || c == ' '
}

fn name_chars_only(s: &str) -> (r: bool)
    ensures
        r == all_name_chars(s@),
{
    let v = to_chars(s);
    let mut i: usize = 0;
    while i < v.len()
        invariant
            i <= v@.len(),
            v@ == s@,
            forall|k: int| 0 <= k < i ==> is_name_char(#[trigger] s@[k]),
        decreases v@.len() - i,
    {
        if !fits_name(v[i], is_alphanumeric(v[i])) {
            assert(!is_name_char(s@[i as int]));
            return false;
        }
        i += 1;
    }
    true
}

fn write_reference_problem(s: &str) -> (r: String)
    ensures
        r@ == reference_problem(s@),
{
    let mut m = "'".to_owned();
    m.append(s);
    m.append("' is a pronoun or role word \u{2014} resolve it to the entity's real name");
    m
}

/// Why a text is no entity name, if it is none, given its lower-case form and
/// whether all its characters can stand in a name.
pub fn judge_token(s: &str, lower: &str, plain: bool) -> (r: Option<String>)
    ensures
        reason_view(r) == judged_token(s@, lower@, plain),
{
    if s.is_empty() {
        return Some("empty entity name".to_owned());
    }
    if refers(lower) {
        return Some(write_reference_problem(s));
    }
    if count_bytes(s) > 60 || count_words(s) > 8 {
        return Some("looks like prose (more than 8 words) \u{2014} entity names are short".to_owned());
    }
    if !plain {
        return Some(
            "contains punctuation or prose characters \u{2014} entity names use letters, digits, '_', '-', apostrophes".to_owned(),
        );
    }
    None
}

/// Why a text is no entity name, if it is none.
pub fn entity_token_problem(s: &str) -> (r: Option<String>)
    ensures
        reason_view(r) == entity_problem(s@),
{
    let lower = to_lower(s);
    judge_token(s, lower.as_str(), name_chars_only(s))
}

/// Why a text that was quoted is no entity name, if it is none, given its
/// lower-case form.
pub fn judge_literal(s: &str, lower: &str) -> (r: Option<String>)
    ensures
        reason_view(r) == judged_literal(s@, lower@),
{
    if s.is_empty() {
        return Some("empty entity name".to_owned());
    }
    if refers(lower) {
        return Some(write_reference_problem(s));
    }
    None
}

/// Why a text that was quoted is no entity name, if it is none. What a caller
/// wraps in quotes is deliberate: `"24.7GiB"`, `"src/main.go:42"`.
pub fn quoted_token_problem(s: &str) -> (r: Option<String>)
    ensures
        reason_view(r) == quoted_problem(s@),
{
    let lower = to_lower(s);
    judge_literal(s, lower.as_str())
}

/// Whether a text is an entity name.
pub fn valid_entity_token(s: &str) -> (r: bool)
    ensures
        r == (entity_problem(s@) is None),
{
    entity_token_problem(s).is_none()
}

// ----------------------------------------------------------------- quoting

/// The text stands between double quotes.
pub open spec fn in_quotes(s: Seq<char>) -> bool {
    s.len() >= 2 && s[0] == '"' && s.last() == '"'
}

/// The text without a pair of double quotes around it.
pub open spec fn unquoted(s: Seq<char>) -> Seq<char> {
    if in_quotes(s) {
        s.subrange(1, s.len() - 1)
    } else {
        s
    }
}

/// Whether the text stands between double quotes.
pub fn is_quoted(s: &str) -> (r: bool)
    ensures
        r == in_quotes(s@),
{
    let v = to_chars(s);
    v.len() >= 2 && v[0] == '"' && v[v.len() - 1] == '"'
}

/// The text without a pair of double quotes around it.
pub fn strip_quotes(s: &str) -> (r: String)
    ensures
        r@ == unquoted(s@),
{
    if is_quoted(s) {
        let v = to_chars(s);
        slice_text(&v, 1, v.len() - 1)
    } else {
        s.to_owned()
    }
}

/// The double quotes among the first `n` characters.
pub open spec fn quotes_before(s: Seq<char>, n: int) -> nat
    decreases n,
{
    if n <= 0 {
        0
    } else if s[n - 1] == '"' {
        quotes_before(s, n - 1) + 1
    } else {
        quotes_before(s, n - 1)
    }
}

/// A comma that stands outside double quotes.
pub open spec fn is_separator(s: Seq<char>, i: int) -> bool {
    s[i] == ',' && quotes_before(s, i) % 2 == 0
}

/// The positions of the separators among the first `n` characters, in order.
pub open spec fn separators(s: Seq<char>, n: int) -> Seq<int>
    decreases n,
{
    if n <= 0 {
        Seq::empty()
    } else if is_separator(s, n - 1) {
        separators(s, n - 1).push(n - 1)
    } else {
        separators(s, n - 1)
    }
}

/// Where part `k` begins: behind the separator before it.
pub open spec fn part_start(at: Seq<int>, k: int) -> int {
    if k <= 0 {
        0
    } else {
        at[k - 1] + 1
    }
}

/// Part `k` of a text that is split at given positions, without white space
/// around it.
pub open spec fn part_at(s: Seq<char>, at: Seq<int>, k: int) -> Seq<char> {
    let end = if k < at.len() {
        at[k]
    } else {
        s.len() as int
    };
    trimmed(s.subrange(part_start(at, k), end))
}

/// The parts of a text between commas outside double quotes, without white
/// space around them.
pub open spec fn split_parts(s: Seq<char>) -> Seq<Seq<char>> {
    let at = separators(s, s.len() as int);
    Seq::new(at.len() + 1, |k: int| part_at(s, at, k))
}

proof fn lemma_separators(s: Seq<char>, n: int, m: int)
    requires
        0 <= n <= m,
    ensures
        separators(s, n).is_prefix_of(separators(s, m)),
        forall|k: int| 0 <= k < separators(s, n).len() ==> 0 <= #[trigger] separators(s, n)[k] < n,
    decreases n + m,
{
    if n < m {
        lemma_separators(s, n, m - 1);
    } else if n > 0 {
        lemma_separators(s, n - 1, n - 1);
    }
}

/// The parts of a text between commas outside double quotes, so that a quoted
/// name may hold commas.
pub fn split_unquoted(s: &str) -> (r: Vec<String>)
    ensures
        texts(r@) == split_parts(s@),
{
    let v = to_chars(s);
    let n: usize = v.len();
    let mut parts: Vec<String> = Vec::new();
    let mut open = false;
    let mut start: usize = 0;
    let mut i: usize = 0;
    let ghost all = separators(s@, n as int);
    while i < n
        invariant
            n == v@.len(),
            i <= n,
            v@ == s@,
            all == separators(s@, n as int),
            open == (quotes_before(s@, i as int) % 2 == 1),
            parts@.len() == separators(s@, i as int).len(),
            start == part_start(separators(s@, i as int), parts@.len() as int),
            start <= i,
            forall|k: int| 0 <= k < parts@.len() ==> (#[trigger] parts@[k])@ == part_at(s@, all, k),
        decreases n - i,
    {
        let c = v[i];
        if c == '"' {
            open = !open;
        } else if c == ',' && !open {
            proof {
                lemma_separators(s@, i + 1, n as int);
                lemma_separators(s@, i as int, i + 1);
            }
            let (a, b) = trim_range(&v, start, i);
            parts.push(slice_text(&v, a, b));
            start = i + 1;
        }
        i += 1;
    }
    let (a, b) = trim_range(&v, start, n);
    parts.push(slice_text(&v, a, b));
    assert(texts(parts@) =~= split_parts(s@));
    parts
}

// ------------------------------------------------------------------- lines

/// A parsed line, or why it does not parse.
pub type LineV = Result<CandV, Seq<char>>;

/// A line `rel(S, O)`; nothing where the line has another shape.
pub open spec fn predicate_line(line: Seq<char>, conf: u64) -> Option<LineV> {
    match find_from(line, seq!['('], 0) {
        None => None,
        Some(open) => match last_below(line, ')', line.len() as int) {
            None => None,
            Some(close) => if close <= open || close != line.len() - 1 {
                None
            } else {
                let pred = trimmed(line.subrange(0, open));
                if pred.len() == 0 || !all_snake(pred) {
                    None
                } else {
                    let parts = split_parts(line.subrange(open + 1, close));
                    if parts.len() != 2 {
                        Some(
                            Err(
                                "predicate syntax takes exactly 2 args: pred(subject, object); got "@ + nat_text(
                                    parts.len(),
                                ),
                            ),
                        )
                    } else {
                        Some(Ok(CandV { subj: parts[0], pred, obj: parts[1], confidence: conf }))
                    }
                }
            },
        },
    }
}

/// The text without the closing square brackets at its end.
pub open spec fn without_brackets(s: Seq<char>) -> Seq<char>
    decreases s.len(),
{
    if s.len() > 0 && s.last() == ']' {
        without_brackets(s.drop_last())
    } else {
        s
    }
}

/// The relation and the confidence of an edge: `rel` or `rel[0.8]`. What does
/// not read as a number gives the default.
pub open spec fn relation_part(rel: Seq<char>, conf: u64) -> (Seq<char>, u64) {
    match last_below(rel, '[', rel.len() as int) {
        Some(i) => {
            let c = rel.subrange(i + 1, rel.len() as int);
            if c.len() > 0 && c.last() == ']' {
                (
                    trimmed(rel.subrange(0, i)),
                    match parsed_float(trimmed(without_brackets(c))) {
                        Some(b) => b,
                        None => conf,
                    },
                )
            } else {
                (rel, conf)
            }
        },
        None => (rel, conf),
    }
}

/// A line `S --rel--> O`.
pub open spec fn edge_line(line: Seq<char>, conf: u64) -> LineV {
    match find_from(line, "--"@, 0) {
        None => Err("no `--rel-->` structure"@),
        Some(i) => {
            let rest = line.subrange(i + 2, line.len() as int);
            match find_from(rest, "-->"@, 0) {
                None => Err("has `--` but no `-->`"@),
                Some(j) => {
                    let r = relation_part(trimmed(rest.subrange(0, j)), conf);
                    if r.0.len() == 0 {
                        Err("empty relation"@)
                    } else {
                        Ok(
                            CandV {
                                subj: trimmed(line.subrange(0, i)),
                                pred: r.0,
                                obj: trimmed(rest.subrange(j + 3, rest.len() as int)),
                                confidence: r.1,
                            },
                        )
                    }
                },
            }
        },
    }
}

/// One line of the protocol.
pub open spec fn parsed_line(raw: Seq<char>, conf: u64) -> LineV {
    let line = trimmed(raw);
    match predicate_line(line, conf) {
        Some(r) => r,
        None => edge_line(line, conf),
    }
}

/// The value of a parsed line.
pub open spec fn line_view(r: Result<CandidateFact, String>) -> LineV {
    match r {
        Ok(c) => Ok(c@),
        Err(m) => Err(m@),
    }
}

/// The value of an optional parsed line.
pub open spec fn opt_line_view(r: Option<Result<CandidateFact, String>>) -> Option<LineV> {
    match r {
        Some(l) => Some(line_view(l)),
        None => None,
    }
}

/// Parses a line `rel(S, O)`; gives nothing where the line has another shape.
/// Quoted arguments keep their quotes.
pub fn try_parse_predicate_line(line: &str, default_confidence: u64) -> (r: Option<Result<CandidateFact, String>>)
    ensures
        opt_line_view(r) == predicate_line(line@, default_confidence),
{
    let v = to_chars(line);
    let n: usize = v.len();
    proof {
        reveal_strlit("(");
        assert("("@ =~= seq!['(']);
        assert(v@.subrange(0, n as int) =~= v@);
    }
    let open = match find_text(&v, "(") {
        Some(i) => i,
        None => {
            return None;
        },
    };
    let close = match find_last(&v, 0, n, ')') {
        Some(i) => i,
        None => {
            return None;
        },
    };
    if close <= open || close != n - 1 {
        return None;
    }
    let (a, b) = trim_range(&v, 0, open);
    if a == b || !range_is_snake(&v, a, b) {
        return None;
    }
    let inner = slice_text(&v, open + 1, close);
    let parts = split_unquoted(inner.as_str());
    assert(texts(parts@).len() == parts@.len());
    if parts.len() != 2 {
        let mut m = "predicate syntax takes exactly 2 args: pred(subject, object); got ".to_owned();
        let t = nat_to_text(parts.len() as u64);
        m.append(t.as_str());
        return Some(Err(m));
    }
    assert(texts(parts@)[0] == parts@[0]@);
    assert(texts(parts@)[1] == parts@[1]@);
    Some(
        Ok(
            CandidateFact {
                subj: parts[0].clone(),
                pred: slice_text(&v, a, b),
                obj: parts[1].clone(),
                confidence: default_confidence,
            },
        ),
    )
}

fn parse_relation(v: &Vec<char>, conf: u64) -> (r: (String, u64))
    ensures
        r.0@ == relation_part(v@, conf).0,
        r.1 == relation_part(v@, conf).1,
{
    let n: usize = v.len();
    assert(v@.subrange(0, n as int) =~= v@);
    if let Some(i) = find_last(v, 0, n, '[') {
        let ghost c = v@.subrange(i + 1, n as int);
        if i + 1 < n && v[n - 1] == ']' {
            assert(c.last() == v@[n - 1]);
            let mut e: usize = n;
            while e > i + 1 && v[e - 1] == ']'
                invariant
                    i + 1 <= e <= n,
                    n == v@.len(),
                    without_brackets(c) == without_brackets(v@.subrange(i + 1, e as int)),
                decreases e,
            {
                assert(v@.subrange(i + 1, e as int).drop_last() =~= v@.subrange(i + 1, e - 1));
                assert(v@.subrange(i + 1, e as int).last() == v@[e - 1]);
                e -= 1;
            }
            proof {
                if e > i + 1 {
                    assert(v@.subrange(i + 1, e as int).last() == v@[e - 1]);
                }
            }
            let (a, b) = trim_range(v, i + 1, e);
            let number = slice_text(v, a, b);
            let digits = to_chars(number.as_str());
            let bits = match parse_float(&digits) {
                Some(x) => x,
                None => conf,
            };
            let (p, q) = trim_range(v, 0, i);
            return (slice_text(v, p, q), bits);
        }
        proof {
            if c.len() > 0 {
                assert(c.last() == v@[n - 1]);
            }
        }
    }
    (slice_text(v, 0, n), conf)
}

fn parse_edge_line(line: &str, conf: u64) -> (r: Result<CandidateFact, String>)
    ensures
        line_view(r) == edge_line(line@, conf),
{
    let v = to_chars(line);
    let n: usize = v.len();
    proof {
        reveal_strlit("--");
        reveal_strlit("-->");
    }
    let i = match find_text(&v, "--") {
        Some(i) => i,
        None => {
            return Err("no `--rel-->` structure".to_owned());
        },
    };
    let rest_text = slice_text(&v, i + 2, n);
    let rest = to_chars(rest_text.as_str());
    let m: usize = rest.len();
    let j = match find_text(&rest, "-->") {
        Some(j) => j,
        None => {
            return Err("has `--` but no `-->`".to_owned());
        },
    };
    let (a, b) = trim_range(&rest, 0, j);
    let rel_text = slice_text(&rest, a, b);
    let rel_chars = to_chars(rel_text.as_str());
    let (rel, bits) = parse_relation(&rel_chars, conf);
    if rel.as_str().is_empty() {
        return Err("empty relation".to_owned());
    }
    let (p, q) = trim_range(&v, 0, i);
    let (x, y) = trim_range(&rest, j + 3, m);
    Ok(CandidateFact { subj: slice_text(&v, p, q), pred: rel, obj: slice_text(&rest, x, y), confidence: bits })
}

/// Parses one line of the protocol, or tells why it does not parse.
pub fn parse_line(raw: &str, default_confidence: u64) -> (r: Result<CandidateFact, String>)
    ensures
        line_view(r) == parsed_line(raw@, default_confidence),
{
    let line = trim_text(raw);
    match try_parse_predicate_line(line.as_str(), default_confidence) {
        Some(r) => r,
        None => parse_edge_line(line.as_str(), default_confidence),
    }
}

// ------------------------------------------------------------------- texts

/// The facts of the first `n` lines; lines that do not parse are passed over.
pub open spec fn protocol_upto(lines: Seq<Seq<char>>, conf: u64, n: int) -> Seq<CandV>
    decreases n,
{
    if n <= 0 {
        Seq::empty()
    } else {
        let before = protocol_upto(lines, conf, n - 1);
        match parsed_line(lines[n - 1], conf) {
            Ok(c) => before.push(c),
            Err(_) => before,
        }
    }
}

/// The facts of a text in the line protocol.
pub open spec fn protocol_facts(text: Seq<char>, conf: u64) -> Seq<CandV> {
    protocol_upto(lines_of(text), conf, lines_of(text).len() as int)
}

/// Both entities are named and the relation is a relation name.
pub open spec fn is_clean(c: CandV) -> bool {
    entity_problem(c.subj) is None && entity_problem(c.obj) is None && c.pred.len() > 0 && all_snake(c.pred)
}

/// The clean facts of the first `n` lines: only lines `S --rel--> O` count.
pub open spec fn strict_upto(lines: Seq<Seq<char>>, conf: u64, n: int) -> Seq<CandV>
    decreases n,
{
    if n <= 0 {
        Seq::empty()
    } else {
        let before = strict_upto(lines, conf, n - 1);
        match edge_line(trimmed(lines[n - 1]), conf) {
            Ok(c) => if is_clean(c) {
                before.push(c)
            } else {
                before
            },
            Err(_) => before,
        }
    }
}

/// The fact with its quotes taken off.
pub open spec fn plain_fact(c: CandV) -> CandV {
    CandV { subj: unquoted(c.subj), obj: unquoted(c.obj), ..c }
}

/// Why an entity of a line is rejected, if it is.
pub open spec fn token_problem(s: Seq<char>) -> Option<Seq<char>> {
    if in_quotes(s) {
        quoted_problem(unquoted(s))
    } else {
        entity_problem(s)
    }
}

/// Why a parsed line is rejected, if it is.
pub open spec fn fact_problem(c: CandV) -> Option<Seq<char>> {
    match token_problem(c.subj) {
        Some(m) => Some(m),
        None => match token_problem(c.obj) {
            Some(m) => Some(m),
            None => if all_snake(c.pred) {
                None
            } else {
                Some("relation must be lower snake_case (e.g. works_at)"@)
            },
        },
    }
}

/// A line with the facts and the drops before it: the fact it states, or the
/// reason it is dropped for. Blank lines are passed over.
pub open spec fn reported_upto(lines: Seq<Seq<char>>, conf: u64, n: int) -> (Seq<CandV>, Seq<(Seq<char>, Seq<char>)>)
    decreases n,
{
    if n <= 0 {
        (Seq::empty(), Seq::empty())
    } else {
        let before = reported_upto(lines, conf, n - 1);
        let raw = lines[n - 1];
        if trimmed(raw).len() == 0 {
            before
        } else {
            match parsed_line(raw, conf) {
                Ok(c) => match fact_problem(c) {
                    Some(m) => (before.0, before.1.push((trimmed(raw), m))),
                    None => (before.0.push(plain_fact(c)), before.1),
                },
                Err(m) => (before.0, before.1.push((trimmed(raw), m))),
            }
        }
    }
}

/// The facts of a text and its dropped lines, each with the reason.
pub open spec fn reported(text: Seq<char>, conf: u64) -> (Seq<CandV>, Seq<(Seq<char>, Seq<char>)>) {
    reported_upto(lines_of(text), conf, lines_of(text).len() as int)
}

/// The values of dropped lines.
pub open spec fn drops_view(s: Seq<(String, String)>) -> Seq<(Seq<char>, Seq<char>)> {
    s.map_values(|d: (String, String)| (d.0@, d.1@))
}

/// The facts of a text in the line protocol; lines that do not parse are
/// passed over.
pub fn parse_protocol(text: &str, default_confidence: u64) -> (r: Vec<CandidateFact>)
    ensures
        cands_view(r@) == protocol_facts(text@, default_confidence),
{
    let lines = split_lines(text);
    let ghost ls = lines_of(text@);
    let mut r: Vec<CandidateFact> = Vec::new();
    let mut i: usize = 0;
    assert(cands_view(r@) =~= Seq::empty());
    while i < lines.len()
        invariant
            i <= lines@.len(),
            ls == texts(lines@),
            cands_view(r@) == protocol_upto(ls, default_confidence, i as int),
        decreases lines@.len() - i,
    {
        assert(ls[i as int] == lines@[i as int]@);
        let ghost before = cands_view(r@);
        let parsed = parse_line(lines[i].as_str(), default_confidence);
        let ghost pv = line_view(parsed);
        match parsed {
            Ok(c) => {
                r.push(c);
                assert(cands_view(r@) =~= before.push(c@));
            },
            Err(_) => {},
        }
        i += 1;
    }
    r
}

/// The facts of a text that are beyond doubt: a line counts only if it reads
/// `S --rel--> O` with clean entity names. Model output may hold other lines,
/// which must not become facts.
pub fn parse_protocol_strict(text: &str, default_confidence: u64) -> (r: Vec<CandidateFact>)
    ensures
        cands_view(r@) == strict_upto(lines_of(text@), default_confidence, lines_of(text@).len() as int),
{
    let lines = split_lines(text);
    let ghost ls = lines_of(text@);
    let mut r: Vec<CandidateFact> = Vec::new();
    let mut i: usize = 0;
    assert(cands_view(r@) =~= Seq::empty());
    while i < lines.len()
        invariant
            i <= lines@.len(),
            ls == texts(lines@),
            cands_view(r@) == strict_upto(ls, default_confidence, i as int),
        decreases lines@.len() - i,
    {
        assert(ls[i as int] == lines@[i as int]@);
        let ghost before = cands_view(r@);
        let line = trim_text(lines[i].as_str());
        let parsed = parse_edge_line(line.as_str(), default_confidence);
        let ghost pv = line_view(parsed);
        match parsed {
            Ok(c) => {
                if valid_entity_token(c.subj.as_str()) && valid_entity_token(c.obj.as_str()) && !c.pred.as_str().is_empty()
                    && text_is_snake(c.pred.as_str()) {
                    r.push(c);
                    assert(cands_view(r@) =~= before.push(c@));
                }
            },
            Err(_) => {},
        }
        i += 1;
    }
    r
}

fn find_problem(c: &CandidateFact) -> (r: Option<String>)
    ensures
        reason_view(r) == fact_problem(c@),
{
    let subj = strip_quotes(c.subj.as_str());
    let p = if is_quoted(c.subj.as_str()) {
        quoted_token_problem(subj.as_str())
    } else {
        entity_token_problem(c.subj.as_str())
    };
    if p.is_some() {
        return p;
    }
    let obj = strip_quotes(c.obj.as_str());
    let p = if is_quoted(c.obj.as_str()) {
        quoted_token_problem(obj.as_str())
    } else {
        entity_token_problem(c.obj.as_str())
    };
    if p.is_some() {
        return p;
    }
    if text_is_snake(c.pred.as_str()) {
        None
    } else {
        Some("relation must be lower snake_case (e.g. works_at)".to_owned())
    }
}

/// The facts of a text, and every line that states none with the reason: that
/// it does not parse, or that it does not name its entities or its relation.
pub fn parse_protocol_reported(text: &str, default_confidence: u64) -> (r: (Vec<CandidateFact>, Vec<(String, String)>))
    ensures
        cands_view(r.0@) == reported(text@, default_confidence).0,
        drops_view(r.1@) == reported(text@, default_confidence).1,
{
    let lines = split_lines(text);
    let ghost ls = lines_of(text@);
    let mut facts: Vec<CandidateFact> = Vec::new();
    let mut dropped: Vec<(String, String)> = Vec::new();
    let mut i: usize = 0;
    assert(cands_view(facts@) =~= Seq::empty());
    assert(drops_view(dropped@) =~= Seq::empty());
    while i < lines.len()
        invariant
            i <= lines@.len(),
            ls == texts(lines@),
            cands_view(facts@) == reported_upto(ls, default_confidence, i as int).0,
            drops_view(dropped@) == reported_upto(ls, default_confidence, i as int).1,
        decreases lines@.len() - i,
    {
        assert(ls[i as int] == lines@[i as int]@);
        let ghost f0 = cands_view(facts@);
        let ghost d0 = drops_view(dropped@);
        let line = trim_text(lines[i].as_str());
        if !line.as_str().is_empty() {
            let parsed = parse_line(lines[i].as_str(), default_confidence);
            let ghost pv = line_view(parsed);
            match parsed {
                Ok(c) => {
                    match find_problem(&c) {
                        Some(reason) => {
                            dropped.push((line, reason));
                            assert(drops_view(dropped@) =~= d0.push((line@, reason@)));
                        },
                        None => {
                            let plain = CandidateFact {
                                subj: strip_quotes(c.subj.as_str()),
                                pred: c.pred.clone(),
                                obj: strip_quotes(c.obj.as_str()),
                                confidence: c.confidence,
                            };
                            facts.push(plain);
                            assert(cands_view(facts@) =~= f0.push(plain_fact(c@)));
                        },
                    }
                },
                Err(reason) => {
                    dropped.push((line, reason));
                    assert(drops_view(dropped@) =~= d0.push((line@, reason@)));
                },
            }
        }
        i += 1;
    }
    (facts, dropped)
}

/// Every line that is not blank either states a fact or is reported as
/// dropped: no input vanishes in silence.
pub proof fn every_line_counts(lines: Seq<Seq<char>>, conf: u64, n: int)
    requires
        0 <= n <= lines.len(),
    ensures
        reported_upto(lines, conf, n).0.len() + reported_upto(lines, conf, n).1.len() == lines.take(n).filter(
            |l: Seq<char>| trimmed(l).len() > 0,
        ).len(),
    decreases n,
{
    let f = |l: Seq<char>| trimmed(l).len() > 0;
    if n <= 0 {
        assert(lines.take(0) =~= Seq::empty());
        reveal(Seq::filter);
        assert(lines.take(0).filter(f).len() == 0);
    } else {
        every_line_counts(lines, conf, n - 1);
        assert(lines.take(n) =~= lines.take(n - 1).push(lines[n - 1]));
        lines.take(n - 1).lemma_filter_push(lines[n - 1], f);
    }
}

/// A line that is read alike by both parsers: it is not written as a
/// predicate, and what it relates is not quoted.
pub open spec fn is_bare(line: Seq<char>, conf: u64) -> bool {
    predicate_line(line, conf) is None && match edge_line(line, conf) {
        Ok(c) => !in_quotes(c.subj) && !in_quotes(c.obj),
        Err(_) => true,
    }
}

/// Law: on edge lines without quotes the reported parse gives the facts of the
/// strict one.
pub proof fn reported_agrees(lines: Seq<Seq<char>>, conf: u64, n: int)
    requires
        0 <= n <= lines.len(),
        forall|i: int| 0 <= i < n ==> is_bare(trimmed(#[trigger] lines[i]), conf),
    ensures
        reported_upto(lines, conf, n).0 == strict_upto(lines, conf, n),
    decreases n,
{
    if n > 0 {
        reported_agrees(lines, conf, n - 1);
        let line = trimmed(lines[n - 1]);
        assert(is_bare(line, conf));
        if line.len() == 0 {
            reveal_strlit("--");
            reveal_with_fuel(find_from, 2);
            assert(edge_line(line, conf) is Err);
        }
        match edge_line(line, conf) {
            Ok(c) => {
                assert(plain_fact(c) == c);
            },
            Err(_) => {},
        }
    }
}

} // verus!

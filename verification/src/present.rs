//! What is true now: the default rules and what they derive.

use vstd::prelude::*;
use crate::agent::{fresh_engine, DEFAULT_RULES};
use crate::ast::{AtomV, ClauseV, CmpOp, ExprV, LitV, TermV};
use crate::builtins::compared;
use crate::canonical::CANONICAL_RULES;
use crate::deep::positive_is_stratified;
use crate::engine::{engine_new, prepared, ran, EngineV};
use crate::env::Bindings;
use crate::exact::{facts_supported, follows_by};
use crate::follow::{keeps_up, plain_changes_followed_up, stated_underived, underived};
use crate::identity::{canonicalization_installs, canonicalizes, ignores_identity, is_identity_pred, one, rule, var};
use crate::lexer::{line_end, tokens_from, TokV};
use crate::model::{facts, head_fact, is_instance, lit_true, term_is};
use crate::parser::parsed;
use crate::perfect::is_model;
use crate::ranks::reads_down;
use crate::relation::KeyV;
use crate::rules::installed;
use crate::runs::{all_positive, no_aggregates};
use crate::scan::trimmed;
use crate::scope::run_settles;
use crate::script::{
    args_text, body_text, clause_marks, clause_text, has, is_clause, is_predicate, is_variable, lemma_clause_spans, lemma_gap_spans,
    lemma_spanned, lemma_spans_join, program_marks, quote_escaped, spans,
};
use crate::solve::head_from;
use crate::tally::folds_apart;
use crate::stratify::{aggregates, defined};
use crate::value::Value;

verus! {

// ---------------------------------------------------------------------- rules

/// The rule of what is true now: an edge that has begun and not ended.
pub open spec fn current_clause() -> ClauseV {
    rule(
        AtomV { pred: "current"@, args: seq![var("E"@), var("R"@), var("O"@)] },
        seq![
            LitV::Pos(
                AtomV {
                    pred: "edge"@,
                    args: seq![var("E"@), var("R"@), var("O"@), var("VF"@), var("VT"@), TermV::Wildcard],
                },
            ),
            LitV::Now(var("T"@)),
            LitV::Cmp(CmpOp::Le, var("VF"@), ExprV::T(var("T"@))),
            LitV::Cmp(CmpOp::Lt, var("T"@), ExprV::T(var("VT"@))),
        ],
    )
}

/// A fact of one symbol.
pub open spec fn stated(p: Seq<char>, s: Seq<char>) -> ClauseV {
    ClauseV { name: None, head: one(p, TermV::Sym(s)), body: Seq::empty(), is_fact: true }
}

/// The clauses of the default rules.
pub open spec fn default_clauses() -> Seq<ClauseV> {
    seq![
        current_clause(),
        stated("exclusive"@, "works_at"@),
        stated("set_valued"@, "recommendation"@),
        stated("set_valued"@, "evidence"@),
        stated("set_valued"@, "includes"@),
        stated("set_valued"@, "located"@),
    ]
}

proof fn lemma_current_text()
    ensures
        clause_text(current_clause(), Seq::empty()) == "current(E,R,O) :- edge(E,R,O,VF,VT,_), now(T), VF =< T, T < VT."@,
{
    reveal_strlit("current(E,R,O) :- edge(E,R,O,VF,VT,_), now(T), VF =< T, T < VT.");
    reveal_strlit("current");
    reveal_strlit("edge");
    reveal_strlit("now");
    reveal_strlit("E");
    reveal_strlit("R");
    reveal_strlit("O");
    reveal_strlit("VF");
    reveal_strlit("VT");
    reveal_strlit("T");
    reveal_with_fuel(args_text, 7);
    reveal_with_fuel(body_text, 5);
    assert(clause_text(current_clause(), Seq::empty()) =~= "current(E,R,O) :- edge(E,R,O,VF,VT,_), now(T), VF =< T, T < VT."@);
}

/// Words without quotes or backslashes stand between quotes as they are.
proof fn lemma_plainly_quoted(s: Seq<char>)
    requires
        forall|i: int| 0 <= i < s.len() ==> #[trigger] s[i] != '"' && s[i] != '\\',
    ensures
        quote_escaped(s) == s,
    decreases s.len(),
{
    if s.len() > 0 {
        let d = s.drop_first();
        assert forall|i: int| 0 <= i < d.len() implies #[trigger] d[i] != '"' && d[i] != '\\' by {
            assert(d[i] == s[i + 1]);
        }
        lemma_plainly_quoted(d);
        assert(s[0] != '"' && s[0] != '\\');
        assert(seq![s[0]] + d =~= s);
    } else {
        assert(quote_escaped(s) =~= s);
    }
}

proof fn lemma_works_at_text()
    ensures
        clause_text(stated("exclusive"@, "works_at"@), Seq::empty()) == "exclusive(\"works_at\")."@,
{
    reveal_strlit("exclusive(\"works_at\").");
    reveal_strlit("exclusive");
    reveal_strlit("works_at");
    reveal_with_fuel(args_text, 2);
    lemma_plainly_quoted("works_at"@);
    assert(clause_text(stated("exclusive"@, "works_at"@), Seq::empty()) =~= "exclusive(\"works_at\")."@);
}

proof fn lemma_recommendation_text()
    ensures
        clause_text(stated("set_valued"@, "recommendation"@), Seq::empty()) == "set_valued(\"recommendation\")."@,
{
    reveal_strlit("set_valued(\"recommendation\").");
    reveal_strlit("set_valued");
    reveal_strlit("recommendation");
    reveal_with_fuel(args_text, 2);
    lemma_plainly_quoted("recommendation"@);
    assert(clause_text(stated("set_valued"@, "recommendation"@), Seq::empty()) =~= "set_valued(\"recommendation\")."@);
}

proof fn lemma_evidence_text()
    ensures
        clause_text(stated("set_valued"@, "evidence"@), Seq::empty()) == "set_valued(\"evidence\")."@,
{
    reveal_strlit("set_valued(\"evidence\").");
    reveal_strlit("set_valued");
    reveal_strlit("evidence");
    reveal_with_fuel(args_text, 2);
    lemma_plainly_quoted("evidence"@);
    assert(clause_text(stated("set_valued"@, "evidence"@), Seq::empty()) =~= "set_valued(\"evidence\")."@);
}

proof fn lemma_includes_text()
    ensures
        clause_text(stated("set_valued"@, "includes"@), Seq::empty()) == "set_valued(\"includes\")."@,
{
    reveal_strlit("set_valued(\"includes\").");
    reveal_strlit("set_valued");
    reveal_strlit("includes");
    reveal_with_fuel(args_text, 2);
    lemma_plainly_quoted("includes"@);
    assert(clause_text(stated("set_valued"@, "includes"@), Seq::empty()) =~= "set_valued(\"includes\")."@);
}

proof fn lemma_located_text()
    ensures
        clause_text(stated("set_valued"@, "located"@), Seq::empty()) == "set_valued(\"located\")."@,
{
    reveal_strlit("set_valued(\"located\").");
    reveal_strlit("set_valued");
    reveal_strlit("located");
    reveal_with_fuel(args_text, 2);
    lemma_plainly_quoted("located"@);
    assert(clause_text(stated("set_valued"@, "located"@), Seq::empty()) =~= "set_valued(\"located\")."@);
}

proof fn lemma_line_end(s: Seq<char>, i: int, e: int)
    requires
        0 <= i <= e < s.len(),
        forall|j: int| i <= j < e ==> #[trigger] s[j] != '\n',
        s[e] == '\n',
    ensures
        line_end(s, i) == e,
    decreases e - i,
{
    if i < e {
        lemma_line_end(s, i + 1, e);
    }
}

/// A line with a comment holds no token.
proof fn lemma_comment_line(s: Seq<char>, a: int, e: int)
    requires
        0 <= a < e < s.len(),
        s[a] == '#',
        forall|j: int| a < j < e ==> #[trigger] s[j] != '\n',
        s[e] == '\n',
    ensures
        spans(s, a, e + 1, Seq::empty()),
{
    lemma_line_end(s, a + 1, e);
    let none = Seq::<TokV>::empty();
    assert forall|acc: Seq<TokV>| #[trigger] tokens_from(s, a, acc) == tokens_from(s, e, acc + none) by {
        assert(acc + none =~= acc);
    }
    lemma_gap_spans(s, e, seq!['\n']);
    lemma_spans_join(s, a, e, e + 1, none, none);
    assert(none + none =~= none);
}

/// A line with a clause, before lines with others.
proof fn lemma_rule_line(s: Seq<char>, a: int, e: int, cs: Seq<ClauseV>, k: int, line: Seq<char>)
    requires
        0 <= k < cs.len(),
        clause_text(cs[k], Seq::empty()) == line,
        is_clause(cs[k]),
        has(s, a, line),
        e == a + line.len() + 1,
        e <= s.len(),
        s[e - 1] == '\n',
        spans(s, e, s.len() as int, program_marks(cs, k + 1)),
    ensures
        spans(s, a, s.len() as int, program_marks(cs, k)),
{
    let none = Seq::<TokV>::empty();
    let ms = clause_marks(cs[k]);
    lemma_clause_spans(s, a, cs[k], Seq::empty());
    lemma_gap_spans(s, e - 1, seq!['\n']);
    lemma_spans_join(s, a, e - 1, e, ms, none);
    assert(ms + none =~= ms);
    lemma_spans_join(s, a, e, s.len() as int, ms, program_marks(cs, k + 1));
}

proof fn lemma_comments()
    ensures
        DEFAULT_RULES@.len() == 406,
        DEFAULT_RULES@[0] == '#',
        forall|j: int| 0 < j < 39 ==> #[trigger] DEFAULT_RULES@[j] != '\n',
        DEFAULT_RULES@[39] == '\n',
        DEFAULT_RULES@[104] == '#',
        forall|j: int| 104 < j < 153 ==> #[trigger] DEFAULT_RULES@[j] != '\n',
        DEFAULT_RULES@[153] == '\n',
        DEFAULT_RULES@[177] == '#',
        forall|j: int| 177 < j < 249 ==> #[trigger] DEFAULT_RULES@[j] != '\n',
        DEFAULT_RULES@[249] == '\n',
        DEFAULT_RULES@[250] == '#',
        forall|j: int| 250 < j < 304 ==> #[trigger] DEFAULT_RULES@[j] != '\n',
        DEFAULT_RULES@[304] == '\n',
{
    reveal_strlit(
        "# temporal projection: what is true NOW\ncurrent(E,R,O) :- edge(E,R,O,VF,VT,_), now(T), VF =< T, T < VT.\n# curated exclusivity table for the update policy\nexclusive(\"works_at\").\n# set-valued predicates: asserting another value is ordinary data, not a\n# conflict \u{2014} the update policy does not escalate them.\nset_valued(\"recommendation\").\nset_valued(\"evidence\").\nset_valued(\"includes\").\nset_valued(\"located\").\n",
    );
}

proof fn lemma_first_lines()
    ensures
        has(DEFAULT_RULES@, 40, "current(E,R,O) :- edge(E,R,O,VF,VT,_), now(T), VF =< T, T < VT."@),
        "current(E,R,O) :- edge(E,R,O,VF,VT,_), now(T), VF =< T, T < VT."@.len() == 63,
        DEFAULT_RULES@[103] == '\n',
        has(DEFAULT_RULES@, 154, "exclusive(\"works_at\")."@),
        "exclusive(\"works_at\")."@.len() == 22,
        DEFAULT_RULES@[176] == '\n',
{
    reveal_strlit("current(E,R,O) :- edge(E,R,O,VF,VT,_), now(T), VF =< T, T < VT.");
    reveal_strlit("exclusive(\"works_at\").");
    reveal_strlit(
        "# temporal projection: what is true NOW\ncurrent(E,R,O) :- edge(E,R,O,VF,VT,_), now(T), VF =< T, T < VT.\n# curated exclusivity table for the update policy\nexclusive(\"works_at\").\n# set-valued predicates: asserting another value is ordinary data, not a\n# conflict \u{2014} the update policy does not escalate them.\nset_valued(\"recommendation\").\nset_valued(\"evidence\").\nset_valued(\"includes\").\nset_valued(\"located\").\n",
    );
}

proof fn lemma_other_lines()
    ensures
        has(DEFAULT_RULES@, 305, "set_valued(\"recommendation\")."@),
        "set_valued(\"recommendation\")."@.len() == 29,
        DEFAULT_RULES@[334] == '\n',
        has(DEFAULT_RULES@, 335, "set_valued(\"evidence\")."@),
        "set_valued(\"evidence\")."@.len() == 23,
        DEFAULT_RULES@[358] == '\n',
        has(DEFAULT_RULES@, 359, "set_valued(\"includes\")."@),
        "set_valued(\"includes\")."@.len() == 23,
        DEFAULT_RULES@[382] == '\n',
        has(DEFAULT_RULES@, 383, "set_valued(\"located\")."@),
        "set_valued(\"located\")."@.len() == 22,
        DEFAULT_RULES@[405] == '\n',
{
    reveal_strlit("set_valued(\"recommendation\").");
    reveal_strlit("set_valued(\"evidence\").");
    reveal_strlit("set_valued(\"includes\").");
    reveal_strlit("set_valued(\"located\").");
    reveal_strlit(
        "# temporal projection: what is true NOW\ncurrent(E,R,O) :- edge(E,R,O,VF,VT,_), now(T), VF =< T, T < VT.\n# curated exclusivity table for the update policy\nexclusive(\"works_at\").\n# set-valued predicates: asserting another value is ordinary data, not a\n# conflict \u{2014} the update policy does not escalate them.\nset_valued(\"recommendation\").\nset_valued(\"evidence\").\nset_valued(\"includes\").\nset_valued(\"located\").\n",
    );
}

proof fn lemma_default_words()
    ensures
        is_variable("E"@),
        is_variable("R"@),
        is_variable("O"@),
        is_variable("VF"@),
        is_variable("VT"@),
        is_variable("T"@),
        is_predicate("current"@),
        is_predicate("edge"@),
        is_predicate("exclusive"@),
        is_predicate("set_valued"@),
        "edge"@ != "now"@,
{
    reveal_strlit("E");
    reveal_strlit("R");
    reveal_strlit("O");
    reveal_strlit("VF");
    reveal_strlit("VT");
    reveal_strlit("T");
    reveal_strlit("current");
    reveal_strlit("edge");
    reveal_strlit("exclusive");
    reveal_strlit("set_valued");
    reveal_strlit("now");
    assert("VF"@[0] == 'V' && "VF"@[1] == 'F' && "VF"@.len() == 2);
    assert("VT"@[0] == 'V' && "VT"@[1] == 'T' && "VT"@.len() == 2);
    assert(seq!['_'].len() == 1 && seq!['_'][0] == '_');
    assert("E"@[0] == 'E' && "R"@[0] == 'R' && "O"@[0] == 'O' && "T"@[0] == 'T');
}

/// The lines from the set-valued table on.
proof fn lemma_table_spans()
    ensures
        spans(DEFAULT_RULES@, 305, 406, program_marks(default_clauses(), 2)),
{
    let s = DEFAULT_RULES@;
    let cs = default_clauses();
    let none = Seq::<TokV>::empty();
    lemma_default_words();
    lemma_comments();
    lemma_other_lines();
    assert(spans(s, 406, 406, none)) by {
        assert forall|acc: Seq<TokV>| #[trigger] tokens_from(s, 406, acc) == tokens_from(s, 406, acc + none) by {
            assert(acc + none =~= acc);
        }
    }
    assert(program_marks(cs, 6) == none);
    lemma_located_text();
    lemma_rule_line(s, 383, 406, cs, 5, "set_valued(\"located\")."@);
    lemma_includes_text();
    lemma_rule_line(s, 359, 383, cs, 4, "set_valued(\"includes\")."@);
    lemma_evidence_text();
    lemma_rule_line(s, 335, 359, cs, 3, "set_valued(\"evidence\")."@);
    lemma_recommendation_text();
    lemma_rule_line(s, 305, 335, cs, 2, "set_valued(\"recommendation\")."@);
}

/// The lines from the exclusivity table on.
proof fn lemma_tables_span()
    ensures
        spans(DEFAULT_RULES@, 154, 406, program_marks(default_clauses(), 1)),
{
    let s = DEFAULT_RULES@;
    let cs = default_clauses();
    let none = Seq::<TokV>::empty();
    lemma_default_words();
    lemma_comments();
    lemma_first_lines();
    lemma_table_spans();
    lemma_comment_line(s, 250, 304);
    lemma_spans_join(s, 250, 305, 406, none, program_marks(cs, 2));
    assert(none + program_marks(cs, 2) =~= program_marks(cs, 2));
    lemma_comment_line(s, 177, 249);
    lemma_spans_join(s, 177, 250, 406, none, program_marks(cs, 2));
    lemma_works_at_text();
    lemma_rule_line(s, 154, 177, cs, 1, "exclusive(\"works_at\")."@);
}

/// The lines from the rule on.
proof fn lemma_rule_spans()
    ensures
        spans(DEFAULT_RULES@, 40, 406, program_marks(default_clauses(), 0)),
{
    let s = DEFAULT_RULES@;
    let cs = default_clauses();
    let none = Seq::<TokV>::empty();
    lemma_default_words();
    lemma_comments();
    lemma_first_lines();
    lemma_tables_span();
    lemma_comment_line(s, 104, 153);
    lemma_spans_join(s, 104, 154, 406, none, program_marks(cs, 1));
    assert(none + program_marks(cs, 1) =~= program_marks(cs, 1));
    lemma_current_text();
    lemma_rule_line(s, 40, 104, cs, 0, "current(E,R,O) :- edge(E,R,O,VF,VT,_), now(T), VF =< T, T < VT."@);
}

/// Law: the default rules read as their clauses.
pub proof fn default_rules_read()
    ensures
        parsed(DEFAULT_RULES@) == Ok::<Seq<ClauseV>, Seq<char>>(default_clauses()),
{
    let s = DEFAULT_RULES@;
    let cs = default_clauses();
    let none = Seq::<TokV>::empty();
    lemma_default_words();
    lemma_comments();
    lemma_first_lines();
    lemma_rule_spans();
    lemma_comment_line(s, 0, 39);
    lemma_spans_join(s, 0, 40, 406, none, program_marks(cs, 0));
    assert(none + program_marks(cs, 0) =~= program_marks(cs, 0));
    lemma_spanned(s, cs);
}

/// Law: a memory without extra rules always starts, with the default clauses
/// for its program.
pub proof fn fresh_memory_starts(extra: Seq<char>)
    requires
        trimmed(extra).len() == 0,
    ensures
        fresh_engine(extra) is Ok,
        fresh_engine(extra)->Ok_0.clauses == default_clauses(),
{
    default_rules_read();
    let cs = default_clauses();
    assert(engine_new().clauses + cs =~= cs);
    assert(!aggregates(current_clause()));
    assert(no_aggregates(cs));
    assert(all_positive(cs));
    positive_is_stratified(cs);
}

// --------------------------------------------------------------------- model

/// A time lies between two values.
pub open spec fn is_open(now: i64, from: Value, to: Value) -> bool {
    compared(CmpOp::Le, from, Value::Int(now)) && compared(CmpOp::Lt, Value::Int(now), to)
}

/// An edge that is open now.
pub open spec fn is_open_edge(
    m: Set<KeyV>,
    now: i64,
    e: Value,
    r: Value,
    o: Value,
    from: Value,
    to: Value,
    src: Value,
) -> bool {
    m.contains(("edge"@, seq![e, r, o, from, to, src])) && is_open(now, from, to)
}

/// Facts are the model of a program with the default rule of what is true
/// now, no other rule for it, and nothing of it given.
pub open spec fn is_current_model(
    b: Seq<Seq<char>>,
    now: i64,
    cs: Seq<ClauseV>,
    given: Set<KeyV>,
    all: Set<KeyV>,
) -> bool {
    &&& is_model(b, now, cs, given, all)
    &&& cs.contains(current_clause())
    &&& forall|i: int|
        0 <= i < cs.len() && !(#[trigger] cs[i]).is_fact && cs[i].head.pred == "current"@ ==> cs[i] == current_clause()
    &&& forall|k: KeyV| #[trigger] given.contains(k) ==> k.0 != "current"@
}

proof fn lemma_distinct_variables()
    ensures
        seq!["E"@, "R"@, "O"@, "VF"@, "VT"@, "T"@].no_duplicates(),
{
    reveal_strlit("E");
    reveal_strlit("R");
    reveal_strlit("O");
    reveal_strlit("VF");
    reveal_strlit("VT");
    reveal_strlit("T");
    assert("E"@[0] == 'E' && "R"@[0] == 'R' && "O"@[0] == 'O' && "T"@[0] == 'T');
    assert("VF"@[0] == 'V' && "VT"@[0] == 'V' && "VF"@[1] == 'F' && "VT"@[1] == 'T');
}

/// What the rule derives.
proof fn lemma_current_head(b: Seq<Seq<char>>, x: Bindings)
    ensures
        head_fact(b, current_clause(), x) == if x.contains_key("E"@) && x.contains_key("R"@) && x.contains_key("O"@) {
            Some(("current"@, seq![x["E"@], x["R"@], x["O"@]]))
        } else {
            None
        },
{
    reveal_with_fuel(head_from, 5);
    assert(Seq::<Value>::empty().push(x["E"@]).push(x["R"@]).push(x["O"@]) =~= seq![x["E"@], x["R"@], x["O"@]]);
}

/// Law: what is true now is what an open edge says, and nothing else.
pub proof fn current_is_open(
    b: Seq<Seq<char>>,
    now: i64,
    cs: Seq<ClauseV>,
    given: Set<KeyV>,
    all: Set<KeyV>,
    e: Value,
    r: Value,
    o: Value,
)
    requires
        is_current_model(b, now, cs, given, all),
    ensures
        all.contains(("current"@, seq![e, r, o])) <==> exists|from: Value, to: Value, src: Value| #[trigger]
            is_open_edge(all, now, e, r, o, from, to, src),
{
    let c = current_clause();
    let k = ("current"@, seq![e, r, o]);
    let a = c.body[0]->Pos_0;
    facts_supported(b, now, cs, given, all, k);
    if all.contains(k) {
        let (i, x) = choose|i: int, x: Bindings| 0 <= i < cs.len() && #[trigger] follows_by(b, now, cs[i], all, k, x);
        assert(cs[i] == c);
        lemma_current_head(b, x);
        let h = seq![x["E"@], x["R"@], x["O"@]];
        assert(h == k.1);
        assert(h[0] == e && h[1] == r && h[2] == o);
        assert(lit_true(b, now, c.body[0], all, all, x));
        assert(lit_true(b, now, c.body[1], all, all, x));
        assert(lit_true(b, now, c.body[2], all, all, x));
        assert(lit_true(b, now, c.body[3], all, all, x));
        let key = choose|key: Seq<Value>| all.contains((a.pred, key)) && #[trigger] is_instance(b, a.args, key, x);
        assert(term_is(b, a.args[0], key[0], x));
        assert(term_is(b, a.args[1], key[1], x));
        assert(term_is(b, a.args[2], key[2], x));
        assert(term_is(b, a.args[3], key[3], x));
        assert(term_is(b, a.args[4], key[4], x));
        assert(key =~= seq![e, r, o, key[3], key[4], key[5]]);
        assert(is_open_edge(all, now, e, r, o, key[3], key[4], key[5]));
    }
    if exists|from: Value, to: Value, src: Value| #[trigger] is_open_edge(all, now, e, r, o, from, to, src) {
        let (from, to, src) = choose|from: Value, to: Value, src: Value| #[trigger]
            is_open_edge(all, now, e, r, o, from, to, src);
        let key = seq![e, r, o, from, to, src];
        let names = seq!["E"@, "R"@, "O"@, "VF"@, "VT"@, "T"@];
        lemma_distinct_variables();
        assert(names[0] != names[1] && names[0] != names[2] && names[0] != names[3] && names[0] != names[4] && names[0] != names[5]);
        assert(names[1] != names[2] && names[1] != names[3] && names[1] != names[4] && names[1] != names[5]);
        assert(names[2] != names[3] && names[2] != names[4] && names[2] != names[5]);
        assert(names[3] != names[4] && names[3] != names[5] && names[4] != names[5]);
        let x = map!["E"@ => e, "R"@ => r, "O"@ => o, "VF"@ => from, "VT"@ => to, "T"@ => Value::Int(now)];
        assert(is_instance(b, a.args, key, x));
        assert(lit_true(b, now, c.body[0], all, all, x));
        assert(lit_true(b, now, c.body[1], all, all, x));
        assert(lit_true(b, now, c.body[2], all, all, x));
        assert(lit_true(b, now, c.body[3], all, all, x));
        lemma_current_head(b, x);
        let i = choose|i: int| 0 <= i < cs.len() && cs[i] == c;
        assert(follows_by(b, now, cs[i], all, k, x));
    }
}

/// Law: after edges were declared or retracted, one run gives what is true now
/// as the open edges have it.
pub proof fn current_follows_changes(e: EngineV, a: Seq<Seq<char>>, m: Set<KeyV>, s: Value, r: Value, o: Value)
    requires
        keeps_up(e, a, m),
        e.clauses.len() <= usize::MAX,
        folds_apart(e.clauses),
        no_aggregates(e.clauses),
        stated_underived(e.clauses),
        e.clauses.contains(current_clause()),
        forall|i: int|
            0 <= i < e.clauses.len() && !(#[trigger] e.clauses[i]).is_fact && e.clauses[i].head.pred == "current"@
                ==> e.clauses[i] == current_clause(),
        run_settles(e),
        ran(e).0.st.names.len() < usize::MAX,
    ensures
        facts(ran(e).0.st.rels).contains(("current"@, seq![s, r, o])) <==> exists|from: Value, to: Value, src: Value|
            #[trigger] is_open_edge(facts(ran(e).0.st.rels), e.now, s, r, o, from, to, src),
{
    plain_changes_followed_up(e, a, m);
    let given = underived(e.clauses, facts(prepared(e).st.rels));
    let i = choose|i: int| 0 <= i < e.clauses.len() && e.clauses[i] == current_clause();
    assert(!e.clauses[i].is_fact && e.clauses[i].head.pred == "current"@);
    assert(defined(e.clauses, "current"@));
    current_is_open(ran(e).0.st.names, e.now, e.clauses, given, facts(ran(e).0.st.rels), s, r, o);
}

/// Law: a memory without extra rules takes the canonicalization rules.
pub proof fn fresh_memory_canonicalizes(extra: Seq<char>)
    requires
        trimmed(extra).len() == 0,
    ensures
        installed(fresh_engine(extra)->Ok_0, CANONICAL_RULES@) is Ok,
        canonicalizes(installed(fresh_engine(extra)->Ok_0, CANONICAL_RULES@)->Ok_0.clauses),
{
    fresh_memory_starts(extra);
    let cs = default_clauses();
    let rank = |p: Seq<char>|
        if p == "current"@ {
            1nat
        } else {
            0nat
        };
    reveal_strlit("current");
    reveal_strlit("edge");
    reveal_strlit("same_as");
    reveal_strlit("aliased");
    reveal_strlit("maps_to");
    reveal_strlit("alias_conflict");
    assert("current"@[0] == 'c' && "edge"@[0] == 'e');
    assert("same_as"@[0] == 's' && "aliased"@[0] == 'a' && "maps_to"@[0] == 'm' && "alias_conflict"@[0] == 'a');
    assert(!is_identity_pred("current"@) && !is_identity_pred("edge"@));
    assert(reads_down(current_clause(), rank));
    assert(ignores_identity(current_clause()));
    assert(!aggregates(current_clause()));
    canonicalization_installs(fresh_engine(extra)->Ok_0, rank);
}

} // verus!

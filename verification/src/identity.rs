//! What canonicalization derives.

use vstd::prelude::*;
use crate::ast::{AtomV, ClauseV, CmpOp, ExprV, LitV, TermV};
use crate::canonical::{keys_of, names_in, seeded, with_key_names, with_names_in, CANONICAL_RULES};
use crate::context::with_new;
use crate::engine::{declared, prepared, ran, EngineV};
use crate::env::Bindings;
use crate::exact::{facts_supported, follows_by, lemma_body_moves};
use crate::follow::{keeps_up, plain_changes_followed_up, stated_underived, underived};
use crate::intern::{interned, shown};
use crate::model::{all_known, body_true, facts, has_instance, head_fact, is_instance, leads_into, lemma_assert_facts, lit_true, term_is};
use crate::parser::parsed;
use crate::perfect::{is_model, program_closed};
use crate::policy::with_symbol;
use crate::ranks::{is_ranked, ranked_is_accepted, reads_down};
use crate::relation::{ann_unit, has_key, FactV, KeyV, SupportV};
use crate::restore::{known_key, known_value};
use crate::rules::installed;
use crate::runs::{is_sound, no_aggregates};
use crate::scope::run_settles;
use crate::script::{args_text, body_text, clause_text, clauses_text, has, is_predicate, is_variable, program_reads_back, program_text};
use crate::solve::{head_from, lemma_store_assert};
use crate::store::{holds, rels_wf};
use crate::tally::folds_apart;
use crate::stratify::{aggregates, defined, lit_dep};
use crate::value::Value;

verus! {

// ---------------------------------------------------------------------- rules

/// A variable.
pub open spec fn var(v: Seq<char>) -> TermV {
    TermV::Var(v)
}

/// A predicate of one argument.
pub open spec fn one(p: Seq<char>, a: TermV) -> AtomV {
    AtomV { pred: p, args: seq![a] }
}

/// A predicate of two arguments.
pub open spec fn two(p: Seq<char>, a: TermV, b: TermV) -> AtomV {
    AtomV { pred: p, args: seq![a, b] }
}

/// A rule.
pub open spec fn rule(head: AtomV, body: Seq<LitV>) -> ClauseV {
    ClauseV { name: None, head, body, is_fact: false }
}

/// Every entity is itself.
pub open spec fn same_itself() -> ClauseV {
    rule(two("same_as"@, var("X"@), var("X"@)), seq![LitV::Pos(one("entity"@, var("X"@)))])
}

/// An alias is what it stands for.
pub open spec fn same_alias() -> ClauseV {
    rule(
        two("same_as"@, var("X"@), var("Y"@)),
        seq![
            LitV::Pos(two("alias"@, var("X"@), var("Y"@))),
            LitV::Neg(one("alias_conflict"@, var("X"@))),
            LitV::Neg(one("alias_conflict"@, var("Y"@))),
        ],
    )
}

/// What an alias stands for is the alias.
pub open spec fn same_back() -> ClauseV {
    rule(
        two("same_as"@, var("X"@), var("Y"@)),
        seq![
            LitV::Pos(two("alias"@, var("Y"@), var("X"@))),
            LitV::Neg(one("alias_conflict"@, var("X"@))),
            LitV::Neg(one("alias_conflict"@, var("Y"@))),
        ],
    )
}

/// What is the same as the same is the same.
pub open spec fn same_chain() -> ClauseV {
    rule(
        two("same_as"@, var("X"@), var("Z"@)),
        seq![LitV::Pos(two("same_as"@, var("X"@), var("Y"@))), LitV::Pos(two("same_as"@, var("Y"@), var("Z"@)))],
    )
}

/// What has an alias edge is aliased.
pub open spec fn is_aliased() -> ClauseV {
    rule(one("aliased"@, var("X"@)), seq![LitV::Pos(two("alias"@, var("X"@), TermV::Wildcard))])
}

/// What is not aliased maps to itself.
pub open spec fn maps_itself() -> ClauseV {
    rule(
        two("maps_to"@, var("X"@), var("X"@)),
        seq![LitV::Pos(one("entity"@, var("X"@))), LitV::Neg(one("aliased"@, var("X"@)))],
    )
}

/// An alias maps to what it stands for.
pub open spec fn maps_alias() -> ClauseV {
    rule(two("maps_to"@, var("L"@), var("C"@)), seq![LitV::Pos(two("alias"@, var("L"@), var("C"@)))])
}

/// A name that stands for two is a conflict.
pub open spec fn stands_for_two() -> ClauseV {
    rule(
        one("alias_conflict"@, var("L"@)),
        seq![
            LitV::Pos(two("alias"@, var("L"@), var("C1"@))),
            LitV::Pos(two("alias"@, var("L"@), var("C2"@))),
            LitV::Cmp(CmpOp::Ne, var("C1"@), ExprV::T(var("C2"@))),
        ],
    )
}

/// A name on both sides of alias edges is a conflict.
pub open spec fn stands_on_both() -> ClauseV {
    rule(
        one("alias_conflict"@, var("N"@)),
        seq![
            LitV::Pos(two("alias"@, var("N"@), TermV::Wildcard)),
            LitV::Pos(two("alias"@, TermV::Wildcard, var("N"@))),
        ],
    )
}

/// The clauses of the canonicalization rules.
pub open spec fn canonical_clauses() -> Seq<ClauseV> {
    seq![
        same_itself(),
        same_alias(),
        same_back(),
        same_chain(),
        is_aliased(),
        maps_itself(),
        maps_alias(),
        stands_for_two(),
        stands_on_both(),
    ]
}

proof fn lemma_same_itself()
    ensures
        clause_text(same_itself(), seq![' ']) == "same_as(X, X) :- entity(X)."@,
{
    reveal_strlit("same_as(X, X) :- entity(X).");
    reveal_strlit("same_as");
    reveal_strlit("entity");
    reveal_strlit("X");
    reveal_with_fuel(args_text, 3);
    reveal_with_fuel(body_text, 4);
    assert(clause_text(same_itself(), seq![' ']) =~= "same_as(X, X) :- entity(X)."@);
}

proof fn lemma_same_alias()
    ensures
        clause_text(same_alias(), seq![' ']) == "same_as(X, Y) :- alias(X, Y), !alias_conflict(X), !alias_conflict(Y)."@,
{
    reveal_strlit("same_as(X, Y) :- alias(X, Y), !alias_conflict(X), !alias_conflict(Y).");
    reveal_strlit("same_as");
    reveal_strlit("alias");
    reveal_strlit("alias_conflict");
    reveal_strlit("X");
    reveal_strlit("Y");
    reveal_with_fuel(args_text, 3);
    reveal_with_fuel(body_text, 4);
    assert(clause_text(same_alias(), seq![' ']) =~= "same_as(X, Y) :- alias(X, Y), !alias_conflict(X), !alias_conflict(Y)."@);
}

proof fn lemma_same_back()
    ensures
        clause_text(same_back(), seq![' ']) == "same_as(X, Y) :- alias(Y, X), !alias_conflict(X), !alias_conflict(Y)."@,
{
    reveal_strlit("same_as(X, Y) :- alias(Y, X), !alias_conflict(X), !alias_conflict(Y).");
    reveal_strlit("same_as");
    reveal_strlit("alias");
    reveal_strlit("alias_conflict");
    reveal_strlit("X");
    reveal_strlit("Y");
    reveal_with_fuel(args_text, 3);
    reveal_with_fuel(body_text, 4);
    assert(clause_text(same_back(), seq![' ']) =~= "same_as(X, Y) :- alias(Y, X), !alias_conflict(X), !alias_conflict(Y)."@);
}

proof fn lemma_same_chain()
    ensures
        clause_text(same_chain(), seq![' ']) == "same_as(X, Z) :- same_as(X, Y), same_as(Y, Z)."@,
{
    reveal_strlit("same_as(X, Z) :- same_as(X, Y), same_as(Y, Z).");
    reveal_strlit("same_as");
    reveal_strlit("X");
    reveal_strlit("Y");
    reveal_strlit("Z");
    reveal_with_fuel(args_text, 3);
    reveal_with_fuel(body_text, 4);
    assert(clause_text(same_chain(), seq![' ']) =~= "same_as(X, Z) :- same_as(X, Y), same_as(Y, Z)."@);
}

proof fn lemma_is_aliased()
    ensures
        clause_text(is_aliased(), seq![' ']) == "aliased(X) :- alias(X, _)."@,
{
    reveal_strlit("aliased(X) :- alias(X, _).");
    reveal_strlit("aliased");
    reveal_strlit("alias");
    reveal_strlit("X");
    reveal_with_fuel(args_text, 3);
    reveal_with_fuel(body_text, 4);
    assert(clause_text(is_aliased(), seq![' ']) =~= "aliased(X) :- alias(X, _)."@);
}

proof fn lemma_maps_itself()
    ensures
        clause_text(maps_itself(), seq![' ']) == "maps_to(X, X) :- entity(X), !aliased(X)."@,
{
    reveal_strlit("maps_to(X, X) :- entity(X), !aliased(X).");
    reveal_strlit("maps_to");
    reveal_strlit("entity");
    reveal_strlit("aliased");
    reveal_strlit("X");
    reveal_with_fuel(args_text, 3);
    reveal_with_fuel(body_text, 4);
    assert(clause_text(maps_itself(), seq![' ']) =~= "maps_to(X, X) :- entity(X), !aliased(X)."@);
}

proof fn lemma_maps_alias()
    ensures
        clause_text(maps_alias(), seq![' ']) == "maps_to(L, C) :- alias(L, C)."@,
{
    reveal_strlit("maps_to(L, C) :- alias(L, C).");
    reveal_strlit("maps_to");
    reveal_strlit("alias");
    reveal_strlit("L");
    reveal_strlit("C");
    reveal_with_fuel(args_text, 3);
    reveal_with_fuel(body_text, 4);
    assert(clause_text(maps_alias(), seq![' ']) =~= "maps_to(L, C) :- alias(L, C)."@);
}

proof fn lemma_stands_for_two()
    ensures
        clause_text(stands_for_two(), seq![' ']) == "alias_conflict(L) :- alias(L, C1), alias(L, C2), C1 \\= C2."@,
{
    reveal_strlit("alias_conflict(L) :- alias(L, C1), alias(L, C2), C1 \\= C2.");
    reveal_strlit("alias_conflict");
    reveal_strlit("alias");
    reveal_strlit("L");
    reveal_strlit("C1");
    reveal_strlit("C2");
    reveal_with_fuel(args_text, 3);
    reveal_with_fuel(body_text, 4);
    assert(clause_text(stands_for_two(), seq![' ']) =~= "alias_conflict(L) :- alias(L, C1), alias(L, C2), C1 \\= C2."@);
}

proof fn lemma_stands_on_both()
    ensures
        clause_text(stands_on_both(), seq![' ']) == "alias_conflict(N) :- alias(N, _), alias(_, N)."@,
{
    reveal_strlit("alias_conflict(N) :- alias(N, _), alias(_, N).");
    reveal_strlit("alias_conflict");
    reveal_strlit("alias");
    reveal_strlit("N");
    reveal_with_fuel(args_text, 3);
    reveal_with_fuel(body_text, 4);
    assert(clause_text(stands_on_both(), seq![' ']) =~= "alias_conflict(N) :- alias(N, _), alias(_, N)."@);
}

/// The text of the clauses from one on starts where a line of it does.
proof fn lemma_text_from(s: Seq<char>, a: int, e: int, k: int, line: Seq<char>)
    requires
        0 <= a <= e <= s.len(),
        0 <= k < canonical_clauses().len(),
        clause_text(canonical_clauses()[k], seq![' ']) == line,
        has(s, a, line),
        e == a + line.len() + 1,
        s[e - 1] == '\n',
        s.skip(e) == clauses_text(canonical_clauses(), k + 1),
    ensures
        s.skip(a) == clauses_text(canonical_clauses(), k),
{
    let w = line + seq!['\n'] + clauses_text(canonical_clauses(), k + 1);
    assert(s.skip(a).len() == w.len());
    assert forall|i: int| 0 <= i < w.len() implies s.skip(a)[i] == w[i] by {
        if i < line.len() {
            assert(s[a + i] == line[i]);
        } else if i > line.len() {
            assert(s.skip(e)[i - line.len() - 1] == s[a + i]);
        }
    }
    assert(s.skip(a) =~= w);
}

proof fn lemma_lines_first()
    ensures
        has(CANONICAL_RULES@, 0, "same_as(X, X) :- entity(X)."@),
        CANONICAL_RULES@[27] == '\n',
        "same_as(X, X) :- entity(X)."@.len() == 27,
        has(CANONICAL_RULES@, 28, "same_as(X, Y) :- alias(X, Y), !alias_conflict(X), !alias_conflict(Y)."@),
        CANONICAL_RULES@[97] == '\n',
        "same_as(X, Y) :- alias(X, Y), !alias_conflict(X), !alias_conflict(Y)."@.len() == 69,
        CANONICAL_RULES@.len() == 419,
{
    reveal_strlit("same_as(X, X) :- entity(X).");
    reveal_strlit("same_as(X, Y) :- alias(X, Y), !alias_conflict(X), !alias_conflict(Y).");
    reveal_strlit(
        "same_as(X, X) :- entity(X).\nsame_as(X, Y) :- alias(X, Y), !alias_conflict(X), !alias_conflict(Y).\nsame_as(X, Y) :- alias(Y, X), !alias_conflict(X), !alias_conflict(Y).\nsame_as(X, Z) :- same_as(X, Y), same_as(Y, Z).\naliased(X) :- alias(X, _).\nmaps_to(X, X) :- entity(X), !aliased(X).\nmaps_to(L, C) :- alias(L, C).\nalias_conflict(L) :- alias(L, C1), alias(L, C2), C1 \\= C2.\nalias_conflict(N) :- alias(N, _), alias(_, N).\n",
    );
}

proof fn lemma_lines_second()
    ensures
        has(CANONICAL_RULES@, 98, "same_as(X, Y) :- alias(Y, X), !alias_conflict(X), !alias_conflict(Y)."@),
        CANONICAL_RULES@[167] == '\n',
        "same_as(X, Y) :- alias(Y, X), !alias_conflict(X), !alias_conflict(Y)."@.len() == 69,
        has(CANONICAL_RULES@, 168, "same_as(X, Z) :- same_as(X, Y), same_as(Y, Z)."@),
        CANONICAL_RULES@[214] == '\n',
        "same_as(X, Z) :- same_as(X, Y), same_as(Y, Z)."@.len() == 46,
        CANONICAL_RULES@.len() == 419,
{
    reveal_strlit("same_as(X, Y) :- alias(Y, X), !alias_conflict(X), !alias_conflict(Y).");
    reveal_strlit("same_as(X, Z) :- same_as(X, Y), same_as(Y, Z).");
    reveal_strlit(
        "same_as(X, X) :- entity(X).\nsame_as(X, Y) :- alias(X, Y), !alias_conflict(X), !alias_conflict(Y).\nsame_as(X, Y) :- alias(Y, X), !alias_conflict(X), !alias_conflict(Y).\nsame_as(X, Z) :- same_as(X, Y), same_as(Y, Z).\naliased(X) :- alias(X, _).\nmaps_to(X, X) :- entity(X), !aliased(X).\nmaps_to(L, C) :- alias(L, C).\nalias_conflict(L) :- alias(L, C1), alias(L, C2), C1 \\= C2.\nalias_conflict(N) :- alias(N, _), alias(_, N).\n",
    );
}

proof fn lemma_lines_middle()
    ensures
        has(CANONICAL_RULES@, 215, "aliased(X) :- alias(X, _)."@),
        CANONICAL_RULES@[241] == '\n',
        "aliased(X) :- alias(X, _)."@.len() == 26,
        has(CANONICAL_RULES@, 242, "maps_to(X, X) :- entity(X), !aliased(X)."@),
        CANONICAL_RULES@[282] == '\n',
        "maps_to(X, X) :- entity(X), !aliased(X)."@.len() == 40,
        CANONICAL_RULES@.len() == 419,
{
    reveal_strlit("aliased(X) :- alias(X, _).");
    reveal_strlit("maps_to(X, X) :- entity(X), !aliased(X).");
    reveal_strlit(
        "same_as(X, X) :- entity(X).\nsame_as(X, Y) :- alias(X, Y), !alias_conflict(X), !alias_conflict(Y).\nsame_as(X, Y) :- alias(Y, X), !alias_conflict(X), !alias_conflict(Y).\nsame_as(X, Z) :- same_as(X, Y), same_as(Y, Z).\naliased(X) :- alias(X, _).\nmaps_to(X, X) :- entity(X), !aliased(X).\nmaps_to(L, C) :- alias(L, C).\nalias_conflict(L) :- alias(L, C1), alias(L, C2), C1 \\= C2.\nalias_conflict(N) :- alias(N, _), alias(_, N).\n",
    );
}

proof fn lemma_lines_last()
    ensures
        has(CANONICAL_RULES@, 283, "maps_to(L, C) :- alias(L, C)."@),
        CANONICAL_RULES@[312] == '\n',
        "maps_to(L, C) :- alias(L, C)."@.len() == 29,
        has(CANONICAL_RULES@, 313, "alias_conflict(L) :- alias(L, C1), alias(L, C2), C1 \\= C2."@),
        CANONICAL_RULES@[371] == '\n',
        "alias_conflict(L) :- alias(L, C1), alias(L, C2), C1 \\= C2."@.len() == 58,
        has(CANONICAL_RULES@, 372, "alias_conflict(N) :- alias(N, _), alias(_, N)."@),
        CANONICAL_RULES@[418] == '\n',
        "alias_conflict(N) :- alias(N, _), alias(_, N)."@.len() == 46,
        CANONICAL_RULES@.len() == 419,
{
    reveal_strlit("maps_to(L, C) :- alias(L, C).");
    reveal_strlit("alias_conflict(L) :- alias(L, C1), alias(L, C2), C1 \\= C2.");
    reveal_strlit("alias_conflict(N) :- alias(N, _), alias(_, N).");
    reveal_strlit(
        "same_as(X, X) :- entity(X).\nsame_as(X, Y) :- alias(X, Y), !alias_conflict(X), !alias_conflict(Y).\nsame_as(X, Y) :- alias(Y, X), !alias_conflict(X), !alias_conflict(Y).\nsame_as(X, Z) :- same_as(X, Y), same_as(Y, Z).\naliased(X) :- alias(X, _).\nmaps_to(X, X) :- entity(X), !aliased(X).\nmaps_to(L, C) :- alias(L, C).\nalias_conflict(L) :- alias(L, C1), alias(L, C2), C1 \\= C2.\nalias_conflict(N) :- alias(N, _), alias(_, N).\n",
    );
}

proof fn lemma_canonical_text()
    ensures
        CANONICAL_RULES@ == program_text(canonical_clauses()),
{
    let s = CANONICAL_RULES@;
    lemma_lines_first();
    lemma_lines_second();
    lemma_lines_middle();
    lemma_lines_last();
    assert(s.skip(419) =~= clauses_text(canonical_clauses(), 9));
    lemma_stands_on_both();
    lemma_text_from(s, 372, 419, 8, "alias_conflict(N) :- alias(N, _), alias(_, N)."@);
    lemma_stands_for_two();
    lemma_text_from(s, 313, 372, 7, "alias_conflict(L) :- alias(L, C1), alias(L, C2), C1 \\= C2."@);
    lemma_maps_alias();
    lemma_text_from(s, 283, 313, 6, "maps_to(L, C) :- alias(L, C)."@);
    lemma_maps_itself();
    lemma_text_from(s, 242, 283, 5, "maps_to(X, X) :- entity(X), !aliased(X)."@);
    lemma_is_aliased();
    lemma_text_from(s, 215, 242, 4, "aliased(X) :- alias(X, _)."@);
    lemma_same_chain();
    lemma_text_from(s, 168, 215, 3, "same_as(X, Z) :- same_as(X, Y), same_as(Y, Z)."@);
    lemma_same_back();
    lemma_text_from(s, 98, 168, 2, "same_as(X, Y) :- alias(Y, X), !alias_conflict(X), !alias_conflict(Y)."@);
    lemma_same_alias();
    lemma_text_from(s, 28, 98, 1, "same_as(X, Y) :- alias(X, Y), !alias_conflict(X), !alias_conflict(Y)."@);
    lemma_same_itself();
    lemma_text_from(s, 0, 28, 0, "same_as(X, X) :- entity(X)."@);
    assert(s.skip(0) =~= s);
}

/// The variables and predicates of the rules are written as such.
proof fn lemma_rule_words()
    ensures
        is_variable("X"@),
        is_variable("Y"@),
        is_variable("Z"@),
        is_variable("L"@),
        is_variable("C"@),
        is_variable("C1"@),
        is_variable("C2"@),
        is_variable("N"@),
        is_predicate("same_as"@),
        is_predicate("entity"@),
        is_predicate("alias"@),
        is_predicate("aliased"@),
        is_predicate("maps_to"@),
        is_predicate("alias_conflict"@),
        "same_as"@ != "now"@,
        "entity"@ != "now"@,
        "alias"@ != "now"@,
        "alias_conflict"@ != "now"@,
{
    reveal_strlit("X");
    reveal_strlit("Y");
    reveal_strlit("Z");
    reveal_strlit("L");
    reveal_strlit("C");
    reveal_strlit("C1");
    reveal_strlit("C2");
    reveal_strlit("N");
    reveal_strlit("same_as");
    reveal_strlit("entity");
    reveal_strlit("alias");
    reveal_strlit("aliased");
    reveal_strlit("maps_to");
    reveal_strlit("alias_conflict");
    reveal_strlit("now");
    assert("C1"@[0] == 'C' && "C1"@[1] == '1' && "C1"@.len() == 2);
    assert("C2"@[0] == 'C' && "C2"@[1] == '2' && "C2"@.len() == 2);
    assert(seq!['_'].len() == 1);
}

/// Law: the canonicalization rules read as their clauses.
pub proof fn canonical_rules_read()
    ensures
        parsed(CANONICAL_RULES@) == Ok::<Seq<ClauseV>, Seq<char>>(canonical_clauses()),
{
    lemma_rule_words();
    lemma_canonical_text();
    program_reads_back(canonical_clauses());
}

// -------------------------------------------------------------------- literals

/// Facts hold a predicate of a value.
pub open spec fn has_one(m: Set<KeyV>, p: Seq<char>, u: Value) -> bool {
    m.contains((p, seq![u]))
}

/// Facts hold a predicate of two values.
pub open spec fn has_two(m: Set<KeyV>, p: Seq<char>, u: Value, v: Value) -> bool {
    m.contains((p, seq![u, v]))
}

/// An atom of one argument is true where its predicate holds of a value for
/// it.
pub proof fn lemma_one_true(b: Seq<Seq<char>>, p: Seq<char>, t: TermV, m: Set<KeyV>, x: Bindings)
    ensures
        has_instance(b, one(p, t), m, x) <==> exists|u: Value| #[trigger] has_one(m, p, u) && term_is(b, t, u, x),
{
    let a = one(p, t);
    if has_instance(b, a, m, x) {
        let key = choose|key: Seq<Value>| m.contains((a.pred, key)) && #[trigger] is_instance(b, a.args, key, x);
        assert(term_is(b, a.args[0], key[0], x));
        assert(key =~= seq![key[0]]);
        assert(has_one(m, p, key[0]));
    }
    if exists|u: Value| #[trigger] has_one(m, p, u) && term_is(b, t, u, x) {
        let u = choose|u: Value| #[trigger] has_one(m, p, u) && term_is(b, t, u, x);
        assert(is_instance(b, a.args, seq![u], x));
    }
}

/// An atom of two arguments is true where its predicate holds of values for
/// them.
pub proof fn lemma_two_true(b: Seq<Seq<char>>, p: Seq<char>, s: TermV, t: TermV, m: Set<KeyV>, x: Bindings)
    ensures
        has_instance(b, two(p, s, t), m, x) <==> exists|u: Value, v: Value| #[trigger]
            has_two(m, p, u, v) && term_is(b, s, u, x) && term_is(b, t, v, x),
{
    let a = two(p, s, t);
    if has_instance(b, a, m, x) {
        let key = choose|key: Seq<Value>| m.contains((a.pred, key)) && #[trigger] is_instance(b, a.args, key, x);
        assert(term_is(b, a.args[0], key[0], x));
        assert(term_is(b, a.args[1], key[1], x));
        assert(key =~= seq![key[0], key[1]]);
        assert(has_two(m, p, key[0], key[1]));
    }
    if exists|u: Value, v: Value| #[trigger] has_two(m, p, u, v) && term_is(b, s, u, x) && term_is(b, t, v, x) {
        let (u, v) = choose|u: Value, v: Value| #[trigger]
            has_two(m, p, u, v) && term_is(b, s, u, x) && term_is(b, t, v, x);
        assert(is_instance(b, a.args, seq![u, v], x));
    }
}

proof fn lemma_one_head(b: Seq<Seq<char>>, c: ClauseV, p: Seq<char>, u: Seq<char>, x: Bindings)
    requires
        c.head == one(p, var(u)),
    ensures
        head_fact(b, c, x) == if x.contains_key(u) {
            Some((p, seq![x[u]]))
        } else {
            None
        },
{
    reveal_with_fuel(head_from, 3);
    assert(Seq::<Value>::empty().push(x[u]) =~= seq![x[u]]);
}

proof fn lemma_two_head(b: Seq<Seq<char>>, c: ClauseV, p: Seq<char>, u: Seq<char>, v: Seq<char>, x: Bindings)
    requires
        c.head == two(p, var(u), var(v)),
    ensures
        head_fact(b, c, x) == if x.contains_key(u) && x.contains_key(v) {
            Some((p, seq![x[u], x[v]]))
        } else {
            None
        },
{
    reveal_with_fuel(head_from, 4);
    assert(Seq::<Value>::empty().push(x[u]).push(x[v]) =~= seq![x[u], x[v]]);
}

// ---------------------------------------------------------------------- models

/// A predicate that canonicalization derives.
pub open spec fn is_identity_pred(p: Seq<char>) -> bool {
    p == "same_as"@ || p == "aliased"@ || p == "maps_to"@ || p == "alias_conflict"@
}

/// A program holds the canonicalization rules, and no others for their
/// predicates.
pub open spec fn canonicalizes(cs: Seq<ClauseV>) -> bool {
    &&& forall|j: int| 0 <= j < canonical_clauses().len() ==> cs.contains(#[trigger] canonical_clauses()[j])
    &&& forall|i: int|
        0 <= i < cs.len() && !(#[trigger] cs[i]).is_fact && is_identity_pred(cs[i].head.pred) ==> canonical_clauses().contains(cs[i])
}

/// Facts are the model of a program that canonicalizes, with none of its
/// predicates given.
pub open spec fn is_canonical_model(
    b: Seq<Seq<char>>,
    now: i64,
    cs: Seq<ClauseV>,
    given: Set<KeyV>,
    all: Set<KeyV>,
) -> bool {
    &&& is_model(b, now, cs, given, all)
    &&& canonicalizes(cs)
    &&& forall|k: KeyV| #[trigger] given.contains(k) ==> !is_identity_pred(k.0)
}

proof fn lemma_distinct_words()
    ensures
        "same_as"@ != "aliased"@,
        "same_as"@ != "maps_to"@,
        "same_as"@ != "alias_conflict"@,
        "aliased"@ != "maps_to"@,
        "aliased"@ != "alias_conflict"@,
        "maps_to"@ != "alias_conflict"@,
        "X"@ != "Y"@,
        "X"@ != "Z"@,
        "Y"@ != "Z"@,
        "L"@ != "C"@,
        "L"@ != "C1"@,
        "L"@ != "C2"@,
        "C1"@ != "C2"@,
{
    reveal_strlit("same_as");
    reveal_strlit("aliased");
    reveal_strlit("maps_to");
    reveal_strlit("alias_conflict");
    reveal_strlit("X");
    reveal_strlit("Y");
    reveal_strlit("Z");
    reveal_strlit("L");
    reveal_strlit("C");
    reveal_strlit("C1");
    reveal_strlit("C2");
    assert("same_as"@[0] == 's' && "aliased"@[0] == 'a' && "maps_to"@[0] == 'm' && "alias_conflict"@[0] == 'a');
    assert("aliased"@.len() != "alias_conflict"@.len());
    assert("X"@[0] == 'X' && "Y"@[0] == 'Y' && "Z"@[0] == 'Z' && "L"@[0] == 'L' && "C"@[0] == 'C');
    assert("C1"@[1] == '1' && "C2"@[1] == '2');
}

/// What a canonicalization rule leads to is in the model.
proof fn lemma_fires(
    b: Seq<Seq<char>>,
    now: i64,
    cs: Seq<ClauseV>,
    given: Set<KeyV>,
    all: Set<KeyV>,
    j: int,
    k: KeyV,
    x: Bindings,
)
    requires
        is_canonical_model(b, now, cs, given, all),
        0 <= j < canonical_clauses().len(),
        follows_by(b, now, canonical_clauses()[j], all, k, x),
    ensures
        all.contains(k),
{
    let c = canonical_clauses()[j];
    assert(cs.contains(c));
    let i = choose|i: int| 0 <= i < cs.len() && cs[i] == c;
    assert(follows_by(b, now, cs[i], all, k, x));
    facts_supported(b, now, cs, given, all, k);
}

/// A derived fact of the model comes from a canonicalization rule.
proof fn lemma_comes_from(
    b: Seq<Seq<char>>,
    now: i64,
    cs: Seq<ClauseV>,
    given: Set<KeyV>,
    all: Set<KeyV>,
    k: KeyV,
) -> (r: (int, Bindings))
    requires
        is_canonical_model(b, now, cs, given, all),
        all.contains(k),
        is_identity_pred(k.0),
    ensures
        0 <= r.0 < canonical_clauses().len(),
        follows_by(b, now, canonical_clauses()[r.0], all, k, r.1),
        canonical_clauses()[r.0].head.pred == k.0,
{
    facts_supported(b, now, cs, given, all, k);
    let (i, x) = choose|i: int, x: Bindings| 0 <= i < cs.len() && #[trigger] follows_by(b, now, cs[i], all, k, x);
    assert(cs[i].head.pred == k.0);
    assert(canonical_clauses().contains(cs[i]));
    let j = choose|j: int| 0 <= j < canonical_clauses().len() && canonical_clauses()[j] == cs[i];
    (j, x)
}

/// Two values are next to each other: an entity and itself, or the ends of an
/// alias edge of which neither is a conflict.
pub open spec fn are_next(m: Set<KeyV>, u: Value, v: Value) -> bool {
    ||| u == v && has_one(m, "entity"@, u)
    ||| (has_two(m, "alias"@, u, v) || has_two(m, "alias"@, v, u)) && !has_one(m, "alias_conflict"@, u) && !has_one(
        m,
        "alias_conflict"@,
        v,
    )
}

/// Values of which each is next to the one before it.
pub open spec fn is_chain(m: Set<KeyV>, path: Seq<Value>) -> bool {
    path.len() >= 2 && forall|i: int, j: int|
        0 <= i && j == i + 1 && j < path.len() ==> are_next(m, #[trigger] path[i], #[trigger] path[j])
}

/// A chain leads from one value to another.
pub open spec fn leads(m: Set<KeyV>, path: Seq<Value>, u: Value, v: Value) -> bool {
    is_chain(m, path) && path[0] == u && path.last() == v
}

/// Two values are connected.
pub open spec fn are_connected(m: Set<KeyV>, u: Value, v: Value) -> bool {
    exists|path: Seq<Value>| #[trigger] leads(m, path, u, v)
}

proof fn lemma_next_connected(m: Set<KeyV>, u: Value, v: Value)
    requires
        are_next(m, u, v),
    ensures
        are_connected(m, u, v),
{
    assert(leads(m, seq![u, v], u, v));
}

proof fn lemma_connected_joins(m: Set<KeyV>, u: Value, v: Value, w: Value)
    requires
        are_connected(m, u, v),
        are_connected(m, v, w),
    ensures
        are_connected(m, u, w),
{
    let p = choose|path: Seq<Value>| #[trigger] leads(m, path, u, v);
    let q = choose|path: Seq<Value>| #[trigger] leads(m, path, v, w);
    let r = p + q.drop_first();
    assert forall|i: int, j: int| 0 <= i && j == i + 1 && j < r.len() implies are_next(m, #[trigger] r[i], #[trigger] r[j]) by {
        if j < p.len() {
            assert(r[i] == p[i] && r[j] == p[j]);
        } else {
            let a = i - p.len() + 1;
            assert(r[j] == q[a + 1]);
            if i < p.len() {
                assert(r[i] == q[0]);
            } else {
                assert(r[i] == q[a]);
            }
            assert(are_next(m, q[a], q[a + 1]));
        }
    }
    assert(leads(m, r, u, w));
}

proof fn lemma_connected_back(m: Set<KeyV>, u: Value, v: Value)
    requires
        are_connected(m, u, v),
    ensures
        are_connected(m, v, u),
{
    let p = choose|path: Seq<Value>| #[trigger] leads(m, path, u, v);
    let r = Seq::new(p.len(), |i: int| p[p.len() - 1 - i]);
    assert forall|i: int, j: int| 0 <= i && j == i + 1 && j < r.len() implies are_next(m, #[trigger] r[i], #[trigger] r[j]) by {
        let a = p.len() - 1 - j;
        assert(are_next(m, p[a], p[a + 1]));
    }
    assert(leads(m, r, v, u));
}

proof fn lemma_next_same(b: Seq<Seq<char>>, now: i64, cs: Seq<ClauseV>, given: Set<KeyV>, all: Set<KeyV>, u: Value, v: Value)
    requires
        is_canonical_model(b, now, cs, given, all),
        are_next(all, u, v),
    ensures
        has_two(all, "same_as"@, u, v),
{
    lemma_distinct_words();
    let k = ("same_as"@, seq![u, v]);
    let x = map!["X"@ => u, "Y"@ => v];
    lemma_one_true(b, "alias_conflict"@, var("X"@), all, x);
    lemma_one_true(b, "alias_conflict"@, var("Y"@), all, x);
    if u == v && has_one(all, "entity"@, u) {
        let c = same_itself();
        lemma_one_true(b, "entity"@, var("X"@), all, x);
        lemma_two_head(b, c, "same_as"@, "X"@, "X"@, x);
        assert(follows_by(b, now, canonical_clauses()[0], all, k, x));
        lemma_fires(b, now, cs, given, all, 0, k, x);
    } else if has_two(all, "alias"@, u, v) {
        let c = same_alias();
        lemma_two_true(b, "alias"@, var("X"@), var("Y"@), all, x);
        lemma_two_head(b, c, "same_as"@, "X"@, "Y"@, x);
        assert(follows_by(b, now, canonical_clauses()[1], all, k, x));
        lemma_fires(b, now, cs, given, all, 1, k, x);
    } else {
        let c = same_back();
        lemma_two_true(b, "alias"@, var("Y"@), var("X"@), all, x);
        lemma_two_head(b, c, "same_as"@, "X"@, "Y"@, x);
        assert(follows_by(b, now, canonical_clauses()[2], all, k, x));
        lemma_fires(b, now, cs, given, all, 2, k, x);
    }
}

proof fn lemma_same_joins(
    b: Seq<Seq<char>>,
    now: i64,
    cs: Seq<ClauseV>,
    given: Set<KeyV>,
    all: Set<KeyV>,
    u: Value,
    v: Value,
    w: Value,
)
    requires
        is_canonical_model(b, now, cs, given, all),
        has_two(all, "same_as"@, u, v),
        has_two(all, "same_as"@, v, w),
    ensures
        has_two(all, "same_as"@, u, w),
{
    lemma_distinct_words();
    let k = ("same_as"@, seq![u, w]);
    let x = map!["X"@ => u, "Y"@ => v, "Z"@ => w];
    let c = same_chain();
    lemma_two_true(b, "same_as"@, var("X"@), var("Y"@), all, x);
    lemma_two_true(b, "same_as"@, var("Y"@), var("Z"@), all, x);
    lemma_two_head(b, c, "same_as"@, "X"@, "Z"@, x);
    assert(follows_by(b, now, canonical_clauses()[3], all, k, x));
    lemma_fires(b, now, cs, given, all, 3, k, x);
}

proof fn lemma_chain_same(
    b: Seq<Seq<char>>,
    now: i64,
    cs: Seq<ClauseV>,
    given: Set<KeyV>,
    all: Set<KeyV>,
    path: Seq<Value>,
)
    requires
        is_canonical_model(b, now, cs, given, all),
        is_chain(all, path),
    ensures
        has_two(all, "same_as"@, path[0], path.last()),
    decreases path.len(),
{
    let n = path.len() as int;
    assert(are_next(all, path[n - 2], path[n - 1]));
    lemma_next_same(b, now, cs, given, all, path[n - 2], path[n - 1]);
    if n > 2 {
        let front = path.drop_last();
        assert forall|i: int, j: int| 0 <= i && j == i + 1 && j < front.len() implies are_next(
            all,
            #[trigger] front[i],
            #[trigger] front[j],
        ) by {
            assert(are_next(all, path[i], path[j]));
        }
        lemma_chain_same(b, now, cs, given, all, front);
        lemma_same_joins(b, now, cs, given, all, path[0], path[n - 2], path[n - 1]);
    }
}

/// What a rule for sameness derives from connected pairs is a connected pair.
proof fn lemma_same_by(
    b: Seq<Seq<char>>,
    now: i64,
    m: Set<KeyV>,
    all: Set<KeyV>,
    j: int,
    x: Bindings,
)
    requires
        0 <= j < 4,
        m.subset_of(all),
        body_true(b, now, canonical_clauses()[j], m, all, x),
        head_fact(b, canonical_clauses()[j], x) is Some,
        forall|u: Value, v: Value| #[trigger] has_two(m, "same_as"@, u, v) ==> are_connected(all, u, v),
    ensures
        head_fact(b, canonical_clauses()[j], x)->Some_0.1.len() == 2,
        are_connected(
            all,
            head_fact(b, canonical_clauses()[j], x)->Some_0.1[0],
            head_fact(b, canonical_clauses()[j], x)->Some_0.1[1],
        ),
{
    lemma_distinct_words();
    let c = canonical_clauses()[j];
    assert(lit_true(b, now, c.body[0], m, all, x));
    if j == 0 {
        lemma_two_head(b, c, "same_as"@, "X"@, "X"@, x);
        lemma_one_true(b, "entity"@, var("X"@), m, x);
        lemma_next_connected(all, x["X"@], x["X"@]);
    } else if j == 1 {
        lemma_two_head(b, c, "same_as"@, "X"@, "Y"@, x);
        lemma_two_true(b, "alias"@, var("X"@), var("Y"@), m, x);
        assert(lit_true(b, now, c.body[1], m, all, x));
        assert(lit_true(b, now, c.body[2], m, all, x));
        lemma_one_true(b, "alias_conflict"@, var("X"@), all, x);
        lemma_one_true(b, "alias_conflict"@, var("Y"@), all, x);
        lemma_next_connected(all, x["X"@], x["Y"@]);
    } else if j == 2 {
        lemma_two_head(b, c, "same_as"@, "X"@, "Y"@, x);
        lemma_two_true(b, "alias"@, var("Y"@), var("X"@), m, x);
        assert(lit_true(b, now, c.body[1], m, all, x));
        assert(lit_true(b, now, c.body[2], m, all, x));
        lemma_one_true(b, "alias_conflict"@, var("X"@), all, x);
        lemma_one_true(b, "alias_conflict"@, var("Y"@), all, x);
        lemma_next_connected(all, x["X"@], x["Y"@]);
    } else {
        assert(lit_true(b, now, c.body[1], m, all, x));
        lemma_two_head(b, c, "same_as"@, "X"@, "Z"@, x);
        lemma_two_true(b, "same_as"@, var("X"@), var("Y"@), m, x);
        lemma_two_true(b, "same_as"@, var("Y"@), var("Z"@), m, x);
        lemma_connected_joins(all, x["X"@], x["Y"@], x["Z"@]);
    }
}

proof fn lemma_same_connected(
    b: Seq<Seq<char>>,
    now: i64,
    cs: Seq<ClauseV>,
    given: Set<KeyV>,
    all: Set<KeyV>,
    u: Value,
    v: Value,
)
    requires
        is_canonical_model(b, now, cs, given, all),
        has_two(all, "same_as"@, u, v),
    ensures
        are_connected(all, u, v),
{
    lemma_distinct_words();
    let keep = |k: KeyV| k.0 == "same_as"@ && k.1.len() == 2 ==> are_connected(all, k.1[0], k.1[1]);
    let m = all.filter(keep);
    assert forall|s: Value, t: Value| #[trigger] has_two(m, "same_as"@, s, t) implies are_connected(all, s, t) by {
        let k = ("same_as"@, seq![s, t]);
        assert(keep(k));
        assert(k.1[0] == s && k.1[1] == t);
    }
    assert forall|i: int| 0 <= i < cs.len() && !(#[trigger] cs[i]).is_fact implies leads_into(b, now, cs[i], m, all, m) by {
        let c = cs[i];
        assert forall|x: Bindings| #[trigger]
            body_true(b, now, c, m, all, x) && head_fact(b, c, x) is Some implies m.contains(head_fact(b, c, x)->Some_0) by {
            let k = head_fact(b, c, x)->Some_0;
            lemma_body_moves(b, now, c, m, all, all, all, x);
            assert(leads_into(b, now, c, all, all, all));
            assert(all.contains(k));
            if k.0 == "same_as"@ {
                assert(canonical_clauses().contains(c));
                let j = choose|j: int| 0 <= j < canonical_clauses().len() && canonical_clauses()[j] == c;
                assert(j < 4);
                lemma_same_by(b, now, m, all, j, x);
            }
            assert(keep(k));
        }
    }
    assert(program_closed(b, now, cs, m, all));
    assert forall|k: KeyV| given.contains(k) implies m.contains(k) by {
        assert(!is_identity_pred(k.0));
        assert(keep(k));
    }
    assert(all.subset_of(m));
    assert(m.contains(("same_as"@, seq![u, v])));
    assert(has_two(m, "same_as"@, u, v));
}

/// Law: two values are the same if and only if alias edges connect them, in
/// either direction and over any number of steps, without a conflict on the
/// way; an entity is the same as itself.
pub proof fn same_as_connects(
    b: Seq<Seq<char>>,
    now: i64,
    cs: Seq<ClauseV>,
    given: Set<KeyV>,
    all: Set<KeyV>,
    u: Value,
    v: Value,
)
    requires
        is_canonical_model(b, now, cs, given, all),
    ensures
        has_two(all, "same_as"@, u, v) <==> are_connected(all, u, v),
{
    if has_two(all, "same_as"@, u, v) {
        lemma_same_connected(b, now, cs, given, all, u, v);
    }
    if are_connected(all, u, v) {
        let path = choose|path: Seq<Value>| #[trigger] leads(all, path, u, v);
        lemma_chain_same(b, now, cs, given, all, path);
    }
}

/// Law: a conflict is not merged with anything: it is the same as itself at
/// most.
pub proof fn conflicts_not_merged(
    b: Seq<Seq<char>>,
    now: i64,
    cs: Seq<ClauseV>,
    given: Set<KeyV>,
    all: Set<KeyV>,
    u: Value,
    v: Value,
)
    requires
        is_canonical_model(b, now, cs, given, all),
        has_one(all, "alias_conflict"@, u),
    ensures
        has_two(all, "same_as"@, u, v) || has_two(all, "same_as"@, v, u) ==> u == v,
{
    if has_two(all, "same_as"@, u, v) {
        same_as_connects(b, now, cs, given, all, u, v);
        let path = choose|path: Seq<Value>| #[trigger] leads(all, path, u, v);
        lemma_conflict_stays(all, path, path.len() - 1);
    }
    if has_two(all, "same_as"@, v, u) {
        same_as_connects(b, now, cs, given, all, v, u);
        lemma_connected_back(all, v, u);
        let path = choose|path: Seq<Value>| #[trigger] leads(all, path, u, v);
        lemma_conflict_stays(all, path, path.len() - 1);
    }
}

/// A chain that starts at a conflict does not leave it.
proof fn lemma_conflict_stays(m: Set<KeyV>, path: Seq<Value>, i: int)
    requires
        is_chain(m, path),
        has_one(m, "alias_conflict"@, path[0]),
        0 <= i < path.len(),
    ensures
        path[i] == path[0],
    decreases i,
{
    if i > 0 {
        lemma_conflict_stays(m, path, i - 1);
        assert(are_next(m, path[i - 1], path[i]));
    }
}

/// Law: sameness goes both ways and from the same to the same, and what is the
/// same as anything is the same as itself.
pub proof fn same_as_is_equivalence(
    b: Seq<Seq<char>>,
    now: i64,
    cs: Seq<ClauseV>,
    given: Set<KeyV>,
    all: Set<KeyV>,
    u: Value,
    v: Value,
    w: Value,
)
    requires
        is_canonical_model(b, now, cs, given, all),
        has_two(all, "same_as"@, u, v),
    ensures
        has_two(all, "same_as"@, v, u),
        has_two(all, "same_as"@, u, u),
        has_two(all, "same_as"@, v, w) ==> has_two(all, "same_as"@, u, w),
{
    same_as_connects(b, now, cs, given, all, u, v);
    lemma_connected_back(all, u, v);
    same_as_connects(b, now, cs, given, all, v, u);
    lemma_same_joins(b, now, cs, given, all, u, v, u);
    if has_two(all, "same_as"@, v, w) {
        lemma_same_joins(b, now, cs, given, all, u, v, w);
    }
}

/// A name stands for something.
pub open spec fn stands_for_any(m: Set<KeyV>, u: Value) -> bool {
    exists|v: Value| #[trigger] has_two(m, "alias"@, u, v)
}

proof fn lemma_aliased(b: Seq<Seq<char>>, now: i64, cs: Seq<ClauseV>, given: Set<KeyV>, all: Set<KeyV>, u: Value)
    requires
        is_canonical_model(b, now, cs, given, all),
    ensures
        has_one(all, "aliased"@, u) <==> stands_for_any(all, u),
{
    lemma_distinct_words();
    let k = ("aliased"@, seq![u]);
    if has_one(all, "aliased"@, u) {
        let (j, x) = lemma_comes_from(b, now, cs, given, all, k);
        assert(j == 4);
        let c = is_aliased();
        lemma_one_head(b, c, "aliased"@, "X"@, x);
        assert(seq![x["X"@]][0] == seq![u][0]);
        assert(lit_true(b, now, c.body[0], all, all, x));
        lemma_two_true(b, "alias"@, var("X"@), TermV::Wildcard, all, x);
    }
    if stands_for_any(all, u) {
        let v = choose|v: Value| #[trigger] has_two(all, "alias"@, u, v);
        let x = map!["X"@ => u];
        let c = is_aliased();
        lemma_two_true(b, "alias"@, var("X"@), TermV::Wildcard, all, x);
        lemma_one_head(b, c, "aliased"@, "X"@, x);
        assert(follows_by(b, now, canonical_clauses()[4], all, k, x));
        lemma_fires(b, now, cs, given, all, 4, k, x);
    }
}

/// Law: a name maps to what it stands for; an entity that stands for nothing
/// maps to itself.
pub proof fn maps_to_canonical(
    b: Seq<Seq<char>>,
    now: i64,
    cs: Seq<ClauseV>,
    given: Set<KeyV>,
    all: Set<KeyV>,
    u: Value,
    v: Value,
)
    requires
        is_canonical_model(b, now, cs, given, all),
    ensures
        has_two(all, "maps_to"@, u, v) <==> has_two(all, "alias"@, u, v) || (u == v && has_one(all, "entity"@, u)
            && !stands_for_any(all, u)),
{
    lemma_distinct_words();
    let k = ("maps_to"@, seq![u, v]);
    lemma_aliased(b, now, cs, given, all, u);
    if has_two(all, "maps_to"@, u, v) {
        let (j, x) = lemma_comes_from(b, now, cs, given, all, k);
        assert(j == 5 || j == 6);
        let c = canonical_clauses()[j];
        assert(lit_true(b, now, c.body[0], all, all, x));
        if j == 5 {
            assert(lit_true(b, now, c.body[1], all, all, x));
            lemma_two_head(b, c, "maps_to"@, "X"@, "X"@, x);
            assert(seq![x["X"@], x["X"@]][0] == seq![u, v][0]);
            assert(seq![x["X"@], x["X"@]][1] == seq![u, v][1]);
            lemma_one_true(b, "entity"@, var("X"@), all, x);
            lemma_one_true(b, "aliased"@, var("X"@), all, x);
        } else {
            lemma_two_head(b, c, "maps_to"@, "L"@, "C"@, x);
            assert(seq![x["L"@], x["C"@]][0] == seq![u, v][0]);
            assert(seq![x["L"@], x["C"@]][1] == seq![u, v][1]);
            lemma_two_true(b, "alias"@, var("L"@), var("C"@), all, x);
        }
    }
    if has_two(all, "alias"@, u, v) {
        let x = map!["L"@ => u, "C"@ => v];
        lemma_two_true(b, "alias"@, var("L"@), var("C"@), all, x);
        lemma_two_head(b, maps_alias(), "maps_to"@, "L"@, "C"@, x);
        assert(follows_by(b, now, canonical_clauses()[6], all, k, x));
        lemma_fires(b, now, cs, given, all, 6, k, x);
    } else if u == v && has_one(all, "entity"@, u) && !stands_for_any(all, u) {
        let x = map!["X"@ => u];
        lemma_one_true(b, "entity"@, var("X"@), all, x);
        lemma_one_true(b, "aliased"@, var("X"@), all, x);
        lemma_two_head(b, maps_itself(), "maps_to"@, "X"@, "X"@, x);
        assert(follows_by(b, now, canonical_clauses()[5], all, k, x));
        lemma_fires(b, now, cs, given, all, 5, k, x);
    }
}

/// A name stands for two values.
pub open spec fn stands_twice(m: Set<KeyV>, u: Value, v: Value, w: Value) -> bool {
    v != w && has_two(m, "alias"@, u, v) && has_two(m, "alias"@, u, w)
}

/// A name is on both sides of alias edges.
pub open spec fn stands_between(m: Set<KeyV>, u: Value) -> bool {
    stands_for_any(m, u) && exists|v: Value| #[trigger] has_two(m, "alias"@, v, u)
}

/// Law: a name is a conflict if and only if it stands for two values, or is
/// both a name and what a name stands for.
pub proof fn conflicts_surface(b: Seq<Seq<char>>, now: i64, cs: Seq<ClauseV>, given: Set<KeyV>, all: Set<KeyV>, u: Value)
    requires
        is_canonical_model(b, now, cs, given, all),
    ensures
        has_one(all, "alias_conflict"@, u) <==> stands_between(all, u) || exists|v: Value, w: Value| #[trigger]
            stands_twice(all, u, v, w),
{
    lemma_distinct_words();
    let k = ("alias_conflict"@, seq![u]);
    if has_one(all, "alias_conflict"@, u) {
        let (j, x) = lemma_comes_from(b, now, cs, given, all, k);
        assert(j == 7 || j == 8);
        let c = canonical_clauses()[j];
        assert(lit_true(b, now, c.body[0], all, all, x));
        assert(lit_true(b, now, c.body[1], all, all, x));
        if j == 7 {
            assert(lit_true(b, now, c.body[2], all, all, x));
            lemma_one_head(b, c, "alias_conflict"@, "L"@, x);
            assert(seq![x["L"@]][0] == seq![u][0]);
            lemma_two_true(b, "alias"@, var("L"@), var("C1"@), all, x);
            lemma_two_true(b, "alias"@, var("L"@), var("C2"@), all, x);
            assert(stands_twice(all, u, x["C1"@], x["C2"@]));
        } else {
            lemma_one_head(b, c, "alias_conflict"@, "N"@, x);
            assert(seq![x["N"@]][0] == seq![u][0]);
            lemma_two_true(b, "alias"@, var("N"@), TermV::Wildcard, all, x);
            lemma_two_true(b, "alias"@, TermV::Wildcard, var("N"@), all, x);
        }
    }
    if exists|v: Value, w: Value| #[trigger] stands_twice(all, u, v, w) {
        let (v, w) = choose|v: Value, w: Value| #[trigger] stands_twice(all, u, v, w);
        let x = map!["L"@ => u, "C1"@ => v, "C2"@ => w];
        let c = stands_for_two();
        lemma_two_true(b, "alias"@, var("L"@), var("C1"@), all, x);
        lemma_two_true(b, "alias"@, var("L"@), var("C2"@), all, x);
        lemma_one_head(b, c, "alias_conflict"@, "L"@, x);
        assert(lit_true(b, now, c.body[2], all, all, x));
        assert(follows_by(b, now, canonical_clauses()[7], all, k, x));
        lemma_fires(b, now, cs, given, all, 7, k, x);
    } else if stands_between(all, u) {
        let x = map!["N"@ => u];
        let c = stands_on_both();
        lemma_two_true(b, "alias"@, var("N"@), TermV::Wildcard, all, x);
        lemma_two_true(b, "alias"@, TermV::Wildcard, var("N"@), all, x);
        lemma_one_head(b, c, "alias_conflict"@, "N"@, x);
        assert(follows_by(b, now, canonical_clauses()[8], all, k, x));
        lemma_fires(b, now, cs, given, all, 8, k, x);
    }
}

/// Law: what is no conflict maps to one value at most; an entity maps to one.
pub proof fn one_canonical(
    b: Seq<Seq<char>>,
    now: i64,
    cs: Seq<ClauseV>,
    given: Set<KeyV>,
    all: Set<KeyV>,
    u: Value,
    v: Value,
    w: Value,
)
    requires
        is_canonical_model(b, now, cs, given, all),
    ensures
        !has_one(all, "alias_conflict"@, u) && has_two(all, "maps_to"@, u, v) && has_two(all, "maps_to"@, u, w) ==> v == w,
        has_one(all, "entity"@, u) ==> exists|t: Value| #[trigger] has_two(all, "maps_to"@, u, t),
{
    maps_to_canonical(b, now, cs, given, all, u, v);
    maps_to_canonical(b, now, cs, given, all, u, w);
    conflicts_surface(b, now, cs, given, all, u);
    if has_two(all, "alias"@, u, v) && has_two(all, "alias"@, u, w) && v != w {
        assert(stands_twice(all, u, v, w));
    }
    if has_one(all, "entity"@, u) {
        if stands_for_any(all, u) {
            let t = choose|t: Value| #[trigger] has_two(all, "alias"@, u, t);
            maps_to_canonical(b, now, cs, given, all, u, t);
        } else {
            maps_to_canonical(b, now, cs, given, all, u, u);
        }
    }
}

// ------------------------------------------------------------------- programs

/// A rule neither derives nor reads what canonicalization derives.
pub open spec fn ignores_identity(c: ClauseV) -> bool {
    &&& !is_identity_pred(c.head.pred)
    &&& forall|j: int| 0 <= j < c.body.len() ==> (match lit_dep(#[trigger] c.body[j]) {
        Some(d) => !is_identity_pred(d.0),
        None => true,
    })
}

/// No rule of a program derives or reads what canonicalization derives.
pub open spec fn all_ignore_identity(cs: Seq<ClauseV>) -> bool {
    forall|i: int| 0 <= i < cs.len() && !(#[trigger] cs[i]).is_fact ==> ignores_identity(cs[i])
}

/// Ranks with those of what canonicalization derives.
pub open spec fn with_identity(rank: spec_fn(Seq<char>) -> nat) -> spec_fn(Seq<char>) -> nat {
    |p: Seq<char>|
        if p == "maps_to"@ || p == "same_as"@ {
            rank("alias"@) + rank("entity"@) + 2
        } else if is_identity_pred(p) {
            rank("alias"@) + rank("entity"@) + 1
        } else {
            rank(p)
        }
}

proof fn lemma_base_words()
    ensures
        !is_identity_pred("alias"@),
        !is_identity_pred("entity"@),
{
    reveal_strlit("same_as");
    reveal_strlit("aliased");
    reveal_strlit("maps_to");
    reveal_strlit("alias_conflict");
    reveal_strlit("alias");
    reveal_strlit("entity");
    assert("alias"@.len() == 5 && "entity"@.len() == 6);
}

proof fn lemma_canonical_ranked(rank: spec_fn(Seq<char>) -> nat)
    ensures
        is_ranked(canonical_clauses(), with_identity(rank)),
{
    lemma_distinct_words();
    lemma_base_words();
    let cs = canonical_clauses();
    let r = with_identity(rank);
    assert(reads_down(same_itself(), r));
    assert(reads_down(same_alias(), r));
    assert(reads_down(same_back(), r));
    assert(reads_down(same_chain(), r));
    assert(reads_down(is_aliased(), r));
    assert(reads_down(maps_itself(), r));
    assert(reads_down(maps_alias(), r));
    assert(reads_down(stands_for_two(), r));
    assert(reads_down(stands_on_both(), r));
}

proof fn lemma_no_identity_aggregates()
    ensures
        no_aggregates(canonical_clauses()),
{
    assert(!aggregates(same_itself()));
    assert(!aggregates(same_alias()));
    assert(!aggregates(same_back()));
    assert(!aggregates(same_chain()));
    assert(!aggregates(is_aliased()));
    assert(!aggregates(maps_itself()));
    assert(!aggregates(maps_alias()));
    assert(!aggregates(stands_for_two()));
    assert(!aggregates(stands_on_both()));
}

/// Law: an engine whose program reads down and does not touch what
/// canonicalization derives takes the canonicalization rules, and canonicalizes
/// with them.
pub proof fn canonicalization_installs(e: EngineV, rank: spec_fn(Seq<char>) -> nat)
    requires
        is_ranked(e.clauses, rank),
        no_aggregates(e.clauses),
        all_ignore_identity(e.clauses),
    ensures
        installed(e, CANONICAL_RULES@) is Ok,
        installed(e, CANONICAL_RULES@)->Ok_0.clauses == e.clauses + canonical_clauses(),
        canonicalizes(e.clauses + canonical_clauses()),
        is_ranked(e.clauses + canonical_clauses(), with_identity(rank)),
{
    let new = canonical_clauses();
    let cs = e.clauses + new;
    let n = e.clauses.len();
    let r = with_identity(rank);
    canonical_rules_read();
    lemma_canonical_ranked(rank);
    lemma_no_identity_aggregates();
    assert forall|i: int| 0 <= i < cs.len() && !(#[trigger] cs[i]).is_fact implies reads_down(cs[i], r) && !aggregates(cs[i]) by {
        if i < n {
            let c = e.clauses[i];
            assert(cs[i] == c);
            assert(ignores_identity(c));
            assert(reads_down(c, rank));
            assert forall|j: int| 0 <= j < c.body.len() implies (match #[trigger] c.body[j] {
                LitV::Pos(a) => a.pred == c.head.pred || r(a.pred) < r(c.head.pred),
                LitV::Neg(a) => r(a.pred) < r(c.head.pred),
                _ => true,
            }) by {
                assert(match lit_dep(c.body[j]) {
                    Some(d) => !is_identity_pred(d.0),
                    None => true,
                });
            }
        } else {
            assert(cs[i] == new[i - n]);
        }
    }
    ranked_is_accepted(cs, r);
    assert forall|j: int| 0 <= j < new.len() implies cs.contains(#[trigger] new[j]) by {
        assert(cs[n + j] == new[j]);
    }
    assert forall|i: int|
        0 <= i < cs.len() && !(#[trigger] cs[i]).is_fact && is_identity_pred(cs[i].head.pred) implies new.contains(cs[i]) by {
        if i < n {
            assert(cs[i] == e.clauses[i]);
            assert(ignores_identity(e.clauses[i]));
        } else {
            assert(cs[i] == new[i - n]);
        }
    }
}

/// Law: after alias edges were declared or retracted, one run gives the model
/// again, with sameness, mappings and conflicts as the edges now have them.
pub proof fn alias_changes_followed(e: EngineV, a: Seq<Seq<char>>, m: Set<KeyV>)
    requires
        keeps_up(e, a, m),
        e.clauses.len() <= usize::MAX,
        folds_apart(e.clauses),
        no_aggregates(e.clauses),
        stated_underived(e.clauses),
        canonicalizes(e.clauses),
        run_settles(e),
        ran(e).0.st.names.len() < usize::MAX,
    ensures
        is_canonical_model(
            ran(e).0.st.names,
            e.now,
            e.clauses,
            underived(e.clauses, facts(prepared(e).st.rels)),
            facts(ran(e).0.st.rels),
        ),
        keeps_up(ran(e).0, ran(e).0.st.names, facts(ran(e).0.st.rels)),
{
    plain_changes_followed_up(e, a, m);
    let given = underived(e.clauses, facts(prepared(e).st.rels));
    assert forall|k: KeyV| #[trigger] given.contains(k) implies !is_identity_pred(k.0) by {
        if is_identity_pred(k.0) {
            lemma_identity_defined(e.clauses, k.0);
        }
    }
}

proof fn lemma_identity_defined(cs: Seq<ClauseV>, p: Seq<char>)
    requires
        canonicalizes(cs),
        is_identity_pred(p),
    ensures
        defined(cs, p),
{
    let j: int = if p == "same_as"@ {
        0
    } else if p == "aliased"@ {
        4
    } else if p == "maps_to"@ {
        5
    } else {
        7
    };
    let c = canonical_clauses()[j];
    assert(cs.contains(c));
    let i = choose|i: int| 0 <= i < cs.len() && cs[i] == c;
    assert(!cs[i].is_fact && cs[i].head.pred == p);
}

// -------------------------------------------------------------------- entities

/// Every name of a sequence is in another.
pub open spec fn names_within(a: Seq<Seq<char>>, b: Seq<Seq<char>>) -> bool {
    forall|s: Seq<char>| #[trigger] a.contains(s) ==> b.contains(s)
}

/// The symbols of a tuple have their names in a sequence.
pub open spec fn names_listed(names: Seq<Seq<char>>, key: Seq<Value>, list: Seq<Seq<char>>) -> bool {
    forall|j: int| 0 <= j < key.len() && #[trigger] key[j] is Sym ==> list.contains(shown(names, key[j]))
}

proof fn lemma_with_new(s: Seq<Seq<char>>, x: Seq<char>)
    ensures
        names_within(s, with_new(s, x)),
        with_new(s, x).contains(x),
        forall|y: Seq<char>| #[trigger] with_new(s, x).contains(y) ==> y == x || s.contains(y),
{
    if !s.contains(x) {
        let t = s.push(x);
        assert(t[s.len() as int] == x);
        assert forall|y: Seq<char>| #[trigger] s.contains(y) implies t.contains(y) by {
            let i = choose|i: int| 0 <= i < s.len() && s[i] == y;
            assert(t[i] == y);
        }
    }
}

proof fn lemma_key_names(names: Seq<Seq<char>>, key: Seq<Value>, i: int, acc: Seq<Seq<char>>)
    requires
        0 <= i <= key.len(),
        known_key(names, key),
        names_within(acc, names),
    ensures
        names_within(acc, with_key_names(names, key, i, acc)),
        names_within(with_key_names(names, key, i, acc), names),
        forall|j: int|
            i <= j < key.len() && #[trigger] key[j] is Sym ==> with_key_names(names, key, i, acc).contains(
                shown(names, key[j]),
            ),
    decreases key.len() - i,
{
    if i < key.len() {
        assert(known_value(names, key[i]));
        if key[i] is Sym {
            let x = shown(names, key[i]);
            lemma_with_new(acc, x);
            assert(names[key[i]->Sym_0.0 as int] == x);
            lemma_key_names(names, key, i + 1, with_new(acc, x));
        } else {
            lemma_key_names(names, key, i + 1, acc);
        }
    }
}

proof fn lemma_names_in_keys(names: Seq<Seq<char>>, keys: Seq<Seq<Value>>, i: int, acc: Seq<Seq<char>>)
    requires
        0 <= i <= keys.len(),
        forall|j: int| 0 <= j < keys.len() ==> known_key(names, #[trigger] keys[j]),
        names_within(acc, names),
    ensures
        names_within(acc, with_names_in(names, keys, i, acc)),
        names_within(with_names_in(names, keys, i, acc), names),
        forall|j: int| i <= j < keys.len() ==> names_listed(names, #[trigger] keys[j], with_names_in(names, keys, i, acc)),
    decreases keys.len() - i,
{
    if i < keys.len() {
        let next = with_key_names(names, keys[i], 0, acc);
        lemma_key_names(names, keys[i], 0, acc);
        lemma_names_in_keys(names, keys, i + 1, next);
        let all = with_names_in(names, keys, i, acc);
        assert(names_listed(names, keys[i], all)) by {
            assert forall|j: int| 0 <= j < keys[i].len() && #[trigger] keys[i][j] is Sym implies all.contains(
                shown(names, keys[i][j]),
            ) by {
                assert(next.contains(shown(names, keys[i][j])));
            }
        }
    }
}

proof fn lemma_names_in(e: EngineV, preds: Seq<Seq<char>>, i: int, acc: Seq<Seq<char>>)
    requires
        0 <= i <= preds.len(),
        all_known(e.st),
        names_within(acc, e.st.names),
    ensures
        names_within(acc, names_in(e, preds, i, acc)),
        names_within(names_in(e, preds, i, acc), e.st.names),
        forall|q: int, key: Seq<Value>|
            i <= q < preds.len() && holds(e.st.rels, (#[trigger] preds[q], key)) ==> #[trigger] names_listed(
                e.st.names,
                key,
                names_in(e, preds, i, acc),
            ),
    decreases preds.len() - i,
{
    if i < preds.len() {
        let keys = keys_of(e, preds[i]);
        assert forall|j: int| 0 <= j < keys.len() implies known_key(e.st.names, #[trigger] keys[j]) by {
            let r = e.st.rels[preds[i]];
            assert(keys[j] == r.rows[j].key);
            assert(has_key(r, keys[j]));
            assert(holds(e.st.rels, (preds[i], keys[j])));
        }
        let next = with_names_in(e.st.names, keys, 0, acc);
        lemma_names_in_keys(e.st.names, keys, 0, acc);
        lemma_names_in(e, preds, i + 1, next);
        let all = names_in(e, preds, i, acc);
        assert forall|q: int, key: Seq<Value>|
            i <= q < preds.len() && holds(e.st.rels, (#[trigger] preds[q], key)) implies #[trigger] names_listed(
            e.st.names,
            key,
            all,
        ) by {
            if q == i {
                let r = e.st.rels[preds[i]];
                let j = choose|j: int| 0 <= j < r.rows.len() && (#[trigger] r.rows[j]).key == key;
                assert(keys[j] == key);
                assert(names_listed(e.st.names, keys[j], next));
                assert forall|t: int| 0 <= t < key.len() && #[trigger] key[t] is Sym implies all.contains(
                    shown(e.st.names, key[t]),
                ) by {
                    assert(next.contains(shown(e.st.names, key[t])));
                }
            }
        }
    }
}

proof fn lemma_seeded(e: EngineV, names: Seq<Seq<char>>, i: int)
    requires
        0 <= i <= names.len(),
        rels_wf(e.st.rels),
        names_within(names, e.st.names),
    ensures
        seeded(e, names, i).0.st.names == e.st.names,
        forall|k: KeyV| #[trigger] holds(e.st.rels, k) ==> holds(seeded(e, names, i).0.st.rels, k),
        forall|j: int|
            i <= j < names.len() ==> holds(
                seeded(e, names, i).0.st.rels,
                ("entity"@, seq![Value::Sym(interned(e.st.names, #[trigger] names[j]))]),
            ),
    decreases names.len() - i,
{
    if i < names.len() {
        assert(names.contains(names[i]));
        let k = ("entity"@, seq![Value::Sym(interned(e.st.names, names[i]))]);
        let e1 = with_symbol(e, names[i]);
        assert(e1.st.names == e.st.names);
        let e2 = EngineV { st: declared(e1.st, k, ann_unit()), ..e1 };
        let f = FactV { ann: ann_unit(), supports: seq![SupportV::Base] };
        lemma_store_assert(e1.st, k, f);
        lemma_assert_facts(e1.st, k, f);
        assert(holds(e2.st.rels, k));
        lemma_seeded(e2, names, i + 1);
        assert forall|k2: KeyV| #[trigger] holds(e.st.rels, k2) implies holds(seeded(e, names, i).0.st.rels, k2) by {
            assert(holds(e1.st.rels, k2));
            assert(holds(e2.st.rels, k2));
        }
        assert forall|j: int| i <= j < names.len() implies holds(
            seeded(e, names, i).0.st.rels,
            ("entity"@, seq![Value::Sym(interned(e.st.names, #[trigger] names[j]))]),
        ) by {
            if j == i {
                assert(holds(e2.st.rels, k));
            }
        }
    }
}

/// Law: seeding makes an entity of every symbol in the facts of the
/// predicates, and takes nothing away.
pub proof fn symbols_become_entities(e: EngineV, preds: Seq<Seq<char>>, q: int, key: Seq<Value>, j: int)
    requires
        is_sound(e.st),
        e.st.names.len() < usize::MAX,
        0 <= q < preds.len(),
        holds(e.st.rels, (preds[q], key)),
        0 <= j < key.len(),
        key[j] is Sym,
    ensures
        holds(seeded(e, names_in(e, preds, 0, Seq::empty()), 0).0.st.rels, ("entity"@, seq![key[j]])),
        holds(seeded(e, names_in(e, preds, 0, Seq::empty()), 0).0.st.rels, (preds[q], key)),
{
    let names = names_in(e, preds, 0, Seq::empty());
    lemma_names_in(e, preds, 0, Seq::empty());
    lemma_seeded(e, names, 0);
    assert(names_listed(e.st.names, key, names));
    let s = shown(e.st.names, key[j]);
    assert(names.contains(s));
    let i = choose|i: int| 0 <= i < names.len() && names[i] == s;
    assert(known_key(e.st.names, key));
    assert(known_value(e.st.names, key[j]));
    let x = key[j]->Sym_0;
    assert(e.st.names[x.0 as int] == s);
    assert(e.st.names.contains(s));
    assert(e.st.names[e.st.names.index_of(s)] == s);
    assert(e.st.names.index_of(s) == x.0);
    assert(interned(e.st.names, names[i]) == x);
}

} // verus!

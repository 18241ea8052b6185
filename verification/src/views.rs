//! What canonical views hold.

use vstd::prelude::*;
use crate::ast::{AtomV, ClauseV, LitV, TermV};
use crate::canonical::{numbered, view_args, view_head, view_maps, view_rule};
use crate::engine::{prepared, ran, EngineV};
use crate::env::Bindings;
use crate::exact::{facts_supported, follows_by};
use crate::follow::{keeps_up, plain_changes_followed_up, stated_underived, underived};
use crate::identity::{has_one, has_two, is_canonical_model, lemma_two_true, one_canonical, two};
use crate::lexer::is_word_char;
use crate::model::{facts, has_instance, is_instance, lit_true, term_is};
use crate::parser::parsed;
use crate::perfect::is_model;
use crate::relation::KeyV;
use crate::reload::lemma_joined_front;
use crate::scope::run_settles;
use crate::script::{
    args_text, atom_text, body_text, clause_text, clauses_text, is_clause, is_literal, is_predicate, is_variable, lit_text, may_stand,
    program_reads_back, program_text, term_text,
};
use crate::solve::head_from;
use crate::tally::folds_apart;
use crate::runs::no_aggregates;
use crate::stratify::defined;
use crate::text::{digits_value, joined, lemma_nat_text, nat_text};
use crate::value::Value;

verus! {

// ---------------------------------------------------------------------- rules

/// The argument of a view at a position, by letter.
pub open spec fn view_var(letter: Seq<char>, i: int) -> TermV {
    TermV::Var(numbered(letter)(i))
}

/// The position is mapped: all are, but the middle one of a triple, which
/// names the relation.
pub open spec fn is_mapped(arity: nat, i: int) -> bool {
    !(arity == 3 && i == 1)
}

/// The arguments that a view shows.
pub open spec fn shown_args(arity: nat) -> Seq<TermV> {
    Seq::new(
        arity,
        |i: int| if is_mapped(arity, i) {
            view_var("B"@, i)
        } else {
            view_var("A"@, i)
        },
    )
}

/// The arguments that a view reads.
pub open spec fn read_args(arity: nat) -> Seq<TermV> {
    Seq::new(arity, |i: int| view_var("A"@, i))
}

/// The literal that maps the argument at a position.
pub open spec fn mapping(i: int) -> LitV {
    LitV::Pos(AtomV { pred: "maps_to"@, args: seq![view_var("A"@, i), view_var("B"@, i)] })
}

/// The literals that map the first `n` arguments.
pub open spec fn mappings(arity: nat, n: int) -> Seq<LitV>
    decreases n,
{
    if n <= 0 {
        Seq::empty()
    } else if is_mapped(arity, n - 1) {
        mappings(arity, n - 1).push(mapping(n - 1))
    } else {
        mappings(arity, n - 1)
    }
}

/// The rule of a canonical view, as a clause.
pub open spec fn view_clause(rel: Seq<char>, arity: nat) -> ClauseV {
    ClauseV {
        name: None,
        head: AtomV { pred: rel + "_canon"@, args: shown_args(arity) },
        body: seq![LitV::Pos(AtomV { pred: rel, args: read_args(arity) })] + mappings(arity, arity as int),
        is_fact: false,
    }
}

/// The texts of terms.
spec fn term_texts(args: Seq<TermV>) -> Seq<Seq<char>> {
    Seq::new(args.len(), |i: int| term_text(args[i]))
}

/// The texts of literals.
spec fn lit_texts(body: Seq<LitV>) -> Seq<Seq<char>> {
    Seq::new(body.len(), |i: int| lit_text(body[i], seq![' ']))
}

proof fn lemma_args_joined(args: Seq<TermV>, k: int)
    requires
        0 <= k < args.len(),
    ensures
        args_text(args, k, seq![' ']) == joined(term_texts(args).skip(k), ", "@) + seq![')'],
    decreases args.len() - k,
{
    reveal_strlit(", ");
    let parts = term_texts(args).skip(k);
    if k + 1 < args.len() {
        lemma_args_joined(args, k + 1);
        lemma_joined_front(parts, ", "@);
        assert(parts.drop_first() =~= term_texts(args).skip(k + 1));
        assert(args_text(args, k, seq![' ']) =~= joined(parts, ", "@) + seq![')']);
    } else {
        assert(parts.len() == 1);
    }
}

proof fn lemma_body_joined(body: Seq<LitV>, k: int)
    requires
        0 <= k < body.len(),
    ensures
        body_text(body, k, seq![' ']) == joined(lit_texts(body).skip(k), ", "@) + seq!['.'],
    decreases body.len() - k,
{
    reveal_strlit(", ");
    let parts = lit_texts(body).skip(k);
    if k + 1 < body.len() {
        lemma_body_joined(body, k + 1);
        lemma_joined_front(parts, ", "@);
        assert(parts.drop_first() =~= lit_texts(body).skip(k + 1));
        assert(body_text(body, k, seq![' ']) =~= joined(parts, ", "@) + seq!['.']);
    } else {
        assert(parts.len() == 1);
    }
}

proof fn lemma_mapping_text(i: int)
    ensures
        lit_text(mapping(i), seq![' ']) == "maps_to(A"@ + nat_text(i as nat) + ", B"@ + nat_text(i as nat) + ")"@,
{
    reveal_strlit("maps_to(A");
    reveal_strlit("maps_to");
    reveal_strlit(", B");
    reveal_strlit(")");
    reveal_strlit("A");
    reveal_strlit("B");
    reveal_with_fuel(args_text, 3);
    let n = nat_text(i as nat);
    assert("maps_to(A"@ =~= "maps_to"@ + seq!['('] + "A"@);
    assert(lit_text(mapping(i), seq![' ']) =~= "maps_to"@ + seq!['('] + ("A"@ + n) + seq![',', ' '] + ("B"@ + n) + seq![')']);
    assert(", B"@ =~= seq![',', ' '] + "B"@);
    assert(")"@ =~= seq![')']);
    assert(lit_text(mapping(i), seq![' ']) =~= "maps_to(A"@ + n + ", B"@ + n + ")"@);
}

proof fn lemma_mappings_text(arity: nat, n: int)
    ensures
        lit_texts(mappings(arity, n)) == view_maps(arity, n),
    decreases n,
{
    if n > 0 {
        lemma_mappings_text(arity, n - 1);
        if is_mapped(arity, n - 1) {
            lemma_mapping_text(n - 1);
            assert(lit_texts(mappings(arity, n)) =~= view_maps(arity, n));
        }
    } else {
        assert(lit_texts(mappings(arity, n)) =~= view_maps(arity, n));
    }
}

proof fn lemma_shown_text(arity: nat)
    ensures
        joined(term_texts(shown_args(arity)), ", "@) == view_head(arity),
{
    if arity == 3 {
        reveal_strlit("B0, A1, B2");
        reveal_strlit("A");
        reveal_strlit("B");
        reveal_strlit(", ");
        let parts = term_texts(shown_args(arity));
        let b0 = "B"@ + nat_text(0);
        let a1 = "A"@ + nat_text(1);
        let b2 = "B"@ + nat_text(2);
        assert(parts =~= seq![b0, a1, b2]);
        assert(b0 =~= seq!['B', '0']);
        assert(a1 =~= seq!['A', '1']);
        assert(b2 =~= seq!['B', '2']);
        lemma_joined_front(parts, ", "@);
        let rest = parts.drop_first();
        assert(rest =~= seq![a1, b2]);
        lemma_joined_front(rest, ", "@);
        assert(rest.drop_first() =~= seq![b2]);
        assert(joined(seq![b2], ", "@) == b2);
        assert(joined(parts, ", "@) =~= b0 + ", "@ + (a1 + ", "@ + b2));
        assert(joined(parts, ", "@) =~= "B0, A1, B2"@);
    } else {
        assert(term_texts(shown_args(arity)) =~= view_args("B"@, arity));
    }
}

/// The text of an atom whose arguments are joined.
proof fn lemma_atom_joined(a: AtomV)
    ensures
        atom_text(a, seq![' ']) == a.pred + seq!['('] + joined(term_texts(a.args), ", "@) + seq![')'],
{
    if a.args.len() == 0 {
        assert(term_texts(a.args) =~= Seq::empty());
        assert(a.pred + seq!['('] + Seq::empty() + seq![')'] =~= a.pred + seq!['('] + seq![')']);
    } else {
        lemma_args_joined(a.args, 0);
        assert(term_texts(a.args).skip(0) =~= term_texts(a.args));
        assert(atom_text(a, seq![' ']) =~= a.pred + seq!['('] + joined(term_texts(a.args), ", "@) + seq![')']);
    }
}

proof fn lemma_view_text(rel: Seq<char>, arity: nat)
    ensures
        view_rule(rel, arity) == program_text(seq![view_clause(rel, arity)]),
{
    reveal_strlit("(");
    reveal_strlit(")");
    reveal_strlit("_canon(");
    reveal_strlit("_canon");
    reveal_strlit(") :- ");
    reveal_strlit(".\n");
    let c = view_clause(rel, arity);
    let a = AtomV { pred: rel, args: read_args(arity) };
    let atom = rel + "("@ + joined(view_args("A"@, arity), ", "@) + ")"@;
    assert(term_texts(read_args(arity)) =~= view_args("A"@, arity));
    lemma_atom_joined(a);
    assert("("@ =~= seq!['(']);
    assert(")"@ =~= seq![')']);
    assert(atom_text(a, seq![' ']) == atom);
    lemma_mappings_text(arity, arity as int);
    assert(lit_texts(c.body) =~= seq![atom] + view_maps(arity, arity as int)) by {
        let m = mappings(arity, arity as int);
        assert forall|i: int| 0 <= i < c.body.len() implies lit_texts(c.body)[i] == (seq![atom] + lit_texts(m))[i] by {
            if i > 0 {
                assert(c.body[i] == m[i - 1]);
            }
        }
        assert(lit_texts(c.body) =~= seq![atom] + lit_texts(m));
    }
    lemma_body_joined(c.body, 0);
    assert(lit_texts(c.body).skip(0) =~= lit_texts(c.body));
    let body = joined(seq![atom] + view_maps(arity, arity as int), ", "@);
    lemma_shown_text(arity);
    lemma_atom_joined(c.head);
    assert("_canon("@ =~= "_canon"@ + seq!['(']);
    assert(") :- "@ =~= seq![')'] + seq![' ', ':', '-', ' ']);
    assert(".\n"@ =~= seq!['.'] + seq!['\n']);
    let text = clause_text(c, seq![' ']);
    assert(text =~= rel + "_canon"@ + seq!['('] + view_head(arity) + seq![')'] + seq![' ', ':', '-', ' '] + body + seq!['.']);
    reveal_with_fuel(clauses_text, 2);
    let whole = program_text(seq![c]);
    assert(whole =~= text + seq!['\n']);
    assert(whole =~= rel + "_canon("@ + view_head(arity) + ") :- "@ + body + ".\n"@);
}

proof fn lemma_view_var(letter: Seq<char>, i: int)
    requires
        letter == "A"@ || letter == "B"@,
        0 <= i,
    ensures
        is_variable(numbered(letter)(i)),
{
    reveal_strlit("A");
    reveal_strlit("B");
    lemma_nat_text(i as nat);
    let n = nat_text(i as nat);
    let v = numbered(letter)(i);
    assert(v == letter + n);
    assert(v[0] == letter[0]);
    assert(v.len() >= 2);
    assert forall|k: int| 0 <= k < v.len() implies is_word_char(#[trigger] v[k]) by {
        if k > 0 {
            assert(v[k] == n[k - 1]);
        }
    }
    assert(seq!['_'].len() == 1);
}

proof fn lemma_mappings(arity: nat, n: int)
    requires
        n <= arity,
    ensures
        forall|j: int| 0 <= j < mappings(arity, n).len() ==> exists|i: int|
            0 <= i < n && is_mapped(arity, i) && #[trigger] mappings(arity, n)[j] == #[trigger] mapping(i),
        forall|i: int|
            0 <= i < n && is_mapped(arity, i) ==> mappings(arity, n).contains(#[trigger] mapping(i)),
    decreases n,
{
    if n > 0 {
        lemma_mappings(arity, n - 1);
        let before = mappings(arity, n - 1);
        let after = mappings(arity, n);
        assert forall|j: int| 0 <= j < after.len() implies exists|i: int|
            0 <= i < n && is_mapped(arity, i) && #[trigger] after[j] == #[trigger] mapping(i) by {
            if j < before.len() {
                assert(after[j] == before[j]);
                let i = choose|i: int| 0 <= i < n - 1 && is_mapped(arity, i) && before[j] == #[trigger] mapping(i);
                assert(after[j] == mapping(i));
            } else {
                assert(after[j] == mapping(n - 1));
            }
        }
        assert forall|i: int| 0 <= i < n && is_mapped(arity, i) implies after.contains(#[trigger] mapping(i)) by {
            if i < n - 1 {
                assert(before.contains(mapping(i)));
                let j = choose|j: int| 0 <= j < before.len() && before[j] == mapping(i);
                assert(after[j] == mapping(i));
            } else {
                assert(after[after.len() - 1] == mapping(i));
            }
        }
    }
}

/// Law: the rule of a canonical view reads as its clause.
pub proof fn view_rule_reads(rel: Seq<char>, arity: nat)
    requires
        is_predicate(rel),
        rel != "now"@,
    ensures
        parsed(view_rule(rel, arity)) == Ok::<Seq<ClauseV>, Seq<char>>(seq![view_clause(rel, arity)]),
{
    reveal_strlit("_canon");
    reveal_strlit("maps_to");
    reveal_strlit("now");
    let c = view_clause(rel, arity);
    let p = rel + "_canon"@;
    assert(is_predicate(p)) by {
        assert(p[0] == rel[0]);
        assert forall|k: int| 0 <= k < p.len() implies is_word_char(#[trigger] p[k]) by {
            if k < rel.len() {
                assert(p[k] == rel[k]);
            } else {
                assert(p[k] == "_canon"@[k - rel.len()]);
            }
        }
    }
    assert forall|i: int| 0 <= i < arity implies may_stand(#[trigger] c.head.args[i], true) by {
        lemma_view_var("A"@, i);
        lemma_view_var("B"@, i);
    }
    assert forall|i: int| 0 <= i < arity implies may_stand(#[trigger] read_args(arity)[i], false) by {
        lemma_view_var("A"@, i);
    }
    lemma_mappings(arity, arity as int);
    assert(is_predicate("maps_to"@));
    assert("maps_to"@.len() != "now"@.len());
    assert forall|j: int| 0 <= j < c.body.len() implies is_literal(#[trigger] c.body[j]) by {
        if j > 0 {
            let m = mappings(arity, arity as int);
            assert(c.body[j] == m[j - 1]);
            let i = choose|i: int| 0 <= i < arity && is_mapped(arity, i) && m[j - 1] == #[trigger] mapping(i);
            lemma_view_var("A"@, i);
            lemma_view_var("B"@, i);
        }
    }
    assert(is_clause(c));
    lemma_view_text(rel, arity);
    program_reads_back(seq![c]);
}

// ---------------------------------------------------------------------- models

/// A tuple is the projection of another: each value is what the other maps to,
/// but the name of the relation in the middle of a triple, which stays.
pub open spec fn projects(m: Set<KeyV>, raw: Seq<Value>, out: Seq<Value>) -> bool {
    raw.len() == out.len() && forall|i: int|
        0 <= i < raw.len() ==> if is_mapped(raw.len(), i) {
            has_two(m, "maps_to"@, raw[i], #[trigger] out[i])
        } else {
            raw[i] == out[i]
        }
}

/// A fact of a relation that is projected to a tuple.
pub open spec fn is_source(m: Set<KeyV>, rel: Seq<char>, raw: Seq<Value>, out: Seq<Value>) -> bool {
    m.contains((rel, raw)) && projects(m, raw, out)
}

/// Facts are the model of a program with the canonical view of a relation as
/// the one rule for it, with nothing of the view given.
pub open spec fn is_view_model(
    b: Seq<Seq<char>>,
    now: i64,
    cs: Seq<ClauseV>,
    given: Set<KeyV>,
    all: Set<KeyV>,
    rel: Seq<char>,
    arity: nat,
) -> bool {
    &&& is_model(b, now, cs, given, all)
    &&& cs.contains(view_clause(rel, arity))
    &&& forall|i: int|
        0 <= i < cs.len() && !(#[trigger] cs[i]).is_fact && cs[i].head.pred == rel + "_canon"@ ==> cs[i] == view_clause(
            rel,
            arity,
        )
    &&& forall|k: KeyV| #[trigger] given.contains(k) ==> k.0 != rel + "_canon"@
}

/// What the bindings give for a variable.
spec fn value_of(x: Bindings, t: TermV) -> Value {
    x[t->Var_0]
}

/// Each argument is a variable with a value.
spec fn all_bound(args: Seq<TermV>, x: Bindings) -> bool {
    forall|i: int| 0 <= i < args.len() ==> (#[trigger] args[i]) is Var && x.contains_key(args[i]->Var_0)
}

proof fn lemma_head_from(b: Seq<Seq<char>>, args: Seq<TermV>, i: int, x: Bindings, acc: Seq<Value>)
    requires
        0 <= i <= args.len(),
        forall|j: int| 0 <= j < args.len() ==> #[trigger] args[j] is Var,
    ensures
        head_from(b, args, i, x, acc).1 is Some ==> {
            &&& forall|j: int| i <= j < args.len() ==> x.contains_key((#[trigger] args[j])->Var_0)
            &&& head_from(b, args, i, x, acc).1 == Some(
                acc + Seq::new((args.len() - i) as nat, |j: int| value_of(x, args[i + j])),
            )
        },
        all_bound(args, x) ==> head_from(b, args, i, x, acc).1 is Some,
    decreases args.len() - i,
{
    if i < args.len() {
        assert(args[i] is Var);
        let v = args[i]->Var_0;
        if x.contains_key(v) {
            lemma_head_from(b, args, i + 1, x, acc.push(x[v]));
            let tail = Seq::new((args.len() - i - 1) as nat, |j: int| value_of(x, args[i + 1 + j]));
            let all = Seq::new((args.len() - i) as nat, |j: int| value_of(x, args[i + j]));
            assert(acc.push(x[v]) + tail =~= acc + all) by {
                assert forall|j: int| 0 <= j < (acc + all).len() implies (acc.push(x[v]) + tail)[j] == (acc + all)[j] by {
                    if j > acc.len() {
                        assert(tail[j - acc.len() - 1] == value_of(x, args[i + 1 + (j - acc.len() - 1)]));
                        assert(all[j - acc.len()] == value_of(x, args[i + (j - acc.len())]));
                    } else if j == acc.len() {
                        assert(all[0] == value_of(x, args[i + 0]));
                    }
                }
            }
        }
    } else {
        assert(acc + Seq::new(0, |j: int| value_of(x, args[i + j])) =~= acc);
    }
}

/// The bindings under which a view projects one tuple to another.
spec fn view_bindings(raw: Seq<Value>, out: Seq<Value>) -> Bindings {
    Map::new(
        |v: Seq<char>| true,
        |v: Seq<char>|
            if v[0] == 'A' {
                raw[digits_value(v.drop_first()) as int]
            } else {
                out[digits_value(v.drop_first()) as int]
            },
    )
}

proof fn lemma_view_bindings(raw: Seq<Value>, out: Seq<Value>, i: int)
    requires
        0 <= i,
    ensures
        view_bindings(raw, out)[numbered("A"@)(i)] == raw[i],
        view_bindings(raw, out)[numbered("B"@)(i)] == out[i],
{
    reveal_strlit("A");
    reveal_strlit("B");
    lemma_nat_text(i as nat);
    let n = nat_text(i as nat);
    let a = numbered("A"@)(i);
    let b = numbered("B"@)(i);
    assert(a == "A"@ + n && b == "B"@ + n);
    assert(a.drop_first() =~= n);
    assert(b.drop_first() =~= n);
    assert(a[0] == 'A' && b[0] == 'B');
}

/// The literal of a mapping holds if the values map.
proof fn lemma_mapping_true(b: Seq<Seq<char>>, now: i64, i: int, m: Set<KeyV>, n: Set<KeyV>, x: Bindings)
    ensures
        ({
            let u = numbered("A"@)(i);
            let v = numbered("B"@)(i);
            lit_true(b, now, mapping(i), m, n, x) <==> x.contains_key(u) && x.contains_key(v) && has_two(
                m,
                "maps_to"@,
                x[u],
                x[v],
            )
        }),
{
    let u = view_var("A"@, i);
    let v = view_var("B"@, i);
    assert(mapping(i) == LitV::Pos(two("maps_to"@, u, v)));
    lemma_two_true(b, "maps_to"@, u, v, m, x);
}

/// Law: a canonical view holds the projections of the facts of its relation,
/// and nothing else.
pub proof fn views_project(
    b: Seq<Seq<char>>,
    now: i64,
    cs: Seq<ClauseV>,
    given: Set<KeyV>,
    all: Set<KeyV>,
    rel: Seq<char>,
    arity: nat,
    out: Seq<Value>,
)
    requires
        is_view_model(b, now, cs, given, all, rel, arity),
    ensures
        all.contains((rel + "_canon"@, out)) <==> out.len() == arity && exists|raw: Seq<Value>| #[trigger]
            is_source(all, rel, raw, out),
{
    let c = view_clause(rel, arity);
    let k = (rel + "_canon"@, out);
    facts_supported(b, now, cs, given, all, k);
    if all.contains(k) {
        let (i, x) = choose|i: int, x: Bindings| 0 <= i < cs.len() && #[trigger] follows_by(b, now, cs[i], all, k, x);
        assert(cs[i].head.pred == k.0);
        lemma_view_only(b, now, all, rel, arity, out, x);
    }
    if out.len() == arity && exists|raw: Seq<Value>| #[trigger] is_source(all, rel, raw, out) {
        let raw = choose|raw: Seq<Value>| #[trigger] is_source(all, rel, raw, out);
        lemma_view_all(b, now, all, rel, raw, out);
        let i = choose|i: int| 0 <= i < cs.len() && cs[i] == c;
        assert(follows_by(b, now, cs[i], all, k, view_bindings(raw, out)));
    }
}

/// What a view derives is a projection.
proof fn lemma_view_only(
    b: Seq<Seq<char>>,
    now: i64,
    all: Set<KeyV>,
    rel: Seq<char>,
    arity: nat,
    out: Seq<Value>,
    x: Bindings,
)
    requires
        follows_by(b, now, view_clause(rel, arity), all, (rel + "_canon"@, out), x),
    ensures
        out.len() == arity,
        exists|raw: Seq<Value>| #[trigger] is_source(all, rel, raw, out),
{
    let c = view_clause(rel, arity);
    let a = AtomV { pred: rel, args: read_args(arity) };
    assert(c.body[0] == LitV::Pos(a));
    assert(lit_true(b, now, c.body[0], all, all, x));
    let raw = choose|key: Seq<Value>| all.contains((a.pred, key)) && #[trigger] is_instance(b, a.args, key, x);
    lemma_head_from(b, c.head.args, 0, x, Seq::empty());
    let vals = Seq::new(arity, |j: int| value_of(x, c.head.args[0 + j]));
    assert(Seq::<Value>::empty() + vals =~= vals);
    assert(out == vals);
    lemma_mappings(arity, arity as int);
    assert forall|i: int| 0 <= i < raw.len() implies if is_mapped(raw.len(), i) {
        has_two(all, "maps_to"@, raw[i], #[trigger] out[i])
    } else {
        raw[i] == out[i]
    } by {
        assert(term_is(b, a.args[i], raw[i], x));
        assert(a.args[i] == view_var("A"@, i));
        assert(out[i] == value_of(x, c.head.args[i]));
        if is_mapped(arity, i) {
            let m = mappings(arity, arity as int);
            assert(m.contains(mapping(i)));
            let j = choose|j: int| 0 <= j < m.len() && m[j] == mapping(i);
            assert(c.body[j + 1] == m[j]);
            assert(lit_true(b, now, c.body[j + 1], all, all, x));
            lemma_mapping_true(b, now, i, all, all, x);
        }
    }
    assert(is_source(all, rel, raw, out));
}

/// A projection is derived by the view.
proof fn lemma_view_all(b: Seq<Seq<char>>, now: i64, all: Set<KeyV>, rel: Seq<char>, raw: Seq<Value>, out: Seq<Value>)
    requires
        is_source(all, rel, raw, out),
    ensures
        follows_by(b, now, view_clause(rel, raw.len()), all, (rel + "_canon"@, out), view_bindings(raw, out)),
{
    let arity = raw.len();
    let c = view_clause(rel, arity);
    let a = AtomV { pred: rel, args: read_args(arity) };
    let x = view_bindings(raw, out);
    assert forall|i: int| 0 <= i < a.args.len() implies term_is(b, #[trigger] a.args[i], raw[i], x) by {
        lemma_view_bindings(raw, out, i);
    }
    assert(is_instance(b, a.args, raw, x));
    assert(has_instance(b, a, all, x));
    lemma_mappings(arity, arity as int);
    assert forall|j: int| 0 <= j < c.body.len() implies lit_true(b, now, #[trigger] c.body[j], all, all, x) by {
        if j == 0 {
            assert(c.body[0] == LitV::Pos(a));
        } else {
            let m = mappings(arity, arity as int);
            assert(c.body[j] == m[j - 1]);
            let i = choose|i: int| 0 <= i < arity && is_mapped(arity, i) && m[j - 1] == #[trigger] mapping(i);
            lemma_view_bindings(raw, out, i);
            lemma_mapping_true(b, now, i, all, all, x);
            assert(has_two(all, "maps_to"@, raw[i], out[i]));
        }
    }
    lemma_head_from(b, c.head.args, 0, x, Seq::empty());
    let vals = Seq::new(arity, |j: int| value_of(x, c.head.args[0 + j]));
    assert(Seq::<Value>::empty() + vals =~= vals);
    assert(vals =~= out) by {
        assert forall|i: int| 0 <= i < arity implies vals[i] == out[i] by {
            lemma_view_bindings(raw, out, i);
            assert(c.head.args[i] == if is_mapped(arity, i) {
                view_var("B"@, i)
            } else {
                view_var("A"@, i)
            });
            if !is_mapped(arity, i) {
                assert(raw[i] == out[i]);
            }
        }
    }
}

/// Law: after facts or alias edges were declared or retracted, one run gives
/// the model again, with the view as they now have it.
pub proof fn view_follows_changes(e: EngineV, a: Seq<Seq<char>>, m: Set<KeyV>, rel: Seq<char>, arity: nat)
    requires
        keeps_up(e, a, m),
        e.clauses.len() <= usize::MAX,
        folds_apart(e.clauses),
        no_aggregates(e.clauses),
        stated_underived(e.clauses),
        e.clauses.contains(view_clause(rel, arity)),
        forall|i: int|
            0 <= i < e.clauses.len() && !(#[trigger] e.clauses[i]).is_fact && e.clauses[i].head.pred == rel + "_canon"@
                ==> e.clauses[i] == view_clause(rel, arity),
        run_settles(e),
        ran(e).0.st.names.len() < usize::MAX,
    ensures
        is_view_model(
            ran(e).0.st.names,
            e.now,
            e.clauses,
            underived(e.clauses, facts(prepared(e).st.rels)),
            facts(ran(e).0.st.rels),
            rel,
            arity,
        ),
{
    plain_changes_followed_up(e, a, m);
    let i = choose|i: int| 0 <= i < e.clauses.len() && e.clauses[i] == view_clause(rel, arity);
    assert(!e.clauses[i].is_fact && e.clauses[i].head.pred == rel + "_canon"@);
    assert(defined(e.clauses, rel + "_canon"@));
}

/// Every value that a projection maps is one of a predicate.
pub open spec fn mapped_all(m: Set<KeyV>, p: Seq<char>, raw: Seq<Value>) -> bool {
    forall|i: int| 0 <= i < raw.len() && is_mapped(raw.len(), i) ==> has_one(m, p, #[trigger] raw[i])
}

/// No value that a projection maps is one of a predicate.
pub open spec fn mapped_none(m: Set<KeyV>, p: Seq<char>, raw: Seq<Value>) -> bool {
    forall|i: int| 0 <= i < raw.len() && is_mapped(raw.len(), i) ==> !has_one(m, p, #[trigger] raw[i])
}

/// Law: a fact about entities has a projection, and a fact without conflicts
/// has one at most.
pub proof fn one_projection(
    b: Seq<Seq<char>>,
    now: i64,
    cs: Seq<ClauseV>,
    given: Set<KeyV>,
    all: Set<KeyV>,
    raw: Seq<Value>,
    out: Seq<Value>,
    other: Seq<Value>,
)
    requires
        is_canonical_model(b, now, cs, given, all),
    ensures
        mapped_all(all, "entity"@, raw) ==> exists|t: Seq<Value>| projects(all, raw, t),
        mapped_none(all, "alias_conflict"@, raw) && projects(all, raw, out) && projects(all, raw, other) ==> out == other,
{
    if mapped_all(all, "entity"@, raw) {
        let t = Seq::new(
            raw.len(),
            |i: int|
                if is_mapped(raw.len(), i) {
                    choose|v: Value| #[trigger] has_two(all, "maps_to"@, raw[i], v)
                } else {
                    raw[i]
                },
        );
        assert forall|i: int| 0 <= i < raw.len() implies if is_mapped(raw.len(), i) {
            has_two(all, "maps_to"@, raw[i], #[trigger] t[i])
        } else {
            raw[i] == t[i]
        } by {
            if is_mapped(raw.len(), i) {
                assert(has_one(all, "entity"@, raw[i]));
                one_canonical(b, now, cs, given, all, raw[i], raw[i], raw[i]);
            }
        }
        assert(projects(all, raw, t));
    }
    if mapped_none(all, "alias_conflict"@, raw) && projects(all, raw, out) && projects(all, raw, other) {
        assert forall|i: int| 0 <= i < raw.len() implies out[i] == other[i] by {
            if is_mapped(raw.len(), i) {
                assert(!has_one(all, "alias_conflict"@, raw[i]));
                assert(has_two(all, "maps_to"@, raw[i], out[i]));
                assert(has_two(all, "maps_to"@, raw[i], other[i]));
                one_canonical(b, now, cs, given, all, raw[i], out[i], other[i]);
            } else {
                assert(raw[i] == out[i] && raw[i] == other[i]);
            }
        }
        assert(out =~= other);
    }
}

} // verus!

//! Entity resolution: alias edges from local names to canonical ones, and
//! views that project facts through them. Facts themselves are never
//! rewritten.

use vstd::prelude::*;
use vstd::string::StringExecFns;
use crate::context::{push_new, with_new};
use crate::engine::{declared, engine_wf, Engine, EngineV};
use crate::evaluate::row_keys;
use crate::intern::{interned, shown};
use crate::policy::{ann_from, ann_of, with_symbol};
use crate::protocol::{cands_view, parse_protocol_strict, strict_upto, CandV, CandidateFact};
use crate::query::fact_text;
use crate::relation::{ann_unit, Ann};
use crate::rules::{installed, next_batch, ProgramError, ProgramErrorV};
use crate::scan::lines_of;
use crate::sorted_set::models;
use crate::store::holds;
use crate::text::{join, joined, nat_text, nat_to_text, str_eq, texts};
use crate::value::Value;

verus! {

/// The rules of canonicalization. `maps_to` leads from a local name to its
/// canonical one, and from any other entity to itself; `same_as` is the
/// closure in both directions. A name with two canonical names, and a
/// canonical name that is itself local, is a conflict: it is reported, and the
/// alias edges at it merge nothing.
pub const CANONICAL_RULES: &'static str = "\
same_as(X, X) :- entity(X).\n\
same_as(X, Y) :- alias(X, Y), !alias_conflict(X), !alias_conflict(Y).\n\
same_as(X, Y) :- alias(Y, X), !alias_conflict(X), !alias_conflict(Y).\n\
same_as(X, Z) :- same_as(X, Y), same_as(Y, Z).\n\
aliased(X) :- alias(X, _).\n\
maps_to(X, X) :- entity(X), !aliased(X).\n\
maps_to(L, C) :- alias(L, C).\n\
alias_conflict(L) :- alias(L, C1), alias(L, C2), C1 \\= C2.\n\
alias_conflict(N) :- alias(N, _), alias(_, N).\n";

// ----------------------------------------------------------------- entities

/// The tuples of a predicate.
pub open spec fn keys_of(e: EngineV, pred: Seq<char>) -> Seq<Seq<Value>> {
    if e.st.rels.contains_key(pred) {
        row_keys(e.st.rels[pred])
    } else {
        Seq::empty()
    }
}

/// The names in a tuple from position `i` on, added to a sequence.
pub open spec fn with_key_names(names: Seq<Seq<char>>, key: Seq<Value>, i: int, acc: Seq<Seq<char>>) -> Seq<Seq<char>>
    decreases key.len() - i,
{
    if i < 0 || i >= key.len() {
        acc
    } else if key[i] is Sym {
        with_key_names(names, key, i + 1, with_new(acc, shown(names, key[i])))
    } else {
        with_key_names(names, key, i + 1, acc)
    }
}

/// The names in tuples from position `i` on, added to a sequence.
pub open spec fn with_names_in(names: Seq<Seq<char>>, keys: Seq<Seq<Value>>, i: int, acc: Seq<Seq<char>>) -> Seq<Seq<char>>
    decreases keys.len() - i,
{
    if i < 0 || i >= keys.len() {
        acc
    } else {
        with_names_in(names, keys, i + 1, with_key_names(names, keys[i], 0, acc))
    }
}

/// The names in the facts of the predicates from position `i` on, added to a
/// sequence.
pub open spec fn names_in(e: EngineV, preds: Seq<Seq<char>>, i: int, acc: Seq<Seq<char>>) -> Seq<Seq<char>>
    decreases preds.len() - i,
{
    if i < 0 || i >= preds.len() {
        acc
    } else {
        names_in(e, preds, i + 1, with_names_in(e.st.names, keys_of(e, preds[i]), 0, acc))
    }
}

/// The engine after declaring the names from position `i` on to be entities,
/// and how many were new.
pub open spec fn seeded(e: EngineV, names: Seq<Seq<char>>, i: int) -> (EngineV, nat)
    decreases names.len() - i,
{
    if i < 0 || i >= names.len() {
        (e, 0)
    } else {
        let k = ("entity"@, seq![Value::Sym(interned(e.st.names, names[i]))]);
        let e1 = with_symbol(e, names[i]);
        let rest = seeded(EngineV { st: declared(e1.st, k, ann_unit()), ..e1 }, names, i + 1);
        (
            rest.0,
            rest.1 + (if holds(e1.st.rels, k) {
                0nat
            } else {
                1nat
            }),
        )
    }
}

/// The names in the facts of the predicates, each once, in order.
pub fn entity_names(engine: &Engine, preds: &Vec<String>) -> (r: Vec<String>)
    ensures
        texts(r@) == names_in(engine@, texts(preds@), 0, Seq::empty()),
{
    let ghost e = engine@;
    let ghost names = e.st.names;
    let ghost ps = texts(preds@);
    let mut out: Vec<String> = Vec::new();
    assert(texts(out@) =~= Seq::empty());
    let mut i: usize = 0;
    while i < preds.len()
        invariant
            i <= preds@.len(),
            e == engine@,
            names == e.st.names,
            ps == texts(preds@),
            names_in(e, ps, 0, Seq::empty()) == names_in(e, ps, i as int, texts(out@)),
        decreases preds@.len() - i,
    {
        assert(ps[i as int] == preds@[i as int]@);
        let keys = engine.relation_keys(preds[i].as_str());
        let ghost kv = models(keys@);
        assert(kv == keys_of(e, ps[i as int]));
        let ghost want = with_names_in(names, kv, 0, texts(out@));
        let mut j: usize = 0;
        while j < keys.len()
            invariant
                j <= keys@.len(),
                e == engine@,
                names == e.st.names,
                kv == models(keys@),
                want == with_names_in(names, kv, j as int, texts(out@)),
            decreases keys@.len() - j,
        {
            assert(kv[j as int] == keys@[j as int]@);
            let key = &keys[j];
            let ghost want2 = with_key_names(names, key@, 0, texts(out@));
            let mut k: usize = 0;
            while k < key.len()
                invariant
                    k <= key@.len(),
                    e == engine@,
                    names == e.st.names,
                    want2 == with_key_names(names, key@, k as int, texts(out@)),
                decreases key@.len() - k,
            {
                if let Value::Sym(_) = key[k] {
                    let name = engine.store.interner.display(&key[k]);
                    push_new(&mut out, name);
                }
                k += 1;
            }
            j += 1;
        }
        i += 1;
    }
    out
}

impl Engine {
    /// Declares every name in the facts of the predicates to be an entity.
    /// Gives the number of new ones.
    pub fn seed_entities(&mut self, preds: &Vec<String>) -> (r: usize)
        requires
            engine_wf(old(self)@),
        ensures
            final(self)@ == seeded(old(self)@, names_in(old(self)@, texts(preds@), 0, Seq::empty()), 0).0,
            r == seeded(old(self)@, names_in(old(self)@, texts(preds@), 0, Seq::empty()), 0).1,
            engine_wf(final(self)@),
    {
        let names = entity_names(self, preds);
        let ghost nv = texts(names@);
        let ghost want = seeded(self@, nv, 0);
        let count: usize = names.len();
        let mut n: usize = 0;
        let mut i: usize = 0;
        while i < count
            invariant
                i <= count,
                count == names@.len(),
                nv == texts(names@),
                engine_wf(self@),
                n <= i,
                want.0 == seeded(self@, nv, i as int).0,
                want.1 == seeded(self@, nv, i as int).1 + n,
            decreases count - i,
        {
            assert(nv[i as int] == names@[i as int]@);
            let ghost e = self@;
            let sym = self.sym(names[i].as_str());
            let mut args: Vec<Value> = Vec::new();
            args.push(sym);
            assert(args@ =~= seq![sym]);
            if self.declare("entity", &args, Ann::unit()) {
                n += 1;
            }
            i += 1;
        }
        n
    }
}

// -------------------------------------------------------------------- views

/// The name of the argument at a position.
pub open spec fn numbered(letter: Seq<char>) -> spec_fn(int) -> Seq<char> {
    |i: int| letter + nat_text(i as nat)
}

/// The arguments of a view, by letter.
pub open spec fn view_args(letter: Seq<char>, arity: nat) -> Seq<Seq<char>> {
    Seq::new(arity, numbered(letter))
}

/// The atoms that map the first `n` arguments. In a triple the middle one is
/// the name of the relation and stays as it is.
pub open spec fn view_maps(arity: nat, n: int) -> Seq<Seq<char>>
    decreases n,
{
    if n <= 0 {
        Seq::empty()
    } else if arity == 3 && n == 2 {
        view_maps(arity, n - 1)
    } else {
        view_maps(arity, n - 1).push(
            "maps_to(A"@ + nat_text((n - 1) as nat) + ", B"@ + nat_text((n - 1) as nat) + ")"@,
        )
    }
}

/// The head arguments of a view.
pub open spec fn view_head(arity: nat) -> Seq<char> {
    if arity == 3 {
        "B0, A1, B2"@
    } else {
        joined(view_args("B"@, arity), ", "@)
    }
}

/// The rule of the canonical view of a relation.
pub open spec fn view_rule(rel: Seq<char>, arity: nat) -> Seq<char> {
    let atom = rel + "("@ + joined(view_args("A"@, arity), ", "@) + ")"@;
    rel + "_canon("@ + view_head(arity) + ") :- "@ + joined(seq![atom] + view_maps(arity, arity as int), ", "@) + ".\n"@
}

fn make_args(letter: &str, arity: usize) -> (r: Vec<String>)
    ensures
        texts(r@) == view_args(letter@, arity as nat),
{
    let mut r: Vec<String> = Vec::new();
    let mut i: usize = 0;
    while i < arity
        invariant
            i <= arity,
            r@.len() == i,
            forall|j: int| 0 <= j < i ==> (#[trigger] r@[j])@ == letter@ + nat_text(j as nat),
        decreases arity - i,
    {
        let mut s = letter.to_owned();
        let d = nat_to_text(i as u64);
        s.append(d.as_str());
        r.push(s);
        i += 1;
    }
    assert(texts(r@) =~= view_args(letter@, arity as nat));
    r
}

/// The rule of the canonical view of a relation: each argument is mapped to
/// its canonical name, but for the middle one of a triple, the name of the
/// relation.
pub fn canonical_view_rule(rel: &str, arity: usize) -> (r: String)
    ensures
        r@ == view_rule(rel@, arity as nat),
{
    let raw = make_args("A", arity);
    let mut atom = rel.to_owned();
    atom.append("(");
    let list = join(&raw, ", ");
    atom.append(list.as_str());
    atom.append(")");
    let ghost av = atom@;
    let mut body: Vec<String> = Vec::new();
    body.push(atom);
    let mut i: usize = 0;
    assert(texts(body@) =~= seq![av] + view_maps(arity as nat, 0));
    while i < arity
        invariant
            i <= arity,
            texts(body@) == seq![av] + view_maps(arity as nat, i as int),
        decreases arity - i,
    {
        let ghost before = texts(body@);
        if !(arity == 3 && i == 1) {
            let d = nat_to_text(i as u64);
            let mut m = "maps_to(A".to_owned();
            m.append(d.as_str());
            m.append(", B");
            m.append(d.as_str());
            m.append(")");
            let ghost mv = m@;
            body.push(m);
            proof {
                assert(texts(body@) =~= before.push(mv));
                assert((seq![av] + view_maps(arity as nat, i as int)).push(mv) =~= seq![av] + view_maps(
                    arity as nat,
                    i + 1,
                ));
            }
        }
        i += 1;
    }
    let mut out = rel.to_owned();
    out.append("_canon(");
    if arity == 3 {
        out.append("B0, A1, B2");
    } else {
        let canon = make_args("B", arity);
        let list = join(&canon, ", ");
        out.append(list.as_str());
    }
    out.append(") :- ");
    let all = join(&body, ", ");
    out.append(all.as_str());
    out.append(".\n");
    out
}

/// The views over the predicates with facts, among the first `n`.
pub open spec fn views_upto(e: EngineV, preds: Seq<Seq<char>>, n: int) -> Seq<char>
    decreases n,
{
    if n <= 0 {
        Seq::empty()
    } else {
        views_upto(e, preds, n - 1) + (if keys_of(e, preds[n - 1]).len() > 0 {
            view_rule(preds[n - 1], keys_of(e, preds[n - 1])[0].len())
        } else {
            Seq::empty()
        })
    }
}

/// The rule sources of canonicalization: the rules, and the views over the
/// predicates that have facts.
pub fn canonicalization_sources(e: &Engine, preds: &Vec<String>) -> (r: (&'static str, String))
    ensures
        r.0@ == CANONICAL_RULES@,
        r.1@ == views_upto(e@, texts(preds@), preds@.len() as int),
{
    let ghost ps = texts(preds@);
    let mut views = String::new();
    let mut i: usize = 0;
    assert(views@ =~= Seq::empty());
    while i < preds.len()
        invariant
            i <= preds@.len(),
            ps == texts(preds@),
            views@ == views_upto(e@, ps, i as int),
        decreases preds@.len() - i,
    {
        assert(ps[i as int] == preds@[i as int]@);
        let ghost before = views@;
        assert(before + Seq::<char>::empty() =~= before);
        let keys = e.relation_keys(preds[i].as_str());
        let ghost kv = models(keys@);
        assert(kv == keys_of(e@, ps[i as int]));
        if keys.len() > 0 {
            assert(kv[0] == keys@[0]@);
            let rule = canonical_view_rule(preds[i].as_str(), keys[0].len());
            views.append(rule.as_str());
        }
        i += 1;
    }
    (CANONICAL_RULES, views)
}

/// The engine with an alias edge.
pub open spec fn with_alias(e: EngineV, local: Seq<char>, canonical: Seq<char>, conf: u64) -> EngineV {
    let l = Value::Sym(interned(e.st.names, local));
    let e1 = with_symbol(e, local);
    let c = Value::Sym(interned(e1.st.names, canonical));
    let e2 = with_symbol(e1, canonical);
    EngineV { st: declared(e2.st, ("alias"@, seq![l, c]), ann_from(conf, "reconcile"@)), ..e2 }
}

/// The alias edge of two names.
pub open spec fn alias_key(e: EngineV, local: Seq<char>, canonical: Seq<char>) -> (Seq<char>, Seq<Value>) {
    (
        "alias"@,
        seq![
            Value::Sym(interned(e.st.names, local)),
            Value::Sym(interned(with_symbol(e, local).st.names, canonical)),
        ],
    )
}

/// Asserts that a local name stands for a canonical one; tells whether that
/// is new.
pub fn assert_alias(e: &mut Engine, local: &str, canonical: &str, conf: u64) -> (r: bool)
    requires
        engine_wf(old(e)@),
    ensures
        final(e)@ == with_alias(old(e)@, local@, canonical@, conf),
        r == !holds(old(e)@.st.rels, alias_key(old(e)@, local@, canonical@)),
        engine_wf(final(e)@),
{
    let l = e.sym(local);
    let c = e.sym(canonical);
    let mut args: Vec<Value> = Vec::new();
    args.push(l);
    args.push(c);
    assert(args@ =~= seq![l, c]);
    e.declare("alias", &args, ann_of(conf, "reconcile"))
}

/// Installing canonicalization over predicates: the engine after it, and the
/// id of the rule batch, or why a batch was rejected. Views are installed
/// after the rules.
pub open spec fn canonicalized(e: EngineV, preds: Seq<Seq<char>>) -> (EngineV, Result<Seq<char>, ProgramErrorV>) {
    let views = views_upto(e, preds, preds.len() as int);
    match installed(e, CANONICAL_RULES@) {
        Err(m) => (e, Err(m)),
        Ok(e1) => {
            let e2 = seeded(e1, names_in(e1, preds, 0, Seq::empty()), 0).0;
            if views.len() == 0 {
                (e2, Ok(next_batch(e.counter)))
            } else {
                match installed(e2, views) {
                    Err(m) => (e2, Err(m)),
                    Ok(e3) => (e3, Ok(next_batch(e.counter))),
                }
            }
        },
    }
}

/// Installs canonicalization over predicates: the rules, the entities, and
/// the views. Gives the id of the rule batch.
pub fn install_canonicalization(e: &mut Engine, preds: &Vec<String>) -> (r: Result<String, ProgramError>)
    requires
        engine_wf(old(e)@),
    ensures
        final(e)@ == canonicalized(old(e)@, texts(preds@)).0,
        match r {
            Ok(id) => canonicalized(old(e)@, texts(preds@)).1 == Ok::<Seq<char>, ProgramErrorV>(id@),
            Err(m) => canonicalized(old(e)@, texts(preds@)).1 == Err::<Seq<char>, ProgramErrorV>(m@),
        },
        engine_wf(final(e)@),
{
    let (rules, views) = canonicalization_sources(e, preds);
    let id = match e.install_program(rules) {
        Ok(id) => id,
        Err(m) => {
            return Err(m);
        },
    };
    e.seed_entities(preds);
    if !views.as_str().is_empty() {
        match e.install_program(views.as_str()) {
            Ok(_) => {},
            Err(m) => {
                return Err(m);
            },
        }
    }
    Ok(id)
}

/// The conflicts: names that are both local and canonical, or have two
/// canonical names.
pub open spec fn conflicts_of(e: EngineV) -> Seq<Seq<char>> {
    keys_of(e, "alias_conflict"@).map_values(|k: Seq<Value>| fact_text(e.st.names, "alias_conflict"@, k))
}

/// The conflicts among aliases, as text.
pub fn alias_conflicts(e: &Engine) -> (r: Vec<String>)
    ensures
        texts(r@) == conflicts_of(e@),
{
    let keys = e.relation_keys("alias_conflict");
    let ghost kv = models(keys@);
    let mut r: Vec<String> = Vec::new();
    let mut i: usize = 0;
    while i < keys.len()
        invariant
            i <= keys@.len(),
            kv == models(keys@),
            r@.len() == i,
            forall|j: int| 0 <= j < i ==> (#[trigger] r@[j])@ == fact_text(e@.st.names, "alias_conflict"@, kv[j]),
        decreases keys@.len() - i,
    {
        assert(kv[i as int] == keys@[i as int]@);
        r.push(e.render_fact("alias_conflict", &keys[i]));
        i += 1;
    }
    assert(texts(r@) =~= conflicts_of(e@));
    r
}

// ----------------------------------------------------------- reconciliation

/// The prompt for a model that reconciles names.
pub const RECONCILE_PROMPT: &'static str = "\
You reconcile entity names in a knowledge graph. You are given candidate \
pairs of names that MIGHT refer to the same real entity. Two names are \
aliases ONLY IF they refer to ONE SPECIFIC, INDIVIDUAL thing \u{2014} the same \
one person, the same one object, the same one place, the same one event. \
For each pair you are confident refers to that same individual, output one \
line:\n\
local --alias_of[CONFIDENCE]--> canonical\n\
CONFIDENCE in [0,1]. Choose the fuller, cleaner name as the canonical.\n\
NOT aliases \u{2014} skip these every time:\n\
- different members of a category: 'horse painting' and 'abstract \
painting' are two different paintings, not one.\n\
- a category and a member: 'painting' vs 'watercolor of a horse'.\n\
- phrases carrying time or events: 'adopted last year' is an event, not \
an entity name.\n\
- topics that merely relate: 'friends and family' vs 'friends'.\n\
Short for a full name IS an alias ('Mel' = 'Melanie'); so is a nickname \
or description of ONE thing ('my car' = 'Honda Civic' when both name the \
one car). When unsure, SKIP the pair. Output only the lines.";

/// The bit pattern of 0.8.
pub const EIGHT_TENTHS: u64 = 0x3FE9_9999_9999_999A;

/// Two names that may be of one entity.
pub type Pair = (String, String);

pub open spec fn pairs_view(s: Seq<Pair>) -> Seq<(Seq<char>, Seq<char>)> {
    s.map_values(|p: Pair| (p.0@, p.1@))
}

/// The pairs of names from the pair at positions `i` and `j` on.
pub open spec fn pairs_from(names: Seq<Seq<char>>, i: int, j: int) -> Seq<(Seq<char>, Seq<char>)>
    decreases names.len() - i, names.len() - j,
{
    if i < 0 || i >= names.len() {
        Seq::empty()
    } else if j >= names.len() {
        pairs_from(names, i + 1, i + 2)
    } else {
        seq![(names[i], names[j])] + pairs_from(names, i, j + 1)
    }
}

/// The first sixty pairs of names.
pub open spec fn offered_pairs(names: Seq<Seq<char>>) -> Seq<(Seq<char>, Seq<char>)> {
    let all = pairs_from(names, 0, 1);
    if all.len() > 60 {
        all.take(60)
    } else {
        all
    }
}

/// The pairs of names to offer to the model, sixty at most.
pub fn candidate_pairs(names: &Vec<String>) -> (r: Vec<Pair>)
    ensures
        pairs_view(r@) == offered_pairs(texts(names@)),
{
    let ghost nv = texts(names@);
    let ghost all = pairs_from(nv, 0, 1);
    let n: usize = names.len();
    let mut out: Vec<Pair> = Vec::new();
    let mut i: usize = 0;
    assert(pairs_view(out@) + all =~= all);
    while i < n && out.len() < 60
        invariant
            i <= n,
            n == names@.len(),
            nv == texts(names@),
            out@.len() <= 60,
            out@.len() < 60 ==> all == pairs_view(out@) + pairs_from(nv, i as int, i + 1),
            out@.len() == 60 ==> exists|rest: Seq<(Seq<char>, Seq<char>)>| all == pairs_view(out@) + #[trigger] id_pairs(rest),
        decreases n - i,
    {
        let mut j: usize = i + 1;
        while j < n && out.len() < 60
            invariant
                i < n,
                i < j <= n,
                n == names@.len(),
                nv == texts(names@),
                out@.len() <= 60,
                all == pairs_view(out@) + pairs_from(nv, i as int, j as int),
            decreases n - j,
        {
            let ghost before = pairs_view(out@);
            out.push((names[i].clone(), names[j].clone()));
            proof {
                let p = (nv[i as int], nv[j as int]);
                assert(pairs_view(out@) =~= before.push(p));
                assert(before + (seq![p] + pairs_from(nv, i as int, j + 1)) =~= before.push(p) + pairs_from(
                    nv,
                    i as int,
                    j + 1,
                ));
            }
            j += 1;
        }
        proof {
            if out@.len() == 60 {
                assert(all == pairs_view(out@) + id_pairs(pairs_from(nv, i as int, j as int)));
            }
        }
        i += 1;
    }
    proof {
        assert(pairs_view(out@).len() == out@.len());
        if out@.len() == 60 {
            let rest = choose|rest: Seq<(Seq<char>, Seq<char>)>| all == pairs_view(out@) + #[trigger] id_pairs(rest);
            assert(all.take(60) =~= pairs_view(out@));
            if all.len() == 60 {
                assert(all =~= pairs_view(out@));
            }
        } else {
            assert(all =~= pairs_view(out@));
        }
    }
    out
}

spec fn id_pairs(s: Seq<(Seq<char>, Seq<char>)>) -> Seq<(Seq<char>, Seq<char>)> {
    s
}

/// The lines that list pairs.
pub open spec fn pair_lines(pairs: Seq<(Seq<char>, Seq<char>)>) -> Seq<Seq<char>> {
    pairs.map_values(|p: (Seq<char>, Seq<char>)| "- "@ + p.0 + " | "@ + p.1)
}

/// The message that offers pairs to the model.
pub open spec fn offer_text(pairs: Seq<(Seq<char>, Seq<char>)>) -> Seq<char> {
    "Candidate pairs:\n"@ + joined(pair_lines(pairs), "\n"@) + "\n\nLines only:"@
}

/// The message that offers pairs to the model; none where there is nothing to
/// offer.
pub fn reconcile_message(pairs: &Vec<Pair>) -> (r: Option<String>)
    ensures
        match r {
            Some(m) => pairs@.len() > 0 && m@ == offer_text(pairs_view(pairs@)),
            None => pairs@.len() == 0,
        },
{
    if pairs.len() == 0 {
        return None;
    }
    let ghost pv = pairs_view(pairs@);
    let mut lines: Vec<String> = Vec::new();
    let mut i: usize = 0;
    while i < pairs.len()
        invariant
            i <= pairs@.len(),
            pv == pairs_view(pairs@),
            lines@.len() == i,
            forall|j: int| 0 <= j < i ==> (#[trigger] lines@[j])@ == "- "@ + pv[j].0 + " | "@ + pv[j].1,
        decreases pairs@.len() - i,
    {
        assert(pv[i as int] == (pairs@[i as int].0@, pairs@[i as int].1@));
        let mut s = "- ".to_owned();
        s.append(pairs[i].0.as_str());
        s.append(" | ");
        s.append(pairs[i].1.as_str());
        lines.push(s);
        i += 1;
    }
    assert(texts(lines@) =~= pair_lines(pv));
    let mut m = "Candidate pairs:\n".to_owned();
    let list = join(&lines, "\n");
    m.append(list.as_str());
    m.append("\n\nLines only:");
    Some(m)
}

/// An alias that was asserted: local name, canonical name, confidence.
pub type Alias = (String, String, u64);

pub open spec fn aliases_view(s: Seq<Alias>) -> Seq<(Seq<char>, Seq<char>, u64)> {
    s.map_values(|a: Alias| (a.0@, a.1@, a.2))
}

/// The engine after asserting the aliases among the facts from position `i`
/// on, and the aliases.
pub open spec fn with_aliases(e: EngineV, fs: Seq<CandV>, i: int) -> (EngineV, Seq<(Seq<char>, Seq<char>, u64)>)
    decreases fs.len() - i,
{
    if i < 0 || i >= fs.len() {
        (e, Seq::empty())
    } else if fs[i].pred == "alias_of"@ {
        let rest = with_aliases(with_alias(e, fs[i].subj, fs[i].obj, fs[i].confidence), fs, i + 1);
        (rest.0, seq![(fs[i].subj, fs[i].obj, fs[i].confidence)] + rest.1)
    } else {
        with_aliases(e, fs, i + 1)
    }
}

/// Asserts the aliases among facts.
pub fn assert_aliases(e: &mut Engine, fs: &Vec<CandidateFact>) -> (r: Vec<Alias>)
    requires
        engine_wf(old(e)@),
    ensures
        final(e)@ == with_aliases(old(e)@, cands_view(fs@), 0).0,
        aliases_view(r@) == with_aliases(old(e)@, cands_view(fs@), 0).1,
        engine_wf(final(e)@),
{
    let ghost fv = cands_view(fs@);
    let ghost want = with_aliases(e@, fv, 0);
    let mut out: Vec<Alias> = Vec::new();
    let mut i: usize = 0;
    assert(aliases_view(out@) + want.1 =~= want.1);
    while i < fs.len()
        invariant
            i <= fs@.len(),
            fv == cands_view(fs@),
            engine_wf(e@),
            want.0 == with_aliases(e@, fv, i as int).0,
            want.1 == aliases_view(out@) + with_aliases(e@, fv, i as int).1,
        decreases fs@.len() - i,
    {
        let ghost before = aliases_view(out@);
        assert(fv[i as int] == fs@[i as int]@);
        if str_eq(fs[i].pred.as_str(), "alias_of") {
            assert_alias(e, fs[i].subj.as_str(), fs[i].obj.as_str(), fs[i].confidence);
            out.push((fs[i].subj.clone(), fs[i].obj.clone(), fs[i].confidence));
            proof {
                let a = (fv[i as int].subj, fv[i as int].obj, fv[i as int].confidence);
                assert(aliases_view(out@) =~= before.push(a));
                let rest = with_aliases(e@, fv, i + 1).1;
                assert(before + (seq![a] + rest) =~= before.push(a) + rest);
            }
        }
        i += 1;
    }
    assert(aliases_view(out@) + Seq::<(Seq<char>, Seq<char>, u64)>::empty() =~= aliases_view(out@));
    out
}

/// Ends a reconciliation with the model's reply: its clean alias lines are
/// asserted.
pub fn accept_reconciliation(e: &mut Engine, reply: &str) -> (r: Vec<Alias>)
    requires
        engine_wf(old(e)@),
    ensures
        ({
            let fs = strict_upto(lines_of(reply@), EIGHT_TENTHS, lines_of(reply@).len() as int);
            final(e)@ == with_aliases(old(e)@, fs, 0).0 && aliases_view(r@) == with_aliases(old(e)@, fs, 0).1
        }),
        engine_wf(final(e)@),
{
    let fs = parse_protocol_strict(reply, EIGHT_TENTHS);
    assert_aliases(e, &fs)
}

} // verus!

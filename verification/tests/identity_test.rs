//! Canonicalization and the default rules, on concrete values.

use lemmalog::agent::{AgentMemory, DEFAULT_RULES};
use lemmalog::canonical::{assert_alias, install_canonicalization, CANONICAL_RULES};
use lemmalog::engine::Engine;
use lemmalog::extract::MockExtractor;
use lemmalog::parser::parse_program;
use lemmalog::relation::Ann;
use lemmalog::value::Value;

fn rows(e: &Engine, goal: &str) -> Vec<String> {
    let mut r = e.ask(goal).unwrap();
    r.sort();
    r
}

fn entity(e: &mut Engine, name: &str) {
    let s = e.sym(name);
    e.declare("entity", &vec![s], Ann::unit());
}

fn alias(e: &mut Engine, local: &str, canonical: &str) {
    assert_alias(e, local, canonical, 0.9f64.to_bits());
}

fn canonical() -> Engine {
    let mut e = Engine::new();
    e.install_program(CANONICAL_RULES).unwrap();
    for n in ["al", "ally", "alice", "bob", "mel"] {
        entity(&mut e, n);
    }
    alias(&mut e, "al", "alice");
    alias(&mut e, "ally", "alice");
    e.run();
    e
}

#[test]
fn rule_texts_read_as_their_clauses() {
    let cs = parse_program(CANONICAL_RULES).unwrap();
    let heads: Vec<&str> = cs.iter().map(|c| c.head.pred.as_str()).collect();
    assert_eq!(
        heads,
        [
            "same_as",
            "same_as",
            "same_as",
            "same_as",
            "aliased",
            "maps_to",
            "maps_to",
            "alias_conflict",
            "alias_conflict"
        ]
    );
    assert!(cs.iter().all(|c| !c.is_fact && c.name.is_none()));
    let cs = parse_program(DEFAULT_RULES).unwrap();
    let heads: Vec<&str> = cs.iter().map(|c| c.head.pred.as_str()).collect();
    assert_eq!(heads, ["current", "exclusive", "set_valued", "set_valued", "set_valued", "set_valued"]);
    assert_eq!(cs[0].body.len(), 4);
    assert!(cs[1..].iter().all(|c| c.is_fact));
}

#[test]
fn sameness_joins_what_aliases_connect() {
    let e = canonical();
    assert_eq!(rows(&e, "same_as(\"al\", Y)"), ["Y=al", "Y=alice", "Y=ally"]);
    assert_eq!(rows(&e, "same_as(\"alice\", Y)"), ["Y=al", "Y=alice", "Y=ally"]);
    assert_eq!(rows(&e, "same_as(X, \"ally\")"), ["X=al", "X=alice", "X=ally"]);
    assert_eq!(rows(&e, "same_as(\"bob\", Y)"), ["Y=bob"]);
    assert!(rows(&e, "same_as(\"nobody\", Y)").is_empty());
}

#[test]
fn names_map_to_what_they_stand_for() {
    let e = canonical();
    assert_eq!(
        rows(&e, "maps_to(X, Y)"),
        ["X=al, Y=alice", "X=alice, Y=alice", "X=ally, Y=alice", "X=bob, Y=bob", "X=mel, Y=mel"]
    );
    assert!(rows(&e, "alias_conflict(X)").is_empty());
}

#[test]
fn conflicts_are_names_of_two_and_names_on_both_sides() {
    let mut e = canonical();
    alias(&mut e, "al", "albert");
    alias(&mut e, "alice", "mel");
    e.run();
    // "al" stands for two; "alice" is a name and what names stand for.
    assert_eq!(rows(&e, "alias_conflict(X)"), ["X=al", "X=alice"]);
    // Neither is merged with anything.
    assert_eq!(rows(&e, "same_as(\"al\", Y)"), ["Y=al"]);
    assert_eq!(rows(&e, "same_as(X, \"alice\")"), ["X=alice"]);
    assert_eq!(rows(&e, "same_as(\"ally\", Y)"), ["Y=ally"]);
    // What was a conflict is merged once it is none.
    let key: Vec<Value> = vec![e.sym("alice"), e.sym("mel")];
    assert!(e.retract("alias", &key));
    e.run();
    assert_eq!(rows(&e, "alias_conflict(X)"), ["X=al"]);
    assert_eq!(rows(&e, "same_as(\"ally\", Y)"), ["Y=alice", "Y=ally"]);
    assert_eq!(rows(&e, "same_as(\"al\", Y)"), ["Y=al"]);
}

#[test]
fn retracted_aliases_leave_nothing_behind() {
    let mut e = canonical();
    let key: Vec<Value> = vec![e.sym("al"), e.sym("alice")];
    assert!(e.retract("alias", &key));
    e.run();
    assert_eq!(rows(&e, "same_as(\"al\", Y)"), ["Y=al"]);
    assert_eq!(rows(&e, "same_as(\"alice\", Y)"), ["Y=alice", "Y=ally"]);
    assert_eq!(rows(&e, "maps_to(\"al\", Y)"), ["Y=al"]);
}

#[test]
fn views_hold_the_projections() {
    let mut e = Engine::new();
    for (a, b) in [("al", "tea"), ("bob", "milk")] {
        let key = vec![e.sym(a), e.sym(b)];
        e.declare("likes", &key, Ann::unit());
    }
    alias(&mut e, "al", "alice");
    install_canonicalization(&mut e, &vec!["likes".to_string()]).unwrap();
    e.run();
    assert_eq!(rows(&e, "likes_canon(X, Y)"), ["X=alice, Y=tea", "X=bob, Y=milk"]);
    assert_eq!(rows(&e, "likes(X, Y)"), ["X=al, Y=tea", "X=bob, Y=milk"]);
    let key: Vec<Value> = vec![e.sym("al"), e.sym("alice")];
    e.retract("alias", &key);
    e.run();
    assert_eq!(rows(&e, "likes_canon(X, Y)"), ["X=al, Y=tea", "X=bob, Y=milk"]);
}

#[test]
fn fresh_memories_start_and_canonicalize() {
    let mut m = AgentMemory::new(MockExtractor::new(0.9f64.to_bits()), " \n").unwrap();
    assert!(m.engine.install_program(CANONICAL_RULES).is_ok());
}

#[test]
fn what_is_true_now_is_what_open_edges_say() {
    let mut e = Engine::new();
    e.install_program(DEFAULT_RULES).unwrap();
    for (o, from, to) in [("past", 0, 5), ("open", 5, 10), ("later", 10, 20)] {
        let key = vec![e.sym("s"), e.sym("r"), e.sym(o), Value::Int(from), Value::Int(to), e.sym("src")];
        e.declare("edge", &key, Ann::unit());
    }
    e.set_now(5);
    e.run();
    assert_eq!(rows(&e, "current(S, R, O)"), ["S=s, R=r, O=open"]);
    let key = vec![e.sym("s"), e.sym("r"), e.sym("open"), Value::Int(5), Value::Int(10), e.sym("src")];
    e.retract("edge", &key);
    e.run();
    assert!(rows(&e, "current(S, R, O)").is_empty());
}

#[test]
fn clauses_read_back_from_their_text() {
    let text = "p(X, count(Y)) :- q(X, \"a\\\"b\\\\\", -5), !r(X), X \\= Y, Y =< X + 3 - 1, now(T), q(_, Y, T).\nn().\n";
    let cs = parse_program(text).unwrap();
    assert_eq!(cs.len(), 2);
    assert_eq!(cs[0].body.len(), 6);
    assert_eq!(cs[0].head.args.len(), 2);
    assert!(cs[1].is_fact && cs[1].head.args.is_empty());
    let shown = format!("{:?}", cs[0].body[0]);
    assert!(shown.contains("Sym(\"a\\\"b\\\\\")") && shown.contains("Int(-5)"), "{shown}");
}

fn confidence(e: &mut Engine, pred: &str, a: &str, b: &str) -> f64 {
    let key = vec![e.sym(a), e.sym(b)];
    f64::from_bits(e.fact(pred, &key).unwrap().ann.conf.bits())
}

#[test]
fn confidence_of_two_steps_is_their_product() {
    let mut e = canonical();
    assert_eq!(confidence(&mut e, "same_as", "al", "alice"), 0.9);
    assert_eq!(confidence(&mut e, "same_as", "al", "ally"), 0.9 * 0.9);
    assert_eq!(confidence(&mut e, "same_as", "bob", "bob"), 1.0);
}

#[test]
fn symbols_of_facts_become_entities() {
    let mut e = Engine::new();
    let key = vec![e.sym("al"), Value::Int(3), e.sym("tea")];
    e.declare("drank", &key, Ann::unit());
    assert_eq!(e.seed_entities(&vec!["drank".to_string(), "nothing".to_string()]), 2);
    assert_eq!(rows(&e, "entity(X)"), ["X=al", "X=tea"]);
    assert_eq!(e.seed_entities(&vec!["drank".to_string()]), 0);
}

//! The engine: facts, rules, queries, explanations.

use lemmalog::ast::{Expr, Term};
use lemmalog::builtins::linearize;
use lemmalog::engine::Engine;
use lemmalog::env::Env;
use lemmalog::policy::ann_of;
use lemmalog::relation::{Ann, Support};
use lemmalog::rules::ProgramError;
use lemmalog::solve::solve_all;
use lemmalog::store::Change;
use lemmalog::value::Value;

fn bits(x: f64) -> u64 {
    x.to_bits()
}

fn fact(e: &mut Engine, pred: &str, args: &[&str]) -> bool {
    let vals: Vec<Value> = args.iter().map(|a| e.sym(a)).collect();
    e.declare(pred, &vals, Ann::unit())
}

fn ask(e: &Engine, goal: &str) -> Vec<String> {
    let mut rows = e.ask(goal).unwrap();
    rows.sort();
    rows
}

const CLOSURE: &str = "reach(X,Y) :- link(X,Y).\nreach(X,Z) :- reach(X,Y), link(Y,Z).";

#[test]
fn closure_is_derived_incrementally() {
    let mut e = Engine::new();
    e.install_program(CLOSURE).unwrap();
    fact(&mut e, "link", &["a", "b"]);
    fact(&mut e, "link", &["b", "c"]);
    assert_eq!(e.run(), 3);
    assert_eq!(ask(&e, "reach(\"a\", Y)"), vec!["Y=b", "Y=c"]);
    assert_eq!(e.run(), 0);
    fact(&mut e, "link", &["c", "d"]);
    assert_eq!(e.run(), 3);
    assert_eq!(ask(&e, "reach(X, \"d\")"), vec!["X=a", "X=b", "X=c"]);
}

#[test]
fn retraction_recomputes_dependents() {
    let mut e = Engine::new();
    e.install_program(CLOSURE).unwrap();
    fact(&mut e, "link", &["a", "b"]);
    fact(&mut e, "link", &["b", "c"]);
    e.run();
    let b = e.sym("b");
    let c = e.sym("c");
    assert!(e.retract("link", &vec![b, c]));
    assert!(!e.retract("link", &vec![b, c]));
    e.run();
    assert_eq!(ask(&e, "reach(X, Y)"), vec!["X=a, Y=b"]);
}

#[test]
fn negation_follows_growth_of_the_negated_predicate() {
    let mut e = Engine::new();
    e.install_program("single(X) :- person(X), !married(X).").unwrap();
    fact(&mut e, "person", &["ann"]);
    fact(&mut e, "person", &["bob"]);
    e.run();
    assert_eq!(ask(&e, "single(X)"), vec!["X=ann", "X=bob"]);
    fact(&mut e, "married", &["bob"]);
    e.run();
    assert_eq!(ask(&e, "single(X)"), vec!["X=ann"]);
}

#[test]
fn aggregates_fold_distinct_values() {
    let mut e = Engine::new();
    e.install_program(
        "n(P, count(X)) :- item(P, X).\nlow(P, min(X)) :- item(P, X).\nhigh(P, max(X)) :- item(P, X).\ntotal(P, sum(X)) :- item(P, X).",
    )
    .unwrap();
    let p = e.sym("p");
    for x in [3i64, 1, 2, 3] {
        e.declare("item", &vec![p, Value::Int(x)], Ann::unit());
    }
    e.run();
    assert_eq!(ask(&e, "n(\"p\", N)"), vec!["N=3"]);
    assert_eq!(ask(&e, "low(\"p\", N)"), vec!["N=1"]);
    assert_eq!(ask(&e, "high(\"p\", N)"), vec!["N=3"]);
    assert_eq!(ask(&e, "total(\"p\", N)"), vec!["N=6"]);
    e.declare("item", &vec![p, Value::Int(10)], Ann::unit());
    e.run();
    assert_eq!(ask(&e, "n(\"p\", N)"), vec!["N=4"]);
    assert_eq!(ask(&e, "total(\"p\", N)"), vec!["N=16"]);
    e.retract("item", &vec![p, Value::Int(1)]);
    e.run();
    assert_eq!(ask(&e, "low(\"p\", N)"), vec!["N=2"]);
}

#[test]
fn comparisons_and_arithmetic() {
    let mut e = Engine::new();
    e.install_program(
        "next(X, Y) :- num(X), Y = X + 1.\nbefore(X, Y) :- num(X), num(Y), X < Y.\nprev(X, Y) :- num(X), X = Y + 1.\nother(X, Y) :- num(X), num(Y), X \\= Y.",
    )
    .unwrap();
    e.declare("num", &vec![Value::Int(1)], Ann::unit());
    e.declare("num", &vec![Value::Int(5)], Ann::unit());
    e.run();
    assert_eq!(ask(&e, "next(5, Y)"), vec!["Y=6"]);
    assert_eq!(ask(&e, "prev(5, Y)"), vec!["Y=4"]);
    assert_eq!(ask(&e, "before(X, Y)"), vec!["X=1, Y=5"]);
    assert_eq!(ask(&e, "other(X, Y)"), vec!["X=1, Y=5", "X=5, Y=1"]);
    assert_eq!(ask(&e, "before(1, 5)"), vec![""]);
    assert!(ask(&e, "before(5, 1)").is_empty());
}

#[test]
fn now_projects_time() {
    let mut e = Engine::new();
    e.install_program("live(X) :- span(X, F, T), now(N), F =< N, N < T.").unwrap();
    let a = e.sym("a");
    e.declare("span", &vec![a, Value::Int(10), Value::Int(20)], Ann::unit());
    e.set_now(10);
    e.run();
    assert_eq!(ask(&e, "live(X)"), vec!["X=a"]);
}

#[test]
fn confidence_multiplies_along_a_derivation() {
    let mut e = Engine::new();
    e.install_program("p(X, Z) :- q(X, Y), r(Y, Z).").unwrap();
    let (a, b, c) = (e.sym("a"), e.sym("b"), e.sym("c"));
    e.declare("q", &vec![a, b], ann_of(bits(0.9), "e1"));
    e.declare("r", &vec![b, c], ann_of(bits(0.8), "e2"));
    e.run();
    let f = e.fact("p", &vec![a, c]).unwrap();
    assert_eq!(f64::from_bits(f.ann.conf.bits()), 0.9 * 0.8);
    let prov: Vec<&str> = f.ann.prov.items().iter().map(|s| s.as_str()).collect();
    assert_eq!(prov, vec!["e1", "e2"]);
    assert_eq!(f.supports.len(), 2);
    assert!(matches!(&f.supports[0], Support::Rule { rule, body } if rule == "rule/p" && body[0].0 == "q" && body[1].0 == "r"));
    assert!(matches!(&f.supports[1], Support::Rule { rule, body } if rule == "rule/p" && body[0].0 == "r" && body[1].0 == "q"));
}

#[test]
fn merging_keeps_the_higher_confidence() {
    let mut e = Engine::new();
    let a = e.sym("a");
    assert!(e.declare("q", &vec![a], ann_of(bits(0.3), "e1")));
    assert!(!e.declare("q", &vec![a], ann_of(bits(0.7), "e2")));
    assert!(!e.declare("q", &vec![a], ann_of(bits(7.0), "e3")));
    let f = e.fact("q", &vec![a]).unwrap();
    assert_eq!(f64::from_bits(f.ann.conf.bits()), 1.0);
    assert_eq!(f.ann.prov.len(), 3);
}

#[test]
fn witnesses_are_capped() {
    let mut e = Engine::new();
    e.install_program("p(X) :- q(X, Y).").unwrap();
    let a = e.sym("a");
    for i in 0..10 {
        e.declare("q", &vec![a, Value::Int(i)], Ann::unit());
    }
    e.run();
    assert_eq!(e.fact("p", &vec![a]).unwrap().supports.len(), 4);
}

#[test]
fn unstratifiable_programs_are_rejected() {
    let mut e = Engine::new();
    match e.install_program("p(X) :- r(X), !q(X).\nq(X) :- r(X), !p(X).") {
        Err(ProgramError::Strat(m)) => {
            assert!(m.0.starts_with("unstratifiable: negation of "), "{}", m.0);
        }
        _ => panic!("accepted"),
    }
    match e.install_program("n(P, count(X)) :- n(P, X).") {
        Err(ProgramError::Strat(m)) => {
            assert_eq!(m.0, "aggregation over recursive dependency: n reads n");
            assert_eq!(m.message(), "stratification error: aggregation over recursive dependency: n reads n");
        }
        _ => panic!("accepted"),
    }
    match e.install_program("n(P, count(X)) :- q(P, X).\nn(P, X) :- r(P, X).") {
        Err(ProgramError::Strat(m)) => {
            assert_eq!(m.0, "mixed definition: n is aggregated in one clause and ordinary in another");
        }
        _ => panic!("accepted"),
    }
    assert!(e.clauses.is_empty());
    assert!(matches!(e.install_program("p(X :- q(X)."), Err(ProgramError::Parse(_))));
}

#[test]
fn strata_put_negation_above() {
    let mut e = Engine::new();
    e.install_program("a(X) :- base(X).\nb(X) :- base(X), !a(X).\nc(X) :- b(X).\nd(X) :- c(X), !b(X).").unwrap();
    assert_eq!(e.strata().unwrap(), vec![vec![0], vec![1, 2], vec![3]]);
    assert!(e.check_program().is_ok());
}

#[test]
fn mutual_recursion_shares_a_stratum() {
    let mut e = Engine::new();
    e.install_program("even(X) :- zero(X).\neven(X) :- odd(Y), succ(Y, X).\nodd(X) :- even(Y), succ(Y, X).").unwrap();
    assert_eq!(e.strata().unwrap(), vec![vec![0, 1, 2]]);
    e.declare("zero", &vec![Value::Int(0)], Ann::unit());
    for i in 0..6 {
        e.declare("succ", &vec![Value::Int(i), Value::Int(i + 1)], Ann::unit());
    }
    e.run();
    assert_eq!(ask(&e, "even(X)"), vec!["X=0", "X=2", "X=4", "X=6"]);
    assert_eq!(ask(&e, "odd(X)"), vec!["X=1", "X=3", "X=5"]);
}

#[test]
fn installing_backfills_and_uninstalling_reverts() {
    let mut e = Engine::new();
    fact(&mut e, "link", &["a", "b"]);
    e.run();
    let id = e.install_program(CLOSURE).unwrap();
    assert_eq!(id, "batch1");
    assert_eq!(e.run(), 1);
    assert_eq!(ask(&e, "reach(X, Y)"), vec!["X=a, Y=b"]);
    assert!(e.uninstall(&id));
    assert!(!e.uninstall(&id));
    e.run();
    assert!(ask(&e, "reach(X, Y)").is_empty());
    assert!(e.is_derived_pred("reach"));
    assert!(!e.is_derived_pred("link"));
    assert!(e.is_derived_pred("__agg:x:0"));
}

#[test]
fn uninstalling_a_middle_batch_keeps_the_others() {
    let mut e = Engine::new();
    e.install_program("a(X) :- base(X).").unwrap();
    let b = e.install_program("b(X) :- base(X).\nb2(X) :- base(X).").unwrap();
    let c = e.install_program("c(X) :- base(X).").unwrap();
    assert!(e.uninstall(&b));
    fact(&mut e, "base", &["x"]);
    e.run();
    assert_eq!(ask(&e, "a(X)"), vec!["X=x"]);
    assert!(ask(&e, "b(X)").is_empty());
    assert_eq!(ask(&e, "c(X)"), vec!["X=x"]);
    assert!(e.uninstall(&c));
    assert_eq!(e.clauses.len(), 1);
}

#[test]
fn hypotheticals_leave_the_store_alone() {
    let mut e = Engine::new();
    e.install_program(CLOSURE).unwrap();
    fact(&mut e, "link", &["a", "b"]);
    e.run();
    let (b, c) = (e.sym("b"), e.sym("c"));
    let before = e.schema_summary();
    let feed = e.changes_since(0).len();
    let rows = e.hypothetical(&vec![("link".to_string(), vec![b, c])], "reach(\"a\", Y)").unwrap();
    assert_eq!(rows, vec!["Y=b", "Y=c"]);
    assert_eq!(e.last_hypothetical_facts, 3);
    assert_eq!(e.schema_summary(), before);
    assert_eq!(e.changes_since(0).len(), feed);
    assert!(e.hypothetical(&Vec::new(), "reach(X").is_err());
    let err = e.hypothetical(&Vec::new(), "p(X) :- q(X)").unwrap_err();
    assert_eq!(err.0, "hypothetical: expected a single atom, got \"p(X) :- q(X)\"");
}

#[test]
fn deep_queries_answer_without_materializing() {
    let mut e = Engine::new();
    e.install_program(CLOSURE).unwrap();
    fact(&mut e, "link", &["a", "b"]);
    fact(&mut e, "link", &["b", "c"]);
    let before = e.schema_summary();
    let mut rows = e.ask_deep("reach(\"a\", Y)").unwrap();
    rows.sort();
    assert_eq!(rows, vec!["Y=b", "Y=c"]);
    assert_eq!(e.schema_summary(), before);
    assert!(e.last_demand_facts > 0);
    assert!(ask(&e, "reach(X, Y)").is_empty());
    e.run();
    let mut rows = e.ask_deep("reach(\"a\", Y)").unwrap();
    rows.sort();
    assert_eq!(rows, vec!["Y=b", "Y=c"]);
    assert_eq!(e.ask_deep("link(X, \"c\")").unwrap(), vec!["X=b"]);
    assert!(e.ask_deep("reach(").is_err());
}

#[test]
fn feeds_report_adds_removals_and_clears() {
    let mut e = Engine::new();
    e.install_program("p(X) :- q(X).").unwrap();
    fact(&mut e, "q", &["a"]);
    e.run();
    assert_eq!(e.epoch(), 1);
    let a = e.sym("a");
    e.retract("q", &vec![a]);
    e.run();
    let changes = e.changes_since(1);
    assert_eq!(changes.len(), 2);
    assert!(matches!(&changes[0], Change::Retracted(1, k) if k.0 == "q"));
    assert!(matches!(&changes[1], Change::Cleared(1, p) if p == "p"));
    assert_eq!(changes[0].epoch(), 1);
    assert_eq!(e.changes_since(0).len(), 4);
    assert_eq!(e.changes_from(0).len(), 2);
    assert!(e.changes_from(1).is_empty());
}

#[test]
fn explanations_show_rules_and_sources() {
    let mut e = Engine::new();
    e.install_program(CLOSURE).unwrap();
    let (a, b, c) = (e.sym("a"), e.sym("b"), e.sym("c"));
    e.declare("link", &vec![a, b], ann_of(bits(0.9), "ep1"));
    e.declare("link", &vec![b, c], ann_of(bits(0.5), "ep2"));
    e.run();
    assert_eq!(
        e.why("reach", &vec![a, c]),
        "reach(a, c)  (conf 0.450, prov [\"ep1\", \"ep2\"])\n  \u{21b3} via rule/reach\n    link(b, c)  (conf 0.500, prov [\"ep2\"])\n      \u{21b3} asserted (base fact)\n    reach(a, b)  (conf 0.900, prov [\"ep1\"])\n      \u{21b3} via rule/reach\n        link(a, b)  (conf 0.900, prov [\"ep1\"])\n          \u{21b3} asserted (base fact)\n"
    );
    assert_eq!(e.why("reach", &vec![c, a]), "reach(c, a)  [unknown fact]\n");
}

#[test]
fn explanations_show_a_fact_once() {
    let mut e = Engine::new();
    e.install_program("p(X) :- q(X), q(X).").unwrap();
    fact(&mut e, "q", &["a"]);
    e.run();
    let a = e.sym("a");
    assert_eq!(
        e.why("p", &vec![a]),
        "p(a)  (conf 1.000, prov [])\n  \u{21b3} via rule/p\n    q(a)  (conf 1.000, prov [])\n      \u{21b3} asserted (base fact)\n    q(a)  [cycle: shown above]\n"
    );
}

#[test]
fn summaries_list_samples() {
    let mut e = Engine::new();
    for n in ["a", "b", "c", "d"] {
        fact(&mut e, "p", &[n]);
    }
    assert_eq!(e.schema_summary(), "p/1: 4 rows\n  p(a)\n  p(b)\n  p(c)\n");
}

#[test]
fn program_facts_are_tables() {
    let mut e = Engine::new();
    e.install_program("exclusive(\"works_at\").\nage(\"bob\", 42).").unwrap();
    assert!(e.table_holds("exclusive", "works_at"));
    assert!(!e.table_holds("exclusive", "likes"));
    assert!(ask(&e, "age(X, Y)").is_empty());
    e.run();
    assert_eq!(ask(&e, "age(X, Y)"), vec!["X=bob, Y=42"]);
    let v = e.sym_of("works_at");
    assert_eq!(e.query("exclusive", &vec![Some(v)]).len(), 1);
    assert_eq!(e.sym_of("nobody"), Value::Int(i64::MIN));
    assert_eq!(e.relation_keys("age").len(), 1);
    assert!(e.relation_keys("nothing").is_empty());
    assert_eq!(e.relations_iter().len(), 2);
}

#[test]
fn wildcards_and_constants_in_goals() {
    let mut e = Engine::new();
    fact(&mut e, "t", &["a", "b"]);
    fact(&mut e, "t", &["a", "c"]);
    assert_eq!(ask(&e, "t(X, _)"), vec!["X=a", "X=a"]);
    assert_eq!(ask(&e, "t(X, X)").len(), 0);
    assert_eq!(ask(&e, "t(\"zzz\", X)").len(), 0);
    assert!(e.ask("t(X").is_err());
    let err = e.ask("t(X), t(Y)").unwrap_err();
    assert!(err.message().starts_with("parse error: "), "{}", err.message());
}

#[test]
fn positive_dependencies_share_a_stratum() {
    let mut e = Engine::new();
    e.install_program("q(X) :- e(X).\np(X) :- q(X).").unwrap();
    assert_eq!(e.strata().unwrap(), vec![vec![0, 1]]);
    e.install_program("n(count(X)) :- p(X).\nm(C) :- n(C).").unwrap();
    // What is folded is complete, and the fold is read a level later.
    assert_eq!(e.strata().unwrap(), vec![vec![0, 1], vec![2], vec![3]]);
}

#[test]
fn retraction_reaches_through_mutual_recursion() {
    let mut e = Engine::new();
    e.install_program("p(X) :- e(X).\np(X) :- q(X).\nq(X) :- p(X).\nr(X) :- d(X), !q(X).").unwrap();
    e.declare("e", &vec![Value::Int(1)], Ann::unit());
    e.declare("e", &vec![Value::Int(2)], Ann::unit());
    e.declare("d", &vec![Value::Int(1)], Ann::unit());
    e.run();
    assert_eq!(ask(&e, "q(X)"), vec!["X=1", "X=2"]);
    assert!(ask(&e, "r(X)").is_empty());
    assert!(e.retract("e", &vec![Value::Int(1)]));
    e.run();
    assert!(ask(&e, "p(1)").is_empty());
    assert!(ask(&e, "q(1)").is_empty());
    assert_eq!(ask(&e, "p(X)"), vec!["X=2"]);
    assert_eq!(ask(&e, "q(X)"), vec!["X=2"]);
    assert_eq!(ask(&e, "r(X)"), vec!["X=1"]);
}

#[test]
fn rules_of_built_ins_are_counted_and_read() {
    let mut e = Engine::new();
    e.install_program("tick(T) :- now(T).").unwrap();
    e.set_now(5);
    assert_eq!(e.run(), 1);
    assert_eq!(ask(&e, "tick(5)"), vec![""]);
    assert_eq!(e.run(), 0);
    let mut e = Engine::new();
    e.install_program("late(T) :- tick(T), T > 3.\ntick(T) :- now(T).").unwrap();
    e.set_now(5);
    assert_eq!(e.run(), 2);
    assert_eq!(ask(&e, "late(X)"), vec!["X=5"]);
}

#[test]
fn solving_tells_of_solutions_that_were_known() {
    let mut e = Engine::new();
    e.install_program("p(X) :- q(X).").unwrap();
    e.declare("q", &vec![Value::Int(1)], Ann::unit());
    e.declare("p", &vec![Value::Int(1)], Ann::unit());
    let c = e.clauses[0].duplicate();
    let mut env = Env::new();
    let mut out = Vec::new();
    assert!(solve_all(&mut e.store, 0, &c, 0, usize::MAX, &mut env, &mut out));
    assert!(out.is_empty());
    e.retract("q", &vec![Value::Int(1)]);
    assert!(!solve_all(&mut e.store, 0, &c, 0, usize::MAX, &mut env, &mut out));
}

#[test]
fn counts_are_of_different_values() {
    let mut e = Engine::new();
    e.install_program("r(P, count(K), max(V)) :- t(P, K, V).").unwrap();
    e.declare("t", &vec![Value::Int(1), Value::Int(1), Value::Int(1)], Ann::unit());
    e.declare("t", &vec![Value::Int(1), Value::Int(1), Value::Int(2)], Ann::unit());
    e.run();
    assert_eq!(ask(&e, "r(1, C, M)"), vec!["C=1, M=2"]);
    e.declare("t", &vec![Value::Int(1), Value::Int(7), Value::Int(2)], Ann::unit());
    e.run();
    assert_eq!(ask(&e, "r(1, C, M)"), vec!["C=2, M=2"]);
}

#[test]
fn a_variable_may_stand_twice_in_a_sum() {
    let x = || Box::new(Expr::T(Term::Var("X".to_string())));
    let y = || Box::new(Expr::T(Term::Var("Y".to_string())));
    let env = Env::new();
    assert_eq!(linearize(&Expr::Add(x(), x()), &env), Some((2, 0, Some("X".to_string()))));
    assert_eq!(linearize(&Expr::Sub(x(), x()), &env), Some((0, 0, Some("X".to_string()))));
    assert_eq!(linearize(&Expr::Add(x(), y()), &env), None);
    assert_eq!(linearize(&Expr::Add(x(), Box::new(Expr::T(Term::Int(3)))), &env), Some((1, 3, Some("X".to_string()))));
}

#[test]
fn uninstalling_before_an_empty_batch_keeps_the_later_ones() {
    let mut e = Engine::new();
    let a = e.install_program("a(X) :- base(X).").unwrap();
    let none = e.install_program("# nothing yet").unwrap();
    let b = e.install_program("b(X) :- base(X).").unwrap();
    assert!(e.uninstall(&a));
    assert_eq!(e.clauses.len(), 1);
    assert!(e.uninstall(&none));
    assert_eq!(e.clauses.len(), 1);
    assert_eq!(e.clauses[0].head.pred, "b");
    assert!(e.uninstall(&b));
    assert!(e.clauses.is_empty());
}

#[test]
fn hypotheticals_count_from_the_fixpoint() {
    let mut e = Engine::new();
    e.install_program("known(1).\nknown(2).\np(X) :- q(X).").unwrap();
    e.declare("q", &vec![Value::Int(1)], Ann::unit());
    // Nothing has run yet; the assumption itself adds two facts.
    let rows = e.hypothetical(&vec![("q".to_string(), vec![Value::Int(2)])], "p(X)").unwrap();
    assert_eq!(rows, vec!["X=1", "X=2"]);
    assert_eq!(e.last_hypothetical_facts, 2);
    assert!(ask(&e, "p(X)").is_empty());
    assert!(ask(&e, "known(X)").is_empty());
}

//! The laws, on concrete values.

use lemmalog::agent::AgentMemory;
use lemmalog::confidence::Conf;
use lemmalog::engine::Engine;
use lemmalog::evaluate::fold_agg_clause;
use lemmalog::extract::MockExtractor;
use lemmalog::relation::{Ann, Support};
use lemmalog::server::{tool_call, ToolArgs};
use lemmalog::store::Change;
use lemmalog::tools::{request_of, tools, Request};
use lemmalog::value::Value;

fn link(e: &mut Engine, a: &str, b: &str) -> Vec<Value> {
    let key = vec![e.sym(a), e.sym(b)];
    e.declare("link", &key, Ann::unit());
    key
}

fn rows(e: &Engine, goal: &str) -> Vec<String> {
    let mut r = e.ask(goal).unwrap();
    r.sort();
    r
}

const PROGRAM: &str = "reach(X,Y) :- link(X,Y).\n\
reach(X,Z) :- reach(X,Y), link(Y,Z).\n\
node(X) :- link(X,_).\n\
node(Y) :- link(_,Y).\n\
apart(X,Y) :- node(X), node(Y), !reach(X,Y).\n\
outs(X, count(Y)) :- reach(X,Y).";

const EDGES: [(&str, &str); 7] = [("a", "b"), ("b", "c"), ("c", "a"), ("c", "d"), ("e", "f"), ("f", "f"), ("d", "g")];

fn loaded(edges: &[(&str, &str)]) -> Engine {
    let mut e = Engine::new();
    e.install_program(PROGRAM).unwrap();
    for (a, b) in edges {
        link(&mut e, a, b);
    }
    e.run();
    e
}

/// The pairs that paths of the edges join.
fn joined(edges: &[(&str, &str)]) -> Vec<String> {
    let mut pairs: Vec<(String, String)> = edges.iter().map(|(a, b)| (a.to_string(), b.to_string())).collect();
    loop {
        let mut more: Vec<(String, String)> = Vec::new();
        for (a, b) in &pairs {
            for (c, d) in edges {
                let p = (a.clone(), d.to_string());
                if b == c && !pairs.contains(&p) && !more.contains(&p) {
                    more.push(p);
                }
            }
        }
        if more.is_empty() {
            break;
        }
        pairs.extend(more);
    }
    let mut r: Vec<String> = pairs.iter().map(|(a, b)| format!("X={a}, Y={b}")).collect();
    r.sort();
    r.dedup();
    r
}

#[test]
fn a_run_gives_the_least_model() {
    let e = loaded(&EDGES);
    let reach = joined(&EDGES);
    assert_eq!(rows(&e, "reach(X, Y)"), reach);
    let nodes = rows(&e, "node(X)");
    assert_eq!(nodes.len(), 7);
    let mut apart: Vec<String> = Vec::new();
    for x in &nodes {
        for y in &nodes {
            let pair = format!("{x}, Y={}", &y[2..]);
            if !reach.contains(&pair) {
                apart.push(pair);
            }
        }
    }
    apart.sort();
    assert_eq!(rows(&e, "apart(X, Y)"), apart);
    assert_eq!(rows(&e, "outs(\"a\", N)"), vec!["N=5"]);
}

#[test]
fn step_by_step_gives_the_same_model() {
    let mut e = Engine::new();
    e.install_program(PROGRAM).unwrap();
    for (a, b) in EDGES {
        link(&mut e, a, b);
        e.run();
    }
    let all = loaded(&EDGES);
    for goal in ["reach(X, Y)", "node(X)", "apart(X, Y)", "outs(X, N)"] {
        assert_eq!(rows(&e, goal), rows(&all, goal), "{goal}");
    }
}

#[test]
fn retracting_gives_the_model_of_what_is_left() {
    let mut e = loaded(&EDGES);
    let key = vec![e.sym("c"), e.sym("a")];
    assert!(e.retract("link", &key));
    e.run();
    let left: Vec<(&str, &str)> = EDGES.iter().copied().filter(|p| *p != ("c", "a")).collect();
    let all = loaded(&left);
    for goal in ["reach(X, Y)", "node(X)", "apart(X, Y)", "outs(X, N)"] {
        assert_eq!(rows(&e, goal), rows(&all, goal), "{goal}");
    }
}

#[test]
fn a_second_run_is_idle() {
    let mut e = loaded(&EDGES);
    let before = e.changes_since(0).len();
    assert_eq!(e.run(), 0);
    assert_eq!(e.changes_since(0).len(), before);
    let key = vec![e.sym("c"), e.sym("d")];
    e.retract("link", &key);
    e.run();
    let before = e.changes_since(0).len();
    assert_eq!(e.run(), 0);
    assert_eq!(e.changes_since(0).len(), before);
}

#[test]
fn the_feed_keeps_a_projection_in_step() {
    let mut e = loaded(&EDGES);
    let facts = |e: &Engine| {
        let mut all: Vec<(String, Vec<Value>)> = Vec::new();
        for p in e.store.relations.names() {
            for k in e.relation_keys(p.as_str()) {
                all.push((p.clone(), k));
            }
        }
        all.sort_by_key(|f| format!("{f:?}"));
        all
    };
    let mut seen = facts(&e);
    let checkpoint = e.epoch();
    let gone = vec![e.sym("b"), e.sym("c")];
    e.retract("link", &gone);
    link(&mut e, "g", "h");
    e.run();
    e.install_program("pair(X,Y) :- reach(X,Y), reach(Y,X).").unwrap();
    e.run();
    for c in e.changes_since(checkpoint) {
        match c {
            Change::Added(_, k) => seen.push(k),
            Change::Retracted(_, k) => seen.retain(|x| *x != k),
            Change::Cleared(_, p) => seen.retain(|x| x.0 != p),
        }
    }
    seen.sort_by_key(|f| format!("{f:?}"));
    assert_eq!(seen, facts(&e));
}

#[test]
fn deep_queries_agree_with_queries() {
    let mut deep = Engine::new();
    deep.install_program(PROGRAM).unwrap();
    for (a, b) in EDGES {
        link(&mut deep, a, b);
    }
    let all = loaded(&EDGES);
    for goal in ["reach(X, Y)", "reach(\"a\", Y)", "node(X)", "apart(X, Y)", "outs(X, N)"] {
        let mut r = deep.ask_deep(goal).unwrap();
        r.sort();
        assert_eq!(r, rows(&all, goal), "{goal}");
    }
    assert!(deep.ask("reach(X, Y)").unwrap().is_empty());
}

fn memory() -> AgentMemory<MockExtractor> {
    AgentMemory::new(MockExtractor::new(0.9f64.to_bits()), "").unwrap()
}

#[test]
fn an_exclusive_relation_has_one_open_value() {
    let mut m = memory();
    for (i, firm) in ["Acme", "Beta", "Beta", "Gamma"].iter().enumerate() {
        let r = m.observe_at(&format!("Ann --works_at--> {firm}\nBob --likes--> {firm}"), 10 * (i as i64 + 1));
        assert_eq!(r.added + r.updated + r.noop, 2);
        assert!(r.escalations.len() <= r.added);
    }
    m.maintain(50);
    assert_eq!(m.ask("current(\"Ann\", \"works_at\", O)").unwrap(), vec!["O=Gamma"]);
    assert_eq!(m.ask("current(\"Bob\", \"likes\", O)").unwrap().len(), 3);
    let mut past = m.ask("edge(\"Ann\", \"works_at\", O, F, T, _)").unwrap();
    past.sort();
    assert_eq!(past.len(), 3);
    assert_eq!(past[0], "O=Acme, F=10, T=20");
    assert_eq!(past[1], "O=Beta, F=20, T=40");
}

#[test]
fn joining_lowers_and_merging_raises() {
    for (a, b) in [(0.9, 0.8), (1.0, 0.3), (0.0, 0.7), (0.1, 1e-300)] {
        let x = Conf::from_bits(f64::to_bits(a));
        let y = Conf::from_bits(f64::to_bits(b));
        let p = f64::from_bits(x.times(&y).bits());
        assert_eq!(p, a * b);
        assert!(p <= a && p <= b);
        assert_eq!(x.times(&y).bits(), y.times(&x).bits());
        assert_eq!(f64::from_bits(x.max(&y).bits()), a.max(b));
    }
}

#[test]
fn contexts_keep_to_their_budget() {
    let mut m = memory();
    let mut text = String::new();
    for i in 0..40 {
        text.push_str(&format!("Ann --knows--> person{i}\n"));
    }
    m.observe_at(&text, 5);
    m.maintain(6);
    m.maintain(7);
    for budget in [0usize, 50, 200, 1000] {
        let c = m.context(&vec!["Ann".to_string()], budget);
        let top = c.find("== memory (distilled, highest confidence first) ==\n").unwrap();
        let mid = c.find("\n== source episodes (verbatim, from provenance) ==\n").unwrap();
        let facts = mid - top - "== memory (distilled, highest confidence first) ==\n".len();
        let sources = c.len() - mid - "\n== source episodes (verbatim, from provenance) ==\n".len();
        assert!(facts <= budget * 4 * 6 / 10, "{facts}");
        assert!(sources <= budget * 4 * 4 / 10, "{sources}");
    }
}

#[test]
fn every_listed_tool_answers() {
    let list = tools();
    assert_eq!(list.len(), 13);
    assert_eq!(list[0].0, "lemmalog_observe");
    assert!(list[0].1.contains("Acme\\nBob"));
    assert_eq!(list[6].1, "List installed rule batches.");
    for (name, _) in &list {
        let mut m = memory();
        let a = ToolArgs {
            facts: String::new(),
            goal: String::new(),
            fact: String::new(),
            rules: String::new(),
            id: String::new(),
            pred: String::new(),
            query: String::new(),
            ts: None,
            budget_tokens: None,
        };
        assert!(tool_call(&mut m, name, &a, None).is_ok(), "{name}");
        assert_eq!(tool_call(&mut m, &name[1..], &a, None).unwrap_err(), format!("unknown tool {:?}", &name[1..]));
    }
}

#[test]
fn requests_are_told_apart() {
    assert!(matches!(request_of("initialize", true), Request::Initialize));
    assert!(matches!(request_of("tools/list", true), Request::ListTools));
    assert!(matches!(request_of("tools/call", true), Request::CallTool));
    assert!(matches!(request_of("tools/call", false), Request::Notification));
    match request_of("no \"such\"", true) {
        Request::Unknown(m) => assert_eq!(m, "unknown method \"no \\\"such\\\"\""),
        other => panic!("{other:?}"),
    }
}

#[test]
fn changes_are_followed_up() {
    let mut e = loaded(&EDGES);
    let mut edges: Vec<(&str, &str)> = EDGES.to_vec();
    let steps: [(bool, (&str, &str)); 6] = [
        (false, ("b", "c")),
        (true, ("g", "a")),
        (true, ("b", "e")),
        (false, ("f", "f")),
        (false, ("a", "b")),
        (true, ("b", "c")),
    ];
    for (add, (a, b)) in steps {
        if add {
            link(&mut e, a, b);
            edges.push((a, b));
        } else {
            let key = vec![e.sym(a), e.sym(b)];
            assert!(e.retract("link", &key));
            edges.retain(|p| *p != (a, b));
        }
        e.run();
        let all = loaded(&edges);
        for goal in ["reach(X, Y)", "node(X)", "apart(X, Y)", "outs(X, N)"] {
            assert_eq!(rows(&e, goal), rows(&all, goal), "{goal} after {a} {b}");
        }
    }
}

#[test]
fn only_what_is_affected_is_cleared() {
    let mut e = Engine::new();
    e.install_program("p(X) :- link(X,_).\nq(X) :- p(X).\nr(X) :- other(X).\ns(X) :- r(X).").unwrap();
    let key = link(&mut e, "a", "b");
    link(&mut e, "c", "d");
    let o = vec![e.sym("a")];
    e.declare("other", &o, Ann::unit());
    e.run();
    let from = e.changes_since(0).len();
    assert!(e.retract("link", &key));
    e.run();
    let mut cleared: Vec<String> = Vec::new();
    for c in e.changes_since(0).into_iter().skip(from) {
        if let Change::Cleared(_, p) = c {
            cleared.push(p);
        }
    }
    assert_eq!(cleared, vec!["p".to_string(), "q".to_string()]);
    assert_eq!(rows(&e, "q(X)"), vec!["X=c"]);
    assert_eq!(rows(&e, "s(X)"), vec!["X=a"]);
}

#[test]
fn nothing_is_left_of_rules_that_are_gone() {
    let mut e = Engine::new();
    let id = e.install_program("p(X) :- link(X,_).\nn(count(X)) :- link(X,_).").unwrap();
    link(&mut e, "a", "b");
    e.run();
    assert_eq!(rows(&e, "p(X)"), vec!["X=a"]);
    assert_eq!(rows(&e, "n(N)"), vec!["N=1"]);
    assert!(e.uninstall(&id));
    e.run();
    assert!(rows(&e, "p(X)").is_empty());
    assert!(rows(&e, "n(N)").is_empty());
    assert_eq!(rows(&e, "link(X, Y)"), vec!["X=a, Y=b"]);
}

#[test]
fn aggregates_follow_their_solutions() {
    let mut e = Engine::new();
    e.install_program(
        "n(P, count(X)) :- item(P, X).\nsum_of(P, sum(X)) :- item(P, X).\nbig(P) :- n(P, N), N >= 2.\nmost(max(N)) :- n(P, N).",
    )
    .unwrap();
    let p = e.sym("p");
    let q = e.sym("q");
    for (k, v) in [(p, 3i64), (p, 4), (q, 10)] {
        e.declare("item", &vec![k, Value::Int(v)], Ann::unit());
    }
    e.run();
    assert_eq!(rows(&e, "n(P, N)"), vec!["P=p, N=2", "P=q, N=1"]);
    assert_eq!(rows(&e, "sum_of(P, N)"), vec!["P=p, N=7", "P=q, N=10"]);
    assert_eq!(rows(&e, "big(P)"), vec!["P=p"]);
    assert_eq!(rows(&e, "most(N)"), vec!["N=2"]);
    for v in [20i64, 30] {
        e.declare("item", &vec![q, Value::Int(v)], Ann::unit());
    }
    e.run();
    assert_eq!(rows(&e, "n(P, N)"), vec!["P=p, N=2", "P=q, N=3"]);
    assert_eq!(rows(&e, "sum_of(P, N)"), vec!["P=p, N=7", "P=q, N=60"]);
    assert_eq!(rows(&e, "big(P)"), vec!["P=p", "P=q"]);
    assert_eq!(rows(&e, "most(N)"), vec!["N=3"]);
    assert!(e.retract("item", &vec![p, Value::Int(3)]));
    assert!(e.retract("item", &vec![q, Value::Int(10)]));
    assert!(e.retract("item", &vec![q, Value::Int(20)]));
    e.run();
    assert_eq!(rows(&e, "n(P, N)"), vec!["P=p, N=1", "P=q, N=1"]);
    assert_eq!(rows(&e, "sum_of(P, N)"), vec!["P=p, N=4", "P=q, N=30"]);
    assert!(rows(&e, "big(P)").is_empty());
    assert_eq!(rows(&e, "most(N)"), vec!["N=1"]);
    assert!(e.retract("item", &vec![p, Value::Int(4)]));
    e.run();
    assert_eq!(rows(&e, "n(P, N)"), vec!["P=q, N=1"]);
}

const SHIFTS: &str = "free(X) :- person(X), !busy(X).\n\
busy(X) :- shift(X, _).\n\
pair(X, Y) :- free(X), free(Y), X \\= Y.\n\
idle(X) :- person(X), !free(X), !busy(X).\n\
idle(X) :- idle(X), person(X).";

fn shifts() -> Engine {
    let mut e = Engine::new();
    e.install_program(SHIFTS).unwrap();
    for p in ["a", "b", "c"] {
        let key = vec![e.sym(p)];
        e.declare("person", &key, Ann::unit());
    }
    let key = vec![e.sym("b"), Value::Int(1)];
    e.declare("shift", &key, Ann::unit());
    e
}

#[test]
fn deep_queries_see_through_negation() {
    for goal in ["free(X)", "busy(X)", "pair(X, Y)", "pair(\"a\", Y)", "idle(X)"] {
        let mut e = shifts();
        let mut deep = e.ask_deep(goal).unwrap();
        deep.sort();
        e.run();
        assert_eq!(deep, rows(&e, goal), "{goal}");
    }
    let mut e = shifts();
    let mut deep = e.ask_deep("pair(X, Y)").unwrap();
    deep.sort();
    assert_eq!(deep, ["X=a, Y=c", "X=c, Y=a"]);
}

#[test]
fn deep_queries_after_a_run_find_nothing_new() {
    let mut e = shifts();
    e.run();
    assert!(rows(&e, "idle(X)").is_empty());
    assert!(e.ask_deep("idle(X)").unwrap().is_empty());
    let mut deep = e.ask_deep("free(X)").unwrap();
    deep.sort();
    assert_eq!(deep, rows(&e, "free(X)"));
}

/// Every fact that supports a derived one is stored.
fn assert_grounded(e: &Engine, preds: &[&str]) {
    for p in preds {
        for key in e.relation_keys(p) {
            for s in e.fact(p, &key).unwrap().supports {
                if let Support::Rule { body, .. } = s {
                    assert!(!body.is_empty());
                    for b in body {
                        assert!(e.fact(&b.0, &b.1).is_some(), "{p} rests on {}", b.0);
                    }
                }
            }
        }
    }
}

#[test]
fn explanations_rest_on_what_holds() {
    let preds = ["reach", "node", "apart"];
    let mut e = Engine::new();
    e.install_program(
        "reach(X,Y) :- link(X,Y).\nreach(X,Z) :- reach(X,Y), link(Y,Z).\nnode(X) :- link(X,_).\n\
         apart(X,Y) :- node(X), node(Y), !reach(X,Y).",
    )
    .unwrap();
    let keys: Vec<Vec<Value>> = EDGES.iter().map(|(a, b)| link(&mut e, a, b)).collect();
    e.run();
    assert_grounded(&e, &preds);
    for key in &keys {
        assert!(e.retract("link", key));
        e.run();
        assert_grounded(&e, &preds);
    }
    let id = e.install_program("near(X,Y) :- link(X,Y).").unwrap();
    link(&mut e, "a", "b");
    e.run();
    assert_grounded(&e, &["reach", "node", "apart", "near"]);
    assert!(e.uninstall(&id));
    e.run();
    assert_grounded(&e, &["reach", "node", "apart", "near"]);
    assert!(e.relation_keys("near").is_empty());
}

#[test]
fn replaying_keeps_in_step_through_any_calls() {
    let mut e = loaded(&EDGES);
    let count = |e: &Engine| e.relation_keys("outs").len();
    let checkpoint = e.epoch();
    let mut seen = e.relation_keys("outs");
    e.now = 5;
    link(&mut e, "g", "h");
    let id = e.install_program("outs2(X) :- outs(X,_).").unwrap();
    e.run();
    e.uninstall(&id);
    let gone = vec![e.sym("a"), e.sym("b")];
    e.retract("link", &gone);
    e.run();
    for c in e.changes_since(checkpoint) {
        match c {
            Change::Added(_, k) if k.0 == "outs" => seen.push(k.1),
            Change::Retracted(_, k) if k.0 == "outs" => seen.retain(|x| *x != k.1),
            Change::Cleared(_, p) if p == "outs" => seen.clear(),
            _ => {}
        }
    }
    assert_eq!(seen.len(), count(&e));
    let now = e.relation_keys("outs");
    assert!(seen.iter().all(|k| now.contains(k)));
}

#[test]
fn negation_and_aggregates_are_folded_together() {
    let mut e = Engine::new();
    e.install_program(
        "idle(X) :- worker(X), !busy(X).\n\
         busy(X) :- task(X,_).\n\
         spare(count(X)) :- idle(X).\n\
         load(X, sum(N)) :- task(X,N).\n\
         heavy(X) :- load(X,N), N > 5, spare(C), C > 0.",
    )
    .unwrap();
    for w in ["a", "b", "c"] {
        let key = vec![e.sym(w)];
        e.declare("worker", &key, Ann::unit());
    }
    for (w, n) in [("a", 4), ("a", 3), ("b", 5)] {
        let key = vec![e.sym(w), Value::Int(n)];
        e.declare("task", &key, Ann::unit());
    }
    e.run();
    assert_eq!(rows(&e, "idle(X)"), vec!["X=c"]);
    assert_eq!(rows(&e, "spare(N)"), vec!["N=1"]);
    assert_eq!(rows(&e, "load(X, N)"), vec!["X=a, N=7", "X=b, N=5"]);
    assert_eq!(rows(&e, "heavy(X)"), vec!["X=a"]);
    assert_eq!(e.run(), 0);
}

#[test]
fn folds_do_not_depend_on_the_order_of_rows() {
    let numbers = [7, -3, i64::MAX, 12, i64::MIN, 5];
    let fold = |order: Vec<i64>| {
        let mut e = Engine::new();
        e.install_program("all(count(N), min(N), max(N), sum(N)) :- n(N).\nsums(sum(N)) :- n(N).").unwrap();
        for n in order {
            e.declare("n", &vec![Value::Int(n)], Ann::unit());
        }
        e.run();
        (e.relation_keys("all"), e.relation_keys("sums"))
    };
    let ahead = fold(numbers.to_vec());
    let back = fold(numbers.iter().rev().copied().collect());
    assert_eq!(ahead, back);
    assert_eq!(ahead.1, vec![vec![Value::Int(20)]]);
}

fn put(e: &mut Engine, pred: &str, xs: &[i64]) {
    let key: Vec<Value> = xs.iter().map(|x| Value::Int(*x)).collect();
    e.declare(pred, &key, Ann::unit());
}

#[test]
fn a_counted_solution_goes_with_the_absence_it_rested_on() {
    let mut e = Engine::new();
    e.install_program("kept(count(X)) :- e(X), !bad(X).").unwrap();
    put(&mut e, "e", &[1]);
    put(&mut e, "e", &[2]);
    assert_eq!(e.run(), 1);
    assert_eq!(rows(&e, "kept(N)"), ["N=2"]);
    put(&mut e, "bad", &[1]);
    e.run();
    assert_eq!(rows(&e, "kept(N)"), ["N=1"]);
    e.retract("bad", &vec![Value::Int(1)]);
    e.run();
    assert_eq!(rows(&e, "kept(N)"), ["N=2"]);
    put(&mut e, "bad", &[1]);
    put(&mut e, "bad", &[2]);
    e.run();
    assert!(rows(&e, "kept(N)").is_empty());
}

#[test]
fn no_aggregate_survives_its_input_when_rules_move_up() {
    let mut e = Engine::new();
    let first = e.install_program("d(X) :- e0(X).").unwrap();
    e.install_program("h(count(X)) :- q(X).").unwrap();
    let third = e.install_program("q(X) :- e(X).").unwrap();
    put(&mut e, "e", &[1]);
    put(&mut e, "e", &[2]);
    e.run();
    assert_eq!(rows(&e, "h(N)"), ["N=2"]);
    assert!(e.uninstall(&first));
    e.run();
    assert_eq!(rows(&e, "h(N)"), ["N=2"]);
    assert!(e.uninstall(&third));
    e.run();
    assert!(rows(&e, "h(N)").is_empty());
}

#[test]
fn changes_are_followed_up_through_negation_and_aggregates() {
    let program = "live(X) :- item(X,_), !gone(X).\nn(count(X)) :- live(X).\nsize(P, sum(V)) :- item(P,V), !gone(P).\n\
big(P) :- size(P,V), V >= 5.\nmany(N) :- n(N), N > 1.\nmost(max(V)) :- size(_,V).";
    let goals = ["live(X)", "n(N)", "size(P,V)", "big(P)", "many(N)", "most(V)"];
    let mut e = Engine::new();
    e.install_program(program).unwrap();
    let mut items: Vec<[i64; 2]> = Vec::new();
    let mut gone: Vec<i64> = Vec::new();
    for step in 0..24i64 {
        let p = step * 7 % 5;
        match step % 4 {
            0 | 1 => {
                let x = [p, step % 6 + 1];
                put(&mut e, "item", &x);
                items.push(x);
            }
            2 => {
                put(&mut e, "gone", &[p]);
                gone.push(p);
            }
            _ => {
                let g = gone[0];
                e.retract("gone", &vec![Value::Int(g)]);
                gone.retain(|x| *x != g);
                let x = items[0];
                e.retract("item", &vec![Value::Int(x[0]), Value::Int(x[1])]);
                items.retain(|y| *y != x);
            }
        }
        e.run();
        let mut fresh = Engine::new();
        fresh.install_program(program).unwrap();
        for x in &items {
            put(&mut fresh, "item", x);
        }
        for x in &gone {
            put(&mut fresh, "gone", &[*x]);
        }
        fresh.run();
        for g in goals {
            assert_eq!(rows(&e, g), rows(&fresh, g), "{g} after step {step}");
        }
        let (log, feed, epoch) = (e.store.change_log.len(), e.store.feed.len(), e.store.epoch);
        assert_eq!(e.run(), 0);
        assert_eq!(e.store.change_log.len(), log);
        assert_eq!(e.store.feed.len(), feed);
        assert_eq!(e.store.epoch, epoch + 1);
    }
}

#[test]
fn rules_without_atoms_fire_once() {
    let mut e = Engine::new();
    e.install_program("t(X) :- X = 3.\nu(T) :- now(T).\nc(count(X)) :- t(X).").unwrap();
    assert_eq!(e.run(), 3);
    assert_eq!(rows(&e, "t(X)"), ["X=3"]);
    assert_eq!(rows(&e, "c(N)"), ["N=1"]);
    let feed = e.store.feed.len();
    assert_eq!(e.run(), 0);
    assert_eq!(e.store.feed.len(), feed);
}

#[test]
fn group_values_come_before_the_folds() {
    let mut e = Engine::new();
    e.install_program("r(count(K), P) :- t(P, K).").unwrap();
    put(&mut e, "t", &[1, 10]);
    put(&mut e, "t", &[1, 11]);
    put(&mut e, "t", &[2, 10]);
    e.run();
    assert_eq!(rows(&e, "r(X, Y)"), ["X=1, Y=2", "X=2, Y=1"]);
}

#[test]
fn a_run_counts_what_it_folds() {
    let mut e = Engine::new();
    e.install_program("n(P, count(K)) :- t(P, K).").unwrap();
    put(&mut e, "t", &[1, 1]);
    put(&mut e, "t", &[1, 2]);
    assert_eq!(e.run(), 1);
    put(&mut e, "t", &[1, 3]);
    put(&mut e, "t", &[2, 1]);
    assert_eq!(e.run(), 2);
    assert_eq!(rows(&e, "n(P, N)"), ["P=1, N=3", "P=2, N=1"]);
}

#[test]
fn a_loaded_memory_answers_as_the_saved_one() {
    let mut m = AgentMemory::new(MockExtractor::new(0.9f64.to_bits()), "").unwrap();
    m.observe_at("alice --works_at--> acme\nbob --manager--> carol", 100);
    m.observe_at("alice --works_at--> initech", 200);
    m.maintain(300);
    let text = m.save();
    let mut n = AgentMemory::load(MockExtractor::new(0.9f64.to_bits()), &text).unwrap();
    n.maintain(300);
    for goal in ["current(S, R, O)", "edge(S, R, O, F, T, A)"] {
        assert_eq!(rows(&m.engine, goal), rows(&n.engine, goal));
    }
}

#[test]
fn folding_again_changes_nothing() {
    let mut e = Engine::new();
    e.install_program("n(P, count(K)) :- t(P, K).").unwrap();
    put(&mut e, "t", &[1, 1]);
    put(&mut e, "t", &[1, 2]);
    put(&mut e, "t", &[2, 1]);
    e.run();
    let feed = e.store.feed.len();
    let c = e.clauses[0].duplicate();
    assert_eq!(fold_agg_clause(&mut e.store, &c, 0), 0);
    assert_eq!(e.store.feed.len(), feed);
    put(&mut e, "n", &[1, 7]);
    let feed = e.store.feed.len();
    assert_eq!(fold_agg_clause(&mut e.store, &c, 0), 1);
    assert_eq!(e.store.feed.len(), feed + 1);
    assert_eq!(fold_agg_clause(&mut e.store, &c, 0), 0);
    assert_eq!(rows(&e, "n(P, N)"), ["P=1, N=2", "P=2, N=1"]);
}

#[test]
fn stated_facts_of_derived_predicates_stay() {
    let program = "p(1).\np(X) :- q(X), !r(X).\ns(X) :- p(X).\nn(count(X)) :- p(X).";
    let mut e = Engine::new();
    e.install_program(program).unwrap();
    put(&mut e, "q", &[3]);
    put(&mut e, "r", &[2]);
    let mut d = Engine::new();
    d.install_program(program).unwrap();
    put(&mut d, "q", &[3]);
    put(&mut d, "r", &[2]);
    e.run();
    assert_eq!(rows(&e, "p(X)"), ["X=1", "X=3"]);
    assert_eq!(rows(&e, "s(X)"), ["X=1", "X=3"]);
    assert_eq!(rows(&e, "n(N)"), ["N=2"]);
    let mut deep = d.ask_deep("p(X)").unwrap();
    deep.sort();
    assert_eq!(deep, ["X=1", "X=3"]);
    assert_eq!(e.run(), 0);
    put(&mut e, "r", &[3]);
    assert_eq!(e.run(), 1);
    assert_eq!(rows(&e, "p(X)"), ["X=1"]);
    assert_eq!(rows(&e, "s(X)"), ["X=1"]);
    assert_eq!(rows(&e, "n(N)"), ["N=1"]);
    assert_eq!(e.run(), 0);
    e.retract("r", &vec![Value::Int(3)]);
    assert_eq!(e.run(), 3);
    assert_eq!(rows(&e, "s(X)"), ["X=1", "X=3"]);
    assert_eq!(e.run(), 0);
}

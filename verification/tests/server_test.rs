//! The tools.

use lemmalog::agent::AgentMemory;
use lemmalog::extract::MockExtractor;
use lemmalog::server::{parse_fact_atom, tool_call, truncate, Effect, ToolArgs};

type Memory = AgentMemory<MockExtractor>;

fn mem() -> Memory {
    AgentMemory::new(MockExtractor::new(0.9f64.to_bits()), "").unwrap()
}

fn args() -> ToolArgs {
    ToolArgs {
        facts: String::new(),
        goal: String::new(),
        fact: String::new(),
        rules: String::new(),
        id: String::new(),
        pred: String::new(),
        query: String::new(),
        ts: None,
        budget_tokens: None,
    }
}

fn call(m: &mut Memory, name: &str, a: ToolArgs) -> (String, bool) {
    let (r, e) = tool_call(m, name, &a, None).unwrap();
    assert_eq!(e, Effect::Nothing);
    (r.text, r.is_error)
}

fn observe(m: &mut Memory, facts: &str) -> (String, bool) {
    call(m, "lemmalog_observe", ToolArgs { facts: facts.to_string(), ts: Some(100), ..args() })
}

#[test]
fn observing_reports_counts_and_drops() {
    let mut m = mem();
    assert_eq!(observe(&mut m, "Alice --works_at--> Acme"), ("added=1 updated=0 noop=0 escalations=0".to_string(), false));
    let text = observe(&mut m, "a --m--> b\na --m--> c\na --m--> d\na --m--> e\na --m--> f\nnoise").0;
    assert_eq!(
        text,
        "added=5 updated=0 noop=0 escalations=4\nescalation: conflict: a --m--> c asserted in ep2, but m also open (b)\nescalation: conflict: a --m--> d asserted in ep2, but m also open (b, c)\nescalation: conflict: a --m--> e asserted in ep2, but m also open (b, c, d)\n(+1 more escalations)\ndropped 1 line(s) \u{2014} NOT asserted:\n  `noise` \u{2014} no `--rel-->` structure"
    );
    let text = observe(&mut m, "1\n2\n3\n4\n5\n6\n7").0;
    assert!(text.ends_with("\n  (+2 more)"), "{text}");
    let (t, _) = call(&mut m, "lemmalog_observe", ToolArgs { facts: "z --r--> y".to_string(), ..args() });
    assert!(t.starts_with("added=1"));
    assert_eq!(m.engine.now, 100);
}

#[test]
fn queries_answer_or_explain_themselves() {
    let mut m = mem();
    observe(&mut m, "Alice --works_at--> Acme");
    let q = |g: &str| ToolArgs { goal: g.to_string(), ..args() };
    assert_eq!(call(&mut m, "lemmalog_query", q("current(\"Alice\", R, O)")), ("R=works_at, O=Acme".to_string(), false));
    assert_eq!(call(&mut m, "lemmalog_query", q("current(\"Bob\", R, O)")), ("(no answers)".to_string(), false));
    let (t, e) = call(&mut m, "lemmalog_query", q("current("));
    assert!(e);
    assert!(t.starts_with("parse: could not parse goal `current(`\nreason: parse error: "), "{t}");
    assert!(t.ends_with("\nhint: quote entity names \u{2014} bare capitalized words are variables. Example: reports_to(\"Alice\", Y)"));
    assert_eq!(call(&mut m, "lemmalog_query_deep", q("current(\"Alice\", R, O)")), ("R=works_at, O=Acme".to_string(), false));
    let (t, e) = call(&mut m, "lemmalog_query_deep", q("current("));
    assert!(e && t.starts_with("query: could not evaluate `current(`\nreason: parse error: "), "{t}");
}

#[test]
fn fact_atoms_parse() {
    let (p, a) = parse_fact_atom(" p(a, \"Doe, John\", 7).. ").unwrap();
    assert_eq!(p, "p");
    assert_eq!(a, vec!["a", "Doe, John", "7"]);
    assert_eq!(parse_fact_atom("p").unwrap_err(), "expected pred(args): \"p\"");
    assert_eq!(parse_fact_atom("p(a").unwrap_err(), "expected pred(args): \"p(a\"");
    assert_eq!(parse_fact_atom(")p(").unwrap_err(), "expected pred(args): \")p(\"");
    assert_eq!(parse_fact_atom("(a)").unwrap_err(), "missing predicate: \"(a)\"");
    assert_eq!(parse_fact_atom("p(a, )").unwrap_err(), "empty argument in \"p(a, )\" (why needs a ground fact)");
}

#[test]
fn why_explains_facts() {
    let mut m = mem();
    observe(&mut m, "Alice --works_at--> Acme");
    let w = |f: &str| ToolArgs { fact: f.to_string(), ..args() };
    let (t, e) = call(&mut m, "lemmalog_why", w("current(Alice, works_at, Acme)"));
    assert!(!e && t.starts_with("current(Alice, works_at, Acme)  (conf 0.900, prov [\"ep1\"])\n"), "{t}");
    let (t, e) = call(&mut m, "lemmalog_why", w("edge(Alice, works_at, Acme, 100, 9223372036854775807, 100)"));
    assert!(!e && t.contains("asserted (base fact)"), "{t}");
    assert_eq!(
        call(&mut m, "lemmalog_why", w("nonsense")),
        ("input: expected pred(args): \"nonsense\"\nexample: reports_to(Alice, Carol)".to_string(), true)
    );
    assert_eq!(call(&mut m, "lemmalog_why", w("p(New)")), ("p(New)  [unknown fact]\n".to_string(), false));
}

#[test]
fn rules_come_and_go() {
    let mut m = mem();
    observe(&mut m, "Alice --manager--> Bob");
    let r = |s: &str| ToolArgs { rules: s.to_string(), ..args() };
    let i = |s: &str| ToolArgs { id: s.to_string(), ..args() };
    assert_eq!(
        call(&mut m, "lemmalog_install_rules", r("boss(X, Y) :- current(X, \"manager\", Y).")),
        ("installed batch2; backfill derived +2 facts".to_string(), false)
    );
    let (t, e) = call(&mut m, "lemmalog_install_rules", r("p(X) :- q(X), !p(X)."));
    assert!(e && t.starts_with("rules rejected \u{2014} nothing installed:\nstratification error: unstratifiable: "), "{t}");
    let (t, _) = call(&mut m, "lemmalog_batches", args());
    assert!(t.ends_with("\nbatch2: boss(X, Y) :- current(X, \"manager\", Y)."), "{t}");
    assert_eq!(call(&mut m, "lemmalog_uninstall", i("batch2")), ("uninstalled batch2; derivations recomputed".to_string(), false));
    assert_eq!(
        call(&mut m, "lemmalog_uninstall", i("batch2")),
        ("input: no batch \"batch2\" \u{2014} call lemmalog_batches to list installed ids".to_string(), true)
    );
    assert!(m.ask("boss(X, Y)").unwrap().is_empty());
}

#[test]
fn hypotheticals_are_answered() {
    let mut m = mem();
    let w = |f: &str, g: &str| ToolArgs { facts: f.to_string(), goal: g.to_string(), ..args() };
    assert_eq!(
        call(&mut m, "lemmalog_what_if", w("Alice --works_at--> Acme", "current(X, \"works_at\", Y)")),
        ("X=Alice, Y=Acme".to_string(), false)
    );
    assert_eq!(call(&mut m, "lemmalog_what_if", w("", "current(X, _, Y)")), ("(no answers)".to_string(), false));
    assert_eq!(
        call(&mut m, "lemmalog_what_if", w("noise\nI --r--> x", "current(X, _, Y)")),
        ("input: no valid facts in the hypothetical.\n  `noise` \u{2014} no `--rel-->` structure\n  `I --r--> x` \u{2014} 'I' is a pronoun or role word \u{2014} resolve it to the entity's real name".to_string(), true)
    );
    let (t, e) = call(&mut m, "lemmalog_what_if", w("a --r--> b", "current("));
    assert!(e && t.ends_with("\nhint: quote entity names \u{2014} bare capitalized words are variables"), "{t}");
    assert!(m.ask("edge(A, B, C, D, E, F)").unwrap().is_empty());
}

#[test]
fn canonicalization_is_installed_once() {
    let mut m = mem();
    observe(&mut m, "al --likes--> tea");
    let f = |s: &str| ToolArgs { facts: s.to_string(), ..args() };
    assert_eq!(
        call(&mut m, "lemmalog_canonicalize", f("al --likes--> tea")),
        ("input: no alias edges found \u{2014} lines must look like `local --alias_of[0.9]--> canonical`".to_string(), true)
    );
    assert_eq!(
        call(&mut m, "lemmalog_canonicalize", f("al --alias_of--> alice")),
        ("canonicalization installed; no conflicts".to_string(), false)
    );
    assert_eq!(m.ask("current_canon(X, _, Y)").unwrap(), vec!["X=alice, Y=tea"]);
    let n = m.rule_batches().len();
    assert_eq!(
        call(&mut m, "lemmalog_canonicalize", f("al --alias_of--> albert")),
        ("canonicalization installed; CONFLICTS (retract bad alias edges):\nalias_conflict(al)".to_string(), false)
    );
    assert_eq!(m.rule_batches().len(), n);
    let again = AgentMemory::load(MockExtractor::new(0.9f64.to_bits()), &m.save()).unwrap();
    assert!(again.rule_batches().iter().any(|(_, s)| s.contains("maps_to")));
}

#[test]
fn contexts_need_a_query() {
    let mut m = mem();
    observe(&mut m, "Alice --works_at--> Acme");
    let c = |q: &str, b: Option<i64>| ToolArgs { query: q.to_string(), budget_tokens: b, ..args() };
    assert_eq!(
        call(&mut m, "lemmalog_context", c("  ", None)),
        ("input: `query` is required \u{2014} the natural-language question the context should serve".to_string(), true)
    );
    let (t, e) = call(&mut m, "lemmalog_context", c("What does Alice do?", Some(-5)));
    assert!(!e && t.contains("Alice --works_at--> Acme   [conf 0.90, prov ep1]"), "{t}");
}

#[test]
fn dumps_show_confidence_and_provenance() {
    let mut m = mem();
    let p = |s: &str| ToolArgs { pred: s.to_string(), ..args() };
    assert_eq!(call(&mut m, "lemmalog_dump", p("")), ("(empty)\n".to_string(), false));
    observe(&mut m, "Alice --works_at[0.5]--> Acme");
    assert_eq!(
        call(&mut m, "lemmalog_dump", p("current")),
        ("current(Alice, works_at, Acme)  (conf 0.500, prov [\"ep1\"])\n".to_string(), false)
    );
    let (t, _) = call(&mut m, "lemmalog_dump", p(""));
    assert!(t.starts_with("current(") && t.contains("\nedge(") && t.contains("\nset_valued("), "{t}");
    assert_eq!(call(&mut m, "lemmalog_dump", p("zzz")).0, "(empty)\n");
}

#[test]
fn saving_is_left_to_the_caller() {
    let mut m = mem();
    let (r, e) = tool_call(&mut m, "lemmalog_save", &args(), None).unwrap();
    assert!(r.is_error);
    assert_eq!(e, Effect::Nothing);
    assert_eq!(r.text, "input: LEMMALOG_MCP_PATH not set \u{2014} register the server with --env LEMMALOG_MCP_PATH=...");
    let (_, e) = tool_call(&mut m, "lemmalog_save", &args(), Some("/tmp/x")).unwrap();
    assert_eq!(e, Effect::Save);
    let a = ToolArgs { facts: "a --r--> b".to_string(), ..args() };
    let (_, e) = tool_call(&mut m, "lemmalog_observe", &a, Some("/tmp/x")).unwrap();
    assert_eq!(e, Effect::AutoSave);
    let (r, e) = tool_call(&mut m, "lemmalog_uninstall", &args(), Some("/tmp/x")).unwrap();
    assert!(r.is_error);
    assert_eq!(e, Effect::Nothing);
    let (r, e) = tool_call(&mut m, "lemmalog_run", &args(), Some("/tmp/x")).unwrap();
    assert_eq!((r.text.as_str(), e), ("+0 facts", Effect::Nothing));
}

#[test]
fn unknown_tools_are_errors() {
    let mut m = mem();
    assert_eq!(tool_call(&mut m, "nope", &args(), None).unwrap_err(), "unknown tool \"nope\"");
}

#[test]
fn long_texts_are_cut() {
    assert_eq!(truncate("abc", 3), "abc");
    assert_eq!(truncate("abcd", 3), "abc...");
    assert_eq!(truncate("\u{e9}\u{e9}\u{e9}", 2), "\u{e9}\u{e9}...");
}

//! The memory: updates, context, snapshots, canonicalization.

use lemmalog::agent::AgentMemory;
use lemmalog::canonical::{
    accept_reconciliation, alias_conflicts, assert_alias, candidate_pairs, canonical_view_rule, canonicalization_sources,
    entity_names, install_canonicalization, reconcile_message, CANONICAL_RULES, EIGHT_TENTHS,
};
use lemmalog::escape::{esc, esc_item, unesc};
use lemmalog::extract::MockExtractor;
use lemmalog::relation::Ann;
use lemmalog::rules::ProgramError;
use lemmalog::snapshot::LoadError;
use lemmalog::value::Value;

fn mock() -> MockExtractor {
    MockExtractor::new(0.9f64.to_bits())
}

fn mem(extra: &str) -> AgentMemory<MockExtractor> {
    AgentMemory::new(mock(), extra).unwrap()
}

fn sorted(mut v: Vec<String>) -> Vec<String> {
    v.sort();
    v
}

fn names(v: &[&str]) -> Vec<String> {
    v.iter().map(|s| s.to_string()).collect()
}

#[test]
fn new_facts_are_added_and_repeats_merge() {
    let mut m = mem("");
    let r = m.observe_at("alice --likes[0.5]--> tea", 100);
    assert_eq!((r.added, r.updated, r.noop), (1, 0, 0));
    let r = m.observe_at("alice --likes[0.8]--> tea", 200);
    assert_eq!((r.added, r.updated, r.noop), (0, 0, 1));
    m.maintain(200);
    assert_eq!(m.ask("edge(\"alice\", \"likes\", O, F, T, S)").unwrap().len(), 1);
    assert_eq!(
        m.why("edge(\"alice\", \"likes\", \"tea\", 100, 9223372036854775807, 100)"),
        "edge(alice, likes, tea, 100, 9223372036854775807, 100)  (conf 0.800, prov [\"ep1\", \"ep2\"])\n  \u{21b3} asserted (base fact)\n"
    );
}

#[test]
fn exclusive_relations_are_superseded() {
    let mut m = mem("");
    m.observe_at("alice --works_at--> acme", 100);
    let r = m.observe_at("alice --works_at--> globex", 200);
    assert_eq!((r.added, r.updated, r.noop), (0, 1, 0));
    assert!(r.escalations.is_empty());
    m.maintain(200);
    assert_eq!(m.ask("current(\"alice\", \"works_at\", O)").unwrap(), vec!["O=globex"]);
    assert_eq!(
        sorted(m.ask("edge(\"alice\", \"works_at\", O, F, T, _)").unwrap()),
        vec!["O=acme, F=100, T=200", "O=globex, F=200, T=9223372036854775807"]
    );
}

#[test]
fn other_relations_escalate() {
    let mut m = mem("");
    m.observe_at("alice --manager--> bob", 100);
    let r = m.observe_at("alice --manager--> carol", 200);
    assert_eq!((r.added, r.updated, r.noop), (1, 0, 0));
    assert_eq!(
        r.escalations,
        vec!["conflict: alice --manager--> carol asserted in ep2, but manager also open (bob)"]
    );
    assert_eq!(m.escalations().len(), 1);
    let r = m.observe_at("alice --manager--> dan", 300);
    assert_eq!(
        r.escalations,
        vec!["conflict: alice --manager--> dan asserted in ep3, but manager also open (bob, carol)"]
    );
    let r = m.observe_at("alice --manager--> carol", 400);
    assert_eq!((r.added, r.updated, r.noop), (0, 0, 1));
    m.resolve_escalation(7);
    assert_eq!(m.escalations().len(), 2);
    m.resolve_escalation(0);
    assert!(m.escalations()[0].contains("dan"));
}

#[test]
fn a_repeat_merges_into_its_own_edge() {
    let mut m = mem("");
    m.observe_at("t --includes--> a", 100);
    m.observe_at("t --includes--> b", 200);
    m.observe_at("t --includes--> b", 300);
    m.maintain(300);
    assert_eq!(
        sorted(m.ask("edge(\"t\", \"includes\", O, F, _, _)").unwrap()),
        vec!["O=a, F=100", "O=b, F=200"]
    );
}

#[test]
fn speakers_and_clocks_are_recorded() {
    let mut m = mem("");
    m.observe("a --r--> b");
    m.observe_as("c --r--> d", 5, "carol");
    assert_eq!(m.episodes().len(), 2);
    assert_eq!(m.episodes()[0].id, "ep1");
    assert_eq!(m.episodes()[1].id, "ep2");
    assert_eq!(m.episodes()[1].speaker.as_deref(), Some("carol"));
    assert_eq!(m.episodes()[1].ts, 5);
    assert_eq!(m.engine.now, 5);
    assert_eq!(m.extractor_stats(), (0, 0));
}

#[test]
fn rules_install_once() {
    let mut m = mem("");
    let a = m.install_rules("p(X) :- current(X, _, _).").unwrap();
    let b = m.install_rules("p(X) :- current(X, _, _).").unwrap();
    assert_eq!(a, b);
    assert_eq!(m.rule_batches().len(), 2);
    assert!(matches!(m.install_rules("p(X) :- q(X), !p(X)."), Err(ProgramError::Strat(_))));
    assert!(m.uninstall_rules(&a));
    assert!(!m.uninstall_rules("nothing"));
    assert!(!m.save().contains("BATCH"));
    assert!(AgentMemory::new(mock(), "p(X :- q(X).").is_err());
    assert_eq!(mem("  \n").rule_batches().len(), 1);
}

#[test]
fn lookahead_leaves_the_memory_alone() {
    let mut m = mem("");
    m.observe_at("alice --works_at--> acme", 100);
    m.maintain(100);
    let before = m.save();
    let (rows, n) = m.what_if("bob --works_at--> acme", "current(X, \"works_at\", \"acme\")").unwrap();
    assert_eq!(sorted(rows), vec!["X=alice", "X=bob"]);
    assert_eq!(n, 2);
    assert_eq!(m.save(), before);
    assert_eq!(m.episodes().len(), 1);
    assert!(m.what_if("x --r--> y", "current(").is_err());
    assert_eq!(m.ask("current(X, _, _)").unwrap(), vec!["X=alice"]);
}

#[test]
fn deep_questions_maintain_first() {
    let mut m = mem("");
    m.observe_at("alice --works_at--> acme", 100);
    assert_eq!(m.ask_deep("current(X, \"works_at\", O)").unwrap(), vec!["X=alice, O=acme"]);
    assert!(m.ask_deep("current(").is_err());
}

#[test]
fn explanations_need_ground_facts() {
    let mut m = mem("");
    m.observe_at("alice --works_at--> acme", 100);
    m.maintain(100);
    assert!(m.why("current(\"alice\", \"works_at\", \"acme\")").starts_with("current(alice, works_at, acme)  (conf 0.900, prov [\"ep1\"])\n"));
    assert_eq!(m.why("current(X, \"works_at\", \"acme\")"), "why: current(X, \"works_at\", \"acme\") contains variables");
    assert_eq!(m.why("current("), "why: cannot parse \"current(\"");
}

#[test]
fn near_facts_are_found() {
    let mut m = mem("");
    let (s, e) = (m.engine.sym("s1"), m.engine.sym("alice"));
    let x = m.engine.sym("x");
    m.engine.declare("near", &vec![s, e, x], lemmalog::relation::Ann::unit());
    assert_eq!(m.query_near(s, e).len(), 1);
    assert_eq!(m.query_near(e, s).len(), 0);
}

#[test]
fn context_puts_facts_first_and_sources_last() {
    let mut m = mem("");
    m.observe_at("alice --works_at[0.6]--> acme", 100);
    m.observe_at("alice --likes[0.9]--> tea", 110);
    m.maintain(120);
    assert_eq!(
        m.context(&names(&["alice", "nobody"]), 1000),
        "== new in memory since last turn ==\nedge(alice, works_at, acme, 100, 9223372036854775807, 100)\nedge(alice, likes, tea, 110, 9223372036854775807, 110)\nexclusive(works_at)\nset_valued(recommendation)\nset_valued(evidence)\nset_valued(includes)\nset_valued(located)\ncurrent(alice, works_at, acme)\ncurrent(alice, likes, tea)\n\n== memory (distilled, highest confidence first) ==\nalice --likes--> tea   [conf 0.90, prov ep2]\nalice --works_at--> acme   [conf 0.60, prov ep1]\n\n== source episodes (verbatim, from provenance) ==\n[ep1] alice --works_at[0.6]--> acme\n[ep2] alice --likes[0.9]--> tea\n"
    );
    m.maintain(130);
    assert_eq!(
        m.context(&names(&["alice"]), 20),
        "== memory (distilled, highest confidence first) ==\nalice --likes--> tea   [conf 0.90, prov ep2]\n\n== source episodes (verbatim, from provenance) ==\n[ep2] alice --likes[0.9]--> tea\n"
    );
    assert_eq!(
        m.context(&names(&["alice"]), 0),
        "== memory (distilled, highest confidence first) ==\n\n== source episodes (verbatim, from provenance) ==\n"
    );
}

#[test]
fn context_for_a_query_follows_the_entities_it_names() {
    let mut m = mem("");
    m.observe_at("alice --works_at--> acme", 100);
    m.observe_at("acme --located_in--> paris", 110);
    m.observe_at("bob --likes--> tea", 120);
    m.maintain(130);
    let c = m.context_for_query("Where does alice go?", 1000);
    assert!(c.contains("alice --works_at--> acme"));
    assert!(c.contains("acme --located_in--> paris"));
    assert!(!c.contains("bob"));
}

#[test]
fn fields_escape_and_read_back() {
    assert_eq!(esc("a b\tc\nd\\e"), "a\\sb\\tc\\nd\\\\e");
    for s in ["", "plain", "a b", "\t\n \\", "\\n", "\\\\s", "\u{e9} \u{1F600}"] {
        assert_eq!(unesc(&esc(s)), s);
    }
    assert_eq!(unesc("\\x\\"), "\\x\\");
    assert_eq!(esc("a,\r"), "a,\\r");
    assert_eq!(esc_item("a,b"), "a\\cb");
    assert_eq!(esc_item(""), "\\e");
    for s in ["", ",", "a, b", "\r", "\\e", "e"] {
        assert_eq!(unesc(&esc_item(s)), s);
    }
}

#[test]
fn snapshots_hold_base_facts_only() {
    let mut m = mem("");
    m.observe_as("alice --works_at--> acme corp", 100, "bob");
    m.observe_at("alice --manager--> x", 110);
    m.observe_at("alice --manager--> y", 120);
    m.maintain(130);
    assert_eq!(
        m.save(),
        "LEMMALOG1\nNOW\t130\nRULES\t\nEP\tep1\t100\tbob\talice\\s--works_at-->\\sacme\\scorp\nEP\tep2\t110\t\talice\\s--manager-->\\sx\nEP\tep3\t120\t\talice\\s--manager-->\\sy\nESC\tconflict:\\salice\\s--manager-->\\sy\\sasserted\\sin\\sep3,\\sbut\\smanager\\salso\\sopen\\s(x)\nFACT\tedge\t0.9\tep1\ts:alice s:works_at s:acme\\scorp i:100 i:9223372036854775807 i:100\nFACT\tedge\t0.9\tep2\ts:alice s:manager s:x i:110 i:9223372036854775807 i:110\nFACT\tedge\t0.9\tep3\ts:alice s:manager s:y i:120 i:9223372036854775807 i:120\nFACT\texclusive\t1\t\ts:works_at\nFACT\tset_valued\t1\t\ts:recommendation\nFACT\tset_valued\t1\t\ts:evidence\nFACT\tset_valued\t1\t\ts:includes\nFACT\tset_valued\t1\t\ts:located\n"
    );
    let m2 = AgentMemory::load(mock(), &m.save()).unwrap();
    assert_eq!(m2.save(), m.save());
    assert_eq!(m2.engine.now, 130);
    assert_eq!(m2.episodes().len(), 3);
    assert_eq!(m2.episodes()[0].speaker.as_deref(), Some("bob"));
    assert_eq!(m2.escalations(), m.escalations());
    assert_eq!(m2.ask("current(\"alice\", \"works_at\", O)").unwrap(), vec!["O=acme corp"]);
    let mut m3 = m2;
    m3.observe_at("q --r--> s", 140);
    assert_eq!(m3.episodes()[3].id, "ep4");
}

#[test]
fn facts_of_stated_predicates_are_saved() {
    let mut m = mem("");
    let v = m.engine.sym("manager");
    m.engine.declare("exclusive", &vec![v], Ann::base(0.9f64.to_bits(), &names(&["ep1"])));
    assert!(m.save().contains("FACT\texclusive\t0.9\tep1\ts:manager\n"));
    let back = AgentMemory::load(mock(), &m.save()).unwrap();
    assert_eq!(sorted(back.ask("exclusive(X)").unwrap()), vec!["X=manager", "X=works_at"]);
    assert!(back.save().contains("FACT\texclusive\t0.9\tep1\ts:manager\n"));
    assert!(!m.engine.is_derived_pred("exclusive"));
    assert!(m.engine.is_derived_pred("current"));
}

#[test]
fn any_text_survives_a_reload() {
    for odd in ["", ",", "a,b", "tab\there", "two\nlines", "ends\r", " ", "\\", "\\e", "\\c"] {
        let mut m = mem("");
        m.observe_as(odd, 7, odd);
        let x = m.engine.sym(odd);
        m.engine.declare("p", &vec![x], Ann::base(0.5f64.to_bits(), &names(&[odd, "ep1"])));
        m.engine.declare("odd\tname", &vec![x, x], Ann::unit());
        m.maintain(8);
        let back = AgentMemory::load(mock(), &m.save()).unwrap();
        assert_eq!(back.save(), m.save());
        assert_eq!(back.episodes()[0].text, odd);
        assert_eq!(back.episodes()[0].speaker.as_deref(), Some(odd));
        let f = back.engine.fact("p", &vec![back.engine.sym_of(odd)]).unwrap();
        let mut want = names(&[odd, "ep1"]);
        want.sort();
        want.dedup();
        assert_eq!(f.ann.prov.items(), &want);
    }
}

#[test]
fn lookahead_counts_what_the_assumption_adds() {
    // Nothing has run yet: the facts that the rules state are not counted.
    let mut m = mem("");
    let (_, n) = m.what_if("bob --works_at--> acme", "current(X, \"works_at\", \"acme\")").unwrap();
    assert_eq!(n, 2);
}

#[test]
fn bad_snapshots_are_refused() {
    let load = |s: &str| AgentMemory::load(mock(), s).map(|_| ()).unwrap_err();
    assert!(matches!(load(""), LoadError::NotSnapshot));
    assert_eq!(load("hello\n").message(), "not a lemmalog snapshot");
    assert!(matches!(load("LEMMALOG1\nNOW\tx\n"), LoadError::BadInteger(_)));
    assert_eq!(load("LEMMALOG1\nEP\tep1\t3\n").message(), "bad EP record");
    assert!(matches!(load("LEMMALOG1\nEP\tep1\tz\t\ttext\n"), LoadError::BadInteger(_)));
    assert_eq!(load("LEMMALOG1\nFACT\tp\t1\n").message(), "bad FACT record");
    assert_eq!(load("LEMMALOG1\nFACT\tp\t1\t\tx:1\n").message(), "bad arg \"x:1\"");
    assert!(matches!(load("LEMMALOG1\nFACT\tp\t1\t\ti:one\n"), LoadError::BadInteger(_)));
    assert!(matches!(load("LEMMALOG1\nFACT\tp\thigh\t\ti:1\n"), LoadError::BadNumber(_)));
    assert!(matches!(load("LEMMALOG1\nRULES\tp(X\n"), LoadError::Program(_)));
    assert!(matches!(load("LEMMALOG1\nBATCH\tp(X)\\s:-\\sq(X),\\s!p(X).\n"), LoadError::Program(_)));
    let old = AgentMemory::load(mock(), "CORTEXLOG1\nnoise\nWHAT\tx\nNOW\t7\nFACT\tp\t0.5\te1,e2\ti:1  s:a\n").unwrap();
    assert_eq!(old.engine.now, 7);
    assert_eq!(old.ask("p(X, Y)").unwrap(), vec!["X=1, Y=a"]);
}

#[test]
fn views_project_to_canonical_names() {
    assert_eq!(
        canonical_view_rule("current", 3),
        "current_canon(B0, A1, B2) :- current(A0, A1, A2), maps_to(A0, B0), maps_to(A2, B2).\n"
    );
    assert_eq!(canonical_view_rule("p", 2), "p_canon(B0, B1) :- p(A0, A1), maps_to(A0, B0), maps_to(A1, B1).\n");
    assert_eq!(canonical_view_rule("p", 1), "p_canon(B0) :- p(A0), maps_to(A0, B0).\n");
    assert_eq!(canonical_view_rule("p", 0), "p_canon() :- p().\n");
    let mut m = mem("");
    m.observe_at("al --likes--> tea", 100);
    m.maintain(100);
    assert!(assert_alias(&mut m.engine, "al", "alice", 0.9f64.to_bits()));
    assert!(!assert_alias(&mut m.engine, "al", "alice", 0.9f64.to_bits()));
    let (rules, views) = canonicalization_sources(&m.engine, &names(&["current", "nothing"]));
    assert_eq!(rules, CANONICAL_RULES);
    assert_eq!(views, canonical_view_rule("current", 3));
    let id = install_canonicalization(&mut m.engine, &names(&["current"])).unwrap();
    assert_eq!(id, "batch2");
    m.maintain(100);
    assert_eq!(m.ask("current_canon(X, R, Y)").unwrap(), vec!["X=alice, R=likes, Y=tea"]);
    assert_eq!(m.ask("same_as(\"alice\", \"al\")").unwrap(), vec![""]);
    assert!(alias_conflicts(&m.engine).is_empty());
    assert_alias(&mut m.engine, "al", "albert", 0.9f64.to_bits());
    m.maintain(100);
    assert_eq!(alias_conflicts(&m.engine), vec!["alias_conflict(al)"]);
}

#[test]
fn reconciliation_offers_pairs_and_takes_clean_replies() {
    let mut m = mem("");
    m.observe_at("mel --likes--> tea\nmelanie --likes--> coffee", 100);
    m.maintain(100);
    let ns = entity_names(&m.engine, &names(&["current"]));
    assert_eq!(sorted(ns.clone()), vec!["coffee", "likes", "mel", "melanie", "tea"]);
    let pairs = candidate_pairs(&ns);
    assert_eq!(pairs.len(), 10);
    assert_eq!(reconcile_message(&pairs[..1].to_vec()).unwrap(), format!("Candidate pairs:\n- {} | {}\n\nLines only:", ns[0], ns[1]));
    assert!(reconcile_message(&Vec::new()).is_none());
    let many: Vec<String> = (0..20).map(|i| format!("n{i}")).collect();
    assert_eq!(candidate_pairs(&many).len(), 60);
    assert_eq!(candidate_pairs(&many)[19], ("n1".to_string(), "n2".to_string()));
    assert!(candidate_pairs(&names(&["x"])).is_empty());
    let done = accept_reconciliation(&mut m.engine, "mel --alias_of--> melanie\nI think so\nmel --likes--> tea");
    assert_eq!(done.len(), 1);
    assert_eq!(done[0], ("mel".to_string(), "melanie".to_string(), 0.8f64.to_bits()));
    assert_eq!(EIGHT_TENTHS, 0.8f64.to_bits());
    assert_eq!(m.ask("alias(X, Y)").unwrap(), vec!["X=mel, Y=melanie"]);
}

#[test]
fn an_unknown_name_has_no_context() {
    let mut m = mem("");
    m.observe_at("alice --works_at--> acme", 100);
    m.maintain(130);
    m.engine.declare(
        "current",
        &vec![Value::Int(i64::MIN), Value::Int(1), Value::Int(2)],
        Ann::unit(),
    );
    assert!(!m.context(&names(&["nobody"]), 1000).contains("-->"));
    assert!(m.context(&names(&["alice"]), 1000).contains("alice --works_at--> acme"));
}

#[test]
fn a_query_names_entities_in_any_case_and_finds_episodes_on_them() {
    let mut m = mem("");
    m.observe_at("alice --works_at--> acme", 100);
    m.observe_at("ALICE was seen in town", 110);
    m.observe_at("bob --likes--> tea", 120);
    m.maintain(130);
    let c = m.context_for_query("Where does Alice work?", 1000);
    assert!(c.contains("alice --works_at--> acme"));
    assert!(c.contains("ALICE was seen in town"));
    assert!(!c.contains("bob"));
}

//! Behaviour of the memory as a whole, one issue at a time.

use lemmalog::agent::AgentMemory;
use lemmalog::canonical::{assert_alias, install_canonicalization};
use lemmalog::extract::MockExtractor;
use lemmalog::protocol::split_unquoted;
use lemmalog::server::{autosave_reply, save_reply, Reply};

fn mem(extra: &str) -> AgentMemory<MockExtractor> {
    AgentMemory::new(MockExtractor::new(0.9f64.to_bits()), extra).unwrap()
}

fn reload(text: &str) -> AgentMemory<MockExtractor> {
    AgentMemory::load(MockExtractor::new(0.9f64.to_bits()), text).unwrap()
}

#[test]
fn save_persists_dynamically_installed_rule_batches() {
    let mut m = mem("");
    m.observe_at("alice --manager--> bob", 100);
    m.maintain(100);
    assert!(!m.ask("current(\"alice\", \"manager\", O)").unwrap().is_empty());

    m.install_rules("reports_to(X,Y) :- current(X,\"manager\",Y).").unwrap();
    m.maintain(100);
    assert_eq!(m.ask("reports_to(\"alice\", Y)").unwrap(), vec!["Y=bob".to_string()]);

    let m2 = reload(&m.save());

    let batches = m2.rule_batches();
    assert!(
        batches.iter().any(|(_id, src)| src.contains("reports_to")),
        "dynamically installed batch must survive save/load; got {batches:?}"
    );
    assert_eq!(
        m2.ask("reports_to(\"alice\", Y)").unwrap(),
        vec!["Y=bob".to_string()],
        "derived relation must be rebuilt after loading a snapshot with a mid-session batch"
    );
}

#[test]
fn uninstall_after_engine_batches_does_not_resurrect_or_leak() {
    let mut m = mem("");
    m.observe_at("alice --manager--> bob", 100);
    m.maintain(100);
    let b1 = m.install_rules("reports_to(X,Y) :- current(X,\"manager\",Y).").unwrap();
    m.maintain(100);
    assert_alias(&mut m.engine, "al", "alice", 0.9f64.to_bits());
    install_canonicalization(&mut m.engine, &vec!["current".to_string()]).unwrap();
    m.maintain(100);

    assert!(m.uninstall_rules(&b1));
    let snap = m.save();
    assert!(
        !snap.contains("reports_to"),
        "uninstalled batch must be gone from the snapshot entirely:\n{snap}"
    );

    let m2 = reload(&snap);
    assert!(m2.ask("reports_to(\"alice\", Y)").unwrap().is_empty());
}

#[test]
fn save_does_not_persist_aggregate_temp_relations() {
    let mut m = mem("kit_count(P, count(K)) :- edge(P, \"bought\", K, _, _, _).");
    m.observe_at("alice --bought--> spitfire", 100);
    m.observe_at("alice --bought--> tiger", 100);
    m.maintain(100);
    assert_eq!(m.ask("kit_count(\"alice\", N)").unwrap(), vec!["N=2".to_string()]);

    let content = m.save();
    assert!(
        !content.contains("__agg:"),
        "aggregate temp relations must not be persisted; found __agg: in snapshot:\n{content}"
    );

    let m2 = reload(&content);
    assert_eq!(
        m2.ask("kit_count(\"alice\", N)").unwrap(),
        vec!["N=2".to_string()],
        "aggregate must be recomputed after load, not restored from persisted temp rows"
    );
}

#[test]
fn mcp_autosave_does_not_swallow_errors() {
    let mut m = mem("");
    m.observe_at("alice --works_at--> acme", 100);
    m.maintain(100);
    assert!(m.save().starts_with("LEMMALOG1\n"));

    let bad_path = "/nonexistent/dir/that/cannot/be/written/snap.file";
    let failure = Some("No such file or directory (os error 2)".to_string());
    let reply = save_reply(bad_path, failure.clone());
    assert!(reply.is_error, "save to a nonexistent directory must return an error");

    let done = Reply { text: "added=1".to_string(), is_error: false };
    let warned = autosave_reply(done, bad_path, failure);
    assert!(!warned.is_error);
    assert_eq!(
        warned.text,
        format!(
            "added=1\nWARNING: auto-save to {bad_path} failed: No such file or directory (os error 2) \u{2014} memory is NOT persisted"
        )
    );

    let good = save_reply("/tmp/snap.file", None);
    assert!(!good.is_error);
    assert_eq!(good.text, "saved to /tmp/snap.file");
}

#[test]
fn multi_valued_non_exclusive_relations_should_not_escalate() {
    let mut m = mem("");
    m.observe_at("incident --recommendation--> rec_a", 100);
    let r = m.observe_at("incident --recommendation--> rec_b", 200);
    assert_eq!(
        r.escalations.len(),
        0,
        "two different values for a non-exclusive multi-valued predicate should not escalate; got: {}",
        r.escalations.join("; ")
    );
}

#[test]
fn observe_accepts_located_predicate_from_skill_schema() {
    let mut m = mem("");
    let (report, dropped) =
        m.observe_extracted("alice --works_at--> acme\nlocated(alice, \"src/main.go:42\")", 100);
    assert_eq!(
        report.added, 2,
        "both the edge fact and the located() anchor should be asserted; dropped: {dropped:?}"
    );
    m.maintain(100);
    assert!(!m.ask("current(\"alice\", \"located\", O)").unwrap().is_empty());
}

#[test]
fn observe_accepts_quoted_values_with_punctuation() {
    let mut m = mem("");
    let (report, dropped) = m.observe_extracted(
        "incident --peak_rss--> \"24.7GiB\"\nincident --peak_cpu--> \"86.3\"",
        100,
    );
    assert_eq!(
        report.added, 2,
        "quoted values with punctuation should be accepted; dropped: {dropped:?}"
    );
    m.maintain(100);
    assert!(!m.ask("current(\"incident\", \"peak_rss\", O)").unwrap().is_empty());
}

#[test]
fn mcp_parse_fact_atom_handles_commas_in_quoted_entities() {
    let args = split_unquoted("\"Doe, John\", Carol");
    assert_eq!(args.len(), 2, "comma in quoted entity should not split the arg; got {args:?}");
    let args: Vec<String> = args.iter().map(|a| a.trim_matches('"').to_string()).collect();
    assert_eq!(args[0], "Doe, John");
    assert_eq!(args[1], "Carol");
}

//! Messages as JSON: what is read of them and how they are answered.

use lemmalog::agent::AgentMemory;
use lemmalog::extract::MockExtractor;
use lemmalog::message::{
    answer, answer_line, finish, read_message, tool, write_content, write_error, write_result, write_tool, write_tools,
    Message, Step,
};
use lemmalog::server::ToolArgs;
use serde_json::Value;

type Memory = AgentMemory<MockExtractor>;

fn mem() -> Memory {
    AgentMemory::new(MockExtractor::new(0.9f64.to_bits()), "").unwrap()
}

fn parsed(text: &str) -> Value {
    let v: Value = serde_json::from_str(text).unwrap();
    // Answers are written as the JSON library writes them.
    assert_eq!(v.to_string(), text);
    v
}

fn answered(m: &mut Memory, line: &str) -> Value {
    match answer_line(m, line, None) {
        Step::Answer(text) => parsed(&text),
        other => panic!("{other:?}"),
    }
}

fn request(method: &str, args: ToolArgs) -> Message {
    Message { method: method.to_string(), id: Some("7".to_string()), name: "lemmalog_observe".to_string(), args }
}

fn args() -> ToolArgs {
    ToolArgs {
        facts: String::new(),
        goal: String::new(),
        fact: String::new(),
        rules: String::new(),
        id: String::new(),
        pred: String::new(),
        query: String::new(),
        ts: None,
        budget_tokens: None,
    }
}

const OBSERVE: &str = r#"{"jsonrpc": "2.0", "id": 1, "method": "tools/call", "params": {"name": "lemmalog_observe", "arguments": {"facts": "Alice --works_at--> Acme", "ts": 4}}}"#;

#[test]
fn messages_are_read() {
    let m = read_message(
        r#"{"id": {"b": [1, 2], "a": "x"}, "method": "tools\/call", "params": {"name": "t", "arguments":
            {"facts": "f", "goal": "g\"\n", "fact": "h", "rules": "r", "id": "i", "pred": "p", "query": "q",
             "ts": -3, "budget_tokens": 9223372036854775807}}}"#,
    );
    assert_eq!(m.method, "tools/call");
    assert_eq!(m.id.as_deref(), Some(r#"{"a":"x","b":[1,2]}"#));
    assert_eq!(m.name, "t");
    assert_eq!(m.args.facts, "f");
    assert_eq!(m.args.goal, "g\"\n");
    assert_eq!(m.args.fact, "h");
    assert_eq!(m.args.rules, "r");
    assert_eq!(m.args.id, "i");
    assert_eq!(m.args.pred, "p");
    assert_eq!(m.args.query, "q");
    assert_eq!(m.args.ts, Some(-3));
    assert_eq!(m.args.budget_tokens, Some(i64::MAX));
}

#[test]
fn missing_fields_are_empty() {
    let m = read_message(r#"{"id": null, "method": 3, "params": {"arguments": {"ts": 1.5, "goal": ["g"]}}}"#);
    assert_eq!(m.id.as_deref(), Some("null"));
    assert_eq!(m.method, "");
    assert_eq!(m.name, "");
    assert_eq!(m.args.goal, "");
    assert_eq!(m.args.ts, None);
    assert_eq!(m.args.budget_tokens, None);
    assert_eq!(read_message("no JSON").id, None);
    assert_eq!(read_message("[1]").id, None);
    assert_eq!(read_message(r#"{"id": 1"#).id, None);
}

#[test]
fn lines_without_a_request_are_passed_over() {
    let mut m = mem();
    for line in ["", "  \t ", "no JSON", "3", r#"{"method": "notifications/initialized"}"#] {
        assert!(matches!(answer_line(&mut m, line, None), Step::Skip), "{line}");
    }
}

#[test]
fn sessions_start() {
    let v = answered(&mut mem(), r#"{"jsonrpc":"2.0","id":"a","method":"initialize","params":{}}"#);
    assert_eq!(v["jsonrpc"], "2.0");
    assert_eq!(v["id"], "a");
    let r = &v["result"];
    assert_eq!(r["protocolVersion"], "2024-11-05");
    assert!(r["capabilities"]["tools"].as_object().unwrap().is_empty());
    assert_eq!(r["serverInfo"]["name"], "lemmalog");
    assert_eq!(r["serverInfo"]["version"], "0.1.0");
}

#[test]
fn tools_are_listed_with_their_arguments() {
    let v = answered(&mut mem(), r#"{"id":2,"method":"tools/list"}"#);
    let list = v["result"]["tools"].as_array().unwrap();
    assert_eq!(list.len(), 13);
    assert_eq!(list[0]["name"], "lemmalog_observe");
    assert_eq!(list[12]["name"], "lemmalog_run");
    assert_eq!(list[6]["description"], "List installed rule batches.");
    let kinds = [
        ("facts", "string", "line-protocol facts"),
        ("goal", "string", "query atom"),
        ("fact", "string", "ground fact"),
        ("rules", "string", "rule program text"),
        ("id", "string", "batch id"),
        ("pred", "string", "predicate name"),
        ("ts", "integer", "timestamp"),
        ("query", "string", "natural-language query"),
        ("budget_tokens", "integer", "context token budget"),
    ];
    for t in list {
        assert_eq!(t["inputSchema"]["type"], "object");
        let ps = t["inputSchema"]["properties"].as_object().unwrap();
        assert_eq!(ps.len(), kinds.len());
        for (name, kind, description) in kinds {
            assert_eq!(ps[name]["type"], kind);
            assert_eq!(ps[name]["description"], description);
        }
    }
    parsed(&write_tools());
    let one = parsed(&tool("a\"b", "line\nline"));
    assert_eq!(one["name"], "a\"b");
    assert_eq!(one["description"], "line\nline");
    assert_eq!(write_tool("\"n\"", "\"d\""), tool("n", "d"));
}

#[test]
fn tools_are_called() {
    let mut m = mem();
    let v = answered(&mut m, OBSERVE);
    assert_eq!(v["id"], 1);
    assert_eq!(v["result"]["isError"], false);
    assert_eq!(v["result"]["content"][0]["type"], "text");
    assert_eq!(v["result"]["content"][0]["text"], "added=1 updated=0 noop=0 escalations=0");
    let v = answered(
        &mut m,
        r#"{"id":2,"method":"tools/call","params":{"name":"lemmalog_query","arguments":{"goal":"current(\"Alice\", works_at, O)"}}}"#,
    );
    assert!(v["result"]["content"][0]["text"].as_str().unwrap().contains("Acme"), "{v}");
}

#[test]
fn failures_are_errors() {
    let mut m = mem();
    let v = answered(&mut m, r#"{"id":3,"method":"tools/drop"}"#);
    assert_eq!(v["error"]["code"], -32000);
    assert_eq!(v["error"]["message"], "unknown method \"tools/drop\"");
    assert_eq!(v["id"], 3);
    assert!(v.get("result").is_none());
    let v = answered(&mut m, r#"{"id":4,"method":"tools/call","params":{"name":"nothing"}}"#);
    assert_eq!(v["error"]["code"], -32000);
    assert!(v["error"]["message"].as_str().unwrap().contains("nothing"), "{v}");
}

#[test]
fn changes_wait_for_the_file() {
    let mut m = mem();
    let Step::Save(call) = answer_line(&mut m, OBSERVE, Some("mem.snap")) else { panic!("no save") };
    let text = call.reply.text.clone();
    let v = parsed(&finish(call, "mem.snap", None));
    assert_eq!(v["result"]["content"][0]["text"], text.as_str());
    let Step::Save(call) = answer_line(&mut m, OBSERVE, Some("mem.snap")) else { panic!("no save") };
    let v = parsed(&finish(call, "mem.snap", Some("disk full".to_string())));
    let shown = v["result"]["content"][0]["text"].as_str().unwrap();
    assert!(shown.ends_with("WARNING: auto-save to mem.snap failed: disk full \u{2014} memory is NOT persisted"));
    let save = r#"{"id":[5],"method":"tools/call","params":{"name":"lemmalog_save"}}"#;
    let Step::Save(call) = answer_line(&mut m, save, Some("mem.snap")) else { panic!("no save") };
    let answer = finish(call, "mem.snap", None);
    assert_eq!(
        answer,
        r#"{"id":[5],"jsonrpc":"2.0","result":{"content":[{"text":"saved to mem.snap","type":"text"}],"isError":false}}"#
    );
    let Step::Save(call) = answer_line(&mut m, save, Some("mem.snap")) else { panic!("no save") };
    let v = parsed(&finish(call, "mem.snap", Some("disk full".to_string())));
    assert_eq!(v["result"]["isError"], true);
    assert_eq!(v["result"]["content"][0]["text"], "io: snapshot save failed: disk full");
}

#[test]
fn only_calls_change_the_memory() {
    let mut m = mem();
    let before = m.save();
    let mut a = args();
    a.facts = "Alice --works_at--> Acme".to_string();
    let Step::Answer(_) = answer(&mut m, &request("tools/list", a), None) else { panic!("no answer") };
    assert_eq!(m.save(), before);
    let mut a = args();
    a.facts = "Alice --works_at--> Acme".to_string();
    let Step::Answer(_) = answer(&mut m, &request("tools/call", a), None) else { panic!("no answer") };
    assert!(m.save() != before);
}

#[test]
fn answers_are_framed() {
    assert_eq!(write_content("\"x\"", true), r#"{"content":[{"text":"x","type":"text"}],"isError":true}"#);
    assert_eq!(write_result("1", "{}"), r#"{"id":1,"jsonrpc":"2.0","result":{}}"#);
    assert_eq!(
        write_error("null", "\"e\""),
        r#"{"error":{"code":-32000,"message":"e"},"id":null,"jsonrpc":"2.0"}"#
    );
}

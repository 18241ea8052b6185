//! Messages of the protocol, one JSON document per line: what a message asks
//! for, and how its answer is written.

use vstd::prelude::*;
use vstd::string::StringExecFns;
use crate::agent::{AgentMemory, MemoryV};
use crate::ast::opt_text;
use crate::engine::engine_wf;
use crate::extract::Extractor;
use crate::protocol::drops_view;
use crate::scan::{trim_text, trimmed};
use crate::server::{
    autosave_reply, autosaved, call_result, save_reply, saved_text, tool_call, Effect, Reply, ReplyV, ToolArgs, ToolArgsV,
};
use crate::text::{join, joined, texts};
use crate::tools::{request_kind, request_of, tool_list, tools, Request, RequestV};

verus! {

// -------------------------------------------------------------------- reading

/// The string at a place of a JSON document, where there is one. The place is
/// a JSON pointer.
pub uninterp spec fn json_text(doc: Seq<char>, place: Seq<char>) -> Option<Seq<char>>;

/// The integer at a place of a JSON document, where there is one.
pub uninterp spec fn json_int(doc: Seq<char>, place: Seq<char>) -> Option<i64>;

/// What stands at a place of a JSON document, as JSON without white space,
/// where there is anything.
pub uninterp spec fn json_part(doc: Seq<char>, place: Seq<char>) -> Option<Seq<char>>;

/// A text as a JSON string.
pub uninterp spec fn json_string(s: Seq<char>) -> Seq<char>;

/// `serde_json::from_str` reads a document into a `Value`; `Value::pointer`
/// and `Value::as_str` give the string at a place. There is none where the
/// text is no JSON, nothing stands at the place, or no string does. The result
/// is named, not stated.
#[verifier::external_body]
fn text_at(doc: &str, place: &str) -> (r: Option<String>)
    ensures
        opt_text(r) == json_text(doc@, place@),
{
    let v: serde_json::Value = serde_json::from_str(doc).ok()?;
    Some(v.pointer(place)?.as_str()?.to_owned())
}

/// `serde_json::from_str`, `Value::pointer` and `Value::as_i64` give the
/// integer at a place. There is none where the text is no JSON, nothing stands
/// at the place, or no number does that is an integer of 64 bits. The result is
/// named, not stated.
#[verifier::external_body]
fn int_at(doc: &str, place: &str) -> (r: Option<i64>)
    ensures
        r == json_int(doc@, place@),
{
    let v: serde_json::Value = serde_json::from_str(doc).ok()?;
    v.pointer(place)?.as_i64()
}

/// `serde_json::from_str`, `Value::pointer` and `Value::to_string` give what
/// stands at a place, written as JSON. There is nothing where the text is no
/// JSON or nothing stands at the place. The result is named, not stated.
#[verifier::external_body]
fn part_at(doc: &str, place: &str) -> (r: Option<String>)
    ensures
        opt_text(r) == json_part(doc@, place@),
{
    let v: serde_json::Value = serde_json::from_str(doc).ok()?;
    Some(v.pointer(place)?.to_string())
}

/// `serde_json::Value::to_string` of a string gives the text between double
/// quotes, with characters escaped as JSON has it. The result is named, not
/// stated.
#[verifier::external_body]
fn quote_json(s: &str) -> (r: String)
    ensures
        r@ == json_string(s@),
{
    serde_json::Value::String(s.to_owned()).to_string()
}

/// What is read of a message.
#[derive(Debug)]
pub struct Message {
    pub method: String,
    /// The id, as JSON; a message without one is a notification.
    pub id: Option<String>,
    /// The tool that is called.
    pub name: String,
    /// The arguments of the call.
    pub args: ToolArgs,
}

/// The value of a [`Message`].
pub struct MessageV {
    pub method: Seq<char>,
    pub id: Option<Seq<char>>,
    pub name: Seq<char>,
    pub args: ToolArgsV,
}

impl View for Message {
    type V = MessageV;

    open spec fn view(&self) -> MessageV {
        MessageV { method: self.method@, id: opt_text(self.id), name: self.name@, args: self.args@ }
    }
}

/// A string that may be missing, then empty.
pub open spec fn or_empty(s: Option<Seq<char>>) -> Seq<char> {
    match s {
        Some(t) => t,
        None => Seq::empty(),
    }
}

/// The message of a document.
pub open spec fn message_of(doc: Seq<char>) -> MessageV {
    MessageV {
        method: or_empty(json_text(doc, "/method"@)),
        id: json_part(doc, "/id"@),
        name: or_empty(json_text(doc, "/params/name"@)),
        args: ToolArgsV {
            facts: or_empty(json_text(doc, "/params/arguments/facts"@)),
            goal: or_empty(json_text(doc, "/params/arguments/goal"@)),
            fact: or_empty(json_text(doc, "/params/arguments/fact"@)),
            rules: or_empty(json_text(doc, "/params/arguments/rules"@)),
            id: or_empty(json_text(doc, "/params/arguments/id"@)),
            pred: or_empty(json_text(doc, "/params/arguments/pred"@)),
            query: or_empty(json_text(doc, "/params/arguments/query"@)),
            ts: json_int(doc, "/params/arguments/ts"@),
            budget_tokens: json_int(doc, "/params/arguments/budget_tokens"@),
        },
    }
}

fn text_or_empty(doc: &str, place: &str) -> (r: String)
    ensures
        r@ == or_empty(json_text(doc@, place@)),
{
    match text_at(doc, place) {
        Some(s) => s,
        None => String::new(),
    }
}

/// Reads a message. What is no JSON document has no id, as a notification.
pub fn read_message(doc: &str) -> (r: Message)
    ensures
        r@ == message_of(doc@),
{
    Message {
        method: text_or_empty(doc, "/method"),
        id: part_at(doc, "/id"),
        name: text_or_empty(doc, "/params/name"),
        args: ToolArgs {
            facts: text_or_empty(doc, "/params/arguments/facts"),
            goal: text_or_empty(doc, "/params/arguments/goal"),
            fact: text_or_empty(doc, "/params/arguments/fact"),
            rules: text_or_empty(doc, "/params/arguments/rules"),
            id: text_or_empty(doc, "/params/arguments/id"),
            pred: text_or_empty(doc, "/params/arguments/pred"),
            query: text_or_empty(doc, "/params/arguments/query"),
            ts: int_at(doc, "/params/arguments/ts"),
            budget_tokens: int_at(doc, "/params/arguments/budget_tokens"),
        },
    }
}

// -------------------------------------------------------------------- writing

/// What a session starts with.
pub open spec fn session_text() -> Seq<char> {
    "{\"capabilities\":{\"tools\":{}},\"protocolVersion\":\"2024-11-05\",\"serverInfo\":{\"name\":\"lemmalog\",\"version\":\"0.1.0\"}}"@
}

/// The arguments that tools take.
pub open spec fn schema_text() -> Seq<char> {
    "{\"properties\":{\"budget_tokens\":{\"description\":\"context token budget\",\"type\":\"integer\"},\"fact\":{\"description\":\"ground fact\",\"type\":\"string\"},\"facts\":{\"description\":\"line-protocol facts\",\"type\":\"string\"},\"goal\":{\"description\":\"query atom\",\"type\":\"string\"},\"id\":{\"description\":\"batch id\",\"type\":\"string\"},\"pred\":{\"description\":\"predicate name\",\"type\":\"string\"},\"query\":{\"description\":\"natural-language query\",\"type\":\"string\"},\"rules\":{\"description\":\"rule program text\",\"type\":\"string\"},\"ts\":{\"description\":\"timestamp\",\"type\":\"integer\"}},\"type\":\"object\"}"@
}

/// The entry of a tool in the list of the tools, its name and description as
/// JSON strings.
pub open spec fn tool_text(name: Seq<char>, description: Seq<char>) -> Seq<char> {
    "{\"description\":"@ + description + ",\"inputSchema\":"@ + schema_text() + ",\"name\":"@ + name + "}"@
}

/// The entries of tools.
pub open spec fn tool_texts(list: Seq<(Seq<char>, Seq<char>)>) -> Seq<Seq<char>> {
    list.map_values(|t: (Seq<char>, Seq<char>)| tool_text(json_string(t.0), json_string(t.1)))
}

/// The list of the tools.
pub open spec fn tools_text() -> Seq<char> {
    "{\"tools\":["@ + joined(tool_texts(tool_list()), ","@) + "]}"@
}

/// What a tool answered, its text as a JSON string.
pub open spec fn content_text(text: Seq<char>, is_error: bool) -> Seq<char> {
    "{\"content\":[{\"text\":"@ + text + ",\"type\":\"text\"}],\"isError\":"@ + (if is_error {
        "true"@
    } else {
        "false"@
    }) + "}"@
}

/// The answer to a request that succeeded.
pub open spec fn result_text(id: Seq<char>, value: Seq<char>) -> Seq<char> {
    "{\"id\":"@ + id + ",\"jsonrpc\":\"2.0\",\"result\":"@ + value + "}"@
}

/// The answer to a request that failed, the reason as a JSON string.
pub open spec fn error_text(id: Seq<char>, reason: Seq<char>) -> Seq<char> {
    "{\"error\":{\"code\":-32000,\"message\":"@ + reason + "},\"id\":"@ + id + ",\"jsonrpc\":\"2.0\"}"@
}

/// The entry of a tool in the list of the tools.
pub fn tool(name: &str, description: &str) -> (r: String)
    ensures
        r@ == tool_text(json_string(name@), json_string(description@)),
{
    let shown = quote_json(name);
    let told = quote_json(description);
    write_tool(shown.as_str(), told.as_str())
}

/// The entry of a tool, its name and description given as JSON strings.
pub fn write_tool(name: &str, description: &str) -> (r: String)
    ensures
        r@ == tool_text(name@, description@),
{
    let mut s = "{\"description\":".to_owned();
    s.append(description);
    s.append(",\"inputSchema\":");
    s.append("{\"properties\":{\"budget_tokens\":{\"description\":\"context token budget\",\"type\":\"integer\"},\"fact\":{\"description\":\"ground fact\",\"type\":\"string\"},\"facts\":{\"description\":\"line-protocol facts\",\"type\":\"string\"},\"goal\":{\"description\":\"query atom\",\"type\":\"string\"},\"id\":{\"description\":\"batch id\",\"type\":\"string\"},\"pred\":{\"description\":\"predicate name\",\"type\":\"string\"},\"query\":{\"description\":\"natural-language query\",\"type\":\"string\"},\"rules\":{\"description\":\"rule program text\",\"type\":\"string\"},\"ts\":{\"description\":\"timestamp\",\"type\":\"integer\"}},\"type\":\"object\"}");
    s.append(",\"name\":");
    s.append(name);
    s.append("}");
    s
}

/// Writes the list of the tools.
pub fn write_tools() -> (r: String)
    ensures
        r@ == tools_text(),
{
    let list = tools();
    let mut parts: Vec<String> = Vec::new();
    let mut i: usize = 0;
    assert(texts(parts@) =~= tool_texts(tool_list()).take(0));
    while i < list.len()
        invariant
            i <= list.len(),
            drops_view(list@) == tool_list(),
            texts(parts@) == tool_texts(tool_list()).take(i as int),
        decreases list.len() - i,
    {
        let ghost before = parts@;
        assert(drops_view(list@)[i as int] == (list@[i as int].0@, list@[i as int].1@));
        parts.push(tool(list[i].0.as_str(), list[i].1.as_str()));
        i = i + 1;
        assert(texts(parts@) =~= texts(before).push(parts@.last()@));
        assert(texts(parts@) =~= tool_texts(tool_list()).take(i as int));
    }
    assert(tool_texts(tool_list()).take(i as int) =~= tool_texts(tool_list()));
    let all = join(&parts, ",");
    let mut s = "{\"tools\":[".to_owned();
    s.append(all.as_str());
    s.append("]}");
    s
}

/// Writes what a tool answered, its text given as a JSON string.
pub fn write_content(text: &str, is_error: bool) -> (r: String)
    ensures
        r@ == content_text(text@, is_error),
{
    let mut s = "{\"content\":[{\"text\":".to_owned();
    s.append(text);
    s.append(",\"type\":\"text\"}],\"isError\":");
    if is_error {
        s.append("true");
    } else {
        s.append("false");
    }
    s.append("}");
    s
}

/// Writes the answer to a request that succeeded.
pub fn write_result(id: &str, value: &str) -> (r: String)
    ensures
        r@ == result_text(id@, value@),
{
    let mut s = "{\"id\":".to_owned();
    s.append(id);
    s.append(",\"jsonrpc\":\"2.0\",\"result\":");
    s.append(value);
    s.append("}");
    s
}

/// Writes the answer to a request that failed, the reason given as a JSON
/// string.
pub fn write_error(id: &str, reason: &str) -> (r: String)
    ensures
        r@ == error_text(id@, reason@),
{
    let mut s = "{\"error\":{\"code\":-32000,\"message\":".to_owned();
    s.append(reason);
    s.append("},\"id\":");
    s.append(id);
    s.append(",\"jsonrpc\":\"2.0\"}");
    s
}

// ------------------------------------------------------------------ answering

/// A call whose answer waits until the memory has been saved.
#[derive(Debug)]
pub struct Pending {
    /// The id of the request, as JSON.
    pub id: String,
    pub reply: Reply,
    pub effect: Effect,
}

/// What there is to do about a message.
#[derive(Debug)]
pub enum Step {
    /// Nothing: the message gets no answer.
    Skip,
    /// Send this answer.
    Answer(String),
    /// Save the memory, then [`finish`].
    Save(Pending),
}

/// The value of a [`Step`].
pub enum StepV {
    Skip,
    Answer(Seq<char>),
    Save(Seq<char>, ReplyV, Effect),
}

impl View for Step {
    type V = StepV;

    open spec fn view(&self) -> StepV {
        match *self {
            Step::Skip => StepV::Skip,
            Step::Answer(s) => StepV::Answer(s@),
            Step::Save(p) => StepV::Save(p.id@, p.reply@, p.effect),
        }
    }
}

/// The answer with a reply.
pub open spec fn replied(id: Seq<char>, reply: ReplyV) -> Seq<char> {
    result_text(id, content_text(json_string(reply.text), reply.is_error))
}

/// What there is to do once a tool has been called.
pub open spec fn after_call(id: Seq<char>, called: Result<(ReplyV, Effect), Seq<char>>) -> StepV {
    match called {
        Err(e) => StepV::Answer(error_text(id, json_string(e))),
        Ok((reply, effect)) => if effect is Nothing {
            StepV::Answer(replied(id, reply))
        } else {
            StepV::Save(id, reply, effect)
        },
    }
}

/// The memory after a message, and what there is to do about it.
pub open spec fn answered(m: MemoryV, msg: MessageV, path: Option<Seq<char>>) -> (MemoryV, StepV) {
    match msg.id {
        None => (m, StepV::Skip),
        Some(id) => match request_kind(msg.method, true) {
            RequestV::Notification => (m, StepV::Skip),
            RequestV::Initialize => (m, StepV::Answer(result_text(id, session_text()))),
            RequestV::ListTools => (m, StepV::Answer(result_text(id, tools_text()))),
            RequestV::CallTool => {
                let called = call_result(m, msg.name, msg.args, path);
                (called.0, after_call(id, called.1))
            },
            RequestV::Unknown(e) => (m, StepV::Answer(error_text(id, json_string(e)))),
        },
    }
}

/// The path of the file, as text.
pub open spec fn path_text(path: Option<&str>) -> Option<Seq<char>> {
    match path {
        Some(p) => Some(p@),
        None => None,
    }
}

fn reply_text(id: &str, reply: &Reply) -> (r: String)
    ensures
        r@ == replied(id@, reply@),
{
    let text = quote_json(reply.text.as_str());
    let content = write_content(text.as_str(), reply.is_error);
    write_result(id, content.as_str())
}

fn failure_text(id: &str, reason: &str) -> (r: String)
    ensures
        r@ == error_text(id@, json_string(reason@)),
{
    let shown = quote_json(reason);
    write_error(id, shown.as_str())
}

/// Does what a message asks for. `path` is where the memory is kept, if
/// anywhere.
pub fn answer<X: Extractor>(m: &mut AgentMemory<X>, msg: &Message, path: Option<&str>) -> (r: Step)
    requires
        engine_wf(old(m)@.engine),
    ensures
        (final(m)@, r@) == answered(old(m)@, msg@, path_text(path)),
        final(m).extractor == old(m).extractor,
        engine_wf(final(m)@.engine),
{
    let id = match &msg.id {
        None => {
            return Step::Skip;
        },
        Some(id) => id.as_str(),
    };
    match request_of(msg.method.as_str(), true) {
        Request::Notification => Step::Skip,
        Request::Initialize => Step::Answer(
            write_result(
                id,
                "{\"capabilities\":{\"tools\":{}},\"protocolVersion\":\"2024-11-05\",\"serverInfo\":{\"name\":\"lemmalog\",\"version\":\"0.1.0\"}}",
            ),
        ),
        Request::ListTools => {
            let list = write_tools();
            Step::Answer(write_result(id, list.as_str()))
        },
        Request::CallTool => match tool_call(m, msg.name.as_str(), &msg.args, path) {
            Err(e) => Step::Answer(failure_text(id, e.as_str())),
            Ok((reply, effect)) => match effect {
                Effect::Nothing => Step::Answer(reply_text(id, &reply)),
                _ => Step::Save(Pending { id: id.to_owned(), reply, effect }),
            },
        },
        Request::Unknown(e) => Step::Answer(failure_text(id, e.as_str())),
    }
}

/// What there is to do about a line. A blank line is passed over.
pub open spec fn line_answered(m: MemoryV, line: Seq<char>, path: Option<Seq<char>>) -> (MemoryV, StepV) {
    if trimmed(line).len() == 0 {
        (m, StepV::Skip)
    } else {
        answered(m, message_of(line), path)
    }
}

/// Does what the message of a line asks for.
pub fn answer_line<X: Extractor>(m: &mut AgentMemory<X>, line: &str, path: Option<&str>) -> (r: Step)
    requires
        engine_wf(old(m)@.engine),
    ensures
        (final(m)@, r@) == line_answered(old(m)@, line@, path_text(path)),
        final(m).extractor == old(m).extractor,
        engine_wf(final(m)@.engine),
{
    let rest = trim_text(line);
    if rest.as_str().is_empty() {
        return Step::Skip;
    }
    let msg = read_message(line);
    answer(m, &msg, path)
}

/// The reply to a call, given how saving went.
pub open spec fn settled_reply(reply: ReplyV, effect: Effect, path: Seq<char>, failure: Option<Seq<char>>) -> ReplyV {
    match effect {
        Effect::Nothing => reply,
        Effect::Save => saved_text(path, failure),
        Effect::AutoSave => autosaved(reply, path, failure),
    }
}

/// The answer to a call, given how saving the memory went.
pub fn finish(call: Pending, path: &str, failure: Option<String>) -> (r: String)
    ensures
        r@ == replied(call.id@, settled_reply(call.reply@, call.effect, path@, opt_text(failure))),
{
    let reply = match call.effect {
        Effect::Nothing => call.reply,
        Effect::Save => save_reply(path, failure),
        Effect::AutoSave => autosave_reply(call.reply, path, failure),
    };
    reply_text(call.id.as_str(), &reply)
}

// ----------------------------------------------------------------------- laws

/// A text is an answer to the request with an id.
pub open spec fn answers(text: Seq<char>, id: Seq<char>) -> bool {
    ||| exists|v: Seq<char>| text == #[trigger] result_text(id, v)
    ||| exists|e: Seq<char>| text == #[trigger] error_text(id, e)
}

/// Law: a message is answered if and only if it has an id, and under that id;
/// the answer waits for the memory to be saved only where there is a file.
pub proof fn requests_answered(m: MemoryV, msg: MessageV, path: Option<Seq<char>>)
    ensures
        answered(m, msg, path).1 is Skip <==> msg.id is None,
        answered(m, msg, path).1 matches StepV::Answer(text) ==> answers(text, msg.id->0),
        answered(m, msg, path).1 matches StepV::Save(id, _, _) ==> id == msg.id->0 && path is Some,
{
    if msg.id is Some {
        let id = msg.id->0;
        match answered(m, msg, path).1 {
            StepV::Answer(text) => {
                match request_kind(msg.method, true) {
                    RequestV::CallTool => {
                        match call_result(m, msg.name, msg.args, path).1 {
                            Err(e) => {
                                assert(text == error_text(id, json_string(e)));
                            },
                            Ok((reply, _)) => {
                                assert(text == result_text(id, content_text(json_string(reply.text), reply.is_error)));
                            },
                        }
                    },
                    _ => {},
                }
            },
            _ => {},
        }
    }
}

/// Law: only a request to call a tool changes the memory.
pub proof fn calls_alone_change(m: MemoryV, msg: MessageV, path: Option<Seq<char>>)
    requires
        answered(m, msg, path).0 != m,
    ensures
        msg.id is Some,
        msg.method == "tools/call"@,
{
}

} // verus!

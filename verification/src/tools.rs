//! The list of the tools, and the requests of the protocol that calls them.

use vstd::prelude::*;
use vstd::string::StringExecFns;
use crate::agent::MemoryV;
use crate::protocol::drops_view;
use crate::server::{call_result, ToolArgsV};
use crate::text::{about_quoted, debug_form, str_eq};

verus! {

// --------------------------------------------------------------------- tools

/// The names and descriptions of the tools.
pub open spec fn tool_list() -> Seq<(Seq<char>, Seq<char>)> {
    seq![
        ("lemmalog_observe"@, "Assert facts into memory (host model does extraction). Input: facts in the line protocol 'S --rel[conf]--> O', one per line; optional ts integer (default: engine clock). Example: 'Alice --works_at--> Acme\\nBob --manager--> Carol'."@),
        ("lemmalog_query"@, "Query derived memory: a goal atom like 'reports_to(\"Alice\", Y)' or 'current(X, works_at, O)'. Returns variable bindings. Read-only."@),
        ("lemmalog_query_deep"@, "Demand-driven query for exploratory points: evaluates the rules that the goal's predicate depends on, in full, and no others. Same goal syntax as lemmalog_query."@),
        ("lemmalog_why"@, "Provenance proof tree for a ground fact like 'reports_to(Alice, Carol)' \u{2014} which rules and source episodes produced it."@),
        ("lemmalog_install_rules"@, "Install a Datalog rule batch (versioned, revertable). Input: rules text. Rules: 'head(X,Y) :- atom(X,Y), cmp.' with stratified negation (!atom), count/min/max/sum aggregates in heads, now(T) builtin."@),
        ("lemmalog_uninstall"@, "Uninstall a rule batch by id (see lemmalog_batches). Derivations revert."@),
        ("lemmalog_batches"@, "List installed rule batches."@),
        ("lemmalog_what_if"@, "Hypothetical: 'what would follow if these facts were true?' Input: facts (line protocol) + goal atom. Store is untouched."@),
        ("lemmalog_canonicalize"@, "Entity resolution: asserts alias edges (line protocol 'local --alias_of[conf]--> canonical'), installs the canonicalization rules and canonical views over current. Conflicts surface as alias_conflict facts."@),
        ("lemmalog_context"@, "Query-driven context assembly by entity match: the current facts of the entities that the query names and of their one-hop neighbors, highest confidence first, budget-aware. Input: query (natural language) + optional budget_tokens (default 1000). Returns the selected facts, their verbatim source episodes and the episodes that speak of the named entities \u{2014} use this instead of lemmalog_dump when preparing a grounded answer."@),
        ("lemmalog_dump"@, "List facts of a predicate (or all) with confidence and provenance."@),
        ("lemmalog_save"@, "Persist memory to LEMMALOG_MCP_PATH."@),
        ("lemmalog_run"@, "Run one maintenance epoch (usually automatic)."@),
    ]
}

/// There is such a tool.
pub open spec fn is_tool(name: Seq<char>) -> bool {
    exists|i: int| 0 <= i < tool_list().len() && #[trigger] tool_list()[i].0 == name
}

fn list_tool(list: &mut Vec<(String, String)>, name: &str, description: &str)
    ensures
        drops_view(final(list)@) == drops_view(old(list)@).push((name@, description@)),
{
    let ghost before = list@;
    list.push((name.to_owned(), description.to_owned()));
    assert(drops_view(list@) =~= drops_view(before).push((name@, description@)));
}

/// The tools, each with its name and its description.
pub fn tools() -> (r: Vec<(String, String)>)
    ensures
        drops_view(r@) == tool_list(),
{
    let mut list: Vec<(String, String)> = Vec::new();
    assert(drops_view(list@) =~= Seq::empty());
    list_tool(
        &mut list,
        "lemmalog_observe",
        "Assert facts into memory (host model does extraction). Input: facts in the line protocol 'S --rel[conf]--> O', one per line; optional ts integer (default: engine clock). Example: 'Alice --works_at--> Acme\\nBob --manager--> Carol'.",
    );
    list_tool(
        &mut list,
        "lemmalog_query",
        "Query derived memory: a goal atom like 'reports_to(\"Alice\", Y)' or 'current(X, works_at, O)'. Returns variable bindings. Read-only.",
    );
    list_tool(
        &mut list,
        "lemmalog_query_deep",
        "Demand-driven query for exploratory points: evaluates the rules that the goal's predicate depends on, in full, and no others. Same goal syntax as lemmalog_query.",
    );
    list_tool(
        &mut list,
        "lemmalog_why",
        "Provenance proof tree for a ground fact like 'reports_to(Alice, Carol)' \u{2014} which rules and source episodes produced it.",
    );
    list_tool(
        &mut list,
        "lemmalog_install_rules",
        "Install a Datalog rule batch (versioned, revertable). Input: rules text. Rules: 'head(X,Y) :- atom(X,Y), cmp.' with stratified negation (!atom), count/min/max/sum aggregates in heads, now(T) builtin.",
    );
    list_tool(
        &mut list,
        "lemmalog_uninstall",
        "Uninstall a rule batch by id (see lemmalog_batches). Derivations revert.",
    );
    list_tool(
        &mut list,
        "lemmalog_batches",
        "List installed rule batches.",
    );
    list_tool(
        &mut list,
        "lemmalog_what_if",
        "Hypothetical: 'what would follow if these facts were true?' Input: facts (line protocol) + goal atom. Store is untouched.",
    );
    list_tool(
        &mut list,
        "lemmalog_canonicalize",
        "Entity resolution: asserts alias edges (line protocol 'local --alias_of[conf]--> canonical'), installs the canonicalization rules and canonical views over current. Conflicts surface as alias_conflict facts.",
    );
    list_tool(
        &mut list,
        "lemmalog_context",
        "Query-driven context assembly by entity match: the current facts of the entities that the query names and of their one-hop neighbors, highest confidence first, budget-aware. Input: query (natural language) + optional budget_tokens (default 1000). Returns the selected facts, their verbatim source episodes and the episodes that speak of the named entities \u{2014} use this instead of lemmalog_dump when preparing a grounded answer.",
    );
    list_tool(
        &mut list,
        "lemmalog_dump",
        "List facts of a predicate (or all) with confidence and provenance.",
    );
    list_tool(
        &mut list,
        "lemmalog_save",
        "Persist memory to LEMMALOG_MCP_PATH.",
    );
    list_tool(
        &mut list,
        "lemmalog_run",
        "Run one maintenance epoch (usually automatic).",
    );
    assert(drops_view(list@) =~= tool_list());
    list
}

/// Law: a call fails only for want of such a tool; every listed tool answers.
pub proof fn listed_tools_answer(m: MemoryV, name: Seq<char>, a: ToolArgsV, path: Option<Seq<char>>)
    ensures
        call_result(m, name, a, path).1 is Ok <==> is_tool(name),
{
    assert(tool_list()[0].0 == "lemmalog_observe"@);
    assert(tool_list()[1].0 == "lemmalog_query"@);
    assert(tool_list()[2].0 == "lemmalog_query_deep"@);
    assert(tool_list()[3].0 == "lemmalog_why"@);
    assert(tool_list()[4].0 == "lemmalog_install_rules"@);
    assert(tool_list()[5].0 == "lemmalog_uninstall"@);
    assert(tool_list()[6].0 == "lemmalog_batches"@);
    assert(tool_list()[7].0 == "lemmalog_what_if"@);
    assert(tool_list()[8].0 == "lemmalog_canonicalize"@);
    assert(tool_list()[9].0 == "lemmalog_context"@);
    assert(tool_list()[10].0 == "lemmalog_dump"@);
    assert(tool_list()[11].0 == "lemmalog_save"@);
    assert(tool_list()[12].0 == "lemmalog_run"@);
}

// ------------------------------------------------------------------ requests

/// What a request asks for.
#[derive(Debug)]
pub enum Request {
    /// A notification, which gets no answer.
    Notification,
    /// The start of a session.
    Initialize,
    /// The list of the tools.
    ListTools,
    /// A call of a tool.
    CallTool,
    /// Nothing known, with the message of the error.
    Unknown(String),
}

/// The value of a [`Request`].
pub enum RequestV {
    Notification,
    Initialize,
    ListTools,
    CallTool,
    Unknown(Seq<char>),
}

impl View for Request {
    type V = RequestV;

    open spec fn view(&self) -> RequestV {
        match *self {
            Request::Notification => RequestV::Notification,
            Request::Initialize => RequestV::Initialize,
            Request::ListTools => RequestV::ListTools,
            Request::CallTool => RequestV::CallTool,
            Request::Unknown(m) => RequestV::Unknown(m@),
        }
    }
}

/// The request with a method. Without an id it is a notification.
pub open spec fn request_kind(method: Seq<char>, has_id: bool) -> RequestV {
    if !has_id {
        RequestV::Notification
    } else if method == "initialize"@ {
        RequestV::Initialize
    } else if method == "tools/list"@ {
        RequestV::ListTools
    } else if method == "tools/call"@ {
        RequestV::CallTool
    } else {
        RequestV::Unknown("unknown method "@ + debug_form(method))
    }
}

/// What a message asks for.
pub fn request_of(method: &str, has_id: bool) -> (r: Request)
    ensures
        r@ == request_kind(method@, has_id),
{
    if !has_id {
        Request::Notification
    } else if str_eq(method, "initialize") {
        Request::Initialize
    } else if str_eq(method, "tools/list") {
        Request::ListTools
    } else if str_eq(method, "tools/call") {
        Request::CallTool
    } else {
        Request::Unknown(about_quoted("unknown method ", method))
    }
}

} // verus!

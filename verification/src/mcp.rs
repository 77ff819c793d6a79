//! The read-only tool server for local agents (JSON-RPC over stdio).
//!
//! A request line is read into an [`RpcRequest`]; [`route`] decides which
//! answer it gets; for a tool call, [`plan_tool`] decides what to fetch, and
//! the replies are made from the fetched values.
use vstd::prelude::*;
use vstd::string::StringExecFns;
use crate::json::{
    json_is_valid, json_non_null_at, json_non_null_at_pointer, json_parses, json_str_at_pointer,
    json_string_at, json_u64_at, json_u64_at_pointer,
};
use crate::text::{chars_of, copy_range, occurs_at, str_eq, string_from_chars, trim};
use crate::vault::trimmed;

verus! {

/// The protocol revision the server speaks.
pub const PROTOCOL_VERSION: &'static str = "2024-11-05";

/// The JSON-RPC error code for an unknown method.
pub const METHOD_NOT_FOUND: i64 = -32601;

/// The most characters of a query or seed text that get embedded.
pub const MAX_QUERY_CHARS: usize = 2000;

/// The number of results a tool gives when the caller names none.
pub const DEFAULT_K: usize = 5;

/// What the server reads from a request.
pub struct RpcRequest {
    /// Whether the request has an id other than `null` (otherwise it is a
    /// notification and gets no answer).
    pub has_id: bool,
    /// The method (empty when missing).
    pub method: String,
    /// `params.name`: the tool called (empty when missing).
    pub tool: String,
    /// `params.arguments.rel`.
    pub rel: Option<String>,
    /// `params.arguments.query`.
    pub query: Option<String>,
    /// `params.arguments.k`.
    pub k: Option<u64>,
}

/// The view of an optional string.
pub open spec fn opt_string(o: Option<String>) -> Option<Seq<char>> {
    match o {
        Some(s) => Some(s@),
        None => None,
    }
}

/// A string looked up in a request, or the empty string.
pub open spec fn or_empty(o: Option<Seq<char>>) -> Seq<char> {
    match o {
        Some(s) => s,
        None => Seq::empty(),
    }
}

/// Reads a request line: `None` for a blank line or one that is not JSON.
pub fn read_request(line: &str) -> (r: Option<RpcRequest>)
    ensures
        ({
            let t = trim(line@);
            if t.len() == 0 || !json_parses(t) {
                r is None
            } else {
                r matches Some(q) && {
                    &&& q.has_id == json_non_null_at(t, "/id"@)
                    &&& q.method@ == or_empty(json_string_at(t, "/method"@))
                    &&& q.tool@ == or_empty(json_string_at(t, "/params/name"@))
                    &&& opt_string(q.rel) == json_string_at(t, "/params/arguments/rel"@)
                    &&& opt_string(q.query) == json_string_at(t, "/params/arguments/query"@)
                    &&& q.k == json_u64_at(t, "/params/arguments/k"@)
                }
            }
        }),
{
    let t = trimmed(line);
    let tv = chars_of(t.as_str());
    if tv.len() == 0 || !json_is_valid(t.as_str()) {
        return None;
    }
    let method = match json_str_at_pointer(t.as_str(), "/method") {
        Some(m) => m,
        None => String::new(),
    };
    let tool = match json_str_at_pointer(t.as_str(), "/params/name") {
        Some(m) => m,
        None => String::new(),
    };
    Some(
        RpcRequest {
            has_id: json_non_null_at_pointer(t.as_str(), "/id"),
            method,
            tool,
            rel: json_str_at_pointer(t.as_str(), "/params/arguments/rel"),
            query: json_str_at_pointer(t.as_str(), "/params/arguments/query"),
            k: json_u64_at_pointer(t.as_str(), "/params/arguments/k"),
        },
    )
}

/// Which answer a request gets.
pub enum Route {
    /// A notification: no answer at all.
    Silent,
    /// The handshake: protocol version, capabilities, server name.
    Initialize,
    /// An empty result.
    Ping,
    /// The list of tools.
    ListTools,
    /// The result of a tool call.
    CallTool,
    /// The error for an unknown method.
    MethodNotFound,
}

/// Routes a request by its id and method.
pub fn route(has_id: bool, method: &str) -> (r: Route)
    ensures
        !has_id ==> r is Silent,
        has_id && method@ == "initialize"@ ==> r is Initialize,
        has_id && method@ == "ping"@ ==> r is Ping,
        has_id && method@ == "tools/list"@ ==> r is ListTools,
        has_id && method@ == "tools/call"@ ==> r is CallTool,
        has_id && method@ != "initialize"@ && method@ != "ping"@ && method@ != "tools/list"@
            && method@ != "tools/call"@ ==> r is MethodNotFound,
{
    proof {
        reveal_strlit("initialize");
        reveal_strlit("ping");
        reveal_strlit("tools/list");
        reveal_strlit("tools/call");
        assert("initialize"@.len() == 10 && "ping"@.len() == 4);
        assert("tools/list"@.len() == 10 && "tools/call"@.len() == 10);
        assert("tools/list"@[6] != "tools/call"@[6]);
        assert("initialize"@[0] != "tools/list"@[0]);
    }
    if !has_id {
        Route::Silent
    } else if str_eq(method, "initialize") {
        Route::Initialize
    } else if str_eq(method, "ping") {
        Route::Ping
    } else if str_eq(method, "tools/list") {
        Route::ListTools
    } else if str_eq(method, "tools/call") {
        Route::CallTool
    } else {
        Route::MethodNotFound
    }
}

/// The number of results asked for: `k` when given and not zero, else the
/// default.
pub open spec fn effective_k_spec(k: Option<u64>, default: usize) -> usize {
    match k {
        Some(n) => if (n as usize) > 0 {
            n as usize
        } else {
            default
        },
        None => default,
    }
}

/// Executable [`effective_k_spec`].
pub fn effective_k(k: Option<u64>, default: usize) -> (r: usize)
    ensures
        r == effective_k_spec(k, default),
{
    match k {
        Some(n) => {
            let c = n as usize;
            if c > 0 {
                c
            } else {
                default
            }
        },
        None => default,
    }
}

/// At most the first [`MAX_QUERY_CHARS`] characters of `s`.
pub open spec fn capped(s: Seq<char>) -> Seq<char> {
    if s.len() <= MAX_QUERY_CHARS {
        s
    } else {
        s.subrange(0, MAX_QUERY_CHARS as int)
    }
}

/// The text that gets embedded for a query or a seed note: at most its first
/// [`MAX_QUERY_CHARS`] characters, so it fits the embedding model's context.
pub fn cap_query(s: &str) -> (r: String)
    ensures
        r@ == capped(s@),
{
    let v = chars_of(s);
    let n = if v.len() <= MAX_QUERY_CHARS {
        v.len()
    } else {
        MAX_QUERY_CHARS
    };
    assert(v@.subrange(0, v.len() as int) =~= v@);
    string_from_chars(&copy_range(&v, 0, n))
}

/// What a tool call is to do.
pub enum ToolPlan {
    /// List the notes.
    ListNotes,
    /// Read one note.
    ReadNote {
        /// Its vault-relative path.
        rel: String,
    },
    /// Search the vault for a query.
    Search {
        /// The query, capped.
        query: String,
        /// How many results.
        k: usize,
    },
    /// Find the notes related to one note.
    Related {
        /// The vault-relative path of the seed note.
        rel: String,
        /// How many results.
        k: usize,
    },
    /// Answer with an error.
    Fail {
        /// The error text.
        message: String,
    },
}

/// Decides what a tool call does from the tool's name and arguments.
pub fn plan_tool(tool: &str, rel: Option<&str>, query: Option<&str>, k: Option<u64>) -> (r: ToolPlan)
    ensures
        tool@ == "list_notes"@ ==> r is ListNotes,
        tool@ == "read_note"@ ==> match rel {
            Some(x) => r matches ToolPlan::ReadNote { rel: y } && y@ == x@,
            None => r matches ToolPlan::Fail { message } && message@
                == "missing required argument: rel"@,
        },
        tool@ == "search"@ ==> match query {
            Some(x) => r matches ToolPlan::Search { query: y, k: n } && y@ == capped(x@) && n
                == effective_k_spec(k, DEFAULT_K),
            None => r matches ToolPlan::Fail { message } && message@
                == "missing required argument: query"@,
        },
        tool@ == "related_notes"@ ==> match rel {
            Some(x) => r matches ToolPlan::Related { rel: y, k: n } && y@ == x@ && n
                == effective_k_spec(k, DEFAULT_K),
            None => r matches ToolPlan::Fail { message } && message@
                == "missing required argument: rel"@,
        },
        tool@ != "list_notes"@ && tool@ != "read_note"@ && tool@ != "search"@ && tool@
            != "related_notes"@ ==> (r matches ToolPlan::Fail { message } && message@
            == "unknown tool: "@ + tool@),
        tool_names().contains(tool@) <==> !(r matches ToolPlan::Fail { message } && message@
            == "unknown tool: "@ + tool@),
{
    proof {
        reveal_strlit("list_notes");
        reveal_strlit("read_note");
        reveal_strlit("search");
        reveal_strlit("related_notes");
        assert("list_notes"@.len() == 10 && "read_note"@.len() == 9);
        assert("search"@.len() == 6 && "related_notes"@.len() == 13);
    }
    let r = if str_eq(tool, "list_notes") {
        ToolPlan::ListNotes
    } else if str_eq(tool, "read_note") {
        match rel {
            Some(x) => ToolPlan::ReadNote { rel: x.to_string() },
            None => ToolPlan::Fail { message: "missing required argument: rel".to_string() },
        }
    } else if str_eq(tool, "search") {
        match query {
            Some(x) => ToolPlan::Search { query: cap_query(x), k: effective_k(k, DEFAULT_K) },
            None => ToolPlan::Fail { message: "missing required argument: query".to_string() },
        }
    } else if str_eq(tool, "related_notes") {
        match rel {
            Some(x) => ToolPlan::Related { rel: x.to_string(), k: effective_k(k, DEFAULT_K) },
            None => ToolPlan::Fail { message: "missing required argument: rel".to_string() },
        }
    } else {
        let mut m = String::new();
        m.append("unknown tool: ");
        m.append(tool);
        ToolPlan::Fail { message: m }
    };
    proof {
        reveal_strlit("unknown tool: ");
        reveal_strlit("missing required argument: rel");
        reveal_strlit("missing required argument: query");
        let names = tool_names();
        let u = "unknown tool: "@ + tool@;
        assert(u[0] == 'u');
        assert("missing required argument: rel"@[0] == 'm');
        assert("missing required argument: query"@[0] == 'm');
        if names.contains(tool@) {
            if r is Fail {
                assert(r->message@[0] == 'm');
            }
        } else {
            assert(names[0] == "list_notes"@ && names[1] == "read_note"@ && names[2] == "search"@
                && names[3] == "related_notes"@);
            if tool@ == "list_notes"@ || tool@ == "read_note"@ || tool@ == "search"@ || tool@
                == "related_notes"@ {
                assert(names.contains(tool@));
            }
        }
    }
    r
}

/// The names of the tools the server offers, in the order it lists them.
/// Every one of them only reads.
pub open spec fn tool_names() -> Seq<Seq<char>> {
    seq!["list_notes"@, "read_note"@, "search"@, "related_notes"@]
}

/// One argument of a tool.
pub struct ToolArg {
    /// The argument's name.
    pub name: String,
    /// Its JSON type: `string` or `integer`.
    pub kind: String,
    /// What it means, when the listing says it.
    pub description: Option<String>,
}

/// One tool as the server lists it.
pub struct ToolSpec {
    /// The tool's name.
    pub name: String,
    /// What it does.
    pub description: String,
    /// Its arguments.
    pub args: Vec<ToolArg>,
    /// The names of the arguments it requires.
    pub required: Vec<String>,
}

/// Whether `a` is the argument `name` of JSON type `kind` with the
/// description `description`.
pub open spec fn arg_is(a: ToolArg, name: Seq<char>, kind: Seq<char>, description: Option<Seq<char>>) -> bool {
    &&& a.name@ == name
    &&& a.kind@ == kind
    &&& opt_string(a.description) == description
}

fn arg(name: &str, kind: &str, description: Option<&str>) -> (r: ToolArg)
    ensures
        r.name@ == name@,
        r.kind@ == kind@,
        opt_string(r.description) == match description {
            Some(d) => Some(d@),
            None => None,
        },
{
    ToolArg {
        name: name.to_string(),
        kind: kind.to_string(),
        description: match description {
            Some(d) => Some(d.to_string()),
            None => None,
        },
    }
}

/// The tools the server lists: exactly the four read-only tools that
/// [`plan_tool`] dispatches, with their arguments.
pub fn tool_specs() -> (r: Vec<ToolSpec>)
    ensures
        r.len() == 4,
        forall|i: int| 0 <= i < 4 ==> (#[trigger] r@[i]).name@ == tool_names()[i],
        r@[0].description@ == "List every note in the vault (vault-relative paths). No arguments."@,
        r@[0].args.len() == 0,
        r@[0].required.deep_view() == Seq::<Seq<char>>::empty(),
        r@[1].description@ == "Read a note's full Markdown by its vault-relative path (e.g. \"ai/ideas.md\")."@,
        r@[1].args.len() == 1,
        arg_is(r@[1].args@[0], "rel"@, "string"@, Some("vault-relative path"@)),
        r@[1].required.deep_view() == seq!["rel"@],
        r@[2].description@ == "Semantic search across the vault for a free-text query. Returns the most relevant notes. Requires the Commonplace app to be running."@,
        r@[2].args.len() == 2,
        arg_is(r@[2].args@[0], "query"@, "string"@, None),
        arg_is(r@[2].args@[1], "k"@, "integer"@, Some("max results (default 5)"@)),
        r@[2].required.deep_view() == seq!["query"@],
        r@[3].description@ == "Find notes most similar in meaning to a given note (by its vault-relative path). Requires the Commonplace app to be running."@,
        r@[3].args.len() == 2,
        arg_is(r@[3].args@[0], "rel"@, "string"@, Some("vault-relative path of the seed note"@)),
        arg_is(r@[3].args@[1], "k"@, "integer"@, Some("max results (default 5)"@)),
        r@[3].required.deep_view() == seq!["rel"@],
{
    let mut r: Vec<ToolSpec> = Vec::new();
    r.push(
        ToolSpec {
            name: "list_notes".to_string(),
            description: "List every note in the vault (vault-relative paths). No arguments.".to_string(),
            args: Vec::new(),
            required: Vec::new(),
        },
    );
    let mut a1: Vec<ToolArg> = Vec::new();
    a1.push(arg("rel", "string", Some("vault-relative path")));
    let mut q1: Vec<String> = Vec::new();
    q1.push("rel".to_string());
    r.push(
        ToolSpec {
            name: "read_note".to_string(),
            description: "Read a note's full Markdown by its vault-relative path (e.g. \"ai/ideas.md\").".to_string(),
            args: a1,
            required: q1,
        },
    );
    let mut a2: Vec<ToolArg> = Vec::new();
    a2.push(arg("query", "string", None));
    a2.push(arg("k", "integer", Some("max results (default 5)")));
    let mut q2: Vec<String> = Vec::new();
    q2.push("query".to_string());
    r.push(
        ToolSpec {
            name: "search".to_string(),
            description: "Semantic search across the vault for a free-text query. Returns the most relevant notes. Requires the Commonplace app to be running.".to_string(),
            args: a2,
            required: q2,
        },
    );
    let mut a3: Vec<ToolArg> = Vec::new();
    a3.push(arg("rel", "string", Some("vault-relative path of the seed note")));
    a3.push(arg("k", "integer", Some("max results (default 5)")));
    let mut q3: Vec<String> = Vec::new();
    q3.push("rel".to_string());
    r.push(
        ToolSpec {
            name: "related_notes".to_string(),
            description: "Find notes most similar in meaning to a given note (by its vault-relative path). Requires the Commonplace app to be running.".to_string(),
            args: a3,
            required: q3,
        },
    );
    assert(r@[1].required.deep_view() =~= seq!["rel"@]);
    assert(r@[2].required.deep_view() =~= seq!["query"@]);
    assert(r@[3].required.deep_view() =~= seq!["rel"@]);
    assert(r@[0].required.deep_view() =~= Seq::<Seq<char>>::empty());
    r
}


/// The number of rows fetched for a search that wants `k` notes: six times
/// as many, so that one passage per note still leaves `k` notes.
pub fn fetch_count(k: usize) -> (r: usize)
    requires
        k * 6 <= usize::MAX,
    ensures
        r == k * 6,
{
    k * 6
}

/// Where an argument flag is, from position `i` on: `None` when no argument
/// names the vault; `Some(v)` when the first one that does gives `v` (a
/// `--vault` flag at the very end gives no vault).
pub open spec fn vault_flag_from(args: Seq<Seq<char>>, i: int) -> Option<Option<Seq<char>>>
    decreases args.len() - i,
{
    if i < 0 || i >= args.len() {
        None
    } else if args[i] == "--vault"@ {
        if i + 1 < args.len() {
            Some(Some(args[i + 1]))
        } else {
            Some(None)
        }
    } else if occurs_at(args[i], "--vault="@, 0) {
        Some(Some(args[i].subrange(8, args[i].len() as int)))
    } else {
        vault_flag_from(args, i + 1)
    }
}

/// The vault to serve: from the command line (`--vault <path>` or
/// `--vault=<path>`, after the program name), else from the environment.
pub open spec fn vault_choice(args: Seq<Seq<char>>, env: Option<Seq<char>>) -> Option<Seq<char>> {
    match vault_flag_from(args, 1) {
        Some(v) => v,
        None => env,
    }
}

/// Executable [`vault_choice`]; `args` holds the program name first.
pub fn parse_vault(args: &Vec<String>, env: Option<&str>) -> (r: Option<String>)
    ensures
        opt_string(r) == vault_choice(
            args.deep_view(),
            match env {
                Some(e) => Some(e@),
                None => None,
            },
        ),
{
    proof {
        reveal_strlit("--vault");
        reveal_strlit("--vault=");
    }
    let ghost av = args.deep_view();
    let mut i: usize = 1;
    while i < args.len()
        invariant
            av == args.deep_view(),
            av.len() == args.len(),
            1 <= i,
            vault_flag_from(av, 1) == vault_flag_from(av, i as int),
        decreases args.len() - i,
    {
        let a = chars_of(args[i].as_str());
        assert(a@ == av[i as int]);
        let is_flag = a.len() == 7 && a[0] == '-' && a[1] == '-' && a[2] == 'v' && a[3] == 'a' && a[4]
            == 'u' && a[5] == 'l' && a[6] == 't';
        proof {
            reveal_strlit("--vault");
            let f = "--vault"@;
            assert(f =~= seq!['-', '-', 'v', 'a', 'u', 'l', 't']);
            if is_flag {
                assert(a@ =~= f);
            } else if a@ == f {
                assert(a@[0] == f[0] && a@[1] == f[1] && a@[2] == f[2] && a@[3] == f[3] && a@[4]
                    == f[4] && a@[5] == f[5] && a@[6] == f[6]);
            }
        }
        if is_flag {
            if i + 1 < args.len() {
                return Some(args[i + 1].clone());
            }
            return None;
        }
        let has_prefix = a.len() >= 8 && a[0] == '-' && a[1] == '-' && a[2] == 'v' && a[3] == 'a'
            && a[4] == 'u' && a[5] == 'l' && a[6] == 't' && a[7] == '=';
        proof {
            reveal_strlit("--vault=");
            let f = "--vault="@;
            assert(f =~= seq!['-', '-', 'v', 'a', 'u', 'l', 't', '=']);
            if has_prefix {
                assert(occurs_at(a@, f, 0));
            } else if occurs_at(a@, f, 0) {
                assert(a@[0int + 0] == f[0] && a@[0int + 1] == f[1] && a@[0int + 2] == f[2]
                    && a@[0int + 3] == f[3] && a@[0int + 4] == f[4] && a@[0int + 5] == f[5]
                    && a@[0int + 6] == f[6] && a@[0int + 7] == f[7]);
            }
        }
        if has_prefix {
            return Some(string_from_chars(&copy_range(&a, 8, a.len())));
        }
        i = i + 1;
    }
    match env {
        Some(e) => Some(e.to_string()),
        None => None,
    }
}

/// A tool's answer: its text, and whether it is an error.
pub struct ToolReply {
    /// The text.
    pub text: String,
    /// Whether the call failed.
    pub is_error: bool,
}

/// A successful answer.
pub fn tool_text(text: String) -> (r: ToolReply)
    ensures
        r.text == text,
        !r.is_error,
{
    ToolReply { text, is_error: false }
}

/// A failed answer.
pub fn tool_error(text: String) -> (r: ToolReply)
    ensures
        r.text == text,
        r.is_error,
{
    ToolReply { text, is_error: true }
}

/// The answer to a tool call once its outcome is known: the text on
/// success, the error text on failure.
pub fn reply_of(outcome: Result<String, String>) -> (r: ToolReply)
    ensures
        outcome matches Ok(t) ==> r.text == t && !r.is_error,
        outcome matches Err(e) ==> r.text == e && r.is_error,
{
    match outcome {
        Ok(t) => tool_text(t),
        Err(e) => tool_error(e),
    }
}

} // verus!

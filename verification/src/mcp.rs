use vstd::prelude::*;
use crate::extractor::{Function, caller_positions, opt_view, qualified_name, views};
use crate::search::{Hit, search, tokens};
use crate::text::{decimal, decimal_string, str_eq, take_chars};

verus! {

// ---------------------------------------------------------------------------
// Requests and replies of the tool server, as plain values.
// ---------------------------------------------------------------------------

/// The arguments of a tool call that the tools read (each `None` when absent or of
/// another JSON type).
pub struct ToolArgs {
    pub question: Option<String>,
    pub limit: Option<u64>,
    pub mode: Option<String>,
    pub name: Option<String>,
}

/// The parameters of a request that the server reads.
pub struct Params {
    /// `protocolVersion`, for `initialize`.
    pub protocol_version: Option<String>,
    /// `name`, for `tools/call`.
    pub tool_name: Option<String>,
    /// `arguments`, for `tools/call`.
    pub arguments: ToolArgs,
}

/// What a tool call produces.
pub enum ToolResult {
    /// The tool's text.
    Text(String),
    /// The tool failed with this message.
    Failure(String),
    /// A search by meaning is asked for; the caller embeds the question and searches.
    Semantic { question: String, limit: usize, hybrid: bool },
}

/// The reply to a request.
pub enum Reply {
    /// `initialize`: the protocol version to answer with.
    Initialized { protocol_version: String },
    /// `ping`.
    Pong,
    /// `tools/list`: the list of tools.
    ToolList,
    /// `tools/call`: the tool's text, or its error message.
    ToolText { text: String, is_error: bool },
    /// `tools/call` for a search by meaning, which the caller completes.
    SemanticSearch { question: String, limit: usize, hybrid: bool },
    /// A JSON-RPC error.
    Error { code: i32, message: String },
}

/// The JSON-RPC error code for an unknown method.
pub const METHOD_NOT_FOUND: i32 = -32601;

// ---------------------------------------------------------------------------
// Paths shown relative to the project root.
// ---------------------------------------------------------------------------

/// The path `Path::strip_prefix` leaves of `file` once `root` is taken off, by the path
/// rules of the platform the crate is built for; `None` when `root` is not a prefix of it.
pub uninterp spec fn stripped(root: Seq<char>, file: Seq<char>) -> Option<Seq<char>>;

/// Calls `Path::strip_prefix` and turns the result into a string; named `stripped`.
#[verifier::external_body]
fn strip_path_prefix(root: &str, file: &str) -> (res: Option<String>)
    ensures
        opt_view(res) == stripped(root@, file@),
{
    std::path::Path::new(file).strip_prefix(root).ok().map(|p| p.display().to_string())
}

/// `file` relative to `root`, or `file` itself when it is not under `root`.
pub open spec fn rel_of(root: Seq<char>, file: Seq<char>) -> Seq<char> {
    match stripped(root, file) {
        Some(r) => r,
        None => file,
    }
}

/// `file` shown relative to `root` when it lies under it.
pub fn rel(root: &str, file: &str) -> (res: String)
    ensures
        res@ == rel_of(root@, file@),
{
    match strip_path_prefix(root, file) {
        Some(r) => r,
        None => file.to_owned(),
    }
}

// ---------------------------------------------------------------------------
// The text the tools answer with.
// ---------------------------------------------------------------------------

/// At most the first `n` characters.
pub open spec fn prefix_of(s: Seq<char>, n: nat) -> Seq<char> {
    if s.len() <= n {
        s
    } else {
        s.take(n as int)
    }
}

/// The line for the `k`-th hit (counted from 0): `"{k+1}. {file}:{line}  {name}\n"`,
/// then `"   {doc}\n"` with the first 160 characters of its documentation, if it has any.
pub open spec fn hit_line(root: Seq<char>, k: nat, f: Function) -> Seq<char> {
    decimal(k + 1) + ". "@ + rel_of(root, f.file@) + ":"@ + decimal(f.line as nat) + "  "@
        + qualified_name(opt_view(f.owner), f.name@) + "\n"@ + (if f.doc@.len() > 0 {
        "   "@ + prefix_of(f.doc@, 160) + "\n"@
    } else {
        Seq::empty()
    })
}

/// The lines of the first `n` hits.
pub open spec fn hit_lines(root: Seq<char>, hits: Seq<Hit>, n: int) -> Seq<char>
    decreases n,
{
    if n <= 0 {
        Seq::empty()
    } else {
        hit_lines(root, hits, n - 1) + hit_line(root, (n - 1) as nat, *hits[n - 1].func)
    }
}

/// The text for a list of hits: their lines, or a hint when there are none.
pub open spec fn hits_text(root: Seq<char>, hits: Seq<Hit>) -> Seq<char> {
    if hits.len() == 0 {
        "No results. Try different words."@
    } else {
        hit_lines(root, hits, hits.len() as int)
    }
}

/// The line for the `k`-th hit (counted from 0) of the function `f`.
pub fn hit_line_text(root: &str, k: usize, f: &Function) -> (res: String)
    requires
        k < usize::MAX,
    ensures
        res@ == hit_line(root@, k as nat, *f),
{
    let mut text = decimal_string(k + 1);
    text.append(". ");
    text.append(rel(root, f.file.as_str()).as_str());
    text.append(":");
    text.append(decimal_string(f.line).as_str());
    text.append("  ");
    text.append(f.full_name().as_str());
    text.append("\n");
    let ghost head = text@;
    if f.doc.as_str().is_empty() == false {
        let d = take_chars(f.doc.as_str(), 160);
        text.append("   ");
        text.append(d.as_str());
        text.append("\n");
        assert(text@ =~= head + ("   "@ + prefix_of(f.doc@, 160) + "\n"@));
    } else {
        assert(text@ =~= head + Seq::<char>::empty());
    }
    text
}

/// The text that lists the hits of a search, numbered from 1.
pub fn format_hits(root: &str, hits: &Vec<Hit>) -> (res: String)
    ensures
        res@ == hits_text(root@, hits@),
{
    if hits.len() == 0 {
        return String::from_str("No results. Try different words.");
    }
    let mut text = String::new();
    let mut i: usize = 0;
    while i < hits.len()
        invariant
            0 <= i <= hits@.len(),
            text@ == hit_lines(root@, hits@, i as int),
        decreases hits@.len() - i,
    {
        let line = hit_line_text(root, i, hits[i].func);
        text.append(line.as_str());
        i = i + 1;
    }
    text
}

/// The line for a caller's function `f`.
pub fn caller_line_text(root: &str, f: &Function) -> (res: String)
    ensures
        res@ == caller_line(root@, *f),
{
    let mut text = rel(root, f.file.as_str());
    text.append(":");
    text.append(decimal_string(f.line).as_str());
    text.append("  ");
    text.append(f.full_name().as_str());
    text.append("\n");
    text
}

/// The line for a caller: `"{file}:{line}  {name}\n"`.
pub open spec fn caller_line(root: Seq<char>, f: Function) -> Seq<char> {
    rel_of(root, f.file@) + ":"@ + decimal(f.line as nat) + "  "@ + qualified_name(opt_view(f.owner), f.name@)
        + "\n"@
}

/// The lines for the functions at the given positions.
pub open spec fn caller_lines(root: Seq<char>, funcs: Seq<Function>, pos: Seq<int>, n: int) -> Seq<char>
    decreases n,
{
    if n <= 0 {
        Seq::empty()
    } else {
        caller_lines(root, funcs, pos, n - 1) + caller_line(root, funcs[pos[n - 1]])
    }
}

/// The answer of `find_callers` for `name`: the callers' lines under a count, or a hint
/// when nothing calls it.
pub open spec fn callers_text(root: Seq<char>, funcs: Seq<Function>, name: Seq<char>) -> Seq<char> {
    let pos = caller_positions(funcs, name, funcs.len() as int);
    if pos.len() == 0 {
        "No function calls `"@ + name + "`. It may be a file name or a misspelling."@
    } else {
        decimal(pos.len()) + " callers of `"@ + name + "`:\n"@ + caller_lines(root, funcs, pos, pos.len() as int)
    }
}

/// The positions in a caller list are positions of the functions.
proof fn lemma_caller_positions_range(funcs: Seq<Function>, name: Seq<char>, n: int)
    requires
        n <= funcs.len(),
    ensures
        forall|k: int| 0 <= k < caller_positions(funcs, name, n).len() ==> 0 <= #[trigger] caller_positions(funcs, name, n)[k] < n,
        caller_positions(funcs, name, n).len() <= if n < 0 { 0 } else { n },
    decreases n,
{
    if n > 0 {
        lemma_caller_positions_range(funcs, name, n - 1);
    }
}

/// The answer of the `find_callers` tool.
pub fn find_callers_text(root: &str, funcs: &[Function], name: &str) -> (res: String)
    ensures
        res@ == callers_text(root@, funcs@, name@),
{
    let pos = crate::extractor::callers_of(funcs, name);
    let ghost p = caller_positions(funcs@, name@, funcs@.len() as int);
    proof {
        lemma_caller_positions_range(funcs@, name@, funcs@.len() as int);
        assert(pos@.len() == p.len());
    }
    let mut text = String::new();
    let mut i: usize = 0;
    while i < pos.len()
        invariant
            pos@.map_values(|i: usize| i as int) == p,
            forall|k: int| 0 <= k < p.len() ==> 0 <= #[trigger] p[k] < funcs@.len(),
            0 <= i <= pos@.len(),
            text@ == caller_lines(root@, funcs@, p, i as int),
        decreases pos@.len() - i,
    {
        assert(p[i as int] == pos@[i as int] as int);
        let line = caller_line_text(root, &funcs[pos[i]]);
        text.append(line.as_str());
        i = i + 1;
    }
    if pos.len() == 0 {
        let mut s = String::from_str("No function calls `");
        s.append(name);
        s.append("`. It may be a file name or a misspelling.");
        s
    } else {
        let mut s = decimal_string(pos.len());
        s.append(" callers of `");
        s.append(name);
        s.append("`:\n");
        s.append(text.as_str());
        s
    }
}

// ---------------------------------------------------------------------------
// Tool calls and requests.
// ---------------------------------------------------------------------------

/// The number of results asked for, 5 when absent, kept between 1 and 20.
pub open spec fn clamped_limit(limit: Option<u64>) -> usize {
    let l = match limit {
        Some(l) => l,
        None => 5,
    };
    if l < 1 {
        1
    } else if l > 20 {
        20
    } else {
        l as usize
    }
}

/// The search mode asked for, `semantic` when absent.
pub open spec fn mode_of(mode: Option<String>) -> Seq<char> {
    match mode {
        Some(m) => m@,
        None => "semantic"@,
    }
}

/// What the `search_code` tool gives for `args`: a failure without a question; the text of
/// a keyword search in `lexical` mode; otherwise a search by meaning for the caller to run.
pub open spec fn search_code_gives(root: Seq<char>, funcs: Seq<Function>, args: ToolArgs, res: ToolResult) -> bool {
    match args.question {
        None => res matches ToolResult::Failure(m) && m@ == "missing 'question'"@,
        Some(q) => if mode_of(args.mode) == "lexical"@ {
            res matches ToolResult::Text(t) && exists|hits: Seq<Hit>|
                crate::search::ranked_hits(funcs, q@, clamped_limit(args.limit), hits) && #[trigger] hits_text(root, hits) == t@
        } else {
            res matches ToolResult::Semantic { question, limit, hybrid } && question@ == q@ && limit
                == clamped_limit(args.limit) && hybrid == (mode_of(args.mode) == "hybrid"@)
        },
    }
}

/// What the `find_callers` tool gives for `args`.
pub open spec fn find_callers_gives(root: Seq<char>, funcs: Seq<Function>, args: ToolArgs, res: ToolResult) -> bool {
    match args.name {
        None => res matches ToolResult::Failure(m) && m@ == "missing 'name'"@,
        Some(n) => res matches ToolResult::Text(t) && t@ == callers_text(root, funcs, n@),
    }
}

/// What calling the tool `name` gives.
pub open spec fn tool_gives(root: Seq<char>, funcs: Seq<Function>, name: Seq<char>, args: ToolArgs, res: ToolResult) -> bool {
    if name == "search_code"@ {
        search_code_gives(root, funcs, args, res)
    } else if name == "find_callers"@ {
        find_callers_gives(root, funcs, args, res)
    } else {
        res matches ToolResult::Failure(m) && m@ == "Unknown tool: "@ + name
    }
}

/// Runs the tool `name` on the functions of the project at `root`.
pub fn call_tool(name: &str, args: &ToolArgs, root: &str, funcs: &[Function]) -> (res: ToolResult)
    ensures
        tool_gives(root@, funcs@, name@, *args, res),
{
    proof {
        reveal_strlit("search_code");
        reveal_strlit("find_callers");
        assert("search_code"@.len() == 11 && "find_callers"@.len() == 12);
    }
    if str_eq(name, "search_code") {
        let question = match &args.question {
            Some(q) => q,
            None => return ToolResult::Failure(String::from_str("missing 'question'")),
        };
        let l = match args.limit {
            Some(l) => l,
            None => 5,
        };
        let limit: usize = if l < 1 {
            1
        } else if l > 20 {
            20
        } else {
            l as usize
        };
        let lexical = match &args.mode {
            Some(m) => str_eq(m.as_str(), "lexical"),
            None => false,
        };
        let hybrid = match &args.mode {
            Some(m) => str_eq(m.as_str(), "hybrid"),
            None => false,
        };
        proof {
            reveal_strlit("semantic");
            reveal_strlit("lexical");
            reveal_strlit("hybrid");
            assert("semantic"@.len() == 8 && "lexical"@.len() == 7 && "hybrid"@.len() == 6);
        }
        if lexical {
            let hits = search(funcs, question.as_str(), limit);
            let text = format_hits(root, &hits);
            assert(crate::search::ranked_hits(funcs@, question@, limit, hits@) && hits_text(root@, hits@) == text@);
            let r = ToolResult::Text(text);
            assert(mode_of(args.mode) == "lexical"@);
            assert(limit == clamped_limit(args.limit));
            assert(search_code_gives(root@, funcs@, *args, r));
            r
        } else {
            let r = ToolResult::Semantic { question: question.clone(), limit, hybrid };
            assert(mode_of(args.mode) != "lexical"@);
            assert(limit == clamped_limit(args.limit));
            assert(hybrid == (mode_of(args.mode) == "hybrid"@));
            assert(search_code_gives(root@, funcs@, *args, r));
            r
        }
    } else if str_eq(name, "find_callers") {
        match &args.name {
            Some(n) => ToolResult::Text(find_callers_text(root, funcs, n.as_str())),
            None => ToolResult::Failure(String::from_str("missing 'name'")),
        }
    } else {
        let mut m = String::from_str("Unknown tool: ");
        m.append(name);
        ToolResult::Failure(m)
    }
}

/// The reply that carries the result of a tool call: its text, flagged as an error when
/// the tool failed, or the search by meaning that the caller completes.
pub open spec fn reply_for_tool(t: ToolResult, res: Reply) -> bool {
    match t {
        ToolResult::Text(s) => res matches Reply::ToolText { text, is_error } && text@ == s@ && !is_error,
        ToolResult::Failure(s) => res matches Reply::ToolText { text, is_error } && text@ == s@ && is_error,
        ToolResult::Semantic { question, limit, hybrid } => res matches Reply::SemanticSearch {
            question: q2,
            limit: l2,
            hybrid: h2,
        } && q2@ == question@ && l2 == limit && h2 == hybrid,
    }
}

/// The tool a `tools/call` request names; empty when it names none.
pub open spec fn tool_name_of(params: Params) -> Seq<char> {
    match params.tool_name {
        Some(n) => n@,
        None => Seq::empty(),
    }
}

/// The reply to a request for `method`.
pub open spec fn reply_to(root: Seq<char>, funcs: Seq<Function>, method: Seq<char>, params: Params, res: Reply) -> bool {
    if method == "initialize"@ {
        res matches Reply::Initialized { protocol_version } && protocol_version@ == match params.protocol_version {
            Some(v) => v@,
            None => "2024-11-05"@,
        }
    } else if method == "ping"@ {
        res is Pong
    } else if method == "tools/list"@ {
        res is ToolList
    } else if method == "tools/call"@ {
        exists|t: ToolResult|
            #[trigger] tool_gives(root, funcs, tool_name_of(params), params.arguments, t) && reply_for_tool(t, res)
    } else {
        res matches Reply::Error { code, message } && code == METHOD_NOT_FOUND && message@ == "Method not found: "@
            + method
    }
}

/// Answers one request of the tool server.
pub fn handle(method: &str, params: &Params, root: &str, funcs: &[Function]) -> (res: Reply)
    ensures
        reply_to(root@, funcs@, method@, *params, res),
{
    proof {
        reveal_strlit("initialize");
        reveal_strlit("ping");
        reveal_strlit("tools/list");
        reveal_strlit("tools/call");
        assert("initialize"@[0] == 'i' && "ping"@.len() == 4 && "initialize"@.len() == 10);
        assert("tools/list"@[0] == 't' && "tools/call"@[0] == 't' && "tools/list"@[6] == 'l' && "tools/call"@[6] == 'c');
        assert("tools/list"@.len() == 10 && "tools/call"@.len() == 10);
    }
    if str_eq(method, "initialize") {
        let v = match &params.protocol_version {
            Some(v) => v.clone(),
            None => String::from_str("2024-11-05"),
        };
        let r = Reply::Initialized { protocol_version: v };
        assert(reply_to(root@, funcs@, method@, *params, r));
        r
    } else if str_eq(method, "ping") {
        let r = Reply::Pong;
        assert(reply_to(root@, funcs@, method@, *params, r));
        r
    } else if str_eq(method, "tools/list") {
        let r = Reply::ToolList;
        assert(reply_to(root@, funcs@, method@, *params, r));
        r
    } else if str_eq(method, "tools/call") {
        let name = match &params.tool_name {
            Some(n) => n.clone(),
            None => String::new(),
        };
        let t = call_tool(name.as_str(), &params.arguments, root, funcs);
        let ghost tg = t;
        assert(tool_gives(root@, funcs@, name@, params.arguments, tg));
        let r = match t {
            ToolResult::Text(s) => Reply::ToolText { text: s, is_error: false },
            ToolResult::Failure(s) => Reply::ToolText { text: s, is_error: true },
            ToolResult::Semantic { question, limit, hybrid } => Reply::SemanticSearch { question, limit, hybrid },
        };
        assert(reply_for_tool(tg, r));
        assert(name@ == tool_name_of(*params));
        assert(reply_to(root@, funcs@, method@, *params, r));
        r
    } else {
        let mut m = String::from_str("Method not found: ");
        m.append(method);
        let r = Reply::Error { code: METHOD_NOT_FOUND, message: m };
        assert(reply_to(root@, funcs@, method@, *params, r));
        r
    }
}

// ---------------------------------------------------------------------------
// The tools the server advertises.
// ---------------------------------------------------------------------------

/// One property of a tool's input schema.
pub struct PropertySpec {
    pub name: String,
    /// Its JSON type: `string` or `integer`.
    pub kind: String,
    pub description: String,
    /// The values allowed, when they are listed (empty otherwise).
    pub choices: Vec<String>,
}

/// The view of a `PropertySpec`.
pub ghost struct PropertyFacts {
    pub name: Seq<char>,
    pub kind: Seq<char>,
    pub description: Seq<char>,
    pub choices: Seq<Seq<char>>,
}

impl View for PropertySpec {
    type V = PropertyFacts;

    open spec fn view(&self) -> PropertyFacts {
        PropertyFacts {
            name: self.name@,
            kind: self.kind@,
            description: self.description@,
            choices: views(self.choices@),
        }
    }
}

/// A tool as `tools/list` describes it.
pub struct ToolSpec {
    pub name: String,
    pub description: String,
    pub properties: Vec<PropertySpec>,
    /// The properties a call must give.
    pub required: Vec<String>,
}

/// The view of a `ToolSpec`.
pub ghost struct ToolFacts {
    pub name: Seq<char>,
    pub description: Seq<char>,
    pub properties: Seq<PropertyFacts>,
    pub required: Seq<Seq<char>>,
}

impl View for ToolSpec {
    type V = ToolFacts;

    open spec fn view(&self) -> ToolFacts {
        ToolFacts {
            name: self.name@,
            description: self.description@,
            properties: self.properties@.map_values(|p: PropertySpec| p@),
            required: views(self.required@),
        }
    }
}

/// The tools the server advertises: `search_code` (a question, an optional limit and mode)
/// and `find_callers` (a function name).
pub open spec fn advertised() -> Seq<ToolFacts> {
    seq![
        ToolFacts {
            name: "search_code"@,
            description: "Search the codebase by meaning. Describe what the code does in plain English (e.g. 'stop a running task') and get the most relevant functions with file and line."@,
            properties: seq![
                PropertyFacts {
                    name: "question"@,
                    kind: "string"@,
                    description: "What you are looking for, in plain English"@,
                    choices: seq![],
                },
                PropertyFacts {
                    name: "limit"@,
                    kind: "integer"@,
                    description: "Number of results (default 5, max 20)"@,
                    choices: seq![],
                },
                PropertyFacts {
                    name: "mode"@,
                    kind: "string"@,
                    description: "Default: semantic"@,
                    choices: seq!["semantic"@, "hybrid"@, "lexical"@],
                },
            ],
            required: seq!["question"@],
        },
        ToolFacts {
            name: "find_callers"@,
            description: "List the functions that call a function with the given name. Matches by name only, so common names like 'new' return many results."@,
            properties: seq![
                PropertyFacts {
                    name: "name"@,
                    kind: "string"@,
                    description: "Function name, e.g. 'poll_acquire'"@,
                    choices: seq![],
                },
            ],
            required: seq!["name"@],
        },
    ]
}

/// A property with no list of allowed values.
fn property(name: &str, kind: &str, description: &str) -> (res: PropertySpec)
    ensures
        res@ == (PropertyFacts { name: name@, kind: kind@, description: description@, choices: seq![] }),
{
    let res = PropertySpec {
        name: String::from_str(name),
        kind: String::from_str(kind),
        description: String::from_str(description),
        choices: Vec::new(),
    };
    assert(res@.choices =~= Seq::<Seq<char>>::empty());
    res
}

/// The tools the server advertises (`advertised`).
pub fn tools() -> (res: Vec<ToolSpec>)
    ensures
        res@.map_values(|t: ToolSpec| t@) == advertised(),
{
    let question = property("question", "string", "What you are looking for, in plain English");
    let limit = property("limit", "integer", "Number of results (default 5, max 20)");
    let mut mode = property("mode", "string", "Default: semantic");
    mode.choices = vec![String::from_str("semantic"), String::from_str("hybrid"), String::from_str("lexical")];
    let search_props = vec![question, limit, mode];
    let search_code = ToolSpec {
        name: String::from_str("search_code"),
        description: String::from_str(
            "Search the codebase by meaning. Describe what the code does in plain English (e.g. 'stop a running task') and get the most relevant functions with file and line.",
        ),
        properties: search_props,
        required: vec![String::from_str("question")],
    };
    let name = property("name", "string", "Function name, e.g. 'poll_acquire'");
    let callers_props = vec![name];
    let find_callers = ToolSpec {
        name: String::from_str("find_callers"),
        description: String::from_str(
            "List the functions that call a function with the given name. Matches by name only, so common names like 'new' return many results.",
        ),
        properties: callers_props,
        required: vec![String::from_str("name")],
    };
    let res = vec![search_code, find_callers];
    proof {
        let want = advertised();
        assert(views(res@[0].required@) =~= want[0].required);
        assert(views(res@[1].required@) =~= want[1].required);
        assert(views(res@[0].properties@[2].choices@) =~= want[0].properties[2].choices);
        assert(res@[0].properties@.map_values(|p: PropertySpec| p@) =~= want[0].properties);
        assert(res@[1].properties@.map_values(|p: PropertySpec| p@) =~= want[1].properties);
        assert(res@.map_values(|t: ToolSpec| t@) =~= want);
    }
    res
}

/// The call's arguments give the property `field`.
pub open spec fn arg_given(args: ToolArgs, field: Seq<char>) -> bool {
    if field == "question"@ {
        args.question is Some
    } else if field == "limit"@ {
        args.limit is Some
    } else if field == "mode"@ {
        args.mode is Some
    } else if field == "name"@ {
        args.name is Some
    } else {
        false
    }
}

/// Law: every advertised tool, called with every property its schema requires, is
/// accepted: it is neither an unknown tool nor missing an argument.
pub proof fn lemma_advertised_tools_accepted(
    root: Seq<char>,
    funcs: Seq<Function>,
    i: int,
    args: ToolArgs,
    res: ToolResult,
)
    requires
        0 <= i < advertised().len(),
        forall|k: int| 0 <= k < advertised()[i].required.len() ==> arg_given(args, #[trigger] advertised()[i].required[k]),
        tool_gives(root, funcs, advertised()[i].name, args, res),
    ensures
        !(res is Failure),
{
    reveal_strlit("search_code");
    reveal_strlit("find_callers");
    reveal_strlit("question");
    reveal_strlit("name");
    reveal_strlit("limit");
    reveal_strlit("mode");
    assert("search_code"@.len() == 11 && "find_callers"@.len() == 12);
    assert("question"@.len() == 8 && "name"@.len() == 4 && "limit"@.len() == 5 && "mode"@.len() == 4);
    assert("name"@[0] != "mode"@[0]);
    let req = advertised()[i].required;
    assert(arg_given(args, req[0]));
}

/// Law: a keyword `search_code` call searches with the limit it gives when that lies
/// between 1 and 20, so it lists that many functions, or every match when there are fewer;
/// with no limit it searches for 5, with 0 for 1, and above 20 for 20.
pub proof fn lemma_search_code_limit(root: Seq<char>, funcs: Seq<Function>, args: ToolArgs, res: ToolResult)
    requires
        tool_gives(root, funcs, "search_code"@, args, res),
        args.question is Some,
        args.mode matches Some(m) && m@ == "lexical"@,
    ensures
        res is Text,
        args.limit is Some && 1 <= args.limit->0 <= 20 ==> exists|hits: Seq<Hit>|
            {
                &&& #[trigger] crate::search::ranked_hits(funcs, args.question->0@, args.limit->0 as usize, hits)
                &&& hits_text(root, hits) == res->Text_0@
                &&& hits.len() <= args.limit->0
                &&& hits.len() < args.limit->0 ==> forall|i: int|
                    0 <= i < funcs.len() && crate::search::score(funcs[i], tokens(args.question->0@)) > 0
                        ==> exists|k: int| 0 <= k < hits.len() && *(#[trigger] hits[k]).func == funcs[i]
            },
        args.limit is None ==> exists|hits: Seq<Hit>|
            #[trigger] crate::search::ranked_hits(funcs, args.question->0@, 5, hits) && hits_text(root, hits) == res->Text_0@,
        args.limit is Some && args.limit->0 < 1 ==> exists|hits: Seq<Hit>|
            #[trigger] crate::search::ranked_hits(funcs, args.question->0@, 1, hits) && hits_text(root, hits) == res->Text_0@,
        args.limit is Some && args.limit->0 > 20 ==> exists|hits: Seq<Hit>|
            #[trigger] crate::search::ranked_hits(funcs, args.question->0@, 20, hits) && hits_text(root, hits) == res->Text_0@,
{
    reveal_strlit("search_code");
    reveal_strlit("find_callers");
    assert("search_code"@.len() == 11 && "find_callers"@.len() == 12);
    assert(mode_of(args.mode) == "lexical"@);
    let q = args.question->0;
    let hits = choose|hits: Seq<Hit>|
        crate::search::ranked_hits(funcs, q@, clamped_limit(args.limit), hits) && #[trigger] hits_text(root, hits) == res->Text_0@;
    crate::search::lemma_ranked_hits_cover(funcs, q@, clamped_limit(args.limit), hits);
}

/// Law: what each tool call gives apart from a keyword search. `search_code` without a
/// question fails with "missing 'question'"; with a question and no mode, or mode
/// `semantic` or `hybrid`, it hands the question back for a search by meaning (hybrid only
/// for `hybrid`) with a limit from 1 to 20; `find_callers` without a name fails with
/// "missing 'name'" and with one gives the callers text; any other tool fails as unknown.
pub proof fn lemma_tool_outcomes(root: Seq<char>, funcs: Seq<Function>, name: Seq<char>, args: ToolArgs, res: ToolResult)
    requires
        tool_gives(root, funcs, name, args, res),
    ensures
        name == "search_code"@ && args.question is None ==> (res is Failure && res->Failure_0@
            == "missing 'question'"@),
        name == "search_code"@ && args.question is Some && (args.mode is None || args.mode->0@ == "semantic"@)
            ==> (res is Semantic && res->question@ == args.question->0@ && !res->hybrid && 1 <= res->limit
            <= 20),
        name == "search_code"@ && args.question is Some && args.mode is Some && args.mode->0@ == "hybrid"@
            ==> (res is Semantic && res->question@ == args.question->0@ && res->hybrid && 1 <= res->limit
            <= 20),
        name == "find_callers"@ && args.name is None ==> (res is Failure && res->Failure_0@ == "missing 'name'"@),
        name == "find_callers"@ && args.name is Some ==> (res is Text && res->Text_0@ == callers_text(
            root,
            funcs,
            args.name->0@,
        )),
        name != "search_code"@ && name != "find_callers"@ ==> (res is Failure && res->Failure_0@
            == "Unknown tool: "@ + name),
{
    reveal_strlit("search_code");
    reveal_strlit("find_callers");
    reveal_strlit("semantic");
    reveal_strlit("lexical");
    reveal_strlit("hybrid");
    assert("search_code"@.len() == 11 && "find_callers"@.len() == 12);
    assert("semantic"@.len() == 8 && "lexical"@.len() == 7 && "hybrid"@.len() == 6);
}

/// The JSON-RPC error code for a line that is not JSON.
pub const PARSE_ERROR: i32 = -32700;

/// The answer to a line that is not JSON (sent with a null id).
pub fn parse_error_reply() -> (res: Reply)
    ensures
        res matches Reply::Error { code, message } && code == PARSE_ERROR && message@ == "Parse error"@,
{
    Reply::Error { code: PARSE_ERROR, message: "Parse error".to_string() }
}

/// A line holds nothing but whitespace (what `str::trim` leaves empty); such lines are skipped.
pub fn is_blank(line: &str) -> (res: bool)
    ensures
        res == forall|k: int| 0 <= k < line@.len() ==> crate::text::is_space(#[trigger] line@[k]),
{
    let cs = crate::text::to_chars(line);
    let mut i: usize = 0;
    while i < cs.len()
        invariant
            cs@ == line@,
            0 <= i <= cs@.len(),
            forall|k: int| 0 <= k < i ==> crate::text::is_space(#[trigger] cs@[k]),
        decreases cs@.len() - i,
    {
        if !crate::text::char_is_whitespace(cs[i]) {
            return false;
        }
        i = i + 1;
    }
    true
}

} // verus!

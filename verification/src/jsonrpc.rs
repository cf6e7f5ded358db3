use vstd::prelude::*;
use serde_json::Value;
use crate::extractor::{Function, views};
use crate::mcp::{
    Params, PropertyFacts, PropertySpec, Reply, ToolArgs, ToolFacts, ToolSpec, PARSE_ERROR, advertised,
    handle, is_blank, parse_error_reply, reply_to, tools,
};
use crate::text::{decimal, decimal_string, digit_char, push_char, to_chars};

verus! {

// ---------------------------------------------------------------------------
// JSON text: strings and lists.
// ---------------------------------------------------------------------------

/// The lower-case hexadecimal digit of `d` (below 16).
pub open spec fn hex_digit(d: nat) -> char {
    if d < 10 {
        digit_char(d)
    } else {
        ((d + 87) as u8) as char
    }
}

/// How a character is written inside a JSON string: `"` and `\` and the control
/// characters are escaped (the short forms where JSON has them, else `\u00XX`), every
/// other character stands as it is.
pub open spec fn escaped(c: char) -> Seq<char> {
    if c == '"' {
        seq!['\\', '"']
    } else if c == '\\' {
        seq!['\\', '\\']
    } else if c == '\n' {
        seq!['\\', 'n']
    } else if c == '\r' {
        seq!['\\', 'r']
    } else if c == '\t' {
        seq!['\\', 't']
    } else if c == '\x08' {
        seq!['\\', 'b']
    } else if c == '\x0c' {
        seq!['\\', 'f']
    } else if (c as u32) < 0x20 {
        seq!['\\', 'u', '0', '0', hex_digit((c as u32 / 16) as nat), hex_digit((c as u32 % 16) as nat)]
    } else {
        seq![c]
    }
}

/// A text with every character written as in a JSON string.
pub open spec fn escaped_all(s: Seq<char>) -> Seq<char>
    decreases s.len(),
{
    if s.len() == 0 {
        Seq::empty()
    } else {
        escaped_all(s.drop_last()) + escaped(s.last())
    }
}

/// A text as a JSON string.
pub open spec fn quoted(s: Seq<char>) -> Seq<char> {
    seq!['"'] + escaped_all(s) + seq!['"']
}

/// The parts, separated by commas.
pub open spec fn comma_list(parts: Seq<Seq<char>>) -> Seq<char>
    decreases parts.len(),
{
    if parts.len() == 0 {
        Seq::empty()
    } else if parts.len() == 1 {
        parts[0]
    } else {
        comma_list(parts.drop_last()) + ","@ + parts.last()
    }
}

/// One more part: a comma before it unless it is the first.
proof fn lemma_comma_step(parts: Seq<Seq<char>>, i: int)
    requires
        0 <= i < parts.len(),
    ensures
        comma_list(parts.take(i + 1)) == comma_list(parts.take(i)) + (if i == 0 {
            Seq::<char>::empty()
        } else {
            ","@
        }) + parts[i],
{
    let t = parts.take(i + 1);
    assert(t.drop_last() =~= parts.take(i));
    if i == 0 {
        assert(comma_list(parts.take(0)) =~= Seq::<char>::empty());
        assert(comma_list(t) =~= Seq::<char>::empty() + Seq::<char>::empty() + parts[0]);
    }
}

/// Each text as a JSON string.
pub open spec fn quoted_all(ss: Seq<Seq<char>>) -> Seq<Seq<char>> {
    Seq::new(ss.len(), |i: int| quoted(ss[i]))
}

/// A list of texts as a JSON array of strings.
pub open spec fn strings_json(ss: Seq<Seq<char>>) -> Seq<char> {
    "["@ + comma_list(quoted_all(ss)) + "]"@
}

/// The lower-case hexadecimal digit of `d`.
fn hex_char(d: u32) -> (c: char)
    requires
        d < 16,
    ensures
        c == hex_digit(d as nat),
{
    let b = d as u8;
    if b < 10 {
        (b + 48) as char
    } else {
        (b + 87) as char
    }
}

/// Appends a character as it is written inside a JSON string.
fn push_escaped(out: &mut String, c: char)
    ensures
        final(out)@ == old(out)@ + escaped(c),
{
    let ghost start = out@;
    if c == '"' {
        push_char(out, '\\');
        push_char(out, '"');
    } else if c == '\\' {
        push_char(out, '\\');
        push_char(out, '\\');
    } else if c == '\n' {
        push_char(out, '\\');
        push_char(out, 'n');
    } else if c == '\r' {
        push_char(out, '\\');
        push_char(out, 'r');
    } else if c == '\t' {
        push_char(out, '\\');
        push_char(out, 't');
    } else if c == '\x08' {
        push_char(out, '\\');
        push_char(out, 'b');
    } else if c == '\x0c' {
        push_char(out, '\\');
        push_char(out, 'f');
    } else if (c as u32) < 0x20 {
        let u = c as u32;
        push_char(out, '\\');
        push_char(out, 'u');
        push_char(out, '0');
        push_char(out, '0');
        push_char(out, hex_char(u / 16));
        push_char(out, hex_char(u % 16));
    } else {
        push_char(out, c);
    }
    assert(out@ =~= start + escaped(c));
}

/// Appends a text as a JSON string.
fn push_quoted(out: &mut String, s: &str)
    ensures
        final(out)@ == old(out)@ + quoted(s@),
{
    let ghost start = out@;
    let cs = to_chars(s);
    push_char(out, '"');
    let mut i: usize = 0;
    while i < cs.len()
        invariant
            cs@ == s@,
            0 <= i <= cs@.len(),
            out@ == start + seq!['"'] + escaped_all(cs@.take(i as int)),
        decreases cs@.len() - i,
    {
        push_escaped(out, cs[i]);
        proof {
            let t = cs@.take(i + 1);
            assert(t.drop_last() =~= cs@.take(i as int));
        }
        i = i + 1;
    }
    push_char(out, '"');
    assert(cs@.take(cs@.len() as int) =~= cs@);
    assert(out@ =~= start + quoted(s@));
}

/// Appends a list of texts as a JSON array of strings.
fn push_strings(out: &mut String, ss: &Vec<String>)
    ensures
        final(out)@ == old(out)@ + strings_json(views(ss@)),
{
    let ghost start = out@;
    let ghost parts = quoted_all(views(ss@));
    out.append("[");
    let mut i: usize = 0;
    while i < ss.len()
        invariant
            parts == quoted_all(views(ss@)),
            0 <= i <= ss@.len(),
            out@ == start + "["@ + comma_list(parts.take(i as int)),
        decreases ss@.len() - i,
    {
        proof {
            lemma_comma_step(parts, i as int);
        }
        if i > 0 {
            out.append(",");
        }
        push_quoted(out, ss[i].as_str());
        i = i + 1;
    }
    out.append("]");
    assert(parts.take(parts.len() as int) =~= parts);
}

// ---------------------------------------------------------------------------
// The tool list as JSON.
// ---------------------------------------------------------------------------

/// A property of an input schema as a JSON member.
pub open spec fn property_json(p: PropertyFacts) -> Seq<char> {
    quoted(p.name) + ":{\"type\":"@ + quoted(p.kind) + (if p.choices.len() == 0 {
        Seq::empty()
    } else {
        ",\"enum\":"@ + strings_json(p.choices)
    }) + ",\"description\":"@ + quoted(p.description) + "}"@
}

/// The properties of an input schema as JSON members.
pub open spec fn properties_json(ps: Seq<PropertyFacts>) -> Seq<Seq<char>> {
    Seq::new(ps.len(), |i: int| property_json(ps[i]))
}

/// A tool as a JSON object.
pub open spec fn tool_json(t: ToolFacts) -> Seq<char> {
    "{\"name\":"@ + quoted(t.name) + ",\"description\":"@ + quoted(t.description)
        + ",\"inputSchema\":{\"type\":\"object\",\"properties\":{"@ + comma_list(properties_json(t.properties))
        + "},\"required\":"@ + strings_json(t.required) + "}}"@
}

/// The tools as JSON objects.
pub open spec fn tools_parts(ts: Seq<ToolFacts>) -> Seq<Seq<char>> {
    Seq::new(ts.len(), |i: int| tool_json(ts[i]))
}

/// The result of `tools/list`.
pub open spec fn tools_json(ts: Seq<ToolFacts>) -> Seq<char> {
    "{\"tools\":["@ + comma_list(tools_parts(ts)) + "]}"@
}

fn push_property(out: &mut String, p: &PropertySpec)
    ensures
        final(out)@ == old(out)@ + property_json(p@),
{
    let ghost start = out@;
    push_quoted(out, p.name.as_str());
    out.append(":{\"type\":");
    push_quoted(out, p.kind.as_str());
    let ghost mid = out@;
    if p.choices.len() > 0 {
        out.append(",\"enum\":");
        push_strings(out, &p.choices);
    }
    assert(views(p.choices@).len() == p.choices@.len());
    out.append(",\"description\":");
    push_quoted(out, p.description.as_str());
    out.append("}");
    assert(out@ =~= start + property_json(p@));
}

fn push_tool(out: &mut String, t: &ToolSpec)
    ensures
        final(out)@ == old(out)@ + tool_json(t@),
{
    let ghost start = out@;
    let ghost parts = properties_json(t@.properties);
    out.append("{\"name\":");
    push_quoted(out, t.name.as_str());
    out.append(",\"description\":");
    push_quoted(out, t.description.as_str());
    out.append(",\"inputSchema\":{\"type\":\"object\",\"properties\":{");
    let ghost before = out@;
    let mut i: usize = 0;
    while i < t.properties.len()
        invariant
            parts == properties_json(t@.properties),
            parts.len() == t.properties@.len(),
            0 <= i <= t.properties@.len(),
            out@ == before + comma_list(parts.take(i as int)),
        decreases t.properties@.len() - i,
    {
        proof {
            lemma_comma_step(parts, i as int);
        }
        if i > 0 {
            out.append(",");
        }
        push_property(out, &t.properties[i]);
        i = i + 1;
    }
    assert(parts.take(parts.len() as int) =~= parts);
    out.append("},\"required\":");
    push_strings(out, &t.required);
    out.append("}}");
    assert(out@ =~= start + tool_json(t@));
}

fn push_tools(out: &mut String, ts: &Vec<ToolSpec>)
    ensures
        final(out)@ == old(out)@ + tools_json(ts@.map_values(|t: ToolSpec| t@)),
{
    let ghost start = out@;
    let ghost parts = tools_parts(ts@.map_values(|t: ToolSpec| t@));
    out.append("{\"tools\":[");
    let ghost before = out@;
    let mut i: usize = 0;
    while i < ts.len()
        invariant
            parts == tools_parts(ts@.map_values(|t: ToolSpec| t@)),
            parts.len() == ts@.len(),
            0 <= i <= ts@.len(),
            out@ == before + comma_list(parts.take(i as int)),
        decreases ts@.len() - i,
    {
        proof {
            lemma_comma_step(parts, i as int);
        }
        if i > 0 {
            out.append(",");
        }
        push_tool(out, &ts[i]);
        i = i + 1;
    }
    assert(parts.take(parts.len() as int) =~= parts);
    out.append("]}");
    assert(out@ =~= start + tools_json(ts@.map_values(|t: ToolSpec| t@)));
}

// ---------------------------------------------------------------------------
// Replies as JSON-RPC response lines.
// ---------------------------------------------------------------------------

/// `true` or `false`.
pub open spec fn bool_text(b: bool) -> Seq<char> {
    if b {
        "true"@
    } else {
        "false"@
    }
}

/// An integer in decimal, with a minus sign when negative.
pub open spec fn int_text(n: i32) -> Seq<char> {
    if n < 0 {
        "-"@ + decimal((-n) as nat)
    } else {
        decimal(n as nat)
    }
}

/// The result of a tool call: its text, flagged as an error or not.
pub open spec fn tool_text_json(text: Seq<char>, is_error: bool) -> Seq<char> {
    "{\"content\":[{\"type\":\"text\",\"text\":"@ + quoted(text) + "}],\"isError\":"@ + bool_text(is_error)
        + "}"@
}

/// The tool text that answers a search by meaning, which this server does not offer.
pub open spec fn unavailable_text() -> Seq<char> {
    "search by meaning is not available; use mode \"lexical\""@
}

/// The `result` or `error` member of the response carrying `r`.
pub open spec fn reply_member(r: Reply) -> Seq<char> {
    match r {
        Reply::Initialized { protocol_version } => "\"result\":{\"protocolVersion\":"@ + quoted(protocol_version@)
            + ",\"capabilities\":{\"tools\":{}},\"serverInfo\":{\"name\":\"codemap\",\"version\":\"0.1.0\"}}"@,
        Reply::Pong => "\"result\":{}"@,
        Reply::ToolList => "\"result\":"@ + tools_json(advertised()),
        Reply::ToolText { text, is_error } => "\"result\":"@ + tool_text_json(text@, is_error),
        Reply::SemanticSearch { .. } => "\"result\":"@ + tool_text_json(unavailable_text(), true),
        Reply::Error { code, message } => "\"error\":{\"code\":"@ + int_text(code) + ",\"message\":"@ + quoted(
            message@,
        ) + "}"@,
    }
}

/// The response line to the request with the id `id` (as JSON text) that carries `r`.
pub open spec fn response_text(id: Seq<char>, r: Reply) -> Seq<char> {
    "{\"jsonrpc\":\"2.0\",\"id\":"@ + id + ","@ + reply_member(r) + "}"@
}

fn push_tool_text(out: &mut String, text: &str, is_error: bool)
    ensures
        final(out)@ == old(out)@ + tool_text_json(text@, is_error),
{
    let ghost start = out@;
    out.append("{\"content\":[{\"type\":\"text\",\"text\":");
    push_quoted(out, text);
    out.append("}],\"isError\":");
    if is_error {
        out.append("true");
    } else {
        out.append("false");
    }
    out.append("}");
    assert(out@ =~= start + tool_text_json(text@, is_error));
}

/// The response line to the request with the id `id` (as JSON text) that carries `r`.
#[verifier::spinoff_prover]
#[verifier::rlimit(40)]
pub fn response_line(id: &str, r: &Reply) -> (res: String)
    ensures
        res@ == response_text(id@, *r),
{
    let mut out = String::new();
    out.append("{\"jsonrpc\":\"2.0\",\"id\":");
    out.append(id);
    out.append(",");
    let ghost start = out@;
    match r {
        Reply::Initialized { protocol_version } => {
            out.append("\"result\":{\"protocolVersion\":");
            push_quoted(&mut out, protocol_version.as_str());
            out.append(
                ",\"capabilities\":{\"tools\":{}},\"serverInfo\":{\"name\":\"codemap\",\"version\":\"0.1.0\"}}",
            );
        },
        Reply::Pong => {
            out.append("\"result\":{}");
        },
        Reply::ToolList => {
            out.append("\"result\":");
            let ts = tools();
            push_tools(&mut out, &ts);
        },
        Reply::ToolText { text, is_error } => {
            out.append("\"result\":");
            push_tool_text(&mut out, text.as_str(), *is_error);
        },
        Reply::SemanticSearch { .. } => {
            out.append("\"result\":");
            push_tool_text(&mut out, "search by meaning is not available; use mode \"lexical\"", true);
        },
        Reply::Error { code, message } => {
            out.append("\"error\":{\"code\":");
            let c = *code as i64;
            if c < 0 {
                out.append("-");
                let d = decimal_string((-c) as usize);
                out.append(d.as_str());
            } else {
                let d = decimal_string(c as usize);
                out.append(d.as_str());
            }
            out.append(",\"message\":");
            push_quoted(&mut out, message.as_str());
            out.append("}");
        },
    }
    assert(out@ =~= start + reply_member(*r));
    out.append("}");
    assert(out@ =~= response_text(id@, *r));
    out
}

// ---------------------------------------------------------------------------
// One line of input, and its answer.
// ---------------------------------------------------------------------------

/// A line of input as the server reads it.
pub enum Message {
    /// The line is not JSON.
    NotJson,
    /// A message without an id: a notification.
    Notification,
    /// A request: its id (as JSON text), its method when it is a string, and the
    /// parameters the server reads.
    Request { id: String, method: Option<String>, params: Params },
}

/// What `serde_json` reads from a line: whether it is JSON, its `id` (as the JSON text
/// `serde_json` writes for it), the string `method`, and the string or unsigned-integer
/// fields of `params` and `params.arguments` that `Params` holds.
pub uninterp spec fn parsed_message(line: Seq<char>) -> Message;

/// Parses the line with `serde_json::from_str` into a `Value` and reads its fields by JSON
/// pointer (`as_str`, `as_u64`); named `parsed_message`.
#[verifier::external_body]
fn parse_message(line: &str) -> (res: Message)
    ensures
        res == parsed_message(line@),
{
    let Ok(v) = serde_json::from_str::<Value>(line) else { return Message::NotJson };
    let text = |p: &str| v.pointer(p).and_then(Value::as_str).map(String::from);
    let Some(id) = v.get("id") else { return Message::Notification };
    let arguments = ToolArgs {
        question: text("/params/arguments/question"),
        limit: v.pointer("/params/arguments/limit").and_then(Value::as_u64),
        mode: text("/params/arguments/mode"),
        name: text("/params/arguments/name"),
    };
    let params = Params { protocol_version: text("/params/protocolVersion"), tool_name: text("/params/name"), arguments };
    Message::Request { id: id.to_string(), method: text("/method"), params }
}

/// The method a request names; empty when it names none.
pub open spec fn method_text(m: Option<String>) -> Seq<char> {
    match m {
        Some(s) => s@,
        None => Seq::empty(),
    }
}

/// `res` answers the input line `line` of a server for the project at `root` with
/// functions `funcs`: blank lines and notifications get no answer; a line that is not JSON
/// gets a parse error with a null id; a request gets the response line carrying the reply
/// to its method and parameters (`reply_to`), under its own id.
pub open spec fn answers(root: Seq<char>, funcs: Seq<Function>, line: Seq<char>, res: Option<String>) -> bool {
    if forall|k: int| 0 <= k < line.len() ==> crate::text::is_space(#[trigger] line[k]) {
        res is None
    } else {
        match parsed_message(line) {
            Message::NotJson => exists|r: Reply|
                {
                    &&& #[trigger] response_text("null"@, r) == res->0@
                    &&& res is Some
                    &&& r matches Reply::Error { code, message }
                    &&& code == PARSE_ERROR
                    &&& message@ == "Parse error"@
                },
            Message::Notification => res is None,
            Message::Request { id, method, params } => exists|r: Reply|
                {
                    &&& #[trigger] reply_to(root, funcs, method_text(method), params, r)
                    &&& res is Some
                    &&& res->0@ == response_text(id@, r)
                },
        }
    }
}

/// The answer of the tool server to one line of input, if any (see `answers`).
pub fn answer_line(line: &str, root: &str, funcs: &[Function]) -> (res: Option<String>)
    ensures
        answers(root@, funcs@, line@, res),
{
    if is_blank(line) {
        return None;
    }
    let msg = parse_message(line);
    match msg {
        Message::NotJson => {
            let r = parse_error_reply();
            let t = response_line("null", &r);
            let res = Some(t);
            assert(response_text("null"@, r) == res->0@);
            assert(parsed_message(line@) is NotJson);
            assert(r matches Reply::Error { code, message } && code == PARSE_ERROR && message@ == "Parse error"@);
            assert(answers(root@, funcs@, line@, res));
            res
        },
        Message::Notification => {
            assert(parsed_message(line@) is Notification);
            None
        },
        Message::Request { id, method, params } => {
            let m = match method {
                Some(m) => m,
                None => String::new(),
            };
            let ghost mt = m@;
            let r = handle(m.as_str(), &params, root, funcs);
            let t = response_line(id.as_str(), &r);
            let res = Some(t);
            assert(reply_to(root@, funcs@, mt, params, r));
            assert(mt == method_text(parsed_message(line@)->method));
            assert(answers(root@, funcs@, line@, res));
            res
        },
    }
}

} // verus!

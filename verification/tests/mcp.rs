use codemap::extractor::Function;
use codemap::mcp::{
    call_tool, find_callers_text, format_hits, handle, is_blank, parse_error_reply, rel, Params,
    Reply, ToolArgs, ToolResult, PARSE_ERROR,
};
use codemap::search::search;
use codemap::text::decimal_string;

fn func(name: &str, owner: Option<&str>, file: &str, line: usize, calls: &[&str], doc: &str) -> Function {
    Function {
        name: name.to_string(),
        owner: owner.map(|o| o.to_string()),
        file: file.to_string(),
        line,
        body: format!("fn {}() {{}}", name),
        calls: calls.iter().map(|c| c.to_string()).collect(),
        doc: doc.to_string(),
    }
}

fn sample() -> Vec<Function> {
    vec![
        func("cancel", Some("CancellationToken"), "/p/src/token.rs", 10, &["notify"], "Cancels the token."),
        func("run", None, "/p/src/main.rs", 3, &["cancel", "spawn"], ""),
        func("spawn", None, "/elsewhere/lib.rs", 7, &["cancel"], ""),
    ]
}

fn no_args() -> ToolArgs {
    ToolArgs { question: None, limit: None, mode: None, name: None }
}

fn params(tool: Option<&str>, args: ToolArgs) -> Params {
    Params { protocol_version: None, tool_name: tool.map(|t| t.to_string()), arguments: args }
}

#[test]
fn rel_strips_the_root() {
    assert_eq!(rel("/p", "/p/src/a.rs"), "src/a.rs");
    assert_eq!(rel("/p", "/q/a.rs"), "/q/a.rs");
}

#[test]
fn decimal_numerals() {
    assert_eq!(decimal_string(0), "0");
    assert_eq!(decimal_string(7), "7");
    assert_eq!(decimal_string(1234567890), "1234567890");
}

#[test]
fn blank_lines() {
    assert!(is_blank(""));
    assert!(is_blank(" \t\r"));
    assert!(!is_blank(" {} "));
}

#[test]
fn initialize_defaults_protocol_version() {
    match handle("initialize", &params(None, no_args()), "/p", &sample()) {
        Reply::Initialized { protocol_version } => assert_eq!(protocol_version, "2024-11-05"),
        _ => panic!("expected an initialize reply"),
    }
    let mut p = params(None, no_args());
    p.protocol_version = Some("2025-01-01".to_string());
    match handle("initialize", &p, "/p", &sample()) {
        Reply::Initialized { protocol_version } => assert_eq!(protocol_version, "2025-01-01"),
        _ => panic!("expected an initialize reply"),
    }
}

#[test]
fn ping_and_tools_list() {
    assert!(matches!(handle("ping", &params(None, no_args()), "/p", &sample()), Reply::Pong));
    assert!(matches!(handle("tools/list", &params(None, no_args()), "/p", &sample()), Reply::ToolList));
}

#[test]
fn unknown_method_is_an_error() {
    match handle("resources/list", &params(None, no_args()), "/p", &sample()) {
        Reply::Error { code, message } => {
            assert_eq!(code, -32601);
            assert_eq!(message, "Method not found: resources/list");
        }
        _ => panic!("expected an error"),
    }
}

#[test]
fn find_callers_lists_callers() {
    let fns = sample();
    assert_eq!(
        find_callers_text("/p", &fns, "cancel"),
        "2 callers of `cancel`:\nsrc/main.rs:3  run\n/elsewhere/lib.rs:7  spawn\n"
    );
    assert_eq!(
        find_callers_text("/p", &fns, "nothing"),
        "No function calls `nothing`. It may be a file name or a misspelling."
    );
}

#[test]
fn tools_call_find_callers() {
    let mut args = no_args();
    args.name = Some("notify".to_string());
    match handle("tools/call", &params(Some("find_callers"), args), "/p", &sample()) {
        Reply::ToolText { text, is_error } => {
            assert!(!is_error);
            assert_eq!(text, "1 callers of `notify`:\nsrc/token.rs:10  CancellationToken::cancel\n");
        }
        _ => panic!("expected text"),
    }
}

#[test]
fn tool_errors() {
    match call_tool("search_code", &no_args(), "/p", &sample()) {
        ToolResult::Failure(m) => assert_eq!(m, "missing 'question'"),
        _ => panic!("expected a failure"),
    }
    match call_tool("find_callers", &no_args(), "/p", &sample()) {
        ToolResult::Failure(m) => assert_eq!(m, "missing 'name'"),
        _ => panic!("expected a failure"),
    }
    match handle("tools/call", &params(Some("draw"), no_args()), "/p", &sample()) {
        Reply::ToolText { text, is_error } => {
            assert!(is_error);
            assert_eq!(text, "Unknown tool: draw");
        }
        _ => panic!("expected an error text"),
    }
    match handle("tools/call", &params(None, no_args()), "/p", &sample()) {
        Reply::ToolText { text, is_error } => {
            assert!(is_error);
            assert_eq!(text, "Unknown tool: ");
        }
        _ => panic!("expected an error text"),
    }
}

#[test]
fn lexical_search_code_text() {
    let mut args = no_args();
    args.question = Some("cancel token".to_string());
    args.mode = Some("lexical".to_string());
    match call_tool("search_code", &args, "/p", &sample()) {
        ToolResult::Text(t) => assert_eq!(t, "1. src/token.rs:10  CancellationToken::cancel\n   Cancels the token.\n"),
        _ => panic!("expected text"),
    }
    args.question = Some("zzz".to_string());
    match call_tool("search_code", &args, "/p", &sample()) {
        ToolResult::Text(t) => assert_eq!(t, "No results. Try different words."),
        _ => panic!("expected text"),
    }
}

#[test]
fn semantic_modes_are_handed_back_with_clamped_limit() {
    let mut args = no_args();
    args.question = Some("stop".to_string());
    match call_tool("search_code", &args, "/p", &sample()) {
        ToolResult::Semantic { question, limit, hybrid } => {
            assert_eq!(question, "stop");
            assert_eq!(limit, 5);
            assert!(!hybrid);
        }
        _ => panic!("expected a semantic request"),
    }
    args.mode = Some("hybrid".to_string());
    args.limit = Some(50);
    match call_tool("search_code", &args, "/p", &sample()) {
        ToolResult::Semantic { limit, hybrid, .. } => {
            assert_eq!(limit, 20);
            assert!(hybrid);
        }
        _ => panic!("expected a semantic request"),
    }
    args.limit = Some(0);
    match handle("tools/call", &params(Some("search_code"), args), "/p", &sample()) {
        Reply::SemanticSearch { limit, .. } => assert_eq!(limit, 1),
        _ => panic!("expected a semantic request"),
    }
}

#[test]
fn format_hits_numbers_lines_and_clips_docs() {
    let long_doc: String = std::iter::repeat('d').take(200).collect();
    let fns = vec![func("alpha", None, "/p/a.rs", 1, &[], &long_doc), func("alpha_beta", None, "/p/b.rs", 2, &[], "")];
    let hits = search(&fns, "alpha", 10);
    let text = format_hits("/p", &hits);
    let expected = format!("1. a.rs:1  alpha\n   {}\n2. b.rs:2  alpha_beta\n", "d".repeat(160));
    assert_eq!(text, expected);
}

#[test]
fn parse_error_is_code_32700() {
    assert_eq!(PARSE_ERROR, -32700);
    match parse_error_reply() {
        Reply::Error { code, message } => {
            assert_eq!(code, -32700);
            assert_eq!(message, "Parse error");
        }
        _ => panic!("expected an error reply"),
    }
}

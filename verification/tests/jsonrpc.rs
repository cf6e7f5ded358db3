use codemap::extractor::Function;
use codemap::jsonrpc::{answer_line, response_line};
use codemap::mcp::{call_tool, tools, Reply, ToolArgs, ToolResult};
use serde_json::Value;

fn func(name: &str, owner: Option<&str>, file: &str, line: usize, calls: &[&str]) -> Function {
    Function {
        name: name.to_string(),
        owner: owner.map(|o| o.to_string()),
        file: file.to_string(),
        line,
        body: format!("fn {}() {{}}", name),
        calls: calls.iter().map(|c| c.to_string()).collect(),
        doc: String::new(),
    }
}

fn sample() -> Vec<Function> {
    vec![
        func("cancel", Some("CancellationToken"), "/p/src/token.rs", 10, &["notify"]),
        func("run", None, "/p/src/main.rs", 3, &["cancel", "spawn"]),
    ]
}

fn answer(line: &str) -> Value {
    let text = answer_line(line, "/p", &sample()).expect("an answer");
    assert!(!text.contains('\n'));
    serde_json::from_str(&text).expect("the answer is JSON")
}

fn text_at<'a>(v: &'a Value, pointer: &str) -> &'a str {
    v.pointer(pointer).and_then(Value::as_str).expect("a string")
}

#[test]
fn blank_lines_and_notifications_get_no_answer() {
    assert_eq!(answer_line("   ", "/p", &sample()), None);
    assert_eq!(answer_line("{\"jsonrpc\":\"2.0\",\"method\":\"notifications/initialized\"}", "/p", &sample()), None);
}

#[test]
fn a_line_that_is_not_json_gets_a_parse_error() {
    let v = answer("{oops");
    assert!(v.get("id").expect("an id").is_null());
    assert_eq!(v.pointer("/error/code").and_then(Value::as_i64), Some(-32700));
    assert_eq!(text_at(&v, "/error/message"), "Parse error");
}

#[test]
fn ping_keeps_the_request_id() {
    let v = answer("{\"jsonrpc\":\"2.0\",\"id\":\"abc\",\"method\":\"ping\"}");
    assert_eq!(text_at(&v, "/jsonrpc"), "2.0");
    assert_eq!(text_at(&v, "/id"), "abc");
    assert!(v.get("result").expect("a result").as_object().expect("an object").is_empty());
}

#[test]
fn initialize_answers_the_protocol_version() {
    let v = answer("{\"id\":1,\"method\":\"initialize\",\"params\":{\"protocolVersion\":\"2025-01-01\"}}");
    assert_eq!(v.get("id").and_then(Value::as_u64), Some(1));
    assert_eq!(text_at(&v, "/result/protocolVersion"), "2025-01-01");
    assert_eq!(text_at(&v, "/result/serverInfo/name"), "codemap");
    let d = answer("{\"id\":2,\"method\":\"initialize\"}");
    assert_eq!(text_at(&d, "/result/protocolVersion"), "2024-11-05");
}

#[test]
fn tools_list_advertises_both_tools() {
    let v = answer("{\"id\":3,\"method\":\"tools/list\"}");
    let list = v.pointer("/result/tools").and_then(Value::as_array).expect("a list");
    assert_eq!(list.len(), 2);
    assert_eq!(text_at(&list[0], "/name"), "search_code");
    assert_eq!(text_at(&list[0], "/inputSchema/required/0"), "question");
    assert_eq!(text_at(&list[0], "/inputSchema/properties/mode/enum/2"), "lexical");
    assert_eq!(text_at(&list[0], "/inputSchema/properties/limit/type"), "integer");
    assert_eq!(text_at(&list[1], "/name"), "find_callers");
    assert_eq!(text_at(&list[1], "/inputSchema/required/0"), "name");
    assert_eq!(tools().len(), 2);
}

#[test]
fn tool_calls_answer_with_text() {
    let v = answer(
        "{\"id\":4,\"method\":\"tools/call\",\"params\":{\"name\":\"find_callers\",\"arguments\":{\"name\":\"cancel\"}}}",
    );
    assert_eq!(v.pointer("/result/isError").and_then(Value::as_bool), Some(false));
    let text = text_at(&v, "/result/content/0/text");
    assert!(text.starts_with("1 callers of `cancel`:\n"));
    assert!(text.contains("src/main.rs:3"));
    let m = answer("{\"id\":5,\"method\":\"tools/call\",\"params\":{\"name\":\"find_callers\",\"arguments\":{}}}");
    assert_eq!(m.pointer("/result/isError").and_then(Value::as_bool), Some(true));
    assert_eq!(text_at(&m, "/result/content/0/text"), "missing 'name'");
}

#[test]
fn search_by_meaning_is_answered_as_unavailable() {
    let v = answer("{\"id\":6,\"method\":\"tools/call\",\"params\":{\"name\":\"search_code\",\"arguments\":{\"question\":\"stop\"}}}");
    assert_eq!(v.pointer("/result/isError").and_then(Value::as_bool), Some(true));
    assert_eq!(text_at(&v, "/result/content/0/text"), "search by meaning is not available; use mode \"lexical\"");
}

#[test]
fn unknown_methods_are_errors() {
    let v = answer("{\"id\":7,\"method\":\"resources/list\"}");
    assert_eq!(v.pointer("/error/code").and_then(Value::as_i64), Some(-32601));
    assert_eq!(text_at(&v, "/error/message"), "Method not found: resources/list");
}

#[test]
fn text_is_escaped_as_json() {
    let r = Reply::ToolText { text: "a\"b\\c\nd\te\u{1}é".to_string(), is_error: false };
    let line = response_line("9", &r);
    assert!(line.contains("a\\\"b\\\\c\\nd\\te\\u0001é"));
    let v: Value = serde_json::from_str(&line).expect("JSON");
    assert_eq!(text_at(&v, "/result/content/0/text"), "a\"b\\c\nd\te\u{1}é");
}

#[test]
fn every_advertised_tool_with_its_required_fields_is_accepted() {
    for t in tools() {
        let mut args = ToolArgs { question: None, limit: None, mode: None, name: None };
        for r in &t.required {
            match r.as_str() {
                "question" => args.question = Some("cancel".to_string()),
                "name" => args.name = Some("cancel".to_string()),
                other => panic!("unexpected required field {}", other),
            }
        }
        match call_tool(&t.name, &args, "/p", &sample()) {
            ToolResult::Failure(m) => panic!("{} refused: {}", t.name, m),
            _ => {}
        }
    }
}

use codemap::extractor::{callers_of, is_ignored, scan_filter, should_scan, Function};
use codemap::syntax::{collect_functions, insert_sorted, FieldName, NodeKind, SyntaxNode, SyntaxTree};
use codemap::treesitter::{scan_sources, SourceFile};

fn func(name: &str, owner: Option<&str>, calls: &[&str]) -> Function {
    Function {
        name: name.to_string(),
        owner: owner.map(|o| o.to_string()),
        file: "src/lib.rs".to_string(),
        line: 1,
        body: format!("fn {}() {{}}", name),
        calls: calls.iter().map(|c| c.to_string()).collect(),
        doc: String::new(),
    }
}

const SAMPLE: &str = "struct Framed;

impl Framed {
    fn poll(&self) {
        helper();
        self.flush();
        Self::make();
        helper();
    }
}

fn helper() {}

trait Shape {
    fn area(&self) -> u32 { compute() }
}
";

fn scan_sample() -> Vec<Function> {
    let files = vec![SourceFile { path: "src/lib.rs".to_string(), code: SAMPLE.to_string() }];
    scan_sources(&files).expect("the Rust grammar loads")
}

#[test]
fn full_name_of_method_joins_owner() {
    let f = func("poll", Some("Framed"), &[]);
    assert_eq!(f.full_name(), "Framed::poll");
}

#[test]
fn full_name_of_free_function_is_its_name() {
    let f = func("main", None, &[]);
    assert_eq!(f.full_name(), "main");
}

#[test]
fn ignored_directories() {
    assert!(is_ignored("project/target/debug/build.rs"));
    assert!(is_ignored("project/tests/it.rs"));
    assert!(is_ignored("project/benches/b.rs"));
    assert!(is_ignored("project/.git/hooks/x.rs"));
    assert!(!is_ignored("project/src/lib.rs"));
    assert!(!is_ignored("project/src/targets.rs"));
}

#[test]
fn only_rust_files_outside_ignored_dirs_are_scanned() {
    assert!(should_scan("project/src/main.rs"));
    assert!(!should_scan("project/src/notes.txt"));
    assert!(!should_scan("project/target/gen.rs"));
    assert!(!should_scan("project/src/.rs"));
    assert!(!should_scan("project/README"));
}

#[test]
fn scan_filter_on_plain_values() {
    let comps = vec!["a".to_string(), "b.rs".to_string()];
    assert!(scan_filter(&Some("rs".to_string()), &comps));
    assert!(!scan_filter(&None, &comps));
    let comps = vec!["a".to_string(), ".git".to_string(), "b.rs".to_string()];
    assert!(!scan_filter(&Some("rs".to_string()), &comps));
}

#[test]
fn scan_finds_functions_owners_lines_and_calls() {
    let fns = scan_sample();
    let names: Vec<String> = fns.iter().map(|f| f.full_name()).collect();
    assert_eq!(names, vec!["Framed::poll", "helper", "Shape::area"]);
    assert_eq!(fns[0].line, 4);
    assert_eq!(fns[1].line, 12);
    assert_eq!(fns[2].line, 15);
    assert_eq!(fns[0].calls, vec!["flush", "helper", "make"]);
    assert!(fns[1].calls.is_empty());
    assert_eq!(fns[2].calls, vec!["compute"]);
    assert_eq!(fns[1].body, "fn helper() {}");
    assert_eq!(fns[0].file, "src/lib.rs");
    assert!(fns.iter().all(|f| f.doc.is_empty()));
}

#[test]
fn scan_skips_files_that_are_not_scanned() {
    let files = vec![
        SourceFile { path: "p/target/a.rs".to_string(), code: "fn hidden() {}".to_string() },
        SourceFile { path: "p/src/a.txt".to_string(), code: "fn text() {}".to_string() },
        SourceFile { path: "p/src/b.rs".to_string(), code: "fn shown() {}".to_string() },
    ];
    let fns = scan_sources(&files).unwrap();
    assert_eq!(fns.len(), 1);
    assert_eq!(fns[0].name, "shown");
    assert_eq!(fns[0].file, "p/src/b.rs");
}

#[test]
fn scan_handles_unicode_and_nested_functions() {
    let code = "// é ü\nfn outer() { fn inner() { deep(); } inner(); }\n";
    let files = vec![SourceFile { path: "x.rs".to_string(), code: code.to_string() }];
    let fns = scan_sources(&files).unwrap();
    assert_eq!(fns.len(), 2);
    assert_eq!(fns[0].name, "outer");
    assert_eq!(fns[0].line, 2);
    assert_eq!(fns[0].calls, vec!["deep", "inner"]);
    assert_eq!(fns[1].name, "inner");
    assert_eq!(fns[1].calls, vec!["deep"]);
}

#[test]
fn callers_match_by_name_only() {
    let fns = vec![
        func("a", None, &["new", "run"]),
        func("b", Some("T"), &["stop"]),
        func("c", None, &["new"]),
    ];
    assert_eq!(callers_of(&fns, "new"), vec![0, 2]);
    assert_eq!(callers_of(&fns, "stop"), vec![1]);
    assert!(callers_of(&fns, "missing").is_empty());
    assert!(fns[0].calls_name("run"));
    assert!(!fns[1].calls_name("run"));
}

#[test]
fn collect_from_a_hand_built_tree() {
    // impl T { fn go() { f(); } }
    let code = "impl T { fn go() { f(); } }";
    let n = |kind, field, parent, start, end| SyntaxNode { kind, field, parent, start, end, row: 0 };
    let nodes = vec![
        n(NodeKind::Other, None, None, 0, 27),
        n(NodeKind::ImplItem, None, Some(0), 0, 27),
        n(NodeKind::Other, Some(FieldName::Type), Some(1), 5, 6),
        n(NodeKind::FunctionItem, None, Some(1), 9, 25),
        n(NodeKind::Identifier, Some(FieldName::Name), Some(3), 12, 14),
        n(NodeKind::Other, Some(FieldName::Body), Some(3), 17, 25),
        n(NodeKind::CallExpression, None, Some(5), 19, 22),
        n(NodeKind::Identifier, Some(FieldName::Function), Some(6), 19, 20),
    ];
    let tree = SyntaxTree { nodes };
    assert!(tree.is_well_formed(code));
    let fns = collect_functions(&tree, code, "t.rs");
    assert_eq!(fns.len(), 1);
    assert_eq!(fns[0].full_name(), "T::go");
    assert_eq!(fns[0].calls, vec!["f"]);
    assert_eq!(fns[0].body, "fn go() { f(); }");
    assert_eq!(fns[0].line, 1);
}

#[test]
fn malformed_tree_is_rejected() {
    let code = "é";
    let tree = SyntaxTree {
        nodes: vec![SyntaxNode { kind: NodeKind::Other, field: None, parent: None, start: 0, end: 1, row: 0 }],
    };
    assert!(!tree.is_well_formed(code));
}

/// Name, owner and called names of each function, read with tree-sitter's own
/// `child_by_field_name` on the tree it parses.
type Seen = (String, Option<String>, Vec<String>);

fn called_names(node: tree_sitter::Node, code: &str, out: &mut Vec<String>) {
    if node.kind() == "call_expression" {
        if let Some(f) = node.child_by_field_name("function") {
            let name = match f.kind() {
                "identifier" => Some(code[f.byte_range()].to_string()),
                "scoped_identifier" => f.child_by_field_name("name").map(|n| code[n.byte_range()].to_string()),
                "field_expression" => f.child_by_field_name("field").map(|n| code[n.byte_range()].to_string()),
                _ => None,
            };
            if let Some(n) = name {
                if !out.contains(&n) {
                    out.push(n);
                }
            }
        }
    }
    let mut cursor = node.walk();
    for child in node.children(&mut cursor) {
        called_names(child, code, out);
    }
}

fn seen_functions(node: tree_sitter::Node, code: &str, owner: Option<String>, out: &mut Vec<Seen>) {
    let mut owner = owner;
    if node.kind() == "impl_item" || node.kind() == "trait_item" {
        let field = if node.kind() == "impl_item" { "type" } else { "name" };
        if let Some(t) = node.child_by_field_name(field) {
            owner = Some(code[t.byte_range()].to_string());
        }
    }
    if node.kind() == "function_item" {
        if let Some(name) = node.child_by_field_name("name") {
            let mut calls = Vec::new();
            if let Some(body) = node.child_by_field_name("body") {
                called_names(body, code, &mut calls);
            }
            calls.sort();
            out.push((code[name.byte_range()].to_string(), owner.clone(), calls));
        }
    }
    let mut cursor = node.walk();
    for child in node.children(&mut cursor) {
        seen_functions(child, code, owner.clone(), out);
    }
}

#[test]
fn extraction_agrees_with_tree_sitter_fields() {
    let code = "use std::fmt;\n\
        struct S;\n\
        impl fmt::Display for S {\n    fn fmt(&self, f: &mut fmt::Formatter) -> fmt::Result { write!(f, \"s\"); f.pad(\"x\") }\n}\n\
        trait T { fn req(&self); fn given(&self) -> u8 { self.req(); helper(1) } }\n\
        impl<X: Clone> Wrap<X> { pub fn new(x: X) -> Self { Self::build(x.clone(), Vec::new()) } }\n\
        fn helper(n: u8) -> u8 { let g = |y: u8| inner(y); g(n) + std::cmp::max(n, 2) }\n\
        mod m { fn nested() { super::helper(3); fn deep() { go() } } }\n";
    let mut parser = tree_sitter::Parser::new();
    parser.set_language(&tree_sitter_rust::LANGUAGE.into()).expect("the grammar loads");
    let tree = parser.parse(code, None).expect("a tree");
    let mut expected = Vec::new();
    seen_functions(tree.root_node(), code, None, &mut expected);

    let files = vec![SourceFile { path: "p/src/lib.rs".to_string(), code: code.to_string() }];
    let fns = scan_sources(&files).expect("the Rust grammar loads");
    let got: Vec<Seen> = fns.iter().map(|f| (f.name.clone(), f.owner.clone(), f.calls.clone())).collect();
    assert_eq!(expected.len(), 6);
    assert_eq!(got, expected);
}

#[test]
fn inserting_a_present_name_changes_nothing() {
    let mut v = vec!["a".to_string(), "c".to_string()];
    insert_sorted(&mut v, "b".to_string());
    assert_eq!(v, vec!["a", "b", "c"]);
    insert_sorted(&mut v, "b".to_string());
    insert_sorted(&mut v, "a".to_string());
    assert_eq!(v, vec!["a", "b", "c"]);
}

use vstd::prelude::*;
use vstd::utf8::encode_utf8;
use tree_sitter::{LanguageError, Parser, Tree};
use crate::extractor::Function;
use crate::syntax::{
    FieldName, SyntaxNode, SyntaxTree, collect_functions, field_named, field_of_name,
    functions_of, kind_named, kind_of_name, node_ok, records, tree_ok,
};

verus! {

// ---------------------------------------------------------------------------
// The tree-sitter types that parsing goes through; Verus sees inside them only through
// the names below.
// ---------------------------------------------------------------------------

#[verifier::external_type_specification]
#[verifier::external_body]
pub struct ExParser(Parser);

#[verifier::external_type_specification]
#[verifier::external_body]
pub struct ExTree(Tree);

/// What a syntax tree tells of one of its nodes, as plain values.
pub struct NodeInfo {
    /// The node's kind name in the grammar.
    pub kind: String,
    /// The field name under which the node hangs from its parent, if any.
    pub field: Option<String>,
    /// How many ancestors the node has: 0 for the root.
    pub depth: usize,
    /// The node's bytes in the source are `start..end`.
    pub start: usize,
    pub end: usize,
    /// The line the node starts on, counted from 0.
    pub row: usize,
}

/// The view of a `NodeInfo`.
pub ghost struct NodeFacts {
    pub kind: Seq<char>,
    pub field: Option<Seq<char>>,
    pub depth: usize,
    pub start: usize,
    pub end: usize,
    pub row: usize,
}

impl View for NodeInfo {
    type V = NodeFacts;

    open spec fn view(&self) -> NodeFacts {
        NodeFacts {
            kind: self.kind@,
            field: match self.field {
                Some(f) => Some(f@),
                None => None,
            },
            depth: self.depth,
            start: self.start,
            end: self.end,
            row: self.row,
        }
    }
}

/// The nodes of a tree-sitter tree, numbered as `TreeCursor::goto_descendant` numbers them
/// (preorder, the root first, `descendant_count` of the root in all), each as a
/// `NodeInfo` gives it.
pub uninterp spec fn tree_nodes(t: Tree) -> Seq<NodeFacts>;

/// The nodes (as `tree_nodes`) of the tree that `Parser::parse` builds for the text
/// `code` with tree-sitter-rust's grammar.
pub uninterp spec fn rust_nodes(code: Seq<char>) -> Seq<NodeFacts>;

/// Calls `Parser::new`, which makes a parser with no language set.
#[verifier::external_body]
fn new_parser() -> Parser {
    Parser::new()
}

/// Calls `Parser::set_language` with tree-sitter-rust's grammar `LANGUAGE`. That grammar
/// has ABI version 15, inside the range 13..=15 this tree-sitter loads, and has a lexer,
/// so it is parseable: the call succeeds. `LanguageError::Version` would come back as
/// `Some` of the version, `LanguageError::NotParseable` as `None`.
#[verifier::external_body]
fn set_rust_language(parser: &mut Parser) -> (res: Result<(), Option<usize>>)
    ensures
        res is Ok,
{
    match parser.set_language(&tree_sitter_rust::LANGUAGE.into()) {
        Ok(()) => Ok(()),
        Err(LanguageError::Version(v)) => Err(Some(v)),
        Err(LanguageError::NotParseable) => Err(None),
    }
}

/// A tree-sitter parser set to the Rust grammar. `rust_parser` is the only place one is
/// made, so every value holds a parser whose language is tree-sitter-rust's grammar.
pub struct RustParser {
    parser: Parser,
}

/// Calls `Parser::parse` with no earlier tree on a parser set to the Rust grammar. With a
/// language set, no progress callback and a grammar compiled to native code, tree-sitter
/// always returns a tree, and the tree depends on the text alone: its nodes are
/// `rust_nodes` of the text.
#[verifier::external_body]
fn parse_rust(parser: &mut RustParser, code: &str) -> (res: Option<Tree>)
    ensures
        res is Some,
        res matches Some(t) ==> tree_nodes(t) == rust_nodes(code@),
{
    parser.parser.parse(code, None)
}

/// Calls `Node::descendant_count` on the tree's root: the number of its nodes.
#[verifier::external_body]
fn tree_node_count(tree: &Tree) -> (res: usize)
    ensures
        res == tree_nodes(*tree).len(),
{
    tree.root_node().descendant_count()
}

/// Moves a new `TreeCursor` of the tree to the node numbered `i` (`goto_descendant`) and
/// reads that node's kind, field name, depth, byte range and start row.
#[verifier::external_body]
fn tree_node_at(tree: &Tree, i: usize) -> (res: NodeInfo)
    requires
        i < tree_nodes(*tree).len(),
    ensures
        res@ == tree_nodes(*tree)[i as int],
{
    let mut cursor = tree.walk();
    cursor.goto_descendant(i);
    let node = cursor.node();
    NodeInfo {
        kind: node.kind().to_string(),
        field: cursor.field_name().map(|f| f.to_string()),
        depth: cursor.depth() as usize,
        start: node.start_byte(),
        end: node.end_byte(),
        row: node.start_position().row,
    }
}

// ---------------------------------------------------------------------------
// Parsing Rust sources into plain syntax trees.
// ---------------------------------------------------------------------------

/// Why the sources could not be scanned: tree-sitter refused the Rust grammar. With the
/// grammar this crate is built with, that does not happen.
#[derive(PartialEq, Eq, Structural, Clone, Copy, Debug)]
pub enum ScanError {
    /// The grammar was built for this ABI version, which this tree-sitter does not load.
    IncompatibleVersion(usize),
    /// Tree-sitter found the grammar unusable for parsing.
    NotParseable,
}

/// A parser for Rust sources. Tree-sitter accepts the Rust grammar, so this succeeds.
pub fn rust_parser() -> (res: Result<RustParser, ScanError>)
    ensures
        res is Ok,
{
    let mut parser = new_parser();
    match set_rust_language(&mut parser) {
        Ok(()) => Ok(RustParser { parser }),
        Err(Some(v)) => Err(ScanError::IncompatibleVersion(v)),
        Err(None) => Err(ScanError::NotParseable),
    }
}

/// Node `i` has a parent one level up and every later node at most one level below the
/// node before it: what the depths of a preorder walk look like.
pub open spec fn depth_step_ok(raw: Seq<NodeFacts>, i: int) -> bool {
    1 <= raw[i].depth <= raw[i - 1].depth + 1
}

/// The depths are those of a preorder walk of one tree: the root at depth 0 first.
pub open spec fn depths_ok(raw: Seq<NodeFacts>) -> bool {
    &&& raw.len() > 0
    &&& raw[0].depth == 0
    &&& forall|i: int| 0 < i < raw.len() ==> #[trigger] depth_step_ok(raw, i)
}

/// The last node before `i` at depth `d`.
pub open spec fn last_at_depth(raw: Seq<NodeFacts>, i: int, d: int) -> Option<int>
    decreases i,
{
    if i <= 0 {
        None
    } else if raw[i - 1].depth == d {
        Some(i - 1)
    } else {
        last_at_depth(raw, i - 1, d)
    }
}

/// A position as a `usize`.
pub open spec fn opt_usize(o: Option<int>) -> Option<usize> {
    match o {
        Some(x) => Some(x as usize),
        None => None,
    }
}

/// The field a field name stands for.
pub open spec fn field_of(f: Option<Seq<char>>) -> Option<FieldName> {
    match f {
        Some(s) => field_named(s),
        None => None,
    }
}

/// Node `i` as a plain syntax node: in preorder its parent is the last node before it one
/// level up.
pub open spec fn node_of(raw: Seq<NodeFacts>, i: int) -> SyntaxNode {
    SyntaxNode {
        kind: kind_named(raw[i].kind),
        field: field_of(raw[i].field),
        parent: opt_usize(last_at_depth(raw, i, raw[i].depth - 1)),
        start: raw[i].start,
        end: raw[i].end,
        row: raw[i].row,
    }
}

/// All nodes as plain syntax nodes.
pub open spec fn flat_nodes(raw: Seq<NodeFacts>) -> Seq<SyntaxNode> {
    Seq::new(raw.len(), |i: int| node_of(raw, i))
}

/// The plain syntax tree of the nodes `raw` for the text `code`: `None` when the depths are
/// not those of a preorder walk or some node does not fit `code` (`tree_ok`).
pub open spec fn flattened(raw: Seq<NodeFacts>, code: Seq<char>) -> Option<Seq<SyntaxNode>> {
    if depths_ok(raw) && tree_ok(flat_nodes(raw), code) {
        Some(flat_nodes(raw))
    } else {
        None
    }
}

/// What `last_at_depth` finds lies before `i` at depth `d`.
proof fn lemma_last_at_depth(raw: Seq<NodeFacts>, i: int, d: int)
    requires
        i <= raw.len(),
    ensures
        last_at_depth(raw, i, d) matches Some(j) ==> 0 <= j < i && raw[j].depth == d,
    decreases i,
{
    if i > 0 && raw[i - 1].depth != d {
        lemma_last_at_depth(raw, i - 1, d);
    }
}

/// The nodes of a tree-sitter tree as a plain syntax tree (`flattened` of its
/// `tree_nodes`): `None` exactly when they do not fit `code`.
pub fn flatten(tree: &Tree, code: &str) -> (res: Option<SyntaxTree>)
    ensures
        match flattened(tree_nodes(*tree), code@) {
            Some(ns) => res matches Some(t) && t.nodes@ == ns,
            None => res is None,
        },
{
    let ghost raw = tree_nodes(*tree);
    let count = tree_node_count(tree);
    if count == 0 {
        return None;
    }
    let len = code.as_bytes().len();
    let mut nodes: Vec<SyntaxNode> = Vec::new();
    // `path[d]` is the last node so far at depth `d`, for the depths up to the last node's.
    let mut path: Vec<usize> = Vec::new();
    let mut i: usize = 0;
    while i < count
        invariant
            count == raw.len(),
            raw == tree_nodes(*tree),
            len == encode_utf8(code@).len(),
            0 <= i <= count,
            nodes@.len() == i,
            forall|k: int| 0 <= k < i ==> nodes@[k] == #[trigger] node_of(raw, k),
            forall|k: int| 0 <= k < i ==> #[trigger] node_ok(nodes@, code@, k),
            i > 0 ==> raw[0].depth == 0,
            forall|k: int| 0 < k < i ==> #[trigger] depth_step_ok(raw, k),
            i == 0 ==> path@.len() == 0,
            i > 0 ==> path@.len() == raw[i - 1].depth + 1,
            forall|d: int| 0 <= d < path@.len() ==> last_at_depth(raw, i as int, d) == Some(#[trigger] path@[d] as int),
        decreases count - i,
    {
        let info = tree_node_at(tree, i);
        let d = info.depth;
        if i == 0 {
            if d != 0 {
                assert(!depths_ok(raw));
                return None;
            }
        } else if d == 0 || d > path.len() {
            assert(!depth_step_ok(raw, i as int));
            assert(!depths_ok(raw));
            return None;
        }
        let parent: Option<usize> = if i == 0 {
            None
        } else {
            Some(path[d - 1])
        };
        let kind = kind_of_name(info.kind.as_str());
        let field = match &info.field {
            Some(f) => field_of_name(f.as_str()),
            None => None,
        };
        let node = SyntaxNode { kind, field, parent, start: info.start, end: info.end, row: info.row };
        proof {
            if i > 0 {
                lemma_last_at_depth(raw, i as int, d - 1);
            }
            assert(node == node_of(raw, i as int));
        }
        let ghost before = nodes@;
        nodes.push(node);
        if !(info.start <= info.end && info.end <= len && code.is_char_boundary(info.start)
            && code.is_char_boundary(info.end) && info.row < usize::MAX) {
            proof {
                assert(!node_ok(nodes@, code@, i as int));
                let fl = flat_nodes(raw);
                assert(fl[i as int] == node_of(raw, i as int));
                assert(!node_ok(fl, code@, i as int));
                assert(!tree_ok(fl, code@));
            }
            return None;
        }
        assert forall|k: int| 0 <= k < i + 1 implies #[trigger] node_ok(nodes@, code@, k) by {
            if k < i {
                assert(node_ok(before, code@, k));
            }
        }
        while path.len() > d
            invariant
                d <= path@.len(),
                forall|e: int| 0 <= e < path@.len() ==> last_at_depth(raw, i as int, e) == Some(#[trigger] path@[e] as int),
            decreases path@.len(),
        {
            path.pop();
        }
        path.push(i);
        proof {
            assert forall|e: int| 0 <= e < path@.len() implies last_at_depth(raw, i + 1, e) == Some(
                #[trigger] path@[e] as int,
            ) by {
                if e < d {
                    assert(raw[i as int].depth != e);
                }
            }
        }
        i = i + 1;
    }
    proof {
        let fl = flat_nodes(raw);
        assert(nodes@ =~= fl);
        assert(depths_ok(raw));
        assert forall|k: int| 0 <= k < fl.len() implies #[trigger] node_ok(fl, code@, k) by {
            assert(node_ok(nodes@, code@, k));
        }
    }
    Some(SyntaxTree { nodes })
}

/// `res` is what extraction gives for the source `code` of the file `path`: the functions of
/// the tree tree-sitter's Rust grammar builds for `code`, in node order; none when that
/// tree does not fit `code`.
pub open spec fn extracted(code: Seq<char>, path: Seq<char>, res: Seq<Function>) -> bool {
    match flattened(rust_nodes(code), code) {
        Some(nodes) => {
            &&& res.len() == functions_of(nodes, code).len()
            &&& forall|k: int| 0 <= k < res.len() ==> records(#[trigger] res[k], functions_of(nodes, code)[k], path)
        },
        None => res.len() == 0,
    }
}

/// The functions declared in the Rust source `code` of the file `path`, as
/// `collect_functions` finds them in the tree tree-sitter's Rust grammar builds for it.
pub fn extract_functions(parser: &mut RustParser, code: &str, path: &str) -> (res: Vec<Function>)
    ensures
        extracted(code@, path@, res@),
{
    match parse_rust(parser, code) {
        Some(tree) => match flatten(&tree, code) {
            Some(flat) => collect_functions(&flat, code, path),
            None => Vec::new(),
        },
        None => Vec::new(),
    }
}

/// A source file: its path and its text.
pub struct SourceFile {
    pub path: String,
    pub code: String,
}

/// All parts, one after the other.
pub open spec fn concat(parts: Seq<Seq<Function>>) -> Seq<Function>
    decreases parts.len(),
{
    if parts.len() == 0 {
        Seq::empty()
    } else {
        concat(parts.drop_last()) + parts.last()
    }
}

/// `part` is what scanning gives for `file`: nothing unless the scanner reads it
/// (`should_scan`), else what extraction may give for it.
pub open spec fn scanned_part(file: SourceFile, part: Seq<Function>) -> bool {
    if crate::extractor::scanned(
        crate::extractor::extension_of(file.path@),
        crate::extractor::components_of(file.path@),
    ) {
        extracted(file.code@, file.path@, part)
    } else {
        part.len() == 0
    }
}

/// The functions of the given sources, file by file in the order given: for each file the
/// scanner reads, the functions tree-sitter's Rust grammar finds in it (`extracted`). The
/// grammar loads, so this succeeds.
pub fn scan_sources(files: &Vec<SourceFile>) -> (res: Result<Vec<Function>, ScanError>)
    ensures
        res matches Ok(fs) && exists|parts: Seq<Seq<Function>>|
            {
                &&& parts.len() == files@.len()
                &&& #[trigger] concat(parts) == fs@
                &&& forall|i: int| 0 <= i < files@.len() ==> scanned_part(files@[i], #[trigger] parts[i])
            },
{
    let mut parser = match rust_parser() {
        Ok(p) => p,
        Err(e) => return Err(e),
    };
    let mut out: Vec<Function> = Vec::new();
    let ghost mut parts: Seq<Seq<Function>> = Seq::empty();
    let mut i: usize = 0;
    while i < files.len()
        invariant
            0 <= i <= files@.len(),
            parts.len() == i,
            concat(parts) == out@,
            forall|k: int| 0 <= k < i ==> scanned_part(files@[k], #[trigger] parts[k]),
        decreases files@.len() - i,
    {
        let f = &files[i];
        let ghost before = out@;
        let ghost part: Seq<Function>;
        if crate::extractor::should_scan(f.path.as_str()) {
            let mut found = extract_functions(&mut parser, f.code.as_str(), f.path.as_str());
            proof {
                part = found@;
            }
            out.append(&mut found);
        } else {
            proof {
                part = Seq::empty();
            }
        }
        proof {
            assert(out@ =~= before + part);
            let old_parts = parts;
            parts = parts.push(part);
            assert(parts.drop_last() =~= old_parts);
            assert forall|k: int| 0 <= k < i + 1 implies scanned_part(files@[k], #[trigger] parts[k]) by {
                if k < i {
                    assert(parts[k] == old_parts[k]);
                }
            }
        }
        i = i + 1;
    }
    Ok(out)
}

} // verus!

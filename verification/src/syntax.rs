use vstd::prelude::*;
use vstd::string::StringSliceAdditionalSpecFns;
use vstd::utf8::encode_utf8;
use crate::text::{byte_text, is_boundary, slice_text, str_less, str_lt, lemma_str_lt_order};
use crate::extractor::{Function, opt_view, views};

verus! {

// ---------------------------------------------------------------------------
// A syntax tree held as plain values: nodes in preorder, each naming its parent.
// ---------------------------------------------------------------------------

/// The node kinds that function extraction looks at.
#[derive(PartialEq, Eq, Structural, Clone, Copy, Debug)]
pub enum NodeKind {
    ImplItem,
    TraitItem,
    FunctionItem,
    CallExpression,
    Identifier,
    ScopedIdentifier,
    FieldExpression,
    Other,
}

/// The field names, under its parent, that function extraction looks at.
#[derive(PartialEq, Eq, Structural, Clone, Copy, Debug)]
pub enum FieldName {
    Name,
    Type,
    Body,
    Function,
    Field,
}

/// One node of a syntax tree.
#[derive(Clone, Copy, Debug)]
pub struct SyntaxNode {
    pub kind: NodeKind,
    /// The field under which the node hangs from its parent, if it is one of `FieldName`.
    pub field: Option<FieldName>,
    /// The position of the parent node; `None` for the root.
    pub parent: Option<usize>,
    /// The node's source text is the bytes `start..end` of the file.
    pub start: usize,
    pub end: usize,
    /// The line the node starts on, counted from 0.
    pub row: usize,
}

/// A syntax tree: its nodes in preorder, the root first.
pub struct SyntaxTree {
    pub nodes: Vec<SyntaxNode>,
}

/// The node kind a tree-sitter kind name stands for.
pub open spec fn kind_named(s: Seq<char>) -> NodeKind {
    if s == "impl_item"@ {
        NodeKind::ImplItem
    } else if s == "trait_item"@ {
        NodeKind::TraitItem
    } else if s == "function_item"@ {
        NodeKind::FunctionItem
    } else if s == "call_expression"@ {
        NodeKind::CallExpression
    } else if s == "identifier"@ {
        NodeKind::Identifier
    } else if s == "scoped_identifier"@ {
        NodeKind::ScopedIdentifier
    } else if s == "field_expression"@ {
        NodeKind::FieldExpression
    } else {
        NodeKind::Other
    }
}

/// The field a tree-sitter field name stands for.
pub open spec fn field_named(s: Seq<char>) -> Option<FieldName> {
    if s == "name"@ {
        Some(FieldName::Name)
    } else if s == "type"@ {
        Some(FieldName::Type)
    } else if s == "body"@ {
        Some(FieldName::Body)
    } else if s == "function"@ {
        Some(FieldName::Function)
    } else if s == "field"@ {
        Some(FieldName::Field)
    } else {
        None
    }
}

/// The node kind for a tree-sitter kind name.
pub fn kind_of_name(s: &str) -> (res: NodeKind)
    ensures
        res == kind_named(s@),
{
    if crate::text::str_eq(s, "impl_item") {
        NodeKind::ImplItem
    } else if crate::text::str_eq(s, "trait_item") {
        NodeKind::TraitItem
    } else if crate::text::str_eq(s, "function_item") {
        NodeKind::FunctionItem
    } else if crate::text::str_eq(s, "call_expression") {
        NodeKind::CallExpression
    } else if crate::text::str_eq(s, "identifier") {
        NodeKind::Identifier
    } else if crate::text::str_eq(s, "scoped_identifier") {
        NodeKind::ScopedIdentifier
    } else if crate::text::str_eq(s, "field_expression") {
        NodeKind::FieldExpression
    } else {
        NodeKind::Other
    }
}

/// The field for a tree-sitter field name.
pub fn field_of_name(s: &str) -> (res: Option<FieldName>)
    ensures
        res == field_named(s@),
{
    if crate::text::str_eq(s, "name") {
        Some(FieldName::Name)
    } else if crate::text::str_eq(s, "type") {
        Some(FieldName::Type)
    } else if crate::text::str_eq(s, "body") {
        Some(FieldName::Body)
    } else if crate::text::str_eq(s, "function") {
        Some(FieldName::Function)
    } else if crate::text::str_eq(s, "field") {
        Some(FieldName::Field)
    } else {
        None
    }
}

/// The node at `i` is well formed for `code`: its parent comes before it, its byte
/// range lies in `code` on character boundaries, and its line number can be counted from 1.
pub open spec fn node_ok(nodes: Seq<SyntaxNode>, code: Seq<char>, i: int) -> bool {
    let n = nodes[i];
    &&& (n.parent matches Some(p) ==> p < i)
    &&& n.start <= n.end <= encode_utf8(code).len()
    &&& is_boundary(code, n.start as int)
    &&& is_boundary(code, n.end as int)
    &&& n.row < usize::MAX
}

/// Every node of the tree is well formed for `code`.
pub open spec fn tree_ok(nodes: Seq<SyntaxNode>, code: Seq<char>) -> bool {
    forall|i: int| 0 <= i < nodes.len() ==> #[trigger] node_ok(nodes, code, i)
}

/// The source text of node `i`.
pub open spec fn text(nodes: Seq<SyntaxNode>, code: Seq<char>, i: int) -> Seq<char> {
    byte_text(code, nodes[i].start as int, nodes[i].end as int)
}

/// The first node at or after `j` that hangs from `i` under field `f`.
pub open spec fn field_child_from(nodes: Seq<SyntaxNode>, i: int, f: FieldName, j: int) -> Option<int>
    decreases nodes.len() - j,
{
    if j < 0 || j >= nodes.len() {
        None
    } else if nodes[j].parent == Some(i as usize) && nodes[j].field == Some(f) {
        Some(j)
    } else {
        field_child_from(nodes, i, f, j + 1)
    }
}

/// A field child found from `j` on lies at or after `j`, inside the tree, and hangs from `i`.
pub proof fn lemma_field_child_from_range(nodes: Seq<SyntaxNode>, i: int, f: FieldName, j: int)
    ensures
        field_child_from(nodes, i, f, j) matches Some(c) ==> j <= c < nodes.len()
            && nodes[c].parent == Some(i as usize),
    decreases nodes.len() - j,
{
    if 0 <= j < nodes.len() {
        lemma_field_child_from_range(nodes, i, f, j + 1);
    }
}

/// The first child of node `i` under field `f` (what `child_by_field_name` finds).
pub open spec fn field_child(nodes: Seq<SyntaxNode>, i: int, f: FieldName) -> Option<int> {
    field_child_from(nodes, i, f, i + 1)
}

/// The node whose text names the owner in scope at node `i`: the `type` of the nearest
/// enclosing `impl` or the `name` of the nearest enclosing `trait`, the node itself included.
pub open spec fn owner_node(nodes: Seq<SyntaxNode>, i: int) -> Option<int>
    decreases i,
{
    if i < 0 || i >= nodes.len() {
        None
    } else {
        let inherited = match nodes[i].parent {
            Some(p) => if (p as int) < i { owner_node(nodes, p as int) } else { None },
            None => None,
        };
        match nodes[i].kind {
            NodeKind::ImplItem => match field_child(nodes, i, FieldName::Type) {
                Some(c) => Some(c),
                None => inherited,
            },
            NodeKind::TraitItem => match field_child(nodes, i, FieldName::Name) {
                Some(c) => Some(c),
                None => inherited,
            },
            _ => inherited,
        }
    }
}

/// The owner node, if any, lies inside the tree.
pub proof fn lemma_owner_node_range(nodes: Seq<SyntaxNode>, i: int)
    ensures
        owner_node(nodes, i) matches Some(c) ==> 0 <= c < nodes.len(),
    decreases i,
{
    if 0 <= i < nodes.len() {
        lemma_field_child_from_range(nodes, i, FieldName::Type, i + 1);
        lemma_field_child_from_range(nodes, i, FieldName::Name, i + 1);
        match nodes[i].parent {
            Some(p) => if (p as int) < i {
                lemma_owner_node_range(nodes, p as int);
            },
            None => {},
        }
    }
}

/// Node `j` lies in the subtree of node `b` (`b` itself included).
pub open spec fn within(nodes: Seq<SyntaxNode>, j: int, b: int) -> bool
    decreases j,
{
    if j == b {
        true
    } else if j <= 0 || j >= nodes.len() {
        false
    } else {
        match nodes[j].parent {
            Some(p) => (p as int) < j && within(nodes, p as int, b),
            None => false,
        }
    }
}

/// The text of node `c`, if there is one.
pub open spec fn text_of(nodes: Seq<SyntaxNode>, code: Seq<char>, c: Option<int>) -> Option<Seq<char>> {
    match c {
        Some(c) => Some(text(nodes, code, c)),
        None => None,
    }
}

/// The name a call expression calls: `foo(..)` gives `foo`, `Type::foo(..)` gives `foo`,
/// `obj.foo(..)` gives `foo`; other callees give none.
pub open spec fn call_name(nodes: Seq<SyntaxNode>, code: Seq<char>, j: int) -> Option<Seq<char>> {
    match field_child(nodes, j, FieldName::Function) {
        Some(f) => match nodes[f].kind {
            NodeKind::Identifier => Some(text(nodes, code, f)),
            NodeKind::ScopedIdentifier => text_of(nodes, code, field_child(nodes, f, FieldName::Name)),
            NodeKind::FieldExpression => text_of(nodes, code, field_child(nodes, f, FieldName::Field)),
            _ => None,
        },
        None => None,
    }
}

/// Node `j` is a call expression in the subtree of `b` that calls `s`.
pub open spec fn calls_at(nodes: Seq<SyntaxNode>, code: Seq<char>, b: int, j: int, s: Seq<char>) -> bool {
    &&& b <= j < nodes.len()
    &&& within(nodes, j, b)
    &&& nodes[j].kind == NodeKind::CallExpression
    &&& call_name(nodes, code, j) == Some(s)
}

/// The names called by call expressions among the first `k` nodes of the subtree of `b`.
pub open spec fn calls_upto(nodes: Seq<SyntaxNode>, code: Seq<char>, b: int, k: int) -> Set<Seq<char>> {
    Set::new(|s: Seq<char>| exists|j: int| j < k && #[trigger] calls_at(nodes, code, b, j, s))
}

/// The names called anywhere in the subtree of `b`.
pub open spec fn calls_under(nodes: Seq<SyntaxNode>, code: Seq<char>, b: int) -> Set<Seq<char>> {
    calls_upto(nodes, code, b, nodes.len() as int)
}

/// What the scanner records of one function.
pub ghost struct FoundFn {
    pub name: Seq<char>,
    pub owner: Option<Seq<char>>,
    pub line: int,
    pub body: Seq<char>,
    pub calls: Set<Seq<char>>,
}

/// The calls recorded for a function whose body node is `body`.
pub open spec fn body_calls(nodes: Seq<SyntaxNode>, code: Seq<char>, body: Option<int>) -> Set<Seq<char>> {
    match body {
        Some(b) => calls_under(nodes, code, b),
        None => Set::empty(),
    }
}

/// The record of the function that node `i` declares, whose name node is `n`.
pub open spec fn fn_record(nodes: Seq<SyntaxNode>, code: Seq<char>, i: int, n: int) -> FoundFn {
    FoundFn {
        name: text(nodes, code, n),
        owner: text_of(nodes, code, owner_node(nodes, i)),
        line: nodes[i].row + 1,
        body: text(nodes, code, i),
        calls: body_calls(nodes, code, field_child(nodes, i, FieldName::Body)),
    }
}

/// The function that node `i` declares, if it is a `function_item` with a name.
pub open spec fn function_at(nodes: Seq<SyntaxNode>, code: Seq<char>, i: int) -> Option<FoundFn> {
    if nodes[i].kind is FunctionItem {
        match field_child(nodes, i, FieldName::Name) {
            Some(n) => Some(fn_record(nodes, code, i, n)),
            None => None,
        }
    } else {
        None
    }
}

/// The functions declared by the first `n` nodes, in node order.
pub open spec fn functions_upto(nodes: Seq<SyntaxNode>, code: Seq<char>, n: int) -> Seq<FoundFn>
    decreases n,
{
    if n <= 0 {
        seq![]
    } else {
        let rest = functions_upto(nodes, code, n - 1);
        match function_at(nodes, code, n - 1) {
            Some(f) => rest.push(f),
            None => rest,
        }
    }
}

/// The functions a tree declares, in node order.
pub open spec fn functions_of(nodes: Seq<SyntaxNode>, code: Seq<char>) -> Seq<FoundFn> {
    functions_upto(nodes, code, nodes.len() as int)
}

/// The names are in strictly increasing `String` order (so each occurs once).
pub open spec fn strictly_sorted(v: Seq<Seq<char>>) -> bool {
    forall|i: int, j: int| 0 <= i < j < v.len() ==> str_lt(#[trigger] v[i], #[trigger] v[j])
}

/// Law: a strictly sorted list of names is fixed by the names it holds. So the call list
/// of a function is the one sorted list of its called names, and a repeated call of
/// `find_calls` gives the same list.
pub proof fn lemma_sorted_unique(a: Seq<Seq<char>>, b: Seq<Seq<char>>)
    requires
        strictly_sorted(a),
        strictly_sorted(b),
        a.to_set() == b.to_set(),
    ensures
        a == b,
    decreases a.len(),
{
    if a.len() == 0 {
        if b.len() > 0 {
            assert(b.to_set().contains(b[0]));
        }
        assert(a =~= b);
    } else {
        assert(a.to_set().contains(a[0]));
        assert(b.len() > 0);
        assert(b.to_set().contains(b[0]));
        assert(b.contains(a[0]));
        assert(a.contains(b[0]));
        let j = choose|j: int| 0 <= j < b.len() && b[j] == a[0];
        let i = choose|i: int| 0 <= i < a.len() && a[i] == b[0];
        lemma_str_lt_order(a[0], a[0], a[0]);
        if j > 0 {
            assert(str_lt(b[0], b[j]));
            if i > 0 {
                assert(str_lt(a[0], a[i]));
                lemma_str_lt_order(a[0], b[0], a[0]);
            }
        }
        assert(a[0] == b[0]);
        let ra = a.drop_first();
        let rb = b.drop_first();
        assert forall|x: Seq<char>| ra.to_set().contains(x) <==> rb.to_set().contains(x) by {
            if ra.to_set().contains(x) {
                assert(ra.contains(x));
                let k = choose|k: int| 0 <= k < ra.len() && ra[k] == x;
                assert(a[k + 1] == x);
                assert(str_lt(a[0], a[k + 1]));
                assert(b.to_set().contains(x));
                assert(b.contains(x));
                let m = choose|m: int| 0 <= m < b.len() && b[m] == x;
                if m == 0 {
                    lemma_str_lt_order(x, x, x);
                }
                assert(rb[m - 1] == x);
            }
            if rb.to_set().contains(x) {
                assert(rb.contains(x));
                let k = choose|k: int| 0 <= k < rb.len() && rb[k] == x;
                assert(b[k + 1] == x);
                assert(str_lt(b[0], b[k + 1]));
                assert(a.to_set().contains(x));
                assert(a.contains(x));
                let m = choose|m: int| 0 <= m < a.len() && a[m] == x;
                if m == 0 {
                    lemma_str_lt_order(x, x, x);
                }
                assert(ra[m - 1] == x);
            }
        }
        assert(ra.to_set() =~= rb.to_set());
        lemma_sorted_unique(ra, rb);
        assert(a =~= seq![a[0]] + ra);
        assert(b =~= seq![b[0]] + rb);
    }
}

/// Law: adding a name that a sorted call list already holds leaves the list as it was, so
/// collecting the calls of a subtree twice changes nothing.
pub proof fn lemma_insert_present(before: Seq<Seq<char>>, after: Seq<Seq<char>>, s: Seq<char>)
    requires
        strictly_sorted(before),
        strictly_sorted(after),
        after.to_set() == before.to_set().insert(s),
        before.contains(s),
    ensures
        after == before,
{
    assert(before.to_set().contains(s));
    assert(before.to_set().insert(s) =~= before.to_set());
    lemma_sorted_unique(after, before);
}

/// `f` records the function `s` found in file `file`.
pub open spec fn records(f: Function, s: FoundFn, file: Seq<char>) -> bool {
    &&& f.name@ == s.name
    &&& opt_view(f.owner) == s.owner
    &&& f.file@ == file
    &&& f.line == s.line
    &&& f.body@ == s.body
    &&& strictly_sorted(views(f.calls@))
    &&& views(f.calls@).to_set() == s.calls
    &&& f.doc@ == Seq::<char>::empty()
}

// ---------------------------------------------------------------------------
// Extraction, proved against the definitions above.
// ---------------------------------------------------------------------------

/// A position as a mathematical integer.
pub open spec fn opt_int(o: Option<usize>) -> Option<int> {
    match o {
        Some(x) => Some(x as int),
        None => None,
    }
}

/// Going one node further: the names called up to node `j + 1` are those called up to
/// node `j` and the one node `j` calls, if any.
proof fn lemma_calls_upto_step(nodes: Seq<SyntaxNode>, code: Seq<char>, b: int, j: int)
    ensures
        forall|x: Seq<char>|
            #[trigger] calls_upto(nodes, code, b, j + 1).contains(x) <==> (calls_upto(nodes, code, b, j).contains(x)
                || calls_at(nodes, code, b, j, x)),
{
    assert forall|x: Seq<char>|
        #[trigger] calls_upto(nodes, code, b, j + 1).contains(x) <==> (calls_upto(nodes, code, b, j).contains(x)
            || calls_at(nodes, code, b, j, x)) by {
        if calls_upto(nodes, code, b, j + 1).contains(x) {
            let w = choose|w: int| w < j + 1 && #[trigger] calls_at(nodes, code, b, w, x);
            if w < j {
                assert(calls_upto(nodes, code, b, j).contains(x));
            }
        }
        if calls_upto(nodes, code, b, j).contains(x) {
            let w = choose|w: int| w < j && #[trigger] calls_at(nodes, code, b, w, x);
            assert(calls_at(nodes, code, b, w, x));
        }
        if calls_at(nodes, code, b, j, x) {
            assert(calls_upto(nodes, code, b, j + 1).contains(x));
        }
    }
}

impl SyntaxTree {
    /// Whether every node is well formed for `code` (see `node_ok`).
    pub fn is_well_formed(&self, code: &str) -> (res: bool)
        ensures
            res == tree_ok(self.nodes@, code@),
    {
        let len = code.as_bytes().len();
        let mut i: usize = 0;
        while i < self.nodes.len()
            invariant
                len == encode_utf8(code@).len(),
                0 <= i <= self.nodes@.len(),
                forall|k: int| 0 <= k < i ==> #[trigger] node_ok(self.nodes@, code@, k),
            decreases self.nodes@.len() - i,
        {
            let n = self.nodes[i];
            let parent_ok = match n.parent {
                Some(p) => p < i,
                None => true,
            };
            if !(parent_ok && n.start <= n.end && n.end <= len && code.is_char_boundary(n.start)
                && code.is_char_boundary(n.end) && n.row < usize::MAX) {
                assert(!node_ok(self.nodes@, code@, i as int));
                return false;
            }
            i = i + 1;
        }
        true
    }

    /// The first child of node `i` under field `f`.
    pub fn child_by_field(&self, i: usize, f: FieldName) -> (res: Option<usize>)
        requires
            i < self.nodes@.len(),
        ensures
            opt_int(res) == field_child(self.nodes@, i as int, f),
            res matches Some(c) ==> i < c < self.nodes@.len(),
    {
        let ghost nodes = self.nodes@;
        proof {
            lemma_field_child_from_range(nodes, i as int, f, i + 1);
        }
        let count = self.nodes.len();
        let mut j: usize = i + 1;
        while j < count
            invariant
                nodes == self.nodes@,
                count == nodes.len(),
                i < j <= nodes.len(),
                field_child(nodes, i as int, f) == field_child_from(nodes, i as int, f, j as int),
            decreases nodes.len() - j,
        {
            let n = self.nodes[j];
            let same_parent = match n.parent {
                Some(p) => p == i,
                None => false,
            };
            let same_field = match n.field {
                Some(g) => g == f,
                None => false,
            };
            if same_parent && same_field {
                return Some(j);
            }
            j = j + 1;
        }
        None
    }

    /// The source text of node `i`.
    pub fn node_text(&self, code: &str, i: usize) -> (res: String)
        requires
            tree_ok(self.nodes@, code@),
            i < self.nodes@.len(),
        ensures
            res@ == text(self.nodes@, code@, i as int),
    {
        assert(node_ok(self.nodes@, code@, i as int));
        slice_text(code, self.nodes[i].start, self.nodes[i].end)
    }

    /// The name that the call expression at node `j` calls, if any.
    pub fn call_name_at(&self, code: &str, j: usize) -> (res: Option<String>)
        requires
            tree_ok(self.nodes@, code@),
            j < self.nodes@.len(),
        ensures
            opt_view(res) == call_name(self.nodes@, code@, j as int),
    {
        match self.child_by_field(j, FieldName::Function) {
            Some(f) => match self.nodes[f].kind {
                NodeKind::Identifier => Some(self.node_text(code, f)),
                NodeKind::ScopedIdentifier => match self.child_by_field(f, FieldName::Name) {
                    Some(c) => Some(self.node_text(code, c)),
                    None => None,
                },
                NodeKind::FieldExpression => match self.child_by_field(f, FieldName::Field) {
                    Some(c) => Some(self.node_text(code, c)),
                    None => None,
                },
                _ => None,
            },
            None => None,
        }
    }

    /// The names called in the subtree of node `b`, each once, in `String` order.
    pub fn find_calls(&self, code: &str, b: usize) -> (res: Vec<String>)
        requires
            tree_ok(self.nodes@, code@),
            b < self.nodes@.len(),
        ensures
            strictly_sorted(views(res@)),
            views(res@).to_set() == calls_under(self.nodes@, code@, b as int),
    {
        let ghost nodes = self.nodes@;
        let mut marks: Vec<bool> = Vec::new();
        let mut res: Vec<String> = Vec::new();
        let mut j: usize = 0;
        assert(views(res@).to_set() =~= calls_upto(nodes, code@, b as int, 0));
        while j < self.nodes.len()
            invariant
                nodes == self.nodes@,
                tree_ok(nodes, code@),
                b < nodes.len(),
                0 <= j <= nodes.len(),
                marks@.len() == j,
                forall|k: int| 0 <= k < j ==> marks@[k] == within(nodes, k, b as int),
                strictly_sorted(views(res@)),
                views(res@).to_set() == calls_upto(nodes, code@, b as int, j as int),
            decreases nodes.len() - j,
        {
            let n = self.nodes[j];
            let m = if j == b {
                true
            } else if j == 0 {
                false
            } else {
                match n.parent {
                    Some(p) => p < j && marks[p],
                    None => false,
                }
            };
            marks.push(m);
            let ghost before = calls_upto(nodes, code@, b as int, j as int);
            let ghost after = calls_upto(nodes, code@, b as int, j + 1);
            proof {
                lemma_calls_upto_step(nodes, code@, b as int, j as int);
            }
            if b <= j && m && n.kind == NodeKind::CallExpression {
                match self.call_name_at(code, j) {
                    Some(s) => {
                        let ghost sv = s@;
                        insert_sorted(&mut res, s);
                        assert(after =~= before.insert(sv));
                    },
                    None => {
                        assert(after =~= before);
                    },
                }
            } else {
                assert(after =~= before);
            }
            j = j + 1;
        }
        res
    }
}

/// Adds `s` to a strictly sorted list of names, unless it is already there.
pub fn insert_sorted(v: &mut Vec<String>, s: String)
    requires
        strictly_sorted(views(old(v)@)),
    ensures
        strictly_sorted(views(final(v)@)),
        views(final(v)@).to_set() == views(old(v)@).to_set().insert(s@),
{
    let ghost old_views = views(v@);
    let mut i: usize = 0;
    let mut going = true;
    while going && i < v.len()
        invariant
            views(v@) == old_views,
            strictly_sorted(old_views),
            0 <= i <= v@.len(),
            forall|k: int| 0 <= k < i ==> str_lt(#[trigger] old_views[k], s@),
            !going ==> i < v@.len() && !str_lt(old_views[i as int], s@),
        decreases v@.len() - i + (if going { 1int } else { 0int }),
    {
        if str_less(v[i].as_str(), s.as_str()) {
            i = i + 1;
        } else {
            going = false;
        }
    }
    if i < v.len() && crate::text::str_eq(v[i].as_str(), s.as_str()) {
        assert(old_views.to_set().insert(s@) =~= old_views.to_set()) by {
            assert(old_views[i as int] == s@);
        }
        return;
    }
    proof {
        if i < old_views.len() {
            lemma_str_lt_order(old_views[i as int], s@, s@);
            assert(!str_lt(old_views[i as int], s@));
            assert(old_views[i as int] != s@);
            lemma_str_lt_order(s@, old_views[i as int], s@);
            assert(str_lt(s@, old_views[i as int]));
        }
    }
    let ghost sv = s@;
    v.insert(i, s);
    let ghost new_views = views(v@);
    assert(new_views =~= old_views.insert(i as int, sv));
    assert forall|a: int, c: int| 0 <= a < c < new_views.len() implies str_lt(
        #[trigger] new_views[a],
        #[trigger] new_views[c],
    ) by {
        if c == i {
            assert(str_lt(old_views[a], sv));
        } else if a == i {
            let k = c - 1;
            if k > i {
                assert(str_lt(old_views[i as int], old_views[k]));
                lemma_str_lt_order(sv, old_views[i as int], old_views[k]);
            }
        } else if a < i && c > i {
            let k = c - 1;
            assert(str_lt(old_views[a], sv));
            if k == i {
                lemma_str_lt_order(old_views[a], sv, old_views[k]);
            } else {
                assert(str_lt(old_views[i as int], old_views[k]));
                lemma_str_lt_order(sv, old_views[i as int], old_views[k]);
                lemma_str_lt_order(old_views[a], sv, old_views[k]);
            }
        } else if a > i {
            assert(str_lt(old_views[a - 1], old_views[c - 1]));
        } else {
            assert(str_lt(old_views[a], old_views[c]));
        }
    }
    assert forall|x: Seq<char>| new_views.to_set().contains(x) <==> old_views.to_set().insert(sv).contains(x) by {
        if new_views.to_set().contains(x) {
            let k = choose|k: int| 0 <= k < new_views.len() && new_views[k] == x;
            if k < i {
                assert(old_views[k] == x);
            } else if k > i {
                assert(old_views[k - 1] == x);
            }
        }
        if old_views.to_set().contains(x) {
            let k = choose|k: int| 0 <= k < old_views.len() && old_views[k] == x;
            if k < i {
                assert(new_views[k] == x);
            } else {
                assert(new_views[k + 1] == x);
            }
        }
        if x == sv {
            assert(new_views[i as int] == x);
        }
    }
    assert(new_views.to_set() =~= old_views.to_set().insert(sv));
}

/// The functions declared in a well-formed syntax tree of the file `path`, in node order,
/// each with its owner, line, source text and the names its body calls.
pub fn collect_functions(tree: &SyntaxTree, code: &str, path: &str) -> (out: Vec<Function>)
    requires
        tree_ok(tree.nodes@, code@),
    ensures
        out@.len() == functions_of(tree.nodes@, code@).len(),
        forall|k: int| 0 <= k < out@.len() ==> records(#[trigger] out@[k], functions_of(tree.nodes@, code@)[k], path@),
{
    let ghost nodes = tree.nodes@;
    let n = tree.nodes.len();
    let mut owners: Vec<Option<usize>> = Vec::new();
    let mut out: Vec<Function> = Vec::new();
    let mut i: usize = 0;
    while i < n
        invariant
            nodes == tree.nodes@,
            n == nodes.len(),
            tree_ok(nodes, code@),
            0 <= i <= n,
            owners@.len() == i,
            forall|k: int| 0 <= k < i ==> opt_int(#[trigger] owners@[k]) == owner_node(nodes, k),
            out@.len() == functions_upto(nodes, code@, i as int).len(),
            forall|k: int| 0 <= k < out@.len() ==> records(#[trigger] out@[k], functions_upto(nodes, code@, i as int)[k], path@),
        decreases n - i,
    {
        let node = tree.nodes[i];
        assert(node_ok(nodes, code@, i as int));
        let inherited = match node.parent {
            Some(p) => if p < i { owners[p] } else { None },
            None => None,
        };
        let own = match node.kind {
            NodeKind::ImplItem => match tree.child_by_field(i, FieldName::Type) {
                Some(c) => Some(c),
                None => inherited,
            },
            NodeKind::TraitItem => match tree.child_by_field(i, FieldName::Name) {
                Some(c) => Some(c),
                None => inherited,
            },
            _ => inherited,
        };
        assert(opt_int(own) == owner_node(nodes, i as int));
        proof {
            lemma_owner_node_range(nodes, i as int);
        }
        owners.push(own);
        let ghost before = out@;
        if node.kind == NodeKind::FunctionItem {
            match tree.child_by_field(i, FieldName::Name) {
                Some(nm) => {
                    let owner = match own {
                        Some(c) => Some(tree.node_text(code, c)),
                        None => None,
                    };
                    let calls = match tree.child_by_field(i, FieldName::Body) {
                        Some(b) => tree.find_calls(code, b),
                        None => {
                            let v: Vec<String> = Vec::new();
                            assert(views(v@).to_set() =~= Set::<Seq<char>>::empty());
                            assert(strictly_sorted(views(v@)));
                            v
                        },
                    };
                    let f = Function {
                        name: tree.node_text(code, nm),
                        owner: owner,
                        file: path.to_owned(),
                        line: node.row + 1,
                        body: tree.node_text(code, i),
                        calls: calls,
                        doc: String::new(),
                    };
                    out.push(f);
                    assert(records(out@[before.len() as int], function_at(nodes, code@, i as int).unwrap(), path@));
                },
                None => {},
            }
        }
        i = i + 1;
    }
    out
}

} // verus!

use vstd::prelude::*;
use vstd::string::StringSliceAdditionalSpecFns;
use crate::text::str_eq;

verus! {

// ---------------------------------------------------------------------------
// A function found in the scanned sources.
// ---------------------------------------------------------------------------

/// A function or method of the scanned project.
pub struct Function {
    /// The function's own name.
    pub name: String,
    /// The type of the enclosing `impl`, or the name of the enclosing `trait`.
    pub owner: Option<String>,
    /// The file the function was found in.
    pub file: String,
    /// The line on which the function starts, counted from 1.
    pub line: usize,
    /// The source text of the whole function.
    pub body: String,
    /// The names the function's body calls, each once, in `String` order.
    pub calls: Vec<String>,
    /// The function's documentation text; the scanner leaves it empty.
    pub doc: String,
}

/// The characters of an optional string.
pub open spec fn opt_view(o: Option<String>) -> Option<Seq<char>> {
    match o {
        Some(s) => Some(s@),
        None => None,
    }
}

/// The characters of each string in a sequence.
pub open spec fn views(v: Seq<String>) -> Seq<Seq<char>> {
    v.map_values(|s: String| s@)
}

/// `owner::name` for a method, `name` for a free function.
pub open spec fn qualified_name(owner: Option<Seq<char>>, name: Seq<char>) -> Seq<char> {
    match owner {
        Some(o) => o + "::"@ + name,
        None => name,
    }
}

impl Function {
    /// The function's name qualified by its owner: `Owner::name`, or `name` alone.
    pub fn full_name(&self) -> (res: String)
        ensures
            res@ == qualified_name(opt_view(self.owner), self.name@),
    {
        match &self.owner {
            Some(o) => {
                let mut s = o.clone();
                s.append("::");
                s.append(self.name.as_str());
                s
            },
            None => self.name.clone(),
        }
    }

    /// Whether the function's body calls `name` (callers match by name only).
    pub fn calls_name(&self, name: &str) -> (res: bool)
        ensures
            res == views(self.calls@).contains(name@),
    {
        let mut i: usize = 0;
        while i < self.calls.len()
            invariant
                0 <= i <= self.calls@.len(),
                forall|j: int| 0 <= j < i ==> self.calls@[j]@ != name@,
            decreases self.calls@.len() - i,
        {
            if str_eq(self.calls[i].as_str(), name) {
                assert(views(self.calls@)[i as int] == name@);
                return true;
            }
            i = i + 1;
        }
        assert(!views(self.calls@).contains(name@)) by {
            if views(self.calls@).contains(name@) {
                let k = choose|k: int| 0 <= k < views(self.calls@).len() && views(self.calls@)[k] == name@;
                assert(self.calls@[k]@ == name@);
            }
        }
        false
    }
}

/// The positions, in order, of the functions whose bodies call `name`.
pub open spec fn caller_positions(funcs: Seq<Function>, name: Seq<char>, n: int) -> Seq<int>
    decreases n,
{
    if n <= 0 {
        seq![]
    } else {
        let rest = caller_positions(funcs, name, n - 1);
        if views(funcs[n - 1].calls@).contains(name) {
            rest.push(n - 1)
        } else {
            rest
        }
    }
}

/// The positions that `caller_positions` lists among the first `n` are those below `n` whose
/// call lists hold `name`, in increasing order.
proof fn lemma_caller_positions_exact(funcs: Seq<Function>, name: Seq<char>, n: int)
    requires
        0 <= n <= funcs.len(),
    ensures
        forall|k: int|
            caller_positions(funcs, name, n).contains(k) <==> (0 <= k < n && #[trigger] views(funcs[k].calls@).contains(name)),
        forall|a: int, b: int|
            0 <= a < b < caller_positions(funcs, name, n).len() ==> caller_positions(funcs, name, n)[a]
                < caller_positions(funcs, name, n)[b],
        forall|a: int|
            0 <= a < caller_positions(funcs, name, n).len() ==> 0 <= #[trigger] caller_positions(funcs, name, n)[a] < n,
    decreases n,
{
    if n > 0 {
        lemma_caller_positions_exact(funcs, name, n - 1);
        let rest = caller_positions(funcs, name, n - 1);
        if views(funcs[n - 1].calls@).contains(name) {
            let all = rest.push(n - 1);
            assert forall|k: int| all.contains(k) <==> (0 <= k < n && #[trigger] views(funcs[k].calls@).contains(name)) by {
                if k == n - 1 {
                    assert(all[rest.len() as int] == k);
                }
                if all.contains(k) && k != n - 1 {
                    let j = choose|j: int| 0 <= j < all.len() && all[j] == k;
                    assert(rest[j] == k);
                    assert(rest.contains(k));
                }
                if rest.contains(k) {
                    let j = choose|j: int| 0 <= j < rest.len() && rest[j] == k;
                    assert(all[j] == k);
                }
            }
        }
    }
}

/// Law: the callers of `name` are exactly the functions whose call lists hold `name`, each
/// listed once, in the order given, whatever their own names (a recursive function is a
/// caller of itself).
pub proof fn lemma_callers_exact(funcs: Seq<Function>, name: Seq<char>)
    ensures
        forall|k: int|
            caller_positions(funcs, name, funcs.len() as int).contains(k) <==> (0 <= k < funcs.len()
                && #[trigger] views(funcs[k].calls@).contains(name)),
        forall|a: int, b: int|
            0 <= a < b < caller_positions(funcs, name, funcs.len() as int).len() ==> caller_positions(
                funcs,
                name,
                funcs.len() as int,
            )[a] < caller_positions(funcs, name, funcs.len() as int)[b],
{
    lemma_caller_positions_exact(funcs, name, funcs.len() as int);
}

/// The positions, in order, of the functions that call `name` (the `callers` command).
pub fn callers_of(funcs: &[Function], name: &str) -> (res: Vec<usize>)
    ensures
        res@.map_values(|i: usize| i as int) == caller_positions(funcs@, name@, funcs@.len() as int),
{
    let mut res: Vec<usize> = Vec::new();
    let mut i: usize = 0;
    while i < funcs.len()
        invariant
            0 <= i <= funcs@.len(),
            res@.map_values(|i: usize| i as int) == caller_positions(funcs@, name@, i as int),
        decreases funcs@.len() - i,
    {
        let ghost before = res@;
        if funcs[i].calls_name(name) {
            res.push(i);
            assert(res@.map_values(|i: usize| i as int) =~= before.map_values(|i: usize| i as int).push(i as int));
        }
        i = i + 1;
    }
    res
}

// ---------------------------------------------------------------------------
// Which files are scanned.
// ---------------------------------------------------------------------------

/// Directory names whose contents are not scanned.
pub open spec fn ignored_dir(c: Seq<char>) -> bool {
    c == "target"@ || c == "tests"@ || c == "benches"@ || c == ".git"@
}

/// Some component of a path is an ignored directory name.
pub open spec fn has_ignored_component(components: Seq<Seq<char>>) -> bool {
    exists|i: int| 0 <= i < components.len() && ignored_dir(#[trigger] components[i])
}

/// Whether a path component is one of the ignored directory names.
pub fn is_ignored_name(c: &str) -> (res: bool)
    ensures
        res == ignored_dir(c@),
{
    str_eq(c, "target") || str_eq(c, "tests") || str_eq(c, "benches") || str_eq(c, ".git")
}

/// Whether any of a path's components is an ignored directory name.
pub fn any_ignored(components: &Vec<String>) -> (res: bool)
    ensures
        res == has_ignored_component(views(components@)),
{
    let mut i: usize = 0;
    while i < components.len()
        invariant
            0 <= i <= components@.len(),
            forall|j: int| 0 <= j < i ==> !ignored_dir(#[trigger] views(components@)[j]),
        decreases components@.len() - i,
    {
        if is_ignored_name(components[i].as_str()) {
            assert(ignored_dir(views(components@)[i as int]));
            return true;
        }
        i = i + 1;
    }
    false
}

/// A path with the given extension and components is scanned: it is a `.rs` file
/// outside every ignored directory.
pub open spec fn scanned(extension: Option<Seq<char>>, components: Seq<Seq<char>>) -> bool {
    extension == Some("rs"@) && !has_ignored_component(components)
}

/// Whether a file with this extension and these path components is scanned.
pub fn scan_filter(extension: &Option<String>, components: &Vec<String>) -> (res: bool)
    ensures
        res == scanned(opt_view(*extension), views(components@)),
{
    let is_rs = match extension {
        Some(e) => str_eq(e.as_str(), "rs"),
        None => false,
    };
    is_rs && !any_ignored(components)
}

/// The components `Path::components` yields for a path, each as a string, by the path
/// rules of the platform the crate is built for.
pub uninterp spec fn components_of(path: Seq<char>) -> Seq<Seq<char>>;

/// The extension `Path::extension` gives for a path, by the path rules of the platform
/// the crate is built for.
pub uninterp spec fn extension_of(path: Seq<char>) -> Option<Seq<char>>;

/// Calls `Path::components` and turns each component into a string; named `components_of`.
#[verifier::external_body]
fn path_components(path: &str) -> (res: Vec<String>)
    ensures
        views(res@) == components_of(path@),
{
    std::path::Path::new(path).components().map(|c| c.as_os_str().to_string_lossy().into_owned()).collect()
}

/// Calls `Path::extension` and turns it into a string; named `extension_of`.
#[verifier::external_body]
fn path_extension(path: &str) -> (res: Option<String>)
    ensures
        opt_view(res) == extension_of(path@),
{
    std::path::Path::new(path).extension().and_then(|e| e.to_str()).map(|e| e.to_string())
}

/// Whether some component of `path` names an ignored directory
/// (`target`, `tests`, `benches`, `.git`).
pub fn is_ignored(path: &str) -> (res: bool)
    ensures
        res == has_ignored_component(components_of(path@)),
{
    let cs = path_components(path);
    any_ignored(&cs)
}

/// Whether the scanner reads the file at `path`: a `.rs` file outside ignored directories.
pub fn should_scan(path: &str) -> (res: bool)
    ensures
        res == scanned(extension_of(path@), components_of(path@)),
{
    let ext = path_extension(path);
    let cs = path_components(path);
    scan_filter(&ext, &cs)
}

/// Law: a file the scanner reads never lies in an ignored directory.
pub proof fn lemma_scanned_not_ignored(path: Seq<char>)
    ensures
        scanned(extension_of(path), components_of(path)) ==> !has_ignored_component(components_of(path)),
{
}

/// Law: a file is scanned exactly when it is a `.rs` file none of whose path components is
/// `target`, `tests`, `benches` or `.git`; files under any other directory (`src`,
/// `examples`, ...) are scanned.
pub proof fn lemma_scanned_exactly(extension: Option<Seq<char>>, components: Seq<Seq<char>>)
    ensures
        scanned(extension, components) <==> (extension == Some("rs"@) && forall|i: int|
            0 <= i < components.len() ==> #[trigger] components[i] != "target"@ && components[i] != "tests"@
                && components[i] != "benches"@ && components[i] != ".git"@),
{
    if has_ignored_component(components) {
        let i = choose|i: int| 0 <= i < components.len() && ignored_dir(#[trigger] components[i]);
        assert(ignored_dir(components[i]));
    }
}

} // verus!

//! Python extraction over a tree-sitter syntax tree.

use vstd::prelude::*;
use vstd::string::StringSliceAdditionalSpecFns;
use crate::analysis::rust::{Walker, imports_at};
use crate::analysis::ParsedFile;
use crate::analysis::reach::{CallParts, refs_cover, kids_cover, row_at, lemma_refs_cover_mono, lemma_refs_cover_node, lemma_kids_cover_mono, lemma_refs_cover_empty};
use crate::cache::models::{NewImport, NewRef, NewSymbol};
use crate::syntax::{Grammar, parse_syntax, syntax_of, RawNodeView, SyntaxTree};
use crate::text::{before_first, chars_of, find_exec, opt_chars, slice_chars, str_eq, string_of};

verus! {

/// Some node of a preorder listing is an error or a missing node.
pub open spec fn py_listing_has_error(nodes: Seq<RawNodeView>) -> bool {
    exists|i: int| 0 <= i < nodes.len() && #[trigger] nodes[i].error
}

/// A Python name is public unless it starts with `_`.
pub open spec fn py_public(name: Seq<char>) -> bool {
    !(name.len() > 0 && name[0] == '_')
}

fn is_public(name: &str) -> (r: bool)
    ensures
        r == py_public(name@),
{
    let c = chars_of(name);
    !(c.len() > 0 && c[0] == '_')
}

/// The first `.`-separated segment of a dotted path.
pub fn first_segment(path: &str) -> (r: String)
    ensures
        r@ == before_first(path@, "."@),
{
    let c = chars_of(path);
    let dot = chars_of(".");
    match find_exec(c.as_slice(), dot.as_slice()) {
        Some(k) => string_of(slice_chars(c.as_slice(), 0, k).as_slice()),
        None => path.to_string(),
    }
}

/// The symbol node `n` of `t` declares (name, kind), when it declares one:
/// A function or class that names itself (a function inside a class is a method). `in_type`: the node sits directly in a type.
pub open spec fn py_decl(t: SyntaxTree, in_type: bool, n: int) -> Option<(Seq<char>, Seq<char>)> {
        let k = t.kind_of(n);
        let kind: Option<Seq<char>> = if k == "function_definition"@ {
            Some(if in_type { "method"@ } else { "function"@ })
        } else if k == "class_definition"@ {
            Some("class"@)
        } else {
            None
        };
        match (kind, crate::analysis::rust::named_in(t, n)) {
            (Some(kd), Some(nm)) => Some((nm, kd)),
            _ => None,
        }
}

/// Every node of `kids` that declares a symbol has one in `syms` from `lo` on.
pub open spec fn py_kids_placed(syms: Seq<NewSymbol>, lo: int, t: SyntaxTree, parent: Option<usize>, in_type: bool, kids: Seq<usize>) -> bool {
    crate::analysis::rust::kids_placed(syms, lo, t, parent, kids, |n: int| py_decl(t, in_type, n))
}

/// The methods and nested classes of each body (`block`) of class node
/// `node` have their symbols under `parent`.
pub open spec fn py_bodies_placed(syms: Seq<NewSymbol>, t: SyntaxTree, parent: Option<usize>, node: int) -> bool {
    forall|x: int| 0 <= x < t.kids(node).len() && t.kind_of(#[trigger] t.kids(node)[x] as int) == "block"@ ==>
        py_kids_placed(syms, 0, t, parent, true, t.kids(t.kids(node)[x] as int))
}

/// For every body (`block`) among `kids`, its declarations are placed from `lo` on.
pub open spec fn py_kids_bodies(syms: Seq<NewSymbol>, lo: int, t: SyntaxTree, parent: Option<usize>, in_type: bool, kids: Seq<usize>) -> bool {
    forall|x: int| 0 <= x < kids.len() && t.kind_of(#[trigger] kids[x] as int) == "block"@ ==>
        py_kids_placed(syms, lo, t, parent, in_type, t.kids(kids[x] as int))
}

/// Every class among `kids` has its symbol, and its members have theirs under it.
pub open spec fn py_kids_members(syms: Seq<NewSymbol>, t: SyntaxTree, parent: Option<usize>, in_type: bool, kids: Seq<usize>) -> bool {
    forall|x: int| 0 <= x < kids.len() && t.kind_of(kids[x] as int) == "class_definition"@ && (#[trigger] py_decl(t, in_type, kids[x] as int)) is Some ==>
        exists|k: int| #[trigger] crate::analysis::rust::placed_decl(syms, k, t, parent, kids[x] as int, py_decl(t, in_type, kids[x] as int))
            && py_bodies_placed(syms, t, Some(k as usize), kids[x] as int)
}

pub proof fn lemma_py_bodies_grows(a: Seq<NewSymbol>, b: Seq<NewSymbol>, t: SyntaxTree, parent: Option<usize>, node: int)
    requires
        py_bodies_placed(a, t, parent, node),
        crate::analysis::grows(a, b),
    ensures
        py_bodies_placed(b, t, parent, node),
{
    assert forall|x: int| 0 <= x < t.kids(node).len() && t.kind_of(#[trigger] t.kids(node)[x] as int) == "block"@ implies
        py_kids_placed(b, 0, t, parent, true, t.kids(t.kids(node)[x] as int)) by {
        crate::analysis::rust::lemma_kids_placed_grows(a, b, 0, t, parent, t.kids(t.kids(node)[x] as int), |n: int| py_decl(t, true, n));
    }
}

pub proof fn lemma_py_kids_bodies_grows(a: Seq<NewSymbol>, b: Seq<NewSymbol>, lo: int, t: SyntaxTree, parent: Option<usize>, in_type: bool, kids: Seq<usize>)
    requires
        py_kids_bodies(a, lo, t, parent, in_type, kids),
        crate::analysis::grows(a, b),
    ensures
        py_kids_bodies(b, lo, t, parent, in_type, kids),
{
    assert forall|x: int| 0 <= x < kids.len() && t.kind_of(#[trigger] kids[x] as int) == "block"@ implies
        py_kids_placed(b, lo, t, parent, in_type, t.kids(kids[x] as int)) by {
        crate::analysis::rust::lemma_kids_placed_grows(a, b, lo, t, parent, t.kids(kids[x] as int), |n: int| py_decl(t, in_type, n));
    }
}

pub proof fn lemma_py_kids_members_grows(a: Seq<NewSymbol>, b: Seq<NewSymbol>, t: SyntaxTree, parent: Option<usize>, in_type: bool, kids: Seq<usize>)
    requires
        py_kids_members(a, t, parent, in_type, kids),
        crate::analysis::grows(a, b),
    ensures
        py_kids_members(b, t, parent, in_type, kids),
{
    assert forall|x: int| 0 <= x < kids.len() && t.kind_of(kids[x] as int) == "class_definition"@ && (#[trigger] py_decl(t, in_type, kids[x] as int)) is Some implies
        exists|k: int| #[trigger] crate::analysis::rust::placed_decl(b, k, t, parent, kids[x] as int, py_decl(t, in_type, kids[x] as int))
            && py_bodies_placed(b, t, Some(k as usize), kids[x] as int) by {
        let c = kids[x] as int;
        let k = choose|k: int| #[trigger] crate::analysis::rust::placed_decl(a, k, t, parent, c, py_decl(t, in_type, c))
            && py_bodies_placed(a, t, Some(k as usize), c);
        assert(b[k] == a[k]);
        assert(crate::analysis::rust::placed_decl(b, k, t, parent, c, py_decl(t, in_type, c)));
        lemma_py_bodies_grows(a, b, t, Some(k as usize), c);
    }
}

/// The import rows an `import` or `from .. import` statement node yields.
pub open spec fn py_statement_imports(t: SyntaxTree, node: int) -> Seq<(Seq<char>, Option<Seq<char>>, Option<Seq<char>>, bool)> {
    if t.kind_of(node) == "import_statement"@ {
        Walker::py_import_records(t, node, false)
    } else if t.kind_of(node) == "import_from_statement"@ {
        Walker::py_import_records(t, node, true)
    } else {
        Seq::empty()
    }
}

pub open spec fn py_is_import(t: SyntaxTree, node: int) -> bool {
    t.kind_of(node) == "import_statement"@ || t.kind_of(node) == "import_from_statement"@
}

/// Every import statement among `kids` has its rows in `imports`, from `lo` on.
pub open spec fn py_kids_imports(imports: Seq<NewImport>, lo: int, t: SyntaxTree, kids: Seq<usize>) -> bool {
    forall|x: int| 0 <= x < kids.len() && py_is_import(t, #[trigger] kids[x] as int) ==>
        exists|o: int| lo <= o && #[trigger] imports_at(imports, o, t.line_of(kids[x] as int), py_statement_imports(t, kids[x] as int))
}

pub proof fn lemma_py_kids_imports_grows(a: Seq<NewImport>, b: Seq<NewImport>, lo: int, t: SyntaxTree, kids: Seq<usize>)
    requires
        py_kids_imports(a, lo, t, kids),
        crate::analysis::grows(a, b),
    ensures
        py_kids_imports(b, lo, t, kids),
{
    assert forall|x: int| 0 <= x < kids.len() && py_is_import(t, #[trigger] kids[x] as int) implies
        exists|o: int| lo <= o && #[trigger] imports_at(b, o, t.line_of(kids[x] as int), py_statement_imports(t, kids[x] as int)) by {
        let c = kids[x] as int;
        let es = py_statement_imports(t, c);
        let o = choose|o: int| lo <= o && #[trigger] imports_at(a, o, t.line_of(c), es);
        assert forall|k: int| 0 <= k < es.len() implies Walker::is_import(b[o + k], (#[trigger] es[k]).0, es[k].1, es[k].2, es[k].3, t.line_of(c)) by {
            assert(b[o + k] == a[o + k]);
        }
        assert(imports_at(b, o, t.line_of(c), es));
    }
}

/// The callee name and receiver text of call target `func`: `f()` is `f`,
/// `a.b()` is `b` with receiver `a`, anything else has no name.
pub open spec fn py_callee_in(t: SyntaxTree, func: int) -> (Seq<char>, Option<Seq<char>>) {
    if t.kind_of(func) == "identifier"@ {
        (t.text_of(func), None)
    } else if t.kind_of(func) == "attribute"@ {
        (match t.field_of(func, "attribute"@) {
            Some(n) => t.text_of(n as int),
            None => Seq::empty(),
        }, match t.field_of(func, "object"@) {
            Some(n) => Some(t.text_of(n as int)),
            None => None,
        })
    } else {
        (Seq::empty(), None)
    }
}

/// The kinds a Python walk reads whole without walking into: import statements.
pub open spec fn py_stop() -> spec_fn(Seq<char>) -> bool {
    |k: Seq<char>| k == "import_statement"@ || k == "import_from_statement"@
}

/// The `call` reference a `call` node yields when its callee has a name.
pub open spec fn py_node_row(t: SyntaxTree, n: int) -> Option<CallParts> {
    if t.kind_of(n) == "call"@ {
        match t.field_of(n, "function"@) {
            Some(f) if py_callee_in(t, f as int).0.len() > 0 => Some((py_callee_in(t, f as int).0, py_callee_in(t, f as int).1,
                Seq::empty(), None, t.line_of(n), t.start_of(n), None)),
            _ => None,
        }
    } else {
        None
    }
}

/// The `call` reference each node of `t` yields, as [`py_node_row`] gives it.
pub open spec fn py_rows(t: SyntaxTree) -> spec_fn(int) -> Option<CallParts> {
    |n: int| py_node_row(t, n)
}

/// What parsing `source` gives: `p.parse_ok` tells whether the grammar
/// reported errors, every declaration at the top of the file has its symbol,
/// the methods and classes in a top-level class's body have theirs under it,
/// every top-level import statement has its import rows, and every call the
/// walk reaches has its reference.
pub open spec fn py_parsed(source: Seq<char>, p: ParsedFile) -> bool {
    &&& p.scopes@.len() == 0
    &&& p.bindings@.len() == 0
    &&& match syntax_of(Grammar::Python, source) {
        None => !p.parse_ok && p.symbols@.len() == 0 && p.refs@.len() == 0,
        Some(nodes) => {
            &&& p.parse_ok == !py_listing_has_error(nodes)
            &&& exists|t: SyntaxTree| #[trigger] t.built_from(vstd::utf8::encode_utf8(source), nodes)
                && (t.size() > 0 && t.kind_of(0) == "module"@ ==> py_kids_placed(p.symbols@, 0, t, None, false, t.kids(0))
                    && py_kids_members(p.symbols@, t, None, false, t.kids(0))
                    && py_kids_imports(p.imports@, 0, t, t.kids(0)))
                && refs_cover(p.refs@, 0, t, py_stop(), py_rows(t), 0)
        },
    }
}

/// Parse Python `source` into symbols (classes, functions, methods, module-
/// and class-level variables), imports and call references.
pub fn parse(source: &str) -> (p: ParsedFile)
    ensures
        p.wf(),
        py_parsed(source@, p),
{
    let tree = match parse_syntax(Grammar::Python, source) {
        Some(t) => t,
        None => {
            return ParsedFile::empty(false);
        },
    };
    proof {
        let nodes = syntax_of(Grammar::Python, source@)->0;
        assert forall|i: int| 0 <= i < nodes.len() implies nodes[i].error == tree.nodes@[i].error by {
            assert(nodes[i] == tree.nodes@[i]@);
        }
        if py_listing_has_error(nodes) {
            let i = choose|i: int| 0 <= i < nodes.len() && #[trigger] nodes[i].error;
            assert(tree.nodes@[i].error);
        }
        if tree.spec_has_error() {
            let i = choose|i: int| 0 <= i < tree.nodes@.len() && #[trigger] tree.nodes@[i].error;
            assert(nodes[i].error);
        }
    }
    let ok = !tree.has_error();
    let n = tree.len();
    let ghost t = tree;
    let mut walker = Walker::new(tree, source.len(), 0);
    walker.out.parse_ok = ok;
    let ghost w0 = walker;
    if n > 0 {
        walker.py_walk(0);
        proof {
            assert(w0.parent_sym() is None);
            assert(!(w0.stack@.len() > 0 && w0.out.symbols@[w0.stack@.last() as int].kind@ == "class"@));
        }
    }
    proof {
        if n == 0 {
            lemma_refs_cover_empty(walker.out.refs@, t, py_stop(), py_rows(t));
        }
    }
    let Walker { tree: _, out, stack: _, sc: _, macro_depth: _ } = walker;
    proof {
        let nodes = syntax_of(Grammar::Python, source@)->0;
        assert(t.built_from(source.spec_bytes(), nodes));
    }
    out
}

impl Walker {
    pub fn py_walk(&mut self, node: usize)
        requires
            old(self).inv(),
            old(self).valid(node as int),
            old(self).out.scopes@.len() == 0,
            old(self).out.bindings@.len() == 0,
        ensures
            final(self).inv(),
            final(self).extends(*old(self)),
            py_decl(old(self).tree, (old(self).stack@.len() > 0 && old(self).out.symbols@[old(self).stack@.last() as int].kind@ == "class"@), node as int) is Some ==> crate::analysis::rust::placed_decl(final(self).out.symbols@,
                old(self).out.symbols@.len() as int, old(self).tree, old(self).parent_sym(), node as int, py_decl(old(self).tree, (old(self).stack@.len() > 0 && old(self).out.symbols@[old(self).stack@.last() as int].kind@ == "class"@), node as int)),
            old(self).tree.kind_of(node as int) == "module"@ ==> py_kids_placed(final(self).out.symbols@,
                old(self).out.symbols@.len() as int, old(self).tree, old(self).parent_sym(), (old(self).stack@.len() > 0 && old(self).out.symbols@[old(self).stack@.last() as int].kind@ == "class"@), old(self).tree.kids(node as int)),
            py_is_import(old(self).tree, node as int) ==> Walker::imports_all(old(self).out.imports@, final(self).out.imports@,
                old(self).tree.line_of(node as int), py_statement_imports(old(self).tree, node as int)),
            old(self).tree.kind_of(node as int) == "module"@ ==> py_kids_imports(final(self).out.imports@,
                old(self).out.imports@.len() as int, old(self).tree, old(self).tree.kids(node as int)),
            old(self).tree.kind_of(node as int) == "module"@ ==> py_kids_members(final(self).out.symbols@, old(self).tree,
                old(self).parent_sym(), (old(self).stack@.len() > 0 && old(self).out.symbols@[old(self).stack@.last() as int].kind@ == "class"@), old(self).tree.kids(node as int)),
            old(self).tree.kind_of(node as int) == "block"@ ==> py_kids_placed(final(self).out.symbols@,
                old(self).out.symbols@.len() as int, old(self).tree, old(self).parent_sym(), (old(self).stack@.len() > 0 && old(self).out.symbols@[old(self).stack@.last() as int].kind@ == "class"@), old(self).tree.kids(node as int)),
            old(self).tree.kind_of(node as int) == "class_definition"@ && py_decl(old(self).tree, (old(self).stack@.len() > 0 && old(self).out.symbols@[old(self).stack@.last() as int].kind@ == "class"@), node as int) is Some
                ==> py_bodies_placed(final(self).out.symbols@, old(self).tree, Some(old(self).out.symbols@.len() as usize), node as int),
            final(self).out.scopes@.len() == 0,
            final(self).out.bindings@.len() == 0,
            refs_cover(final(self).out.refs@, old(self).out.refs@.len() as int, old(self).tree, py_stop(), py_rows(old(self).tree), node as int),
        decreases old(self).tree.size() - node, 3nat,
    {
        proof {
            reveal_strlit("function");
            reveal_strlit("method");
            reveal_strlit("class");
            reveal_strlit("function_definition");
            reveal_strlit("class_definition");
            reveal_strlit("module");
            assert("function"@.len() == 8);
            assert("method"@.len() == 6);
            assert("class"@.len() == 5);
            assert("function_definition"@.len() == 19);
            assert("class_definition"@.len() == 16);
            assert("module"@.len() == 6);
        }
        proof {
            reveal_strlit("block");
            reveal_strlit("import_statement");
            reveal_strlit("import_from_statement");
            reveal_strlit("assignment");
            reveal_strlit("call");
            assert("block"@.len() == 5);
            assert("import_statement"@.len() == 16);
            assert("import_statement"@[0] != "class_definition"@[0]);
            assert("import_from_statement"@.len() == 21);
            assert("assignment"@.len() == 10);
            assert("call"@.len() == 4);
        }
        if self.tree.is(node, "block") {
            assert(py_decl(self.tree, (old(self).stack@.len() > 0 && old(self).out.symbols@[old(self).stack@.last() as int].kind@ == "class"@), node as int) is None);
            self.py_walk_children(node);
            proof {
                lemma_refs_cover_node(self.out.refs@, old(self).out.refs@.len() as int, self.tree, py_stop(), py_rows(self.tree), node as int);
            }
            return;
        }
        if self.tree.is(node, "module") {
            assert(py_decl(self.tree, (old(self).stack@.len() > 0 && old(self).out.symbols@[old(self).stack@.last() as int].kind@ == "class"@), node as int) is None);
            self.py_walk_children(node);
            proof {
                lemma_refs_cover_node(self.out.refs@, old(self).out.refs@.len() as int, self.tree, py_stop(), py_rows(self.tree), node as int);
            }
            return;
        }
        if self.tree.is(node, "function_definition") {
            let kind = if self.py_parent_is_class() { "method" } else { "function" };
            self.py_enter_symbol(node, kind);
        } else if self.tree.is(node, "class_definition") {
            self.py_enter_symbol(node, "class");
        } else if self.tree.is(node, "import_statement") {
            self.py_collect_import(node, false);
        } else if self.tree.is(node, "import_from_statement") {
            self.py_collect_import(node, true);
        } else if self.tree.is(node, "assignment") {
            self.py_collect_assignment(node);
            let ghost mid = self.out.refs@;
            self.py_walk_children(node);
            proof {
                lemma_kids_cover_mono(self.out.refs@, self.out.refs@, mid.len() as int, old(self).out.refs@.len() as int,
                    self.tree, py_stop(), py_rows(self.tree), node as int);
            }
        } else if self.tree.is(node, "call") {
            self.py_collect_call(node);
            let ghost mid = self.out.refs@;
            self.py_walk_children(node);
            proof {
                lemma_kids_cover_mono(self.out.refs@, self.out.refs@, mid.len() as int, old(self).out.refs@.len() as int,
                    self.tree, py_stop(), py_rows(self.tree), node as int);
                let k = old(self).out.refs@.len() as int;
                if py_rows(self.tree)(node as int) is Some {
                    assert(self.out.refs@[k] == mid[k]);
                    assert(row_at(self.out.refs@, k, k, py_rows(self.tree)(node as int)->0));
                }
            }
        } else {
            self.py_walk_children(node);
        }
        proof {
            lemma_refs_cover_node(self.out.refs@, old(self).out.refs@.len() as int, self.tree, py_stop(), py_rows(self.tree), node as int);
        }
    }

    pub fn py_walk_children(&mut self, node: usize)
        requires
            old(self).inv(),
            old(self).valid(node as int),
            old(self).out.scopes@.len() == 0,
            old(self).out.bindings@.len() == 0,
        ensures
            final(self).inv(),
            final(self).extends(*old(self)),
            py_kids_placed(final(self).out.symbols@, old(self).out.symbols@.len() as int, old(self).tree, old(self).parent_sym(),
                (old(self).stack@.len() > 0 && old(self).out.symbols@[old(self).stack@.last() as int].kind@ == "class"@), old(self).tree.kids(node as int)),
            py_kids_bodies(final(self).out.symbols@, old(self).out.symbols@.len() as int, old(self).tree, old(self).parent_sym(),
                (old(self).stack@.len() > 0 && old(self).out.symbols@[old(self).stack@.last() as int].kind@ == "class"@), old(self).tree.kids(node as int)),
            py_kids_members(final(self).out.symbols@, old(self).tree, old(self).parent_sym(), (old(self).stack@.len() > 0 && old(self).out.symbols@[old(self).stack@.last() as int].kind@ == "class"@), old(self).tree.kids(node as int)),
            py_kids_imports(final(self).out.imports@, old(self).out.imports@.len() as int, old(self).tree, old(self).tree.kids(node as int)),
            final(self).out.scopes@.len() == 0,
            final(self).out.bindings@.len() == 0,
            kids_cover(final(self).out.refs@, old(self).out.refs@.len() as int, old(self).tree, py_stop(), py_rows(old(self).tree), node as int),
        decreases old(self).tree.size() - node, 1nat,
    {
        let kids = self.tree.children_of(node);
        let mut j: usize = 0;
        let ghost lo = old(self).out.symbols@.len() as int;
        let ghost t0 = old(self).tree;
        let ghost par = old(self).parent_sym();
        let ghost cx = (old(self).stack@.len() > 0 && old(self).out.symbols@[old(self).stack@.last() as int].kind@ == "class"@);
        assert(kids@.take(0) =~= Seq::<usize>::empty());
        while j < kids.len()
            invariant
                self.inv(),
                self.extends(*old(self)),
                self.out.scopes@.len() == 0,
                self.out.bindings@.len() == 0,
                0 <= j <= kids@.len(),
                forall|x: int| 0 <= x < kids@.len() ==> node < #[trigger] kids@[x] < self.tree.size(),
                kids@ == t0.kids(node as int),
                old(self).inv(),
                t0 == old(self).tree,
                lo == old(self).out.symbols@.len(),
                par == old(self).parent_sym(),
                cx == (old(self).stack@.len() > 0 && old(self).out.symbols@[old(self).stack@.last() as int].kind@ == "class"@),
                py_kids_placed(self.out.symbols@, lo, t0, par, cx, kids@.take(j as int)),
                py_kids_bodies(self.out.symbols@, lo, t0, par, cx, kids@.take(j as int)),
                py_kids_members(self.out.symbols@, t0, par, cx, kids@.take(j as int)),
                py_kids_imports(self.out.imports@, old(self).out.imports@.len() as int, t0, kids@.take(j as int)),
                forall|x: int| 0 <= x < j ==> #[trigger] refs_cover(self.out.refs@, old(self).out.refs@.len() as int, t0, py_stop(), py_rows(t0), kids@[x] as int),
            decreases kids@.len() - j,
        {
            let c = kids[j];
            let ghost before = *self;
            self.py_walk(c);
            proof {
                assert forall|x: int| 0 <= x < j + 1 implies #[trigger] refs_cover(self.out.refs@, old(self).out.refs@.len() as int,
                    t0, py_stop(), py_rows(t0), kids@[x] as int) by {
                    if x < j {
                        lemma_refs_cover_mono(before.out.refs@, self.out.refs@, old(self).out.refs@.len() as int,
                            old(self).out.refs@.len() as int, t0, py_stop(), py_rows(t0), kids@[x] as int);
                    } else {
                        lemma_refs_cover_mono(self.out.refs@, self.out.refs@, before.out.refs@.len() as int,
                            old(self).out.refs@.len() as int, t0, py_stop(), py_rows(t0), c as int);
                    }
                }
                if old(self).stack@.len() > 0 {
                    assert(before.out.symbols@[old(self).stack@.last() as int] == old(self).out.symbols@[old(self).stack@.last() as int]);
                }
                assert((before.stack@.len() > 0 && before.out.symbols@[before.stack@.last() as int].kind@ == "class"@) == cx);
                crate::analysis::rust::lemma_kids_placed_grows(before.out.symbols@, self.out.symbols@, lo, t0, par, kids@.take(j as int),
                    |n: int| py_decl(t0, cx, n));
                crate::analysis::rust::lemma_kids_placed_push(self.out.symbols@, lo, t0, par, kids@.take(j as int), c,
                    before.out.symbols@.len() as int, |n: int| py_decl(t0, cx, n));
                assert(kids@.take(j as int).push(c) =~= kids@.take(j + 1));
                lemma_py_kids_bodies_grows(before.out.symbols@, self.out.symbols@, lo, t0, par, cx, kids@.take(j as int));
                lemma_py_kids_members_grows(before.out.symbols@, self.out.symbols@, t0, par, cx, kids@.take(j as int));
                lemma_py_kids_imports_grows(before.out.imports@, self.out.imports@, old(self).out.imports@.len() as int, t0, kids@.take(j as int));
                let ks = kids@.take(j + 1);
                assert forall|x: int| 0 <= x < ks.len() && py_is_import(t0, #[trigger] ks[x] as int) implies
                    exists|o: int| old(self).out.imports@.len() <= o && #[trigger] imports_at(self.out.imports@, o, t0.line_of(ks[x] as int),
                        py_statement_imports(t0, ks[x] as int)) by {
                    if x < j {
                        assert(ks[x] == kids@.take(j as int)[x]);
                    } else {
                        assert(ks[x] == c);
                        let o = before.out.imports@.len() as int;
                        let es = py_statement_imports(t0, c as int);
                        assert forall|k: int| 0 <= k < es.len() implies Walker::is_import(self.out.imports@[o + k], (#[trigger] es[k]).0,
                            es[k].1, es[k].2, es[k].3, t0.line_of(c as int)) by {
                        }
                        assert(imports_at(self.out.imports@, o, t0.line_of(c as int), es));
                    }
                }
                assert forall|x: int| 0 <= x < ks.len() && t0.kind_of(#[trigger] ks[x] as int) == "block"@ implies
                    py_kids_placed(self.out.symbols@, lo, t0, par, cx, t0.kids(ks[x] as int)) by {
                    if x < j {
                        assert(ks[x] == kids@.take(j as int)[x]);
                    } else {
                        assert(ks[x] == c);
                        crate::analysis::rust::lemma_kids_placed_lower(self.out.symbols@, before.out.symbols@.len() as int, lo, t0, par,
                            t0.kids(c as int), |n: int| py_decl(t0, cx, n));
                    }
                }
                assert forall|x: int| 0 <= x < ks.len() && t0.kind_of(ks[x] as int) == "class_definition"@ && (#[trigger] py_decl(t0, cx, ks[x] as int)) is Some implies
                    exists|k: int| #[trigger] crate::analysis::rust::placed_decl(self.out.symbols@, k, t0, par, ks[x] as int, py_decl(t0, cx, ks[x] as int))
                        && py_bodies_placed(self.out.symbols@, t0, Some(k as usize), ks[x] as int) by {
                    if x < j {
                        assert(ks[x] == kids@.take(j as int)[x]);
                    } else {
                        assert(ks[x] == c);
                        let k = before.out.symbols@.len() as int;
                        assert(crate::analysis::rust::placed_decl(self.out.symbols@, k, t0, par, c as int, py_decl(t0, cx, c as int)));
                    }
                }
            }
            j = j + 1;
        }
        assert(kids@.take(kids@.len() as int) =~= kids@);
    }

    /// The innermost open symbol is a class.
    pub fn py_parent_is_class(&self) -> (r: bool)
        requires
            self.inv(),
        ensures
            r == (self.stack@.len() > 0 && self.out.symbols@[self.stack@.last() as int].kind@ == "class"@),
    {
        if self.stack.len() == 0 {
            return false;
        }
        let i = self.stack[self.stack.len() - 1];
        str_eq(self.out.symbols[i].kind.as_str(), "class")
    }

    /// `s` sits under the innermost open symbol of `w` and spans node `node`,
    /// with no signature, parameter count or owner.
    pub open spec fn py_placed(s: NewSymbol, w: Walker, node: int) -> bool {
        &&& s.parent_index == (if w.stack@.len() > 0 { Some(w.stack@.last()) } else { None })
        &&& s.start_line == w.tree.line_of(node)
        &&& s.end_line == w.tree.end_line_of(node)
        &&& s.start_byte == w.tree.start_of(node)
        &&& s.end_byte == w.tree.end_of(node)
        &&& s.signature is None
        &&& s.param_count is None
        &&& s.owner_type is None
    }

    fn py_symbol(&self, node: usize, name: String, kind: &str) -> (s: NewSymbol)
        requires
            self.inv(),
            self.valid(node as int),
        ensures
            s.parent_index is Some ==> s.parent_index->0 < self.out.symbols@.len(),
            s.name == name,
            s.kind@ == kind@,
            s.is_exported == py_public(name@),
            Self::py_placed(s, *self, node as int),
    {
        let parent_index = if self.stack.len() > 0 { Some(self.stack[self.stack.len() - 1]) } else { None };
        let exported = is_public(name.as_str());
        NewSymbol {
            name,
            kind: kind.to_string(),
            parent_index,
            is_exported: exported,
            start_line: self.tree.line(node),
            end_line: self.tree.end_line(node),
            start_byte: self.tree.start(node),
            end_byte: self.tree.end(node),
            signature: None,
            param_count: None,
            owner_type: None,
        }
    }

    /// A class or function: recorded, then its body walked with it open.
    pub fn py_enter_symbol(&mut self, node: usize, kind: &str)
        requires
            old(self).inv(),
            old(self).valid(node as int),
            old(self).out.scopes@.len() == 0,
            old(self).out.bindings@.len() == 0,
        ensures
            final(self).inv(),
            final(self).extends(*old(self)),
            final(self).out.scopes@.len() == 0,
            final(self).out.bindings@.len() == 0,
            old(self).spec_named(node as int) is Some ==> {
                &&& Walker::recorded_at(final(self).out.symbols@, old(self).out.symbols@.len() as int,
                    *old(self), node as int, old(self).spec_named(node as int)->0, kind@)
                &&& final(self).out.symbols@[old(self).out.symbols@.len() as int].is_exported == py_public(old(self).spec_named(node as int)->0)
            },
            kind@ == "class"@ && old(self).spec_named(node as int) is Some ==> py_bodies_placed(final(self).out.symbols@,
                old(self).tree, Some(old(self).out.symbols@.len() as usize), node as int),
            kids_cover(final(self).out.refs@, old(self).out.refs@.len() as int, old(self).tree, py_stop(), py_rows(old(self).tree), node as int),
        decreases old(self).tree.size() - node, 2nat,
    {
        match self.named(node) {
            Some(name) => {
                let s = self.py_symbol(node, name, kind);
                let i = self.add_symbol(s);
                let ghost w0 = *self;
                self.stack.push(i);
                let ghost pushed_stack = self.stack@;
                let ghost w1 = *self;
                self.py_walk_children(node);
                proof {
                    let t = w1.tree;
                    let syms = self.out.symbols@;
                    if kind@ == "class"@ {
                        assert(w1.stack@.last() == i);
                        assert(w1.out.symbols@[i as int].kind@ == "class"@);
                        assert forall|x: int| 0 <= x < t.kids(node as int).len() && t.kind_of(#[trigger] t.kids(node as int)[x] as int) == "block"@ implies
                            py_kids_placed(syms, 0, t, Some(i), true, t.kids(t.kids(node as int)[x] as int)) by {
                            crate::analysis::rust::lemma_kids_placed_lower(syms, w1.out.symbols@.len() as int, 0, t, Some(i),
                                t.kids(t.kids(node as int)[x] as int), |n: int| py_decl(t, true, n));
                        }
                    }
                }
                assert(self.stack@ == pushed_stack);
                self.stack.pop();
                assert(self.stack@ =~= old(self).stack@);
                assert(self.out.symbols@[i as int] == w0.out.symbols@[i as int]);
            },
            None => {
                self.py_walk_children(node);
            },
        }
    }

    /// `name = ..` at module or class level is a variable symbol.
    pub fn py_collect_assignment(&mut self, node: usize)
        requires
            old(self).inv(),
            old(self).valid(node as int),
        ensures
            final(self).inv(),
            final(self).extends(*old(self)),
            final(self).out.scopes@ == old(self).out.scopes@,
            final(self).out.bindings@ == old(self).out.bindings@,
            final(self).out.refs@ == old(self).out.refs@,
            final(self).out.imports@ == old(self).out.imports@,
            final(self).sc == old(self).sc,
            ({
                let t = old(self).tree;
                let open = old(self).stack@.len() == 0
                    || old(self).out.symbols@[old(self).stack@.last() as int].kind@ == "class"@;
                match t.field_of(node as int, "left"@) {
                    Some(l) if open && t.kind_of(l as int) == "identifier"@ && t.text_of(l as int).len() > 0 => {
                        let s = final(self).out.symbols@.last();
                        &&& final(self).out.symbols@ == old(self).out.symbols@.push(s)
                        &&& s.name@ == t.text_of(l as int)
                        &&& s.kind@ == "variable"@
                        &&& s.is_exported == py_public(s.name@)
                        &&& Self::py_placed(s, *old(self), node as int)
                    },
                    _ => final(self).out.symbols@ == old(self).out.symbols@,
                }
            }),
    {
        let at_module = self.stack.len() == 0;
        let in_class = self.py_parent_is_class();
        if !at_module && !in_class {
            return;
        }
        let lhs = match self.tree.field_child(node, "left") {
            Some(l) => l,
            None => { return; },
        };
        if !self.tree.is(lhs, "identifier") {
            return;
        }
        let name = self.text(lhs);
        if name.as_str().is_empty() {
            return;
        }
        let s = self.py_symbol(node, name, "variable");
        self.add_symbol(s);
    }

    fn py_push_import(&mut self, specifier: String, imported_name: Option<String>, alias: Option<String>, is_relative: bool, line: i64)
        requires
            old(self).inv(),
        ensures
            final(self).inv(),
            final(self).extends(*old(self)),
            final(self).out.symbols@ == old(self).out.symbols@,
            final(self).out.refs@ == old(self).out.refs@,
            final(self).out.scopes@ == old(self).out.scopes@,
            final(self).out.bindings@ == old(self).out.bindings@,
            final(self).sc == old(self).sc,
            final(self).out.imports@ == old(self).out.imports@.push(final(self).out.imports@.last()),
            Walker::is_import(final(self).out.imports@.last(), specifier@, opt_chars(imported_name), opt_chars(alias), is_relative, line),
    {
        self.add_import(NewImport { raw_specifier: specifier, imported_name, alias, is_relative, start_line: line });
    }

    /// `import a.b as x` and `from .m import a, b as c, *`.
    pub fn py_collect_import(&mut self, node: usize, is_from: bool)
        requires
            old(self).inv(),
            old(self).valid(node as int),
        ensures
            final(self).inv(),
            final(self).extends(*old(self)),
            final(self).out.symbols@ == old(self).out.symbols@,
            final(self).out.refs@ == old(self).out.refs@,
            final(self).out.scopes@ == old(self).out.scopes@,
            final(self).out.bindings@ == old(self).out.bindings@,
            Walker::imports_all(old(self).out.imports@, final(self).out.imports@, old(self).tree.line_of(node as int),
                Self::py_import_records(old(self).tree, node as int, is_from)),
    {
        let line = self.tree.line(node);
        let children = self.tree.named_children(node);
        assert(Walker::imports_all(old(self).out.imports@, old(self).out.imports@, line, Seq::empty()));
        if !is_from {
            let mut j: usize = 0;
            while j < children.len()
                invariant
                    self.inv(),
                    self.extends(*old(self)),
                    self.out.symbols@ == old(self).out.symbols@,
                    self.out.refs@ == old(self).out.refs@,
                    self.out.scopes@ == old(self).out.scopes@,
                    self.out.bindings@ == old(self).out.bindings@,
                    self.tree == old(self).tree,
                    line == old(self).tree.line_of(node as int),
                    children@ == old(self).tree.named_kids(node as int),
                    0 <= j <= children@.len(),
                    forall|x: int| 0 <= x < children@.len() ==> #[trigger] children@[x] < self.tree.size(),
                    Walker::imports_all(old(self).out.imports@, self.out.imports@, line, Self::py_plain_records(old(self).tree, children@.take(j as int))),
                decreases children@.len() - j,
            {
                let child = children[j];
                assert(children@.take(j + 1).drop_last() =~= children@.take(j as int));
                let ghost es = Self::py_plain_records(old(self).tree, children@.take(j as int));
                let ghost mid = self.out.imports@;
                j = j + 1;
                if self.tree.is(child, "dotted_name") {
                    let path = self.text(child);
                    let bound = first_segment(path.as_str());
                    let ghost e = (path@, Some(bound@), None::<Seq<char>>, false);
                    self.py_push_import(path, Some(bound), None, false, line);
                    proof { Walker::lemma_imports_push(old(self).out.imports@, mid, self.out.imports@, line, es, e); }
                } else if self.tree.is(child, "aliased_import") {
                    let path = match self.tree.field_child(child, "name") {
                        Some(n) => self.text(n),
                        None => String::new(),
                    };
                    let alias = match self.tree.field_child(child, "alias") {
                        Some(n) => Some(self.text(n)),
                        None => None,
                    };
                    let bound = match &alias {
                        Some(a) => a.clone(),
                        None => first_segment(path.as_str()),
                    };
                    let ghost e = (path@, Some(bound@), opt_chars(alias), false);
                    self.py_push_import(path, Some(bound), alias, false, line);
                    proof { Walker::lemma_imports_push(old(self).out.imports@, mid, self.out.imports@, line, es, e); }
                }
            }
            assert(children@.take(children@.len() as int) =~= children@);
            return;
        }
        let module_node = self.tree.field_child(node, "module_name");
        let module = match module_node {
            Some(m) => self.text(m),
            None => String::new(),
        };
        let mc = chars_of(module.as_str());
        let is_relative = (mc.len() > 0 && mc[0] == '.') || match module_node {
            Some(m) => self.tree.is(m, "relative_import"),
            None => false,
        };
        let ghost mnode = self.tree.field_of(node as int, "module_name"@);
        assert(mnode == module_node);
        assert(module@ == match mnode { Some(m) => self.tree.text_of(m as int), None => Seq::<char>::empty() });
        assert(is_relative == Self::py_from_relative(old(self).tree, mnode)) by {
            reveal_strlit("relative_import");
            if mc@.len() > 0 {
                assert(mc@[0] == module@[0]);
            }
        }
        let mut any = false;
        let mut j: usize = 0;
        while j < children.len()
            invariant
                self.inv(),
                self.extends(*old(self)),
                self.out.symbols@ == old(self).out.symbols@,
                self.out.refs@ == old(self).out.refs@,
                self.out.scopes@ == old(self).out.scopes@,
                self.out.bindings@ == old(self).out.bindings@,
                self.tree == old(self).tree,
                line == old(self).tree.line_of(node as int),
                children@ == old(self).tree.named_kids(node as int),
                0 <= j <= children@.len(),
                forall|x: int| 0 <= x < children@.len() ==> #[trigger] children@[x] < self.tree.size(),
                mnode == module_node,
                Walker::imports_all(old(self).out.imports@, self.out.imports@, line,
                    Self::py_from_records(old(self).tree, children@.take(j as int), mnode, module@, is_relative)),
                any == (Self::py_from_records(old(self).tree, children@.take(j as int), mnode, module@, is_relative).len() > 0),
            decreases children@.len() - j,
        {
            let child = children[j];
            assert(children@.take(j + 1).drop_last() =~= children@.take(j as int));
            let ghost es = Self::py_from_records(old(self).tree, children@.take(j as int), mnode, module@, is_relative);
            let ghost mid = self.out.imports@;
            j = j + 1;
            let is_module = match module_node {
                Some(m) => m == child,
                None => false,
            };
            if is_module {
                continue;
            }
            if self.tree.is(child, "dotted_name") || self.tree.is(child, "identifier") {
                let nm = self.text(child);
                let ghost e = (module@, Some(nm@), None::<Seq<char>>, is_relative);
                self.py_push_import(module.clone(), Some(nm), None, is_relative, line);
                proof { Walker::lemma_imports_push(old(self).out.imports@, mid, self.out.imports@, line, es, e); }
                any = true;
            } else if self.tree.is(child, "aliased_import") {
                let nm = match self.tree.field_child(child, "name") {
                    Some(x) => self.text(x),
                    None => String::new(),
                };
                let alias = match self.tree.field_child(child, "alias") {
                    Some(x) => Some(self.text(x)),
                    None => None,
                };
                let ghost e = (module@, Some(nm@), opt_chars(alias), is_relative);
                self.py_push_import(module.clone(), Some(nm), alias, is_relative, line);
                proof { Walker::lemma_imports_push(old(self).out.imports@, mid, self.out.imports@, line, es, e); }
                any = true;
            } else if self.tree.is(child, "wildcard_import") {
                let ghost e = (module@, None::<Seq<char>>, None::<Seq<char>>, is_relative);
                self.py_push_import(module.clone(), None, None, is_relative, line);
                proof { Walker::lemma_imports_push(old(self).out.imports@, mid, self.out.imports@, line, es, e); }
                any = true;
            }
        }
        assert(children@.take(children@.len() as int) =~= children@);
        if !any {
            let ghost mid = self.out.imports@;
            let ghost e = (module@, None::<Seq<char>>, None::<Seq<char>>, is_relative);
            self.py_push_import(module, None, None, is_relative, line);
            proof {
                Walker::lemma_imports_push(old(self).out.imports@, mid, self.out.imports@, line, Seq::empty(), e);
                assert(Seq::<(Seq<char>, Option<Seq<char>>, Option<Seq<char>>, bool)>::empty().push(e) =~= seq![e]);
            }
        }
    }

    /// Callee name and receiver text of a call's `function` node.
    pub open spec fn spec_py_callee(&self, func: int) -> (Seq<char>, Option<Seq<char>>) {
        py_callee_in(self.tree, func)
    }

    /// What a plain `import` statement's child records: `a.b` binds `a`,
    /// `a.b as x` binds `x`.
    pub open spec fn py_plain_import(t: SyntaxTree, c: usize) -> Option<(Seq<char>, Option<Seq<char>>, Option<Seq<char>>, bool)> {
        if t.kind_of(c as int) == "dotted_name"@ {
            Some((t.text_of(c as int), Some(before_first(t.text_of(c as int), "."@)), None, false))
        } else if t.kind_of(c as int) == "aliased_import"@ {
            let path = match t.field_of(c as int, "name"@) { Some(n) => t.text_of(n as int), None => Seq::empty() };
            let alias = match t.field_of(c as int, "alias"@) { Some(n) => Some(t.text_of(n as int)), None => None };
            Some((path, Some(match alias { Some(a) => a, None => before_first(path, "."@) }), alias, false))
        } else {
            None
        }
    }

    /// What a child of `from m import ..` records (the module node itself records nothing).
    pub open spec fn py_from_import(t: SyntaxTree, c: usize, module_node: Option<usize>, module: Seq<char>, rel: bool)
        -> Option<(Seq<char>, Option<Seq<char>>, Option<Seq<char>>, bool)> {
        let k = t.kind_of(c as int);
        if module_node == Some(c) {
            None
        } else if k == "dotted_name"@ || k == "identifier"@ {
            Some((module, Some(t.text_of(c as int)), None, rel))
        } else if k == "aliased_import"@ {
            Some((module, Some(match t.field_of(c as int, "name"@) { Some(x) => t.text_of(x as int), None => Seq::empty() }),
                match t.field_of(c as int, "alias"@) { Some(x) => Some(t.text_of(x as int)), None => None }, rel))
        } else if k == "wildcard_import"@ {
            Some((module, None, None, rel))
        } else {
            None
        }
    }

    pub open spec fn py_plain_records(t: SyntaxTree, s: Seq<usize>) -> Seq<(Seq<char>, Option<Seq<char>>, Option<Seq<char>>, bool)> {
        Walker::collect_imports(s, |c: usize| Self::py_plain_import(t, c))
    }

    pub open spec fn py_from_records(t: SyntaxTree, s: Seq<usize>, module_node: Option<usize>, module: Seq<char>, rel: bool)
        -> Seq<(Seq<char>, Option<Seq<char>>, Option<Seq<char>>, bool)> {
        Walker::collect_imports(s, |c: usize| Self::py_from_import(t, c, module_node, module, rel))
    }

    /// The relative flag of `from m import ..`: `m` starts with `.` or is a relative import node.
    pub open spec fn py_from_relative(t: SyntaxTree, module_node: Option<usize>) -> bool {
        let module = match module_node { Some(m) => t.text_of(m as int), None => Seq::empty() };
        (module.len() > 0 && module[0] == '.') || match module_node {
            Some(m) => t.kind_of(m as int) == "relative_import"@,
            None => false,
        }
    }

    /// The imports an import statement records.
    pub open spec fn py_import_records(t: SyntaxTree, node: int, is_from: bool) -> Seq<(Seq<char>, Option<Seq<char>>, Option<Seq<char>>, bool)> {
        let kids = t.named_kids(node);
        if !is_from {
            Self::py_plain_records(t, kids)
        } else {
            let module_node = t.field_of(node, "module_name"@);
            let module = match module_node { Some(m) => t.text_of(m as int), None => Seq::empty() };
            let rel = Self::py_from_relative(t, module_node);
            let es = Self::py_from_records(t, kids, module_node, module, rel);
            if es.len() > 0 { es } else { seq![(module, None, None, rel)] }
        }
    }

    /// A call `f(..)` or `obj.f(..)` is a `call` reference.
    pub fn py_collect_call(&mut self, node: usize)
        requires
            old(self).inv(),
            old(self).valid(node as int),
        ensures
            final(self).inv(),
            final(self).extends(*old(self)),
            final(self).out.symbols@ == old(self).out.symbols@,
            final(self).out.scopes@ == old(self).out.scopes@,
            final(self).out.bindings@ == old(self).out.bindings@,
            final(self).out.imports@ == old(self).out.imports@,
            final(self).sc == old(self).sc,
            ({
                let t = old(self).tree;
                match t.field_of(node as int, "function"@) {
                    Some(f) if old(self).spec_py_callee(f as int).0.len() > 0 => {
                        let (name, recv) = old(self).spec_py_callee(f as int);
                        &&& final(self).out.refs@ == old(self).out.refs@.push(final(self).out.refs@.last())
                        &&& Walker::is_ref(final(self).out.refs@.last(), name, "call"@, recv, Seq::empty(), None,
                            t.line_of(node as int), t.start_of(node as int), None)
                    },
                    _ => final(self).out.refs@ == old(self).out.refs@,
                }
            }),
    {
        let func = match self.tree.field_child(node, "function") {
            Some(f) => f,
            None => { return; },
        };
        let (name, receiver) = if self.tree.is(func, "identifier") {
            (self.text(func), None)
        } else if self.tree.is(func, "attribute") {
            let attr = match self.tree.field_child(func, "attribute") {
                Some(n) => self.text(n),
                None => String::new(),
            };
            let obj = match self.tree.field_child(func, "object") {
                Some(n) => Some(self.text(n)),
                None => None,
            };
            (attr, obj)
        } else {
            (String::new(), None)
        };
        if name.as_str().is_empty() {
            return;
        }
        let r = NewRef {
            name,
            ref_kind: "call".to_string(),
            receiver,
            start_line: self.tree.line(node),
            start_byte: self.tree.start(node),
            name_start_byte: None,
            arg_count: None,
            receiver_kind: String::new(),
            local_only: false,
            resolved_local_symbol_index: None,
        };
        self.add_ref(r);
    }
}

/// A Python name is exported exactly when it does not start with `_`: one
/// leading underscore already makes it private.
pub proof fn law_py_underscore_is_private(name: Seq<char>)
    ensures
        name.len() > 0 && name[0] == '_' ==> !py_public(name),
        name.len() > 0 && name[0] != '_' ==> py_public(name),
        name.len() == 0 ==> py_public(name),
        py_public(seq!['_'] + name) == false,
{
    assert((seq!['_'] + name)[0] == '_');
}

} // verus!

//! Rust extraction over a tree-sitter syntax tree.

pub mod calls;
pub mod helpers;
pub mod macros;
pub mod symbols;
pub mod types;
pub mod use_decl;

use vstd::prelude::*;
use vstd::string::StringSliceAdditionalSpecFns;
use crate::analysis::{ParsedFile, bindings_linked, refs_linked, scopes_ordered, symbols_ordered};
use crate::analysis::scope::{ScopeStack, resolve_locals, lemma_resolve_keeps_links, resolve_ref};
use crate::cache::models::{NewImport, NewRef, NewStringLiteral, NewSymbol};
use crate::syntax::{Grammar, SyntaxTree, parse_syntax, syntax_of, RawNodeView};
use crate::text::{after_last, concat, str_eq, trim};
use self::helpers::after_last_exec;
use self::calls::{rust_node_row, rust_rows, rust_stop};
use crate::analysis::reach::{refs_cover, kids_cover, row_at, lemma_refs_cover_mono, lemma_refs_cover_node, lemma_kids_cover_mono, lemma_refs_cover_empty, resolved_cover};

verus! {

/// How far to follow macros nested in macros (`assert!(matches!(..))`).
pub const MAX_MACRO_DEPTH: u32 = 3;

/// The text of node `i`'s `name` field, when there is one and it is not empty.
pub open spec fn named_in(t: SyntaxTree, i: int) -> Option<Seq<char>> {
    match t.field_of(i, "name"@) {
        Some(n) => if t.text_of(n as int).len() > 0 { Some(t.text_of(n as int)) } else { None },
        None => None,
    }
}

/// `syms[i]` is a symbol named `name` of kind `kind` under `parent` that
/// spans node `node` of `t`.
pub open spec fn placed_at(syms: Seq<NewSymbol>, i: int, t: SyntaxTree, parent: Option<usize>, node: int, name: Seq<char>, kind: Seq<char>) -> bool {
    &&& 0 <= i < syms.len()
    &&& syms[i].name@ == name
    &&& syms[i].kind@ == kind
    &&& syms[i].parent_index == parent
    &&& syms[i].start_line == t.line_of(node)
    &&& syms[i].end_line == t.end_line_of(node)
    &&& syms[i].start_byte == t.start_of(node)
    &&& syms[i].end_byte == t.end_of(node)
}

/// Whether item node `node` carries a visibility modifier.
pub open spec fn rust_visible(t: SyntaxTree, node: int) -> bool {
    t.kid_of_kind(node, "visibility_modifier"@) is Some
}

/// Every item at the top of a Rust file (a function, struct, union, enum,
/// trait, impl, type alias, const, static, module or macro that names
/// itself) has its symbol in `syms`, with no parent, spanning the item,
/// exported exactly when the item carries a visibility modifier.
pub open spec fn rust_top_recorded(t: SyntaxTree, syms: Seq<NewSymbol>) -> bool {
    forall|j: int| 0 <= j < t.kids(0).len() && (#[trigger] self::symbols::rust_decl_name(t, t.kids(0)[j] as int)) is Some ==>
        exists|k: int| #[trigger] placed_at(syms, k, t, None, t.kids(0)[j] as int,
            self::symbols::rust_decl_name(t, t.kids(0)[j] as int)->0,
            self::symbols::rust_decl_kind(t, t.kids(0)[j] as int, false)->0)
            && syms[k].is_exported == rust_visible(t, t.kids(0)[j] as int)
}

/// `syms[k]` is the symbol declaration `d` (name, kind) gives node `node`.
pub open spec fn placed_decl(syms: Seq<NewSymbol>, k: int, t: SyntaxTree, parent: Option<usize>, node: int,
    d: Option<(Seq<char>, Seq<char>)>) -> bool {
    match d {
        Some((name, kind)) => placed_at(syms, k, t, parent, node, name, kind),
        None => false,
    }
}

/// Every node of `kids` that `decl` names (name, kind) has a symbol in `syms`
/// from index `lo` on, under `parent`, spanning the node.
pub open spec fn kids_placed(syms: Seq<NewSymbol>, lo: int, t: SyntaxTree, parent: Option<usize>, kids: Seq<usize>,
    decl: spec_fn(int) -> Option<(Seq<char>, Seq<char>)>) -> bool {
    forall|j: int| 0 <= j < kids.len() && (#[trigger] decl(kids[j] as int)) is Some ==>
        exists|k: int| lo <= k && #[trigger] placed_decl(syms, k, t, parent, kids[j] as int, decl(kids[j] as int))
}

pub proof fn lemma_kids_placed_grows(a: Seq<NewSymbol>, b: Seq<NewSymbol>, lo: int, t: SyntaxTree, parent: Option<usize>,
    kids: Seq<usize>, decl: spec_fn(int) -> Option<(Seq<char>, Seq<char>)>)
    requires
        kids_placed(a, lo, t, parent, kids, decl),
        crate::analysis::grows(a, b),
    ensures
        kids_placed(b, lo, t, parent, kids, decl),
{
    assert forall|j: int| 0 <= j < kids.len() && (#[trigger] decl(kids[j] as int)) is Some implies
        exists|k: int| lo <= k && #[trigger] placed_decl(b, k, t, parent, kids[j] as int, decl(kids[j] as int)) by {
        let k = choose|k: int| lo <= k && #[trigger] placed_decl(a, k, t, parent, kids[j] as int, decl(kids[j] as int));
        assert(b[k] == a[k]);
        assert(placed_decl(b, k, t, parent, kids[j] as int, decl(kids[j] as int)));
    }
}

/// Placed from `lo1` on is placed from any earlier `lo2` on.
pub proof fn lemma_kids_placed_lower(syms: Seq<NewSymbol>, lo1: int, lo2: int, t: SyntaxTree, parent: Option<usize>,
    kids: Seq<usize>, decl: spec_fn(int) -> Option<(Seq<char>, Seq<char>)>)
    requires
        kids_placed(syms, lo1, t, parent, kids, decl),
        lo2 <= lo1,
    ensures
        kids_placed(syms, lo2, t, parent, kids, decl),
{
    assert forall|j: int| 0 <= j < kids.len() && (#[trigger] decl(kids[j] as int)) is Some implies
        exists|k: int| lo2 <= k && #[trigger] placed_decl(syms, k, t, parent, kids[j] as int, decl(kids[j] as int)) by {
        let k = choose|k: int| lo1 <= k && #[trigger] placed_decl(syms, k, t, parent, kids[j] as int, decl(kids[j] as int));
    }
}

/// Extending `kids` by `c`, recorded at index `k`, keeps [`kids_placed`].
pub proof fn lemma_kids_placed_push(syms: Seq<NewSymbol>, lo: int, t: SyntaxTree, parent: Option<usize>,
    kids: Seq<usize>, c: usize, k: int, decl: spec_fn(int) -> Option<(Seq<char>, Seq<char>)>)
    requires
        kids_placed(syms, lo, t, parent, kids, decl),
        lo <= k,
        decl(c as int) is Some ==> placed_decl(syms, k, t, parent, c as int, decl(c as int)),
    ensures
        kids_placed(syms, lo, t, parent, kids.push(c), decl),
{
    let ks = kids.push(c);
    assert forall|j: int| 0 <= j < ks.len() && (#[trigger] decl(ks[j] as int)) is Some implies
        exists|k2: int| lo <= k2 && #[trigger] placed_decl(syms, k2, t, parent, ks[j] as int, decl(ks[j] as int)) by {
        if j < kids.len() {
            assert(ks[j] == kids[j]);
        } else {
            assert(ks[j] == c);
            assert(placed_decl(syms, k, t, parent, c as int, decl(c as int)));
        }
    }
}

/// Whether node `node` is an `impl` or a `trait`, whose body holds members.
pub open spec fn is_impl_or_trait(t: SyntaxTree, node: int) -> bool {
    t.kind_of(node) == "impl_item"@ || t.kind_of(node) == "trait_item"@
}

/// Every member that the `declaration_list` `body` declares has its symbol
/// in `syms` under `parent`, as a member of an impl or trait (so a `fn` is a
/// method), spanning the member.
pub open spec fn members_recorded(t: SyntaxTree, syms: Seq<NewSymbol>, parent: Option<usize>, body: int) -> bool {
    forall|j: int| 0 <= j < t.kids(body).len() && (#[trigger] self::symbols::rust_decl_name(t, t.kids(body)[j] as int)) is Some ==>
        exists|k: int| #[trigger] placed_at(syms, k, t, parent, t.kids(body)[j] as int,
            self::symbols::rust_decl_name(t, t.kids(body)[j] as int)->0,
            self::symbols::rust_decl_kind(t, t.kids(body)[j] as int, true)->0)
}

/// The members of each body (`declaration_list`) of node `node` are recorded under `parent`.
pub open spec fn bodies_recorded(t: SyntaxTree, syms: Seq<NewSymbol>, parent: Option<usize>, node: int) -> bool {
    forall|x: int| 0 <= x < t.kids(node).len() && t.kind_of(#[trigger] t.kids(node)[x] as int) == "declaration_list"@ ==>
        members_recorded(t, syms, parent, t.kids(node)[x] as int)
}

/// Every impl and trait at the top of a Rust file has its symbol, with no
/// parent, and each of its members has a symbol whose parent is that one.
pub open spec fn rust_members_recorded(t: SyntaxTree, syms: Seq<NewSymbol>) -> bool {
    forall|j: int| 0 <= j < t.kids(0).len() && is_impl_or_trait(t, t.kids(0)[j] as int)
        && (#[trigger] self::symbols::rust_decl_name(t, t.kids(0)[j] as int)) is Some ==>
        exists|k: int| #[trigger] placed_at(syms, k, t, None, t.kids(0)[j] as int,
            self::symbols::rust_decl_name(t, t.kids(0)[j] as int)->0,
            self::symbols::rust_decl_kind(t, t.kids(0)[j] as int, false)->0)
            && bodies_recorded(t, syms, Some(k as usize), t.kids(0)[j] as int)
}

pub proof fn lemma_bodies_recorded_grows(t: SyntaxTree, a: Seq<NewSymbol>, b: Seq<NewSymbol>, parent: Option<usize>, node: int)
    requires
        bodies_recorded(t, a, parent, node),
        crate::analysis::grows(a, b),
    ensures
        bodies_recorded(t, b, parent, node),
{
    assert forall|x: int| 0 <= x < t.kids(node).len() && t.kind_of(#[trigger] t.kids(node)[x] as int) == "declaration_list"@ implies
        members_recorded(t, b, parent, t.kids(node)[x] as int) by {
        let body = t.kids(node)[x] as int;
        assert(members_recorded(t, a, parent, body));
        assert forall|j: int| 0 <= j < t.kids(body).len() && (#[trigger] self::symbols::rust_decl_name(t, t.kids(body)[j] as int)) is Some implies
            exists|k: int| #[trigger] placed_at(b, k, t, parent, t.kids(body)[j] as int,
                self::symbols::rust_decl_name(t, t.kids(body)[j] as int)->0,
                self::symbols::rust_decl_kind(t, t.kids(body)[j] as int, true)->0) by {
            let m = t.kids(body)[j] as int;
            let k = choose|k: int| #[trigger] placed_at(a, k, t, parent, m,
                self::symbols::rust_decl_name(t, m)->0, self::symbols::rust_decl_kind(t, m, true)->0);
            assert(b[k] == a[k]);
            assert(placed_at(b, k, t, parent, m, self::symbols::rust_decl_name(t, m)->0, self::symbols::rust_decl_kind(t, m, true)->0));
        }
    }
}

/// `imports` holds the rows `es`, in order, from index `o` on, each on `line`.
pub open spec fn imports_at(imports: Seq<NewImport>, o: int, line: i64,
    es: Seq<(Seq<char>, Option<Seq<char>>, Option<Seq<char>>, bool)>) -> bool {
    &&& 0 <= o && o + es.len() <= imports.len()
    &&& forall|k: int| 0 <= k < es.len() ==> Walker::is_import(imports[o + k], (#[trigger] es[k]).0, es[k].1, es[k].2, es[k].3, line)
}

/// The import rows a `use` declaration node yields: one per path its tree
/// brings in.
pub open spec fn rust_use_imports(t: SyntaxTree, node: int) -> Seq<(Seq<char>, Option<Seq<char>>, Option<Seq<char>>, bool)> {
    match t.field_of(node, "argument"@) {
        Some(a) => self::use_decl::use_records(Walker::use_paths(t, a as int, ""@)),
        None => Seq::empty(),
    }
}

/// Every `use` declaration among `kids` has its rows in `imports`, from `lo` on.
pub open spec fn rust_kids_imports(imports: Seq<NewImport>, lo: int, t: SyntaxTree, kids: Seq<usize>) -> bool {
    forall|x: int| 0 <= x < kids.len() && t.kind_of(#[trigger] kids[x] as int) == "use_declaration"@ ==>
        exists|o: int| lo <= o && #[trigger] imports_at(imports, o, t.line_of(kids[x] as int), rust_use_imports(t, kids[x] as int))
}

pub proof fn lemma_rust_kids_imports_grows(a: Seq<NewImport>, b: Seq<NewImport>, lo: int, t: SyntaxTree, kids: Seq<usize>)
    requires
        rust_kids_imports(a, lo, t, kids),
        crate::analysis::grows(a, b),
    ensures
        rust_kids_imports(b, lo, t, kids),
{
    assert forall|x: int| 0 <= x < kids.len() && t.kind_of(#[trigger] kids[x] as int) == "use_declaration"@ implies
        exists|o: int| lo <= o && #[trigger] imports_at(b, o, t.line_of(kids[x] as int), rust_use_imports(t, kids[x] as int)) by {
        let c = kids[x] as int;
        let es = rust_use_imports(t, c);
        let o = choose|o: int| lo <= o && #[trigger] imports_at(a, o, t.line_of(c), es);
        assert forall|k: int| 0 <= k < es.len() implies Walker::is_import(b[o + k], (#[trigger] es[k]).0, es[k].1, es[k].2, es[k].3, t.line_of(c)) by {
            assert(b[o + k] == a[o + k]);
        }
        assert(imports_at(b, o, t.line_of(c), es));
    }
}

/// Some node of a preorder listing is an error or a missing node.
pub open spec fn listing_has_error(nodes: Seq<RawNodeView>) -> bool {
    exists|i: int| 0 <= i < nodes.len() && #[trigger] nodes[i].error
}

/// What parsing `source` gives: `p.parse_ok` tells whether the grammar
/// reported errors, every declaration at the top of the file has its symbol,
/// every member of a top-level impl or trait has one under that item's,
/// every top-level `use` declaration has its import rows, and every call
/// and macro invocation the walk reaches has its reference.
pub open spec fn rust_parsed(source: Seq<char>, p: ParsedFile) -> bool {
    match syntax_of(Grammar::Rust, source) {
        None => !p.parse_ok && p.symbols@.len() == 0 && p.refs@.len() == 0,
        Some(nodes) => {
            &&& p.parse_ok == !listing_has_error(nodes)
            &&& exists|t: SyntaxTree| #[trigger] t.built_from(vstd::utf8::encode_utf8(source), nodes)
                && (t.size() > 0 && t.kind_of(0) == "source_file"@ ==> rust_top_recorded(t, p.symbols@)
                    && rust_members_recorded(t, p.symbols@)
                    && rust_kids_imports(p.imports@, 0, t, t.kids(0)))
                && resolved_cover(t, rust_stop(), rust_rows(t), p)
        },
    }
}

/// Parse Rust `source` into symbols, imports, references, scopes and bindings.
pub fn parse(source: &str) -> (p: ParsedFile)
    ensures
        p.wf(),
        rust_parsed(source@, p),
{
    let tree = match parse_syntax(Grammar::Rust, source) {
        Some(t) => t,
        None => {
            return ParsedFile::empty(false);
        },
    };
    proof {
        let nodes = syntax_of(Grammar::Rust, source@)->0;
        assert(nodes.len() == tree.nodes@.len());
        assert forall|i: int| 0 <= i < nodes.len() implies nodes[i].error == tree.nodes@[i].error by {
            assert(nodes[i] == tree.nodes@[i]@);
        }
        if listing_has_error(nodes) {
            let i = choose|i: int| 0 <= i < nodes.len() && #[trigger] nodes[i].error;
            assert(tree.nodes@[i].error);
        }
        if tree.spec_has_error() {
            let i = choose|i: int| 0 <= i < tree.nodes@.len() && #[trigger] tree.nodes@[i].error;
            assert(nodes[i].error);
        }
    }
    let ok = !tree.has_error();
    let n = tree.len();
    let ghost t = tree;
    let mut walker = Walker::new(tree, source.len(), 0);
    walker.out.parse_ok = ok;
    let ghost w0 = walker;
    if n > 0 {
        walker.walk(0);
        proof {
            if t.kind_of(0) == "source_file"@ {
                let syms = walker.out.symbols@;
                assert(!w0.in_impl_or_trait());
                assert forall|j: int| 0 <= j < t.kids(0).len() && (#[trigger] self::symbols::rust_decl_name(t, t.kids(0)[j] as int)) is Some implies
                    exists|k: int| #[trigger] placed_at(syms, k, t, None, t.kids(0)[j] as int,
                        self::symbols::rust_decl_name(t, t.kids(0)[j] as int)->0,
                        self::symbols::rust_decl_kind(t, t.kids(0)[j] as int, false)->0)
                        && syms[k].is_exported == rust_visible(t, t.kids(0)[j] as int) by {
                    let c = t.kids(0)[j] as int;
                    assert(w0.decl_name(c) is Some);
                    let k = choose|k: int| 0 <= k && #[trigger] Walker::rust_recorded(syms, k, w0, c, w0.decl_name(c)->0, w0.declared_kind(c)->0);
                    assert(placed_at(syms, k, t, None, c, self::symbols::rust_decl_name(t, c)->0, self::symbols::rust_decl_kind(t, c, false)->0));
                    assert(syms[k].is_exported == rust_visible(t, c));
                }
                assert forall|j: int| 0 <= j < t.kids(0).len() && is_impl_or_trait(t, t.kids(0)[j] as int)
                    && (#[trigger] self::symbols::rust_decl_name(t, t.kids(0)[j] as int)) is Some implies
                    exists|k: int| #[trigger] placed_at(syms, k, t, None, t.kids(0)[j] as int,
                        self::symbols::rust_decl_name(t, t.kids(0)[j] as int)->0,
                        self::symbols::rust_decl_kind(t, t.kids(0)[j] as int, false)->0)
                        && bodies_recorded(t, syms, Some(k as usize), t.kids(0)[j] as int) by {
                    let c = t.kids(0)[j] as int;
                    assert(w0.decl_name(c) is Some);
                    let k = choose|k: int| #[trigger] Walker::rust_recorded(syms, k, w0, c, w0.decl_name(c)->0, w0.declared_kind(c)->0)
                        && bodies_recorded(t, syms, Some(k as usize), c);
                    assert(placed_at(syms, k, t, None, c, self::symbols::rust_decl_name(t, c)->0, self::symbols::rust_decl_kind(t, c, false)->0));
                }
            }
        }
    }
    let ghost syms_walked = walker.out.symbols@;
    let ghost imports_walked = walker.out.imports@;
    let ghost raw_refs = walker.out.refs@;
    proof {
        if n == 0 {
            lemma_refs_cover_empty(raw_refs, t, rust_stop(), rust_rows(t));
        }
        assert(refs_cover(raw_refs, 0, t, rust_stop(), rust_rows(t), 0));
    }
    let Walker { tree: _, mut out, stack: _, sc, macro_depth: _ } = walker;
    let ghost before = out;
    let ghost scs = sc;
    sc.finish_into(&mut out);
    proof {
        assert(scs.inv());
    }
    let ghost fin = out;
    resolve_locals(&mut out);
    proof {
        lemma_resolve_keeps_links(scs.scopes@, scs.bindings@, before.refs@, out.refs@, before.symbols@.len(), before.imports@.len());
        let nodes = syntax_of(Grammar::Rust, source@)->0;
        assert(t.built_from(source.spec_bytes(), nodes));
        assert(out.symbols@ == syms_walked);
        assert(out.imports@ == imports_walked);
        assert(before.refs@ == raw_refs);
        assert forall|k: int| 0 <= k < raw_refs.len() implies out.refs@[k] == resolve_ref(out.scopes@, out.bindings@, #[trigger] raw_refs[k]) by {
            assert(out.refs@[k] == resolve_ref(fin.scopes@, fin.bindings@, fin.refs@[k]));
        }
        assert(resolved_cover(t, rust_stop(), rust_rows(t), out));
    }
    out
}

/// The state of one walk over a Rust syntax tree.
pub struct Walker {
    pub tree: SyntaxTree,
    pub out: ParsedFile,
    /// Indices into `out.symbols` for the current lexical parent chain.
    pub stack: Vec<usize>,
    pub sc: ScopeStack,
    /// How many macro bodies deep this walk is.
    pub macro_depth: u32,
}

impl Walker {
    /// Indices stay in bounds: symbols and scopes point backwards, bindings and
    /// scopes at real symbols and imports, the open-symbol stack at real symbols.
    pub open spec fn inv(&self) -> bool {
        &&& self.tree.wf()
        &&& self.sc.inv()
        &&& self.macro_depth <= MAX_MACRO_DEPTH
        &&& symbols_ordered(self.out.symbols@)
        &&& forall|k: int| 0 <= k < self.stack@.len() ==> #[trigger] self.stack@[k] < self.out.symbols@.len()
        &&& scopes_ordered(self.sc.scopes@, self.out.symbols@.len())
        &&& bindings_linked(self.sc.bindings@, self.sc.scopes@.len(), self.out.symbols@.len(), self.out.imports@.len())
        &&& refs_linked(self.out.refs@, self.out.symbols@.len())
    }

    /// `self` is `old` with more extracted: same tree, same open symbols and
    /// scopes, symbols, imports and references only appended.
    pub open spec fn extends(self, old: Walker) -> bool {
        &&& self.tree == old.tree
        &&& self.stack@ == old.stack@
        &&& self.sc.stack@ == old.sc.stack@
        &&& self.macro_depth == old.macro_depth
        &&& crate::analysis::grows(old.out.symbols@, self.out.symbols@)
        &&& crate::analysis::grows(old.out.imports@, self.out.imports@)
        &&& crate::analysis::grows(old.out.refs@, self.out.refs@)
        &&& old.sc.scopes@.len() <= self.sc.scopes@.len()
        &&& self.out.parse_ok == old.out.parse_ok
    }

    /// The innermost open symbol, if any.
    pub open spec fn parent_sym(&self) -> Option<usize> {
        if self.stack@.len() > 0 { Some(self.stack@.last()) } else { None }
    }

    pub open spec fn valid(&self, i: int) -> bool {
        0 <= i < self.tree.size()
    }

    /// Hand over what the walk extracted: the scopes and bindings move into
    /// the file, and bare references are resolved in-file.
    pub fn finish(self) -> (out: ParsedFile)
        requires
            self.inv(),
        ensures
            out.wf(),
            out.parse_ok == self.out.parse_ok,
            out.symbols@ == self.out.symbols@,
            out.imports@ == self.out.imports@,
            out.refs@.len() == self.out.refs@.len(),
            forall|k: int| 0 <= k < self.out.refs@.len() ==> out.refs@[k] == resolve_ref(out.scopes@, out.bindings@, #[trigger] self.out.refs@[k]),
            out.scopes@ == self.sc.scopes@,
            out.bindings@ == self.sc.bindings@,
    {
        let Walker { tree: _, mut out, stack: _, sc, macro_depth: _ } = self;
        let ghost before = out;
        let ghost scs = sc;
        sc.finish_into(&mut out);
            let ghost fin = out;
        resolve_locals(&mut out);
        assert forall|k: int| 0 <= k < before.refs@.len() implies out.refs@[k] == resolve_ref(out.scopes@, out.bindings@, #[trigger] before.refs@[k]) by {
            assert(out.refs@[k] == resolve_ref(fin.scopes@, fin.bindings@, fin.refs@[k]));
        }
        proof {
            lemma_resolve_keeps_links(scs.scopes@, scs.bindings@, before.refs@, out.refs@, before.symbols@.len(), before.imports@.len());
        }
        out
    }

    pub fn new(tree: SyntaxTree, src_len: usize, macro_depth: u32) -> (w: Walker)
        requires
            tree.wf(),
            macro_depth <= MAX_MACRO_DEPTH,
        ensures
            w.inv(),
            w.tree == tree,
            w.macro_depth == macro_depth,
            w.stack@.len() == 0,
            w.out.symbols@.len() == 0,
            w.out.refs@.len() == 0,
            w.out.imports@.len() == 0,
            w.out.scopes@.len() == 0,
            w.out.bindings@.len() == 0,
            w.out.string_literals@.len() == 0,
            w.out.parse_ok,
    {
        let file_len = crate::syntax::to_i64(src_len);
        Walker { tree, out: ParsedFile::empty(true), stack: Vec::new(), sc: ScopeStack::new(file_len), macro_depth }
    }

    /// Append a symbol whose parent is an earlier symbol.
    pub fn add_symbol(&mut self, s: NewSymbol) -> (idx: usize)
        requires
            old(self).inv(),
            s.parent_index is Some ==> s.parent_index->0 < old(self).out.symbols@.len(),
        ensures
            final(self).inv(),
            final(self).extends(*old(self)),
            final(self).out.scopes@ == old(self).out.scopes@,
            final(self).out.bindings@ == old(self).out.bindings@,
            final(self).out.symbols@ == old(self).out.symbols@.push(s),
            final(self).out.imports@ == old(self).out.imports@,
            final(self).out.refs@ == old(self).out.refs@,
            final(self).out.string_literals@ == old(self).out.string_literals@,
            final(self).sc == old(self).sc,
            idx == old(self).out.symbols@.len(),
    {
        self.out.symbols.push(s);
        self.out.symbols.len() - 1
    }

    /// Append a reference (not yet resolved in-file).
    pub fn add_ref(&mut self, r: NewRef)
        requires
            old(self).inv(),
            r.resolved_local_symbol_index is None,
        ensures
            final(self).inv(),
            final(self).extends(*old(self)),
            final(self).out.scopes@ == old(self).out.scopes@,
            final(self).out.bindings@ == old(self).out.bindings@,
            final(self).out.refs@ == old(self).out.refs@.push(r),
            final(self).out.symbols@ == old(self).out.symbols@,
            final(self).out.imports@ == old(self).out.imports@,
            final(self).out.string_literals@ == old(self).out.string_literals@,
            final(self).sc == old(self).sc,
    {
        self.out.refs.push(r);
    }

    /// Append an import; returns its index.
    pub fn add_import(&mut self, m: NewImport) -> (idx: usize)
        requires
            old(self).inv(),
        ensures
            final(self).inv(),
            final(self).extends(*old(self)),
            final(self).out.scopes@ == old(self).out.scopes@,
            final(self).out.bindings@ == old(self).out.bindings@,
            final(self).out.imports@ == old(self).out.imports@.push(m),
            final(self).out.symbols@ == old(self).out.symbols@,
            final(self).out.refs@ == old(self).out.refs@,
            final(self).out.string_literals@ == old(self).out.string_literals@,
            final(self).sc == old(self).sc,
            idx == old(self).out.imports@.len(),
    {
        self.out.imports.push(m);
        self.out.imports.len() - 1
    }

    pub fn add_literal(&mut self, l: NewStringLiteral)
        requires
            old(self).inv(),
        ensures
            final(self).inv(),
            final(self).extends(*old(self)),
            final(self).out.scopes@ == old(self).out.scopes@,
            final(self).out.bindings@ == old(self).out.bindings@,
            final(self).out.string_literals@ == old(self).out.string_literals@.push(l),
            final(self).out.symbols@ == old(self).out.symbols@,
            final(self).out.refs@ == old(self).out.refs@,
            final(self).out.imports@ == old(self).out.imports@,
            final(self).sc == old(self).sc,
    {
        self.out.string_literals.push(l);
    }

    /// Record a name in the current scope.
    pub fn bind(&mut self, name: &str, kind: &str, sym: Option<usize>, imp: Option<usize>, ty: Option<String>)
        requires
            old(self).inv(),
            sym is Some ==> sym->0 < old(self).out.symbols@.len(),
            imp is Some ==> imp->0 < old(self).out.imports@.len(),
        ensures
            final(self).inv(),
            final(self).extends(*old(self)),
            final(self).out == old(self).out,
            final(self).sc.scopes@ == old(self).sc.scopes@,
            name@.len() == 0 ==> final(self).sc.bindings@ == old(self).sc.bindings@,
            name@.len() > 0 ==> {
                let b = final(self).sc.bindings@.last();
                &&& final(self).sc.bindings@ == old(self).sc.bindings@.push(b)
                &&& b.scope_index == old(self).sc.spec_current()
                &&& b.name@ == name@
                &&& b.binding_kind@ == kind@
                &&& b.symbol_index == sym
                &&& b.import_index == imp
                &&& b.type_expr == ty
            },
    {
        self.sc.bind(name, kind, sym, imp, ty);
        assert(self.sc.bindings@ =~= old(self).sc.bindings@ || self.sc.bindings@ =~= old(self).sc.bindings@.push(self.sc.bindings@.last()));
    }

    /// `syms` holds at index `i` a symbol named `name` of kind `kind` that
    /// spans node `node` of `w`'s tree, under `w`'s innermost open symbol.
    pub open spec fn recorded_at(syms: Seq<NewSymbol>, i: int, w: Walker, node: int, name: Seq<char>, kind: Seq<char>) -> bool {
        placed_at(syms, i, w.tree, if w.stack@.len() > 0 { Some(w.stack@.last()) } else { None }, node, name, kind)
    }

    /// Like [`Walker::recorded_at`], and the symbol is exported exactly when
    /// its item carries a visibility modifier (`pub`, `pub(crate)`, ..).
    pub open spec fn rust_recorded(syms: Seq<NewSymbol>, i: int, w: Walker, node: int, name: Seq<char>, kind: Seq<char>) -> bool {
        &&& Self::recorded_at(syms, i, w, node, name, kind)
        &&& syms[i].is_exported == rust_visible(w.tree, node)
    }

    /// Every child in `kids` that declares a symbol (as `w` sees it) has one
    /// recorded in `syms` from index `lo` on.
    pub open spec fn kids_recorded(syms: Seq<NewSymbol>, lo: int, w: Walker, kids: Seq<usize>) -> bool {
        forall|j: int| 0 <= j < kids.len() && (#[trigger] w.decl_name(kids[j] as int)) is Some ==>
            exists|k: int| lo <= k && #[trigger] Self::rust_recorded(syms, k, w, kids[j] as int,
                w.decl_name(kids[j] as int)->0, w.declared_kind(kids[j] as int)->0)
    }

    pub proof fn lemma_kids_recorded_grows(a: Seq<NewSymbol>, b: Seq<NewSymbol>, lo: int, w: Walker, kids: Seq<usize>)
        requires
            Self::kids_recorded(a, lo, w, kids),
            crate::analysis::grows(a, b),
        ensures
            Self::kids_recorded(b, lo, w, kids),
    {
        assert forall|j: int| 0 <= j < kids.len() && (#[trigger] w.decl_name(kids[j] as int)) is Some implies
            exists|k: int| lo <= k && #[trigger] Self::rust_recorded(b, k, w, kids[j] as int,
                w.decl_name(kids[j] as int)->0, w.declared_kind(kids[j] as int)->0) by {
            let k = choose|k: int| lo <= k && #[trigger] Self::rust_recorded(a, k, w, kids[j] as int,
                w.decl_name(kids[j] as int)->0, w.declared_kind(kids[j] as int)->0);
            assert(b[k] == a[k]);
            assert(Self::rust_recorded(b, k, w, kids[j] as int, w.decl_name(kids[j] as int)->0, w.declared_kind(kids[j] as int)->0));
        }
    }

    /// Seen from another walker over the same tree and open symbols, and
    /// from an earlier lower bound, the same children stay recorded.
    pub proof fn lemma_kids_recorded_view(syms: Seq<NewSymbol>, lo1: int, lo2: int, a: Walker, b: Walker, kids: Seq<usize>)
        requires
            Self::kids_recorded(syms, lo1, a, kids),
            lo2 <= lo1,
            a.tree == b.tree,
            a.stack@ == b.stack@,
            a.in_impl_or_trait() == b.in_impl_or_trait(),
        ensures
            Self::kids_recorded(syms, lo2, b, kids),
    {
        assert forall|j: int| 0 <= j < kids.len() && (#[trigger] b.decl_name(kids[j] as int)) is Some implies
            exists|k: int| lo2 <= k && #[trigger] Self::rust_recorded(syms, k, b, kids[j] as int,
                b.decl_name(kids[j] as int)->0, b.declared_kind(kids[j] as int)->0) by {
            assert(a.decl_name(kids[j] as int) is Some);
            let k = choose|k: int| lo1 <= k && #[trigger] Self::rust_recorded(syms, k, a, kids[j] as int,
                a.decl_name(kids[j] as int)->0, a.declared_kind(kids[j] as int)->0);
            assert(Self::rust_recorded(syms, k, b, kids[j] as int, b.decl_name(kids[j] as int)->0, b.declared_kind(kids[j] as int)->0));
        }
    }

    /// For every body (`declaration_list`) among `kids`, its declarations
    /// are recorded from `lo` on, as `w` sees them.
    pub open spec fn kids_bodies(syms: Seq<NewSymbol>, lo: int, w: Walker, kids: Seq<usize>) -> bool {
        forall|x: int| 0 <= x < kids.len() && w.tree.kind_of(#[trigger] kids[x] as int) == "declaration_list"@ ==>
            Self::kids_recorded(syms, lo, w, w.tree.kids(kids[x] as int))
    }

    /// Every impl or trait among `kids` is recorded together with the
    /// members of its bodies.
    pub open spec fn kids_members(syms: Seq<NewSymbol>, w: Walker, kids: Seq<usize>) -> bool {
        forall|x: int| 0 <= x < kids.len() && is_impl_or_trait(w.tree, kids[x] as int) && (#[trigger] w.decl_name(kids[x] as int)) is Some ==>
            exists|k: int| #[trigger] Self::rust_recorded(syms, k, w, kids[x] as int, w.decl_name(kids[x] as int)->0, w.declared_kind(kids[x] as int)->0)
                && bodies_recorded(w.tree, syms, Some(k as usize), kids[x] as int)
    }

    pub proof fn lemma_kids_bodies_grows(a: Seq<NewSymbol>, b: Seq<NewSymbol>, lo: int, w: Walker, kids: Seq<usize>)
        requires
            Self::kids_bodies(a, lo, w, kids),
            crate::analysis::grows(a, b),
        ensures
            Self::kids_bodies(b, lo, w, kids),
    {
        assert forall|x: int| 0 <= x < kids.len() && w.tree.kind_of(#[trigger] kids[x] as int) == "declaration_list"@ implies
            Self::kids_recorded(b, lo, w, w.tree.kids(kids[x] as int)) by {
            Self::lemma_kids_recorded_grows(a, b, lo, w, w.tree.kids(kids[x] as int));
        }
    }

    pub proof fn lemma_kids_members_grows(a: Seq<NewSymbol>, b: Seq<NewSymbol>, w: Walker, kids: Seq<usize>)
        requires
            Self::kids_members(a, w, kids),
            crate::analysis::grows(a, b),
        ensures
            Self::kids_members(b, w, kids),
    {
        assert forall|x: int| 0 <= x < kids.len() && is_impl_or_trait(w.tree, kids[x] as int) && (#[trigger] w.decl_name(kids[x] as int)) is Some implies
            exists|k: int| #[trigger] Self::rust_recorded(b, k, w, kids[x] as int, w.decl_name(kids[x] as int)->0, w.declared_kind(kids[x] as int)->0)
                && bodies_recorded(w.tree, b, Some(k as usize), kids[x] as int) by {
            let c = kids[x] as int;
            let k = choose|k: int| #[trigger] Self::rust_recorded(a, k, w, c, w.decl_name(c)->0, w.declared_kind(c)->0)
                && bodies_recorded(w.tree, a, Some(k as usize), c);
            assert(b[k] == a[k]);
            assert(Self::rust_recorded(b, k, w, c, w.decl_name(c)->0, w.declared_kind(c)->0));
            lemma_bodies_recorded_grows(w.tree, a, b, Some(k as usize), c);
        }
    }

    /// The entries `f` gives for the nodes of `s`, in order (a node it gives
    /// nothing for adds nothing).
    pub open spec fn collect_entries(s: Seq<usize>, f: spec_fn(usize) -> Option<(Seq<char>, Seq<char>, Option<Seq<char>>)>)
        -> Seq<(Seq<char>, Seq<char>, Option<Seq<char>>)>
        decreases s.len(),
    {
        if s.len() == 0 {
            Seq::empty()
        } else {
            let rest = Self::collect_entries(s.drop_last(), f);
            match f(s.last()) {
                Some(e) => rest.push(e),
                None => rest,
            }
        }
    }

    /// `after` is `before` followed by one binding per entry (name, kind,
    /// type), each in scope `scope` and tied to no symbol or import.
    pub open spec fn binds_all(before: Seq<crate::cache::models::NewBinding>, after: Seq<crate::cache::models::NewBinding>,
        scope: usize, entries: Seq<(Seq<char>, Seq<char>, Option<Seq<char>>)>) -> bool {
        &&& after.len() == before.len() + entries.len()
        &&& forall|k: int| 0 <= k < before.len() ==> #[trigger] after[k] == before[k]
        &&& forall|k: int| 0 <= k < entries.len() ==> {
            let b = after[before.len() + k];
            &&& b.scope_index == scope
            &&& b.name@ == (#[trigger] entries[k]).0
            &&& b.binding_kind@ == entries[k].1
            &&& b.symbol_index is None
            &&& b.import_index is None
            &&& crate::text::opt_chars(b.type_expr) == entries[k].2
        }
    }

    /// One more binding for one more entry keeps [`Walker::binds_all`].
    pub proof fn lemma_binds_push(before: Seq<crate::cache::models::NewBinding>, mid: Seq<crate::cache::models::NewBinding>,
        after: Seq<crate::cache::models::NewBinding>, scope: usize, entries: Seq<(Seq<char>, Seq<char>, Option<Seq<char>>)>,
        e: (Seq<char>, Seq<char>, Option<Seq<char>>))
        requires
            Self::binds_all(before, mid, scope, entries),
            e.0.len() > 0,
            Self::bound(mid, after, scope, e.0, e.1, None, None, e.2),
        ensures
            Self::binds_all(before, after, scope, entries.push(e)),
    {
        let es = entries.push(e);
        assert forall|k: int| 0 <= k < before.len() implies #[trigger] after[k] == before[k] by {
            assert(after[k] == mid[k]);
        }
        assert forall|k: int| 0 <= k < es.len() implies {
            let b = after[before.len() + k];
            &&& b.scope_index == scope
            &&& b.name@ == (#[trigger] es[k]).0
            &&& b.binding_kind@ == es[k].1
            &&& b.symbol_index is None
            &&& b.import_index is None
            &&& crate::text::opt_chars(b.type_expr) == es[k].2
        } by {
            if k < entries.len() {
                assert(es[k] == entries[k]);
                assert(after[before.len() + k] == mid[before.len() + k]);
            }
        }
    }

    /// Two runs of bindings, one after the other, bind both runs of entries.
    pub proof fn lemma_binds_concat(a: Seq<crate::cache::models::NewBinding>, b: Seq<crate::cache::models::NewBinding>,
        c: Seq<crate::cache::models::NewBinding>, scope: usize, e1: Seq<(Seq<char>, Seq<char>, Option<Seq<char>>)>,
        e2: Seq<(Seq<char>, Seq<char>, Option<Seq<char>>)>)
        requires
            Self::binds_all(a, b, scope, e1),
            Self::binds_all(b, c, scope, e2),
        ensures
            Self::binds_all(a, c, scope, e1 + e2),
    {
        let es = e1 + e2;
        assert forall|k: int| 0 <= k < a.len() implies #[trigger] c[k] == a[k] by {
            assert(c[k] == b[k]);
        }
        assert forall|k: int| 0 <= k < es.len() implies {
            let x = c[a.len() + k];
            &&& x.scope_index == scope
            &&& x.name@ == (#[trigger] es[k]).0
            &&& x.binding_kind@ == es[k].1
            &&& x.symbol_index is None
            &&& x.import_index is None
            &&& crate::text::opt_chars(x.type_expr) == es[k].2
        } by {
            if k < e1.len() {
                assert(es[k] == e1[k]);
                assert(c[a.len() + k] == b[a.len() + k]);
            } else {
                assert(es[k] == e2[k - e1.len()]);
                assert(a.len() + k == b.len() + (k - e1.len()));
            }
        }
    }

    /// The import records `f` gives for the nodes of `s`, in order.
    pub open spec fn collect_imports(s: Seq<usize>, f: spec_fn(usize) -> Option<(Seq<char>, Option<Seq<char>>, Option<Seq<char>>, bool)>)
        -> Seq<(Seq<char>, Option<Seq<char>>, Option<Seq<char>>, bool)>
        decreases s.len(),
    {
        if s.len() == 0 {
            Seq::empty()
        } else {
            let rest = Self::collect_imports(s.drop_last(), f);
            match f(s.last()) {
                Some(e) => rest.push(e),
                None => rest,
            }
        }
    }

    /// `after` is `before` followed by one import per record (specifier,
    /// imported name, alias, relative), each at line `line`.
    pub open spec fn imports_all(before: Seq<NewImport>, after: Seq<NewImport>, line: i64,
        es: Seq<(Seq<char>, Option<Seq<char>>, Option<Seq<char>>, bool)>) -> bool {
        &&& after.len() == before.len() + es.len()
        &&& forall|k: int| 0 <= k < before.len() ==> #[trigger] after[k] == before[k]
        &&& forall|k: int| 0 <= k < es.len() ==>
            Self::is_import(after[before.len() + k], (#[trigger] es[k]).0, es[k].1, es[k].2, es[k].3, line)
    }

    pub proof fn lemma_imports_push(before: Seq<NewImport>, mid: Seq<NewImport>, after: Seq<NewImport>, line: i64,
        es: Seq<(Seq<char>, Option<Seq<char>>, Option<Seq<char>>, bool)>, e: (Seq<char>, Option<Seq<char>>, Option<Seq<char>>, bool))
        requires
            Self::imports_all(before, mid, line, es),
            after == mid.push(after.last()),
            Self::is_import(after.last(), e.0, e.1, e.2, e.3, line),
        ensures
            Self::imports_all(before, after, line, es.push(e)),
    {
        let es2 = es.push(e);
        assert forall|k: int| 0 <= k < before.len() implies #[trigger] after[k] == before[k] by {
            assert(after[k] == mid[k]);
        }
        assert forall|k: int| 0 <= k < es2.len() implies
            Self::is_import(after[before.len() + k], (#[trigger] es2[k]).0, es2[k].1, es2[k].2, es2[k].3, line) by {
            if k < es.len() {
                assert(es2[k] == es[k]);
                assert(after[before.len() + k] == mid[before.len() + k]);
            }
        }
    }

    /// `r` is an unresolved reference with these parts.
    pub open spec fn is_ref(r: NewRef, name: Seq<char>, kind: Seq<char>, receiver: Option<Seq<char>>, receiver_kind: Seq<char>,
        arg_count: Option<i64>, line: i64, start: i64, name_start: Option<i64>) -> bool {
        &&& r.name@ == name
        &&& r.ref_kind@ == kind
        &&& crate::text::opt_chars(r.receiver) == receiver
        &&& r.start_line == line
        &&& r.start_byte == start
        &&& r.name_start_byte == name_start
        &&& r.arg_count == arg_count
        &&& r.receiver_kind@ == receiver_kind
        &&& !r.local_only
        &&& r.resolved_local_symbol_index is None
    }

    /// `m` records an import of `spec` with these parts.
    pub open spec fn is_import(m: NewImport, spec: Seq<char>, name: Option<Seq<char>>, alias: Option<Seq<char>>, rel: bool, line: i64) -> bool {
        &&& m.raw_specifier@ == spec
        &&& crate::text::opt_chars(m.imported_name) == name
        &&& crate::text::opt_chars(m.alias) == alias
        &&& m.is_relative == rel
        &&& m.start_line == line
    }

    /// `after` is `before` with `name` bound in scope `scope` as given; an
    /// empty name binds nothing.
    pub open spec fn bound(before: Seq<crate::cache::models::NewBinding>, after: Seq<crate::cache::models::NewBinding>,
        scope: usize, name: Seq<char>, kind: Seq<char>, sym: Option<usize>, imp: Option<usize>, ty: Option<Seq<char>>) -> bool {
        if name.len() == 0 {
            after == before
        } else {
            let b = after.last();
            &&& after == before.push(b)
            &&& b.scope_index == scope
            &&& b.name@ == name
            &&& b.binding_kind@ == kind
            &&& b.symbol_index == sym
            &&& b.import_index == imp
            &&& crate::text::opt_chars(b.type_expr) == ty
        }
    }

    /// Text of node `i`.
    pub fn text(&self, i: usize) -> (r: String)
        requires
            self.inv(),
            self.valid(i as int),
        ensures
            r@ == self.tree.text_of(i as int),
    {
        self.tree.text(i)
    }

    /// The text of node `i`'s `name` field, when there is one and it is not empty.
    pub open spec fn spec_named(&self, i: int) -> Option<Seq<char>> {
        named_in(self.tree, i)
    }

    /// The type an open `impl` / `trait` symbol stands for: the part of an
    /// impl's name after its last ` for `, trimmed, or the trait's own name.
    pub open spec fn owner_of(syms: Seq<crate::cache::models::NewSymbol>, stack: Seq<usize>) -> Option<Seq<char>>
        decreases stack.len(),
    {
        if stack.len() == 0 {
            None
        } else {
            let s = syms[stack.last() as int];
            if s.kind@ == "impl"@ {
                Some(trim(after_last(s.name@, " for "@)))
            } else if s.kind@ == "trait"@ {
                Some(s.name@)
            } else {
                Self::owner_of(syms, stack.drop_last())
            }
        }
    }

    /// What counts as one parameter of a Rust function.
    pub open spec fn is_rust_param(k: Seq<char>) -> bool {
        k == "parameter"@ || k == "self_parameter"@
    }

    /// Number of parameters of function node `i`, when it has a parameter list.
    pub open spec fn spec_param_count(&self, i: int) -> Option<i64> {
        match self.tree.field_of(i, "parameters"@) {
            Some(p) => Some(crate::syntax::sat_i64(
                self.tree.count_where(self.tree.named_kids(p as int), |k: Seq<char>| Self::is_rust_param(k)) as int)),
            None => None,
        }
    }

    /// The non-empty text of node `i`'s `name` field.
    pub fn named(&self, i: usize) -> (r: Option<String>)
        requires
            self.inv(),
            self.valid(i as int),
        ensures
            r matches Some(s) ==> s@.len() > 0,
            r matches Some(s) ==> self.spec_named(i as int) == Some(s@),
            r is None ==> self.spec_named(i as int) is None,
    {
        match self.tree.field_child(i, "name") {
            Some(n) => {
                let t = self.tree.text(n);
                if t.as_str().is_empty() { None } else { Some(t) }
            },
            None => None,
        }
    }

    /// Node `i` carries a visibility modifier.
    pub fn has_pub(&self, i: usize) -> (r: bool)
        requires
            self.inv(),
            self.valid(i as int),
        ensures
            r == self.tree.kid_of_kind(i as int, "visibility_modifier"@) is Some,
    {
        self.tree.child_of_kind(i, "visibility_modifier").is_some()
    }

    /// The innermost open symbol is an `impl` or a `trait`.
    pub fn parent_is_impl_or_trait(&self) -> (r: bool)
        requires
            self.inv(),
        ensures
            r == (self.stack@.len() > 0 && (self.out.symbols@[self.stack@.last() as int].kind@ == "impl"@
                || self.out.symbols@[self.stack@.last() as int].kind@ == "trait"@)),
    {
        if self.stack.len() == 0 {
            return false;
        }
        let i = self.stack[self.stack.len() - 1];
        let k = self.out.symbols[i].kind.as_str();
        str_eq(k, "impl") || str_eq(k, "trait")
    }

    /// Simple name of the type the innermost open `impl` / `trait` is for.
    pub fn enclosing_type_name(&self) -> (r: Option<String>)
        requires
            self.inv(),
        ensures
            r matches Some(s) ==> Self::owner_of(self.out.symbols@, self.stack@) == Some(s@),
            r is None ==> Self::owner_of(self.out.symbols@, self.stack@) is None,
    {
        let mut k = self.stack.len();
        assert(self.stack@.take(k as int) =~= self.stack@);
        while k > 0
            invariant
                self.inv(),
                k <= self.stack@.len(),
                Self::owner_of(self.out.symbols@, self.stack@) == Self::owner_of(self.out.symbols@, self.stack@.take(k as int)),
            decreases k,
        {
            assert(self.stack@.take(k as int).drop_last() =~= self.stack@.take(k - 1));
            k = k - 1;
            let i = self.stack[k];
            let s = &self.out.symbols[i];
            if str_eq(s.kind.as_str(), "impl") {
                let name = crate::text::chars_of(s.name.as_str());
                let sep = crate::text::chars_of(" for ");
                let last = after_last_exec(name.as_slice(), sep.as_slice());
                let t = crate::text::string_of(last.as_slice());
                return Some(crate::text::str_trim(t.as_str()));
            }
            if str_eq(s.kind.as_str(), "trait") {
                return Some(s.name.clone());
            }
        }
        None
    }

    /// Number of `parameter` / `self_parameter` nodes of a function.
    pub fn param_count(&self, i: usize) -> (r: Option<i64>)
        requires
            self.inv(),
            self.valid(i as int),
        ensures
            r == self.spec_param_count(i as int),
    {
        let params = match self.tree.field_child(i, "parameters") {
            Some(p) => p,
            None => { return None; },
        };
        let kids = self.tree.named_children(params);
        let ghost p = |k: Seq<char>| Self::is_rust_param(k);
        let mut n: i64 = 0;
        let mut j: usize = 0;
        while j < kids.len()
            invariant
                self.inv(),
                0 <= j <= kids@.len(),
                0 <= n <= j,
                forall|x: int| 0 <= x < kids@.len() ==> #[trigger] kids@[x] < self.tree.size(),
                p == (|k: Seq<char>| Self::is_rust_param(k)),
                n == crate::syntax::sat_i64(self.tree.count_where(kids@.take(j as int), p) as int),
            decreases kids@.len() - j,
        {
            let c = kids[j];
            assert(kids@.take(j + 1).drop_last() =~= kids@.take(j as int));
            if self.tree.is(c, "parameter") || self.tree.is(c, "self_parameter") {
                if n < i64::MAX {
                    n = n + 1;
                }
            }
            j = j + 1;
        }
        assert(kids@.take(kids@.len() as int) =~= kids@);
        Some(n)
    }

    pub fn walk(&mut self, node: usize)
        requires
            old(self).inv(),
            old(self).valid(node as int),
        ensures
            final(self).inv(),
            final(self).extends(*old(self)),
            old(self).decl_name(node as int) is Some ==> Self::rust_recorded(final(self).out.symbols@, old(self).out.symbols@.len() as int,
                *old(self), node as int, old(self).decl_name(node as int)->0, old(self).declared_kind(node as int)->0),
            old(self).tree.kind_of(node as int) == "source_file"@ ==> Self::kids_recorded(final(self).out.symbols@,
                old(self).out.symbols@.len() as int, *old(self), old(self).tree.kids(node as int)),
            old(self).tree.kind_of(node as int) == "source_file"@ ==> Self::kids_members(final(self).out.symbols@,
                *old(self), old(self).tree.kids(node as int)),
            old(self).tree.kind_of(node as int) == "declaration_list"@ ==> Self::kids_recorded(final(self).out.symbols@,
                old(self).out.symbols@.len() as int, *old(self), old(self).tree.kids(node as int)),
            is_impl_or_trait(old(self).tree, node as int) && old(self).decl_name(node as int) is Some ==> bodies_recorded(old(self).tree,
                final(self).out.symbols@, Some(old(self).out.symbols@.len() as usize), node as int),
            old(self).tree.kind_of(node as int) == "use_declaration"@ ==> Self::imports_all(old(self).out.imports@,
                final(self).out.imports@, old(self).tree.line_of(node as int), rust_use_imports(old(self).tree, node as int)),
            old(self).tree.kind_of(node as int) == "source_file"@ ==> rust_kids_imports(final(self).out.imports@,
                old(self).out.imports@.len() as int, old(self).tree, old(self).tree.kids(node as int)),
            refs_cover(final(self).out.refs@, old(self).out.refs@.len() as int, old(self).tree, rust_stop(), rust_rows(old(self).tree), node as int),
        decreases MAX_MACRO_DEPTH - old(self).macro_depth, old(self).tree.size() - node, 3nat,
    {
        proof {
            reveal_strlit("use_declaration");
            reveal_strlit("source_file");
            reveal_strlit("declaration_list");
            reveal_strlit("mod_item");
            reveal_strlit("function_item");
            reveal_strlit("struct_item");
            reveal_strlit("union_item");
            reveal_strlit("enum_item");
            reveal_strlit("trait_item");
            reveal_strlit("impl_item");
            reveal_strlit("type_item");
            reveal_strlit("const_item");
            reveal_strlit("static_item");
            reveal_strlit("macro_definition");
            assert("use_declaration"@.len() == 15);
            assert("source_file"@.len() == 11);
            assert("declaration_list"@.len() == 16);
            assert("mod_item"@.len() == 8);
            assert("function_item"@.len() == 13);
            assert("struct_item"@.len() == 11);
            assert("union_item"@.len() == 10);
            assert("enum_item"@.len() == 9);
            assert("trait_item"@.len() == 10);
            assert("impl_item"@.len() == 9);
            assert("type_item"@.len() == 9);
            assert("const_item"@.len() == 10);
            assert("static_item"@.len() == 11);
            assert("macro_definition"@.len() == 16);
            reveal_strlit("call_expression");
            reveal_strlit("macro_invocation");
            assert("call_expression"@.len() == 15);
            assert("macro_invocation"@.len() == 16);
            assert("call_expression"@[0] != "use_declaration"@[0]);
            reveal_strlit("let_declaration");
            assert("let_declaration"@.len() == 15);
            assert("call_expression"@[0] != "let_declaration"@[0]);
            assert("macro_invocation"@[0] != "declaration_list"@[0]);
            assert("macro_invocation"@[6] != "macro_definition"@[6]);
        }
        if self.tree.is(node, "source_file") {
            proof {
            reveal_strlit("source_file");
            reveal_strlit("mod_item");
            reveal_strlit("function_item");
            reveal_strlit("struct_item");
            reveal_strlit("union_item");
            reveal_strlit("enum_item");
            reveal_strlit("trait_item");
            reveal_strlit("impl_item");
            reveal_strlit("type_item");
            reveal_strlit("const_item");
            reveal_strlit("static_item");
            reveal_strlit("macro_definition");
            reveal_strlit("use_declaration");
            reveal_strlit("let_declaration");
            reveal_strlit("call_expression");
            reveal_strlit("macro_invocation");
                assert("source_file"@.len() == 11);
                assert("source_file"@[1] != "struct_item"@[1]);
                assert("source_file"@[1] != "static_item"@[1]);
                assert("impl_item"@.len() == 9);
                assert("source_file"@ != "impl_item"@);
                assert("function_item"@.len() == 13);
                assert("source_file"@ != "function_item"@);
                assert("struct_item"@.len() == 11);
                assert("source_file"@ != "struct_item"@);
                assert("union_item"@.len() == 10);
                assert("source_file"@ != "union_item"@);
                assert("enum_item"@.len() == 9);
                assert("source_file"@ != "enum_item"@);
                assert("trait_item"@.len() == 10);
                assert("source_file"@ != "trait_item"@);
                assert("type_item"@.len() == 9);
                assert("source_file"@ != "type_item"@);
                assert("const_item"@.len() == 10);
                assert("source_file"@ != "const_item"@);
                assert("static_item"@.len() == 11);
                assert("source_file"@ != "static_item"@);
                assert("mod_item"@.len() == 8);
                assert("source_file"@ != "mod_item"@);
                assert("macro_definition"@.len() == 16);
                assert("source_file"@ != "macro_definition"@);
                assert(self.tree.kind_of(node as int) == "source_file"@);
                assert(self::symbols::item_symbol_kind(self.tree.kind_of(node as int)) is None);
                assert(self.decl_name(node as int) is None);
            }
            self.walk_children(node);
            proof {
                lemma_refs_cover_node(self.out.refs@, old(self).out.refs@.len() as int, self.tree, rust_stop(), rust_rows(self.tree), node as int);
            }
            return;
        }
        if self.tree.is(node, "declaration_list") {
            proof {
                reveal_strlit("declaration_list");
                reveal_strlit("source_file");
                reveal_strlit("function_item");
                reveal_strlit("struct_item");
                reveal_strlit("union_item");
                reveal_strlit("enum_item");
                reveal_strlit("trait_item");
                reveal_strlit("impl_item");
                reveal_strlit("type_item");
                reveal_strlit("const_item");
                reveal_strlit("static_item");
                reveal_strlit("mod_item");
                reveal_strlit("macro_definition");
                assert("declaration_list"@.len() == 16);
                assert("source_file"@.len() == 11);
                assert("function_item"@.len() == 13);
                assert("struct_item"@.len() == 11);
                assert("union_item"@.len() == 10);
                assert("enum_item"@.len() == 9);
                assert("trait_item"@.len() == 10);
                assert("impl_item"@.len() == 9);
                assert("type_item"@.len() == 9);
                assert("const_item"@.len() == 10);
                assert("static_item"@.len() == 11);
                assert("mod_item"@.len() == 8);
                assert("macro_definition"@.len() == 16);
                assert("declaration_list"@[0] != "macro_definition"@[0]);
                assert(self.tree.kind_of(node as int) == "declaration_list"@);
                assert(self::symbols::item_symbol_kind(self.tree.kind_of(node as int)) is None);
                assert(self.decl_name(node as int) is None);
                assert(!is_impl_or_trait(self.tree, node as int));
            }
            self.walk_children(node);
            proof {
                lemma_refs_cover_node(self.out.refs@, old(self).out.refs@.len() as int, self.tree, rust_stop(), rust_rows(self.tree), node as int);
            }
            return;
        }
        if self.tree.is(node, "mod_item") {
            let has_body = self.tree.field_child(node, "body").is_some()
                || self.tree.child_of_kind(node, "declaration_list").is_some();
            if !has_body {
                match self.tree.field_child(node, "name") {
                    Some(n) => {
                        let name = self.text(n);
                        let spec = concat("self::", name.as_str());
                        let line = self.tree.line(node);
                        let import_index = self.add_import(NewImport {
                            raw_specifier: spec,
                            imported_name: Some(name.clone()),
                            alias: None,
                            is_relative: true,
                            start_line: line,
                        });
                        // `mod foo;` makes `foo` usable as a module path prefix.
                        self.bind(name.as_str(), "namespace", None, Some(import_index), None);
                    },
                    None => {},
                }
            }
            self.enter_symbol(node, "module");
        } else if self.tree.is(node, "function_item") {
            self.enter_symbol(node, "function");
        } else if self.tree.is(node, "struct_item") || self.tree.is(node, "union_item") {
            self.enter_symbol(node, "struct");
        } else if self.tree.is(node, "enum_item") {
            self.enter_symbol(node, "enum");
        } else if self.tree.is(node, "trait_item") {
            self.enter_symbol(node, "trait");
        } else if self.tree.is(node, "impl_item") {
            self.enter_symbol(node, "impl");
        } else if self.tree.is(node, "type_item") || self.tree.is(node, "const_item")
            || self.tree.is(node, "static_item") || self.tree.is(node, "macro_definition") {
            self.enter_symbol(node, "block");
        } else if self.tree.is(node, "use_declaration") {
            self.collect_use(node);
        } else if self.tree.is(node, "let_declaration") {
            self.collect_let(node);
            let ghost mid = self.out.refs@;
            self.walk_children(node);
            proof {
                lemma_kids_cover_mono(self.out.refs@, self.out.refs@, mid.len() as int, old(self).out.refs@.len() as int, self.tree, rust_stop(), rust_rows(self.tree), node as int);
            }
        } else if self.tree.is(node, "call_expression") {
            self.collect_call(node);
            let ghost mid = self.out.refs@;
            self.walk_children(node);
            proof {
                lemma_kids_cover_mono(self.out.refs@, self.out.refs@, mid.len() as int, old(self).out.refs@.len() as int, self.tree, rust_stop(), rust_rows(self.tree), node as int);
                let k = old(self).out.refs@.len() as int;
                if rust_node_row(self.tree, node as int) is Some {
                    assert(self.out.refs@[k] == mid[k]);
                    assert(row_at(self.out.refs@, k, k, rust_rows(self.tree)(node as int)->0));
                }
            }
        } else if self.tree.is(node, "macro_invocation") {
            self.collect_macro(node);
            let ghost mid = self.out.refs@;
            self.walk_children(node);
            proof {
                lemma_kids_cover_mono(self.out.refs@, self.out.refs@, mid.len() as int, old(self).out.refs@.len() as int, self.tree, rust_stop(), rust_rows(self.tree), node as int);
                let k = old(self).out.refs@.len() as int;
                if rust_node_row(self.tree, node as int) is Some {
                    assert(self.out.refs@[k] == mid[k]);
                    assert(row_at(self.out.refs@, k, k, rust_rows(self.tree)(node as int)->0));
                }
            }
        } else {
            self.walk_children(node);
        }
        proof {
            lemma_refs_cover_node(self.out.refs@, old(self).out.refs@.len() as int, self.tree, rust_stop(), rust_rows(self.tree), node as int);
        }
    }

    /// The symbol an impl or trait node opens is an `impl` or a `trait`, so
    /// a walker with it on top sees the body's items as members.
    proof fn lemma_open_member_owner(w: Walker, w2: Walker, node: int, i: usize)
        requires
            is_impl_or_trait(w.tree, node),
            w2.tree == w.tree,
            w.declared_kind(node) == Some(w2.out.symbols@[i as int].kind@),
            w2.stack@.len() > 0,
            w2.stack@.last() == i,
        ensures
            w2.in_impl_or_trait(),
    {
        reveal_strlit("impl_item");
        reveal_strlit("trait_item");
        reveal_strlit("struct_item");
        reveal_strlit("union_item");
        reveal_strlit("enum_item");
        reveal_strlit("function_item");
        assert("function_item"@.len() == 13);
        assert("impl_item"@.len() == 9);
        assert("trait_item"@.len() == 10);
        assert("struct_item"@.len() == 11);
        assert("union_item"@.len() == 10);
        assert("union_item"@[0] != "trait_item"@[0]);
        assert("enum_item"@.len() == 9);
        let k = w2.out.symbols@[i as int].kind@;
        if w.tree.kind_of(node) == "impl_item"@ {
            assert(self::symbols::rust_decl_kind(w.tree, node, w.in_impl_or_trait()) == Some("impl"@));
            assert(k == "impl"@);
        } else {
            assert(w.tree.kind_of(node) == "trait_item"@);
            assert("trait_item"@ != "impl_item"@);
            assert("trait_item"@ != "function_item"@);
            assert(self::symbols::item_symbol_kind("trait_item"@) == Some("trait"@));
            assert(self::symbols::rust_decl_kind(w.tree, node, w.in_impl_or_trait()) == Some("trait"@));
            assert(k == "trait"@);
        }
    }

    /// After walking a node's children with symbol `i` open as an impl or
    /// trait, the members of the node's bodies sit under `i`.
    proof fn lemma_members_from_walk(w2: Walker, syms: Seq<NewSymbol>, i: usize, node: int)
        requires
            w2.stack@.len() > 0,
            w2.stack@.last() == i,
            w2.in_impl_or_trait(),
            Self::kids_bodies(syms, w2.out.symbols@.len() as int, w2, w2.tree.kids(node)),
        ensures
            bodies_recorded(w2.tree, syms, Some(i), node),
    {
        let t = w2.tree;
        assert forall|x: int| 0 <= x < t.kids(node).len() && t.kind_of(#[trigger] t.kids(node)[x] as int) == "declaration_list"@ implies
            members_recorded(t, syms, Some(i), t.kids(node)[x] as int) by {
            let b = t.kids(node)[x] as int;
            assert(Self::kids_recorded(syms, w2.out.symbols@.len() as int, w2, t.kids(b)));
            assert forall|jj: int| 0 <= jj < t.kids(b).len() && (#[trigger] self::symbols::rust_decl_name(t, t.kids(b)[jj] as int)) is Some implies
                exists|k: int| #[trigger] placed_at(syms, k, t, Some(i), t.kids(b)[jj] as int,
                    self::symbols::rust_decl_name(t, t.kids(b)[jj] as int)->0,
                    self::symbols::rust_decl_kind(t, t.kids(b)[jj] as int, true)->0) by {
                let m = t.kids(b)[jj] as int;
                assert(w2.decl_name(m) is Some);
                let k = choose|k: int| w2.out.symbols@.len() as int <= k && #[trigger] Self::rust_recorded(syms, k, w2, m,
                    w2.decl_name(m)->0, w2.declared_kind(m)->0);
                assert(placed_at(syms, k, t, Some(i), m, self::symbols::rust_decl_name(t, m)->0,
                    self::symbols::rust_decl_kind(t, m, true)->0));
            }
        }
    }

    /// Push a symbol, open its scope, bind its name in the enclosing scope,
    /// record its parameters / fields / payload types, walk its body, close up.
    pub fn enter_symbol(&mut self, node: usize, scope_kind: &str)
        requires
            old(self).inv(),
            old(self).valid(node as int),
        ensures
            final(self).inv(),
            final(self).extends(*old(self)),
            old(self).decl_name(node as int) is Some ==> Self::rust_recorded(final(self).out.symbols@, old(self).out.symbols@.len() as int,
                *old(self), node as int, old(self).decl_name(node as int)->0, old(self).declared_kind(node as int)->0),
            is_impl_or_trait(old(self).tree, node as int) && old(self).decl_name(node as int) is Some ==> bodies_recorded(old(self).tree,
                final(self).out.symbols@, Some(old(self).out.symbols@.len() as usize), node as int),
            kids_cover(final(self).out.refs@, old(self).out.refs@.len() as int, old(self).tree, rust_stop(), rust_rows(old(self).tree), node as int),
        decreases MAX_MACRO_DEPTH - old(self).macro_depth, old(self).tree.size() - node, 2nat,
    {
        let idx = self.push_symbol(node);
        match idx {
            Some(i) => {
                let ghost w0 = *self;
                let name = self.out.symbols[i].name.clone();
                let kind_k = self.out.symbols[i].kind.clone();
                // A bare `foo()` can reach a free function or a tuple-struct ctor,
                // never a method or an `impl` block.
                if !(str_eq(kind_k.as_str(), "method") || str_eq(kind_k.as_str(), "impl")) {
                    self.bind(name.as_str(), "symbol", Some(i), None, None);
                }
                let ghost w1 = *self;
                self.stack.push(i);
                let ghost pushed_stack = self.stack@;
                let start = self.tree.start(node);
                let end = self.tree.end(node);
                proof {
                    self.sc.lemma_inv();
                }
                self.sc.push(scope_kind, Some(i), start, end);
                let ghost pushed_sc = self.sc.stack@;
                assert(self.inv());
                if self.tree.is(node, "function_item") {
                    self.bind_signature(node);
                } else if self.tree.is(node, "struct_item") || self.tree.is(node, "union_item") {
                    self.bind_struct_fields(node);
                } else if self.tree.is(node, "enum_item") {
                    self.collect_enum_variant_types(node);
                }
                let ghost w2 = *self;
                self.walk_children(node);
                proof {
                    lemma_kids_cover_mono(self.out.refs@, self.out.refs@, w2.out.refs@.len() as int, old(self).out.refs@.len() as int, self.tree, rust_stop(), rust_rows(self.tree), node as int);
                    if is_impl_or_trait(w2.tree, node as int) {
                        assert(w2.out.symbols@[i as int] == w0.out.symbols@[i as int]);
                        Self::lemma_open_member_owner(*old(self), w2, node as int, i);
                        Self::lemma_members_from_walk(w2, self.out.symbols@, i, node as int);
                    }
                }
                assert(self.sc.stack@ == pushed_sc);
                assert(self.stack@ == pushed_stack);
                self.sc.pop();
                self.stack.pop();
                assert(self.stack@ =~= old(self).stack@);
                assert(self.sc.stack@ =~= old(self).sc.stack@);
                assert(self.out.symbols@[i as int] == w0.out.symbols@[i as int]);
            },
            None => {
                self.walk_children(node);
            },
        }
    }

    pub fn walk_children(&mut self, node: usize)
        requires
            old(self).inv(),
            old(self).valid(node as int),
        ensures
            final(self).inv(),
            final(self).extends(*old(self)),
            Self::kids_recorded(final(self).out.symbols@, old(self).out.symbols@.len() as int, *old(self), old(self).tree.kids(node as int)),
            Self::kids_bodies(final(self).out.symbols@, old(self).out.symbols@.len() as int, *old(self), old(self).tree.kids(node as int)),
            Self::kids_members(final(self).out.symbols@, *old(self), old(self).tree.kids(node as int)),
            rust_kids_imports(final(self).out.imports@, old(self).out.imports@.len() as int, old(self).tree, old(self).tree.kids(node as int)),
            kids_cover(final(self).out.refs@, old(self).out.refs@.len() as int, old(self).tree, rust_stop(), rust_rows(old(self).tree), node as int),
        decreases MAX_MACRO_DEPTH - old(self).macro_depth, old(self).tree.size() - node, 1nat,
    {
        let kids = self.tree.children_of(node);
        let mut j: usize = 0;
        let ghost lo = old(self).out.symbols@.len() as int;
        while j < kids.len()
            invariant
                self.inv(),
                self.extends(*old(self)),
                0 <= j <= kids@.len(),
                forall|x: int| 0 <= x < kids@.len() ==> node < #[trigger] kids@[x] < self.tree.size(),
                kids@ == old(self).tree.kids(node as int),
                old(self).inv(),
                lo == old(self).out.symbols@.len(),
                Self::kids_recorded(self.out.symbols@, lo, *old(self), kids@.take(j as int)),
                Self::kids_bodies(self.out.symbols@, lo, *old(self), kids@.take(j as int)),
                Self::kids_members(self.out.symbols@, *old(self), kids@.take(j as int)),
                rust_kids_imports(self.out.imports@, old(self).out.imports@.len() as int, old(self).tree, kids@.take(j as int)),
                forall|x: int| 0 <= x < j ==> #[trigger] refs_cover(self.out.refs@, old(self).out.refs@.len() as int, old(self).tree, rust_stop(), rust_rows(old(self).tree), kids@[x] as int),
            decreases kids@.len() - j,
        {
            let c = kids[j];
            let ghost before = *self;
            self.walk(c);
            proof {
                assert forall|x: int| 0 <= x < j + 1 implies #[trigger] refs_cover(self.out.refs@, old(self).out.refs@.len() as int, old(self).tree, rust_stop(), rust_rows(old(self).tree), kids@[x] as int) by {
                    if x < j {
                        lemma_refs_cover_mono(before.out.refs@, self.out.refs@, old(self).out.refs@.len() as int, old(self).out.refs@.len() as int, old(self).tree, rust_stop(), rust_rows(old(self).tree), kids@[x] as int);
                    } else {
                        lemma_refs_cover_mono(self.out.refs@, self.out.refs@, before.out.refs@.len() as int, old(self).out.refs@.len() as int, old(self).tree, rust_stop(), rust_rows(old(self).tree), c as int);
                    }
                }
                Self::lemma_kids_recorded_grows(before.out.symbols@, self.out.symbols@, lo, *old(self), kids@.take(j as int));
                Self::lemma_kids_bodies_grows(before.out.symbols@, self.out.symbols@, lo, *old(self), kids@.take(j as int));
                Self::lemma_kids_members_grows(before.out.symbols@, self.out.symbols@, *old(self), kids@.take(j as int));
                lemma_rust_kids_imports_grows(before.out.imports@, self.out.imports@, old(self).out.imports@.len() as int,
                    old(self).tree, kids@.take(j as int));
                let w = *old(self);
                let ks0 = kids@.take(j + 1);
                let t0 = w.tree;
                assert forall|x: int| 0 <= x < ks0.len() && t0.kind_of(#[trigger] ks0[x] as int) == "use_declaration"@ implies
                    exists|o: int| old(self).out.imports@.len() <= o && #[trigger] imports_at(self.out.imports@, o, t0.line_of(ks0[x] as int),
                        rust_use_imports(t0, ks0[x] as int)) by {
                    if x < j {
                        assert(ks0[x] == kids@.take(j as int)[x]);
                    } else {
                        assert(ks0[x] == c);
                        let o = before.out.imports@.len() as int;
                        let es = rust_use_imports(t0, c as int);
                        assert forall|k: int| 0 <= k < es.len() implies Walker::is_import(self.out.imports@[o + k], (#[trigger] es[k]).0,
                            es[k].1, es[k].2, es[k].3, t0.line_of(c as int)) by {
                        }
                        assert(imports_at(self.out.imports@, o, t0.line_of(c as int), es));
                    }
                }
                let ks = kids@.take(j + 1);
                assert(before.in_impl_or_trait() == w.in_impl_or_trait()) by {
                    if w.stack@.len() > 0 {
                        assert(before.out.symbols@[w.stack@.last() as int] == w.out.symbols@[w.stack@.last() as int]);
                    }
                }
                assert forall|x: int| 0 <= x < ks.len() && w.tree.kind_of(#[trigger] ks[x] as int) == "declaration_list"@ implies
                    Self::kids_recorded(self.out.symbols@, lo, w, w.tree.kids(ks[x] as int)) by {
                    if x < j {
                        assert(ks[x] == kids@.take(j as int)[x]);
                    } else {
                        assert(ks[x] == c);
                        Self::lemma_kids_recorded_view(self.out.symbols@, before.out.symbols@.len() as int, lo, before, w, w.tree.kids(c as int));
                    }
                }
                assert forall|x: int| 0 <= x < ks.len() && is_impl_or_trait(w.tree, ks[x] as int) && (#[trigger] w.decl_name(ks[x] as int)) is Some implies
                    exists|k: int| #[trigger] Self::rust_recorded(self.out.symbols@, k, w, ks[x] as int, w.decl_name(ks[x] as int)->0, w.declared_kind(ks[x] as int)->0)
                        && bodies_recorded(w.tree, self.out.symbols@, Some(k as usize), ks[x] as int) by {
                    if x < j {
                        assert(ks[x] == kids@.take(j as int)[x]);
                    } else {
                        assert(ks[x] == c);
                        let k = before.out.symbols@.len() as int;
                        assert(Self::rust_recorded(self.out.symbols@, k, w, c as int, w.decl_name(c as int)->0, w.declared_kind(c as int)->0));
                    }
                }
                assert forall|jj: int| 0 <= jj < ks.len() && (#[trigger] w.decl_name(ks[jj] as int)) is Some implies
                    exists|k: int| lo <= k && #[trigger] Self::rust_recorded(self.out.symbols@, k, w, ks[jj] as int,
                        w.decl_name(ks[jj] as int)->0, w.declared_kind(ks[jj] as int)->0) by {
                    if jj < j {
                        assert(ks[jj] == kids@.take(j as int)[jj]);
                    } else {
                        assert(ks[jj] == c);
                        let k = before.out.symbols@.len() as int;
                        assert(Self::rust_recorded(self.out.symbols@, k, w, c as int, w.decl_name(c as int)->0, w.declared_kind(c as int)->0));
                    }
                }
            }
            j = j + 1;
        }
        assert(kids@.take(kids@.len() as int) =~= kids@);
    }
}

} // verus!

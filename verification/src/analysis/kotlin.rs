//! Kotlin extraction over a tree-sitter syntax tree.
//!
//! Covers ordinary Kotlin: top-level and member functions, classes, objects
//! and interfaces, properties, `import` (with `as` aliases and `.*`), and
//! calls. A `@Composable fun` is an ordinary function and a composable call an
//! ordinary call. Multiplatform `expect` / `actual` is out of scope.

use vstd::prelude::*;
use vstd::string::StringSliceAdditionalSpecFns;
use crate::analysis::go::strip_all_end;
use crate::analysis::rust::{Walker, imports_at};
use crate::analysis::rust::helpers::after_last_exec;
use crate::analysis::ParsedFile;
use crate::analysis::reach::{CallParts, refs_cover, kids_cover, row_at, lemma_refs_cover_mono, lemma_refs_cover_node, lemma_kids_cover_mono, lemma_refs_cover_empty, resolved_cover};
use crate::cache::models::{NewImport, NewRef, NewSymbol};
use crate::syntax::{Grammar, parse_syntax, syntax_of, RawNodeView, SyntaxTree};
use crate::text::{
    after_last, chars_of, contains, contains_exec, opt_chars, starts_upper, ends_with, ends_with_exec, slice_chars, starts_upper_exec, starts_with,
    starts_with_exec, str_eq, str_trim, string_of, trim, trim_bounds, trim_end, trim_end_len, trim_start, trim_start_len,
};

verus! {

/// Some node of a preorder listing is an error or a missing node.
pub open spec fn kotlin_listing_has_error(nodes: Seq<RawNodeView>) -> bool {
    exists|i: int| 0 <= i < nodes.len() && #[trigger] nodes[i].error
}

/// The leading part of `s` up to the first `<`, space, `?` or `&`.
pub open spec fn kotlin_type_head(s: Seq<char>) -> Seq<char>
    decreases s.len(),
{
    if s.len() == 0 || s[0] == '<' || s[0] == ' ' || s[0] == '?' || s[0] == '&' {
        Seq::empty()
    } else {
        seq![s[0]] + kotlin_type_head(s.drop_first())
    }
}

/// `com.example.Foo<Bar>?` -> `Foo`: nullability, generics and the package go.
/// How a Kotlin call's receiver reads: none, `this` / `super`, or some other value.
pub open spec fn kt_receiver_kind(receiver: Option<Seq<char>>) -> Seq<char> {
    match receiver {
        None => "none"@,
        Some(x) => if x == "this"@ || x == "super"@ { "self"@ } else { "value"@ },
    }
}

pub open spec fn kotlin_type_name(raw: Seq<char>) -> Seq<char> {
    after_last(trim(kotlin_type_head(strip_all_end(trim(raw), '?'))), "."@)
}

/// Declaration text that opens with `interface` (after leading whitespace).
pub open spec fn opens_interface(text: Seq<char>) -> bool {
    starts_with(trim_start(text), "interface"@)
}

/// An import line that ends in `*` (before trailing whitespace).
pub open spec fn is_wildcard_import(text: Seq<char>) -> bool {
    ends_with(trim_end(text), "*"@)
}

fn kotlin_type_head_len(s: &[char]) -> (r: usize)
    ensures
        r <= s@.len(),
        s@.subrange(0, r as int) == kotlin_type_head(s@),
{
    let mut k: usize = 0;
    assert(s@.subrange(0, s@.len() as int) =~= s@);
    assert(s@.subrange(0, 0) + s@ =~= s@);
    while k < s.len() && s[k] != '<' && s[k] != ' ' && s[k] != '?' && s[k] != '&'
        invariant
            0 <= k <= s@.len(),
            kotlin_type_head(s@) == s@.subrange(0, k as int) + kotlin_type_head(s@.subrange(k as int, s@.len() as int)),
        decreases s@.len() - k,
    {
        let ghost rest = s@.subrange(k as int, s@.len() as int);
        assert(rest.drop_first() =~= s@.subrange(k + 1, s@.len() as int));
        assert(s@.subrange(0, k + 1) =~= s@.subrange(0, k as int) + seq![s@[k as int]]);
        k = k + 1;
    }
    assert(kotlin_type_head(s@.subrange(k as int, s@.len() as int)) =~= Seq::<char>::empty());
    assert(s@.subrange(0, k as int) + Seq::<char>::empty() =~= s@.subrange(0, k as int));
    k
}

fn strip_question_marks(s: &[char]) -> (r: usize)
    ensures
        r <= s@.len(),
        s@.subrange(0, r as int) == strip_all_end(s@, '?'),
{
    let mut k: usize = s.len();
    assert(s@.subrange(0, s@.len() as int) =~= s@);
    while k > 0 && s[k - 1] == '?'
        invariant
            k <= s@.len(),
            strip_all_end(s@, '?') == strip_all_end(s@.subrange(0, k as int), '?'),
        decreases k,
    {
        assert(s@.subrange(0, k as int).drop_last() =~= s@.subrange(0, k - 1));
        k = k - 1;
    }
    k
}

/// The simple name of a Kotlin type as written.
pub fn simple_type_name(raw: &str) -> (r: String)
    ensures
        r@ == kotlin_type_name(raw@),
{
    let t = chars_of(str_trim(raw).as_str());
    let q = strip_question_marks(t.as_slice());
    let t1 = slice_chars(t.as_slice(), 0, q);
    let h = kotlin_type_head_len(t1.as_slice());
    let head = slice_chars(t1.as_slice(), 0, h);
    let (b, e) = trim_bounds(head.as_slice());
    let th = slice_chars(head.as_slice(), b, e);
    let dot = chars_of(".");
    let last = after_last_exec(th.as_slice(), dot.as_slice());
    string_of(last.as_slice())
}

fn opens_interface_exec(text: &str) -> (r: bool)
    ensures
        r == opens_interface(text@),
{
    let c = chars_of(text);
    let a = trim_start_len(c.as_slice());
    let rest = slice_chars(c.as_slice(), a, c.len());
    let kw = chars_of("interface");
    starts_with_exec(rest.as_slice(), kw.as_slice())
}

fn is_wildcard_import_exec(text: &str) -> (r: bool)
    ensures
        r == is_wildcard_import(text@),
{
    let c = chars_of(text);
    let b = trim_end_len(c.as_slice());
    let head = slice_chars(c.as_slice(), 0, b);
    let star = chars_of("*");
    ends_with_exec(head.as_slice(), star.as_slice())
}

/// The symbol node `n` of `t` declares (name, kind), when it declares one:
/// A class, object, interface or function that names itself (a function inside a type is a method). `in_type`: the node sits directly in a type.
pub open spec fn kt_decl(t: SyntaxTree, in_type: bool, n: int) -> Option<(Seq<char>, Seq<char>)> {
        let k = t.kind_of(n);
        let kind: Option<Seq<char>> = if k == "class_declaration"@ || k == "object_declaration"@ {
            Some(if opens_interface(t.text_of(n)) || t.kid_of_kind(n, "interface"@) is Some { "interface"@ } else { "class"@ })
        } else if k == "function_declaration"@ {
            Some(if in_type { "method"@ } else { "function"@ })
        } else {
            None
        };
        match (kind, crate::analysis::rust::named_in(t, n)) {
            (Some(kd), Some(nm)) => Some((nm, kd)),
            _ => None,
        }
}

/// Every node of `kids` that declares a symbol has one in `syms` from `lo` on.
pub open spec fn kt_kids_placed(syms: Seq<NewSymbol>, lo: int, t: SyntaxTree, parent: Option<usize>, in_type: bool, kids: Seq<usize>) -> bool {
    crate::analysis::rust::kids_placed(syms, lo, t, parent, kids, |n: int| kt_decl(t, in_type, n))
}

/// A class body, whose declarations are members.
pub open spec fn kt_is_body(k: Seq<char>) -> bool {
    k == "class_body"@ || k == "enum_class_body"@
}

/// Whether a declaration is a type (class, object or interface).
pub open spec fn kt_declares_type(d: Option<(Seq<char>, Seq<char>)>) -> bool {
    match d {
        Some((_, kd)) => kd == "class"@ || kd == "interface"@,
        None => false,
    }
}

/// The members of each body of node `node` have their symbols under
/// `parent` (functions there are methods when `in_type`).
pub open spec fn kt_bodies_placed(syms: Seq<NewSymbol>, t: SyntaxTree, parent: Option<usize>, in_type: bool, node: int) -> bool {
    forall|x: int| 0 <= x < t.kids(node).len() && kt_is_body(t.kind_of(#[trigger] t.kids(node)[x] as int)) ==>
        kt_kids_placed(syms, 0, t, parent, in_type, t.kids(t.kids(node)[x] as int))
}

/// For every body among `kids`, its declarations are placed from `lo` on.
pub open spec fn kt_kids_bodies(syms: Seq<NewSymbol>, lo: int, t: SyntaxTree, parent: Option<usize>, in_type: bool, kids: Seq<usize>) -> bool {
    forall|x: int| 0 <= x < kids.len() && kt_is_body(t.kind_of(#[trigger] kids[x] as int)) ==>
        kt_kids_placed(syms, lo, t, parent, in_type, t.kids(kids[x] as int))
}

/// Every declaration among `kids` has its symbol, and the members of its
/// bodies have theirs under it.
pub open spec fn kt_kids_members(syms: Seq<NewSymbol>, t: SyntaxTree, parent: Option<usize>, in_type: bool, kids: Seq<usize>) -> bool {
    forall|x: int| 0 <= x < kids.len() && (#[trigger] kt_decl(t, in_type, kids[x] as int)) is Some ==>
        exists|k: int| #[trigger] crate::analysis::rust::placed_decl(syms, k, t, parent, kids[x] as int, kt_decl(t, in_type, kids[x] as int))
            && kt_bodies_placed(syms, t, Some(k as usize), kt_declares_type(kt_decl(t, in_type, kids[x] as int)), kids[x] as int)
}

pub proof fn lemma_kt_bodies_grows(a: Seq<NewSymbol>, b: Seq<NewSymbol>, t: SyntaxTree, parent: Option<usize>, in_type: bool, node: int)
    requires
        kt_bodies_placed(a, t, parent, in_type, node),
        crate::analysis::grows(a, b),
    ensures
        kt_bodies_placed(b, t, parent, in_type, node),
{
    assert forall|x: int| 0 <= x < t.kids(node).len() && kt_is_body(t.kind_of(#[trigger] t.kids(node)[x] as int)) implies
        kt_kids_placed(b, 0, t, parent, in_type, t.kids(t.kids(node)[x] as int)) by {
        crate::analysis::rust::lemma_kids_placed_grows(a, b, 0, t, parent, t.kids(t.kids(node)[x] as int), |n: int| kt_decl(t, in_type, n));
    }
}

pub proof fn lemma_kt_kids_bodies_grows(a: Seq<NewSymbol>, b: Seq<NewSymbol>, lo: int, t: SyntaxTree, parent: Option<usize>, in_type: bool, kids: Seq<usize>)
    requires
        kt_kids_bodies(a, lo, t, parent, in_type, kids),
        crate::analysis::grows(a, b),
    ensures
        kt_kids_bodies(b, lo, t, parent, in_type, kids),
{
    assert forall|x: int| 0 <= x < kids.len() && kt_is_body(t.kind_of(#[trigger] kids[x] as int)) implies
        kt_kids_placed(b, lo, t, parent, in_type, t.kids(kids[x] as int)) by {
        crate::analysis::rust::lemma_kids_placed_grows(a, b, lo, t, parent, t.kids(kids[x] as int), |n: int| kt_decl(t, in_type, n));
    }
}

pub proof fn lemma_kt_kids_members_grows(a: Seq<NewSymbol>, b: Seq<NewSymbol>, t: SyntaxTree, parent: Option<usize>, in_type: bool, kids: Seq<usize>)
    requires
        kt_kids_members(a, t, parent, in_type, kids),
        crate::analysis::grows(a, b),
    ensures
        kt_kids_members(b, t, parent, in_type, kids),
{
    assert forall|x: int| 0 <= x < kids.len() && (#[trigger] kt_decl(t, in_type, kids[x] as int)) is Some implies
        exists|k: int| #[trigger] crate::analysis::rust::placed_decl(b, k, t, parent, kids[x] as int, kt_decl(t, in_type, kids[x] as int))
            && kt_bodies_placed(b, t, Some(k as usize), kt_declares_type(kt_decl(t, in_type, kids[x] as int)), kids[x] as int) by {
        let c = kids[x] as int;
        let f = kt_declares_type(kt_decl(t, in_type, c));
        let k = choose|k: int| #[trigger] crate::analysis::rust::placed_decl(a, k, t, parent, c, kt_decl(t, in_type, c))
            && kt_bodies_placed(a, t, Some(k as usize), f, c);
        assert(b[k] == a[k]);
        assert(crate::analysis::rust::placed_decl(b, k, t, parent, c, kt_decl(t, in_type, c)));
        lemma_kt_bodies_grows(a, b, t, Some(k as usize), f, c);
    }
}

/// The import row an `import` header node yields: its dotted path, named
/// by its last segment (and its `as` alias) unless it imports with `*`.
pub open spec fn kt_statement_imports(t: SyntaxTree, node: int) -> Seq<(Seq<char>, Option<Seq<char>>, Option<Seq<char>>, bool)> {
    match t.kid_of_kind(node, "qualified_identifier"@) {
        Some(q) if t.text_of(q as int).len() > 0 => {
            let path = t.text_of(q as int);
            if is_wildcard_import(t.text_of(node)) {
                seq![(path, None, None, false)]
            } else {
                seq![(path, Some(after_last(path, "."@)), Walker::kt_alias_from(t, t.kids(node), 0), false)]
            }
        },
        _ => Seq::empty(),
    }
}

/// Every `import` among `kids` has its row in `imports`, from `lo` on.
pub open spec fn kt_kids_imports(imports: Seq<NewImport>, lo: int, t: SyntaxTree, kids: Seq<usize>) -> bool {
    forall|x: int| 0 <= x < kids.len() && t.kind_of(#[trigger] kids[x] as int) == "import"@ ==>
        exists|o: int| lo <= o && #[trigger] imports_at(imports, o, t.line_of(kids[x] as int), kt_statement_imports(t, kids[x] as int))
}

pub proof fn lemma_kt_kids_imports_grows(a: Seq<NewImport>, b: Seq<NewImport>, lo: int, t: SyntaxTree, kids: Seq<usize>)
    requires
        kt_kids_imports(a, lo, t, kids),
        crate::analysis::grows(a, b),
    ensures
        kt_kids_imports(b, lo, t, kids),
{
    assert forall|x: int| 0 <= x < kids.len() && t.kind_of(#[trigger] kids[x] as int) == "import"@ implies
        exists|o: int| lo <= o && #[trigger] imports_at(b, o, t.line_of(kids[x] as int), kt_statement_imports(t, kids[x] as int)) by {
        let c = kids[x] as int;
        let es = kt_statement_imports(t, c);
        let o = choose|o: int| lo <= o && #[trigger] imports_at(a, o, t.line_of(c), es);
        assert forall|k: int| 0 <= k < es.len() implies Walker::is_import(b[o + k], (#[trigger] es[k]).0, es[k].1, es[k].2, es[k].3, t.line_of(c)) by {
            assert(b[o + k] == a[o + k]);
        }
        assert(imports_at(b, o, t.line_of(c), es));
    }
}

/// The last node of `s` that is named and not a `.`.
pub open spec fn kt_last_named_in(t: SyntaxTree, s: Seq<usize>) -> Option<usize>
    decreases s.len(),
{
    if s.len() == 0 {
        None
    } else if 0 <= s.last() < t.size() && t.kind_of(s.last() as int) != "."@
        && t.nodes@[s.last() as int].named {
        Some(s.last())
    } else {
        kt_last_named_in(t, s.drop_last())
    }
}

/// Callee name and receiver text of call node `node`: a plain name, or the
/// last named part of a navigation with its first part as the receiver.
pub open spec fn kt_callee_in(t: SyntaxTree, node: int) -> Option<(Seq<char>, Option<Seq<char>>)> {
    if t.named_kids(node).len() == 0 {
        None
    } else {
        let c = t.named_kids(node)[0] as int;
        if t.kind_of(c) == "identifier"@ {
            Some((t.text_of(c), None))
        } else if t.kind_of(c) == "navigation_expression"@ {
            let kids = t.kids(c);
            Some((match kt_last_named_in(t, kids) {
                Some(l) => t.text_of(l as int),
                None => Seq::empty(),
            }, if kids.len() > 0 { Some(t.text_of(kids[0] as int)) } else { None }))
        } else {
            None
        }
    }
}

/// The kinds a Kotlin walk reads whole without walking into: imports.
pub open spec fn kt_stop() -> spec_fn(Seq<char>) -> bool {
    |k: Seq<char>| k == "import"@
}

/// The `call` reference a call expression yields when its callee has a name.
pub open spec fn kt_node_row(t: SyntaxTree, n: int) -> Option<CallParts> {
    if t.kind_of(n) == "call_expression"@ {
        match kt_callee_in(t, n) {
            Some((name, recv)) if name.len() > 0 => Some((name, recv, kt_receiver_kind(recv),
                match t.kid_of_kind(n, "value_arguments"@) {
                    Some(a) => Some(crate::syntax::sat_i64(t.named_kids(a as int).len() as int)),
                    None => None,
                },
                t.line_of(n), t.start_of(n), None)),
            _ => None,
        }
    } else {
        None
    }
}

/// The `call` reference each node of `t` yields, as [`kt_node_row`] gives it.
pub open spec fn kt_rows(t: SyntaxTree) -> spec_fn(int) -> Option<CallParts> {
    |n: int| kt_node_row(t, n)
}

/// What parsing `source` gives: `p.parse_ok` tells whether the grammar
/// reported errors, every declaration at the top of the file has its symbol,
/// the members of a top-level type's body have theirs under it, and every
/// top-level `import` has its import row.
pub open spec fn kt_parsed(source: Seq<char>, p: ParsedFile) -> bool {
    match syntax_of(Grammar::Kotlin, source) {
        None => !p.parse_ok && p.symbols@.len() == 0 && p.refs@.len() == 0,
        Some(nodes) => {
            &&& p.parse_ok == !kotlin_listing_has_error(nodes)
            &&& exists|t: SyntaxTree| #[trigger] t.built_from(vstd::utf8::encode_utf8(source), nodes)
                && (t.size() > 0 && t.kind_of(0) == "source_file"@ ==> kt_kids_placed(p.symbols@, 0, t, None, false, t.kids(0))
                    && kt_kids_members(p.symbols@, t, None, false, t.kids(0))
                    && kt_kids_imports(p.imports@, 0, t, t.kids(0)))
                && resolved_cover(t, kt_stop(), kt_rows(t), p)
        },
    }
}

/// Parse Kotlin `source` into symbols (types, functions, methods, top-level
/// properties), imports, calls, scopes and typed bindings.
pub fn parse(source: &str) -> (p: ParsedFile)
    ensures
        p.wf(),
        kt_parsed(source@, p),
{
    let tree = match parse_syntax(Grammar::Kotlin, source) {
        Some(t) => t,
        None => {
            return ParsedFile::empty(false);
        },
    };
    proof {
        let nodes = syntax_of(Grammar::Kotlin, source@)->0;
        assert(nodes.len() == tree.nodes@.len());
        assert forall|i: int| 0 <= i < nodes.len() implies nodes[i].error == tree.nodes@[i].error by {
            assert(nodes[i] == tree.nodes@[i]@);
        }
        if kotlin_listing_has_error(nodes) {
            let i = choose|i: int| 0 <= i < nodes.len() && #[trigger] nodes[i].error;
            assert(tree.nodes@[i].error);
        }
        if tree.spec_has_error() {
            let i = choose|i: int| 0 <= i < tree.nodes@.len() && #[trigger] tree.nodes@[i].error;
            assert(nodes[i].error);
        }
    }
    let ok = !tree.has_error();
    let n = tree.len();
    let ghost t = tree;
    let mut walker = Walker::new(tree, source.len(), 0);
    walker.out.parse_ok = ok;
    let ghost w0 = walker;
    if n > 0 {
        walker.kt_walk(0);
        proof {
            assert(w0.parent_sym() is None);
            assert(!w0.js_in_class());
        }
    }
    let ghost syms_walked = walker.out.symbols@;
    let ghost raw_refs = walker.out.refs@;
    proof {
        if n == 0 {
            lemma_refs_cover_empty(raw_refs, t, kt_stop(), kt_rows(t));
        }
        assert(refs_cover(raw_refs, 0, t, kt_stop(), kt_rows(t), 0));
    }
    let p = walker.finish();
    proof {
        let nodes = syntax_of(Grammar::Kotlin, source@)->0;
        assert(t.built_from(source.spec_bytes(), nodes));
        assert(p.symbols@ == syms_walked);
        assert(resolved_cover(t, kt_stop(), kt_rows(t), p));
    }
    p
}

impl Walker {
    pub fn kt_walk(&mut self, node: usize)
        requires
            old(self).inv(),
            old(self).valid(node as int),
        ensures
            final(self).inv(),
            final(self).extends(*old(self)),
            kt_decl(old(self).tree, old(self).js_in_class(), node as int) is Some ==> crate::analysis::rust::placed_decl(final(self).out.symbols@,
                old(self).out.symbols@.len() as int, old(self).tree, old(self).parent_sym(), node as int, kt_decl(old(self).tree, old(self).js_in_class(), node as int)),
            old(self).tree.kind_of(node as int) == "source_file"@ ==> kt_kids_placed(final(self).out.symbols@,
                old(self).out.symbols@.len() as int, old(self).tree, old(self).parent_sym(), old(self).js_in_class(), old(self).tree.kids(node as int)),
            old(self).tree.kind_of(node as int) == "source_file"@ ==> kt_kids_members(final(self).out.symbols@,
                old(self).tree, old(self).parent_sym(), old(self).js_in_class(), old(self).tree.kids(node as int)),
            kt_is_body(old(self).tree.kind_of(node as int)) ==> kt_kids_placed(final(self).out.symbols@,
                old(self).out.symbols@.len() as int, old(self).tree, old(self).parent_sym(), old(self).js_in_class(), old(self).tree.kids(node as int)),
            old(self).tree.kind_of(node as int) == "import"@ ==> Self::imports_all(old(self).out.imports@,
                final(self).out.imports@, old(self).tree.line_of(node as int), kt_statement_imports(old(self).tree, node as int)),
            old(self).tree.kind_of(node as int) == "source_file"@ ==> kt_kids_imports(final(self).out.imports@,
                old(self).out.imports@.len() as int, old(self).tree, old(self).tree.kids(node as int)),
            kt_decl(old(self).tree, old(self).js_in_class(), node as int) is Some ==> kt_bodies_placed(final(self).out.symbols@,
                old(self).tree, Some(old(self).out.symbols@.len() as usize),
                kt_declares_type(kt_decl(old(self).tree, old(self).js_in_class(), node as int)), node as int),
            refs_cover(final(self).out.refs@, old(self).out.refs@.len() as int, old(self).tree, kt_stop(), kt_rows(old(self).tree), node as int),
        decreases old(self).tree.size() - node, 3nat,
    {
        proof {
            reveal_strlit("class");
            reveal_strlit("interface");
            reveal_strlit("function");
            reveal_strlit("method");
            reveal_strlit("class_declaration");
            reveal_strlit("object_declaration");
            reveal_strlit("function_declaration");
            reveal_strlit("source_file");
            assert("class"@.len() == 5);
            assert("interface"@.len() == 9);
            assert("function"@.len() == 8);
            assert("method"@.len() == 6);
            assert("class_declaration"@.len() == 17);
            assert("object_declaration"@.len() == 18);
            assert("function_declaration"@.len() == 20);
            assert("source_file"@.len() == 11);
        }
        proof {
            reveal_strlit("class_body");
            reveal_strlit("enum_class_body");
            assert("class_body"@.len() == 10);
            assert("enum_class_body"@.len() == 15);
            reveal_strlit("import");
            reveal_strlit("property_declaration");
            assert("import"@.len() == 6);
            assert("property_declaration"@.len() == 20);
            reveal_strlit("call_expression");
            assert("call_expression"@.len() == 15);
            assert("call_expression"@[0] != "enum_class_body"@[0]);
        }
        if self.tree.is(node, "class_body") || self.tree.is(node, "enum_class_body") {
            assert(kt_decl(self.tree, old(self).js_in_class(), node as int) is None);
            self.kt_walk_children(node);
            proof {
                lemma_refs_cover_node(self.out.refs@, old(self).out.refs@.len() as int, self.tree, kt_stop(), kt_rows(self.tree), node as int);
            }
            return;
        }
        if self.tree.is(node, "source_file") {
            assert(kt_decl(self.tree, old(self).js_in_class(), node as int) is None);
            self.kt_walk_children(node);
            proof {
                lemma_refs_cover_node(self.out.refs@, old(self).out.refs@.len() as int, self.tree, kt_stop(), kt_rows(self.tree), node as int);
            }
            return;
        }
        if self.tree.is(node, "class_declaration") || self.tree.is(node, "object_declaration") {
            let t = self.text(node);
            let kind = if opens_interface_exec(t.as_str()) || self.tree.child_of_kind(node, "interface").is_some() {
                "interface"
            } else {
                "class"
            };
            self.kt_enter_symbol(node, kind);
        } else if self.tree.is(node, "function_declaration") {
            let kind = if self.kt_parent_is_type() { "method" } else { "function" };
            self.kt_enter_symbol(node, kind);
        } else if self.tree.is(node, "property_declaration") {
            self.kt_collect_property(node);
            let ghost mid = self.out.refs@;
            self.kt_walk_children(node);
            proof {
                lemma_kids_cover_mono(self.out.refs@, self.out.refs@, mid.len() as int, old(self).out.refs@.len() as int,
                    self.tree, kt_stop(), kt_rows(self.tree), node as int);
            }
        } else if self.tree.is(node, "import") {
            self.kt_collect_import(node);
        } else if self.tree.is(node, "call_expression") {
            self.kt_collect_call(node);
            let ghost mid = self.out.refs@;
            self.kt_walk_children(node);
            proof {
                lemma_kids_cover_mono(self.out.refs@, self.out.refs@, mid.len() as int, old(self).out.refs@.len() as int,
                    self.tree, kt_stop(), kt_rows(self.tree), node as int);
                let k = old(self).out.refs@.len() as int;
                if kt_rows(self.tree)(node as int) is Some {
                    assert(self.out.refs@[k] == mid[k]);
                    assert(row_at(self.out.refs@, k, k, kt_rows(self.tree)(node as int)->0));
                }
            }
        } else {
            self.kt_walk_children(node);
        }
        proof {
            lemma_refs_cover_node(self.out.refs@, old(self).out.refs@.len() as int, self.tree, kt_stop(), kt_rows(self.tree), node as int);
        }
    }

    pub fn kt_walk_children(&mut self, node: usize)
        requires
            old(self).inv(),
            old(self).valid(node as int),
        ensures
            final(self).inv(),
            final(self).extends(*old(self)),
            kt_kids_placed(final(self).out.symbols@, old(self).out.symbols@.len() as int, old(self).tree, old(self).parent_sym(),
                old(self).js_in_class(), old(self).tree.kids(node as int)),
            kt_kids_bodies(final(self).out.symbols@, old(self).out.symbols@.len() as int, old(self).tree, old(self).parent_sym(),
                old(self).js_in_class(), old(self).tree.kids(node as int)),
            kt_kids_members(final(self).out.symbols@, old(self).tree, old(self).parent_sym(), old(self).js_in_class(), old(self).tree.kids(node as int)),
            kt_kids_imports(final(self).out.imports@, old(self).out.imports@.len() as int, old(self).tree, old(self).tree.kids(node as int)),
            kids_cover(final(self).out.refs@, old(self).out.refs@.len() as int, old(self).tree, kt_stop(), kt_rows(old(self).tree), node as int),
        decreases old(self).tree.size() - node, 1nat,
    {
        let kids = self.tree.children_of(node);
        let mut j: usize = 0;
        let ghost lo = old(self).out.symbols@.len() as int;
        let ghost t0 = old(self).tree;
        let ghost par = old(self).parent_sym();
        let ghost cx = old(self).js_in_class();
        assert(kids@.take(0) =~= Seq::<usize>::empty());
        while j < kids.len()
            invariant
                self.inv(),
                self.extends(*old(self)),
                0 <= j <= kids@.len(),
                forall|x: int| 0 <= x < kids@.len() ==> node < #[trigger] kids@[x] < self.tree.size(),
                kids@ == t0.kids(node as int),
                old(self).inv(),
                t0 == old(self).tree,
                lo == old(self).out.symbols@.len(),
                par == old(self).parent_sym(),
                cx == old(self).js_in_class(),
                kt_kids_placed(self.out.symbols@, lo, t0, par, cx, kids@.take(j as int)),
                kt_kids_bodies(self.out.symbols@, lo, t0, par, cx, kids@.take(j as int)),
                kt_kids_members(self.out.symbols@, t0, par, cx, kids@.take(j as int)),
                kt_kids_imports(self.out.imports@, old(self).out.imports@.len() as int, t0, kids@.take(j as int)),
                forall|x: int| 0 <= x < j ==> #[trigger] refs_cover(self.out.refs@, old(self).out.refs@.len() as int, old(self).tree, kt_stop(), kt_rows(old(self).tree), kids@[x] as int),
            decreases kids@.len() - j,
        {
            let c = kids[j];
            let ghost before = *self;
            self.kt_walk(c);
            proof {
                assert forall|x: int| 0 <= x < j + 1 implies #[trigger] refs_cover(self.out.refs@, old(self).out.refs@.len() as int,
                    old(self).tree, kt_stop(), kt_rows(old(self).tree), kids@[x] as int) by {
                    if x < j {
                        lemma_refs_cover_mono(before.out.refs@, self.out.refs@, old(self).out.refs@.len() as int,
                            old(self).out.refs@.len() as int, old(self).tree, kt_stop(), kt_rows(old(self).tree), kids@[x] as int);
                    } else {
                        lemma_refs_cover_mono(self.out.refs@, self.out.refs@, before.out.refs@.len() as int,
                            old(self).out.refs@.len() as int, old(self).tree, kt_stop(), kt_rows(old(self).tree), c as int);
                    }
                }
                if old(self).stack@.len() > 0 {
                    assert(before.out.symbols@[old(self).stack@.last() as int] == old(self).out.symbols@[old(self).stack@.last() as int]);
                }
                assert(before.js_in_class() == cx);
                crate::analysis::rust::lemma_kids_placed_grows(before.out.symbols@, self.out.symbols@, lo, t0, par, kids@.take(j as int),
                    |n: int| kt_decl(t0, cx, n));
                crate::analysis::rust::lemma_kids_placed_push(self.out.symbols@, lo, t0, par, kids@.take(j as int), c,
                    before.out.symbols@.len() as int, |n: int| kt_decl(t0, cx, n));
                assert(kids@.take(j as int).push(c) =~= kids@.take(j + 1));
                lemma_kt_kids_bodies_grows(before.out.symbols@, self.out.symbols@, lo, t0, par, cx, kids@.take(j as int));
                lemma_kt_kids_members_grows(before.out.symbols@, self.out.symbols@, t0, par, cx, kids@.take(j as int));
                lemma_kt_kids_imports_grows(before.out.imports@, self.out.imports@, old(self).out.imports@.len() as int, t0, kids@.take(j as int));
                let ks = kids@.take(j + 1);
                assert forall|x: int| 0 <= x < ks.len() && t0.kind_of(#[trigger] ks[x] as int) == "import"@ implies
                    exists|o: int| old(self).out.imports@.len() <= o && #[trigger] imports_at(self.out.imports@, o, t0.line_of(ks[x] as int),
                        kt_statement_imports(t0, ks[x] as int)) by {
                    if x < j {
                        assert(ks[x] == kids@.take(j as int)[x]);
                    } else {
                        assert(ks[x] == c);
                        let o = before.out.imports@.len() as int;
                        let es = kt_statement_imports(t0, c as int);
                        assert forall|k: int| 0 <= k < es.len() implies Walker::is_import(self.out.imports@[o + k], (#[trigger] es[k]).0,
                            es[k].1, es[k].2, es[k].3, t0.line_of(c as int)) by {
                        }
                        assert(imports_at(self.out.imports@, o, t0.line_of(c as int), es));
                    }
                }
                assert forall|x: int| 0 <= x < ks.len() && kt_is_body(t0.kind_of(#[trigger] ks[x] as int)) implies
                    kt_kids_placed(self.out.symbols@, lo, t0, par, cx, t0.kids(ks[x] as int)) by {
                    if x < j {
                        assert(ks[x] == kids@.take(j as int)[x]);
                    } else {
                        assert(ks[x] == c);
                        crate::analysis::rust::lemma_kids_placed_lower(self.out.symbols@, before.out.symbols@.len() as int, lo, t0, par,
                            t0.kids(c as int), |n: int| kt_decl(t0, cx, n));
                    }
                }
                assert forall|x: int| 0 <= x < ks.len() && (#[trigger] kt_decl(t0, cx, ks[x] as int)) is Some implies
                    exists|k: int| #[trigger] crate::analysis::rust::placed_decl(self.out.symbols@, k, t0, par, ks[x] as int, kt_decl(t0, cx, ks[x] as int))
                        && kt_bodies_placed(self.out.symbols@, t0, Some(k as usize), kt_declares_type(kt_decl(t0, cx, ks[x] as int)), ks[x] as int) by {
                    if x < j {
                        assert(ks[x] == kids@.take(j as int)[x]);
                    } else {
                        assert(ks[x] == c);
                        let k = before.out.symbols@.len() as int;
                        assert(crate::analysis::rust::placed_decl(self.out.symbols@, k, t0, par, c as int, kt_decl(t0, cx, c as int)));
                    }
                }
            }
            j = j + 1;
        }
        assert(kids@.take(kids@.len() as int) =~= kids@);
    }

    /// The innermost open symbol is a class or an interface.
    pub fn kt_parent_is_type(&self) -> (r: bool)
        requires
            self.inv(),
        ensures
            r == (self.stack@.len() > 0 && (self.out.symbols@[self.stack@.last() as int].kind@ == "class"@
                || self.out.symbols@[self.stack@.last() as int].kind@ == "interface"@)),
    {
        if self.stack.len() == 0 {
            return false;
        }
        let i = self.stack[self.stack.len() - 1];
        let k = self.out.symbols[i].kind.as_str();
        str_eq(k, "class") || str_eq(k, "interface")
    }

    /// Declared public: no `private`, `protected` or `internal` in the modifiers.
    pub open spec fn spec_kt_exported(&self, node: int) -> bool {
        match self.tree.kid_of_kind(node, "modifiers"@) {
            Some(m) => {
                let t = self.tree.text_of(m as int);
                !contains(t, "private"@) && !contains(t, "protected"@) && !contains(t, "internal"@)
            },
            None => true,
        }
    }

    /// What counts as one parameter of a Kotlin function.
    pub open spec fn is_kt_param(k: Seq<char>) -> bool {
        k == "parameter"@
    }

    pub open spec fn spec_kt_param_count(&self, node: int) -> Option<i64> {
        match self.tree.kid_of_kind(node, "function_value_parameters"@) {
            Some(p) => Some(crate::syntax::sat_i64(
                self.tree.count_where(self.tree.named_kids(p as int), |k: Seq<char>| Self::is_kt_param(k)) as int)),
            None => None,
        }
    }

    /// The text of node `p`'s first `identifier` child, or nothing.
    pub open spec fn spec_kt_ident(&self, p: int) -> Seq<char> {
        match self.tree.kid_of_kind(p, "identifier"@) {
            Some(n) => self.tree.text_of(n as int),
            None => Seq::empty(),
        }
    }

    /// The simple type name of node `p`'s first named child that is not an `identifier`.
    pub open spec fn spec_kt_declared_type(&self, p: int) -> Option<Seq<char>> {
        match self.tree.first_not_of_kind(self.tree.named_kids(p), "identifier"@) {
            Some(c) => Some(kotlin_type_name(self.tree.text_of(c as int))),
            None => None,
        }
    }

    /// `Foo` of an initializer `Foo(..)` whose callee is a plain capitalised name.
    pub open spec fn spec_kt_ctor_type(&self, prop: int) -> Option<Seq<char>> {
        match self.tree.kid_of_kind(prop, "call_expression"@) {
            Some(c) => if self.tree.named_kids(c as int).len() > 0 {
                let callee = self.tree.named_kids(c as int)[0] as int;
                if self.tree.kind_of(callee) == "identifier"@ && starts_upper(self.tree.text_of(callee)) {
                    Some(self.tree.text_of(callee))
                } else {
                    None
                }
            } else {
                None
            },
            None => None,
        }
    }

    /// The last named node of `s` that is not a `.`.
    pub open spec fn kt_last_named(&self, s: Seq<usize>) -> Option<usize> {
        kt_last_named_in(self.tree, s)
    }

    /// Callee name and receiver text of a call: a plain name, or the last
    /// named part of a navigation with its first part as the receiver.
    pub open spec fn spec_kt_callee(&self, node: int) -> Option<(Seq<char>, Option<Seq<char>>)> {
        kt_callee_in(self.tree, node)
    }

    /// Among `kids` from position `j` on: the `identifier` right after the first `as`.
    pub open spec fn kt_alias_from(t: SyntaxTree, kids: Seq<usize>, j: int) -> Option<Seq<char>>
        decreases kids.len() - j,
    {
        if j < 0 || j >= kids.len() {
            None
        } else if t.kind_of(kids[j] as int) == "as"@ {
            if j + 1 < kids.len() && t.kind_of(kids[j + 1] as int) == "identifier"@ {
                Some(t.text_of(kids[j + 1] as int))
            } else {
                None
            }
        } else {
            Self::kt_alias_from(t, kids, j + 1)
        }
    }

    /// The parameter a node of a function's value parameters binds.
    pub open spec fn kt_param_entry(&self, p: usize) -> Option<(Seq<char>, Seq<char>, Option<Seq<char>>)> {
        if self.tree.kind_of(p as int) == "parameter"@ && self.spec_kt_ident(p as int).len() > 0 {
            Some((self.spec_kt_ident(p as int), "param"@, self.spec_kt_declared_type(p as int)))
        } else {
            None
        }
    }

    pub open spec fn kt_param_entries(&self, s: Seq<usize>) -> Seq<(Seq<char>, Seq<char>, Option<Seq<char>>)> {
        Self::collect_entries(s, |p: usize| self.kt_param_entry(p))
    }

    /// What a primary-constructor parameter binds: a `val` / `var` one a field.
    pub open spec fn kt_ctor_entry(&self, p: usize) -> Option<(Seq<char>, Seq<char>, Option<Seq<char>>)> {
        if self.tree.kind_of(p as int) == "class_parameter"@ && self.spec_kt_ident(p as int).len() > 0 {
            let is_field = self.tree.kid_of_kind(p as int, "val"@) is Some || self.tree.kid_of_kind(p as int, "var"@) is Some;
            Some((self.spec_kt_ident(p as int), if is_field { "field"@ } else { "param"@ }, self.spec_kt_declared_type(p as int)))
        } else {
            None
        }
    }

    pub open spec fn kt_ctor_entries(&self, s: Seq<usize>) -> Seq<(Seq<char>, Seq<char>, Option<Seq<char>>)> {
        Self::collect_entries(s, |p: usize| self.kt_ctor_entry(p))
    }

    /// The name of the innermost open class or interface.
    fn kt_enclosing_type_name(&self) -> (r: Option<String>)
        requires
            self.inv(),
        ensures
            opt_chars(r) == Self::js_owner_of(self.out.symbols@, self.stack@),
    {
        let mut k = self.stack.len();
        assert(self.stack@.take(k as int) =~= self.stack@);
        while k > 0
            invariant
                self.inv(),
                k <= self.stack@.len(),
                Self::js_owner_of(self.out.symbols@, self.stack@) == Self::js_owner_of(self.out.symbols@, self.stack@.take(k as int)),
            decreases k,
        {
            assert(self.stack@.take(k as int).drop_last() =~= self.stack@.take(k - 1));
            k = k - 1;
            let s = &self.out.symbols[self.stack[k]];
            if str_eq(s.kind.as_str(), "class") || str_eq(s.kind.as_str(), "interface") {
                return Some(s.name.clone());
            }
        }
        None
    }

    /// Kotlin declarations are public unless a modifier narrows them.
    fn kt_is_exported(&self, node: usize) -> (r: bool)
        requires
            self.inv(),
            self.valid(node as int),
        ensures
            r == self.spec_kt_exported(node as int),
    {
        match self.tree.child_of_kind(node, "modifiers") {
            Some(m) => {
                let t = chars_of(self.text(m).as_str());
                let private = chars_of("private");
                let protected = chars_of("protected");
                let internal = chars_of("internal");
                !contains_exec(t.as_slice(), private.as_slice()) && !contains_exec(t.as_slice(), protected.as_slice())
                    && !contains_exec(t.as_slice(), internal.as_slice())
            },
            None => true,
        }
    }

    /// Number of `parameter` nodes in a function's value parameters.
    fn kt_param_count(&self, node: usize) -> (r: Option<i64>)
        requires
            self.inv(),
            self.valid(node as int),
        ensures
            r == self.spec_kt_param_count(node as int),
    {
        let params = match self.tree.child_of_kind(node, "function_value_parameters") {
            Some(p) => p,
            None => { return None; },
        };
        let kids = self.tree.named_children(params);
        let ghost p = |k: Seq<char>| Self::is_kt_param(k);
        let mut n: i64 = 0;
        let mut j: usize = 0;
        while j < kids.len()
            invariant
                self.inv(),
                0 <= j <= kids@.len(),
                0 <= n <= j,
                forall|x: int| 0 <= x < kids@.len() ==> #[trigger] kids@[x] < self.tree.size(),
                p == (|k: Seq<char>| Self::is_kt_param(k)),
                n == crate::syntax::sat_i64(self.tree.count_where(kids@.take(j as int), p) as int),
            decreases kids@.len() - j,
        {
            assert(kids@.take(j + 1).drop_last() =~= kids@.take(j as int));
            if self.tree.is(kids[j], "parameter") && n < i64::MAX {
                n = n + 1;
            }
            j = j + 1;
        }
        assert(kids@.take(kids@.len() as int) =~= kids@);
        Some(n)
    }

    /// Append the symbol a declaration introduces; a method records its
    /// parameter count and owning type.
    pub fn kt_push_symbol(&mut self, node: usize, kind: &str) -> (r: Option<usize>)
        requires
            old(self).inv(),
            old(self).valid(node as int),
        ensures
            final(self).inv(),
            final(self).extends(*old(self)),
            final(self).sc == old(self).sc,
            r is None ==> final(self).out.symbols@ == old(self).out.symbols@,
            r matches Some(i) ==> {
                let s = final(self).out.symbols@[i as int];
                &&& i == old(self).out.symbols@.len()
                &&& final(self).out.symbols@ == old(self).out.symbols@.push(s)
                &&& s.kind@ == kind@
                &&& s.name@.len() > 0
                &&& s.parent_index == (if old(self).stack@.len() > 0 { Some(old(self).stack@.last()) } else { None })
                &&& s.start_line == old(self).tree.line_of(node as int)
                &&& s.end_line == old(self).tree.end_line_of(node as int)
                &&& s.start_byte == old(self).tree.start_of(node as int)
                &&& s.end_byte == old(self).tree.end_of(node as int)
                &&& Some(s.name@) == old(self).spec_named(node as int)
                &&& s.is_exported == old(self).spec_kt_exported(node as int)
                &&& s.signature is None
                &&& s.param_count == (if kind@ == "method"@ { old(self).spec_kt_param_count(node as int) } else { None })
                &&& opt_chars(s.owner_type) == (if kind@ == "method"@ { Self::js_owner_of(old(self).out.symbols@, old(self).stack@) } else { None })
            },
            r is Some <==> old(self).spec_named(node as int) is Some,
    {
        let name = match self.named(node) {
            Some(n) => n,
            None => { return None; },
        };
        let is_method = str_eq(kind, "method");
        let param_count = if is_method { self.kt_param_count(node) } else { None };
        let owner_type = if is_method { self.kt_enclosing_type_name() } else { None };
        let parent_index = if self.stack.len() > 0 { Some(self.stack[self.stack.len() - 1]) } else { None };
        let sym = NewSymbol {
            name,
            kind: kind.to_string(),
            parent_index,
            is_exported: self.kt_is_exported(node),
            start_line: self.tree.line(node),
            end_line: self.tree.end_line(node),
            start_byte: self.tree.start(node),
            end_byte: self.tree.end(node),
            signature: None,
            param_count,
            owner_type,
        };
        Some(self.add_symbol(sym))
    }

    /// Push a declaration, bind it (methods aside), open its scope, bind its
    /// parameters or primary-constructor properties, walk it, close up.
    pub fn kt_enter_symbol(&mut self, node: usize, kind: &str)
        requires
            old(self).inv(),
            old(self).valid(node as int),
        ensures
            final(self).inv(),
            final(self).extends(*old(self)),
            old(self).spec_named(node as int) is Some ==> Self::recorded_at(final(self).out.symbols@, old(self).out.symbols@.len() as int,
                *old(self), node as int, old(self).spec_named(node as int)->0, kind@),
            old(self).spec_named(node as int) is Some ==> kt_bodies_placed(final(self).out.symbols@, old(self).tree,
                Some(old(self).out.symbols@.len() as usize), kind@ == "class"@ || kind@ == "interface"@, node as int),
            kids_cover(final(self).out.refs@, old(self).out.refs@.len() as int, old(self).tree, kt_stop(), kt_rows(old(self).tree), node as int),
        decreases old(self).tree.size() - node, 2nat,
    {
        match self.kt_push_symbol(node, kind) {
            Some(i) => {
                let ghost w0 = *self;
                let name = self.out.symbols[i].name.clone();
                let is_method = str_eq(kind, "method");
                let scope_kind = if is_method { "method" } else { "class" };
                if !is_method {
                    self.bind(name.as_str(), "symbol", Some(i), None, None);
                }
                self.stack.push(i);
                let ghost pushed_stack = self.stack@;
                let start = self.tree.start(node);
                let end = self.tree.end(node);
                self.sc.push(scope_kind, Some(i), start, end);
                let ghost pushed_sc = self.sc.stack@;
                assert(self.inv());
                if is_method || str_eq(kind, "function") {
                    self.kt_bind_params(node);
                } else if str_eq(kind, "class") || str_eq(kind, "interface") {
                    self.kt_bind_primary_ctor(node);
                }
                let ghost w1 = *self;
                self.kt_walk_children(node);
                proof {
                    lemma_kids_cover_mono(self.out.refs@, self.out.refs@, w1.out.refs@.len() as int, old(self).out.refs@.len() as int,
                        self.tree, kt_stop(), kt_rows(self.tree), node as int);
                    let t = w1.tree;
                    let syms = self.out.symbols@;
                    let f = kind@ == "class"@ || kind@ == "interface"@;
                    assert(w1.stack@.last() == i);
                    assert(w1.out.symbols@[i as int] == w0.out.symbols@[i as int]);
                    assert(w1.js_in_class() == f);
                    assert forall|x: int| 0 <= x < t.kids(node as int).len() && kt_is_body(t.kind_of(#[trigger] t.kids(node as int)[x] as int)) implies
                        kt_kids_placed(syms, 0, t, Some(i), f, t.kids(t.kids(node as int)[x] as int)) by {
                        crate::analysis::rust::lemma_kids_placed_lower(syms, w1.out.symbols@.len() as int, 0, t, Some(i),
                            t.kids(t.kids(node as int)[x] as int), |n: int| kt_decl(t, f, n));
                    }
                }
                assert(self.sc.stack@ == pushed_sc);
                assert(self.stack@ == pushed_stack);
                self.sc.pop();
                self.stack.pop();
                assert(self.stack@ =~= old(self).stack@);
                assert(self.sc.stack@ =~= old(self).sc.stack@);
                assert(self.out.symbols@[i as int] == w0.out.symbols@[i as int]);
            },
            None => {
                let ghost mid = self.out.refs@;
                self.kt_walk_children(node);
                proof {
                    lemma_kids_cover_mono(self.out.refs@, self.out.refs@, mid.len() as int, old(self).out.refs@.len() as int,
                        self.tree, kt_stop(), kt_rows(self.tree), node as int);
                }
            },
        }
    }

    /// The text of node `p`'s first `identifier` child, or nothing.
    fn kt_ident(&self, p: usize) -> (r: String)
        requires
            self.inv(),
            self.valid(p as int),
        ensures
            r@ == self.spec_kt_ident(p as int),
    {
        match self.tree.child_of_kind(p, "identifier") {
            Some(n) => self.text(n),
            None => String::new(),
        }
    }

    /// The simple type name of node `p`'s first named child that is not its
    /// `identifier`.
    fn kt_declared_type(&self, p: usize) -> (r: Option<String>)
        requires
            self.inv(),
            self.valid(p as int),
        ensures
            opt_chars(r) == self.spec_kt_declared_type(p as int),
    {
        let kids = self.tree.named_children(p);
        let mut j: usize = 0;
        assert(kids@.skip(0) =~= kids@);
        while j < kids.len()
            invariant
                self.inv(),
                0 <= j <= kids@.len(),
                forall|x: int| 0 <= x < kids@.len() ==> #[trigger] kids@[x] < self.tree.size(),
                kids@ == self.tree.named_kids(p as int),
                self.tree.first_not_of_kind(kids@, "identifier"@) == self.tree.first_not_of_kind(kids@.skip(j as int), "identifier"@),
            decreases kids@.len() - j,
        {
            let c = kids[j];
            assert(kids@.skip(j as int).drop_first() =~= kids@.skip(j + 1));
            if !self.tree.is(c, "identifier") {
                let t = self.text(c);
                return Some(simple_type_name(t.as_str()));
            }
            j = j + 1;
        }
        None
    }

    /// Bind each value parameter of a function with its declared type.
    fn kt_bind_params(&mut self, node: usize)
        requires
            old(self).inv(),
            old(self).valid(node as int),
        ensures
            final(self).inv(),
            final(self).extends(*old(self)),
            final(self).out == old(self).out,
            final(self).sc.scopes@ == old(self).sc.scopes@,
            Self::binds_all(old(self).sc.bindings@, final(self).sc.bindings@, old(self).sc.spec_current(),
                match old(self).tree.kid_of_kind(node as int, "function_value_parameters"@) {
                    Some(p) => old(self).kt_param_entries(old(self).tree.named_kids(p as int)),
                    None => Seq::empty(),
                }),
    {
        let params = match self.tree.child_of_kind(node, "function_value_parameters") {
            Some(p) => p,
            None => { return; },
        };
        let kids = self.tree.named_children(params);
        let mut j: usize = 0;
        while j < kids.len()
            invariant
                self.inv(),
                self.extends(*old(self)),
                self.out == old(self).out,
                self.sc.scopes@ == old(self).sc.scopes@,
                self.tree == old(self).tree,
                0 <= j <= kids@.len(),
                forall|x: int| 0 <= x < kids@.len() ==> #[trigger] kids@[x] < self.tree.size(),
                Self::binds_all(old(self).sc.bindings@, self.sc.bindings@, old(self).sc.spec_current(),
                    old(self).kt_param_entries(kids@.take(j as int))),
            decreases kids@.len() - j,
        {
            let p = kids[j];
            assert(kids@.take(j + 1).drop_last() =~= kids@.take(j as int));
            let ghost es = old(self).kt_param_entries(kids@.take(j as int));
            j = j + 1;
            if !self.tree.is(p, "parameter") {
                continue;
            }
            let name = self.kt_ident(p);
            if name.as_str().is_empty() {
                continue;
            }
            let ty = self.kt_declared_type(p);
            let ghost mid = self.sc.bindings@;
            self.bind(name.as_str(), "param", None, None, ty);
            proof {
                Self::lemma_binds_push(old(self).sc.bindings@, mid, self.sc.bindings@, old(self).sc.spec_current(), es,
                    (name@, "param"@, opt_chars(ty)));
            }
        }
        assert(kids@.take(kids@.len() as int) =~= kids@);
    }

    /// `class Foo(val bar: Bar)`: a `val` / `var` constructor parameter is a
    /// field, a plain one a parameter.
    fn kt_bind_primary_ctor(&mut self, node: usize)
        requires
            old(self).inv(),
            old(self).valid(node as int),
        ensures
            final(self).inv(),
            final(self).extends(*old(self)),
            final(self).out == old(self).out,
            final(self).sc.scopes@ == old(self).sc.scopes@,
            Self::binds_all(old(self).sc.bindings@, final(self).sc.bindings@, old(self).sc.spec_current(),
                match old(self).tree.kid_of_kind(node as int, "primary_constructor"@) {
                    Some(c) => match old(self).tree.kid_of_kind(c as int, "class_parameters"@) {
                        Some(p) => old(self).kt_ctor_entries(old(self).tree.named_kids(p as int)),
                        None => Seq::empty(),
                    },
                    None => Seq::empty(),
                }),
    {
        let ctor = match self.tree.child_of_kind(node, "primary_constructor") {
            Some(c) => c,
            None => { return; },
        };
        let params = match self.tree.child_of_kind(ctor, "class_parameters") {
            Some(p) => p,
            None => { return; },
        };
        let kids = self.tree.named_children(params);
        let mut j: usize = 0;
        while j < kids.len()
            invariant
                self.inv(),
                self.extends(*old(self)),
                self.out == old(self).out,
                self.sc.scopes@ == old(self).sc.scopes@,
                self.tree == old(self).tree,
                0 <= j <= kids@.len(),
                forall|x: int| 0 <= x < kids@.len() ==> #[trigger] kids@[x] < self.tree.size(),
                Self::binds_all(old(self).sc.bindings@, self.sc.bindings@, old(self).sc.spec_current(),
                    old(self).kt_ctor_entries(kids@.take(j as int))),
            decreases kids@.len() - j,
        {
            let p = kids[j];
            assert(kids@.take(j + 1).drop_last() =~= kids@.take(j as int));
            let ghost es = old(self).kt_ctor_entries(kids@.take(j as int));
            j = j + 1;
            if !self.tree.is(p, "class_parameter") {
                continue;
            }
            let name = self.kt_ident(p);
            if name.as_str().is_empty() {
                continue;
            }
            let is_field = self.tree.child_of_kind(p, "val").is_some() || self.tree.child_of_kind(p, "var").is_some();
            let ty = self.kt_declared_type(p);
            let kind = if is_field { "field" } else { "param" };
            let ghost mid = self.sc.bindings@;
            self.bind(name.as_str(), kind, None, None, ty);
            proof {
                Self::lemma_binds_push(old(self).sc.bindings@, mid, self.sc.bindings@, old(self).sc.spec_current(), es,
                    (name@, kind@, opt_chars(ty)));
            }
        }
        assert(kids@.take(kids@.len() as int) =~= kids@);
    }

    /// `val x = Foo(..)`: `Foo`, when the callee is a plain name that starts
    /// with an uppercase letter.
    fn kt_ctor_type_of_initializer(&self, prop: usize) -> (r: Option<String>)
        requires
            self.inv(),
            self.valid(prop as int),
        ensures
            opt_chars(r) == self.spec_kt_ctor_type(prop as int),
    {
        let call = match self.tree.child_of_kind(prop, "call_expression") {
            Some(c) => c,
            None => { return None; },
        };
        let callee = match self.tree.named_child(call, 0) {
            Some(c) => c,
            None => { return None; },
        };
        if !self.tree.is(callee, "identifier") {
            return None;
        }
        let t = self.text(callee);
        if starts_upper_exec(t.as_str()) { Some(t) } else { None }
    }

    /// A property: a module-level `variable` symbol, a field of the enclosing
    /// type, or a local; typed by its annotation or its constructor call.
    pub fn kt_collect_property(&mut self, node: usize)
        requires
            old(self).inv(),
            old(self).valid(node as int),
        ensures
            final(self).inv(),
            final(self).extends(*old(self)),
            final(self).out.refs@ == old(self).out.refs@,
            final(self).out.imports@ == old(self).out.imports@,
            final(self).sc.scopes@ == old(self).sc.scopes@,
            ({
                let t = old(self).tree;
                let name_node = match t.kid_of_kind(node as int, "variable_declaration"@) {
                    Some(vd) => t.kid_of_kind(vd as int, "identifier"@),
                    None => None,
                };
                match name_node {
                    Some(n) if t.text_of(n as int).len() > 0 => {
                        let name = t.text_of(n as int);
                        let vd = t.kid_of_kind(node as int, "variable_declaration"@)->0 as int;
                        let declared = match old(self).spec_kt_declared_type(vd) {
                            Some(x) => Some(x),
                            None => match t.kid_of_kind(node as int, "user_type"@) {
                                Some(u) => Some(kotlin_type_name(t.text_of(u as int))),
                                None => None,
                            },
                        };
                        let ty = match declared {
                            Some(x) => Some(x),
                            None => old(self).spec_kt_ctor_type(node as int),
                        };
                        let cur = old(self).sc.spec_current();
                        if old(self).stack@.len() == 0 {
                            let s = final(self).out.symbols@.last();
                            &&& final(self).out.symbols@ == old(self).out.symbols@.push(s)
                            &&& Self::recorded_at(final(self).out.symbols@, old(self).out.symbols@.len() as int, *old(self), node as int, name, "variable"@)
                            &&& s.is_exported == old(self).spec_kt_exported(node as int)
                            &&& s.signature is None && s.param_count is None && s.owner_type is None
                            &&& Self::bound(old(self).sc.bindings@, final(self).sc.bindings@, cur, name, "symbol"@,
                                Some(old(self).out.symbols@.len() as usize), None, None)
                        } else {
                            &&& final(self).out.symbols@ == old(self).out.symbols@
                            &&& Self::bound(old(self).sc.bindings@, final(self).sc.bindings@, cur, name,
                                if old(self).js_in_class() { "field"@ } else { "local"@ }, None, None, ty)
                        }
                    },
                    _ => final(self).out == old(self).out && final(self).sc.bindings@ == old(self).sc.bindings@,
                }
            }),
    {
        let vd = match self.tree.child_of_kind(node, "variable_declaration") {
            Some(v) => v,
            None => { return; },
        };
        let name_node = match self.tree.child_of_kind(vd, "identifier") {
            Some(n) => n,
            None => { return; },
        };
        let name = self.text(name_node);
        if name.as_str().is_empty() {
            return;
        }
        let declared = match self.kt_declared_type(vd) {
            Some(t) => Some(t),
            None => match self.tree.child_of_kind(node, "user_type") {
                Some(u) => {
                    let t = self.text(u);
                    Some(simple_type_name(t.as_str()))
                },
                None => None,
            },
        };
        let ty = match declared {
            Some(t) => Some(t),
            None => self.kt_ctor_type_of_initializer(node),
        };
        if self.stack.len() == 0 {
            let sym = NewSymbol {
                name: name.clone(),
                kind: "variable".to_string(),
                parent_index: None,
                is_exported: self.kt_is_exported(node),
                start_line: self.tree.line(node),
                end_line: self.tree.end_line(node),
                start_byte: self.tree.start(node),
                end_byte: self.tree.end(node),
                signature: None,
                param_count: None,
                owner_type: None,
            };
            let idx = self.add_symbol(sym);
            self.bind(name.as_str(), "symbol", Some(idx), None, None);
        } else if self.kt_parent_is_type() {
            self.bind(name.as_str(), "field", None, None, ty);
        } else {
            self.bind(name.as_str(), "local", None, None, ty);
        }
    }

    /// The `identifier` right after an `as` among node `i`'s children.
    fn kt_import_alias(&self, i: usize) -> (r: Option<String>)
        requires
            self.inv(),
            self.valid(i as int),
        ensures
            opt_chars(r) == Self::kt_alias_from(self.tree, self.tree.kids(i as int), 0),
    {
        let kids = self.tree.children_of(i);
        let mut j: usize = 0;
        while j < kids.len()
            invariant
                self.inv(),
                0 <= j <= kids@.len(),
                forall|x: int| 0 <= x < kids@.len() ==> #[trigger] kids@[x] < self.tree.size(),
                kids@ == self.tree.kids(i as int),
                Self::kt_alias_from(self.tree, kids@, 0) == Self::kt_alias_from(self.tree, kids@, j as int),
            decreases kids@.len() - j,
        {
            if self.tree.is(kids[j], "as") {
                if j + 1 < kids.len() && self.tree.is(kids[j + 1], "identifier") {
                    return Some(self.text(kids[j + 1]));
                }
                return None;
            }
            j = j + 1;
        }
        None
    }

    /// `import a.b.C` (or `as D`) binds `C` (or `D`); `import a.b.*` is
    /// recorded without a name.
    pub fn kt_collect_import(&mut self, node: usize)
        requires
            old(self).inv(),
            old(self).valid(node as int),
        ensures
            final(self).inv(),
            final(self).extends(*old(self)),
            final(self).out.symbols@ == old(self).out.symbols@,
            final(self).out.refs@ == old(self).out.refs@,
            final(self).sc.scopes@ == old(self).sc.scopes@,
            ({
                let t = old(self).tree;
                let line = t.line_of(node as int);
                match t.kid_of_kind(node as int, "qualified_identifier"@) {
                    Some(q) if t.text_of(q as int).len() > 0 => {
                        let path = t.text_of(q as int);
                        let m = final(self).out.imports@.last();
                        &&& final(self).out.imports@ == old(self).out.imports@.push(m)
                        &&& if is_wildcard_import(t.text_of(node as int)) {
                            &&& Walker::is_import(m, path, None, None, false, line)
                            &&& final(self).sc.bindings@ == old(self).sc.bindings@
                        } else {
                            let last = after_last(path, "."@);
                            let alias = Self::kt_alias_from(old(self).tree, t.kids(node as int), 0);
                            let local = match alias { Some(a) => a, None => last };
                            &&& Walker::is_import(m, path, Some(last), alias, false, line)
                            &&& Walker::bound(old(self).sc.bindings@, final(self).sc.bindings@, old(self).sc.spec_current(),
                                local, "import"@, None, Some(old(self).out.imports@.len() as usize), None)
                        }
                    },
                    _ => {
                        &&& final(self).out.imports@ == old(self).out.imports@
                        &&& final(self).sc.bindings@ == old(self).sc.bindings@
                    },
                }
            }),
    {
        let line = self.tree.line(node);
        let qi = match self.tree.child_of_kind(node, "qualified_identifier") {
            Some(q) => q,
            None => { return; },
        };
        let path = self.text(qi);
        if path.as_str().is_empty() {
            return;
        }
        let raw = self.text(node);
        let wildcard = is_wildcard_import_exec(raw.as_str());
        let alias = self.kt_import_alias(node);
        if wildcard {
            self.add_import(NewImport {
                raw_specifier: path,
                imported_name: None,
                alias: None,
                is_relative: false,
                start_line: line,
            });
            return;
        }
        let pc = chars_of(path.as_str());
        let dot = chars_of(".");
        let last = string_of(after_last_exec(pc.as_slice(), dot.as_slice()).as_slice());
        let local = match &alias {
            Some(a) => a.clone(),
            None => last.clone(),
        };
        let import_index = self.add_import(NewImport {
            raw_specifier: path,
            imported_name: Some(last),
            alias,
            is_relative: false,
            start_line: line,
        });
        self.bind(local.as_str(), "import", None, Some(import_index), None);
    }

    /// `f(..)` / `x.f(..)`: a call of `f`, with `x` as its receiver.
    pub fn kt_collect_call(&mut self, node: usize)
        requires
            old(self).inv(),
            old(self).valid(node as int),
        ensures
            final(self).inv(),
            final(self).extends(*old(self)),
            final(self).out.symbols@ == old(self).out.symbols@,
            final(self).out.imports@ == old(self).out.imports@,
            final(self).sc == old(self).sc,
            ({
                let t = old(self).tree;
                match old(self).spec_kt_callee(node as int) {
                    Some((name, recv)) if name.len() > 0 => {
                        &&& final(self).out.refs@ == old(self).out.refs@.push(final(self).out.refs@.last())
                        &&& Walker::is_ref(final(self).out.refs@.last(), name, "call"@, recv, kt_receiver_kind(recv),
                            match t.kid_of_kind(node as int, "value_arguments"@) {
                                Some(a) => Some(crate::syntax::sat_i64(t.named_kids(a as int).len() as int)),
                                None => None,
                            },
                            t.line_of(node as int), t.start_of(node as int), None)
                    },
                    _ => final(self).out.refs@ == old(self).out.refs@,
                }
            }),
    {
        let callee = match self.tree.named_child(node, 0) {
            Some(c) => c,
            None => { return; },
        };
        let name: String;
        let receiver: Option<String>;
        if self.tree.is(callee, "identifier") {
            name = self.text(callee);
            receiver = None;
        } else if self.tree.is(callee, "navigation_expression") {
            let kids = self.tree.children_of(callee);
            let mut last_named: Option<usize> = None;
            let mut j: usize = 0;
            while j < kids.len()
                invariant
                    self.inv(),
                    0 <= j <= kids@.len(),
                    forall|x: int| 0 <= x < kids@.len() ==> #[trigger] kids@[x] < self.tree.size(),
                    last_named matches Some(l) ==> l < self.tree.size(),
                    last_named == self.kt_last_named(kids@.take(j as int)),
                decreases kids@.len() - j,
            {
                let c = kids[j];
                assert(kids@.take(j + 1).drop_last() =~= kids@.take(j as int));
                if !self.tree.is(c, ".") && self.tree.is_named(c) {
                    last_named = Some(c);
                }
                j = j + 1;
            }
            assert(kids@.take(kids@.len() as int) =~= kids@);
            name = match last_named {
                Some(l) => self.text(l),
                None => String::new(),
            };
            receiver = if kids.len() > 0 { Some(self.text(kids[0])) } else { None };
        } else {
            return;
        }
        if name.as_str().is_empty() {
            return;
        }
        let rk = match &receiver {
            None => "none",
            Some(x) => if str_eq(x.as_str(), "this") || str_eq(x.as_str(), "super") { "self" } else { "value" },
        };
        let arg_count = match self.tree.child_of_kind(node, "value_arguments") {
            Some(a) => {
                let kids = self.tree.named_children(a);
                Some(crate::syntax::to_i64(kids.len()))
            },
            None => None,
        };
        let r = NewRef {
            name,
            ref_kind: "call".to_string(),
            receiver,
            start_line: self.tree.line(node),
            start_byte: self.tree.start(node),
            name_start_byte: None,
            arg_count,
            receiver_kind: rk.to_string(),
            local_only: false,
            resolved_local_symbol_index: None,
        };
        self.add_ref(r);
    }
}

} // verus!

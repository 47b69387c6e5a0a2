//! JavaScript / TypeScript extraction over a tree-sitter syntax tree.

use vstd::prelude::*;
use vstd::string::StringSliceAdditionalSpecFns;
use crate::analysis::lang::Language;
use crate::analysis::rust::{Walker, imports_at};
use crate::analysis::rust::helpers::after_last_exec;
use crate::analysis::{ParsedFile, grows};
use crate::analysis::reach::{CallParts, arg_count_in, covers_via, seq_covered, row_at, lemma_covers_via_mono, lemma_covers_via_node,
    lemma_seq_covered_mono, lemma_covers_via_empty, resolved_via};
use crate::cache::models::{NewImport, NewRef, NewSymbol};
use crate::syntax::{Grammar, parse_syntax, syntax_of, RawNodeView, SyntaxTree};
use crate::text::{chars_of, opt_chars, str_eq, string_of, trim, trim_bounds, slice_chars};

verus! {

/// The grammar a JavaScript-family language is parsed with.
pub open spec fn js_grammar(language: Language) -> Grammar {
    match language {
        Language::TypeScript => Grammar::TypeScript,
        Language::Tsx => Grammar::Tsx,
        _ => Grammar::JavaScript,
    }
}

/// How a call's receiver reads: none, `this`, or some other value.
pub open spec fn spec_js_receiver_kind(receiver: Option<Seq<char>>) -> Seq<char> {
    match receiver {
        None => "none"@,
        Some(r) => if r == "this"@ { "self"@ } else { "value"@ },
    }
}

pub fn js_receiver_kind(receiver: &Option<String>) -> (r: &'static str)
    ensures
        r@ == spec_js_receiver_kind(match receiver { Some(x) => Some(x@), None => None }),
{
    match receiver {
        None => "none",
        Some(r) => if str_eq(r.as_str(), "this") { "self" } else { "value" },
    }
}

/// A specifier that points into the project: it starts with `.` or `/`.
pub open spec fn js_relative(spec: Seq<char>) -> bool {
    crate::text::starts_with(spec, "."@) || crate::text::starts_with(spec, "/"@)
}

pub open spec fn str_opt(o: Option<&str>) -> Option<Seq<char>> {
    match o {
        Some(x) => Some(x@),
        None => None,
    }
}

/// The alias an import records: the local name when it differs from the imported one.
pub open spec fn js_alias(local: Option<Seq<char>>, imported: Option<Seq<char>>) -> Option<Seq<char>> {
    match (local, imported) {
        (Some(l), Some(n)) => if l != n { Some(l) } else { None },
        (Some(l), None) => Some(l),
        _ => None,
    }
}

/// A quote character of a JavaScript string.
pub open spec fn is_quote(c: char) -> bool {
    c == '"' || c == '\'' || c == '`'
}

/// `s` without its surrounding quote characters (all of them, at both ends).
pub open spec fn js_unquote(s: Seq<char>) -> Seq<char>
    decreases s.len(),
{
    if s.len() > 0 && is_quote(s[0]) {
        js_unquote(s.drop_first())
    } else if s.len() > 0 && is_quote(s.last()) {
        js_unquote(s.drop_last())
    } else {
        s
    }
}

pub fn unquote(s: &str) -> (r: String)
    ensures
        r@ == js_unquote(s@),
{
    let c = chars_of(s);
    let mut a: usize = 0;
    let mut b: usize = c.len();
    assert(c@.subrange(0, c@.len() as int) =~= s@);
    while a < b && (c[a] == '"' || c[a] == '\'' || c[a] == '`')
        invariant
            a <= b <= c@.len(),
            c@ == s@,
            js_unquote(c@.subrange(a as int, b as int)) == js_unquote(s@),
        decreases b - a,
    {
        assert(c@.subrange(a as int, b as int).drop_first() =~= c@.subrange(a + 1, b as int));
        a = a + 1;
    }
    while a < b && (c[b - 1] == '"' || c[b - 1] == '\'' || c[b - 1] == '`')
        invariant
            a <= b <= c@.len(),
            c@ == s@,
            js_unquote(c@.subrange(a as int, b as int)) == js_unquote(s@),
            a == b || !is_quote(c@[a as int]),
        decreases b - a,
    {
        assert(c@.subrange(a as int, b as int).drop_last() =~= c@.subrange(a as int, b - 1));
        b = b - 1;
    }
    string_of(slice_chars(c.as_slice(), a, b).as_slice())
}

/// The bare name of a type annotation: `import("m").Foo<T>` is `Foo`, `a.b.C`
/// is `C`; generics, unions and intersections are dropped.
pub open spec fn js_simple_type_name(raw: Seq<char>) -> Seq<char> {
    let t = trim(raw);
    let head = trim(t.subrange(0, first_stop(t, 0)));
    crate::text::after_last(head, "."@)
}

/// The first `<`, space, `|` or `&` at or after `p` (the length if none).
pub open spec fn first_stop(s: Seq<char>, p: int) -> int
    decreases s.len() - p,
{
    if p >= s.len() {
        s.len() as int
    } else if s[p] == '<' || s[p] == ' ' || s[p] == '|' || s[p] == '&' {
        p
    } else {
        first_stop(s, p + 1)
    }
}

pub fn simple_type_name(raw: &str) -> (r: String)
    ensures
        r@ == js_simple_type_name(raw@),
{
    let c = chars_of(raw);
    let (a, b) = trim_bounds(c.as_slice());
    let t = slice_chars(c.as_slice(), a, b);
    let mut k: usize = 0;
    while k < t.len() && !(t[k] == '<' || t[k] == ' ' || t[k] == '|' || t[k] == '&')
        invariant
            0 <= k <= t@.len(),
            first_stop(t@, k as int) == first_stop(t@, 0),
        decreases t@.len() - k,
    {
        k = k + 1;
    }
    let h = slice_chars(t.as_slice(), 0, k);
    let (ha, hb) = trim_bounds(h.as_slice());
    let head = slice_chars(h.as_slice(), ha, hb);
    let dot = chars_of(".");
    string_of(after_last_exec(head.as_slice(), dot.as_slice()).as_slice())
}

/// Some node of a preorder listing is an error or a missing node.
pub open spec fn js_listing_has_error(nodes: Seq<RawNodeView>) -> bool {
    exists|i: int| 0 <= i < nodes.len() && #[trigger] nodes[i].error
}

/// The symbol node `n` of `t` declares (name, kind), when it declares one:
/// A function, class, interface, type alias, enum or method that names itself (a function inside a class is a method). `in_type`: the node sits directly in a type.
pub open spec fn js_decl(t: SyntaxTree, in_type: bool, n: int) -> Option<(Seq<char>, Seq<char>)> {
        let k = t.kind_of(n);
        let kind: Option<Seq<char>> = if k == "function_declaration"@ || k == "generator_function_declaration"@
            || k == "function_signature"@ {
            Some(if in_type { "method"@ } else { "function"@ })
        } else if k == "class_declaration"@ || k == "abstract_class_declaration"@ || k == "class"@ {
            Some("class"@)
        } else if k == "interface_declaration"@ {
            Some("interface"@)
        } else if k == "type_alias_declaration"@ {
            Some("type"@)
        } else if k == "enum_declaration"@ {
            Some("enum"@)
        } else if k == "method_definition"@ {
            Some("method"@)
        } else {
            None
        };
        match (kind, crate::analysis::rust::named_in(t, n)) {
            (Some(kd), Some(nm)) => Some((nm, kd)),
            _ => None,
        }
}

/// Every node of `kids` that declares a symbol has one in `syms` from `lo` on.
pub open spec fn js_kids_placed(syms: Seq<NewSymbol>, lo: int, t: SyntaxTree, parent: Option<usize>, in_type: bool, kids: Seq<usize>) -> bool {
    crate::analysis::rust::kids_placed(syms, lo, t, parent, kids, |n: int| js_decl(t, in_type, n))
}

/// A class or interface body, whose declarations are members.
pub open spec fn js_is_body(k: Seq<char>) -> bool {
    k == "class_body"@ || k == "interface_body"@
}

/// Whether a declaration is a class or an interface.
pub open spec fn js_declares_type(d: Option<(Seq<char>, Seq<char>)>) -> bool {
    match d {
        Some((_, kd)) => kd == "class"@ || kd == "interface"@,
        None => false,
    }
}

/// The members of each body of node `node` have their symbols under
/// `parent` (functions there are methods when `in_type`).
pub open spec fn js_bodies_placed(syms: Seq<NewSymbol>, t: SyntaxTree, parent: Option<usize>, in_type: bool, node: int) -> bool {
    forall|x: int| 0 <= x < t.kids(node).len() && js_is_body(t.kind_of(#[trigger] t.kids(node)[x] as int)) ==>
        js_kids_placed(syms, 0, t, parent, in_type, t.kids(t.kids(node)[x] as int))
}

/// For every body among `kids`, its declarations are placed from `lo` on.
pub open spec fn js_kids_bodies(syms: Seq<NewSymbol>, lo: int, t: SyntaxTree, parent: Option<usize>, in_type: bool, kids: Seq<usize>) -> bool {
    forall|x: int| 0 <= x < kids.len() && js_is_body(t.kind_of(#[trigger] kids[x] as int)) ==>
        js_kids_placed(syms, lo, t, parent, in_type, t.kids(kids[x] as int))
}

/// Every declaration among `kids` has its symbol, and the members of its
/// bodies have theirs under it.
pub open spec fn js_kids_members(syms: Seq<NewSymbol>, t: SyntaxTree, parent: Option<usize>, in_type: bool, kids: Seq<usize>) -> bool {
    forall|x: int| 0 <= x < kids.len() && js_declares_type(#[trigger] js_decl(t, in_type, kids[x] as int)) ==>
        exists|k: int| #[trigger] crate::analysis::rust::placed_decl(syms, k, t, parent, kids[x] as int, js_decl(t, in_type, kids[x] as int))
            && js_bodies_placed(syms, t, Some(k as usize), true, kids[x] as int)
}

pub proof fn lemma_js_bodies_grows(a: Seq<NewSymbol>, b: Seq<NewSymbol>, t: SyntaxTree, parent: Option<usize>, in_type: bool, node: int)
    requires
        js_bodies_placed(a, t, parent, in_type, node),
        crate::analysis::grows(a, b),
    ensures
        js_bodies_placed(b, t, parent, in_type, node),
{
    assert forall|x: int| 0 <= x < t.kids(node).len() && js_is_body(t.kind_of(#[trigger] t.kids(node)[x] as int)) implies
        js_kids_placed(b, 0, t, parent, in_type, t.kids(t.kids(node)[x] as int)) by {
        crate::analysis::rust::lemma_kids_placed_grows(a, b, 0, t, parent, t.kids(t.kids(node)[x] as int), |n: int| js_decl(t, in_type, n));
    }
}

pub proof fn lemma_js_kids_bodies_grows(a: Seq<NewSymbol>, b: Seq<NewSymbol>, lo: int, t: SyntaxTree, parent: Option<usize>, in_type: bool, kids: Seq<usize>)
    requires
        js_kids_bodies(a, lo, t, parent, in_type, kids),
        crate::analysis::grows(a, b),
    ensures
        js_kids_bodies(b, lo, t, parent, in_type, kids),
{
    assert forall|x: int| 0 <= x < kids.len() && js_is_body(t.kind_of(#[trigger] kids[x] as int)) implies
        js_kids_placed(b, lo, t, parent, in_type, t.kids(kids[x] as int)) by {
        crate::analysis::rust::lemma_kids_placed_grows(a, b, lo, t, parent, t.kids(kids[x] as int), |n: int| js_decl(t, in_type, n));
    }
}

pub proof fn lemma_js_kids_members_grows(a: Seq<NewSymbol>, b: Seq<NewSymbol>, t: SyntaxTree, parent: Option<usize>, in_type: bool, kids: Seq<usize>)
    requires
        js_kids_members(a, t, parent, in_type, kids),
        crate::analysis::grows(a, b),
    ensures
        js_kids_members(b, t, parent, in_type, kids),
{
    assert forall|x: int| 0 <= x < kids.len() && js_declares_type(#[trigger] js_decl(t, in_type, kids[x] as int)) implies
        exists|k: int| #[trigger] crate::analysis::rust::placed_decl(b, k, t, parent, kids[x] as int, js_decl(t, in_type, kids[x] as int))
            && js_bodies_placed(b, t, Some(k as usize), true, kids[x] as int) by {
        let c = kids[x] as int;
        let f = true;
        let k = choose|k: int| #[trigger] crate::analysis::rust::placed_decl(a, k, t, parent, c, js_decl(t, in_type, c))
            && js_bodies_placed(a, t, Some(k as usize), f, c);
        assert(b[k] == a[k]);
        assert(crate::analysis::rust::placed_decl(b, k, t, parent, c, js_decl(t, in_type, c)));
        lemma_js_bodies_grows(a, b, t, Some(k as usize), f, c);
    }
}

/// The import rows an `import` statement node yields: one per imported
/// name (or a single bare one), all from its unquoted source; none when the
/// source is empty.
pub open spec fn js_statement_imports(t: SyntaxTree, node: int) -> Seq<(Seq<char>, Option<Seq<char>>, Option<Seq<char>>, bool)> {
    let source = match t.field_of(node, "source"@) { Some(n) => js_unquote(t.text_of(n as int)), None => Seq::empty() };
    if source.len() == 0 { Seq::empty() } else { Walker::js_import_recs(source, Walker::js_import_calls(t, node)) }
}

/// Every `import` statement among `kids` has its rows in `imports`, from `lo` on.
pub open spec fn js_kids_imports(imports: Seq<NewImport>, lo: int, t: SyntaxTree, kids: Seq<usize>) -> bool {
    forall|x: int| 0 <= x < kids.len() && t.kind_of(#[trigger] kids[x] as int) == "import_statement"@ ==>
        exists|o: int| lo <= o && #[trigger] imports_at(imports, o, t.line_of(kids[x] as int), js_statement_imports(t, kids[x] as int))
}

pub proof fn lemma_js_kids_imports_grows(a: Seq<NewImport>, b: Seq<NewImport>, lo: int, t: SyntaxTree, kids: Seq<usize>)
    requires
        js_kids_imports(a, lo, t, kids),
        crate::analysis::grows(a, b),
    ensures
        js_kids_imports(b, lo, t, kids),
{
    assert forall|x: int| 0 <= x < kids.len() && t.kind_of(#[trigger] kids[x] as int) == "import_statement"@ implies
        exists|o: int| lo <= o && #[trigger] imports_at(b, o, t.line_of(kids[x] as int), js_statement_imports(t, kids[x] as int)) by {
        let c = kids[x] as int;
        let es = js_statement_imports(t, c);
        let o = choose|o: int| lo <= o && #[trigger] imports_at(a, o, t.line_of(c), es);
        assert forall|k: int| 0 <= k < es.len() implies Walker::is_import(b[o + k], (#[trigger] es[k]).0, es[k].1, es[k].2, es[k].3, t.line_of(c)) by {
            assert(b[o + k] == a[o + k]);
        }
        assert(imports_at(b, o, t.line_of(c), es));
    }
}

/// The string node of a `require("..")` call, when call node `node` with
/// target `f` is one.
pub open spec fn js_require_arg_in(t: SyntaxTree, node: int, f: int) -> Option<usize> {
    if t.kind_of(f) == "identifier"@ && t.text_of(f) == "require"@ {
        match t.field_of(node, "arguments"@) {
            Some(args) => if t.named_kids(args as int).len() > 0 && t.kind_of(t.named_kids(args as int)[0] as int) == "string"@ {
                Some(t.named_kids(args as int)[0])
            } else {
                None
            },
            None => None,
        }
    } else {
        None
    }
}

/// Callee name and receiver text of call target `func`: `f` or `obj.f`.
pub open spec fn js_callee_in(t: SyntaxTree, func: int) -> (Seq<char>, Option<Seq<char>>) {
    if t.kind_of(func) == "identifier"@ {
        (t.text_of(func), None)
    } else if t.kind_of(func) == "member_expression"@ {
        (match t.field_of(func, "property"@) {
            Some(n) => t.text_of(n as int),
            None => Seq::empty(),
        }, match t.field_of(func, "object"@) {
            Some(n) => Some(t.text_of(n as int)),
            None => None,
        })
    } else {
        (Seq::empty(), None)
    }
}

/// The initial values a walk of variable declaration `decl` moves on to,
/// from its first `j` children: the value of each declarator that names a
/// variable.
pub open spec fn js_decl_values(t: SyntaxTree, decl: int, j: int) -> Seq<usize>
    decreases j,
{
    if j <= 0 || j > t.kids(decl).len() {
        seq![]
    } else {
        let rest = js_decl_values(t, decl, j - 1);
        let d = t.kids(decl)[j - 1] as int;
        if t.kind_of(d) == "variable_declarator"@ && (t.field_of(d, "name"@) matches Some(n) && t.text_of(n as int).len() > 0) {
            match t.field_of(d, "value"@) {
                Some(v) => rest.push(v),
                None => rest,
            }
        } else {
            rest
        }
    }
}

/// The nodes a JavaScript walk moves on to from node `i`: none for imports
/// and type aliases (read whole), the declarators' values for a variable
/// declaration, the children otherwise.
pub open spec fn js_next(t: SyntaxTree) -> spec_fn(int) -> Seq<usize> {
    |i: int| {
        let k = t.kind_of(i);
        if k == "import_statement"@ || k == "type_alias_declaration"@ {
            Seq::empty()
        } else if k == "lexical_declaration"@ || k == "variable_declaration"@ {
            js_decl_values(t, i, t.kids(i).len() as int)
        } else {
            t.kids(i)
        }
    }
}

/// The `call` reference node `n` yields: a call other than `require("..")`
/// whose callee has a name, or a `new` expression whose constructor has one.
pub open spec fn js_node_row(t: SyntaxTree, n: int) -> Option<CallParts> {
    if t.kind_of(n) == "call_expression"@ {
        match t.field_of(n, "function"@) {
            Some(f) if js_require_arg_in(t, n, f as int) is None && js_callee_in(t, f as int).0.len() > 0 => {
                let (name, recv) = js_callee_in(t, f as int);
                Some((name, recv, spec_js_receiver_kind(recv), arg_count_in(t, n), t.line_of(n), t.start_of(n), None))
            },
            _ => None,
        }
    } else if t.kind_of(n) == "new_expression"@ {
        match t.field_of(n, "constructor"@) {
            Some(c) if js_callee_in(t, c as int).0.len() > 0 => {
                let (name, recv) = js_callee_in(t, c as int);
                Some((name, recv, spec_js_receiver_kind(recv), arg_count_in(t, n), t.line_of(n), t.start_of(n), None))
            },
            _ => None,
        }
    } else {
        None
    }
}

/// The `call` reference each node of `t` yields, as [`js_node_row`] gives it.
pub open spec fn js_rows(t: SyntaxTree) -> spec_fn(int) -> Option<CallParts> {
    |n: int| js_node_row(t, n)
}

/// What parsing `source` gives: `p.parse_ok` tells whether the grammar
/// reported errors, every declaration at the top of the file has its symbol,
/// the members of a top-level class's or interface's body have theirs under
/// it, every top-level `import` statement has its import rows, and every
/// call and `new` the walk reaches has its reference.
pub open spec fn js_parsed(source: Seq<char>, language: Language, p: ParsedFile) -> bool {
    match syntax_of(js_grammar(language), source) {
        None => !p.parse_ok && p.symbols@.len() == 0 && p.refs@.len() == 0,
        Some(nodes) => {
            &&& p.parse_ok == !js_listing_has_error(nodes)
            &&& exists|t: SyntaxTree| #[trigger] t.built_from(vstd::utf8::encode_utf8(source), nodes)
                && (t.size() > 0 && t.kind_of(0) == "program"@ ==> js_kids_placed(p.symbols@, 0, t, None, false, t.kids(0))
                    && js_kids_members(p.symbols@, t, None, false, t.kids(0))
                    && js_kids_imports(p.imports@, 0, t, t.kids(0)))
                && resolved_via(t, js_next(t), js_rows(t), p)
        },
    }
}

/// Parse JavaScript, TypeScript or TSX `source` into symbols, imports,
/// references, scopes and bindings.
pub fn parse(source: &str, language: Language) -> (p: ParsedFile)
    ensures
        p.wf(),
        js_parsed(source@, language, p),
{
    let grammar = match language {
        Language::TypeScript => Grammar::TypeScript,
        Language::Tsx => Grammar::Tsx,
        _ => Grammar::JavaScript,
    };
    let tree = match parse_syntax(grammar, source) {
        Some(t) => t,
        None => {
            return ParsedFile::empty(false);
        },
    };
    proof {
        let nodes = syntax_of(grammar, source@)->0;
        assert(nodes.len() == tree.nodes@.len());
        assert forall|i: int| 0 <= i < nodes.len() implies nodes[i].error == tree.nodes@[i].error by {
            assert(nodes[i] == tree.nodes@[i]@);
        }
        if js_listing_has_error(nodes) {
            let i = choose|i: int| 0 <= i < nodes.len() && #[trigger] nodes[i].error;
            assert(tree.nodes@[i].error);
        }
        if tree.spec_has_error() {
            let i = choose|i: int| 0 <= i < tree.nodes@.len() && #[trigger] tree.nodes@[i].error;
            assert(nodes[i].error);
        }
    }
    let ok = !tree.has_error();
    let n = tree.len();
    let ghost t = tree;
    let mut walker = Walker::new(tree, source.len(), 0);
    walker.out.parse_ok = ok;
    let ghost w0 = walker;
    if n > 0 {
        walker.js_walk(0);
        proof {
            assert(w0.parent_sym() is None);
            assert(!w0.js_in_class());
        }
    }
    let ghost raw_refs = walker.out.refs@;
    proof {
        if n == 0 {
            lemma_covers_via_empty(raw_refs, t, js_next(t), js_rows(t));
        }
        assert(covers_via(raw_refs, 0, t, js_next(t), js_rows(t), 0));
    }
    let ghost syms_walked = walker.out.symbols@;
    let ghost imports_walked = walker.out.imports@;
    let out = walker.finish();
    proof {
        let nodes = syntax_of(js_grammar(language), source@)->0;
        assert(t.built_from(source.spec_bytes(), nodes));
        assert(out.symbols@ == syms_walked);
        assert(out.imports@ == imports_walked);
        assert(resolved_via(t, js_next(t), js_rows(t), out));
    }
    out
}

impl Walker {
    pub fn js_walk(&mut self, node: usize)
        requires
            old(self).inv(),
            old(self).valid(node as int),
        ensures
            final(self).inv(),
            final(self).extends(*old(self)),
            js_decl(old(self).tree, old(self).js_in_class(), node as int) is Some ==> crate::analysis::rust::placed_decl(final(self).out.symbols@,
                old(self).out.symbols@.len() as int, old(self).tree, old(self).parent_sym(), node as int, js_decl(old(self).tree, old(self).js_in_class(), node as int)),
            old(self).tree.kind_of(node as int) == "program"@ ==> js_kids_placed(final(self).out.symbols@,
                old(self).out.symbols@.len() as int, old(self).tree, old(self).parent_sym(), old(self).js_in_class(), old(self).tree.kids(node as int)),
            old(self).tree.kind_of(node as int) == "program"@ ==> js_kids_members(final(self).out.symbols@,
                old(self).tree, old(self).parent_sym(), old(self).js_in_class(), old(self).tree.kids(node as int)),
            js_is_body(old(self).tree.kind_of(node as int)) ==> js_kids_placed(final(self).out.symbols@,
                old(self).out.symbols@.len() as int, old(self).tree, old(self).parent_sym(), old(self).js_in_class(), old(self).tree.kids(node as int)),
            js_declares_type(js_decl(old(self).tree, old(self).js_in_class(), node as int)) ==> js_bodies_placed(final(self).out.symbols@,
                old(self).tree, Some(old(self).out.symbols@.len() as usize), true, node as int),
            old(self).tree.kind_of(node as int) == "import_statement"@ ==> Self::imports_all(old(self).out.imports@,
                final(self).out.imports@, old(self).tree.line_of(node as int), js_statement_imports(old(self).tree, node as int)),
            old(self).tree.kind_of(node as int) == "program"@ ==> js_kids_imports(final(self).out.imports@,
                old(self).out.imports@.len() as int, old(self).tree, old(self).tree.kids(node as int)),
            covers_via(final(self).out.refs@, old(self).out.refs@.len() as int, old(self).tree, js_next(old(self).tree), js_rows(old(self).tree), node as int),
        decreases old(self).tree.size() - node, 3nat,
    {
        proof {
            reveal_strlit("function");
            reveal_strlit("class");
            reveal_strlit("interface");
            reveal_strlit("type");
            reveal_strlit("enum");
            reveal_strlit("method");
            reveal_strlit("function_declaration");
            reveal_strlit("generator_function_declaration");
            reveal_strlit("function_signature");
            reveal_strlit("class_declaration");
            reveal_strlit("abstract_class_declaration");
            reveal_strlit("interface_declaration");
            reveal_strlit("type_alias_declaration");
            reveal_strlit("enum_declaration");
            reveal_strlit("method_definition");
            reveal_strlit("program");
            assert("function"@.len() == 8);
            assert("class"@.len() == 5);
            assert("interface"@.len() == 9);
            assert("type"@.len() == 4);
            assert("enum"@.len() == 4);
            assert("method"@.len() == 6);
            assert("function_declaration"@.len() == 20);
            assert("generator_function_declaration"@.len() == 30);
            assert("function_signature"@.len() == 18);
            assert("class_declaration"@.len() == 17);
            assert("abstract_class_declaration"@.len() == 26);
            assert("interface_declaration"@.len() == 21);
            assert("type_alias_declaration"@.len() == 22);
            assert("enum_declaration"@.len() == 16);
            assert("method_definition"@.len() == 17);
            assert("program"@.len() == 7);
        }
        proof {
            reveal_strlit("class_body");
            reveal_strlit("interface_body");
            assert("class_body"@.len() == 10);
            assert("interface_body"@.len() == 14);
            reveal_strlit("import_statement");
            reveal_strlit("lexical_declaration");
            reveal_strlit("variable_declaration");
            assert("import_statement"@.len() == 16);
            assert("import_statement"@[0] != "enum_declaration"@[0]);
            assert("lexical_declaration"@.len() == 19);
            assert("variable_declaration"@.len() == 20);
            reveal_strlit("call_expression");
            reveal_strlit("new_expression");
            reveal_strlit("type_alias_declaration");
            reveal_strlit("export_statement");
            assert("call_expression"@.len() == 15);
            assert("new_expression"@.len() == 14);
            assert("type_alias_declaration"@.len() == 22);
            assert("export_statement"@.len() == 16);
            assert("interface_body"@[0] != "new_expression"@[0]);
            assert("function_declaration"@[0] != "variable_declaration"@[0]);
            assert("export_statement"@[0] != "import_statement"@[0]);
        }
        if self.tree.is(node, "class_body") || self.tree.is(node, "interface_body") {
            assert(js_decl(self.tree, old(self).js_in_class(), node as int) is None);
            self.js_walk_children(node);
            proof {
                lemma_covers_via_node(self.out.refs@, old(self).out.refs@.len() as int, self.tree, js_next(self.tree), js_rows(self.tree), node as int);
            }
            return;
        }
        if self.tree.is(node, "program") {
            assert(js_decl(self.tree, old(self).js_in_class(), node as int) is None);
            self.js_walk_children(node);
            proof {
                lemma_covers_via_node(self.out.refs@, old(self).out.refs@.len() as int, self.tree, js_next(self.tree), js_rows(self.tree), node as int);
            }
            return;
        }
        if self.tree.is(node, "function_declaration") || self.tree.is(node, "generator_function_declaration")
            || self.tree.is(node, "function_signature") {
            self.js_enter_symbol(node, "function");
        } else if self.tree.is(node, "class_declaration") || self.tree.is(node, "abstract_class_declaration")
            || self.tree.is(node, "class") {
            self.js_enter_symbol(node, "class");
        } else if self.tree.is(node, "interface_declaration") {
            self.js_enter_symbol(node, "interface");
        } else if self.tree.is(node, "type_alias_declaration") {
            match self.js_push_symbol(node, "type") {
                Some(i) => {
                    let name = self.out.symbols[i].name.clone();
                    self.bind(name.as_str(), "symbol", Some(i), None, None);
                },
                None => {},
            }
        } else if self.tree.is(node, "enum_declaration") {
            self.js_enter_symbol(node, "enum");
        } else if self.tree.is(node, "method_definition") {
            self.js_enter_symbol(node, "method");
        } else if self.tree.is(node, "lexical_declaration") || self.tree.is(node, "variable_declaration") {
            self.js_collect_declarators(node);
        } else if self.tree.is(node, "import_statement") {
            self.js_collect_import(node);
        } else if self.tree.is(node, "export_statement") {
            // `export { a } from "..."` re-exports: the source counts as an import.
            match self.tree.field_child(node, "source") {
                Some(src) => {
                    let t = self.text(src);
                    let spec = unquote(t.as_str());
                    let line = self.tree.line(node);
                    self.js_push_import(spec.as_str(), None, None, line);
                },
                None => {},
            }
            let ghost mid = self.out.refs@;
            self.js_walk_children(node);
            proof {
                lemma_seq_covered_mono(self.out.refs@, self.out.refs@, mid.len() as int, old(self).out.refs@.len() as int,
                    self.tree, js_next(self.tree), js_rows(self.tree), self.tree.kids(node as int));
            }
        } else if self.tree.is(node, "call_expression") {
            self.js_collect_call(node);
            let ghost mid = self.out.refs@;
            self.js_walk_children(node);
            proof {
                lemma_seq_covered_mono(self.out.refs@, self.out.refs@, mid.len() as int, old(self).out.refs@.len() as int,
                    self.tree, js_next(self.tree), js_rows(self.tree), self.tree.kids(node as int));
                let k = old(self).out.refs@.len() as int;
                if js_rows(self.tree)(node as int) is Some {
                    assert(self.out.refs@[k] == mid[k]);
                    assert(row_at(self.out.refs@, k, k, js_rows(self.tree)(node as int)->0));
                }
            }
        } else if self.tree.is(node, "new_expression") {
            match self.tree.field_child(node, "constructor") {
                Some(c) => {
                    let (name, receiver) = self.js_callee_name(c);
                    if !name.as_str().is_empty() {
                        let rk = js_receiver_kind(&receiver);
                        let ac = self.js_arg_count(node);
                        self.js_push_ref(name, receiver, rk, ac, node);
                    }
                },
                None => {},
            }
            let ghost mid = self.out.refs@;
            self.js_walk_children(node);
            proof {
                lemma_seq_covered_mono(self.out.refs@, self.out.refs@, mid.len() as int, old(self).out.refs@.len() as int,
                    self.tree, js_next(self.tree), js_rows(self.tree), self.tree.kids(node as int));
                let k = old(self).out.refs@.len() as int;
                if js_rows(self.tree)(node as int) is Some {
                    assert(self.out.refs@[k] == mid[k]);
                    assert(row_at(self.out.refs@, k, k, js_rows(self.tree)(node as int)->0));
                }
            }
        } else {
            self.js_walk_children(node);
        }
        proof {
            lemma_covers_via_node(self.out.refs@, old(self).out.refs@.len() as int, self.tree, js_next(self.tree), js_rows(self.tree), node as int);
        }
    }

    pub fn js_walk_children(&mut self, node: usize)
        requires
            old(self).inv(),
            old(self).valid(node as int),
        ensures
            final(self).inv(),
            final(self).extends(*old(self)),
            js_kids_placed(final(self).out.symbols@, old(self).out.symbols@.len() as int, old(self).tree, old(self).parent_sym(),
                old(self).js_in_class(), old(self).tree.kids(node as int)),
            js_kids_bodies(final(self).out.symbols@, old(self).out.symbols@.len() as int, old(self).tree, old(self).parent_sym(),
                old(self).js_in_class(), old(self).tree.kids(node as int)),
            js_kids_members(final(self).out.symbols@, old(self).tree, old(self).parent_sym(), old(self).js_in_class(), old(self).tree.kids(node as int)),
            js_kids_imports(final(self).out.imports@, old(self).out.imports@.len() as int, old(self).tree, old(self).tree.kids(node as int)),
            seq_covered(final(self).out.refs@, old(self).out.refs@.len() as int, old(self).tree, js_next(old(self).tree), js_rows(old(self).tree), old(self).tree.kids(node as int)),
        decreases old(self).tree.size() - node, 1nat,
    {
        let kids = self.tree.children_of(node);
        let mut j: usize = 0;
        let ghost lo = old(self).out.symbols@.len() as int;
        let ghost t0 = old(self).tree;
        let ghost par = old(self).parent_sym();
        let ghost cx = old(self).js_in_class();
        assert(kids@.take(0) =~= Seq::<usize>::empty());
        while j < kids.len()
            invariant
                self.inv(),
                self.extends(*old(self)),
                0 <= j <= kids@.len(),
                forall|x: int| 0 <= x < kids@.len() ==> node < #[trigger] kids@[x] < self.tree.size(),
                kids@ == t0.kids(node as int),
                old(self).inv(),
                t0 == old(self).tree,
                lo == old(self).out.symbols@.len(),
                par == old(self).parent_sym(),
                cx == old(self).js_in_class(),
                js_kids_placed(self.out.symbols@, lo, t0, par, cx, kids@.take(j as int)),
                js_kids_bodies(self.out.symbols@, lo, t0, par, cx, kids@.take(j as int)),
                js_kids_members(self.out.symbols@, t0, par, cx, kids@.take(j as int)),
                js_kids_imports(self.out.imports@, old(self).out.imports@.len() as int, t0, kids@.take(j as int)),
                forall|x: int| 0 <= x < j ==> #[trigger] covers_via(self.out.refs@, old(self).out.refs@.len() as int, old(self).tree, js_next(old(self).tree), js_rows(old(self).tree), kids@[x] as int),
            decreases kids@.len() - j,
        {
            let c = kids[j];
            let ghost before = *self;
            self.js_walk(c);
            proof {
                assert forall|x: int| 0 <= x < j + 1 implies #[trigger] covers_via(self.out.refs@, old(self).out.refs@.len() as int,
                    old(self).tree, js_next(old(self).tree), js_rows(old(self).tree), kids@[x] as int) by {
                    if x < j {
                        lemma_covers_via_mono(before.out.refs@, self.out.refs@, old(self).out.refs@.len() as int,
                            old(self).out.refs@.len() as int, old(self).tree, js_next(old(self).tree), js_rows(old(self).tree), kids@[x] as int);
                    } else {
                        lemma_covers_via_mono(self.out.refs@, self.out.refs@, before.out.refs@.len() as int,
                            old(self).out.refs@.len() as int, old(self).tree, js_next(old(self).tree), js_rows(old(self).tree), c as int);
                    }
                }
                if old(self).stack@.len() > 0 {
                    assert(before.out.symbols@[old(self).stack@.last() as int] == old(self).out.symbols@[old(self).stack@.last() as int]);
                }
                assert(before.js_in_class() == cx);
                crate::analysis::rust::lemma_kids_placed_grows(before.out.symbols@, self.out.symbols@, lo, t0, par, kids@.take(j as int),
                    |n: int| js_decl(t0, cx, n));
                crate::analysis::rust::lemma_kids_placed_push(self.out.symbols@, lo, t0, par, kids@.take(j as int), c,
                    before.out.symbols@.len() as int, |n: int| js_decl(t0, cx, n));
                assert(kids@.take(j as int).push(c) =~= kids@.take(j + 1));
                lemma_js_kids_bodies_grows(before.out.symbols@, self.out.symbols@, lo, t0, par, cx, kids@.take(j as int));
                lemma_js_kids_members_grows(before.out.symbols@, self.out.symbols@, t0, par, cx, kids@.take(j as int));
                lemma_js_kids_imports_grows(before.out.imports@, self.out.imports@, old(self).out.imports@.len() as int, t0, kids@.take(j as int));
                let ks = kids@.take(j + 1);
                assert forall|x: int| 0 <= x < ks.len() && t0.kind_of(#[trigger] ks[x] as int) == "import_statement"@ implies
                    exists|o: int| old(self).out.imports@.len() <= o && #[trigger] imports_at(self.out.imports@, o, t0.line_of(ks[x] as int),
                        js_statement_imports(t0, ks[x] as int)) by {
                    if x < j {
                        assert(ks[x] == kids@.take(j as int)[x]);
                    } else {
                        assert(ks[x] == c);
                        let o = before.out.imports@.len() as int;
                        let es = js_statement_imports(t0, c as int);
                        assert forall|k: int| 0 <= k < es.len() implies Walker::is_import(self.out.imports@[o + k], (#[trigger] es[k]).0,
                            es[k].1, es[k].2, es[k].3, t0.line_of(c as int)) by {
                        }
                        assert(imports_at(self.out.imports@, o, t0.line_of(c as int), es));
                    }
                }
                assert forall|x: int| 0 <= x < ks.len() && js_is_body(t0.kind_of(#[trigger] ks[x] as int)) implies
                    js_kids_placed(self.out.symbols@, lo, t0, par, cx, t0.kids(ks[x] as int)) by {
                    if x < j {
                        assert(ks[x] == kids@.take(j as int)[x]);
                    } else {
                        assert(ks[x] == c);
                        crate::analysis::rust::lemma_kids_placed_lower(self.out.symbols@, before.out.symbols@.len() as int, lo, t0, par,
                            t0.kids(c as int), |n: int| js_decl(t0, cx, n));
                    }
                }
                assert forall|x: int| 0 <= x < ks.len() && js_declares_type(#[trigger] js_decl(t0, cx, ks[x] as int)) implies
                    exists|k: int| #[trigger] crate::analysis::rust::placed_decl(self.out.symbols@, k, t0, par, ks[x] as int, js_decl(t0, cx, ks[x] as int))
                        && js_bodies_placed(self.out.symbols@, t0, Some(k as usize), true, ks[x] as int) by {
                    if x < j {
                        assert(ks[x] == kids@.take(j as int)[x]);
                    } else {
                        assert(ks[x] == c);
                        let k = before.out.symbols@.len() as int;
                        assert(crate::analysis::rust::placed_decl(self.out.symbols@, k, t0, par, c as int, js_decl(t0, cx, c as int)));
                    }
                }
            }
            j = j + 1;
        }
        assert(kids@.take(kids@.len() as int) =~= kids@);
    }

    /// The string literal a `require("x")` call hands over, when `f` is `require`.
    pub open spec fn js_require_arg(&self, node: int, f: int) -> Option<usize> {
        js_require_arg_in(self.tree, node, f)
    }

    /// The parameter a node of a function's parameter list binds.
    pub open spec fn js_param_entry(&self, p: usize) -> Option<(Seq<char>, Seq<char>, Option<Seq<char>>)> {
        let t = self.tree;
        let k = t.kind_of(p as int);
        if k == "required_parameter"@ || k == "optional_parameter"@ {
            let name = match t.field_of(p as int, "pattern"@) {
                Some(x) => t.text_of(x as int),
                None => Seq::empty(),
            };
            if name.len() > 0 { Some((name, "param"@, self.spec_js_annotation_type(p as int))) } else { None }
        } else if k == "identifier"@ && t.text_of(p as int).len() > 0 {
            Some((t.text_of(p as int), "param"@, None))
        } else {
            None
        }
    }

    pub open spec fn js_param_entries(&self, s: Seq<usize>) -> Seq<(Seq<char>, Seq<char>, Option<Seq<char>>)> {
        Self::collect_entries(s, |p: usize| self.js_param_entry(p))
    }

    /// The field a member of a class body binds.
    pub open spec fn js_field_entry(&self, m: usize) -> Option<(Seq<char>, Seq<char>, Option<Seq<char>>)> {
        let t = self.tree;
        let k = t.kind_of(m as int);
        if k == "public_field_definition"@ || k == "property_signature"@ {
            match t.field_of(m as int, "name"@) {
                Some(n) if t.text_of(n as int).len() > 0 => Some((t.text_of(n as int), "field"@, self.spec_js_annotation_type(m as int))),
                _ => None,
            }
        } else {
            None
        }
    }

    pub open spec fn js_field_entries(&self, s: Seq<usize>) -> Seq<(Seq<char>, Seq<char>, Option<Seq<char>>)> {
        Self::collect_entries(s, |m: usize| self.js_field_entry(m))
    }

    /// The (imported name, local name) pairs the `import_specifier`s of `s` record.
    pub open spec fn js_spec_calls(t: SyntaxTree, s: Seq<usize>) -> Seq<(Option<Seq<char>>, Option<Seq<char>>)>
        decreases s.len(),
    {
        if s.len() == 0 {
            Seq::empty()
        } else {
            let rest = Self::js_spec_calls(t, s.drop_last());
            let sp = s.last() as int;
            if t.kind_of(sp) == "import_specifier"@ {
                let name = match t.field_of(sp, "name"@) { Some(n) => Some(t.text_of(n as int)), None => None };
                let alias = match t.field_of(sp, "alias"@) { Some(n) => Some(t.text_of(n as int)), None => None };
                rest.push((name, match alias { Some(a) => Some(a), None => name }))
            } else {
                rest
            }
        }
    }

    /// The pairs one part of an import clause records: a default import, a
    /// namespace import, or a list of named imports.
    pub open spec fn js_part_calls(t: SyntaxTree, part: int) -> Seq<(Option<Seq<char>>, Option<Seq<char>>)> {
        if t.kind_of(part) == "identifier"@ {
            seq![(Some("default"@), Some(t.text_of(part)))]
        } else if t.kind_of(part) == "namespace_import"@ {
            seq![(None, if t.named_kids(part).len() > 0 { Some(t.text_of(t.named_kids(part)[0] as int)) } else { None })]
        } else if t.kind_of(part) == "named_imports"@ {
            Self::js_spec_calls(t, t.named_kids(part))
        } else {
            Seq::empty()
        }
    }

    pub open spec fn js_clause_calls(t: SyntaxTree, s: Seq<usize>) -> Seq<(Option<Seq<char>>, Option<Seq<char>>)>
        decreases s.len(),
    {
        if s.len() == 0 {
            Seq::empty()
        } else {
            Self::js_clause_calls(t, s.drop_last()) + Self::js_part_calls(t, s.last() as int)
        }
    }

    /// The (imported, local) pairs an import statement records: one per
    /// imported name, or a single bare one when it names nothing.
    pub open spec fn js_import_calls(t: SyntaxTree, node: int) -> Seq<(Option<Seq<char>>, Option<Seq<char>>)> {
        match t.kid_of_kind(node, "import_clause"@) {
            Some(cl) => {
                let cs = Self::js_clause_calls(t, t.kids(cl as int));
                if cs.len() > 0 { cs } else { seq![(None, None)] }
            },
            None => seq![(None, None)],
        }
    }

    /// The import records of the pairs `cs`, all from `source`.
    pub open spec fn js_import_recs(source: Seq<char>, cs: Seq<(Option<Seq<char>>, Option<Seq<char>>)>)
        -> Seq<(Seq<char>, Option<Seq<char>>, Option<Seq<char>>, bool)>
        decreases cs.len(),
    {
        if cs.len() == 0 {
            Seq::empty()
        } else {
            let e = cs.last();
            Self::js_import_recs(source, cs.drop_last()).push((source, e.0, js_alias(e.1, e.0), js_relative(source)))
        }
    }

    /// What one pair binds, its import at index `idx`.
    pub open spec fn js_call_bind(e: (Option<Seq<char>>, Option<Seq<char>>), idx: usize) -> Option<(Seq<char>, Seq<char>, usize)> {
        match e {
            (None, Some(ns)) => if ns.len() > 0 { Some((ns, "namespace"@, idx)) } else { None },
            (Some(n), Some(l)) => if l.len() > 0 { Some((l, "import"@, idx)) } else { None },
            (Some(n), None) => if n.len() > 0 { Some((n, "import"@, idx)) } else { None },
            _ => None,
        }
    }

    pub open spec fn js_import_binds(cs: Seq<(Option<Seq<char>>, Option<Seq<char>>)>, base: int) -> Seq<(Seq<char>, Seq<char>, usize)>
        decreases cs.len(),
    {
        if cs.len() == 0 {
            Seq::empty()
        } else {
            let rest = Self::js_import_binds(cs.drop_last(), base);
            match Self::js_call_bind(cs.last(), (base + cs.len() - 1) as usize) {
                Some(b) => rest.push(b),
                None => rest,
            }
        }
    }

    /// The innermost open symbol is a class or an interface.
    pub open spec fn js_in_class(&self) -> bool {
        self.stack@.len() > 0 && (self.out.symbols@[self.stack@.last() as int].kind@ == "class"@
            || self.out.symbols@[self.stack@.last() as int].kind@ == "interface"@)
    }

    /// The name of the innermost open class or interface of `stack`.
    pub open spec fn js_owner_of(syms: Seq<NewSymbol>, stack: Seq<usize>) -> Option<Seq<char>>
        decreases stack.len(),
    {
        if stack.len() == 0 {
            None
        } else {
            let s = syms[stack.last() as int];
            if s.kind@ == "class"@ || s.kind@ == "interface"@ {
                Some(s.name@)
            } else {
                Self::js_owner_of(syms, stack.drop_last())
            }
        }
    }

    /// Starting at `cur` and going up at most `left` levels: an `export`
    /// statement comes before the program or a block.
    pub open spec fn js_exported_up(&self, cur: Option<usize>, left: nat) -> bool
        decreases left,
    {
        if left == 0 {
            false
        } else {
            match cur {
                None => false,
                Some(p) => if !(p < self.tree.size()) {
                    false
                } else if self.tree.kind_of(p as int) == "export_statement"@ {
                    true
                } else if self.tree.kind_of(p as int) == "program"@ || self.tree.kind_of(p as int) == "statement_block"@ {
                    false
                } else {
                    self.js_exported_up(self.tree.parent@[p as int], (left - 1) as nat)
                },
            }
        }
    }

    /// What counts as one parameter of a JavaScript / TypeScript function.
    pub open spec fn is_js_param(k: Seq<char>) -> bool {
        k == "required_parameter"@ || k == "optional_parameter"@ || k == "identifier"@ || k == "rest_pattern"@
    }

    pub open spec fn spec_js_param_count(&self, node: int) -> Option<i64> {
        match self.tree.field_of(node, "parameters"@) {
            Some(p) => Some(crate::syntax::sat_i64(
                self.tree.count_where(self.tree.named_kids(p as int), |k: Seq<char>| Self::is_js_param(k)) as int)),
            None => None,
        }
    }

    /// The simple name of the type in node's `type` annotation.
    pub open spec fn spec_js_annotation_type(&self, node: int) -> Option<Seq<char>> {
        match self.tree.field_of(node, "type"@) {
            Some(ta) => if self.tree.named_kids(ta as int).len() > 0 {
                Some(js_simple_type_name(self.tree.text_of(self.tree.named_kids(ta as int)[0] as int)))
            } else {
                None
            },
            None => None,
        }
    }

    /// Callee name and receiver text of a call's `function` node.
    pub open spec fn spec_js_callee(&self, func: int) -> (Seq<char>, Option<Seq<char>>) {
        js_callee_in(self.tree, func)
    }

    /// Number of arguments of a call, when it has an argument list.
    pub open spec fn spec_arg_count(&self, call: int) -> Option<i64> {
        crate::analysis::reach::arg_count_in(self.tree, call)
    }

    /// `r` is an unresolved `call` reference with these parts.
    pub open spec fn is_call_ref(r: NewRef, name: Seq<char>, receiver: Option<Seq<char>>, receiver_kind: Seq<char>,
        arg_count: Option<i64>, line: i64, start: i64) -> bool {
        Self::is_ref(r, name, "call"@, receiver, receiver_kind, arg_count, line, start, None)
    }

    /// The innermost open symbol is a class or an interface.
    pub fn js_parent_is_class(&self) -> (r: bool)
        requires
            self.inv(),
        ensures
            r == (self.stack@.len() > 0 && (self.out.symbols@[self.stack@.last() as int].kind@ == "class"@
                || self.out.symbols@[self.stack@.last() as int].kind@ == "interface"@)),
    {
        if self.stack.len() == 0 {
            return false;
        }
        let i = self.stack[self.stack.len() - 1];
        let k = self.out.symbols[i].kind.as_str();
        str_eq(k, "class") || str_eq(k, "interface")
    }

    /// The name of the innermost open class or interface.
    pub fn js_enclosing_type_name(&self) -> (r: Option<String>)
        requires
            self.inv(),
        ensures
            opt_chars(r) == Self::js_owner_of(self.out.symbols@, self.stack@),
    {
        let mut k = self.stack.len();
        assert(self.stack@.take(k as int) =~= self.stack@);
        while k > 0
            invariant
                self.inv(),
                k <= self.stack@.len(),
                Self::js_owner_of(self.out.symbols@, self.stack@) == Self::js_owner_of(self.out.symbols@, self.stack@.take(k as int)),
            decreases k,
        {
            assert(self.stack@.take(k as int).drop_last() =~= self.stack@.take(k - 1));
            k = k - 1;
            let s = &self.out.symbols[self.stack[k]];
            if str_eq(s.kind.as_str(), "class") || str_eq(s.kind.as_str(), "interface") {
                return Some(s.name.clone());
            }
        }
        None
    }

    /// Whether a declaration sits in an `export` statement, looking up at most
    /// three levels and stopping at the program or a block.
    pub fn js_is_exported(&self, node: usize) -> (r: bool)
        requires
            self.inv(),
            self.valid(node as int),
        ensures
            r == self.js_exported_up(self.tree.parent@[node as int], 3),
    {
        let mut cur = self.tree.parent[node];
        let mut steps: usize = 0;
        while steps < 3
            invariant
                self.inv(),
                steps <= 3,
                cur matches Some(p) ==> p < self.tree.size(),
                self.js_exported_up(self.tree.parent@[node as int], 3) == self.js_exported_up(cur, (3 - steps) as nat),
            decreases 3 - steps,
        {
            match cur {
                Some(p) => {
                    if self.tree.is(p, "export_statement") {
                        return true;
                    }
                    if self.tree.is(p, "program") || self.tree.is(p, "statement_block") {
                        return false;
                    }
                    cur = self.tree.parent[p];
                },
                None => {
                    return false;
                },
            }
            steps = steps + 1;
        }
        false
    }

    fn js_param_count(&self, node: usize) -> (r: Option<i64>)
        requires
            self.inv(),
            self.valid(node as int),
        ensures
            r == self.spec_js_param_count(node as int),
    {
        let params = match self.tree.field_child(node, "parameters") {
            Some(p) => p,
            None => { return None; },
        };
        let kids = self.tree.named_children(params);
        let ghost p = |k: Seq<char>| Self::is_js_param(k);
        let mut n: i64 = 0;
        let mut j: usize = 0;
        while j < kids.len()
            invariant
                self.inv(),
                0 <= j <= kids@.len(),
                0 <= n <= j,
                forall|x: int| 0 <= x < kids@.len() ==> #[trigger] kids@[x] < self.tree.size(),
                p == (|k: Seq<char>| Self::is_js_param(k)),
                n == crate::syntax::sat_i64(self.tree.count_where(kids@.take(j as int), p) as int),
            decreases kids@.len() - j,
        {
            let c = kids[j];
            assert(kids@.take(j + 1).drop_last() =~= kids@.take(j as int));
            if (self.tree.is(c, "required_parameter") || self.tree.is(c, "optional_parameter")
                || self.tree.is(c, "identifier") || self.tree.is(c, "rest_pattern")) && n < i64::MAX {
                n = n + 1;
            }
            j = j + 1;
        }
        assert(kids@.take(kids@.len() as int) =~= kids@);
        Some(n)
    }

    /// Record the symbol a declaration introduces (a function inside a class
    /// is a method, with the class as its owner).
    pub fn js_push_symbol(&mut self, node: usize, kind: &str) -> (r: Option<usize>)
        requires
            old(self).inv(),
            old(self).valid(node as int),
        ensures
            final(self).inv(),
            final(self).extends(*old(self)),
            final(self).out.refs@ == old(self).out.refs@,
            final(self).out.imports@ == old(self).out.imports@,
            final(self).sc == old(self).sc,
            r is None ==> final(self).out.symbols@ == old(self).out.symbols@,
            r matches Some(i) ==> i == old(self).out.symbols@.len() && final(self).out.symbols@.len() == i + 1,
            r is Some <==> old(self).spec_named(node as int) is Some,
            r matches Some(i) ==> {
                let s = final(self).out.symbols@[i as int];
                let k = if kind@ == "function"@ && old(self).js_in_class() { "method"@ } else { kind@ };
                &&& final(self).out.symbols@ == old(self).out.symbols@.push(s)
                &&& Some(s.name@) == old(self).spec_named(node as int)
                &&& s.kind@ == k
                &&& s.parent_index == (if old(self).stack@.len() > 0 { Some(old(self).stack@.last()) } else { None })
                &&& s.is_exported == old(self).js_exported_up(old(self).tree.parent@[node as int], 3)
                &&& s.start_line == old(self).tree.line_of(node as int)
                &&& s.end_line == old(self).tree.end_line_of(node as int)
                &&& s.start_byte == old(self).tree.start_of(node as int)
                &&& s.end_byte == old(self).tree.end_of(node as int)
                &&& s.signature is None
                &&& s.param_count == (if k == "function"@ || k == "method"@ { old(self).spec_js_param_count(node as int) } else { None })
                &&& opt_chars(s.owner_type) == (if k == "method"@ { Self::js_owner_of(old(self).out.symbols@, old(self).stack@) } else { None })
            },
    {
        let name = match self.named(node) {
            Some(n) => n,
            None => { return None; },
        };
        let k: &str = if str_eq(kind, "function") && self.js_parent_is_class() { "method" } else { kind };
        let exported = self.js_is_exported(node);
        let is_fn = str_eq(k, "function") || str_eq(k, "method");
        let param_count = if is_fn { self.js_param_count(node) } else { None };
        let owner_type = if str_eq(k, "method") { self.js_enclosing_type_name() } else { None };
        let parent_index = if self.stack.len() > 0 { Some(self.stack[self.stack.len() - 1]) } else { None };
        let sym = NewSymbol {
            name,
            kind: k.to_string(),
            parent_index,
            is_exported: exported,
            start_line: self.tree.line(node),
            end_line: self.tree.end_line(node),
            start_byte: self.tree.start(node),
            end_byte: self.tree.end(node),
            signature: None,
            param_count,
            owner_type,
        };
        Some(self.add_symbol(sym))
    }

    /// A declaration that can hold nested symbols: record it, bind it, open
    /// its scope, bind its parameters or fields, walk its body.
    pub fn js_enter_symbol(&mut self, node: usize, kind: &str)
        requires
            old(self).inv(),
            old(self).valid(node as int),
        ensures
            final(self).inv(),
            final(self).extends(*old(self)),
            old(self).spec_named(node as int) is Some ==> Self::recorded_at(final(self).out.symbols@, old(self).out.symbols@.len() as int,
                *old(self), node as int, old(self).spec_named(node as int)->0,
                if kind@ == "function"@ && old(self).js_in_class() { "method"@ } else { kind@ }),
            old(self).spec_named(node as int) is Some ==> js_bodies_placed(final(self).out.symbols@, old(self).tree,
                Some(old(self).out.symbols@.len() as usize), kind@ == "class"@ || kind@ == "interface"@, node as int),
            seq_covered(final(self).out.refs@, old(self).out.refs@.len() as int, old(self).tree, js_next(old(self).tree), js_rows(old(self).tree), old(self).tree.kids(node as int)),
        decreases old(self).tree.size() - node, 2nat,
    {
        match self.js_push_symbol(node, kind) {
            Some(i) => {
                let ghost w0 = *self;
                let name = self.out.symbols[i].name.clone();
                let real_kind = self.out.symbols[i].kind.clone();
                let rk = real_kind.as_str();
                let scope_kind = if str_eq(rk, "class") || str_eq(rk, "interface") {
                    "class"
                } else if str_eq(rk, "method") {
                    "method"
                } else {
                    "function"
                };
                if !str_eq(rk, "method") {
                    self.bind(name.as_str(), "symbol", Some(i), None, None);
                }
                self.stack.push(i);
                let ghost pushed_stack = self.stack@;
                let start = self.tree.start(node);
                let end = self.tree.end(node);
                self.sc.push(scope_kind, Some(i), start, end);
                let ghost pushed_sc = self.sc.stack@;
                assert(self.inv());
                if str_eq(rk, "class") || str_eq(rk, "interface") {
                    self.js_bind_class_fields(node);
                } else if str_eq(rk, "function") || str_eq(rk, "method") {
                    self.js_bind_params(node);
                }
                let ghost w1 = *self;
                self.js_walk_children(node);
                proof {
                    lemma_seq_covered_mono(self.out.refs@, self.out.refs@, w1.out.refs@.len() as int, old(self).out.refs@.len() as int,
                    self.tree, js_next(self.tree), js_rows(self.tree), self.tree.kids(node as int));
                    let t = w1.tree;
                    let syms = self.out.symbols@;
                    let f = kind@ == "class"@ || kind@ == "interface"@;
                    reveal_strlit("function");
                    reveal_strlit("method");
                    reveal_strlit("class");
                    reveal_strlit("interface");
                    assert("function"@.len() == 8);
                    assert("class"@.len() == 5);
                    assert("interface"@.len() == 9);
                    assert("method"@.len() == 6);
                    assert(w1.stack@.last() == i);
                    assert(w1.out.symbols@[i as int] == w0.out.symbols@[i as int]);
                    assert(w1.js_in_class() == f);
                    assert forall|x: int| 0 <= x < t.kids(node as int).len() && js_is_body(t.kind_of(#[trigger] t.kids(node as int)[x] as int)) implies
                        js_kids_placed(syms, 0, t, Some(i), f, t.kids(t.kids(node as int)[x] as int)) by {
                        crate::analysis::rust::lemma_kids_placed_lower(syms, w1.out.symbols@.len() as int, 0, t, Some(i),
                            t.kids(t.kids(node as int)[x] as int), |n: int| js_decl(t, f, n));
                    }
                }
                assert(self.sc.stack@ == pushed_sc);
                assert(self.stack@ == pushed_stack);
                self.sc.pop();
                self.stack.pop();
                assert(self.stack@ =~= old(self).stack@);
                assert(self.sc.stack@ =~= old(self).sc.stack@);
                assert(self.out.symbols@[i as int] == w0.out.symbols@[i as int]);
            },
            None => {
                let ghost mid = self.out.refs@;
                self.js_walk_children(node);
                proof {
                    lemma_seq_covered_mono(self.out.refs@, self.out.refs@, mid.len() as int, old(self).out.refs@.len() as int,
                    self.tree, js_next(self.tree), js_rows(self.tree), self.tree.kids(node as int));
                }
            },
        }
    }

    /// The type an annotation names (`: Foo<T>` reads as `Foo`).
    fn js_annotation_type(&self, node: usize) -> (r: Option<String>)
        requires
            self.inv(),
            self.valid(node as int),
        ensures
            opt_chars(r) == self.spec_js_annotation_type(node as int),
    {
        match self.tree.field_child(node, "type") {
            Some(ta) => match self.tree.named_child(ta, 0) {
                Some(x) => {
                    let t = self.text(x);
                    Some(simple_type_name(t.as_str()))
                },
                None => None,
            },
            None => None,
        }
    }

    pub fn js_bind_params(&mut self, func: usize)
        requires
            old(self).inv(),
            old(self).valid(func as int),
        ensures
            final(self).inv(),
            final(self).extends(*old(self)),
            final(self).out == old(self).out,
            final(self).sc.scopes@ == old(self).sc.scopes@,
            Self::binds_all(old(self).sc.bindings@, final(self).sc.bindings@, old(self).sc.spec_current(),
                match old(self).tree.field_of(func as int, "parameters"@) {
                    Some(p) => old(self).js_param_entries(old(self).tree.named_kids(p as int)),
                    None => Seq::empty(),
                }),
    {
        let params = match self.tree.field_child(func, "parameters") {
            Some(p) => p,
            None => { return; },
        };
        let kids = self.tree.named_children(params);
        let mut j: usize = 0;
        while j < kids.len()
            invariant
                self.inv(),
                self.extends(*old(self)),
                self.out == old(self).out,
                self.sc.scopes@ == old(self).sc.scopes@,
                self.tree == old(self).tree,
                0 <= j <= kids@.len(),
                forall|x: int| 0 <= x < kids@.len() ==> #[trigger] kids@[x] < self.tree.size(),
                Self::binds_all(old(self).sc.bindings@, self.sc.bindings@, old(self).sc.spec_current(),
                    old(self).js_param_entries(kids@.take(j as int))),
            decreases kids@.len() - j,
        {
            let p = kids[j];
            assert(kids@.take(j + 1).drop_last() =~= kids@.take(j as int));
            let ghost es = old(self).js_param_entries(kids@.take(j as int));
            j = j + 1;
            if self.tree.is(p, "required_parameter") || self.tree.is(p, "optional_parameter") {
                let name = match self.tree.field_child(p, "pattern") {
                    Some(x) => self.text(x),
                    None => String::new(),
                };
                let ty = self.js_annotation_type(p);
                let ghost mid = self.sc.bindings@;
                self.bind(name.as_str(), "param", None, None, ty);
                proof {
                    if name@.len() > 0 {
                        Self::lemma_binds_push(old(self).sc.bindings@, mid, self.sc.bindings@, old(self).sc.spec_current(), es,
                            (name@, "param"@, opt_chars(ty)));
                    }
                }
            } else if self.tree.is(p, "identifier") {
                let name = self.text(p);
                let ghost mid = self.sc.bindings@;
                self.bind(name.as_str(), "param", None, None, None);
                proof {
                    if name@.len() > 0 {
                        Self::lemma_binds_push(old(self).sc.bindings@, mid, self.sc.bindings@, old(self).sc.spec_current(), es,
                            (name@, "param"@, None));
                    }
                }
            }
        }
        assert(kids@.take(kids@.len() as int) =~= kids@);
    }

    pub fn js_bind_class_fields(&mut self, class: usize)
        requires
            old(self).inv(),
            old(self).valid(class as int),
        ensures
            final(self).inv(),
            final(self).extends(*old(self)),
            final(self).out == old(self).out,
            final(self).sc.scopes@ == old(self).sc.scopes@,
            Self::binds_all(old(self).sc.bindings@, final(self).sc.bindings@, old(self).sc.spec_current(),
                match old(self).tree.field_of(class as int, "body"@) {
                    Some(b) => old(self).js_field_entries(old(self).tree.named_kids(b as int)),
                    None => Seq::empty(),
                }),
    {
        let body = match self.tree.field_child(class, "body") {
            Some(b) => b,
            None => { return; },
        };
        let kids = self.tree.named_children(body);
        let mut j: usize = 0;
        while j < kids.len()
            invariant
                self.inv(),
                self.extends(*old(self)),
                self.out == old(self).out,
                self.sc.scopes@ == old(self).sc.scopes@,
                self.tree == old(self).tree,
                0 <= j <= kids@.len(),
                forall|x: int| 0 <= x < kids@.len() ==> #[trigger] kids@[x] < self.tree.size(),
                Self::binds_all(old(self).sc.bindings@, self.sc.bindings@, old(self).sc.spec_current(),
                    old(self).js_field_entries(kids@.take(j as int))),
            decreases kids@.len() - j,
        {
            let m = kids[j];
            assert(kids@.take(j + 1).drop_last() =~= kids@.take(j as int));
            let ghost es = old(self).js_field_entries(kids@.take(j as int));
            j = j + 1;
            if !(self.tree.is(m, "public_field_definition") || self.tree.is(m, "property_signature")) {
                continue;
            }
            match self.tree.field_child(m, "name") {
                Some(n) => {
                    let name = self.text(n);
                    let ty = self.js_annotation_type(m);
                    let ghost mid = self.sc.bindings@;
                    self.bind(name.as_str(), "field", None, None, ty);
                    proof {
                        if name@.len() > 0 {
                            Self::lemma_binds_push(old(self).sc.bindings@, mid, self.sc.bindings@, old(self).sc.spec_current(), es,
                                (name@, "field"@, opt_chars(ty)));
                        }
                    }
                },
                None => {},
            }
        }
        assert(kids@.take(kids@.len() as int) =~= kids@);
    }

    /// `const a = .., b = ..`: a function value, or any declaration at module
    /// level, becomes a symbol; anything else is a local. Initializers are walked.
    pub fn js_collect_declarators(&mut self, decl: usize)
        requires
            old(self).inv(),
            old(self).valid(decl as int),
        ensures
            final(self).inv(),
            final(self).extends(*old(self)),
            seq_covered(final(self).out.refs@, old(self).out.refs@.len() as int, old(self).tree, js_next(old(self).tree),
                js_rows(old(self).tree), js_decl_values(old(self).tree, decl as int, old(self).tree.kids(decl as int).len() as int)),
        decreases old(self).tree.size() - decl, 2nat,
    {
        let exported = self.js_is_exported(decl);
        let kids = self.tree.children_of(decl);
        let ghost t = old(self).tree;
        let ghost lo = old(self).out.refs@.len() as int;
        let mut j: usize = 0;
        while j < kids.len()
            invariant
                self.inv(),
                self.extends(*old(self)),
                0 <= j <= kids@.len(),
                forall|x: int| 0 <= x < kids@.len() ==> decl < #[trigger] kids@[x] < self.tree.size(),
                kids@ == t.kids(decl as int),
                t == old(self).tree,
                lo == old(self).out.refs@.len(),
                seq_covered(self.out.refs@, lo, t, js_next(t), js_rows(t), js_decl_values(t, decl as int, j as int)),
            decreases kids@.len() - j,
        {
            let ghost vals0 = js_decl_values(t, decl as int, j as int);
            proof {
                reveal_strlit("arrow_function");
                reveal_strlit("function_expression");
                reveal_strlit("function");
                reveal_strlit("call_expression");
                reveal_strlit("new_expression");
                reveal_strlit("import_statement");
                reveal_strlit("type_alias_declaration");
                reveal_strlit("lexical_declaration");
                reveal_strlit("variable_declaration");
                assert("arrow_function"@.len() == 14);
                assert("function_expression"@.len() == 19);
                assert("function"@.len() == 8);
                assert("call_expression"@.len() == 15);
                assert("new_expression"@.len() == 14);
                assert("import_statement"@.len() == 16);
                assert("type_alias_declaration"@.len() == 22);
                assert("lexical_declaration"@.len() == 19);
                assert("variable_declaration"@.len() == 20);
                assert("arrow_function"@[0] != "new_expression"@[0]);
                assert("function_expression"@[0] != "lexical_declaration"@[0]);
            }
            let d = kids[j];
            j = j + 1;
            if !self.tree.is(d, "variable_declarator") {
                continue;
            }
            let name_node = match self.tree.field_child(d, "name") {
                Some(n) => n,
                None => { continue; },
            };
            let name = self.text(name_node);
            if name.as_str().is_empty() {
                continue;
            }
            let value = self.tree.field_child(d, "value");
            let is_fn = match value {
                Some(v) => self.tree.is(v, "arrow_function") || self.tree.is(v, "function_expression")
                    || self.tree.is(v, "function"),
                None => false,
            };
            let make_symbol = is_fn || self.stack.len() == 0;
            let decl_type = self.js_annotation_type(d);
            let mut pushed: Option<usize> = None;
            if make_symbol {
                let parent_index = if self.stack.len() > 0 { Some(self.stack[self.stack.len() - 1]) } else { None };
                let sym = NewSymbol {
                    name: name.clone(),
                    kind: if is_fn { "function".to_string() } else { "variable".to_string() },
                    parent_index,
                    is_exported: exported,
                    start_line: self.tree.line(d),
                    end_line: self.tree.end_line(d),
                    start_byte: self.tree.start(d),
                    end_byte: self.tree.end(d),
                    signature: None,
                    param_count: None,
                    owner_type: None,
                };
                let i = self.add_symbol(sym);
                pushed = Some(i);
                self.bind(name.as_str(), "symbol", Some(i), None, None);
            } else {
                self.bind(name.as_str(), "local", None, None, decl_type);
            }
            let ghost mid = self.out.refs@;
            match value {
                Some(v) => {
                    match pushed {
                        Some(i) => {
                            if is_fn {
                                self.stack.push(i);
                                let ghost pushed_stack = self.stack@;
                                self.js_walk_children(v);
                                assert(self.stack@ == pushed_stack);
                                self.stack.pop();
                                assert(self.stack@ =~= old(self).stack@);
                                proof {
                                    lemma_covers_via_node(self.out.refs@, mid.len() as int, t, js_next(t), js_rows(t), v as int);
                                }
                            } else {
                                self.js_walk(v);
                            }
                        },
                        None => {
                            self.js_walk(v);
                        },
                    }
                    proof {
                        lemma_seq_covered_mono(mid, self.out.refs@, lo, lo, t, js_next(t), js_rows(t), vals0);
                        lemma_covers_via_mono(self.out.refs@, self.out.refs@, mid.len() as int, lo, t, js_next(t), js_rows(t), v as int);
                        let vals = js_decl_values(t, decl as int, j as int);
                        assert(vals == vals0.push(v));
                        assert forall|x: int| 0 <= x < vals.len() implies #[trigger] covers_via(self.out.refs@, lo, t, js_next(t), js_rows(t), vals[x] as int) by {
                            if x < vals0.len() {
                                assert(vals[x] == vals0[x]);
                            }
                        }
                    }
                },
                None => {},
            }
        }
    }

    /// Record an import of `specifier` and bind the local name it introduces:
    /// `import * as ns` binds a namespace, a named or default import its local name.
    pub fn js_push_import(&mut self, specifier: &str, imported_name: Option<&str>, local: Option<&str>, line: i64)
        requires
            old(self).inv(),
        ensures
            final(self).inv(),
            final(self).extends(*old(self)),
            final(self).out.symbols@ == old(self).out.symbols@,
            final(self).out.refs@ == old(self).out.refs@,
            final(self).out.imports@.len() == old(self).out.imports@.len() + 1,
            ({
                let m = final(self).out.imports@.last();
                &&& m.raw_specifier@ == specifier@
                &&& m.is_relative == (crate::text::starts_with(specifier@, "."@) || crate::text::starts_with(specifier@, "/"@))
                &&& m.start_line == line
            }),
            final(self).out.imports@ == old(self).out.imports@.push(final(self).out.imports@.last()),
            Self::is_import(final(self).out.imports@.last(), specifier@, str_opt(imported_name),
                js_alias(str_opt(local), str_opt(imported_name)), js_relative(specifier@), line),
            final(self).sc.scopes@ == old(self).sc.scopes@,
            ({
                let imp = Some(old(self).out.imports@.len() as usize);
                let cur = old(self).sc.spec_current();
                match (imported_name, local) {
                    (None, Some(ns)) => Self::bound(old(self).sc.bindings@, final(self).sc.bindings@, cur, ns@, "namespace"@, None, imp, None),
                    (Some(n), Some(l)) => Self::bound(old(self).sc.bindings@, final(self).sc.bindings@, cur, l@, "import"@, None, imp, None),
                    (Some(n), None) => Self::bound(old(self).sc.bindings@, final(self).sc.bindings@, cur, n@, "import"@, None, imp, None),
                    _ => final(self).sc.bindings@ == old(self).sc.bindings@,
                }
            }),
    {
        let sc = chars_of(specifier);
        let is_relative = sc.len() > 0 && (sc[0] == '.' || sc[0] == '/');
        proof {
            reveal_strlit(".");
            reveal_strlit("/");
            assert("."@ =~= seq!['.']);
            assert("/"@ =~= seq!['/']);
            if sc@.len() > 0 {
                assert(sc@.subrange(0, 1) =~= seq![sc@[0]]);
                if crate::text::starts_with(specifier@, "."@) {
                    assert(sc@.subrange(0, 1)[0] == '.');
                }
                if crate::text::starts_with(specifier@, "/"@) {
                    assert(sc@.subrange(0, 1)[0] == '/');
                }
            }
            assert(is_relative == (crate::text::starts_with(specifier@, "."@) || crate::text::starts_with(specifier@, "/"@)));
        }
        let alias: Option<String> = match (local, imported_name) {
            (Some(l), Some(n)) => if !str_eq(l, n) { Some(l.to_string()) } else { None },
            (Some(l), None) => Some(l.to_string()),
            _ => None,
        };
        let import_index = self.add_import(NewImport {
            raw_specifier: specifier.to_string(),
            imported_name: match imported_name { Some(n) => Some(n.to_string()), None => None },
            alias,
            is_relative,
            start_line: line,
        });
        match (imported_name, local) {
            (None, Some(ns)) => { self.bind(ns, "namespace", None, Some(import_index), None); },
            (Some(n), Some(l)) => { self.bind(l, "import", None, Some(import_index), None); },
            (Some(n), None) => { self.bind(n, "import", None, Some(import_index), None); },
            _ => {},
        }
    }

    pub proof fn lemma_js_recs_len(source: Seq<char>, cs: Seq<(Option<Seq<char>>, Option<Seq<char>>)>)
        ensures
            Self::js_import_recs(source, cs).len() == cs.len(),
        decreases cs.len(),
    {
        if cs.len() > 0 {
            Self::lemma_js_recs_len(source, cs.drop_last());
        }
    }

    /// One more `js_push_import` call keeps imports and bindings in step with the pairs.
    pub proof fn lemma_js_import_step(a: Seq<NewImport>, b: Seq<NewImport>, c: Seq<NewImport>,
        ba: Seq<crate::cache::models::NewBinding>, bb: Seq<crate::cache::models::NewBinding>, bc: Seq<crate::cache::models::NewBinding>,
        scope: usize, source: Seq<char>, line: i64, cs: Seq<(Option<Seq<char>>, Option<Seq<char>>)>, e: (Option<Seq<char>>, Option<Seq<char>>))
        requires
            Self::imports_all(a, b, line, Self::js_import_recs(source, cs)),
            crate::analysis::rust::use_decl::import_binds(ba, bb, scope, Self::js_import_binds(cs, a.len() as int)),
            c == b.push(c.last()),
            Self::is_import(c.last(), source, e.0, js_alias(e.1, e.0), js_relative(source), line),
            ({
                let imp = Some(b.len() as usize);
                match (e.0, e.1) {
                    (None, Some(ns)) => Self::bound(bb, bc, scope, ns, "namespace"@, None, imp, None),
                    (Some(n), Some(l)) => Self::bound(bb, bc, scope, l, "import"@, None, imp, None),
                    (Some(n), None) => Self::bound(bb, bc, scope, n, "import"@, None, imp, None),
                    _ => bc == bb,
                }
            }),
        ensures
            Self::imports_all(a, c, line, Self::js_import_recs(source, cs.push(e))),
            crate::analysis::rust::use_decl::import_binds(ba, bc, scope, Self::js_import_binds(cs.push(e), a.len() as int)),
    {
        assert(cs.push(e).drop_last() =~= cs);
        Self::lemma_imports_push(a, b, c, line, Self::js_import_recs(source, cs), (source, e.0, js_alias(e.1, e.0), js_relative(source)));
        let idx = b.len() as usize;
        Self::lemma_js_recs_len(source, cs);
        assert(b.len() == a.len() + cs.len());
        match Self::js_call_bind(e, idx) {
            Some(x) => {
                crate::analysis::rust::use_decl::lemma_import_binds_push(ba, bb, bc, scope, Self::js_import_binds(cs, a.len() as int), x);
            },
            None => {},
        }
    }

    pub fn js_collect_import(&mut self, node: usize)
        requires
            old(self).inv(),
            old(self).valid(node as int),
        ensures
            final(self).inv(),
            final(self).extends(*old(self)),
            final(self).out.symbols@ == old(self).out.symbols@,
            final(self).out.refs@ == old(self).out.refs@,
            final(self).sc.scopes@ == old(self).sc.scopes@,
            ({
                let t = old(self).tree;
                let source = match t.field_of(node as int, "source"@) { Some(n) => js_unquote(t.text_of(n as int)), None => Seq::empty() };
                if source.len() == 0 {
                    final(self).out.imports@ == old(self).out.imports@ && final(self).sc.bindings@ == old(self).sc.bindings@
                } else {
                    let cs = Self::js_import_calls(old(self).tree, node as int);
                    &&& Self::imports_all(old(self).out.imports@, final(self).out.imports@, t.line_of(node as int), Self::js_import_recs(source, cs))
                    &&& crate::analysis::rust::use_decl::import_binds(old(self).sc.bindings@, final(self).sc.bindings@,
                        old(self).sc.spec_current(), Self::js_import_binds(cs, old(self).out.imports@.len() as int))
                }
            }),
    {
        let line = self.tree.line(node);
        let source = match self.tree.field_child(node, "source") {
            Some(n) => {
                let t = self.text(n);
                unquote(t.as_str())
            },
            None => String::new(),
        };
        if source.as_str().is_empty() {
            return;
        }
        let ghost scope = old(self).sc.spec_current();
        let ghost a = old(self).out.imports@;
        let ghost ba = old(self).sc.bindings@;
        assert(Self::imports_all(a, a, line, Self::js_import_recs(source@, Seq::empty())));
        assert(crate::analysis::rust::use_decl::import_binds(ba, ba, scope, Self::js_import_binds(Seq::empty(), a.len() as int)));
        let clause = match self.tree.child_of_kind(node, "import_clause") {
            Some(c) => c,
            None => {
                // a side-effect import: `import "./x"`
                self.js_push_import(source.as_str(), None, None, line);
                proof {
                    Self::lemma_js_import_step(a, a, self.out.imports@, ba, ba, self.sc.bindings@, scope, source@, line,
                        Seq::empty(), (None, None));
                    assert(Seq::<(Option<Seq<char>>, Option<Seq<char>>)>::empty().push((None, None)) =~= seq![(None::<Seq<char>>, None::<Seq<char>>)]);
                }
                return;
            },
        };
        let mut any = false;
        let parts = self.tree.children_of(clause);
        let mut j: usize = 0;
        while j < parts.len()
            invariant
                self.inv(),
                self.extends(*old(self)),
                self.out.symbols@ == old(self).out.symbols@,
                self.out.refs@ == old(self).out.refs@,
                self.sc.scopes@ == old(self).sc.scopes@,
                self.tree == old(self).tree,
                scope == old(self).sc.spec_current(),
                a == old(self).out.imports@,
                ba == old(self).sc.bindings@,
                0 <= j <= parts@.len(),
                forall|x: int| 0 <= x < parts@.len() ==> #[trigger] parts@[x] < self.tree.size(),
                Self::imports_all(a, self.out.imports@, line, Self::js_import_recs(source@, Self::js_clause_calls(old(self).tree, parts@.take(j as int)))),
                crate::analysis::rust::use_decl::import_binds(ba, self.sc.bindings@, scope,
                    Self::js_import_binds(Self::js_clause_calls(old(self).tree, parts@.take(j as int)), a.len() as int)),
                any == (Self::js_clause_calls(old(self).tree, parts@.take(j as int)).len() > 0),
            decreases parts@.len() - j,
        {
            let part = parts[j];
            assert(parts@.take(j + 1).drop_last() =~= parts@.take(j as int));
            let ghost cs = Self::js_clause_calls(old(self).tree, parts@.take(j as int));
            j = j + 1;
            if self.tree.is(part, "identifier") {
                let t = self.text(part);
                let ghost b = self.out.imports@;
                let ghost bb = self.sc.bindings@;
                self.js_push_import(source.as_str(), Some("default"), Some(t.as_str()), line);
                proof {
                    let e = (Some("default"@), Some(t@));
                    Self::lemma_js_import_step(a, b, self.out.imports@, ba, bb, self.sc.bindings@, scope, source@, line, cs, e);
                    assert(cs.push(e) =~= cs + Self::js_part_calls(old(self).tree, part as int));
                }
                any = true;
            } else if self.tree.is(part, "namespace_import") {
                let alias = match self.tree.named_child(part, 0) {
                    Some(n) => Some(self.text(n)),
                    None => None,
                };
                let ghost b = self.out.imports@;
                let ghost bb = self.sc.bindings@;
                match &alias {
                    Some(x) => self.js_push_import(source.as_str(), None, Some(x.as_str()), line),
                    None => self.js_push_import(source.as_str(), None, None, line),
                }
                proof {
                    let e = (None, opt_chars(alias));
                    Self::lemma_js_import_step(a, b, self.out.imports@, ba, bb, self.sc.bindings@, scope, source@, line, cs, e);
                    assert(cs.push(e) =~= cs + Self::js_part_calls(old(self).tree, part as int));
                }
                any = true;
            } else if self.tree.is(part, "named_imports") {
                let specs = self.tree.named_children(part);
                let mut k: usize = 0;
                assert(cs + Self::js_spec_calls(old(self).tree, specs@.take(0)) =~= cs);
                while k < specs.len()
                    invariant
                        self.inv(),
                        self.extends(*old(self)),
                        self.out.symbols@ == old(self).out.symbols@,
                        self.out.refs@ == old(self).out.refs@,
                        self.sc.scopes@ == old(self).sc.scopes@,
                        self.tree == old(self).tree,
                        scope == old(self).sc.spec_current(),
                        a == old(self).out.imports@,
                        ba == old(self).sc.bindings@,
                        specs@ == old(self).tree.named_kids(part as int),
                        0 <= k <= specs@.len(),
                        forall|x: int| 0 <= x < specs@.len() ==> #[trigger] specs@[x] < self.tree.size(),
                        Self::imports_all(a, self.out.imports@, line,
                            Self::js_import_recs(source@, cs + Self::js_spec_calls(old(self).tree, specs@.take(k as int)))),
                        crate::analysis::rust::use_decl::import_binds(ba, self.sc.bindings@, scope,
                            Self::js_import_binds(cs + Self::js_spec_calls(old(self).tree, specs@.take(k as int)), a.len() as int)),
                        any == ((cs + Self::js_spec_calls(old(self).tree, specs@.take(k as int))).len() > 0),
                    decreases specs@.len() - k,
                {
                    let spec = specs[k];
                    assert(specs@.take(k + 1).drop_last() =~= specs@.take(k as int));
                    let ghost c2 = cs + Self::js_spec_calls(old(self).tree, specs@.take(k as int));
                    k = k + 1;
                    if !self.tree.is(spec, "import_specifier") {
                        assert(c2 =~= cs + Self::js_spec_calls(old(self).tree, specs@.take(k as int)));
                        continue;
                    }
                    let name = match self.tree.field_child(spec, "name") {
                        Some(n) => Some(self.text(n)),
                        None => None,
                    };
                    let alias = match self.tree.field_child(spec, "alias") {
                        Some(n) => Some(self.text(n)),
                        None => None,
                    };
                    let local = match &alias {
                        Some(a) => Some(a.as_str()),
                        None => match &name {
                            Some(x) => Some(x.as_str()),
                            None => None,
                        },
                    };
                    let ghost b = self.out.imports@;
                    let ghost bb = self.sc.bindings@;
                    let ghost e = (opt_chars(name), str_opt(local));
                    assert(str_opt(local) == match opt_chars(alias) { Some(x) => Some(x), None => opt_chars(name) });
                    match &name {
                        Some(nm) => self.js_push_import(source.as_str(), Some(nm.as_str()), local, line),
                        None => self.js_push_import(source.as_str(), None, local, line),
                    }
                    proof {
                        Self::lemma_js_import_step(a, b, self.out.imports@, ba, bb, self.sc.bindings@, scope, source@, line, c2, e);
                        assert(c2.push(e) =~= cs + Self::js_spec_calls(old(self).tree, specs@.take(k as int)));
                    }
                    any = true;
                }
                assert(specs@.take(specs@.len() as int) =~= specs@);
                assert(cs + Self::js_spec_calls(old(self).tree, specs@) =~= cs + Self::js_part_calls(old(self).tree, part as int));
            } else {
                assert(cs =~= cs + Self::js_part_calls(old(self).tree, part as int));
            }
        }
        assert(parts@.take(parts@.len() as int) =~= parts@);
        if !any {
            let ghost b = self.out.imports@;
            let ghost bb = self.sc.bindings@;
            self.js_push_import(source.as_str(), None, None, line);
            proof {
                Self::lemma_js_import_step(a, b, self.out.imports@, ba, bb, self.sc.bindings@, scope, source@, line,
                    Seq::empty(), (None, None));
                assert(Seq::<(Option<Seq<char>>, Option<Seq<char>>)>::empty().push((None, None)) =~= seq![(None::<Seq<char>>, None::<Seq<char>>)]);
            }
        }
    }

    /// The callee's name and receiver: `f()` is `f`, `a.b()` is `b` on `a`.
    pub fn js_callee_name(&self, func: usize) -> (r: (String, Option<String>))
        requires
            self.inv(),
            self.valid(func as int),
        ensures
            (r.0@, opt_chars(r.1)) == self.spec_js_callee(func as int),
    {
        if self.tree.is(func, "identifier") {
            (self.text(func), None)
        } else if self.tree.is(func, "member_expression") {
            let prop = match self.tree.field_child(func, "property") {
                Some(n) => self.text(n),
                None => String::new(),
            };
            let obj = match self.tree.field_child(func, "object") {
                Some(n) => Some(self.text(n)),
                None => None,
            };
            (prop, obj)
        } else {
            (String::new(), None)
        }
    }

    fn js_arg_count(&self, call: usize) -> (r: Option<i64>)
        requires
            self.inv(),
            self.valid(call as int),
        ensures
            r == self.spec_arg_count(call as int),
    {
        match self.tree.field_child(call, "arguments") {
            Some(a) => {
                let kids = self.tree.named_children(a);
                Some(crate::syntax::to_i64(kids.len()))
            },
            None => None,
        }
    }

    fn js_push_ref(&mut self, name: String, receiver: Option<String>, receiver_kind: &str, arg_count: Option<i64>, node: usize)
        requires
            old(self).inv(),
            old(self).valid(node as int),
        ensures
            final(self).inv(),
            final(self).extends(*old(self)),
            final(self).out.symbols@ == old(self).out.symbols@,
            final(self).out.imports@ == old(self).out.imports@,
            final(self).sc == old(self).sc,
            final(self).out.string_literals@ == old(self).out.string_literals@,
            final(self).out.refs@ == old(self).out.refs@.push(final(self).out.refs@.last()),
            Self::is_call_ref(final(self).out.refs@.last(), name@, opt_chars(receiver), receiver_kind@,
                arg_count, old(self).tree.line_of(node as int), old(self).tree.start_of(node as int)),
    {
        let r = NewRef {
            name,
            ref_kind: "call".to_string(),
            receiver,
            start_line: self.tree.line(node),
            start_byte: self.tree.start(node),
            name_start_byte: None,
            arg_count,
            receiver_kind: receiver_kind.to_string(),
            local_only: false,
            resolved_local_symbol_index: None,
        };
        self.add_ref(r);
    }

    /// A call: `require("x")` is a CommonJS import; anything else a `call` reference.
    pub fn js_collect_call(&mut self, node: usize)
        requires
            old(self).inv(),
            old(self).valid(node as int),
        ensures
            final(self).inv(),
            final(self).extends(*old(self)),
            final(self).out.symbols@ == old(self).out.symbols@,
            final(self).sc.scopes@ == old(self).sc.scopes@,
            final(self).sc.bindings@ == old(self).sc.bindings@,
            ({
                let t = old(self).tree;
                match t.field_of(node as int, "function"@) {
                    None => final(self).out.refs@ == old(self).out.refs@ && final(self).out.imports@ == old(self).out.imports@,
                    Some(f) => if old(self).js_require_arg(node as int, f as int) is Some {
                        &&& final(self).out.refs@ == old(self).out.refs@
                        &&& final(self).out.imports@ == old(self).out.imports@.push(final(self).out.imports@.last())
                        &&& Self::is_import(final(self).out.imports@.last(),
                            js_unquote(t.text_of(old(self).js_require_arg(node as int, f as int)->0 as int)), None, None,
                            js_relative(js_unquote(t.text_of(old(self).js_require_arg(node as int, f as int)->0 as int))), t.line_of(node as int))
                    } else {
                        let (name, recv) = old(self).spec_js_callee(f as int);
                        &&& final(self).out.imports@ == old(self).out.imports@
                        &&& if name.len() > 0 {
                            &&& final(self).out.refs@ == old(self).out.refs@.push(final(self).out.refs@.last())
                            &&& Self::is_call_ref(final(self).out.refs@.last(), name, recv, spec_js_receiver_kind(recv),
                                old(self).spec_arg_count(node as int), t.line_of(node as int), t.start_of(node as int))
                        } else {
                            final(self).out.refs@ == old(self).out.refs@
                        }
                    },
                }
            }),
    {
        let func = match self.tree.field_child(node, "function") {
            Some(f) => f,
            None => { return; },
        };
        if self.tree.is(func, "identifier") {
            let t = self.text(func);
            if str_eq(t.as_str(), "require") {
                match self.tree.field_child(node, "arguments") {
                    Some(args) => match self.tree.named_child(args, 0) {
                        Some(arg) => {
                            if self.tree.is(arg, "string") {
                                let a = self.text(arg);
                                let spec = unquote(a.as_str());
                                let line = self.tree.line(node);
                                self.js_push_import(spec.as_str(), None, None, line);
                                return;
                            }
                        },
                        None => {},
                    },
                    None => {},
                }
            }
        }
        let (name, receiver) = self.js_callee_name(func);
        if !name.as_str().is_empty() {
            let rk = js_receiver_kind(&receiver);
            let ac = self.js_arg_count(node);
            self.js_push_ref(name, receiver, rk, ac, node);
        }
    }
}

/// How a JavaScript call's receiver is classified: exactly `this` is a call
/// on self, any other receiver is a value, and a bare call has none.
pub proof fn law_js_receiver_kind(receiver: Option<Seq<char>>)
    ensures
        receiver is None ==> spec_js_receiver_kind(receiver) == "none"@,
        receiver == Some("this"@) ==> spec_js_receiver_kind(receiver) == "self"@,
        (receiver matches Some(r) && r != "this"@) ==> spec_js_receiver_kind(receiver) == "value"@,
{
}

/// Every call and `new` reference the JavaScript walk records reads its
/// receiver right: `this.m()` is a call on self, `x.m()` a call on a value,
/// `f()` a call with no receiver.
pub proof fn law_js_call_receivers(t: SyntaxTree, n: int)
    ensures
        js_node_row(t, n) matches Some(c) ==> {
            &&& c.1 == Some("this"@) <==> c.2 == "self"@
            &&& (c.1 matches Some(r) && r != "this"@) <==> c.2 == "value"@
            &&& c.1 is None <==> c.2 == "none"@
        },
{
    reveal_strlit("this");
    reveal_strlit("self");
    reveal_strlit("value");
    reveal_strlit("none");
    assert("self"@.len() == 4 && "none"@.len() == 4 && "value"@.len() == 5);
    assert("self"@[0] != "none"@[0]);
    match js_node_row(t, n) {
        Some(c) => {
            law_js_receiver_kind(c.1);
        },
        None => {},
    }
}

} // verus!

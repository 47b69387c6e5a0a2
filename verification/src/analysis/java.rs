//! Java extraction over a tree-sitter syntax tree.

use vstd::prelude::*;
use vstd::string::StringSliceAdditionalSpecFns;
use crate::analysis::rust::{Walker, imports_at};
use crate::analysis::rust::helpers::after_last_exec;
use crate::analysis::ParsedFile;
use crate::analysis::reach::{CallParts, arg_count_in, refs_cover, kids_cover, row_at, lemma_refs_cover_mono, lemma_refs_cover_node, lemma_kids_cover_mono, lemma_refs_cover_empty, resolved_cover};
use crate::cache::models::{NewImport, NewRef, NewSymbol};
use crate::syntax::{Grammar, parse_syntax, syntax_of, RawNodeView, SyntaxTree};
use crate::text::{after_last, chars_of, opt_chars, slice_chars, str_eq, str_trim, string_of, trim, trim_bounds};

verus! {

/// Some node of a preorder listing is an error or a missing node.
pub open spec fn java_listing_has_error(nodes: Seq<RawNodeView>) -> bool {
    exists|i: int| 0 <= i < nodes.len() && #[trigger] nodes[i].error
}

/// The leading part of `s` up to the first `<`, space, `[` or `&`.
pub open spec fn java_type_head(s: Seq<char>) -> Seq<char>
    decreases s.len(),
{
    if s.len() == 0 || s[0] == '<' || s[0] == ' ' || s[0] == '[' || s[0] == '&' {
        Seq::empty()
    } else {
        seq![s[0]] + java_type_head(s.drop_first())
    }
}

/// `java.util.Map<String, T>[]` -> `Map`: generics, arrays and the package go.
pub open spec fn java_type_name(raw: Seq<char>) -> Seq<char> {
    after_last(trim(java_type_head(trim(raw))), "."@)
}

fn java_type_head_len(s: &[char]) -> (r: usize)
    ensures
        r <= s@.len(),
        s@.subrange(0, r as int) == java_type_head(s@),
{
    let mut k: usize = 0;
    assert(s@.subrange(0, s@.len() as int) =~= s@);
    assert(s@.subrange(0, 0) + s@ =~= s@);
    while k < s.len() && s[k] != '<' && s[k] != ' ' && s[k] != '[' && s[k] != '&'
        invariant
            0 <= k <= s@.len(),
            java_type_head(s@) == s@.subrange(0, k as int) + java_type_head(s@.subrange(k as int, s@.len() as int)),
        decreases s@.len() - k,
    {
        let ghost rest = s@.subrange(k as int, s@.len() as int);
        assert(rest.drop_first() =~= s@.subrange(k + 1, s@.len() as int));
        assert(s@.subrange(0, k + 1) =~= s@.subrange(0, k as int) + seq![s@[k as int]]);
        k = k + 1;
    }
    assert(java_type_head(s@.subrange(k as int, s@.len() as int)) =~= Seq::<char>::empty());
    assert(s@.subrange(0, k as int) + Seq::<char>::empty() =~= s@.subrange(0, k as int));
    k
}

/// The simple name of a Java type as written.
pub fn simple_type_name(raw: &str) -> (r: String)
    ensures
        r@ == java_type_name(raw@),
{
    let t = chars_of(str_trim(raw).as_str());
    let h = java_type_head_len(t.as_slice());
    let head = slice_chars(t.as_slice(), 0, h);
    let (b, e) = trim_bounds(head.as_slice());
    let th = slice_chars(head.as_slice(), b, e);
    let dot = chars_of(".");
    let last = after_last_exec(th.as_slice(), dot.as_slice());
    string_of(last.as_slice())
}

/// How a Java call's receiver reads: `none` for a bare call, `self` for
/// `this` / `super`, `value` otherwise.
pub open spec fn java_receiver_kind(receiver: Option<Seq<char>>) -> Seq<char> {
    match receiver {
        None => "none"@,
        Some(r) => if r == "this"@ || r == "super"@ { "self"@ } else { "value"@ },
    }
}

fn receiver_kind(receiver: &Option<String>) -> (r: &'static str)
    ensures
        r@ == java_receiver_kind(match receiver { Some(x) => Some(x@), None => None }),
{
    match receiver {
        None => "none",
        Some(x) => if str_eq(x.as_str(), "this") || str_eq(x.as_str(), "super") { "self" } else { "value" },
    }
}

/// The symbol node `n` of `t` declares (name, kind), when it declares one:
/// A class, record, interface, enum, method or constructor that names itself. `in_type`: the node sits directly in a type.
pub open spec fn java_decl(t: SyntaxTree, in_type: bool, n: int) -> Option<(Seq<char>, Seq<char>)> {
        let k = t.kind_of(n);
        let kind: Option<Seq<char>> = if k == "class_declaration"@ || k == "record_declaration"@ {
            Some("class"@)
        } else if k == "interface_declaration"@ {
            Some("interface"@)
        } else if k == "enum_declaration"@ {
            Some("enum"@)
        } else if k == "method_declaration"@ || k == "constructor_declaration"@ || k == "compact_constructor_declaration"@ {
            Some("method"@)
        } else {
            None
        };
        match (kind, crate::analysis::rust::named_in(t, n)) {
            (Some(kd), Some(nm)) => Some((nm, kd)),
            _ => None,
        }
}

/// Every node of `kids` that declares a symbol has one in `syms` from `lo` on.
pub open spec fn java_kids_placed(syms: Seq<NewSymbol>, lo: int, t: SyntaxTree, parent: Option<usize>, in_type: bool, kids: Seq<usize>) -> bool {
    crate::analysis::rust::kids_placed(syms, lo, t, parent, kids, |n: int| java_decl(t, in_type, n))
}

/// A class or interface body, whose declarations are members.
pub open spec fn java_is_body(k: Seq<char>) -> bool {
    k == "class_body"@ || k == "interface_body"@
}

/// The members of each body of node `node` have their symbols under `parent`.
pub open spec fn java_bodies_placed(syms: Seq<NewSymbol>, t: SyntaxTree, parent: Option<usize>, node: int) -> bool {
    forall|x: int| 0 <= x < t.kids(node).len() && java_is_body(t.kind_of(#[trigger] t.kids(node)[x] as int)) ==>
        java_kids_placed(syms, 0, t, parent, false, t.kids(t.kids(node)[x] as int))
}

/// For every body among `kids`, its declarations are placed from `lo` on.
pub open spec fn java_kids_bodies(syms: Seq<NewSymbol>, lo: int, t: SyntaxTree, parent: Option<usize>, kids: Seq<usize>) -> bool {
    forall|x: int| 0 <= x < kids.len() && java_is_body(t.kind_of(#[trigger] kids[x] as int)) ==>
        java_kids_placed(syms, lo, t, parent, false, t.kids(kids[x] as int))
}

/// Every declaration among `kids` has its symbol, and the members of its
/// bodies have theirs under it.
pub open spec fn java_kids_members(syms: Seq<NewSymbol>, t: SyntaxTree, parent: Option<usize>, kids: Seq<usize>) -> bool {
    forall|x: int| 0 <= x < kids.len() && (#[trigger] java_decl(t, false, kids[x] as int)) is Some ==>
        exists|k: int| #[trigger] crate::analysis::rust::placed_decl(syms, k, t, parent, kids[x] as int, java_decl(t, false, kids[x] as int))
            && java_bodies_placed(syms, t, Some(k as usize), kids[x] as int)
}

pub proof fn lemma_java_bodies_grows(a: Seq<NewSymbol>, b: Seq<NewSymbol>, t: SyntaxTree, parent: Option<usize>, node: int)
    requires
        java_bodies_placed(a, t, parent, node),
        crate::analysis::grows(a, b),
    ensures
        java_bodies_placed(b, t, parent, node),
{
    assert forall|x: int| 0 <= x < t.kids(node).len() && java_is_body(t.kind_of(#[trigger] t.kids(node)[x] as int)) implies
        java_kids_placed(b, 0, t, parent, false, t.kids(t.kids(node)[x] as int)) by {
        crate::analysis::rust::lemma_kids_placed_grows(a, b, 0, t, parent, t.kids(t.kids(node)[x] as int), |n: int| java_decl(t, false, n));
    }
}

pub proof fn lemma_java_kids_bodies_grows(a: Seq<NewSymbol>, b: Seq<NewSymbol>, lo: int, t: SyntaxTree, parent: Option<usize>, kids: Seq<usize>)
    requires
        java_kids_bodies(a, lo, t, parent, kids),
        crate::analysis::grows(a, b),
    ensures
        java_kids_bodies(b, lo, t, parent, kids),
{
    assert forall|x: int| 0 <= x < kids.len() && java_is_body(t.kind_of(#[trigger] kids[x] as int)) implies
        java_kids_placed(b, lo, t, parent, false, t.kids(kids[x] as int)) by {
        crate::analysis::rust::lemma_kids_placed_grows(a, b, lo, t, parent, t.kids(kids[x] as int), |n: int| java_decl(t, false, n));
    }
}

pub proof fn lemma_java_kids_members_grows(a: Seq<NewSymbol>, b: Seq<NewSymbol>, t: SyntaxTree, parent: Option<usize>, kids: Seq<usize>)
    requires
        java_kids_members(a, t, parent, kids),
        crate::analysis::grows(a, b),
    ensures
        java_kids_members(b, t, parent, kids),
{
    assert forall|x: int| 0 <= x < kids.len() && (#[trigger] java_decl(t, false, kids[x] as int)) is Some implies
        exists|k: int| #[trigger] crate::analysis::rust::placed_decl(b, k, t, parent, kids[x] as int, java_decl(t, false, kids[x] as int))
            && java_bodies_placed(b, t, Some(k as usize), kids[x] as int) by {
        let c = kids[x] as int;
        let k = choose|k: int| #[trigger] crate::analysis::rust::placed_decl(a, k, t, parent, c, java_decl(t, false, c))
            && java_bodies_placed(a, t, Some(k as usize), c);
        assert(b[k] == a[k]);
        assert(crate::analysis::rust::placed_decl(b, k, t, parent, c, java_decl(t, false, c)));
        lemma_java_bodies_grows(a, b, t, Some(k as usize), c);
    }
}

/// The import row an `import` declaration node yields: its dotted path,
/// named by the path's last segment unless it imports with `*`.
pub open spec fn java_statement_imports(t: SyntaxTree, node: int) -> Seq<(Seq<char>, Option<Seq<char>>, Option<Seq<char>>, bool)> {
    let path_node = match t.kid_of_kind(node, "scoped_identifier"@) {
        Some(p) => Some(p),
        None => t.kid_of_kind(node, "identifier"@),
    };
    match path_node {
        Some(p) if t.text_of(p as int).len() > 0 => {
            let path = t.text_of(p as int);
            if t.kid_of_kind(node, "asterisk"@) is Some {
                seq![(path, None, None, false)]
            } else {
                seq![(path, Some(after_last(path, "."@)), None, false)]
            }
        },
        _ => Seq::empty(),
    }
}

/// Every `import` declaration among `kids` has its row in `imports`, from `lo` on.
pub open spec fn java_kids_imports(imports: Seq<NewImport>, lo: int, t: SyntaxTree, kids: Seq<usize>) -> bool {
    forall|x: int| 0 <= x < kids.len() && t.kind_of(#[trigger] kids[x] as int) == "import_declaration"@ ==>
        exists|o: int| lo <= o && #[trigger] imports_at(imports, o, t.line_of(kids[x] as int), java_statement_imports(t, kids[x] as int))
}

pub proof fn lemma_java_kids_imports_grows(a: Seq<NewImport>, b: Seq<NewImport>, lo: int, t: SyntaxTree, kids: Seq<usize>)
    requires
        java_kids_imports(a, lo, t, kids),
        crate::analysis::grows(a, b),
    ensures
        java_kids_imports(b, lo, t, kids),
{
    assert forall|x: int| 0 <= x < kids.len() && t.kind_of(#[trigger] kids[x] as int) == "import_declaration"@ implies
        exists|o: int| lo <= o && #[trigger] imports_at(b, o, t.line_of(kids[x] as int), java_statement_imports(t, kids[x] as int)) by {
        let c = kids[x] as int;
        let es = java_statement_imports(t, c);
        let o = choose|o: int| lo <= o && #[trigger] imports_at(a, o, t.line_of(c), es);
        assert forall|k: int| 0 <= k < es.len() implies Walker::is_import(b[o + k], (#[trigger] es[k]).0, es[k].1, es[k].2, es[k].3, t.line_of(c)) by {
            assert(b[o + k] == a[o + k]);
        }
        assert(imports_at(b, o, t.line_of(c), es));
    }
}

/// The simple name of the type node `i` names in its `type` field.
pub open spec fn java_type_in(t: SyntaxTree, i: int) -> Option<Seq<char>> {
    match t.field_of(i, "type"@) {
        Some(ty) => Some(java_type_name(t.text_of(ty as int))),
        None => None,
    }
}

/// The kinds a Java walk reads whole without walking into: imports.
pub open spec fn java_stop() -> spec_fn(Seq<char>) -> bool {
    |k: Seq<char>| k == "import_declaration"@
}

/// The `call` reference node `n` yields: `obj.m(..)` is `m` with receiver
/// `obj`, `new T(..)` is `T`'s constructor; other nodes yield none.
pub open spec fn java_node_row(t: SyntaxTree, n: int) -> Option<CallParts> {
    if t.kind_of(n) == "method_invocation"@ {
        match t.field_of(n, "name"@) {
            Some(m) if t.text_of(m as int).len() > 0 => {
                let recv = match t.field_of(n, "object"@) {
                    Some(o) => Some(t.text_of(o as int)),
                    None => None,
                };
                Some((t.text_of(m as int), recv, java_receiver_kind(recv), arg_count_in(t, n), t.line_of(n), t.start_of(n), None))
            },
            _ => None,
        }
    } else if t.kind_of(n) == "object_creation_expression"@ {
        match java_type_in(t, n) {
            Some(ty) if ty.len() > 0 => Some((ty, None, "none"@, arg_count_in(t, n), t.line_of(n), t.start_of(n), None)),
            _ => None,
        }
    } else {
        None
    }
}

/// The `call` reference each node of `t` yields, as [`java_node_row`] gives it.
pub open spec fn java_rows(t: SyntaxTree) -> spec_fn(int) -> Option<CallParts> {
    |n: int| java_node_row(t, n)
}

/// What parsing `source` gives: `p.parse_ok` tells whether the grammar
/// reported errors, every declaration at the top of the file has its symbol,
/// the members of a top-level type's body have theirs under it, every
/// `import` declaration has its import row, and every call and constructor
/// call the walk reaches has its reference.
pub open spec fn java_parsed(source: Seq<char>, p: ParsedFile) -> bool {
    match syntax_of(Grammar::Java, source) {
        None => !p.parse_ok && p.symbols@.len() == 0 && p.refs@.len() == 0,
        Some(nodes) => {
            &&& p.parse_ok == !java_listing_has_error(nodes)
            &&& exists|t: SyntaxTree| #[trigger] t.built_from(vstd::utf8::encode_utf8(source), nodes)
                && (t.size() > 0 && t.kind_of(0) == "program"@ ==> java_kids_placed(p.symbols@, 0, t, None, false, t.kids(0))
                    && java_kids_members(p.symbols@, t, None, t.kids(0))
                    && java_kids_imports(p.imports@, 0, t, t.kids(0)))
                && resolved_cover(t, java_stop(), java_rows(t), p)
        },
    }
}

/// Parse Java `source` into symbols (types and methods), imports, calls,
/// constructor calls, scopes and typed bindings.
pub fn parse(source: &str) -> (p: ParsedFile)
    ensures
        p.wf(),
        java_parsed(source@, p),
{
    let tree = match parse_syntax(Grammar::Java, source) {
        Some(t) => t,
        None => {
            return ParsedFile::empty(false);
        },
    };
    proof {
        let nodes = syntax_of(Grammar::Java, source@)->0;
        assert(nodes.len() == tree.nodes@.len());
        assert forall|i: int| 0 <= i < nodes.len() implies nodes[i].error == tree.nodes@[i].error by {
            assert(nodes[i] == tree.nodes@[i]@);
        }
        if java_listing_has_error(nodes) {
            let i = choose|i: int| 0 <= i < nodes.len() && #[trigger] nodes[i].error;
            assert(tree.nodes@[i].error);
        }
        if tree.spec_has_error() {
            let i = choose|i: int| 0 <= i < tree.nodes@.len() && #[trigger] tree.nodes@[i].error;
            assert(nodes[i].error);
        }
    }
    let ok = !tree.has_error();
    let n = tree.len();
    let ghost t = tree;
    let mut walker = Walker::new(tree, source.len(), 0);
    walker.out.parse_ok = ok;
    let ghost w0 = walker;
    if n > 0 {
        walker.java_walk(0);
        proof {
            assert(w0.parent_sym() is None);
            assert(!false);
        }
    }
    let ghost syms_walked = walker.out.symbols@;
    let ghost raw_refs = walker.out.refs@;
    proof {
        if n == 0 {
            lemma_refs_cover_empty(raw_refs, t, java_stop(), java_rows(t));
        }
        assert(refs_cover(raw_refs, 0, t, java_stop(), java_rows(t), 0));
    }
    let p = walker.finish();
    proof {
        let nodes = syntax_of(Grammar::Java, source@)->0;
        assert(t.built_from(source.spec_bytes(), nodes));
        assert(p.symbols@ == syms_walked);
        assert(resolved_cover(t, java_stop(), java_rows(t), p));
    }
    p
}

impl Walker {
    pub fn java_walk(&mut self, node: usize)
        requires
            old(self).inv(),
            old(self).valid(node as int),
        ensures
            final(self).inv(),
            final(self).extends(*old(self)),
            java_decl(old(self).tree, false, node as int) is Some ==> crate::analysis::rust::placed_decl(final(self).out.symbols@,
                old(self).out.symbols@.len() as int, old(self).tree, old(self).parent_sym(), node as int, java_decl(old(self).tree, false, node as int)),
            old(self).tree.kind_of(node as int) == "program"@ ==> java_kids_placed(final(self).out.symbols@,
                old(self).out.symbols@.len() as int, old(self).tree, old(self).parent_sym(), false, old(self).tree.kids(node as int)),
            old(self).tree.kind_of(node as int) == "program"@ ==> java_kids_members(final(self).out.symbols@,
                old(self).tree, old(self).parent_sym(), old(self).tree.kids(node as int)),
            java_is_body(old(self).tree.kind_of(node as int)) ==> java_kids_placed(final(self).out.symbols@,
                old(self).out.symbols@.len() as int, old(self).tree, old(self).parent_sym(), false, old(self).tree.kids(node as int)),
            java_decl(old(self).tree, false, node as int) is Some ==> java_bodies_placed(final(self).out.symbols@,
                old(self).tree, Some(old(self).out.symbols@.len() as usize), node as int),
            old(self).tree.kind_of(node as int) == "import_declaration"@ ==> Self::imports_all(old(self).out.imports@,
                final(self).out.imports@, old(self).tree.line_of(node as int), java_statement_imports(old(self).tree, node as int)),
            old(self).tree.kind_of(node as int) == "program"@ ==> java_kids_imports(final(self).out.imports@,
                old(self).out.imports@.len() as int, old(self).tree, old(self).tree.kids(node as int)),
            refs_cover(final(self).out.refs@, old(self).out.refs@.len() as int, old(self).tree, java_stop(), java_rows(old(self).tree), node as int),
        decreases old(self).tree.size() - node, 3nat,
    {
        proof {
            reveal_strlit("class");
            reveal_strlit("interface");
            reveal_strlit("enum");
            reveal_strlit("method");
            reveal_strlit("class_declaration");
            reveal_strlit("record_declaration");
            reveal_strlit("interface_declaration");
            reveal_strlit("enum_declaration");
            reveal_strlit("method_declaration");
            reveal_strlit("constructor_declaration");
            reveal_strlit("compact_constructor_declaration");
            reveal_strlit("program");
            assert("class"@.len() == 5);
            assert("interface"@.len() == 9);
            assert("enum"@.len() == 4);
            assert("method"@.len() == 6);
            assert("class_declaration"@.len() == 17);
            assert("record_declaration"@.len() == 18);
            assert("interface_declaration"@.len() == 21);
            assert("enum_declaration"@.len() == 16);
            assert("method_declaration"@.len() == 18);
            assert("constructor_declaration"@.len() == 23);
            assert("compact_constructor_declaration"@.len() == 31);
            assert("program"@.len() == 7);
            reveal_strlit("import_declaration");
            reveal_strlit("field_declaration");
            reveal_strlit("constant_declaration");
            reveal_strlit("local_variable_declaration");
            reveal_strlit("class_body");
            reveal_strlit("interface_body");
            assert("import_declaration"@.len() == 18);
            assert("import_declaration"@[0] != "record_declaration"@[0]);
            assert("import_declaration"@[0] != "method_declaration"@[0]);
            assert("field_declaration"@.len() == 17);
            assert("constant_declaration"@.len() == 20);
            assert("local_variable_declaration"@.len() == 26);
            assert("class_body"@.len() == 10);
            assert("interface_body"@.len() == 14);
            reveal_strlit("method_invocation");
            reveal_strlit("object_creation_expression");
            assert("method_invocation"@.len() == 17);
            assert("object_creation_expression"@.len() == 26);
            assert("method_invocation"@[0] != "class_declaration"@[0]);
            assert("method_invocation"@[0] != "field_declaration"@[0]);
            assert("object_creation_expression"@[0] != "local_variable_declaration"@[0]);
        }
        if self.tree.is(node, "class_body") || self.tree.is(node, "interface_body") {
            proof {
                reveal_strlit("class_body");
                reveal_strlit("interface_body");
                assert("class_body"@.len() == 10);
                assert("interface_body"@.len() == 14);
            }
            assert(java_decl(self.tree, false, node as int) is None);
            self.java_walk_children(node);
            proof {
                lemma_refs_cover_node(self.out.refs@, old(self).out.refs@.len() as int, self.tree, java_stop(), java_rows(self.tree), node as int);
            }
            return;
        }
        if self.tree.is(node, "program") {
            proof {
                reveal_strlit("class_body");
                reveal_strlit("interface_body");
                assert("class_body"@.len() == 10);
                assert("interface_body"@.len() == 14);
            }
            assert(java_decl(self.tree, false, node as int) is None);
            self.java_walk_children(node);
            proof {
                lemma_refs_cover_node(self.out.refs@, old(self).out.refs@.len() as int, self.tree, java_stop(), java_rows(self.tree), node as int);
            }
            return;
        }
        if self.tree.is(node, "class_declaration") || self.tree.is(node, "record_declaration") {
            self.java_enter_symbol(node, "class");
        } else if self.tree.is(node, "interface_declaration") {
            self.java_enter_symbol(node, "interface");
        } else if self.tree.is(node, "enum_declaration") {
            self.java_enter_symbol(node, "enum");
        } else if self.tree.is(node, "method_declaration") || self.tree.is(node, "constructor_declaration")
            || self.tree.is(node, "compact_constructor_declaration") {
            self.java_enter_symbol(node, "method");
        } else if self.tree.is(node, "field_declaration") || self.tree.is(node, "constant_declaration") {
            self.java_bind_declarators(node, "field");
            let ghost mid = self.out.refs@;
            self.java_walk_children(node);
            proof {
                lemma_kids_cover_mono(self.out.refs@, self.out.refs@, mid.len() as int, old(self).out.refs@.len() as int,
                    self.tree, java_stop(), java_rows(self.tree), node as int);
            }
        } else if self.tree.is(node, "local_variable_declaration") {
            self.java_bind_declarators(node, "local");
            let ghost mid = self.out.refs@;
            self.java_walk_children(node);
            proof {
                lemma_kids_cover_mono(self.out.refs@, self.out.refs@, mid.len() as int, old(self).out.refs@.len() as int,
                    self.tree, java_stop(), java_rows(self.tree), node as int);
            }
        } else if self.tree.is(node, "import_declaration") {
            self.java_collect_import(node);
        } else if self.tree.is(node, "method_invocation") {
            self.java_collect_call(node);
            let ghost mid = self.out.refs@;
            self.java_walk_children(node);
            proof {
                lemma_kids_cover_mono(self.out.refs@, self.out.refs@, mid.len() as int, old(self).out.refs@.len() as int,
                    self.tree, java_stop(), java_rows(self.tree), node as int);
                let k = old(self).out.refs@.len() as int;
                if java_rows(self.tree)(node as int) is Some {
                    assert(self.out.refs@[k] == mid[k]);
                    assert(row_at(self.out.refs@, k, k, java_rows(self.tree)(node as int)->0));
                }
            }
        } else if self.tree.is(node, "object_creation_expression") {
            self.java_collect_new(node);
            let ghost mid = self.out.refs@;
            self.java_walk_children(node);
            proof {
                lemma_kids_cover_mono(self.out.refs@, self.out.refs@, mid.len() as int, old(self).out.refs@.len() as int,
                    self.tree, java_stop(), java_rows(self.tree), node as int);
                let k = old(self).out.refs@.len() as int;
                if java_rows(self.tree)(node as int) is Some {
                    assert(self.out.refs@[k] == mid[k]);
                    assert(row_at(self.out.refs@, k, k, java_rows(self.tree)(node as int)->0));
                }
            }
        } else {
            self.java_walk_children(node);
        }
        proof {
            lemma_refs_cover_node(self.out.refs@, old(self).out.refs@.len() as int, self.tree, java_stop(), java_rows(self.tree), node as int);
        }
    }

    pub fn java_walk_children(&mut self, node: usize)
        requires
            old(self).inv(),
            old(self).valid(node as int),
        ensures
            final(self).inv(),
            final(self).extends(*old(self)),
            java_kids_placed(final(self).out.symbols@, old(self).out.symbols@.len() as int, old(self).tree, old(self).parent_sym(),
                false, old(self).tree.kids(node as int)),
            java_kids_bodies(final(self).out.symbols@, old(self).out.symbols@.len() as int, old(self).tree, old(self).parent_sym(),
                old(self).tree.kids(node as int)),
            java_kids_members(final(self).out.symbols@, old(self).tree, old(self).parent_sym(), old(self).tree.kids(node as int)),
            java_kids_imports(final(self).out.imports@, old(self).out.imports@.len() as int, old(self).tree, old(self).tree.kids(node as int)),
            kids_cover(final(self).out.refs@, old(self).out.refs@.len() as int, old(self).tree, java_stop(), java_rows(old(self).tree), node as int),
        decreases old(self).tree.size() - node, 1nat,
    {
        let kids = self.tree.children_of(node);
        let mut j: usize = 0;
        let ghost lo = old(self).out.symbols@.len() as int;
        let ghost t0 = old(self).tree;
        let ghost par = old(self).parent_sym();
        let ghost cx = false;
        assert(kids@.take(0) =~= Seq::<usize>::empty());
        while j < kids.len()
            invariant
                self.inv(),
                self.extends(*old(self)),
                0 <= j <= kids@.len(),
                forall|x: int| 0 <= x < kids@.len() ==> node < #[trigger] kids@[x] < self.tree.size(),
                kids@ == t0.kids(node as int),
                old(self).inv(),
                t0 == old(self).tree,
                lo == old(self).out.symbols@.len(),
                par == old(self).parent_sym(),
                cx == false,
                java_kids_placed(self.out.symbols@, lo, t0, par, cx, kids@.take(j as int)),
                java_kids_bodies(self.out.symbols@, lo, t0, par, kids@.take(j as int)),
                java_kids_members(self.out.symbols@, t0, par, kids@.take(j as int)),
                java_kids_imports(self.out.imports@, old(self).out.imports@.len() as int, t0, kids@.take(j as int)),
                forall|x: int| 0 <= x < j ==> #[trigger] refs_cover(self.out.refs@, old(self).out.refs@.len() as int, old(self).tree, java_stop(), java_rows(old(self).tree), kids@[x] as int),
            decreases kids@.len() - j,
        {
            let c = kids[j];
            let ghost before = *self;
            self.java_walk(c);
            proof {
                assert forall|x: int| 0 <= x < j + 1 implies #[trigger] refs_cover(self.out.refs@, old(self).out.refs@.len() as int,
                    old(self).tree, java_stop(), java_rows(old(self).tree), kids@[x] as int) by {
                    if x < j {
                        lemma_refs_cover_mono(before.out.refs@, self.out.refs@, old(self).out.refs@.len() as int,
                            old(self).out.refs@.len() as int, old(self).tree, java_stop(), java_rows(old(self).tree), kids@[x] as int);
                    } else {
                        lemma_refs_cover_mono(self.out.refs@, self.out.refs@, before.out.refs@.len() as int,
                            old(self).out.refs@.len() as int, old(self).tree, java_stop(), java_rows(old(self).tree), c as int);
                    }
                }
                if old(self).stack@.len() > 0 {
                    assert(before.out.symbols@[old(self).stack@.last() as int] == old(self).out.symbols@[old(self).stack@.last() as int]);
                }
                assert(false == cx);
                crate::analysis::rust::lemma_kids_placed_grows(before.out.symbols@, self.out.symbols@, lo, t0, par, kids@.take(j as int),
                    |n: int| java_decl(t0, cx, n));
                crate::analysis::rust::lemma_kids_placed_push(self.out.symbols@, lo, t0, par, kids@.take(j as int), c,
                    before.out.symbols@.len() as int, |n: int| java_decl(t0, cx, n));
                assert(kids@.take(j as int).push(c) =~= kids@.take(j + 1));
                lemma_java_kids_bodies_grows(before.out.symbols@, self.out.symbols@, lo, t0, par, kids@.take(j as int));
                lemma_java_kids_members_grows(before.out.symbols@, self.out.symbols@, t0, par, kids@.take(j as int));
                lemma_java_kids_imports_grows(before.out.imports@, self.out.imports@, old(self).out.imports@.len() as int, t0, kids@.take(j as int));
                let ks = kids@.take(j + 1);
                assert forall|x: int| 0 <= x < ks.len() && t0.kind_of(#[trigger] ks[x] as int) == "import_declaration"@ implies
                    exists|o: int| old(self).out.imports@.len() <= o && #[trigger] imports_at(self.out.imports@, o, t0.line_of(ks[x] as int),
                        java_statement_imports(t0, ks[x] as int)) by {
                    if x < j {
                        assert(ks[x] == kids@.take(j as int)[x]);
                    } else {
                        assert(ks[x] == c);
                        let o = before.out.imports@.len() as int;
                        let es = java_statement_imports(t0, c as int);
                        assert forall|k: int| 0 <= k < es.len() implies Walker::is_import(self.out.imports@[o + k], (#[trigger] es[k]).0,
                            es[k].1, es[k].2, es[k].3, t0.line_of(c as int)) by {
                        }
                        assert(imports_at(self.out.imports@, o, t0.line_of(c as int), es));
                    }
                }
                assert forall|x: int| 0 <= x < ks.len() && java_is_body(t0.kind_of(#[trigger] ks[x] as int)) implies
                    java_kids_placed(self.out.symbols@, lo, t0, par, false, t0.kids(ks[x] as int)) by {
                    if x < j {
                        assert(ks[x] == kids@.take(j as int)[x]);
                    } else {
                        assert(ks[x] == c);
                        crate::analysis::rust::lemma_kids_placed_lower(self.out.symbols@, before.out.symbols@.len() as int, lo, t0, par,
                            t0.kids(c as int), |n: int| java_decl(t0, false, n));
                    }
                }
                assert forall|x: int| 0 <= x < ks.len() && (#[trigger] java_decl(t0, false, ks[x] as int)) is Some implies
                    exists|k: int| #[trigger] crate::analysis::rust::placed_decl(self.out.symbols@, k, t0, par, ks[x] as int, java_decl(t0, false, ks[x] as int))
                        && java_bodies_placed(self.out.symbols@, t0, Some(k as usize), ks[x] as int) by {
                    if x < j {
                        assert(ks[x] == kids@.take(j as int)[x]);
                    } else {
                        assert(ks[x] == c);
                        let k = before.out.symbols@.len() as int;
                        assert(crate::analysis::rust::placed_decl(self.out.symbols@, k, t0, par, c as int, java_decl(t0, false, c as int)));
                    }
                }
            }
            j = j + 1;
        }
        assert(kids@.take(kids@.len() as int) =~= kids@);
    }

    /// Push a type or method, bind it (methods aside), open its scope, bind a
    /// method's parameters, walk the body, close up.
    pub fn java_enter_symbol(&mut self, node: usize, kind: &str)
        requires
            old(self).inv(),
            old(self).valid(node as int),
        ensures
            final(self).inv(),
            final(self).extends(*old(self)),
            old(self).spec_named(node as int) is Some ==> Self::recorded_at(final(self).out.symbols@, old(self).out.symbols@.len() as int,
                *old(self), node as int, old(self).spec_named(node as int)->0, kind@),
            old(self).spec_named(node as int) is Some ==> java_bodies_placed(final(self).out.symbols@, old(self).tree,
                Some(old(self).out.symbols@.len() as usize), node as int),
            kids_cover(final(self).out.refs@, old(self).out.refs@.len() as int, old(self).tree, java_stop(), java_rows(old(self).tree), node as int),
        decreases old(self).tree.size() - node, 2nat,
    {
        match self.java_push_symbol(node, kind) {
            Some(i) => {
                let ghost w0 = *self;
                let name = self.out.symbols[i].name.clone();
                let is_method = str_eq(kind, "method");
                let scope_kind = if is_method { "method" } else { "class" };
                if !is_method {
                    self.bind(name.as_str(), "symbol", Some(i), None, None);
                }
                self.stack.push(i);
                let ghost pushed_stack = self.stack@;
                let start = self.tree.start(node);
                let end = self.tree.end(node);
                self.sc.push(scope_kind, Some(i), start, end);
                let ghost pushed_sc = self.sc.stack@;
                assert(self.inv());
                if is_method {
                    self.java_bind_params(node);
                }
                let ghost w1 = *self;
                self.java_walk_children(node);
                proof {
                    lemma_kids_cover_mono(self.out.refs@, self.out.refs@, w1.out.refs@.len() as int, old(self).out.refs@.len() as int,
                        self.tree, java_stop(), java_rows(self.tree), node as int);
                    let t = w1.tree;
                    let syms = self.out.symbols@;
                    assert(w1.stack@.last() == i);
                    assert forall|x: int| 0 <= x < t.kids(node as int).len() && java_is_body(t.kind_of(#[trigger] t.kids(node as int)[x] as int)) implies
                        java_kids_placed(syms, 0, t, Some(i), false, t.kids(t.kids(node as int)[x] as int)) by {
                        crate::analysis::rust::lemma_kids_placed_lower(syms, w1.out.symbols@.len() as int, 0, t, Some(i),
                            t.kids(t.kids(node as int)[x] as int), |n: int| java_decl(t, false, n));
                    }
                }
                assert(self.sc.stack@ == pushed_sc);
                assert(self.stack@ == pushed_stack);
                self.sc.pop();
                self.stack.pop();
                assert(self.stack@ =~= old(self).stack@);
                assert(self.sc.stack@ =~= old(self).sc.stack@);
                assert(self.out.symbols@[i as int] == w0.out.symbols@[i as int]);
            },
            None => {
                let ghost mid = self.out.refs@;
                self.java_walk_children(node);
                proof {
                    lemma_kids_cover_mono(self.out.refs@, self.out.refs@, mid.len() as int, old(self).out.refs@.len() as int,
                        self.tree, java_stop(), java_rows(self.tree), node as int);
                }
            },
        }
    }

    /// What counts as one parameter of a Java method.
    pub open spec fn is_java_param(k: Seq<char>) -> bool {
        k == "formal_parameter"@ || k == "spread_parameter"@
    }

    pub open spec fn spec_java_param_count(&self, node: int) -> Option<i64> {
        match self.tree.field_of(node, "parameters"@) {
            Some(p) => Some(crate::syntax::sat_i64(
                self.tree.count_where(self.tree.named_kids(p as int), |k: Seq<char>| Self::is_java_param(k)) as int)),
            None => None,
        }
    }

    /// The name of the innermost open class, interface or enum of `stack`.
    pub open spec fn java_owner_of(syms: Seq<NewSymbol>, stack: Seq<usize>) -> Option<Seq<char>>
        decreases stack.len(),
    {
        if stack.len() == 0 {
            None
        } else {
            let s = syms[stack.last() as int];
            if s.kind@ == "class"@ || s.kind@ == "interface"@ || s.kind@ == "enum"@ {
                Some(s.name@)
            } else {
                Self::java_owner_of(syms, stack.drop_last())
            }
        }
    }

    /// The declaration's modifiers (its `modifiers` field, else its first
    /// `modifiers` child) hold a `public`.
    pub open spec fn spec_java_public(&self, node: int) -> bool {
        let mods = match self.tree.field_of(node, "modifiers"@) {
            Some(m) => Some(m),
            None => self.tree.kid_of_kind(node, "modifiers"@),
        };
        match mods {
            Some(m) => self.tree.kid_of_kind(m as int, "public"@) is Some,
            None => false,
        }
    }

    /// The name a formal parameter declares (directly or through its declarator).
    pub open spec fn java_param_name(&self, p: int) -> Seq<char> {
        let t = self.tree;
        match t.field_of(p, "name"@) {
            Some(n) => t.text_of(n as int),
            None => match t.field_of(p, "declarator"@) {
                Some(d) => match t.field_of(d as int, "name"@) {
                    Some(n) => t.text_of(n as int),
                    None => Seq::empty(),
                },
                None => Seq::empty(),
            },
        }
    }

    /// The parameter a node of a method's parameter list binds.
    pub open spec fn java_param_entry(&self, p: usize) -> Option<(Seq<char>, Seq<char>, Option<Seq<char>>)> {
        if Self::is_java_param(self.tree.kind_of(p as int)) && self.java_param_name(p as int).len() > 0 {
            Some((self.java_param_name(p as int), "param"@, self.spec_java_type_of(p as int)))
        } else {
            None
        }
    }

    pub open spec fn java_param_entries(&self, s: Seq<usize>) -> Seq<(Seq<char>, Seq<char>, Option<Seq<char>>)> {
        Self::collect_entries(s, |p: usize| self.java_param_entry(p))
    }

    /// The name a `declarator` child binds, as `kind`, with type `ty`.
    pub open spec fn java_decl_entry(&self, d: usize, kind: Seq<char>, ty: Seq<char>) -> Option<(Seq<char>, Seq<char>, Option<Seq<char>>)> {
        let t = self.tree;
        if t.has_field(d as int, "declarator"@) {
            match t.field_of(d as int, "name"@) {
                Some(n) if t.text_of(n as int).len() > 0 => Some((t.text_of(n as int), kind, Some(ty))),
                _ => None,
            }
        } else {
            None
        }
    }

    pub open spec fn java_decl_entries(&self, s: Seq<usize>, kind: Seq<char>, ty: Seq<char>) -> Seq<(Seq<char>, Seq<char>, Option<Seq<char>>)> {
        Self::collect_entries(s, |d: usize| self.java_decl_entry(d, kind, ty))
    }

    /// The simple type name in node `i`'s `type` field.
    pub open spec fn spec_java_type_of(&self, i: int) -> Option<Seq<char>> {
        java_type_in(self.tree, i)
    }

    /// Number of `formal_parameter` / `spread_parameter` nodes of a method.
    fn java_param_count(&self, node: usize) -> (r: Option<i64>)
        requires
            self.inv(),
            self.valid(node as int),
        ensures
            r == self.spec_java_param_count(node as int),
    {
        let params = match self.tree.field_child(node, "parameters") {
            Some(p) => p,
            None => { return None; },
        };
        let kids = self.tree.named_children(params);
        let ghost p = |k: Seq<char>| Self::is_java_param(k);
        let mut n: i64 = 0;
        let mut j: usize = 0;
        while j < kids.len()
            invariant
                self.inv(),
                0 <= j <= kids@.len(),
                0 <= n <= j,
                forall|x: int| 0 <= x < kids@.len() ==> #[trigger] kids@[x] < self.tree.size(),
                p == (|k: Seq<char>| Self::is_java_param(k)),
                n == crate::syntax::sat_i64(self.tree.count_where(kids@.take(j as int), p) as int),
            decreases kids@.len() - j,
        {
            let c = kids[j];
            assert(kids@.take(j + 1).drop_last() =~= kids@.take(j as int));
            if (self.tree.is(c, "formal_parameter") || self.tree.is(c, "spread_parameter")) && n < i64::MAX {
                n = n + 1;
            }
            j = j + 1;
        }
        assert(kids@.take(kids@.len() as int) =~= kids@);
        Some(n)
    }

    /// The name of the innermost open class, interface or enum.
    fn java_enclosing_type_name(&self) -> (r: Option<String>)
        requires
            self.inv(),
        ensures
            opt_chars(r) == Self::java_owner_of(self.out.symbols@, self.stack@),
    {
        let mut k = self.stack.len();
        assert(self.stack@.take(k as int) =~= self.stack@);
        while k > 0
            invariant
                self.inv(),
                k <= self.stack@.len(),
                Self::java_owner_of(self.out.symbols@, self.stack@) == Self::java_owner_of(self.out.symbols@, self.stack@.take(k as int)),
            decreases k,
        {
            assert(self.stack@.take(k as int).drop_last() =~= self.stack@.take(k - 1));
            k = k - 1;
            let s = &self.out.symbols[self.stack[k]];
            let sk = s.kind.as_str();
            if str_eq(sk, "class") || str_eq(sk, "interface") || str_eq(sk, "enum") {
                return Some(s.name.clone());
            }
        }
        None
    }

    /// The declaration's modifiers include `public`.
    fn java_is_public(&self, node: usize) -> (r: bool)
        requires
            self.inv(),
            self.valid(node as int),
        ensures
            r == self.spec_java_public(node as int),
    {
        let mods = match self.tree.field_child(node, "modifiers") {
            Some(m) => Some(m),
            None => self.tree.child_of_kind(node, "modifiers"),
        };
        match mods {
            Some(m) => self.tree.child_of_kind(m, "public").is_some(),
            None => false,
        }
    }

    /// Append the symbol a declaration introduces; a method records its
    /// parameter count and owning type. Top-level types count as exported.
    pub fn java_push_symbol(&mut self, node: usize, kind: &str) -> (r: Option<usize>)
        requires
            old(self).inv(),
            old(self).valid(node as int),
        ensures
            final(self).inv(),
            final(self).extends(*old(self)),
            final(self).sc == old(self).sc,
            r is None ==> final(self).out.symbols@ == old(self).out.symbols@,
            r matches Some(i) ==> {
                let s = final(self).out.symbols@[i as int];
                &&& i == old(self).out.symbols@.len()
                &&& final(self).out.symbols@ == old(self).out.symbols@.push(s)
                &&& s.kind@ == kind@
                &&& s.name@.len() > 0
                &&& s.parent_index == (if old(self).stack@.len() > 0 { Some(old(self).stack@.last()) } else { None })
                &&& s.start_line == old(self).tree.line_of(node as int)
                &&& s.end_line == old(self).tree.end_line_of(node as int)
                &&& s.start_byte == old(self).tree.start_of(node as int)
                &&& s.end_byte == old(self).tree.end_of(node as int)
                &&& Some(s.name@) == old(self).spec_named(node as int)
                &&& s.is_exported == (old(self).spec_java_public(node as int) || (kind@ != "method"@ && old(self).stack@.len() == 0))
                &&& s.signature is None
                &&& s.param_count == (if kind@ == "method"@ { old(self).spec_java_param_count(node as int) } else { None })
                &&& opt_chars(s.owner_type) == (if kind@ == "method"@ { Self::java_owner_of(old(self).out.symbols@, old(self).stack@) } else { None })
            },
            r is Some <==> old(self).spec_named(node as int) is Some,
    {
        let name = match self.named(node) {
            Some(n) => n,
            None => { return None; },
        };
        let is_method = str_eq(kind, "method");
        let param_count = if is_method { self.java_param_count(node) } else { None };
        let owner_type = if is_method { self.java_enclosing_type_name() } else { None };
        let exported = self.java_is_public(node) || (!is_method && self.stack.len() == 0);
        let parent_index = if self.stack.len() > 0 { Some(self.stack[self.stack.len() - 1]) } else { None };
        let sym = NewSymbol {
            name,
            kind: kind.to_string(),
            parent_index,
            is_exported: exported,
            start_line: self.tree.line(node),
            end_line: self.tree.end_line(node),
            start_byte: self.tree.start(node),
            end_byte: self.tree.end(node),
            signature: None,
            param_count,
            owner_type,
        };
        Some(self.add_symbol(sym))
    }

    /// The simple type name in node `i`'s `type` field.
    fn java_type_of(&self, i: usize) -> (r: Option<String>)
        requires
            self.inv(),
            self.valid(i as int),
        ensures
            opt_chars(r) == self.spec_java_type_of(i as int),
    {
        match self.tree.field_child(i, "type") {
            Some(t) => {
                let txt = self.text(t);
                Some(simple_type_name(txt.as_str()))
            },
            None => None,
        }
    }

    /// Bind each formal parameter of a method with its declared type.
    fn java_bind_params(&mut self, node: usize)
        requires
            old(self).inv(),
            old(self).valid(node as int),
        ensures
            final(self).inv(),
            final(self).extends(*old(self)),
            final(self).out == old(self).out,
            final(self).sc.scopes@ == old(self).sc.scopes@,
            Self::binds_all(old(self).sc.bindings@, final(self).sc.bindings@, old(self).sc.spec_current(),
                match old(self).tree.field_of(node as int, "parameters"@) {
                    Some(p) => old(self).java_param_entries(old(self).tree.named_kids(p as int)),
                    None => Seq::empty(),
                }),
    {
        let params = match self.tree.field_child(node, "parameters") {
            Some(p) => p,
            None => { return; },
        };
        let kids = self.tree.named_children(params);
        let mut j: usize = 0;
        while j < kids.len()
            invariant
                self.inv(),
                self.extends(*old(self)),
                self.out == old(self).out,
                self.sc.scopes@ == old(self).sc.scopes@,
                self.tree == old(self).tree,
                0 <= j <= kids@.len(),
                forall|x: int| 0 <= x < kids@.len() ==> #[trigger] kids@[x] < self.tree.size(),
                Self::binds_all(old(self).sc.bindings@, self.sc.bindings@, old(self).sc.spec_current(),
                    old(self).java_param_entries(kids@.take(j as int))),
            decreases kids@.len() - j,
        {
            let p = kids[j];
            assert(kids@.take(j + 1).drop_last() =~= kids@.take(j as int));
            let ghost es = old(self).java_param_entries(kids@.take(j as int));
            j = j + 1;
            if !(self.tree.is(p, "formal_parameter") || self.tree.is(p, "spread_parameter")) {
                continue;
            }
            let name = match self.tree.field_child(p, "name") {
                Some(n) => self.text(n),
                None => match self.tree.field_child(p, "declarator") {
                    Some(d) => match self.tree.field_child(d, "name") {
                        Some(n) => self.text(n),
                        None => String::new(),
                    },
                    None => String::new(),
                },
            };
            if name.as_str().is_empty() {
                continue;
            }
            let ty = self.java_type_of(p);
            let ghost mid = self.sc.bindings@;
            self.bind(name.as_str(), "param", None, None, ty);
            proof {
                Self::lemma_binds_push(old(self).sc.bindings@, mid, self.sc.bindings@, old(self).sc.spec_current(), es,
                    (name@, "param"@, opt_chars(ty)));
            }
        }
        assert(kids@.take(kids@.len() as int) =~= kids@);
    }

    /// `Type a, b;`: bind each declarator's name with the declared type, as a
    /// `field` in a class body or a `local` in a block.
    fn java_bind_declarators(&mut self, node: usize, kind: &str)
        requires
            old(self).inv(),
            old(self).valid(node as int),
        ensures
            final(self).inv(),
            final(self).extends(*old(self)),
            final(self).out == old(self).out,
            final(self).sc.scopes@ == old(self).sc.scopes@,
            Self::binds_all(old(self).sc.bindings@, final(self).sc.bindings@, old(self).sc.spec_current(),
                match old(self).spec_java_type_of(node as int) {
                    Some(ty) => old(self).java_decl_entries(old(self).tree.kids(node as int), kind@, ty),
                    None => Seq::empty(),
                }),
    {
        let ty = match self.java_type_of(node) {
            Some(t) => t,
            None => { return; },
        };
        let kids = self.tree.children_of(node);
        let mut j: usize = 0;
        while j < kids.len()
            invariant
                self.inv(),
                self.extends(*old(self)),
                self.out == old(self).out,
                self.sc.scopes@ == old(self).sc.scopes@,
                self.tree == old(self).tree,
                0 <= j <= kids@.len(),
                forall|x: int| 0 <= x < kids@.len() ==> #[trigger] kids@[x] < self.tree.size(),
                Self::binds_all(old(self).sc.bindings@, self.sc.bindings@, old(self).sc.spec_current(),
                    old(self).java_decl_entries(kids@.take(j as int), kind@, ty@)),
            decreases kids@.len() - j,
        {
            let d = kids[j];
            assert(kids@.take(j + 1).drop_last() =~= kids@.take(j as int));
            let ghost es = old(self).java_decl_entries(kids@.take(j as int), kind@, ty@);
            j = j + 1;
            if !self.tree.field_is(d, "declarator") {
                continue;
            }
            match self.tree.field_child(d, "name") {
                Some(n) => {
                    let name = self.text(n);
                    if !name.as_str().is_empty() {
                        let ghost mid = self.sc.bindings@;
                        let tc = ty.clone();
                        self.bind(name.as_str(), kind, None, None, Some(tc));
                        proof {
                            Self::lemma_binds_push(old(self).sc.bindings@, mid, self.sc.bindings@, old(self).sc.spec_current(), es,
                                (name@, kind@, Some(ty@)));
                        }
                    }
                },
                None => {},
            }
        }
        assert(kids@.take(kids@.len() as int) =~= kids@);
    }

    /// `import a.b.C;` binds `C`; `import a.b.*;` is recorded without a name.
    pub fn java_collect_import(&mut self, node: usize)
        requires
            old(self).inv(),
            old(self).valid(node as int),
        ensures
            final(self).inv(),
            final(self).extends(*old(self)),
            final(self).out.symbols@ == old(self).out.symbols@,
            final(self).out.refs@ == old(self).out.refs@,
            final(self).sc.scopes@ == old(self).sc.scopes@,
            ({
                let t = old(self).tree;
                let path_node = match t.kid_of_kind(node as int, "scoped_identifier"@) {
                    Some(p) => Some(p),
                    None => t.kid_of_kind(node as int, "identifier"@),
                };
                let line = t.line_of(node as int);
                match path_node {
                    Some(p) if t.text_of(p as int).len() > 0 => {
                        let path = t.text_of(p as int);
                        let m = final(self).out.imports@.last();
                        &&& final(self).out.imports@ == old(self).out.imports@.push(m)
                        &&& if t.kid_of_kind(node as int, "asterisk"@) is Some {
                            &&& Walker::is_import(m, path, None, None, false, line)
                            &&& final(self).sc.bindings@ == old(self).sc.bindings@
                        } else {
                            let last = after_last(path, "."@);
                            &&& Walker::is_import(m, path, Some(last), None, false, line)
                            &&& Walker::bound(old(self).sc.bindings@, final(self).sc.bindings@, old(self).sc.spec_current(),
                                last, "import"@, None, Some(old(self).out.imports@.len() as usize), None)
                        }
                    },
                    _ => {
                        &&& final(self).out.imports@ == old(self).out.imports@
                        &&& final(self).sc.bindings@ == old(self).sc.bindings@
                    },
                }
            }),
    {
        let line = self.tree.line(node);
        let is_wildcard = self.tree.child_of_kind(node, "asterisk").is_some();
        let path_node = match self.tree.child_of_kind(node, "scoped_identifier") {
            Some(p) => p,
            None => match self.tree.child_of_kind(node, "identifier") {
                Some(p) => p,
                None => { return; },
            },
        };
        let path = self.text(path_node);
        if path.as_str().is_empty() {
            return;
        }
        if is_wildcard {
            self.add_import(NewImport {
                raw_specifier: path,
                imported_name: None,
                alias: None,
                is_relative: false,
                start_line: line,
            });
            return;
        }
        let pc = chars_of(path.as_str());
        let dot = chars_of(".");
        let last = string_of(after_last_exec(pc.as_slice(), dot.as_slice()).as_slice());
        let import_index = self.add_import(NewImport {
            raw_specifier: path,
            imported_name: Some(last.clone()),
            alias: None,
            is_relative: false,
            start_line: line,
        });
        self.bind(last.as_str(), "import", None, Some(import_index), None);
    }

    fn java_arg_count(&self, call: usize) -> (r: Option<i64>)
        requires
            self.inv(),
            self.valid(call as int),
        ensures
            r == self.spec_arg_count(call as int),
    {
        match self.tree.field_child(call, "arguments") {
            Some(a) => {
                let kids = self.tree.named_children(a);
                Some(crate::syntax::to_i64(kids.len()))
            },
            None => None,
        }
    }

    fn java_push_ref(&mut self, name: String, receiver: Option<String>, receiver_kind: &str, node: usize)
        requires
            old(self).inv(),
            old(self).valid(node as int),
        ensures
            final(self).inv(),
            final(self).extends(*old(self)),
            final(self).out.symbols@ == old(self).out.symbols@,
            final(self).out.imports@ == old(self).out.imports@,
            final(self).sc == old(self).sc,
            final(self).out.string_literals@ == old(self).out.string_literals@,
            final(self).out.refs@ == old(self).out.refs@.push(final(self).out.refs@.last()),
            Self::is_call_ref(final(self).out.refs@.last(), name@, opt_chars(receiver), receiver_kind@,
                old(self).spec_arg_count(node as int), old(self).tree.line_of(node as int), old(self).tree.start_of(node as int)),
    {
        let arg_count = self.java_arg_count(node);
        let r = NewRef {
            name,
            ref_kind: "call".to_string(),
            receiver,
            start_line: self.tree.line(node),
            start_byte: self.tree.start(node),
            name_start_byte: None,
            arg_count,
            receiver_kind: receiver_kind.to_string(),
            local_only: false,
            resolved_local_symbol_index: None,
        };
        self.add_ref(r);
    }

    /// `obj.m(..)` / `m(..)`: a call of `m`, with `obj` as its receiver.
    pub fn java_collect_call(&mut self, node: usize)
        requires
            old(self).inv(),
            old(self).valid(node as int),
        ensures
            final(self).inv(),
            final(self).extends(*old(self)),
            final(self).out.symbols@ == old(self).out.symbols@,
            final(self).out.imports@ == old(self).out.imports@,
            final(self).sc == old(self).sc,
            ({
                let t = old(self).tree;
                match t.field_of(node as int, "name"@) {
                    Some(n) if t.text_of(n as int).len() > 0 => {
                        let recv = match t.field_of(node as int, "object"@) {
                            Some(o) => Some(t.text_of(o as int)),
                            None => None,
                        };
                        &&& final(self).out.refs@ == old(self).out.refs@.push(final(self).out.refs@.last())
                        &&& Self::is_call_ref(final(self).out.refs@.last(), t.text_of(n as int), recv,
                            java_receiver_kind(recv), old(self).spec_arg_count(node as int), t.line_of(node as int), t.start_of(node as int))
                    },
                    _ => final(self).out.refs@ == old(self).out.refs@,
                }
            }),
    {
        let name = match self.tree.field_child(node, "name") {
            Some(n) => self.text(n),
            None => { return; },
        };
        if name.as_str().is_empty() {
            return;
        }
        let receiver = match self.tree.field_child(node, "object") {
            Some(o) => Some(self.text(o)),
            None => None,
        };
        let rk = receiver_kind(&receiver);
        self.java_push_ref(name, receiver, rk, node);
    }

    /// `new T(..)`: a call of `T`'s constructor.
    pub fn java_collect_new(&mut self, node: usize)
        requires
            old(self).inv(),
            old(self).valid(node as int),
        ensures
            final(self).inv(),
            final(self).extends(*old(self)),
            final(self).out.symbols@ == old(self).out.symbols@,
            final(self).out.imports@ == old(self).out.imports@,
            final(self).sc == old(self).sc,
            match old(self).spec_java_type_of(node as int) {
                Some(t) if t.len() > 0 => {
                    &&& final(self).out.refs@ == old(self).out.refs@.push(final(self).out.refs@.last())
                    &&& Self::is_call_ref(final(self).out.refs@.last(), t, None, "none"@,
                        old(self).spec_arg_count(node as int), old(self).tree.line_of(node as int), old(self).tree.start_of(node as int))
                },
                _ => final(self).out.refs@ == old(self).out.refs@,
            },
    {
        let name = match self.java_type_of(node) {
            Some(t) => t,
            None => { return; },
        };
        if name.as_str().is_empty() {
            return;
        }
        self.java_push_ref(name, None, "none", node);
    }
}

} // verus!

//! Go extraction over a tree-sitter syntax tree.

use vstd::prelude::*;
use vstd::string::StringSliceAdditionalSpecFns;
use crate::analysis::rust::Walker;
use crate::analysis::rust::helpers::{after_last_exec, strip_all_start, strip_all_start_exec};
use crate::analysis::ParsedFile;
use crate::analysis::reach::{CallParts, arg_count_in, covers_via, seq_covered, row_at, resolved_via, lemma_covers_via_mono,
    lemma_covers_via_node, lemma_seq_covered_mono, lemma_covers_via_empty};
use crate::cache::models::{NewImport, NewRef, NewSymbol};
use crate::syntax::{Grammar, parse_syntax, syntax_of, RawNodeView, SyntaxTree};
use crate::text::{after_last, chars_of, opt_chars, slice_chars, starts_upper, starts_upper_exec, str_eq, str_trim, string_of, trim};

verus! {

/// Some node of a preorder listing is an error or a missing node.
pub open spec fn go_listing_has_error(nodes: Seq<RawNodeView>) -> bool {
    exists|i: int| 0 <= i < nodes.len() && #[trigger] nodes[i].error
}

/// `s` without every trailing `c` (`trim_end_matches(c)`).
pub open spec fn strip_all_end(s: Seq<char>, c: char) -> Seq<char>
    decreases s.len(),
{
    if s.len() > 0 && s.last() == c { strip_all_end(s.drop_last(), c) } else { s }
}

/// `s` without `c` at either end (`trim_matches(c)`).
pub open spec fn strip_both(s: Seq<char>, c: char) -> Seq<char> {
    strip_all_end(strip_all_start(s, c), c)
}

/// An import path literal without its `"` or `` ` `` quotes.
pub open spec fn go_import_path(raw: Seq<char>) -> Seq<char> {
    strip_both(strip_both(raw, '"'), '`')
}

fn strip_all_end_len(s: &[char], c: char) -> (r: usize)
    ensures
        r <= s@.len(),
        s@.subrange(0, r as int) == strip_all_end(s@, c),
{
    let mut k: usize = s.len();
    assert(s@.subrange(0, s@.len() as int) =~= s@);
    while k > 0 && s[k - 1] == c
        invariant
            k <= s@.len(),
            strip_all_end(s@, c) == strip_all_end(s@.subrange(0, k as int), c),
        decreases k,
    {
        assert(s@.subrange(0, k as int).drop_last() =~= s@.subrange(0, k - 1));
        k = k - 1;
    }
    k
}

fn strip_both_exec(s: &[char], c: char) -> (r: Vec<char>)
    ensures
        r@ == strip_both(s@, c),
{
    let a = strip_all_start_exec(s, c);
    let t = slice_chars(s, a, s.len());
    let e = strip_all_end_len(t.as_slice(), c);
    slice_chars(t.as_slice(), 0, e)
}

/// The path of an import spec, its quotes dropped.
pub fn import_path(raw: &str) -> (r: String)
    ensures
        r@ == go_import_path(raw@),
{
    let c = chars_of(raw);
    let a = strip_both_exec(c.as_slice(), '"');
    let b = strip_both_exec(a.as_slice(), '`');
    string_of(b.as_slice())
}

/// The symbol node `n` of `t` declares (name, kind), when it declares one:
/// A function or method with a name. `in_type`: the node sits directly in a type.
pub open spec fn go_decl(t: SyntaxTree, in_type: bool, n: int) -> Option<(Seq<char>, Seq<char>)> {
        let k = t.kind_of(n);
        if k == "function_declaration"@ {
            match t.field_of(n, "name"@) {
                Some(nm) => Some((t.text_of(nm as int), "function"@)),
                None => None,
            }
        } else if k == "method_declaration"@ {
            match t.field_of(n, "name"@) {
                Some(nm) => Some((t.text_of(nm as int), "method"@)),
                None => None,
            }
        } else {
            None
        }
}

/// Every node of `kids` that declares a symbol has one in `syms` from `lo` on.
pub open spec fn go_kids_placed(syms: Seq<NewSymbol>, lo: int, t: SyntaxTree, parent: Option<usize>, in_type: bool, kids: Seq<usize>) -> bool {
    crate::analysis::rust::kids_placed(syms, lo, t, parent, kids, |n: int| go_decl(t, in_type, n))
}

/// The `import_spec` nodes among `s`.
pub open spec fn go_specs_in(t: SyntaxTree, s: Seq<usize>) -> Seq<usize>
    decreases s.len(),
{
    if s.len() == 0 {
        Seq::empty()
    } else if t.kind_of(s.last() as int) == "import_spec"@ {
        go_specs_in(t, s.drop_last()).push(s.last())
    } else {
        go_specs_in(t, s.drop_last())
    }
}

/// The import specs among `s`, directly or in an import spec list, in order.
pub open spec fn go_import_specs_in(t: SyntaxTree, s: Seq<usize>) -> Seq<usize>
    decreases s.len(),
{
    if s.len() == 0 {
        Seq::empty()
    } else {
        let rest = go_import_specs_in(t, s.drop_last());
        let c = s.last() as int;
        if t.kind_of(c) == "import_spec"@ {
            rest.push(s.last())
        } else if t.kind_of(c) == "import_spec_list"@ {
            rest + go_specs_in(t, t.kids(c))
        } else {
            rest
        }
    }
}

/// The path import spec `sp` names, quotes dropped (empty when it has none).
pub open spec fn go_spec_path_in(t: SyntaxTree, sp: int) -> Seq<char> {
    match t.field_of(sp, "path"@) {
        Some(p) => go_import_path(t.text_of(p as int)),
        None => Seq::empty(),
    }
}

/// The alias import spec `sp` gives, if any.
pub open spec fn go_spec_alias_in(t: SyntaxTree, sp: int) -> Option<Seq<char>> {
    match t.field_of(sp, "name"@) {
        Some(n) => Some(t.text_of(n as int)),
        None => None,
    }
}

/// The imports the specs `ss` record (path, name, alias, relative, line).
pub open spec fn go_import_recs_in(t: SyntaxTree, ss: Seq<usize>) -> Seq<(Seq<char>, Option<Seq<char>>, Option<Seq<char>>, bool, i64)>
    decreases ss.len(),
{
    if ss.len() == 0 {
        Seq::empty()
    } else {
        let rest = go_import_recs_in(t, ss.drop_last());
        let sp = ss.last() as int;
        let raw = go_spec_path_in(t, sp);
        if raw.len() > 0 {
            rest.push((raw, Some(after_last(raw, "/"@)), go_spec_alias_in(t, sp), raw[0] == '.', t.line_of(sp)))
        } else {
            rest
        }
    }
}

/// The import rows an `import` declaration yields: one per spec with a path.
pub open spec fn go_decl_imports(t: SyntaxTree, node: int) -> Seq<(Seq<char>, Option<Seq<char>>, Option<Seq<char>>, bool, i64)> {
    go_import_recs_in(t, go_import_specs_in(t, t.kids(node)))
}

/// `imports` holds the rows `recs`, in order, from index `o` on.
pub open spec fn go_imports_at(imports: Seq<NewImport>, o: int,
    recs: Seq<(Seq<char>, Option<Seq<char>>, Option<Seq<char>>, bool, i64)>) -> bool {
    &&& 0 <= o && o + recs.len() <= imports.len()
    &&& forall|k: int| 0 <= k < recs.len() ==> Walker::is_import(imports[o + k], (#[trigger] recs[k]).0, recs[k].1, recs[k].2, recs[k].3, recs[k].4)
}

/// Every `import` declaration among `kids` has its rows in `imports`, from `lo` on.
pub open spec fn go_kids_imports(imports: Seq<NewImport>, lo: int, t: SyntaxTree, kids: Seq<usize>) -> bool {
    forall|x: int| 0 <= x < kids.len() && t.kind_of(#[trigger] kids[x] as int) == "import_declaration"@ ==>
        exists|o: int| lo <= o && #[trigger] go_imports_at(imports, o, go_decl_imports(t, kids[x] as int))
}

pub proof fn lemma_go_kids_imports_grows(a: Seq<NewImport>, b: Seq<NewImport>, lo: int, t: SyntaxTree, kids: Seq<usize>)
    requires
        go_kids_imports(a, lo, t, kids),
        crate::analysis::grows(a, b),
    ensures
        go_kids_imports(b, lo, t, kids),
{
    assert forall|x: int| 0 <= x < kids.len() && t.kind_of(#[trigger] kids[x] as int) == "import_declaration"@ implies
        exists|o: int| lo <= o && #[trigger] go_imports_at(b, o, go_decl_imports(t, kids[x] as int)) by {
        let es = go_decl_imports(t, kids[x] as int);
        let o = choose|o: int| lo <= o && #[trigger] go_imports_at(a, o, es);
        assert forall|k: int| 0 <= k < es.len() implies Walker::is_import(b[o + k], (#[trigger] es[k]).0, es[k].1, es[k].2, es[k].3, es[k].4) by {
            assert(b[o + k] == a[o + k]);
        }
        assert(go_imports_at(b, o, es));
    }
}

/// The callee's name node and receiver text of call node `node`: `f(..)`
/// names `f`, `pkg.f(..)` / `x.m(..)` name `f` / `m` with that receiver.
pub open spec fn go_callee_in(t: SyntaxTree, node: int) -> Option<(usize, Option<Seq<char>>)> {
    match t.field_of(node, "function"@) {
        Some(f) => if t.kind_of(f as int) == "identifier"@ {
            Some((f, None))
        } else if t.kind_of(f as int) == "selector_expression"@ {
            match t.field_of(f as int, "field"@) {
                Some(n) => Some((n, match t.field_of(f as int, "operand"@) {
                    Some(o) => Some(t.text_of(o as int)),
                    None => None,
                })),
                None => None,
            }
        } else {
            None
        },
        None => None,
    }
}

/// The nodes a walk of a function or method declaration moves on to: the
/// statements of its body when it has a name, else its children.
pub open spec fn go_callable_next(t: SyntaxTree, i: int) -> Seq<usize> {
    match t.field_of(i, "name"@) {
        Some(_) => match t.field_of(i, "body"@) {
            Some(b) => t.kids(b as int),
            None => Seq::empty(),
        },
        None => t.kids(i),
    }
}

/// The nodes a Go walk moves on to from node `i`: none for the package
/// clause, imports and type declarations (read whole), the body's
/// statements for a function or method, the children otherwise.
pub open spec fn go_next(t: SyntaxTree) -> spec_fn(int) -> Seq<usize> {
    |i: int| {
        let k = t.kind_of(i);
        if k == "package_clause"@ || k == "import_declaration"@ || k == "type_declaration"@ {
            Seq::empty()
        } else if k == "function_declaration"@ || k == "method_declaration"@ {
            go_callable_next(t, i)
        } else {
            t.kids(i)
        }
    }
}

/// The `call` reference a call expression yields when its callee has a name.
pub open spec fn go_node_row(t: SyntaxTree, n: int) -> Option<CallParts> {
    if t.kind_of(n) == "call_expression"@ {
        match go_callee_in(t, n) {
            Some((nn, recv)) if t.text_of(nn as int).len() > 0 => Some((t.text_of(nn as int), recv,
                if recv is Some { "value"@ } else { "none"@ }, arg_count_in(t, n), t.line_of(n), t.start_of(n),
                Some(t.start_of(nn as int)))),
            _ => None,
        }
    } else {
        None
    }
}

/// The `call` reference each node of `t` yields, as [`go_node_row`] gives it.
pub open spec fn go_rows(t: SyntaxTree) -> spec_fn(int) -> Option<CallParts> {
    |n: int| go_node_row(t, n)
}

/// What parsing `source` gives: `p.parse_ok` tells whether the grammar
/// reported errors, every declaration at the top of the file has its symbol,
/// every top-level `import` declaration has its import rows, and every call
/// the walk reaches has its reference.
pub open spec fn go_parsed(source: Seq<char>, p: ParsedFile) -> bool {
    match syntax_of(Grammar::Go, source) {
        None => !p.parse_ok && p.symbols@.len() == 0 && p.refs@.len() == 0,
        Some(nodes) => {
            &&& p.parse_ok == !go_listing_has_error(nodes)
            &&& exists|t: SyntaxTree| #[trigger] t.built_from(vstd::utf8::encode_utf8(source), nodes)
                && (t.size() > 0 && t.kind_of(0) == "source_file"@ ==> go_kids_placed(p.symbols@, 0, t, None, false, t.kids(0))
                    && go_kids_imports(p.imports@, 0, t, t.kids(0)))
                && resolved_via(t, go_next(t), go_rows(t), p)
        },
    }
}

/// Parse Go `source` into symbols (functions, methods, types and interface
/// methods), imports, calls, scopes and bindings.
pub fn parse(source: &str) -> (p: ParsedFile)
    ensures
        p.wf(),
        go_parsed(source@, p),
{
    let tree = match parse_syntax(Grammar::Go, source) {
        Some(t) => t,
        None => {
            return ParsedFile::empty(false);
        },
    };
    proof {
        let nodes = syntax_of(Grammar::Go, source@)->0;
        assert(nodes.len() == tree.nodes@.len());
        assert forall|i: int| 0 <= i < nodes.len() implies nodes[i].error == tree.nodes@[i].error by {
            assert(nodes[i] == tree.nodes@[i]@);
        }
        if go_listing_has_error(nodes) {
            let i = choose|i: int| 0 <= i < nodes.len() && #[trigger] nodes[i].error;
            assert(tree.nodes@[i].error);
        }
        if tree.spec_has_error() {
            let i = choose|i: int| 0 <= i < tree.nodes@.len() && #[trigger] tree.nodes@[i].error;
            assert(nodes[i].error);
        }
    }
    let ok = !tree.has_error();
    let n = tree.len();
    let ghost t = tree;
    let mut walker = Walker::new(tree, source.len(), 0);
    walker.out.parse_ok = ok;
    let ghost w0 = walker;
    if n > 0 {
        walker.go_walk(0);
        proof {
            assert(w0.parent_sym() is None);
            assert(!false);
        }
    }
    let ghost syms_walked = walker.out.symbols@;
    let ghost imports_walked = walker.out.imports@;
    let ghost raw_refs = walker.out.refs@;
    proof {
        if n == 0 {
            lemma_covers_via_empty(raw_refs, t, go_next(t), go_rows(t));
        }
        assert(covers_via(raw_refs, 0, t, go_next(t), go_rows(t), 0));
    }
    let p = walker.finish();
    proof {
        let nodes = syntax_of(Grammar::Go, source@)->0;
        assert(t.built_from(source.spec_bytes(), nodes));
        assert(p.symbols@ == syms_walked);
        assert(p.imports@ == imports_walked);
        assert(resolved_via(t, go_next(t), go_rows(t), p));
    }
    p
}

impl Walker {
    pub fn go_walk(&mut self, node: usize)
        requires
            old(self).inv(),
            old(self).valid(node as int),
        ensures
            final(self).inv(),
            final(self).extends(*old(self)),
            go_decl(old(self).tree, false, node as int) is Some ==> crate::analysis::rust::placed_decl(final(self).out.symbols@,
                old(self).out.symbols@.len() as int, old(self).tree, old(self).parent_sym(), node as int, go_decl(old(self).tree, false, node as int)),
            old(self).tree.kind_of(node as int) == "source_file"@ ==> go_kids_placed(final(self).out.symbols@,
                old(self).out.symbols@.len() as int, old(self).tree, old(self).parent_sym(), false, old(self).tree.kids(node as int)),
            covers_via(final(self).out.refs@, old(self).out.refs@.len() as int, old(self).tree, go_next(old(self).tree),
                go_rows(old(self).tree), node as int),
            old(self).tree.kind_of(node as int) == "import_declaration"@ ==> Self::imports_listed(old(self).out.imports@,
                final(self).out.imports@, go_decl_imports(old(self).tree, node as int)),
            old(self).tree.kind_of(node as int) == "source_file"@ ==> go_kids_imports(final(self).out.imports@,
                old(self).out.imports@.len() as int, old(self).tree, old(self).tree.kids(node as int)),
        decreases old(self).tree.size() - node, 4nat,
    {
        proof {
            reveal_strlit("function");
            reveal_strlit("method");
            reveal_strlit("function_declaration");
            reveal_strlit("method_declaration");
            reveal_strlit("package_clause");
            reveal_strlit("import_declaration");
            reveal_strlit("source_file");
            assert("function"@.len() == 8);
            assert("method"@.len() == 6);
            assert("function_declaration"@.len() == 20);
            assert("method_declaration"@.len() == 18);
            assert("package_clause"@.len() == 14);
            assert("import_declaration"@.len() == 18);
            assert("import_declaration"@[0] != "method_declaration"@[0]);
            assert("source_file"@.len() == 11);
            reveal_strlit("call_expression");
            reveal_strlit("type_declaration");
            reveal_strlit("var_declaration");
            reveal_strlit("const_declaration");
            reveal_strlit("short_var_declaration");
            assert("call_expression"@.len() == 15);
            assert("type_declaration"@.len() == 16);
            assert("var_declaration"@.len() == 15);
            assert("const_declaration"@.len() == 17);
            assert("short_var_declaration"@.len() == 21);
            assert("call_expression"@[0] != "var_declaration"@[0]);
        }
        if self.tree.is(node, "source_file") {
            assert(go_decl(self.tree, false, node as int) is None);
            self.go_walk_children(node);
            proof {
                lemma_covers_via_node(self.out.refs@, old(self).out.refs@.len() as int, self.tree, go_next(self.tree), go_rows(self.tree), node as int);
            }
            return;
        }
        if self.tree.is(node, "package_clause") {
            // the package name takes part in nothing the file records
        } else if self.tree.is(node, "import_declaration") {
            self.go_collect_imports(node);
        } else if self.tree.is(node, "function_declaration") {
            self.go_enter_function(node);
        } else if self.tree.is(node, "method_declaration") {
            self.go_enter_method(node);
        } else if self.tree.is(node, "type_declaration") {
            self.go_collect_type_declaration(node);
        } else if self.tree.is(node, "var_declaration") || self.tree.is(node, "const_declaration") {
            self.go_collect_vars(node);
            let ghost mid = self.out.refs@;
            self.go_walk_children(node);
            proof {
                lemma_seq_covered_mono(self.out.refs@, self.out.refs@, mid.len() as int, old(self).out.refs@.len() as int,
                    self.tree, go_next(self.tree), go_rows(self.tree), self.tree.kids(node as int));
            }
        } else if self.tree.is(node, "short_var_declaration") {
            self.go_collect_short_var(node);
            let ghost mid = self.out.refs@;
            self.go_walk_children(node);
            proof {
                lemma_seq_covered_mono(self.out.refs@, self.out.refs@, mid.len() as int, old(self).out.refs@.len() as int,
                    self.tree, go_next(self.tree), go_rows(self.tree), self.tree.kids(node as int));
            }
        } else if self.tree.is(node, "call_expression") {
            self.go_collect_call(node);
            let ghost mid = self.out.refs@;
            self.go_walk_children(node);
            proof {
                lemma_seq_covered_mono(self.out.refs@, self.out.refs@, mid.len() as int, old(self).out.refs@.len() as int,
                    self.tree, go_next(self.tree), go_rows(self.tree), self.tree.kids(node as int));
                let k = old(self).out.refs@.len() as int;
                if go_rows(self.tree)(node as int) is Some {
                    assert(self.out.refs@[k] == mid[k]);
                    assert(row_at(self.out.refs@, k, k, go_rows(self.tree)(node as int)->0));
                }
            }
        } else {
            self.go_walk_children(node);
        }
        proof {
            lemma_covers_via_node(self.out.refs@, old(self).out.refs@.len() as int, self.tree, go_next(self.tree), go_rows(self.tree), node as int);
        }
    }

    pub fn go_walk_children(&mut self, node: usize)
        requires
            old(self).inv(),
            old(self).valid(node as int),
        ensures
            final(self).inv(),
            final(self).extends(*old(self)),
            go_kids_placed(final(self).out.symbols@, old(self).out.symbols@.len() as int, old(self).tree, old(self).parent_sym(),
                false, old(self).tree.kids(node as int)),
            seq_covered(final(self).out.refs@, old(self).out.refs@.len() as int, old(self).tree, go_next(old(self).tree),
                go_rows(old(self).tree), old(self).tree.kids(node as int)),
            go_kids_imports(final(self).out.imports@, old(self).out.imports@.len() as int, old(self).tree, old(self).tree.kids(node as int)),
        decreases old(self).tree.size() - node, 1nat,
    {
        let kids = self.tree.children_of(node);
        let mut j: usize = 0;
        let ghost lo = old(self).out.symbols@.len() as int;
        let ghost t0 = old(self).tree;
        let ghost par = old(self).parent_sym();
        let ghost cx = false;
        assert(kids@.take(0) =~= Seq::<usize>::empty());
        while j < kids.len()
            invariant
                self.inv(),
                self.extends(*old(self)),
                0 <= j <= kids@.len(),
                forall|x: int| 0 <= x < kids@.len() ==> node < #[trigger] kids@[x] < self.tree.size(),
                kids@ == t0.kids(node as int),
                old(self).inv(),
                t0 == old(self).tree,
                lo == old(self).out.symbols@.len(),
                par == old(self).parent_sym(),
                cx == false,
                go_kids_placed(self.out.symbols@, lo, t0, par, cx, kids@.take(j as int)),
                forall|x: int| 0 <= x < j ==> #[trigger] covers_via(self.out.refs@, old(self).out.refs@.len() as int, t0, go_next(t0),
                    go_rows(t0), kids@[x] as int),
                go_kids_imports(self.out.imports@, old(self).out.imports@.len() as int, t0, kids@.take(j as int)),
            decreases kids@.len() - j,
        {
            let c = kids[j];
            let ghost before = *self;
            self.go_walk(c);
            proof {
                assert forall|x: int| 0 <= x < j + 1 implies #[trigger] covers_via(self.out.refs@, old(self).out.refs@.len() as int,
                    t0, go_next(t0), go_rows(t0), kids@[x] as int) by {
                    if x < j {
                        lemma_covers_via_mono(before.out.refs@, self.out.refs@, old(self).out.refs@.len() as int,
                            old(self).out.refs@.len() as int, t0, go_next(t0), go_rows(t0), kids@[x] as int);
                    } else {
                        lemma_covers_via_mono(self.out.refs@, self.out.refs@, before.out.refs@.len() as int,
                            old(self).out.refs@.len() as int, t0, go_next(t0), go_rows(t0), c as int);
                    }
                }
                lemma_go_kids_imports_grows(before.out.imports@, self.out.imports@, old(self).out.imports@.len() as int, t0, kids@.take(j as int));
                let ks = kids@.take(j + 1);
                assert forall|x: int| 0 <= x < ks.len() && t0.kind_of(#[trigger] ks[x] as int) == "import_declaration"@ implies
                    exists|o: int| old(self).out.imports@.len() <= o && #[trigger] go_imports_at(self.out.imports@, o, go_decl_imports(t0, ks[x] as int)) by {
                    if x < j {
                        assert(ks[x] == kids@.take(j as int)[x]);
                    } else {
                        assert(ks[x] == c);
                        let o = before.out.imports@.len() as int;
                        let es = go_decl_imports(t0, c as int);
                        assert forall|k: int| 0 <= k < es.len() implies Walker::is_import(self.out.imports@[o + k], (#[trigger] es[k]).0,
                            es[k].1, es[k].2, es[k].3, es[k].4) by {
                        }
                        assert(go_imports_at(self.out.imports@, o, es));
                    }
                }
                if old(self).stack@.len() > 0 {
                    assert(before.out.symbols@[old(self).stack@.last() as int] == old(self).out.symbols@[old(self).stack@.last() as int]);
                }
                assert(false == cx);
                crate::analysis::rust::lemma_kids_placed_grows(before.out.symbols@, self.out.symbols@, lo, t0, par, kids@.take(j as int),
                    |n: int| go_decl(t0, cx, n));
                crate::analysis::rust::lemma_kids_placed_push(self.out.symbols@, lo, t0, par, kids@.take(j as int), c,
                    before.out.symbols@.len() as int, |n: int| go_decl(t0, cx, n));
                assert(kids@.take(j as int).push(c) =~= kids@.take(j + 1));
            }
            j = j + 1;
        }
        assert(kids@.take(kids@.len() as int) =~= kids@);
    }

    /// Each `import_spec`, directly or in a parenthesised list.
    fn go_collect_imports(&mut self, node: usize)
        requires
            old(self).inv(),
            old(self).valid(node as int),
        ensures
            final(self).inv(),
            final(self).extends(*old(self)),
            final(self).out.symbols@ == old(self).out.symbols@,
            final(self).out.refs@ == old(self).out.refs@,
            final(self).sc.scopes@ == old(self).sc.scopes@,
            Self::imports_listed(old(self).out.imports@, final(self).out.imports@,
                old(self).go_import_recs(old(self).go_import_specs(old(self).tree.kids(node as int)))),
            crate::analysis::rust::use_decl::import_binds(old(self).sc.bindings@, final(self).sc.bindings@, old(self).sc.spec_current(),
                old(self).go_import_binds(old(self).go_import_specs(old(self).tree.kids(node as int)), old(self).out.imports@.len() as int)),
    {
        let kids = self.tree.children_of(node);
        let ghost scope = old(self).sc.spec_current();
        let ghost a = old(self).out.imports@;
        let ghost ba = old(self).sc.bindings@;
        assert(Self::imports_listed(a, a, Seq::empty()));
        assert(crate::analysis::rust::use_decl::import_binds(ba, ba, scope, Seq::empty()));
        let mut j: usize = 0;
        while j < kids.len()
            invariant
                self.inv(),
                self.extends(*old(self)),
                self.out.symbols@ == old(self).out.symbols@,
                self.out.refs@ == old(self).out.refs@,
                self.sc.scopes@ == old(self).sc.scopes@,
                self.tree == old(self).tree,
                scope == old(self).sc.spec_current(),
                a == old(self).out.imports@,
                ba == old(self).sc.bindings@,
                0 <= j <= kids@.len(),
                forall|x: int| 0 <= x < kids@.len() ==> #[trigger] kids@[x] < self.tree.size(),
                Self::imports_listed(a, self.out.imports@, old(self).go_import_recs(old(self).go_import_specs(kids@.take(j as int)))),
                crate::analysis::rust::use_decl::import_binds(ba, self.sc.bindings@, scope,
                    old(self).go_import_binds(old(self).go_import_specs(kids@.take(j as int)), a.len() as int)),
            decreases kids@.len() - j,
        {
            let c = kids[j];
            assert(kids@.take(j + 1).drop_last() =~= kids@.take(j as int));
            let ghost ss = old(self).go_import_specs(kids@.take(j as int));
            j = j + 1;
            if self.tree.is(c, "import_spec") {
                let ghost b = self.out.imports@;
                let ghost bb = self.sc.bindings@;
                self.go_record_import_spec(c);
                proof {
                    old(self).lemma_go_spec_step(a, b, self.out.imports@, ba, bb, self.sc.bindings@, scope, ss, c);
                }
            } else if self.tree.is(c, "import_spec_list") {
                let specs = self.tree.children_of(c);
                let mut k: usize = 0;
                assert(ss + old(self).go_specs_of(specs@.take(0)) =~= ss);
                while k < specs.len()
                    invariant
                        self.inv(),
                        self.extends(*old(self)),
                        self.out.symbols@ == old(self).out.symbols@,
                        self.out.refs@ == old(self).out.refs@,
                        self.sc.scopes@ == old(self).sc.scopes@,
                        self.tree == old(self).tree,
                        scope == old(self).sc.spec_current(),
                        a == old(self).out.imports@,
                        ba == old(self).sc.bindings@,
                        0 <= k <= specs@.len(),
                        forall|x: int| 0 <= x < specs@.len() ==> #[trigger] specs@[x] < self.tree.size(),
                        Self::imports_listed(a, self.out.imports@,
                            old(self).go_import_recs(ss + old(self).go_specs_of(specs@.take(k as int)))),
                        crate::analysis::rust::use_decl::import_binds(ba, self.sc.bindings@, scope,
                            old(self).go_import_binds(ss + old(self).go_specs_of(specs@.take(k as int)), a.len() as int)),
                    decreases specs@.len() - k,
                {
                    let sp = specs[k];
                    assert(specs@.take(k + 1).drop_last() =~= specs@.take(k as int));
                    let ghost s2 = ss + old(self).go_specs_of(specs@.take(k as int));
                    k = k + 1;
                    if self.tree.is(sp, "import_spec") {
                        let ghost b = self.out.imports@;
                        let ghost bb = self.sc.bindings@;
                        self.go_record_import_spec(sp);
                        proof {
                            old(self).lemma_go_spec_step(a, b, self.out.imports@, ba, bb, self.sc.bindings@, scope, s2, sp);
                            assert(s2.push(sp) =~= ss + old(self).go_specs_of(specs@.take(k as int)));
                        }
                    } else {
                        assert(s2 =~= ss + old(self).go_specs_of(specs@.take(k as int)));
                    }
                }
                assert(specs@.take(specs@.len() as int) =~= specs@);
            }
        }
        assert(kids@.take(kids@.len() as int) =~= kids@);
    }

    /// What counts as one parameter group of a Go function.
    pub open spec fn is_go_param(k: Seq<char>) -> bool {
        k == "parameter_declaration"@
    }

    pub open spec fn spec_go_param_count(&self, i: int) -> Option<i64> {
        match self.tree.field_of(i, "parameters"@) {
            Some(p) => Some(crate::syntax::sat_i64(
                self.tree.count_where(self.tree.kids(p as int), |k: Seq<char>| Self::is_go_param(k)) as int)),
            None => None,
        }
    }

    /// The declaration's source text up to its body (or to its end), trimmed.
    pub open spec fn spec_go_signature(&self, node: int) -> Option<Seq<char>> {
        let t = self.tree;
        let start = t.nodes@[node].start_byte;
        let end = match t.field_of(node, "body"@) {
            Some(b) => t.nodes@[b as int].start_byte,
            None => t.nodes@[node].end_byte,
        };
        if end > start && end <= t.src@.len() {
            match t.span_of(start as int, end as int) {
                Some(x) => Some(trim(x)),
                None => None,
            }
        } else {
            None
        }
    }

    /// The type of the first typed `parameter_declaration` of `s`, pointer stars
    /// and spaces dropped.
    pub open spec fn go_recv_from(&self, s: Seq<usize>) -> Option<Seq<char>>
        decreases s.len(),
    {
        if s.len() == 0 {
            None
        } else if 0 <= s[0] < self.tree.size() && self.tree.kind_of(s[0] as int) == "parameter_declaration"@
            && self.tree.field_of(s[0] as int, "type"@) is Some {
            Some(trim(strip_all_start(self.tree.text_of(self.tree.field_of(s[0] as int, "type"@)->0 as int), '*')))
        } else {
            self.go_recv_from(s.drop_first())
        }
    }

    pub open spec fn spec_go_receiver_type(&self, node: int) -> Option<Seq<char>> {
        match self.tree.field_of(node, "receiver"@) {
            Some(r) => self.go_recv_from(self.tree.kids(r as int)),
            None => None,
        }
    }

    /// The names a group binds: its `name_kind` nodes among `s`, as `kind`, typed `ty`.
    pub open spec fn go_name_entries(&self, s: Seq<usize>, name_kind: Seq<char>, kind: Seq<char>, ty: Option<Seq<char>>)
        -> Seq<(Seq<char>, Seq<char>, Option<Seq<char>>)> {
        Self::collect_entries(s, |n: usize|
            if self.tree.kind_of(n as int) == name_kind && self.tree.text_of(n as int).len() > 0 {
                Some((self.tree.text_of(n as int), kind, ty))
            } else {
                None
            })
    }

    /// What the groups among `s` of kind `k1` or `k2` bind, each with the text
    /// of its `type` field.
    pub open spec fn go_typed_entries(&self, s: Seq<usize>, k1: Seq<char>, k2: Seq<char>, name_kind: Seq<char>, kind: Seq<char>)
        -> Seq<(Seq<char>, Seq<char>, Option<Seq<char>>)>
        decreases s.len(),
    {
        if s.len() == 0 {
            Seq::empty()
        } else {
            let rest = self.go_typed_entries(s.drop_last(), k1, k2, name_kind, kind);
            let c = s.last() as int;
            if self.tree.kind_of(c) == k1 || self.tree.kind_of(c) == k2 {
                rest + self.go_name_entries(self.tree.kids(c), name_kind, kind, match self.tree.field_of(c, "type"@) {
                    Some(t) => Some(self.tree.text_of(t as int)),
                    None => None,
                })
            } else {
                rest
            }
        }
    }

    /// The method entries among `s`: `method_elem` / `method_spec` nodes with a name.
    pub open spec fn go_method_nodes(&self, s: Seq<usize>) -> Seq<usize>
        decreases s.len(),
    {
        if s.len() == 0 {
            Seq::empty()
        } else {
            let rest = self.go_method_nodes(s.drop_last());
            let c = s.last() as int;
            if (self.tree.kind_of(c) == "method_elem"@ || self.tree.kind_of(c) == "method_spec"@)
                && self.tree.field_of(c, "name"@) is Some {
                rest.push(s.last())
            } else {
                rest
            }
        }
    }

    /// `syms` holds, from index `at` on, one `method` symbol per node of `ms`,
    /// named by its `name` field, each under `w`'s innermost open symbol.
    pub open spec fn go_methods_at(&self, syms: Seq<NewSymbol>, at: int, w: Walker, ms: Seq<usize>) -> bool {
        forall|k: int| 0 <= k < ms.len() ==> {
            let c = (#[trigger] ms[k]) as int;
            let n = self.tree.field_of(c, "name"@)->0 as int;
            &&& Self::recorded_at(syms, at + k, w, c, self.tree.text_of(n), "method"@)
            &&& crate::text::opt_chars(syms[at + k].signature) == self.spec_go_signature(c)
            &&& syms[at + k].param_count == self.spec_go_param_count(c)
            &&& syms[at + k].owner_type is None
            &&& syms[at + k].is_exported == starts_upper(self.tree.text_of(n))
        }
    }

    /// The `import_spec` nodes among `s`.
    pub open spec fn go_specs_of(&self, s: Seq<usize>) -> Seq<usize> {
        go_specs_in(self.tree, s)
    }

    /// The import specs of an import declaration, directly or in its lists, in order.
    pub open spec fn go_import_specs(&self, s: Seq<usize>) -> Seq<usize> {
        go_import_specs_in(self.tree, s)
    }

    /// The path an import spec names, quotes dropped (empty when it has none).
    pub open spec fn go_spec_path(&self, sp: int) -> Seq<char> {
        go_spec_path_in(self.tree, sp)
    }

    pub open spec fn go_spec_alias(&self, sp: int) -> Option<Seq<char>> {
        go_spec_alias_in(self.tree, sp)
    }

    /// The imports the specs `ss` record (path, name, alias, relative, line).
    pub open spec fn go_import_recs(&self, ss: Seq<usize>) -> Seq<(Seq<char>, Option<Seq<char>>, Option<Seq<char>>, bool, i64)> {
        go_import_recs_in(self.tree, ss)
    }

    /// The names the specs `ss` bind (name, kind, import index), their imports
    /// numbered from `base`; `_` and `.` bind nothing.
    pub open spec fn go_import_binds(&self, ss: Seq<usize>, base: int) -> Seq<(Seq<char>, Seq<char>, usize)>
        decreases ss.len(),
    {
        if ss.len() == 0 {
            Seq::empty()
        } else {
            let rest = self.go_import_binds(ss.drop_last(), base);
            let sp = ss.last() as int;
            let raw = self.go_spec_path(sp);
            let idx = (base + self.go_import_recs(ss.drop_last()).len()) as usize;
            let name = match self.go_spec_alias(sp) { Some(a) => a, None => after_last(raw, "/"@) };
            let skip = match self.go_spec_alias(sp) { Some(a) => a == "_"@ || a == "."@, None => false };
            if raw.len() > 0 && !skip && name.len() > 0 {
                rest.push((name, "import"@, idx))
            } else {
                rest
            }
        }
    }

    /// `after` is `before` followed by one import per record.
    pub open spec fn imports_listed(before: Seq<NewImport>, after: Seq<NewImport>,
        recs: Seq<(Seq<char>, Option<Seq<char>>, Option<Seq<char>>, bool, i64)>) -> bool {
        &&& after.len() == before.len() + recs.len()
        &&& forall|k: int| 0 <= k < before.len() ==> #[trigger] after[k] == before[k]
        &&& forall|k: int| 0 <= k < recs.len() ==>
            Self::is_import(after[before.len() + k], (#[trigger] recs[k]).0, recs[k].1, recs[k].2, recs[k].3, recs[k].4)
    }

    /// Recording one more import spec keeps both lists in step.
    pub proof fn lemma_go_spec_step(&self, a: Seq<NewImport>, b: Seq<NewImport>, c: Seq<NewImport>,
        ba: Seq<crate::cache::models::NewBinding>, bb: Seq<crate::cache::models::NewBinding>, bc: Seq<crate::cache::models::NewBinding>,
        scope: usize, ss: Seq<usize>, sp: usize)
        requires
            Self::imports_listed(a, b, self.go_import_recs(ss)),
            crate::analysis::rust::use_decl::import_binds(ba, bb, scope, self.go_import_binds(ss, a.len() as int)),
            ({
                let raw = self.go_spec_path(sp as int);
                if raw.len() == 0 {
                    c == b && bc == bb
                } else {
                    let alias = self.go_spec_alias(sp as int);
                    let default_name = after_last(raw, "/"@);
                    &&& c == b.push(c.last())
                    &&& Self::is_import(c.last(), raw, Some(default_name), alias, raw[0] == '.', self.tree.line_of(sp as int))
                    &&& match alias {
                        Some(x) if x == "_"@ || x == "."@ => bc == bb,
                        _ => Self::bound(bb, bc, scope, match alias { Some(x) => x, None => default_name }, "import"@, None,
                            Some(b.len() as usize), None),
                    }
                }
            }),
        ensures
            Self::imports_listed(a, c, self.go_import_recs(ss.push(sp))),
            crate::analysis::rust::use_decl::import_binds(ba, bc, scope, self.go_import_binds(ss.push(sp), a.len() as int)),
    {
        assert(ss.push(sp).drop_last() =~= ss);
        let raw = self.go_spec_path(sp as int);
        if raw.len() > 0 {
            let recs = self.go_import_recs(ss);
            let r2 = self.go_import_recs(ss.push(sp));
            assert forall|k: int| 0 <= k < a.len() implies #[trigger] c[k] == a[k] by {
                assert(c[k] == b[k]);
            }
            assert forall|k: int| 0 <= k < r2.len() implies
                Self::is_import(c[a.len() + k], (#[trigger] r2[k]).0, r2[k].1, r2[k].2, r2[k].3, r2[k].4) by {
                if k < recs.len() {
                    assert(r2[k] == recs[k]);
                    assert(c[a.len() + k] == b[a.len() + k]);
                }
            }
            let alias = self.go_spec_alias(sp as int);
            let name = match alias { Some(x) => x, None => after_last(raw, "/"@) };
            let skip = match alias { Some(x) => x == "_"@ || x == "."@, None => false };
            if !skip && name.len() > 0 {
                crate::analysis::rust::use_decl::lemma_import_binds_push(ba, bb, bc, scope,
                    self.go_import_binds(ss, a.len() as int), (name, "import"@, b.len() as usize));
            }
        }
    }

    /// The name node and receiver text of a call: `f(..)` names `f`, `x.f(..)`
    /// names `f` on `x`; other callees name nothing.
    pub open spec fn spec_go_callee(&self, node: int) -> Option<(usize, Option<Seq<char>>)> {
        go_callee_in(self.tree, node)
    }

    /// `alias "a/b/c"`: an import of `c` from `a/b/c`, bound under the alias
    /// (none for `_` and `.`) or under `c`.
    pub fn go_record_import_spec(&mut self, spec: usize)
        requires
            old(self).inv(),
            old(self).valid(spec as int),
        ensures
            final(self).inv(),
            final(self).extends(*old(self)),
            final(self).out.symbols@ == old(self).out.symbols@,
            final(self).out.refs@ == old(self).out.refs@,
            final(self).sc.scopes@ == old(self).sc.scopes@,
            ({
                let t = old(self).tree;
                let raw = match t.field_of(spec as int, "path"@) {
                    Some(p) => go_import_path(t.text_of(p as int)),
                    None => Seq::empty(),
                };
                if raw.len() == 0 {
                    &&& final(self).out.imports@ == old(self).out.imports@
                    &&& final(self).sc.bindings@ == old(self).sc.bindings@
                } else {
                    let alias = match t.field_of(spec as int, "name"@) {
                        Some(n) => Some(t.text_of(n as int)),
                        None => None,
                    };
                    let default_name = after_last(raw, "/"@);
                    let m = final(self).out.imports@.last();
                    &&& final(self).out.imports@ == old(self).out.imports@.push(m)
                    &&& Walker::is_import(m, raw, Some(default_name), alias, raw[0] == '.', t.line_of(spec as int))
                    &&& match alias {
                        Some(a) if a == "_"@ || a == "."@ => final(self).sc.bindings@ == old(self).sc.bindings@,
                        _ => Walker::bound(old(self).sc.bindings@, final(self).sc.bindings@, old(self).sc.spec_current(),
                            match alias { Some(a) => a, None => default_name }, "import"@, None,
                            Some(old(self).out.imports@.len() as usize), None),
                    }
                }
            }),
    {
        let path_node = match self.tree.field_child(spec, "path") {
            Some(p) => p,
            None => { return; },
        };
        let raw_text = self.text(path_node);
        let raw = import_path(raw_text.as_str());
        if raw.as_str().is_empty() {
            return;
        }
        let alias = match self.tree.field_child(spec, "name") {
            Some(n) => Some(self.text(n)),
            None => None,
        };
        let rc = chars_of(raw.as_str());
        let slash = chars_of("/");
        let default_name = string_of(after_last_exec(rc.as_slice(), slash.as_slice()).as_slice());
        let bound: Option<String> = match &alias {
            Some(a) => if str_eq(a.as_str(), "_") || str_eq(a.as_str(), ".") { None } else { Some(a.clone()) },
            None => Some(default_name.clone()),
        };
        let relative = rc.len() > 0 && rc[0] == '.';
        let line = self.tree.line(spec);
        let import_index = self.add_import(NewImport {
            raw_specifier: raw,
            imported_name: Some(default_name),
            alias,
            is_relative: relative,
            start_line: line,
        });
        match bound {
            Some(name) => {
                self.bind(name.as_str(), "import", None, Some(import_index), None);
            },
            None => {},
        }
    }

    /// The declaration's text up to its body, trimmed.
    fn go_signature(&self, node: usize) -> (r: Option<String>)
        requires
            self.inv(),
            self.valid(node as int),
        ensures
            opt_chars(r) == self.spec_go_signature(node as int),
    {
        let start = self.tree.nodes[node].start_byte;
        let end = match self.tree.field_child(node, "body") {
            Some(b) => self.tree.nodes[b].start_byte,
            None => self.tree.nodes[node].end_byte,
        };
        if end > start && end <= self.tree.src.len() {
            match self.tree.span(start, end) {
                Some(t) => Some(str_trim(t.as_str())),
                None => None,
            }
        } else {
            None
        }
    }

    /// Number of `parameter_declaration` children of node `i`'s `parameters`.
    fn go_param_count(&self, i: usize) -> (r: Option<i64>)
        requires
            self.inv(),
            self.valid(i as int),
        ensures
            r == self.spec_go_param_count(i as int),
    {
        let params = match self.tree.field_child(i, "parameters") {
            Some(p) => p,
            None => { return None; },
        };
        let kids = self.tree.children_of(params);
        let ghost p = |k: Seq<char>| Self::is_go_param(k);
        let mut n: i64 = 0;
        let mut j: usize = 0;
        while j < kids.len()
            invariant
                self.inv(),
                0 <= j <= kids@.len(),
                0 <= n <= j,
                forall|x: int| 0 <= x < kids@.len() ==> #[trigger] kids@[x] < self.tree.size(),
                p == (|k: Seq<char>| Self::is_go_param(k)),
                n == crate::syntax::sat_i64(self.tree.count_where(kids@.take(j as int), p) as int),
            decreases kids@.len() - j,
        {
            assert(kids@.take(j + 1).drop_last() =~= kids@.take(j as int));
            if self.tree.is(kids[j], "parameter_declaration") && n < i64::MAX {
                n = n + 1;
            }
            j = j + 1;
        }
        assert(kids@.take(kids@.len() as int) =~= kids@);
        Some(n)
    }

    /// Append a symbol under the innermost open one; a name starting with an
    /// uppercase letter is exported.
    pub fn go_push_symbol(
        &mut self,
        node: usize,
        name: String,
        kind: &str,
        signature: Option<String>,
        param_count: Option<i64>,
        owner_type: Option<String>,
    ) -> (i: usize)
        requires
            old(self).inv(),
            old(self).valid(node as int),
        ensures
            final(self).inv(),
            final(self).extends(*old(self)),
            final(self).sc == old(self).sc,
            final(self).out.refs@ == old(self).out.refs@,
            final(self).out.imports@ == old(self).out.imports@,
            i == old(self).out.symbols@.len(),
            ({
                let s = final(self).out.symbols@[i as int];
                &&& final(self).out.symbols@ == old(self).out.symbols@.push(s)
                &&& s.name@ == name@
                &&& s.kind@ == kind@
                &&& s.is_exported == starts_upper(name@)
                &&& s.signature == signature
                &&& s.owner_type == owner_type
                &&& s.param_count == param_count
                &&& s.parent_index == (if old(self).stack@.len() > 0 { Some(old(self).stack@.last()) } else { None })
                &&& s.start_line == old(self).tree.line_of(node as int)
                &&& s.end_line == old(self).tree.end_line_of(node as int)
                &&& s.start_byte == old(self).tree.start_of(node as int)
                &&& s.end_byte == old(self).tree.end_of(node as int)
            }),
    {
        let exported = starts_upper_exec(name.as_str());
        let parent_index = if self.stack.len() > 0 { Some(self.stack[self.stack.len() - 1]) } else { None };
        let sym = NewSymbol {
            name,
            kind: kind.to_string(),
            parent_index,
            is_exported: exported,
            start_line: self.tree.line(node),
            end_line: self.tree.end_line(node),
            start_byte: self.tree.start(node),
            end_byte: self.tree.end(node),
            signature,
            param_count,
            owner_type,
        };
        self.add_symbol(sym)
    }

    /// Bind the names of each `parameter_declaration` with its written type.
    fn go_bind_parameters(&mut self, params: usize)
        requires
            old(self).inv(),
            old(self).valid(params as int),
        ensures
            final(self).inv(),
            final(self).extends(*old(self)),
            final(self).out == old(self).out,
    {
        self.go_bind_typed_names(params, "parameter_declaration", "parameter_declaration", "identifier", "param");
    }

    /// For each child of `node` of kind `k1` or `k2`, bind its `name_kind`
    /// children as `bind_kind`, with the text of its `type` field.
    fn go_bind_typed_names(&mut self, node: usize, k1: &str, k2: &str, name_kind: &str, bind_kind: &str)
        requires
            old(self).inv(),
            old(self).valid(node as int),
        ensures
            final(self).inv(),
            final(self).extends(*old(self)),
            final(self).out == old(self).out,
            final(self).sc.scopes@ == old(self).sc.scopes@,
            Self::binds_all(old(self).sc.bindings@, final(self).sc.bindings@, old(self).sc.spec_current(),
                old(self).go_typed_entries(old(self).tree.kids(node as int), k1@, k2@, name_kind@, bind_kind@)),
    {
        let kids = self.tree.children_of(node);
        let mut j: usize = 0;
        while j < kids.len()
            invariant
                self.inv(),
                self.extends(*old(self)),
                self.out == old(self).out,
                self.sc.scopes@ == old(self).sc.scopes@,
                self.tree == old(self).tree,
                0 <= j <= kids@.len(),
                forall|x: int| 0 <= x < kids@.len() ==> #[trigger] kids@[x] < self.tree.size(),
                Self::binds_all(old(self).sc.bindings@, self.sc.bindings@, old(self).sc.spec_current(),
                    old(self).go_typed_entries(kids@.take(j as int), k1@, k2@, name_kind@, bind_kind@)),
            decreases kids@.len() - j,
        {
            let c = kids[j];
            assert(kids@.take(j + 1).drop_last() =~= kids@.take(j as int));
            let ghost es = old(self).go_typed_entries(kids@.take(j as int), k1@, k2@, name_kind@, bind_kind@);
            j = j + 1;
            if !(self.tree.is(c, k1) || self.tree.is(c, k2)) {
                continue;
            }
            let ty = match self.tree.field_child(c, "type") {
                Some(t) => Some(self.text(t)),
                None => None,
            };
            let names = self.tree.children_of(c);
            let ghost start = self.sc.bindings@;
            assert(Self::binds_all(start, start, old(self).sc.spec_current(), Seq::empty()));
            let mut k: usize = 0;
            while k < names.len()
                invariant
                    self.inv(),
                    self.extends(*old(self)),
                    self.out == old(self).out,
                    self.sc.scopes@ == old(self).sc.scopes@,
                    self.tree == old(self).tree,
                    0 <= k <= names@.len(),
                    forall|x: int| 0 <= x < names@.len() ==> #[trigger] names@[x] < self.tree.size(),
                    Self::binds_all(start, self.sc.bindings@, old(self).sc.spec_current(),
                        old(self).go_name_entries(names@.take(k as int), name_kind@, bind_kind@, opt_chars(ty))),
                decreases names@.len() - k,
            {
                let nm = names[k];
                assert(names@.take(k + 1).drop_last() =~= names@.take(k as int));
                let ghost es2 = old(self).go_name_entries(names@.take(k as int), name_kind@, bind_kind@, opt_chars(ty));
                k = k + 1;
                if self.tree.is(nm, name_kind) {
                    let t = self.text(nm);
                    let ghost mid = self.sc.bindings@;
                    let tc = ty.clone();
                    self.bind(t.as_str(), bind_kind, None, None, tc);
                    proof {
                        if t@.len() > 0 {
                            Self::lemma_binds_push(start, mid, self.sc.bindings@, old(self).sc.spec_current(), es2,
                                (t@, bind_kind@, opt_chars(ty)));
                        }
                    }
                }
            }
            assert(names@.take(names@.len() as int) =~= names@);
            proof {
                Self::lemma_binds_concat(old(self).sc.bindings@, start, self.sc.bindings@, old(self).sc.spec_current(), es,
                    old(self).go_name_entries(names@, name_kind@, bind_kind@, opt_chars(ty)));
            }
        }
        assert(kids@.take(kids@.len() as int) =~= kids@);
    }

    /// Push `sym`, open its scope, bind the parameter lists in `params`, walk
    /// the body, close up.
    fn go_enter_callable(&mut self, node: usize, i: usize, scope_kind: &str, receiver: bool)
        requires
            old(self).inv(),
            old(self).valid(node as int),
            i < old(self).out.symbols@.len(),
        ensures
            final(self).inv(),
            final(self).extends(*old(self)),
            old(self).tree.field_of(node as int, "body"@) matches Some(b) ==> seq_covered(final(self).out.refs@,
                old(self).out.refs@.len() as int, old(self).tree, go_next(old(self).tree), go_rows(old(self).tree), old(self).tree.kids(b as int)),
        decreases old(self).tree.size() - node, 2nat,
    {
        self.stack.push(i);
        let ghost pushed_stack = self.stack@;
        let start = self.tree.start(node);
        let end = self.tree.end(node);
        self.sc.push(scope_kind, Some(i), start, end);
        let ghost pushed_sc = self.sc.stack@;
        assert(self.inv());
        if receiver {
            match self.tree.field_child(node, "receiver") {
                Some(r) => self.go_bind_parameters(r),
                None => {},
            }
        }
        match self.tree.field_child(node, "parameters") {
            Some(p) => self.go_bind_parameters(p),
            None => {},
        }
        match self.tree.field_child(node, "body") {
            Some(b) => {
                let ghost mid = self.out.refs@;
                self.go_walk_children(b);
                proof {
                    lemma_seq_covered_mono(self.out.refs@, self.out.refs@, mid.len() as int, old(self).out.refs@.len() as int,
                        self.tree, go_next(self.tree), go_rows(self.tree), self.tree.kids(b as int));
                }
            },
            None => {},
        }
        assert(self.sc.stack@ == pushed_sc);
        assert(self.stack@ == pushed_stack);
        self.sc.pop();
        self.stack.pop();
        assert(self.stack@ =~= old(self).stack@);
        assert(self.sc.stack@ =~= old(self).sc.stack@);
    }

    /// `func f(..) { .. }`: a function symbol, bound in the enclosing scope.
    pub fn go_enter_function(&mut self, node: usize)
        requires
            old(self).inv(),
            old(self).valid(node as int),
        ensures
            final(self).inv(),
            final(self).extends(*old(self)),
            old(self).tree.field_of(node as int, "name"@) matches Some(n) ==> {
                let s = final(self).out.symbols@[old(self).out.symbols@.len() as int];
                &&& Self::recorded_at(final(self).out.symbols@, old(self).out.symbols@.len() as int, *old(self), node as int,
                    old(self).tree.text_of(n as int), "function"@)
                &&& opt_chars(s.signature) == old(self).spec_go_signature(node as int)
                &&& s.param_count == old(self).spec_go_param_count(node as int)
                &&& s.owner_type is None
                &&& s.is_exported == starts_upper(old(self).tree.text_of(n as int))
            },
            seq_covered(final(self).out.refs@, old(self).out.refs@.len() as int, old(self).tree, go_next(old(self).tree),
                go_rows(old(self).tree), go_callable_next(old(self).tree, node as int)),
        decreases old(self).tree.size() - node, 3nat,
    {
        let name_node = match self.tree.field_child(node, "name") {
            Some(n) => n,
            None => {
                self.go_walk_children(node);
                return;
            },
        };
        let name = self.text(name_node);
        let sig = self.go_signature(node);
        let pc = self.go_param_count(node);
        let i = self.go_push_symbol(node, name.clone(), "function", sig, pc, None);
        let ghost w0 = *self;
        self.bind(name.as_str(), "symbol", Some(i), None, None);
        let ghost mid = self.out.refs@;
        self.go_enter_callable(node, i, "function", false);
        proof {
            if self.tree.field_of(node as int, "body"@) is Some {
                lemma_seq_covered_mono(self.out.refs@, self.out.refs@, mid.len() as int, old(self).out.refs@.len() as int,
                    self.tree, go_next(self.tree), go_rows(self.tree), go_callable_next(self.tree, node as int));
            }
        }
        assert(self.out.symbols@[i as int] == w0.out.symbols@[i as int]);
    }

    /// The receiver's type, its pointer star and spaces dropped.
    fn go_receiver_type(&self, node: usize) -> (r: Option<String>)
        requires
            self.inv(),
            self.valid(node as int),
        ensures
            opt_chars(r) == self.spec_go_receiver_type(node as int),
    {
        let recv = match self.tree.field_child(node, "receiver") {
            Some(r) => r,
            None => { return None; },
        };
        let kids = self.tree.children_of(recv);
        let mut j: usize = 0;
        assert(kids@.skip(0) =~= kids@);
        while j < kids.len()
            invariant
                self.inv(),
                0 <= j <= kids@.len(),
                forall|x: int| 0 <= x < kids@.len() ==> #[trigger] kids@[x] < self.tree.size(),
                self.spec_go_receiver_type(node as int) == self.go_recv_from(kids@.skip(j as int)),
            decreases kids@.len() - j,
        {
            let c = kids[j];
            assert(kids@.skip(j as int).drop_first() =~= kids@.skip(j + 1));
            j = j + 1;
            if self.tree.is(c, "parameter_declaration") {
                match self.tree.field_child(c, "type") {
                    Some(t) => {
                        let txt = chars_of(self.text(t).as_str());
                        let a = strip_all_start_exec(txt.as_slice(), '*');
                        let rest = string_of(slice_chars(txt.as_slice(), a, txt.len()).as_slice());
                        return Some(str_trim(rest.as_str()));
                    },
                    None => {},
                }
            }
        }
        None
    }

    /// `func (r *T) m(..) { .. }`: a method of `T`, reached through values.
    pub fn go_enter_method(&mut self, node: usize)
        requires
            old(self).inv(),
            old(self).valid(node as int),
        ensures
            final(self).inv(),
            final(self).extends(*old(self)),
            old(self).tree.field_of(node as int, "name"@) matches Some(n) ==> {
                let s = final(self).out.symbols@[old(self).out.symbols@.len() as int];
                &&& Self::recorded_at(final(self).out.symbols@, old(self).out.symbols@.len() as int, *old(self), node as int,
                    old(self).tree.text_of(n as int), "method"@)
                &&& opt_chars(s.signature) == old(self).spec_go_signature(node as int)
                &&& s.param_count == old(self).spec_go_param_count(node as int)
                &&& opt_chars(s.owner_type) == old(self).spec_go_receiver_type(node as int)
                &&& s.is_exported == starts_upper(old(self).tree.text_of(n as int))
            },
            seq_covered(final(self).out.refs@, old(self).out.refs@.len() as int, old(self).tree, go_next(old(self).tree),
                go_rows(old(self).tree), go_callable_next(old(self).tree, node as int)),
        decreases old(self).tree.size() - node, 3nat,
    {
        let name_node = match self.tree.field_child(node, "name") {
            Some(n) => n,
            None => {
                self.go_walk_children(node);
                return;
            },
        };
        let name = self.text(name_node);
        let sig = self.go_signature(node);
        let owner = self.go_receiver_type(node);
        let pc = self.go_param_count(node);
        let i = self.go_push_symbol(node, name, "method", sig, pc, owner);
        let ghost w0 = *self;
        let ghost mid = self.out.refs@;
        self.go_enter_callable(node, i, "method", true);
        proof {
            if self.tree.field_of(node as int, "body"@) is Some {
                lemma_seq_covered_mono(self.out.refs@, self.out.refs@, mid.len() as int, old(self).out.refs@.len() as int,
                    self.tree, go_next(self.tree), go_rows(self.tree), go_callable_next(self.tree, node as int));
            }
        }
        assert(self.out.symbols@[i as int] == w0.out.symbols@[i as int]);
    }

    /// Each `type_spec`, directly or in a parenthesised list.
    fn go_collect_type_declaration(&mut self, node: usize)
        requires
            old(self).inv(),
            old(self).valid(node as int),
        ensures
            final(self).inv(),
            final(self).extends(*old(self)),
    {
        let kids = self.tree.children_of(node);
        let mut j: usize = 0;
        while j < kids.len()
            invariant
                self.inv(),
                self.extends(*old(self)),
                0 <= j <= kids@.len(),
                forall|x: int| 0 <= x < kids@.len() ==> #[trigger] kids@[x] < self.tree.size(),
            decreases kids@.len() - j,
        {
            let c = kids[j];
            j = j + 1;
            if self.tree.is(c, "type_spec") {
                self.go_enter_type_spec(c);
            } else if self.tree.is(c, "type_spec_list") {
                let specs = self.tree.children_of(c);
                let mut k: usize = 0;
                while k < specs.len()
                    invariant
                        self.inv(),
                        self.extends(*old(self)),
                        0 <= k <= specs@.len(),
                        forall|x: int| 0 <= x < specs@.len() ==> #[trigger] specs@[x] < self.tree.size(),
                    decreases specs@.len() - k,
                {
                    let sp = specs[k];
                    k = k + 1;
                    if self.tree.is(sp, "type_spec") {
                        self.go_enter_type_spec(sp);
                    }
                }
            }
        }
    }

    /// `type T struct {..}` / `interface {..}` / anything else: a symbol of that
    /// kind, with the struct's fields bound or the interface's methods listed.
    pub fn go_enter_type_spec(&mut self, node: usize)
        requires
            old(self).inv(),
            old(self).valid(node as int),
        ensures
            final(self).inv(),
            final(self).extends(*old(self)),
            old(self).tree.field_of(node as int, "name"@) matches Some(n) ==> {
                let t = old(self).tree;
                let kind = match t.field_of(node as int, "type"@) {
                    Some(ty) => if t.kind_of(ty as int) == "struct_type"@ {
                        "struct"@
                    } else if t.kind_of(ty as int) == "interface_type"@ {
                        "interface"@
                    } else {
                        "type"@
                    },
                    None => "type"@,
                };
                let s = final(self).out.symbols@[old(self).out.symbols@.len() as int];
                &&& Self::recorded_at(final(self).out.symbols@, old(self).out.symbols@.len() as int, *old(self), node as int,
                    t.text_of(n as int), kind)
                &&& opt_chars(s.signature) == old(self).spec_go_signature(node as int)
                &&& s.param_count is None
                &&& s.owner_type is None
                &&& s.is_exported == starts_upper(t.text_of(n as int))
            },
            old(self).tree.field_of(node as int, "name"@) is None ==> *final(self) == *old(self),
    {
        let name_node = match self.tree.field_child(node, "name") {
            Some(n) => n,
            None => { return; },
        };
        let name = self.text(name_node);
        let type_node = self.tree.field_child(node, "type");
        let kind: &str = match type_node {
            Some(t) => if self.tree.is(t, "struct_type") {
                "struct"
            } else if self.tree.is(t, "interface_type") {
                "interface"
            } else {
                "type"
            },
            None => "type",
        };
        let sig = self.go_signature(node);
        let i = self.go_push_symbol(node, name.clone(), kind, sig, None, None);
        let ghost w0 = *self;
        self.bind(name.as_str(), "symbol", Some(i), None, None);
        self.stack.push(i);
        let ghost pushed_stack = self.stack@;
        let start = self.tree.start(node);
        let end = self.tree.end(node);
        self.sc.push(kind, Some(i), start, end);
        let ghost pushed_sc = self.sc.stack@;
        assert(self.inv());
        match type_node {
            Some(t) => {
                if self.tree.is(t, "struct_type") {
                    match self.tree.field_child(t, "fields") {
                        Some(f) => {
                            self.go_bind_typed_names(f, "field_declaration", "field_declaration", "field_identifier", "field");
                        },
                        None => {},
                    }
                } else if self.tree.is(t, "interface_type") {
                    self.go_collect_interface_methods(t);
                }
            },
            None => {},
        }
        assert(self.sc.stack@ == pushed_sc);
        assert(self.stack@ == pushed_stack);
        self.sc.pop();
        self.stack.pop();
        assert(self.stack@ =~= old(self).stack@);
        assert(self.sc.stack@ =~= old(self).sc.stack@);
        assert(self.out.symbols@[i as int] == w0.out.symbols@[i as int]);
    }

    /// The methods an interface declares, as `method` symbols inside it.
    fn go_collect_interface_methods(&mut self, iface: usize)
        requires
            old(self).inv(),
            old(self).valid(iface as int),
        ensures
            final(self).inv(),
            final(self).extends(*old(self)),
            final(self).sc == old(self).sc,
            final(self).out.refs@ == old(self).out.refs@,
            final(self).out.imports@ == old(self).out.imports@,
            final(self).out.symbols@.len() == old(self).out.symbols@.len() + old(self).go_method_nodes(old(self).tree.kids(iface as int)).len(),
            old(self).go_methods_at(final(self).out.symbols@, old(self).out.symbols@.len() as int, *old(self),
                old(self).go_method_nodes(old(self).tree.kids(iface as int))),
    {
        let kids = self.tree.children_of(iface);
        let mut j: usize = 0;
        while j < kids.len()
            invariant
                self.inv(),
                self.extends(*old(self)),
                self.sc == old(self).sc,
                self.tree == old(self).tree,
                self.stack@ == old(self).stack@,
                self.out.refs@ == old(self).out.refs@,
                self.out.imports@ == old(self).out.imports@,
                0 <= j <= kids@.len(),
                forall|x: int| 0 <= x < kids@.len() ==> #[trigger] kids@[x] < self.tree.size(),
                self.out.symbols@.len() == old(self).out.symbols@.len() + old(self).go_method_nodes(kids@.take(j as int)).len(),
                old(self).go_methods_at(self.out.symbols@, old(self).out.symbols@.len() as int, *old(self),
                    old(self).go_method_nodes(kids@.take(j as int))),
            decreases kids@.len() - j,
        {
            let c = kids[j];
            assert(kids@.take(j + 1).drop_last() =~= kids@.take(j as int));
            let ghost ms = old(self).go_method_nodes(kids@.take(j as int));
            let ghost before = self.out.symbols@;
            j = j + 1;
            if self.tree.is(c, "method_elem") || self.tree.is(c, "method_spec") {
                match self.tree.field_child(c, "name") {
                    Some(n) => {
                        let mname = self.text(n);
                        let sig = self.go_signature(c);
                        let pc = self.go_param_count(c);
                        self.go_push_symbol(c, mname, "method", sig, pc, None);
                        proof {
                            let ms2 = ms.push(c);
                            assert forall|k: int| 0 <= k < ms2.len() implies {
                                let cc = (#[trigger] ms2[k]) as int;
                                let nn = self.tree.field_of(cc, "name"@)->0 as int;
                                &&& Self::recorded_at(self.out.symbols@, old(self).out.symbols@.len() + k, *old(self), cc, self.tree.text_of(nn), "method"@)
                                &&& crate::text::opt_chars(self.out.symbols@[old(self).out.symbols@.len() + k].signature) == old(self).spec_go_signature(cc)
                                &&& self.out.symbols@[old(self).out.symbols@.len() + k].param_count == old(self).spec_go_param_count(cc)
                                &&& self.out.symbols@[old(self).out.symbols@.len() + k].owner_type is None
                                &&& self.out.symbols@[old(self).out.symbols@.len() + k].is_exported == starts_upper(self.tree.text_of(nn))
                            } by {
                                if k < ms.len() {
                                    assert(ms2[k] == ms[k]);
                                    assert(self.out.symbols@[old(self).out.symbols@.len() + k] == before[old(self).out.symbols@.len() + k]);
                                }
                            }
                        }
                    },
                    None => {},
                }
            }
        }
        assert(kids@.take(kids@.len() as int) =~= kids@);
    }

    /// `var` / `const` specs: their names become locals of the written type.
    fn go_collect_vars(&mut self, node: usize)
        requires
            old(self).inv(),
            old(self).valid(node as int),
        ensures
            final(self).inv(),
            final(self).extends(*old(self)),
            final(self).out == old(self).out,
    {
        self.go_bind_typed_names(node, "var_spec", "const_spec", "identifier", "local");
    }

    /// `a, b := ..`: untyped locals.
    fn go_collect_short_var(&mut self, node: usize)
        requires
            old(self).inv(),
            old(self).valid(node as int),
        ensures
            final(self).inv(),
            final(self).extends(*old(self)),
            final(self).out == old(self).out,
            final(self).sc.scopes@ == old(self).sc.scopes@,
            Self::binds_all(old(self).sc.bindings@, final(self).sc.bindings@, old(self).sc.spec_current(),
                match old(self).tree.field_of(node as int, "left"@) {
                    Some(l) => old(self).go_name_entries(old(self).tree.kids(l as int), "identifier"@, "local"@, None),
                    None => Seq::empty(),
                }),
    {
        let left = match self.tree.field_child(node, "left") {
            Some(l) => l,
            None => { return; },
        };
        let kids = self.tree.children_of(left);
        let mut j: usize = 0;
        while j < kids.len()
            invariant
                self.inv(),
                self.extends(*old(self)),
                self.out == old(self).out,
                self.sc.scopes@ == old(self).sc.scopes@,
                self.tree == old(self).tree,
                0 <= j <= kids@.len(),
                forall|x: int| 0 <= x < kids@.len() ==> #[trigger] kids@[x] < self.tree.size(),
                Self::binds_all(old(self).sc.bindings@, self.sc.bindings@, old(self).sc.spec_current(),
                    old(self).go_name_entries(kids@.take(j as int), "identifier"@, "local"@, None)),
            decreases kids@.len() - j,
        {
            let c = kids[j];
            assert(kids@.take(j + 1).drop_last() =~= kids@.take(j as int));
            let ghost es = old(self).go_name_entries(kids@.take(j as int), "identifier"@, "local"@, None);
            j = j + 1;
            if self.tree.is(c, "identifier") {
                let t = self.text(c);
                let ghost mid = self.sc.bindings@;
                self.bind(t.as_str(), "local", None, None, None);
                proof {
                    if t@.len() > 0 {
                        Self::lemma_binds_push(old(self).sc.bindings@, mid, self.sc.bindings@, old(self).sc.spec_current(), es,
                            (t@, "local"@, None));
                    }
                }
            }
        }
        assert(kids@.take(kids@.len() as int) =~= kids@);
    }

    /// `f(..)` / `x.f(..)`: a call of `f`, with `x` as its receiver.
    pub fn go_collect_call(&mut self, node: usize)
        requires
            old(self).inv(),
            old(self).valid(node as int),
        ensures
            final(self).inv(),
            final(self).extends(*old(self)),
            final(self).out.symbols@ == old(self).out.symbols@,
            final(self).out.imports@ == old(self).out.imports@,
            final(self).sc == old(self).sc,
            ({
                let t = old(self).tree;
                match old(self).spec_go_callee(node as int) {
                    Some((n, recv)) if t.text_of(n as int).len() > 0 => {
                        &&& final(self).out.refs@ == old(self).out.refs@.push(final(self).out.refs@.last())
                        &&& Walker::is_ref(final(self).out.refs@.last(), t.text_of(n as int), "call"@, recv,
                            if recv is Some { "value"@ } else { "none"@ }, old(self).spec_arg_count(node as int),
                            t.line_of(node as int), t.start_of(node as int), Some(t.start_of(n as int)))
                    },
                    _ => final(self).out.refs@ == old(self).out.refs@,
                }
            }),
    {
        let func = match self.tree.field_child(node, "function") {
            Some(f) => f,
            None => { return; },
        };
        let name_node: usize;
        let receiver: Option<String>;
        if self.tree.is(func, "identifier") {
            name_node = func;
            receiver = None;
        } else if self.tree.is(func, "selector_expression") {
            name_node = match self.tree.field_child(func, "field") {
                Some(f) => f,
                None => { return; },
            };
            receiver = match self.tree.field_child(func, "operand") {
                Some(o) => Some(self.text(o)),
                None => None,
            };
        } else {
            return;
        }
        let name = self.text(name_node);
        if name.as_str().is_empty() {
            return;
        }
        let rk = if receiver.is_some() { "value" } else { "none" };
        let arg_count = match self.tree.field_child(node, "arguments") {
            Some(a) => {
                let kids = self.tree.named_children(a);
                Some(crate::syntax::to_i64(kids.len()))
            },
            None => None,
        };
        let r = NewRef {
            name,
            ref_kind: "call".to_string(),
            receiver,
            start_line: self.tree.line(node),
            start_byte: self.tree.start(node),
            name_start_byte: Some(self.tree.start(name_node)),
            arg_count,
            receiver_kind: rk.to_string(),
            local_only: false,
            resolved_local_symbol_index: None,
        };
        self.add_ref(r);
    }
}

} // verus!

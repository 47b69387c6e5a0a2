//! Declarations: the symbol each item introduces, and the names a signature,
//! a struct body or a `let` binds.

use vstd::prelude::*;
use crate::cache::models::NewSymbol;
use crate::text::{concat, opt_chars, str_eq, str_trim};
use super::{Walker, named_in};
use crate::syntax::SyntaxTree;
use super::helpers::{simple_type_name, spec_simple_type_name};
use super::types::{lemma_type_refs_concat, names_view, type_refs_at};

verus! {

/// Symbol kind of a declaration node kind other than a function or an `impl`.
pub open spec fn item_symbol_kind(k: Seq<char>) -> Option<Seq<char>> {
    if k == "struct_item"@ || k == "union_item"@ {
        Some("struct"@)
    } else if k == "enum_item"@ {
        Some("enum"@)
    } else if k == "trait_item"@ {
        Some("trait"@)
    } else if k == "type_item"@ {
        Some("type"@)
    } else if k == "const_item"@ || k == "static_item"@ {
        Some("variable"@)
    } else if k == "mod_item"@ {
        Some("module"@)
    } else if k == "macro_definition"@ {
        Some("macro"@)
    } else {
        None
    }
}

/// The kind of symbol node `node` of `t` declares, when it declares one
/// (`in_impl`: the node sits directly in an `impl` or `trait`).
pub open spec fn rust_decl_kind(t: SyntaxTree, node: int, in_impl: bool) -> Option<Seq<char>> {
    let k = t.kind_of(node);
    if k == "impl_item"@ {
        Some("impl"@)
    } else if k == "function_item"@ {
        if in_impl { Some("method"@) } else { Some("function"@) }
    } else {
        item_symbol_kind(k)
    }
}

/// The name the symbol of `node` gets: `Trait for Type` (or `Type`) for an
/// `impl`, the `name` field's text for a function, the non-empty `name`
/// for other items; nothing for a node that declares no symbol.
pub open spec fn rust_decl_name(t: SyntaxTree, node: int) -> Option<Seq<char>> {
    let k = t.kind_of(node);
    if k == "impl_item"@ {
        match t.field_of(node, "type"@) {
            Some(ty) => Some(match t.field_of(node, "trait"@) {
                Some(tr) => t.text_of(tr as int) + " for "@ + t.text_of(ty as int),
                None => t.text_of(ty as int),
            }),
            None => None,
        }
    } else if k == "function_item"@ {
        match t.field_of(node, "name"@) {
            Some(n) => Some(t.text_of(n as int)),
            None => None,
        }
    } else if item_symbol_kind(k) is Some {
        named_in(t, node)
    } else {
        None
    }
}

impl Walker {
    /// The innermost open symbol is an `impl` or a `trait`.
    pub open spec fn in_impl_or_trait(&self) -> bool {
        self.stack@.len() > 0 && {
            let k = self.out.symbols@[self.stack@.last() as int].kind@;
            k == "impl"@ || k == "trait"@
        }
    }

    /// The kind of symbol node `node` declares, when it declares one.
    pub open spec fn declared_kind(&self, node: int) -> Option<Seq<char>> {
        rust_decl_kind(self.tree, node, self.in_impl_or_trait())
    }

    /// The name the symbol of `node` gets: `Trait for Type` (or `Type`) for an
    /// `impl`, the `name` field's text for a function, the non-empty `name`
    /// for other items; nothing for a node that declares no symbol.
    pub open spec fn decl_name(&self, node: int) -> Option<Seq<char>> {
        rust_decl_name(self.tree, node)
    }

    fn item_kind(&self, node: usize) -> (r: Option<&'static str>)
        requires
            self.inv(),
            self.valid(node as int),
        ensures
            r matches Some(k) ==> item_symbol_kind(self.tree.kind_of(node as int)) == Some(k@),
            r is None ==> item_symbol_kind(self.tree.kind_of(node as int)) is None,
    {
        if self.tree.is(node, "struct_item") || self.tree.is(node, "union_item") {
            Some("struct")
        } else if self.tree.is(node, "enum_item") {
            Some("enum")
        } else if self.tree.is(node, "trait_item") {
            Some("trait")
        } else if self.tree.is(node, "type_item") {
            Some("type")
        } else if self.tree.is(node, "const_item") || self.tree.is(node, "static_item") {
            Some("variable")
        } else if self.tree.is(node, "mod_item") {
            Some("module")
        } else if self.tree.is(node, "macro_definition") {
            Some("macro")
        } else {
            None
        }
    }

    /// Record the symbol `node` declares, nested under the innermost open
    /// symbol. An `impl` is named `Trait for Type` (or just `Type`); a function
    /// inside an `impl` or `trait` is a method and records the type it belongs to.
    pub fn push_symbol(&mut self, node: usize) -> (r: Option<usize>)
        requires
            old(self).inv(),
            old(self).valid(node as int),
        ensures
            final(self).inv(),
            final(self).extends(*old(self)),
            final(self).out.refs@ == old(self).out.refs@,
            final(self).out.imports@ == old(self).out.imports@,
            final(self).out.string_literals@ == old(self).out.string_literals@,
            final(self).sc == old(self).sc,
            r is None ==> final(self).out.symbols@ == old(self).out.symbols@,
            r matches Some(i) ==> {
                let s = final(self).out.symbols@[i as int];
                &&& i == old(self).out.symbols@.len()
                &&& final(self).out.symbols@ == old(self).out.symbols@.push(s)
                &&& old(self).declared_kind(node as int) == Some(s.kind@)
                &&& s.parent_index == (if old(self).stack@.len() > 0 { Some(old(self).stack@.last()) } else { None })
                &&& s.start_line == old(self).tree.line_of(node as int)
                &&& s.end_line == old(self).tree.end_line_of(node as int)
                &&& s.start_byte == old(self).tree.start_of(node as int)
                &&& s.end_byte == old(self).tree.end_of(node as int)
                &&& s.signature is None
                &&& Some(s.name@) == old(self).decl_name(node as int)
                &&& s.is_exported == old(self).tree.kid_of_kind(node as int, "visibility_modifier"@) is Some
                &&& s.param_count == (if s.kind@ == "method"@ || s.kind@ == "function"@ { old(self).spec_param_count(node as int) } else { None })
                &&& opt_chars(s.owner_type) == (if s.kind@ == "method"@ { Walker::owner_of(old(self).out.symbols@, old(self).stack@) } else { None })
            },
            old(self).declared_kind(node as int) is None ==> r is None,
            r is Some <==> old(self).decl_name(node as int) is Some,
    {
        let kind: &str;
        let name: String;
        if self.tree.is(node, "impl_item") {
            let ty = match self.tree.field_child(node, "type") {
                Some(t) => t,
                None => { return None; },
            };
            let ty_txt = self.text(ty);
            name = match self.tree.field_child(node, "trait") {
                Some(tr) => {
                    let t = self.text(tr);
                    let head = concat(t.as_str(), " for ");
                    concat(head.as_str(), ty_txt.as_str())
                },
                None => ty_txt,
            };
            kind = "impl";
        } else if self.tree.is(node, "function_item") {
            let n = match self.tree.field_child(node, "name") {
                Some(n) => n,
                None => { return None; },
            };
            kind = if self.parent_is_impl_or_trait() { "method" } else { "function" };
            name = self.text(n);
        } else {
            kind = match self.item_kind(node) {
                Some(k) => k,
                None => { return None; },
            };
            name = match self.named(node) {
                Some(n) => n,
                None => { return None; },
            };
        }
        let parent_index = if self.stack.len() > 0 { Some(self.stack[self.stack.len() - 1]) } else { None };
        let is_method = str_eq(kind, "method");
        let is_fn = is_method || str_eq(kind, "function");
        let param_count = if is_fn { self.param_count(node) } else { None };
        let owner_type = if is_method { self.enclosing_type_name() } else { None };
        let sym = NewSymbol {
            name,
            kind: kind.to_string(),
            parent_index,
            is_exported: self.has_pub(node),
            start_line: self.tree.line(node),
            end_line: self.tree.end_line(node),
            start_byte: self.tree.start(node),
            end_byte: self.tree.end(node),
            signature: None,
            param_count,
            owner_type,
        };
        let i = self.add_symbol(sym);
        Some(i)
    }

    /// The parameter a node of a function's parameter list binds, typed by the
    /// trimmed text of its `type`.
    pub open spec fn rust_param_entry(&self, p: usize) -> Option<(Seq<char>, Seq<char>, Option<Seq<char>>)> {
        let t = self.tree;
        if t.kind_of(p as int) == "parameter"@ {
            match t.field_of(p as int, "pattern"@) {
                Some(pat) if t.text_of(pat as int).len() > 0 => Some((t.text_of(pat as int), "param"@,
                    match t.field_of(p as int, "type"@) {
                        Some(ty) => Some(crate::text::trim(t.text_of(ty as int))),
                        None => None,
                    })),
                _ => None,
            }
        } else {
            None
        }
    }

    /// The type names of the `parameter`s among `s`.
    pub open spec fn param_type_nodes(t: crate::syntax::SyntaxTree, s: Seq<usize>, skip: Seq<Seq<char>>) -> Seq<usize>
        decreases s.len(),
    {
        if s.len() == 0 {
            Seq::empty()
        } else {
            let rest = Self::param_type_nodes(t, s.drop_last(), skip);
            let p = s.last() as int;
            if t.kind_of(p) == "parameter"@ {
                match t.field_of(p, "type"@) {
                    Some(ty) => rest + Self::type_ref_nodes(t, ty as int, skip),
                    None => rest,
                }
            } else {
                rest
            }
        }
    }

    /// The type names of a function's parameters, then of its return type.
    pub open spec fn signature_types(&self, func: int) -> Seq<usize> {
        let t = self.tree;
        let g = self.spec_generic_names(func);
        (match t.field_of(func, "parameters"@) {
            Some(p) => Self::param_type_nodes(t, t.named_kids(p as int), g),
            None => Seq::empty(),
        }) + (match t.field_of(func, "return_type"@) {
            Some(rt) => Self::type_ref_nodes(t, rt as int, g),
            None => Seq::empty(),
        })
    }

    pub open spec fn rust_param_entries(&self, s: Seq<usize>) -> Seq<(Seq<char>, Seq<char>, Option<Seq<char>>)> {
        Self::collect_entries(s, |p: usize| self.rust_param_entry(p))
    }

    /// Bind a function's parameters in its scope and record the types its
    /// parameters and return type name (its own generic parameters aside).
    pub fn bind_signature(&mut self, func: usize)
        requires
            old(self).inv(),
            old(self).valid(func as int),
        ensures
            final(self).inv(),
            final(self).extends(*old(self)),
            final(self).out.symbols@ == old(self).out.symbols@,
            final(self).out.imports@ == old(self).out.imports@,
            final(self).sc.scopes@ == old(self).sc.scopes@,
            Self::binds_all(old(self).sc.bindings@, final(self).sc.bindings@, old(self).sc.spec_current(),
                match old(self).tree.field_of(func as int, "parameters"@) {
                    Some(p) => old(self).rust_param_entries(old(self).tree.named_kids(p as int)),
                    None => Seq::empty(),
                }),
            crate::analysis::grows(old(self).out.refs@, final(self).out.refs@),
            type_refs_at(old(self).tree, final(self).out.refs@, old(self).out.refs@.len() as int, old(self).signature_types(func as int)),
    {
        let generics = self.generic_param_names(func);
        assert(names_view(generics@) =~= old(self).spec_generic_names(func as int));
        let ghost g = names_view(generics@);
        assert(type_refs_at(old(self).tree, self.out.refs@, old(self).out.refs@.len() as int, Seq::empty()));
        assert(Self::binds_all(old(self).sc.bindings@, old(self).sc.bindings@, old(self).sc.spec_current(), Seq::empty()));
        match self.tree.field_child(func, "parameters") {
            Some(params) => {
                let kids = self.tree.named_children(params);
                let mut j: usize = 0;
                while j < kids.len()
                    invariant
                        self.inv(),
                        self.extends(*old(self)),
                        self.out.symbols@ == old(self).out.symbols@,
                        self.out.imports@ == old(self).out.imports@,
                        self.sc.scopes@ == old(self).sc.scopes@,
                        self.tree == old(self).tree,
                        0 <= j <= kids@.len(),
                        forall|x: int| 0 <= x < kids@.len() ==> #[trigger] kids@[x] < self.tree.size(),
                        Self::binds_all(old(self).sc.bindings@, self.sc.bindings@, old(self).sc.spec_current(),
                            old(self).rust_param_entries(kids@.take(j as int))),
                        kids@ == old(self).tree.named_kids(params as int),
                        g == names_view(generics@),
                        crate::analysis::grows(old(self).out.refs@, self.out.refs@),
                        type_refs_at(old(self).tree, self.out.refs@, old(self).out.refs@.len() as int,
                            Self::param_type_nodes(old(self).tree, kids@.take(j as int), g)),
                    decreases kids@.len() - j,
                {
                    let p = kids[j];
                    assert(kids@.take(j + 1).drop_last() =~= kids@.take(j as int));
                    let ghost es = old(self).rust_param_entries(kids@.take(j as int));
                    let ghost tn = Self::param_type_nodes(old(self).tree, kids@.take(j as int), g);
                    j = j + 1;
                    if !self.tree.is(p, "parameter") {
                        continue;
                    }
                    let ty = self.tree.field_child(p, "type");
                    let ghost r0 = self.out.refs@;
                    match ty {
                        Some(t) => {
                            self.collect_type_refs(t, &generics);
                            proof {
                                lemma_type_refs_concat(old(self).tree, old(self).out.refs@, r0, self.out.refs@, tn,
                                    Self::type_ref_nodes(old(self).tree, t as int, g));
                            }
                        },
                        None => {},
                    }
                    match self.tree.field_child(p, "pattern") {
                        Some(pat) => {
                            let name = self.text(pat);
                            let ty_text = match ty {
                                Some(t) => {
                                    let raw = self.text(t);
                                    Some(str_trim(raw.as_str()))
                                },
                                None => None,
                            };
                            let ghost mid = self.sc.bindings@;
                            let ghost tyv = opt_chars(ty_text);
                            self.bind(name.as_str(), "param", None, None, ty_text);
                            proof {
                                if name@.len() > 0 {
                                    Self::lemma_binds_push(old(self).sc.bindings@, mid, self.sc.bindings@, old(self).sc.spec_current(), es,
                                        (name@, "param"@, tyv));
                                }
                            }
                        },
                        None => {},
                    }
                }
                assert(kids@.take(kids@.len() as int) =~= kids@);
            },
            None => {},
        }
        let ghost pn = match old(self).tree.field_of(func as int, "parameters"@) {
            Some(p) => Self::param_type_nodes(old(self).tree, old(self).tree.named_kids(p as int), g),
            None => Seq::empty(),
        };
        let ghost r1 = self.out.refs@;
        match self.tree.field_child(func, "return_type") {
            Some(rt) => {
                self.collect_type_refs(rt, &generics);
                proof {
                    lemma_type_refs_concat(old(self).tree, old(self).out.refs@, r1, self.out.refs@, pn,
                        Self::type_ref_nodes(old(self).tree, rt as int, g));
                }
            },
            None => {
                assert(pn + Seq::<usize>::empty() =~= pn);
            },
        }
    }

    /// Bind a struct's named fields with their simple type names, and record
    /// the types its fields name.
    pub fn bind_struct_fields(&mut self, st: usize)
        requires
            old(self).inv(),
            old(self).valid(st as int),
        ensures
            final(self).inv(),
            final(self).extends(*old(self)),
            final(self).out.symbols@ == old(self).out.symbols@,
            final(self).out.imports@ == old(self).out.imports@,
            final(self).sc.scopes@ == old(self).sc.scopes@,
            Self::binds_all(old(self).sc.bindings@, final(self).sc.bindings@, old(self).sc.spec_current(),
                match old(self).tree.field_of(st as int, "body"@) {
                    Some(b) => old(self).field_entries(old(self).tree.named_kids(b as int)),
                    None => Seq::empty(),
                }),
            crate::analysis::grows(old(self).out.refs@, final(self).out.refs@),
            type_refs_at(old(self).tree, final(self).out.refs@, old(self).out.refs@.len() as int,
                match old(self).tree.field_of(st as int, "body"@) {
                    Some(b) => Self::field_list_types(old(self).tree, old(self).tree.named_kids(b as int), old(self).spec_generic_names(st as int)),
                    None => Seq::empty(),
                }),
    {
        let generics = self.generic_param_names(st);
        assert(names_view(generics@) =~= old(self).spec_generic_names(st as int));
        assert(type_refs_at(old(self).tree, self.out.refs@, old(self).out.refs@.len() as int, Seq::empty()));
        assert(Self::binds_all(old(self).sc.bindings@, old(self).sc.bindings@, old(self).sc.spec_current(), Seq::empty()));
        match self.tree.field_child(st, "body") {
            Some(body) => { self.collect_field_list_types(body, &generics, true); },
            None => {},
        }
    }

    /// `let name[: T] = ..` binds a local (destructuring patterns are skipped).
    pub fn collect_let(&mut self, node: usize)
        requires
            old(self).inv(),
            old(self).valid(node as int),
        ensures
            final(self).inv(),
            final(self).extends(*old(self)),
            final(self).out == old(self).out,
            final(self).sc.scopes@ == old(self).sc.scopes@,
            final(self).sc.bindings@.len() <= old(self).sc.bindings@.len() + 1,
            final(self).sc.bindings@.len() > old(self).sc.bindings@.len() ==> {
                &&& final(self).sc.bindings@.last().binding_kind@ == "local"@
                &&& final(self).sc.bindings@.last().scope_index == old(self).sc.spec_current()
            },
            ({
                let t = old(self).tree;
                match t.field_of(node as int, "pattern"@) {
                    Some(p) if t.kind_of(p as int) == "identifier"@ => Walker::bound(old(self).sc.bindings@, final(self).sc.bindings@,
                        old(self).sc.spec_current(), t.text_of(p as int), "local"@, None, None,
                        match t.field_of(node as int, "type"@) {
                            Some(ty) => Some(spec_simple_type_name(t.text_of(ty as int))),
                            None => None,
                        }),
                    _ => final(self).sc.bindings@ == old(self).sc.bindings@,
                }
            }),
    {
        let pat = match self.tree.field_child(node, "pattern") {
            Some(p) => p,
            None => { return; },
        };
        if !self.tree.is(pat, "identifier") {
            return;
        }
        let name = self.text(pat);
        let ty = match self.tree.field_child(node, "type") {
            Some(t) => {
                let raw = self.text(t);
                Some(simple_type_name(raw.as_str()))
            },
            None => None,
        };
        self.bind(name.as_str(), "local", None, None, ty);
    }
}

} // verus!

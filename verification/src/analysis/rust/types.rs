//! Type-position references: the edges that tie a signature or a field to the
//! type it names. Without them a struct used only as a parameter type would
//! look like dead code.

use vstd::prelude::*;
use crate::cache::models::NewRef;
use crate::text::str_eq;
use super::Walker;
use crate::syntax::SyntaxTree;
use super::helpers::simple_type_name;

verus! {

/// `names` holds `s`.
pub open spec fn holds_name(names: Seq<String>, s: Seq<char>) -> bool {
    exists|i: int| 0 <= i < names.len() && (#[trigger] names[i])@ == s
}

pub fn contains_name(names: &Vec<String>, s: &str) -> (r: bool)
    ensures
        r == holds_name(names@, s@),
{
    let mut i: usize = 0;
    while i < names.len()
        invariant
            0 <= i <= names@.len(),
            forall|k: int| 0 <= k < i ==> (#[trigger] names@[k])@ != s@,
        decreases names@.len() - i,
    {
        if str_eq(names[i].as_str(), s) {
            return true;
        }
        i = i + 1;
    }
    false
}

/// The texts of `names`.
pub open spec fn names_view(names: Seq<String>) -> Seq<Seq<char>> {
    names.map_values(|s: String| s@)
}

/// `refs` holds, from index `at` on, one type reference per node of `nodes`.
pub open spec fn type_refs_at(t: SyntaxTree, refs: Seq<NewRef>, at: int, nodes: Seq<usize>) -> bool {
    &&& refs.len() == at + nodes.len()
    &&& forall|k: int| 0 <= k < nodes.len() ==> is_type_ref_in(t, refs[at + k], (#[trigger] nodes[k]) as int)
}

pub proof fn lemma_type_refs_concat(w: SyntaxTree, a: Seq<NewRef>, b: Seq<NewRef>, c: Seq<NewRef>, n1: Seq<usize>, n2: Seq<usize>)
    requires
        crate::analysis::grows(a, b),
        type_refs_at(w, b, a.len() as int, n1),
        crate::analysis::grows(b, c),
        type_refs_at(w, c, b.len() as int, n2),
    ensures
        crate::analysis::grows(a, c),
        type_refs_at(w, c, a.len() as int, n1 + n2),
{
    let ns = n1 + n2;
    assert forall|k: int| 0 <= k < ns.len() implies is_type_ref_in(w, c[a.len() + k], (#[trigger] ns[k]) as int) by {
        if k < n1.len() {
            assert(ns[k] == n1[k]);
            assert(c[a.len() + k] == b[a.len() + k]);
        } else {
            assert(ns[k] == n2[k - n1.len()]);
            assert(a.len() + k == b.len() + (k - n1.len()));
        }
    }
}

/// A reference to the type named by node `at` of `t`.
pub open spec fn is_type_ref_in(t: SyntaxTree, r: NewRef, at: int) -> bool {
    &&& r.name@ == t.text_of(at)
    &&& r.ref_kind@ == "type"@
    &&& r.receiver is None
    &&& r.start_line == t.line_of(at)
    &&& r.start_byte == t.start_of(at)
    &&& r.name_start_byte == Some(t.start_of(at))
    &&& r.arg_count is None
    &&& r.receiver_kind@ == "none"@
    &&& !r.local_only
    &&& r.resolved_local_symbol_index is None
}

/// A reference to the type named `name` at node `at`.
pub open spec fn is_type_ref_at(w: Walker, r: NewRef, at: int) -> bool {
    &&& r.name@ == w.tree.text_of(at)
    &&& r.ref_kind@ == "type"@
    &&& r.receiver is None
    &&& r.start_line == w.tree.line_of(at)
    &&& r.start_byte == w.tree.start_of(at)
    &&& r.name_start_byte == Some(w.tree.start_of(at))
    &&& r.arg_count is None
    &&& r.receiver_kind@ == "none"@
    &&& !r.local_only
    &&& r.resolved_local_symbol_index is None
}

impl Walker {
    /// The `type_identifier` nodes of the type expression at `ty`, in order,
    /// but for empty names and the names in `skip`.
    pub open spec fn type_ref_nodes(t: SyntaxTree, ty: int, skip: Seq<Seq<char>>) -> Seq<usize>
        decreases t.size() - ty, 1nat, 0nat,
    {
        if !(0 <= ty < t.size()) {
            Seq::empty()
        } else if t.kind_of(ty) == "type_identifier"@ {
            if t.text_of(ty).len() == 0 || skip.contains(t.text_of(ty)) { Seq::empty() } else { seq![ty as usize] }
        } else {
            Self::type_ref_nodes_in(t, t.named_kids(ty), skip, ty)
        }
    }

    pub open spec fn type_ref_nodes_in(t: SyntaxTree, kids: Seq<usize>, skip: Seq<Seq<char>>, parent: int) -> Seq<usize>
        decreases t.size() - parent, 0nat, kids.len(),
    {
        if kids.len() == 0 {
            Seq::empty()
        } else {
            let rest = Self::type_ref_nodes_in(t, kids.drop_last(), skip, parent);
            if parent < kids.last() < t.size() {
                rest + Self::type_ref_nodes(t, kids.last() as int, skip)
            } else {
                rest
            }
        }
    }

    /// The type names of a struct or variant body's members: a tuple member's
    /// own type, or a named field's `type`.
    pub open spec fn field_list_types(t: SyntaxTree, kids: Seq<usize>, skip: Seq<Seq<char>>) -> Seq<usize>
        decreases kids.len(),
    {
        if kids.len() == 0 {
            Seq::empty()
        } else {
            let rest = Self::field_list_types(t, kids.drop_last(), skip);
            let k = kids.last() as int;
            if t.has_field(k, "type"@) {
                rest + Self::type_ref_nodes(t, k, skip)
            } else {
                match t.field_of(k, "type"@) {
                    Some(ty) => rest + Self::type_ref_nodes(t, ty as int, skip),
                    None => rest,
                }
            }
        }
    }

    /// The type names of an enum's variant payloads.
    pub open spec fn variant_types(t: SyntaxTree, vs: Seq<usize>, skip: Seq<Seq<char>>) -> Seq<usize>
        decreases vs.len(),
    {
        if vs.len() == 0 {
            Seq::empty()
        } else {
            let rest = Self::variant_types(t, vs.drop_last(), skip);
            match t.field_of(vs.last() as int, "body"@) {
                Some(p) => rest + Self::field_list_types(t, t.named_kids(p as int), skip),
                None => rest,
            }
        }
    }

    /// One `type` reference per nominal type named inside a type expression:
    /// `&mut Vec<Foo>` yields `Vec` and `Foo`; primitives, lifetimes and the
    /// names in `skip` (the item's own generic parameters) yield nothing. The
    /// reference points at the identifier token itself.
    pub fn collect_type_refs(&mut self, ty: usize, skip: &Vec<String>)
        requires
            old(self).inv(),
            old(self).valid(ty as int),
        ensures
            final(self).inv(),
            final(self).extends(*old(self)),
            final(self).out.symbols@ == old(self).out.symbols@,
            final(self).out.imports@ == old(self).out.imports@,
            final(self).out.string_literals@ == old(self).out.string_literals@,
            final(self).sc == old(self).sc,
            crate::analysis::grows(old(self).out.refs@, final(self).out.refs@),
            forall|k: int| old(self).out.refs@.len() <= k < final(self).out.refs@.len() ==> {
                let r = #[trigger] final(self).out.refs@[k];
                &&& r.ref_kind@ == "type"@
                &&& r.receiver is None
                &&& r.name@.len() > 0
                &&& !holds_name(skip@, r.name@)
                &&& r.resolved_local_symbol_index is None
            },
            old(self).tree.kind_of(ty as int) == "type_identifier"@ ==> {
                let t = old(self).tree.text_of(ty as int);
                if t.len() == 0 || holds_name(skip@, t) {
                    final(self).out.refs@ == old(self).out.refs@
                } else {
                    &&& final(self).out.refs@.len() == old(self).out.refs@.len() + 1
                    &&& is_type_ref_at(*old(self), final(self).out.refs@.last(), ty as int)
                }
            },
            type_refs_at(old(self).tree, final(self).out.refs@, old(self).out.refs@.len() as int,
                Self::type_ref_nodes(old(self).tree, ty as int, names_view(skip@))),
        decreases old(self).tree.size() - ty,
    {
        if self.tree.is(ty, "type_identifier") {
            let name = self.text(ty);
            proof {
                if holds_name(skip@, name@) {
                    let i = choose|i: int| 0 <= i < skip@.len() && (#[trigger] skip@[i])@ == name@;
                    assert(names_view(skip@)[i] == name@);
                }
                if names_view(skip@).contains(name@) {
                    let i = choose|i: int| 0 <= i < names_view(skip@).len() && names_view(skip@)[i] == name@;
                    assert(skip@[i]@ == name@);
                }
            }
            if name.as_str().is_empty() || contains_name(skip, name.as_str()) {
                return;
            }
            let at = self.tree.start(ty);
            let r = NewRef {
                name,
                ref_kind: "type".to_string(),
                receiver: None,
                start_line: self.tree.line(ty),
                start_byte: at,
                name_start_byte: Some(at),
                arg_count: None,
                receiver_kind: "none".to_string(),
                local_only: false,
                resolved_local_symbol_index: None,
            };
            self.add_ref(r);
            return;
        }
        // `Vec<Foo>`, `&mut T`, `dyn Trait`, `(A, B)`: every nested identifier
        // records itself. A scoped path's segments are plain identifiers, so
        // only its last name matches.
        let kids = self.tree.named_children(ty);
        let mut j: usize = 0;
        assert(type_refs_at(old(self).tree, self.out.refs@, old(self).out.refs@.len() as int, Seq::empty()));
        while j < kids.len()
            invariant
                self.tree == old(self).tree,
                kids@ == old(self).tree.named_kids(ty as int),
                type_refs_at(old(self).tree, self.out.refs@, old(self).out.refs@.len() as int,
                    Self::type_ref_nodes_in(old(self).tree, kids@.take(j as int), names_view(skip@), ty as int)),
                self.inv(),
                self.extends(*old(self)),
                self.out.symbols@ == old(self).out.symbols@,
                self.out.imports@ == old(self).out.imports@,
                self.out.string_literals@ == old(self).out.string_literals@,
                self.sc == old(self).sc,
                crate::analysis::grows(old(self).out.refs@, self.out.refs@),
                forall|k: int| old(self).out.refs@.len() <= k < self.out.refs@.len() ==> {
                    let r = #[trigger] self.out.refs@[k];
                    &&& r.ref_kind@ == "type"@
                    &&& r.receiver is None
                    &&& r.name@.len() > 0
                    &&& !holds_name(skip@, r.name@)
                    &&& r.resolved_local_symbol_index is None
                },
                0 <= j <= kids@.len(),
                forall|x: int| 0 <= x < kids@.len() ==> ty < #[trigger] kids@[x] < self.tree.size(),
            decreases kids@.len() - j,
        {
            let c = kids[j];
            let ghost before = *self;
            assert(kids@.take(j + 1).drop_last() =~= kids@.take(j as int));
            self.collect_type_refs(c, skip);
            proof {
                lemma_type_refs_concat(old(self).tree, old(self).out.refs@, before.out.refs@, self.out.refs@,
                    Self::type_ref_nodes_in(old(self).tree, kids@.take(j as int), names_view(skip@), ty as int),
                    Self::type_ref_nodes(old(self).tree, c as int, names_view(skip@)));
                let n0 = old(self).out.refs@.len() as int;
                let n1 = before.out.refs@.len() as int;
                assert forall|k: int| n0 <= k < self.out.refs@.len() implies {
                    let r = #[trigger] self.out.refs@[k];
                    &&& r.ref_kind@ == "type"@
                    &&& r.receiver is None
                    &&& r.name@.len() > 0
                    &&& !holds_name(skip@, r.name@)
                    &&& r.resolved_local_symbol_index is None
                } by {
                    if k < n1 {
                        assert(self.out.refs@[k] == before.out.refs@[k]);
                    }
                }
            }
            j = j + 1;
        }
        assert(kids@.take(kids@.len() as int) =~= kids@);
    }

    /// The node naming generic parameter `p`: the parameter itself when it is
    /// a bare `type_identifier`, else its `name` field, else its `left` field.
    pub open spec fn generic_name_node(&self, p: int) -> Option<usize> {
        if self.tree.kind_of(p) == "type_identifier"@ {
            Some(p as usize)
        } else {
            match self.tree.field_of(p, "name"@) {
                Some(n) => Some(n),
                None => self.tree.field_of(p, "left"@),
            }
        }
    }

    /// The type names the generic parameters `s` declare, in order.
    pub open spec fn generic_names_in(&self, s: Seq<usize>) -> Seq<Seq<char>>
        decreases s.len(),
    {
        if s.len() == 0 {
            Seq::empty()
        } else {
            let rest = self.generic_names_in(s.drop_last());
            match self.generic_name_node(s.last() as int) {
                Some(n) => if 0 <= n < self.tree.size() && self.tree.kind_of(n as int) == "type_identifier"@
                    && self.tree.text_of(n as int).len() > 0 {
                    rest.push(self.tree.text_of(n as int))
                } else {
                    rest
                },
                None => rest,
            }
        }
    }

    /// The type names node `node`'s `type_parameters` list declares.
    pub open spec fn spec_generic_names(&self, node: int) -> Seq<Seq<char>> {
        match self.tree.field_of(node, "type_parameters"@) {
            Some(p) => self.generic_names_in(self.tree.named_kids(p as int)),
            None => Seq::empty(),
        }
    }

    /// The field a member of a struct body binds: a named field declaration
    /// with a type (a tuple member, which fills the list's own `type` field, binds nothing).
    pub open spec fn field_entry(&self, k: usize) -> Option<(Seq<char>, Seq<char>, Option<Seq<char>>)> {
        let t = self.tree;
        if t.has_field(k as int, "type"@) {
            None
        } else {
            match (t.field_of(k as int, "type"@), t.field_of(k as int, "name"@)) {
                (Some(ty), Some(n)) if t.text_of(n as int).len() > 0 =>
                    Some((t.text_of(n as int), "field"@, Some(super::helpers::spec_simple_type_name(t.text_of(ty as int))))),
                _ => None,
            }
        }
    }

    pub open spec fn field_entries(&self, s: Seq<usize>) -> Seq<(Seq<char>, Seq<char>, Option<Seq<char>>)> {
        Self::collect_entries(s, |k: usize| self.field_entry(k))
    }

    /// Names declared by an item's `<T, 'a, const N: usize>` list: placeholders,
    /// never a project type. `<T>` is a `type_parameter` with a `name`,
    /// `<T: Clone>` a `constrained_type_parameter` with a `left`; lifetime and
    /// const parameters name no type.
    pub fn generic_param_names(&self, node: usize) -> (r: Vec<String>)
        requires
            self.inv(),
            self.valid(node as int),
        ensures
            forall|k: int| 0 <= k < r@.len() ==> (#[trigger] r@[k])@.len() > 0,
            r@.len() == self.spec_generic_names(node as int).len(),
            forall|k: int| 0 <= k < r@.len() ==> (#[trigger] r@[k])@ == self.spec_generic_names(node as int)[k],
    {
        let mut out: Vec<String> = Vec::new();
        let params = match self.tree.field_child(node, "type_parameters") {
            Some(p) => p,
            None => { return out; },
        };
        let kids = self.tree.named_children(params);
        let mut j: usize = 0;
        while j < kids.len()
            invariant
                self.inv(),
                0 <= j <= kids@.len(),
                forall|x: int| 0 <= x < kids@.len() ==> #[trigger] kids@[x] < self.tree.size(),
                forall|k: int| 0 <= k < out@.len() ==> (#[trigger] out@[k])@.len() > 0,
                out@.len() == self.generic_names_in(kids@.take(j as int)).len(),
                forall|k: int| 0 <= k < out@.len() ==> (#[trigger] out@[k])@ == self.generic_names_in(kids@.take(j as int))[k],
            decreases kids@.len() - j,
        {
            let p = kids[j];
            assert(kids@.take(j + 1).drop_last() =~= kids@.take(j as int));
            j = j + 1;
            let name = if self.tree.is(p, "type_identifier") {
                Some(p)
            } else {
                match self.tree.field_child(p, "name") {
                    Some(n) => Some(n),
                    None => self.tree.field_child(p, "left"),
                }
            };
            match name {
                Some(n) => {
                    if self.tree.is(n, "type_identifier") {
                        let text = self.text(n);
                        if !text.as_str().is_empty() {
                            out.push(text);
                        }
                    }
                },
                None => {},
            }
        }
        assert(kids@.take(kids@.len() as int) =~= kids@);
        out
    }

    /// Types named by a struct or enum-variant body. `{ a: Foo }` holds
    /// `field_declaration`s that carry a `type`; the tuple form `(Foo)` holds
    /// the type nodes directly, each in the list's own `type` field. With
    /// `bind_fields`, each named field is also bound in the current scope with
    /// its simple type name.
    pub fn collect_field_list_types(&mut self, list: usize, skip: &Vec<String>, bind_fields: bool)
        requires
            old(self).inv(),
            old(self).valid(list as int),
        ensures
            final(self).inv(),
            final(self).extends(*old(self)),
            final(self).out.symbols@ == old(self).out.symbols@,
            final(self).out.imports@ == old(self).out.imports@,
            final(self).sc.scopes@ == old(self).sc.scopes@,
            !bind_fields ==> final(self).sc.bindings@ == old(self).sc.bindings@,
            crate::analysis::grows(old(self).out.refs@, final(self).out.refs@),
            type_refs_at(old(self).tree, final(self).out.refs@, old(self).out.refs@.len() as int,
                Self::field_list_types(old(self).tree, old(self).tree.named_kids(list as int), names_view(skip@))),
            bind_fields ==> Self::binds_all(old(self).sc.bindings@, final(self).sc.bindings@, old(self).sc.spec_current(),
                old(self).field_entries(old(self).tree.named_kids(list as int))),
    {
        let kids = self.tree.named_children(list);
        let mut j: usize = 0;
        while j < kids.len()
            invariant
                self.inv(),
                self.extends(*old(self)),
                self.out.symbols@ == old(self).out.symbols@,
                self.out.imports@ == old(self).out.imports@,
                self.sc.scopes@ == old(self).sc.scopes@,
                !bind_fields ==> self.sc.bindings@ == old(self).sc.bindings@,
                self.tree == old(self).tree,
                0 <= j <= kids@.len(),
                forall|x: int| 0 <= x < kids@.len() ==> #[trigger] kids@[x] < self.tree.size(),
                bind_fields ==> Self::binds_all(old(self).sc.bindings@, self.sc.bindings@, old(self).sc.spec_current(),
                    old(self).field_entries(kids@.take(j as int))),
                kids@ == old(self).tree.named_kids(list as int),
                crate::analysis::grows(old(self).out.refs@, self.out.refs@),
                type_refs_at(old(self).tree, self.out.refs@, old(self).out.refs@.len() as int,
                    Self::field_list_types(old(self).tree, kids@.take(j as int), names_view(skip@))),
            decreases kids@.len() - j,
        {
            let k = kids[j];
            assert(kids@.take(j + 1).drop_last() =~= kids@.take(j as int));
            let ghost es = old(self).field_entries(kids@.take(j as int));
            let ghost tn = Self::field_list_types(old(self).tree, kids@.take(j as int), names_view(skip@));
            let ghost r0 = self.out.refs@;
            j = j + 1;
            let in_type_field = match &self.tree.nodes[k].field {
                Some(f) => str_eq(f.as_str(), "type"),
                None => false,
            };
            if in_type_field {
                self.collect_type_refs(k, skip);
                proof {
                    lemma_type_refs_concat(old(self).tree, old(self).out.refs@, r0, self.out.refs@, tn,
                        Self::type_ref_nodes(old(self).tree, k as int, names_view(skip@)));
                }
                continue;
            }
            let t = match self.tree.field_child(k, "type") {
                Some(t) => t,
                None => {
                    assert(tn =~= Self::field_list_types(old(self).tree, kids@.take(j as int), names_view(skip@)));
                    continue;
                },
            };
            if bind_fields {
                match self.tree.field_child(k, "name") {
                    Some(n) => {
                        let name = self.text(n);
                        let raw = self.text(t);
                        let ty = simple_type_name(raw.as_str());
                        let ghost mid = self.sc.bindings@;
                        let ghost tyv = ty@;
                        self.bind(name.as_str(), "field", None, None, Some(ty));
                        proof {
                            if name@.len() > 0 {
                                Self::lemma_binds_push(old(self).sc.bindings@, mid, self.sc.bindings@, old(self).sc.spec_current(), es,
                                    (name@, "field"@, Some(tyv)));
                            }
                        }
                    },
                    None => {},
                }
            }
            let ghost r1 = self.out.refs@;
            self.collect_type_refs(t, skip);
            proof {
                lemma_type_refs_concat(old(self).tree, old(self).out.refs@, r1, self.out.refs@, tn,
                    Self::type_ref_nodes(old(self).tree, t as int, names_view(skip@)));
            }
        }
        assert(kids@.take(kids@.len() as int) =~= kids@);
    }

    /// Types named by an enum's variant payloads: `Run(RunArgs)` ties the enum
    /// to `RunArgs`. A unit variant names no type.
    pub fn collect_enum_variant_types(&mut self, en: usize)
        requires
            old(self).inv(),
            old(self).valid(en as int),
        ensures
            final(self).inv(),
            final(self).extends(*old(self)),
            final(self).out.symbols@ == old(self).out.symbols@,
            final(self).out.imports@ == old(self).out.imports@,
            final(self).sc.scopes@ == old(self).sc.scopes@,
            final(self).sc.bindings@ == old(self).sc.bindings@,
            crate::analysis::grows(old(self).out.refs@, final(self).out.refs@),
            type_refs_at(old(self).tree, final(self).out.refs@, old(self).out.refs@.len() as int,
                match old(self).tree.field_of(en as int, "body"@) {
                    Some(b) => Self::variant_types(old(self).tree, old(self).tree.named_kids(b as int), old(self).spec_generic_names(en as int)),
                    None => Seq::empty(),
                }),
    {
        let generics = self.generic_param_names(en);
        assert(names_view(generics@) =~= old(self).spec_generic_names(en as int));
        assert(type_refs_at(old(self).tree, self.out.refs@, old(self).out.refs@.len() as int, Seq::empty()));
        let body = match self.tree.field_child(en, "body") {
            Some(b) => b,
            None => { return; },
        };
        let variants = self.tree.named_children(body);
        let mut j: usize = 0;
        while j < variants.len()
            invariant
                self.tree == old(self).tree,
                variants@ == old(self).tree.named_kids(body as int),
                names_view(generics@) == old(self).spec_generic_names(en as int),
                crate::analysis::grows(old(self).out.refs@, self.out.refs@),
                type_refs_at(old(self).tree, self.out.refs@, old(self).out.refs@.len() as int,
                    Self::variant_types(old(self).tree, variants@.take(j as int), names_view(generics@))),
                self.inv(),
                self.extends(*old(self)),
                self.out.symbols@ == old(self).out.symbols@,
                self.out.imports@ == old(self).out.imports@,
                self.sc.scopes@ == old(self).sc.scopes@,
                self.sc.bindings@ == old(self).sc.bindings@,
                0 <= j <= variants@.len(),
                forall|x: int| 0 <= x < variants@.len() ==> #[trigger] variants@[x] < self.tree.size(),
            decreases variants@.len() - j,
        {
            let v = variants[j];
            assert(variants@.take(j + 1).drop_last() =~= variants@.take(j as int));
            let ghost tn = Self::variant_types(old(self).tree, variants@.take(j as int), names_view(generics@));
            let ghost r0 = self.out.refs@;
            j = j + 1;
            match self.tree.field_child(v, "body") {
                Some(payload) => {
                    self.collect_field_list_types(payload, &generics, false);
                    proof {
                        lemma_type_refs_concat(old(self).tree, old(self).out.refs@, r0, self.out.refs@, tn,
                            Self::field_list_types(old(self).tree, old(self).tree.named_kids(payload as int), names_view(generics@)));
                    }
                },
                None => {},
            }
        }
        assert(variants@.take(variants@.len() as int) =~= variants@);
    }
}

} // verus!

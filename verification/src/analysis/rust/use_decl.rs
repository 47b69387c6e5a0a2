//! `use` declarations, flattened into one import per path.

use vstd::prelude::*;
use crate::syntax::SyntaxTree;
use crate::cache::models::NewImport;
use crate::text::{after_last, chars_of, opt_chars, starts_with_exec, str_eq, string_of};
use super::Walker;
use super::helpers::{after_last_exec, join, spec_join};

verus! {

/// One path a `use` tree brings in.
pub struct UsePath {
    pub path: String,
    pub alias: Option<String>,
    /// `path::*`.
    pub wildcard: bool,
}

impl UsePath {
    pub fn plain(path: String) -> (r: Self)
        ensures
            r.path == path,
            r.alias is None,
            !r.wildcard,
    {
        UsePath { path, alias: None, wildcard: false }
    }
}

/// A path is relative when it starts at `self`, `super` or `crate`.
pub open spec fn is_relative_path(p: Seq<char>) -> bool {
    ||| p == "self"@ || crate::text::starts_with(p, "self::"@)
    ||| p == "super"@ || crate::text::starts_with(p, "super::"@)
    ||| p == "crate"@ || crate::text::starts_with(p, "crate::"@)
}

fn relative_path(p: &str) -> (r: bool)
    ensures
        r == is_relative_path(p@),
{
    let c = chars_of(p);
    let s1 = chars_of("self::");
    let s2 = chars_of("super::");
    let s3 = chars_of("crate::");
    (str_eq(p, "self") || starts_with_exec(c.as_slice(), s1.as_slice()))
        || (str_eq(p, "super") || starts_with_exec(c.as_slice(), s2.as_slice()))
        || (str_eq(p, "crate") || starts_with_exec(c.as_slice(), s3.as_slice()))
}

/// The last `::` segment of a path (the whole path when it has none).
pub fn last_segment(p: &str) -> (r: String)
    ensures
        r@ == after_last(p@, "::"@),
{
    let c = chars_of(p);
    let sep = chars_of("::");
    let t = after_last_exec(c.as_slice(), sep.as_slice());
    string_of(t.as_slice())
}

/// `out` holds, from index `at` on, exactly the paths `ps` (path, alias, glob).
pub open spec fn paths_at(out: Seq<UsePath>, at: int, ps: Seq<(Seq<char>, Option<Seq<char>>, bool)>) -> bool {
    &&& out.len() == at + ps.len()
    &&& forall|k: int| 0 <= k < ps.len() ==> {
        let u = out[at + k];
        &&& u.path@ == (#[trigger] ps[k]).0
        &&& crate::text::opt_chars(u.alias) == ps[k].1
        &&& u.wildcard == ps[k].2
    }
}

pub proof fn lemma_paths_concat(a: Seq<UsePath>, b: Seq<UsePath>, c: Seq<UsePath>,
    p1: Seq<(Seq<char>, Option<Seq<char>>, bool)>, p2: Seq<(Seq<char>, Option<Seq<char>>, bool)>)
    requires
        crate::analysis::grows(a, b),
        paths_at(b, a.len() as int, p1),
        crate::analysis::grows(b, c),
        paths_at(c, b.len() as int, p2),
    ensures
        crate::analysis::grows(a, c),
        paths_at(c, a.len() as int, p1 + p2),
{
    let ps = p1 + p2;
    assert forall|k: int| 0 <= k < ps.len() implies {
        let u = c[a.len() + k];
        &&& u.path@ == (#[trigger] ps[k]).0
        &&& crate::text::opt_chars(u.alias) == ps[k].1
        &&& u.wildcard == ps[k].2
    } by {
        if k < p1.len() {
            assert(ps[k] == p1[k]);
            assert(c[a.len() + k] == b[a.len() + k]);
        } else {
            assert(ps[k] == p2[k - p1.len()]);
            assert(a.len() + k == b.len() + (k - p1.len()));
        }
    }
}

/// The imports the paths `ps` record: every path but an empty one.
pub open spec fn use_records(ps: Seq<(Seq<char>, Option<Seq<char>>, bool)>) -> Seq<(Seq<char>, Option<Seq<char>>, Option<Seq<char>>, bool)>
    decreases ps.len(),
{
    if ps.len() == 0 {
        Seq::empty()
    } else {
        let rest = use_records(ps.drop_last());
        let p = ps.last();
        if p.0.len() > 0 {
            rest.push((p.0, if p.2 { None } else { Some(after_last(p.0, "::"@)) }, p.1, is_relative_path(p.0)))
        } else {
            rest
        }
    }
}

/// The names the paths `ps` bind (name, kind, import index), their imports
/// numbered from `base`: a glob opens its module as a `namespace`, any other
/// path binds its alias or last segment as an `import`.
pub open spec fn use_binds(ps: Seq<(Seq<char>, Option<Seq<char>>, bool)>, base: int) -> Seq<(Seq<char>, Seq<char>, usize)>
    decreases ps.len(),
{
    if ps.len() == 0 {
        Seq::empty()
    } else {
        let rest = use_binds(ps.drop_last(), base);
        let p = ps.last();
        let idx = (base + use_records(ps.drop_last()).len()) as usize;
        let name = if p.2 { after_last(p.0, "::"@) } else { match p.1 { Some(a) => a, None => after_last(p.0, "::"@) } };
        if p.0.len() > 0 && name.len() > 0 {
            rest.push((name, if p.2 { "namespace"@ } else { "import"@ }, idx))
        } else {
            rest
        }
    }
}

/// Binding `b` binds entry `e` (name, kind, import index) in scope `scope`.
pub open spec fn binds_import(b: crate::cache::models::NewBinding, scope: usize, e: (Seq<char>, Seq<char>, usize)) -> bool {
    &&& b.scope_index == scope
    &&& b.name@ == e.0
    &&& b.binding_kind@ == e.1
    &&& b.symbol_index is None
    &&& b.import_index == Some(e.2)
    &&& b.type_expr is None
}

/// `after` is `before` followed by one binding per entry (name, kind, import
/// index), each in scope `scope`.
pub open spec fn import_binds(before: Seq<crate::cache::models::NewBinding>, after: Seq<crate::cache::models::NewBinding>,
    scope: usize, es: Seq<(Seq<char>, Seq<char>, usize)>) -> bool {
    &&& after.len() == before.len() + es.len()
    &&& forall|k: int| 0 <= k < before.len() ==> #[trigger] after[k] == before[k]
    &&& forall|k: int| 0 <= k < es.len() ==> binds_import(after[before.len() + k], scope, #[trigger] es[k])
}

pub proof fn lemma_import_binds_push(before: Seq<crate::cache::models::NewBinding>, mid: Seq<crate::cache::models::NewBinding>,
    after: Seq<crate::cache::models::NewBinding>, scope: usize, es: Seq<(Seq<char>, Seq<char>, usize)>, e: (Seq<char>, Seq<char>, usize))
    requires
        import_binds(before, mid, scope, es),
        e.0.len() > 0,
        Walker::bound(mid, after, scope, e.0, e.1, None, Some(e.2), None),
    ensures
        import_binds(before, after, scope, es.push(e)),
{
    let es2 = es.push(e);
    assert forall|k: int| 0 <= k < before.len() implies #[trigger] after[k] == before[k] by {
        assert(after[k] == mid[k]);
    }
    assert forall|k: int| 0 <= k < es2.len() implies binds_import(after[before.len() + k], scope, #[trigger] es2[k]) by {
        if k < es.len() {
            assert(es2[k] == es[k]);
            assert(after[before.len() + k] == mid[before.len() + k]);
        } else {
            let b = after.last();
            assert(after[before.len() + k] == b);
            assert(es2[k] == e);
            assert(opt_chars(b.type_expr) == None::<Seq<char>>);
        }
    }
}

impl Walker {
    /// The paths the `use` tree at `node` brings in under `prefix`.
    pub open spec fn use_paths(t: SyntaxTree, node: int, prefix: Seq<char>) -> Seq<(Seq<char>, Option<Seq<char>>, bool)>
        decreases t.size() - node, 1nat, 0nat,
    {
        let k = t.kind_of(node);
        if !(0 <= node < t.size()) {
            Seq::empty()
        } else if k == "identifier"@ || k == "scoped_identifier"@ || k == "type_identifier"@ || k == "primitive_type"@
            || k == "self"@ || k == "super"@ || k == "crate"@ || k == "metavariable"@ {
            seq![(spec_join(prefix, t.text_of(node)), None, false)]
        } else if k == "use_as_clause"@ {
            let path = match t.field_of(node, "path"@) { Some(n) => t.text_of(n as int), None => Seq::empty() };
            let alias = match t.field_of(node, "alias"@) { Some(n) => Some(t.text_of(n as int)), None => None };
            seq![(spec_join(prefix, path), alias, false)]
        } else if k == "use_wildcard"@ {
            let inner = if t.named_kids(node).len() > 0 { t.text_of(t.named_kids(node)[0] as int) } else { Seq::empty() };
            seq![(if inner.len() == 0 { strip_trailing_sep(prefix) } else { spec_join(prefix, inner) }, None, true)]
        } else if k == "scoped_use_list"@ {
            let base = match t.field_of(node, "path"@) { Some(n) => t.text_of(n as int), None => Seq::empty() };
            match t.field_of(node, "list"@) {
                Some(list) => if node < list < t.size() {
                    Self::use_paths_in(t, t.named_kids(list as int), spec_join(prefix, base), list as int)
                } else {
                    Seq::empty()
                },
                None => Seq::empty(),
            }
        } else if k == "use_list"@ {
            Self::use_paths_in(t, t.named_kids(node), prefix, node)
        } else if t.text_of(node).len() > 0 {
            seq![(spec_join(prefix, t.text_of(node)), None, false)]
        } else {
            Seq::empty()
        }
    }

    /// The paths the `use` trees `kids` (children of `parent`) bring in under `prefix`.
    pub open spec fn use_paths_in(t: SyntaxTree, kids: Seq<usize>, prefix: Seq<char>, parent: int) -> Seq<(Seq<char>, Option<Seq<char>>, bool)>
        decreases t.size() - parent, 0nat, kids.len(),
    {
        if kids.len() == 0 {
            Seq::empty()
        } else {
            let rest = Self::use_paths_in(t, kids.drop_last(), prefix, parent);
            if parent < kids.last() < t.size() {
                rest + Self::use_paths(t, kids.last() as int, prefix)
            } else {
                rest
            }
        }
    }

    /// Record every path a `use` declaration brings in, and bind the name each
    /// makes visible: the alias or last segment as an `import`, or for a glob
    /// the module it opens as a `namespace`.
    pub fn collect_use(&mut self, node: usize)
        requires
            old(self).inv(),
            old(self).valid(node as int),
        ensures
            final(self).inv(),
            final(self).extends(*old(self)),
            final(self).out.symbols@ == old(self).out.symbols@,
            final(self).out.refs@ == old(self).out.refs@,
            final(self).sc.scopes@ == old(self).sc.scopes@,
            forall|k: int| old(self).out.imports@.len() <= k < final(self).out.imports@.len() ==> {
                let m = #[trigger] final(self).out.imports@[k];
                &&& m.raw_specifier@.len() > 0
                &&& m.is_relative == is_relative_path(m.raw_specifier@)
                &&& m.start_line == old(self).tree.line_of(node as int)
                &&& m.imported_name matches Some(n) ==> n@ == after_last(m.raw_specifier@, "::"@)
            },
            ({
                let t = old(self).tree;
                match t.field_of(node as int, "argument"@) {
                    Some(a) => {
                        let ps = Self::use_paths(old(self).tree, a as int, ""@);
                        &&& Self::imports_all(old(self).out.imports@, final(self).out.imports@, t.line_of(node as int), use_records(ps))
                        &&& import_binds(old(self).sc.bindings@, final(self).sc.bindings@, old(self).sc.spec_current(),
                            use_binds(ps, old(self).out.imports@.len() as int))
                    },
                    None => final(self).out.imports@ == old(self).out.imports@ && final(self).sc.bindings@ == old(self).sc.bindings@,
                }
            }),
    {
        let arg = match self.tree.field_child(node, "argument") {
            Some(a) => a,
            None => { return; },
        };
        let line = self.tree.line(node);
        let mut paths: Vec<UsePath> = Vec::new();
        self.flatten_use(arg, "", &mut paths);
        let ghost ps = Self::use_paths(old(self).tree, arg as int, ""@);
        let n0 = self.out.imports.len();
        let mut j: usize = 0;
        assert(Self::imports_all(old(self).out.imports@, old(self).out.imports@, line, Seq::empty()));
        assert(import_binds(old(self).sc.bindings@, old(self).sc.bindings@, old(self).sc.spec_current(), Seq::empty()));
        while j < paths.len()
            invariant
                paths_at(paths@, 0, ps),
                self.tree == old(self).tree,
                Self::imports_all(old(self).out.imports@, self.out.imports@, line, use_records(ps.take(j as int))),
                import_binds(old(self).sc.bindings@, self.sc.bindings@, old(self).sc.spec_current(), use_binds(ps.take(j as int), n0 as int)),
                self.inv(),
                self.extends(*old(self)),
                self.out.symbols@ == old(self).out.symbols@,
                self.out.refs@ == old(self).out.refs@,
                self.sc.scopes@ == old(self).sc.scopes@,
                n0 == old(self).out.imports@.len(),
                crate::analysis::grows(old(self).out.imports@, self.out.imports@),
                line == old(self).tree.line_of(node as int),
                0 <= j <= paths@.len(),
                forall|k: int| n0 <= k < self.out.imports@.len() ==> {
                    let m = #[trigger] self.out.imports@[k];
                    &&& m.raw_specifier@.len() > 0
                    &&& m.is_relative == is_relative_path(m.raw_specifier@)
                    &&& m.start_line == line
                    &&& m.imported_name matches Some(n) ==> n@ == after_last(m.raw_specifier@, "::"@)
                },
            decreases paths@.len() - j,
        {
            let path = paths[j].path.clone();
            let alias = match &paths[j].alias {
                Some(a) => Some(a.clone()),
                None => None,
            };
            let wildcard = paths[j].wildcard;
            assert(ps.take(j + 1).drop_last() =~= ps.take(j as int));
            let ghost p = ps[j as int];
            assert(p == ps.take(j + 1).last());
            assert(path@ == p.0 && opt_chars(alias) == p.1 && wildcard == p.2);
            let ghost recs = use_records(ps.take(j as int));
            let ghost bs = use_binds(ps.take(j as int), n0 as int);
            let ghost imps = self.out.imports@;
            let ghost binds = self.sc.bindings@;
            j = j + 1;
            if path.as_str().is_empty() {
                continue;
            }
            let is_relative = relative_path(path.as_str());
            let imported_name = if wildcard { None } else { Some(last_segment(path.as_str())) };
            let local = match &alias {
                Some(a) => Some(a.clone()),
                None => imported_name.clone(),
            };
            let ns = last_segment(path.as_str());
            let ghost rec = (path@, opt_chars(imported_name), opt_chars(alias), is_relative);
            let import_index = self.add_import(NewImport {
                raw_specifier: path,
                imported_name,
                alias,
                is_relative,
                start_line: line,
            });
            proof {
                Self::lemma_imports_push(old(self).out.imports@, imps, self.out.imports@, line, recs, rec);
                assert(import_index == n0 + recs.len());
            }
            if wildcard {
                let ghost mid = self.sc.bindings@;
                self.bind(ns.as_str(), "namespace", None, Some(import_index), None);
                proof {
                    if ns@.len() > 0 {
                        lemma_import_binds_push(old(self).sc.bindings@, mid, self.sc.bindings@, old(self).sc.spec_current(), bs,
                            (ns@, "namespace"@, import_index));
                    }
                }
            } else {
                match local {
                    Some(l) => {
                        let ghost mid = self.sc.bindings@;
                        self.bind(l.as_str(), "import", None, Some(import_index), None);
                        proof {
                            if l@.len() > 0 {
                                lemma_import_binds_push(old(self).sc.bindings@, mid, self.sc.bindings@, old(self).sc.spec_current(), bs,
                                    (l@, "import"@, import_index));
                            }
                        }
                    },
                    None => {},
                }
            }
        }
        assert(ps.take(ps.len() as int) =~= ps);
    }

    /// Flatten a `use` tree under `prefix` into plain paths.
    pub fn flatten_use(&self, node: usize, prefix: &str, out: &mut Vec<UsePath>)
        requires
            self.inv(),
            self.valid(node as int),
        ensures
            crate::analysis::grows(old(out)@, final(out)@),
            paths_at(final(out)@, old(out)@.len() as int, Self::use_paths(self.tree, node as int, prefix@)),
        decreases self.tree.size() - node,
    {
        let ghost start = old(out)@;
        if self.tree.is(node, "identifier") || self.tree.is(node, "scoped_identifier")
            || self.tree.is(node, "type_identifier") || self.tree.is(node, "primitive_type")
            || self.tree.is(node, "self") || self.tree.is(node, "super") || self.tree.is(node, "crate")
            || self.tree.is(node, "metavariable") {
            let t = self.text(node);
            out.push(UsePath::plain(join(prefix, t.as_str())));
        } else if self.tree.is(node, "use_as_clause") {
            let path = match self.tree.field_child(node, "path") {
                Some(n) => self.text(n),
                None => String::new(),
            };
            let alias = match self.tree.field_child(node, "alias") {
                Some(n) => Some(self.text(n)),
                None => None,
            };
            out.push(UsePath { path: join(prefix, path.as_str()), alias, wildcard: false });
        } else if self.tree.is(node, "use_wildcard") {
            let inner = match self.tree.named_child(node, 0) {
                Some(n) => self.text(n),
                None => String::new(),
            };
            let full = if inner.as_str().is_empty() {
                trim_end_sep(prefix)
            } else {
                join(prefix, inner.as_str())
            };
            out.push(UsePath { path: full, alias: None, wildcard: true });
        } else if self.tree.is(node, "scoped_use_list") {
            let base = match self.tree.field_child(node, "path") {
                Some(n) => self.text(n),
                None => String::new(),
            };
            let new_prefix = join(prefix, base.as_str());
            match self.tree.field_child(node, "list") {
                Some(list) => {
                    let kids = self.tree.named_children(list);
                    let mut j: usize = 0;
                    assert(paths_at(out@, start.len() as int, Seq::empty()));
                    while j < kids.len()
                        invariant
                            self.inv(),
                            node < list < self.tree.size(),
                            0 <= j <= kids@.len(),
                            forall|x: int| 0 <= x < kids@.len() ==> list < #[trigger] kids@[x] < self.tree.size(),
                            crate::analysis::grows(start, out@),
                            paths_at(out@, start.len() as int, Self::use_paths_in(self.tree, kids@.take(j as int), new_prefix@, list as int)),
                        decreases kids@.len() - j,
                    {
                        assert(kids@.take(j + 1).drop_last() =~= kids@.take(j as int));
                        let ghost mid = out@;
                        self.flatten_use(kids[j], new_prefix.as_str(), out);
                        proof {
                            lemma_paths_concat(start, mid, out@, Self::use_paths_in(self.tree, kids@.take(j as int), new_prefix@, list as int),
                                Self::use_paths(self.tree, kids@[j as int] as int, new_prefix@));
                        }
                        j = j + 1;
                    }
                    assert(kids@.take(kids@.len() as int) =~= kids@);
                },
                None => {},
            }
        } else if self.tree.is(node, "use_list") {
            let kids = self.tree.named_children(node);
            let mut j: usize = 0;
            assert(paths_at(out@, start.len() as int, Seq::empty()));
            while j < kids.len()
                invariant
                    self.inv(),
                    0 <= j <= kids@.len(),
                    forall|x: int| 0 <= x < kids@.len() ==> node < #[trigger] kids@[x] < self.tree.size(),
                    crate::analysis::grows(start, out@),
                    paths_at(out@, start.len() as int, Self::use_paths_in(self.tree, kids@.take(j as int), prefix@, node as int)),
                decreases kids@.len() - j,
            {
                assert(kids@.take(j + 1).drop_last() =~= kids@.take(j as int));
                let ghost mid = out@;
                self.flatten_use(kids[j], prefix, out);
                proof {
                    lemma_paths_concat(start, mid, out@, Self::use_paths_in(self.tree, kids@.take(j as int), prefix@, node as int),
                        Self::use_paths(self.tree, kids@[j as int] as int, prefix@));
                }
                j = j + 1;
            }
            assert(kids@.take(kids@.len() as int) =~= kids@);
        } else {
            let t = self.text(node);
            if !t.as_str().is_empty() {
                out.push(UsePath::plain(join(prefix, t.as_str())));
            }
        }
    }
}

/// `prefix` without trailing `::`s.
pub open spec fn strip_trailing_sep(s: Seq<char>) -> Seq<char>
    decreases s.len(),
{
    if s.len() >= 2 && crate::text::ends_with(s, "::"@) {
        strip_trailing_sep(s.subrange(0, s.len() - 2))
    } else {
        s
    }
}

pub fn trim_end_sep(s: &str) -> (r: String)
    ensures
        r@ == strip_trailing_sep(s@),
{
    let c = chars_of(s);
    let sep = chars_of("::");
    let mut n = c.len();
    proof {
        reveal_strlit("::");
        assert(c@.subrange(0, n as int) =~= s@);
    }
    while n >= 2 && c[n - 1] == ':' && c[n - 2] == ':'
        invariant
            n <= c@.len(),
            c@ == s@,
            sep@ == "::"@,
            strip_trailing_sep(c@.subrange(0, n as int)) == strip_trailing_sep(s@),
        decreases n,
    {
        proof {
            reveal_strlit("::");
            let t = c@.subrange(0, n as int);
            assert(crate::text::ends_with(t, "::"@)) by {
                assert(t.subrange(t.len() - 2, t.len() as int) =~= "::"@);
            }
            assert(t.subrange(0, t.len() - 2) =~= c@.subrange(0, n - 2));
        }
        n = n - 2;
    }
    proof {
        reveal_strlit("::");
        let t = c@.subrange(0, n as int);
        if t.len() >= 2 && crate::text::ends_with(t, "::"@) {
            assert(t.subrange(t.len() - 2, t.len() as int) =~= "::"@);
            assert(t[t.len() - 1] == t.subrange(t.len() - 2, t.len() as int)[1]);
            assert(t[t.len() - 2] == t.subrange(t.len() - 2, t.len() as int)[0]);
            assert(t[t.len() - 1] == ':');
            assert(t[t.len() - 2] == ':');
        }
    }
    string_of(crate::text::slice_chars(c.as_slice(), 0, n).as_slice())
}

} // verus!

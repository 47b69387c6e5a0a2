//! Lexical scopes shared by every language analyzer.
//!
//! An analyzer builds a [`ScopeStack`] as it walks the AST: `push` on entering a
//! function / class / block, `bind` on every name it declares, `pop` on the way
//! out. After the walk, [`resolve_locals`] settles every bare reference that
//! binds to a local, a parameter, or a sibling symbol of the same file.

use vstd::prelude::*;
use crate::analysis::{ParsedFile, bindings_linked, refs_linked, scopes_ordered, symbols_ordered};
use crate::cache::models::{NewBinding, NewRef, NewScope};
use crate::text::str_eq;

verus! {

/// Builds the scope tree and its bindings during an AST walk.
pub struct ScopeStack {
    pub scopes: Vec<NewScope>,
    pub bindings: Vec<NewBinding>,
    /// Indices into `scopes`: root -> ... -> current.
    pub stack: Vec<usize>,
}

impl ScopeStack {
    /// Parents precede children and every binding sits in a real scope.
    pub open spec fn tree_ok(&self) -> bool {
        &&& self.scopes@.len() > 0
        &&& forall|i: int|
            0 <= i < self.scopes@.len() && #[trigger] self.scopes@[i].parent_index is Some
                ==> self.scopes@[i].parent_index->0 < i
        &&& forall|b: int| 0 <= b < self.bindings@.len() ==> #[trigger] self.bindings@[b].scope_index < self.scopes@.len()
    }

    /// The stack of open scopes starts at the module scope and stays inside the tree.
    pub open spec fn inv(&self) -> bool {
        &&& self.tree_ok()
        &&& self.stack@.len() >= 1
        &&& self.stack@[0] == 0
        &&& forall|k: int| 0 <= k < self.stack@.len() ==> #[trigger] self.stack@[k] < self.scopes@.len()
        &&& self.scopes@[0].parent_index is None
        &&& forall|k: int| 0 < k < self.stack@.len() ==>
            self.scopes@[#[trigger] self.stack@[k] as int].parent_index == Some(self.stack@[k - 1])
    }

    /// The scope currently open (the innermost one).
    pub open spec fn spec_current(&self) -> usize {
        if self.stack@.len() == 0 { 0 } else { self.stack@.last() }
    }

    /// How many scopes are open, the module scope included.
    pub open spec fn open_count(&self) -> nat {
        self.stack@.len()
    }

    pub proof fn lemma_inv(&self)
        requires
            self.inv(),
        ensures
            self.tree_ok(),
            self.spec_current() < self.scopes@.len(),
            self.open_count() >= 1,
    {
    }

    /// Start with a single module scope spanning the whole file.
    pub fn new(file_len: i64) -> (s: Self)
        ensures
            s.inv(),
            s.scopes@.len() == 1,
            s.scopes@[0].parent_index is None,
            s.scopes@[0].owner_symbol_index is None,
            s.scopes@[0].kind@ == "module"@,
            s.scopes@[0].start_byte == 0,
            s.scopes@[0].end_byte == (if file_len < 0 { 0 } else { file_len }),
            s.bindings@.len() == 0,
            s.spec_current() == 0,
            s.open_count() == 1,
    {
        let mut s = Self { scopes: Vec::new(), bindings: Vec::new(), stack: Vec::new() };
        s.scopes.push(
            NewScope {
                parent_index: None,
                owner_symbol_index: None,
                kind: "module".to_string(),
                start_byte: 0,
                end_byte: if file_len < 0 { 0 } else { file_len },
            },
        );
        s.stack.push(0);
        s
    }

    /// Index of the scope currently on top of the stack.
    pub fn current(&self) -> (r: usize)
        ensures
            r == self.spec_current(),
    {
        if self.stack.len() == 0 {
            0
        } else {
            self.stack[self.stack.len() - 1]
        }
    }

    /// Enter a new child scope of the current one.
    pub fn push(&mut self, kind: &str, owner_symbol_index: Option<usize>, start_byte: i64, end_byte: i64)
        requires
            old(self).inv(),
        ensures
            final(self).inv(),
            final(self).scopes@ == old(self).scopes@.push(
                NewScope {
                    parent_index: Some(old(self).spec_current()),
                    owner_symbol_index,
                    kind: final(self).scopes@.last().kind,
                    start_byte,
                    end_byte,
                },
            ),
            final(self).scopes@.last().kind@ == kind@,
            final(self).bindings@ == old(self).bindings@,
            final(self).spec_current() == old(self).scopes@.len(),
            final(self).open_count() == old(self).open_count() + 1,
            final(self).stack@ == old(self).stack@.push(old(self).scopes@.len() as usize),
    {
        let idx = self.scopes.len();
        let cur = self.current();
        self.scopes.push(
            NewScope {
                parent_index: Some(cur),
                owner_symbol_index,
                kind: kind.to_string(),
                start_byte,
                end_byte,
            },
        );
        self.stack.push(idx);
    }

    /// Leave the current scope (the module scope is never popped).
    pub fn pop(&mut self)
        requires
            old(self).inv(),
        ensures
            final(self).inv(),
            final(self).scopes@ == old(self).scopes@,
            final(self).bindings@ == old(self).bindings@,
            final(self).open_count() == (if old(self).open_count() > 1 { (old(self).open_count() - 1) as nat } else { old(self).open_count() }),
            final(self).stack@ == (if old(self).stack@.len() > 1 { old(self).stack@.drop_last() } else { old(self).stack@ }),
            final(self).spec_current() == (match old(self).scopes@[old(self).spec_current() as int].parent_index {
                Some(p) => p,
                None => old(self).spec_current(),
            }),
    {
        if self.stack.len() > 1 {
            self.stack.pop();
        }
    }

    /// Record a name introduced in the current scope (an empty name is ignored).
    pub fn bind(
        &mut self,
        name: &str,
        kind: &str,
        symbol_index: Option<usize>,
        import_index: Option<usize>,
        type_expr: Option<String>,
    )
        requires
            old(self).inv(),
        ensures
            final(self).inv(),
            final(self).scopes@ == old(self).scopes@,
            final(self).spec_current() == old(self).spec_current(),
            final(self).open_count() == old(self).open_count(),
            final(self).stack@ == old(self).stack@,
            name@.len() == 0 ==> final(self).bindings@ == old(self).bindings@,
            name@.len() > 0 ==> {
                &&& final(self).bindings@.len() == old(self).bindings@.len() + 1
                &&& final(self).bindings@.drop_last() == old(self).bindings@
                &&& final(self).bindings@.last().scope_index == old(self).spec_current()
                &&& final(self).bindings@.last().name@ == name@
                &&& final(self).bindings@.last().binding_kind@ == kind@
                &&& final(self).bindings@.last().symbol_index == symbol_index
                &&& final(self).bindings@.last().import_index == import_index
                &&& final(self).bindings@.last().type_expr == type_expr
            },
    {
        if name.is_empty() {
            return;
        }
        let cur = self.current();
        self.bindings.push(
            NewBinding {
                scope_index: cur,
                name: name.to_string(),
                binding_kind: kind.to_string(),
                symbol_index,
                import_index,
                type_expr,
            },
        );
        assert(self.bindings@.drop_last() =~= old(self).bindings@);
    }

    /// Move the built tree into a [`ParsedFile`].
    pub fn finish_into(self, out: &mut ParsedFile)
        ensures
            final(out).scopes@ == self.scopes@,
            final(out).bindings@ == self.bindings@,
            final(out).symbols@ == old(out).symbols@,
            final(out).imports@ == old(out).imports@,
            final(out).refs@ == old(out).refs@,
            final(out).string_literals@ == old(out).string_literals@,
            final(out).parse_ok == old(out).parse_ok,
    {
        out.scopes = self.scopes;
        out.bindings = self.bindings;
    }
}

/// Scope `s` contains byte `at`.
pub open spec fn covers(s: NewScope, at: i64) -> bool {
    s.start_byte <= at < s.end_byte
}

pub open spec fn width(s: NewScope) -> int {
    s.end_byte - s.start_byte
}

/// `i` is the innermost scope containing `at`: it covers `at`, no covering
/// scope is narrower, and every earlier covering scope is wider.
pub open spec fn is_innermost(scopes: Seq<NewScope>, at: i64, i: int) -> bool {
    &&& 0 <= i < scopes.len()
    &&& covers(scopes[i], at)
    &&& forall|j: int| 0 <= j < scopes.len() && covers(#[trigger] scopes[j], at) ==> width(scopes[i]) <= width(scopes[j])
    &&& forall|j: int| 0 <= j < i && covers(#[trigger] scopes[j], at) ==> width(scopes[i]) < width(scopes[j])
}

pub open spec fn innermost_scope(scopes: Seq<NewScope>, at: i64) -> Option<int> {
    if exists|i: int| is_innermost(scopes, at, i) {
        Some(choose|i: int| is_innermost(scopes, at, i))
    } else {
        None
    }
}

pub proof fn lemma_innermost_unique(scopes: Seq<NewScope>, at: i64, i: int, k: int)
    requires
        is_innermost(scopes, at, i),
        is_innermost(scopes, at, k),
    ensures
        i == k,
{
    if i < k {
        assert(covers(scopes[i], at));
    } else if k < i {
        assert(covers(scopes[k], at));
    }
}

/// A value binding: a local variable or a parameter.
pub open spec fn is_value_kind(k: Seq<char>) -> bool {
    k == "local"@ || k == "param"@
}

/// A binding a bare name can resolve to: same scope, same name, not a field;
/// for a name in type position (`types_only`) not a value binding either, so
/// a local never shadows a type of the same name.
pub open spec fn binding_hit(bindings: Seq<NewBinding>, scope: int, name: Seq<char>, types_only: bool, b: int) -> bool {
    &&& 0 <= b < bindings.len()
    &&& bindings[b].scope_index == scope
    &&& bindings[b].name@ == name
    &&& bindings[b].binding_kind@ != "field"@
    &&& !(types_only && is_value_kind(bindings[b].binding_kind@))
}

pub open spec fn is_first_hit(bindings: Seq<NewBinding>, scope: int, name: Seq<char>, types_only: bool, b: int) -> bool {
    &&& binding_hit(bindings, scope, name, types_only, b)
    &&& forall|b2: int| 0 <= b2 < b ==> !binding_hit(bindings, scope, name, types_only, b2)
}

pub open spec fn first_hit(bindings: Seq<NewBinding>, scope: int, name: Seq<char>, types_only: bool) -> Option<int> {
    if exists|b: int| is_first_hit(bindings, scope, name, types_only, b) {
        Some(choose|b: int| is_first_hit(bindings, scope, name, types_only, b))
    } else {
        None
    }
}

/// The binding `name` resolves to when looked up from `scope` outward,
/// following at most `fuel` parent links.
pub open spec fn lookup(scopes: Seq<NewScope>, bindings: Seq<NewBinding>, scope: int, name: Seq<char>, types_only: bool, fuel: nat) -> Option<int>
    decreases fuel,
{
    if !(0 <= scope < scopes.len()) {
        None
    } else {
        match first_hit(bindings, scope, name, types_only) {
            Some(b) => Some(b),
            None => match scopes[scope].parent_index {
                Some(p) => if fuel > 0 { lookup(scopes, bindings, p as int, name, types_only, (fuel - 1) as nat) } else { None },
                None => None,
            },
        }
    }
}

/// Whether a reference names a type (and so never a local value).
pub open spec fn is_type_ref(r: NewRef) -> bool {
    r.ref_kind@ == "type"@
}

/// What the same-file pass makes of one reference: a bare name bound to a
/// local or parameter is `local_only`; one bound to a symbol resolves to it;
/// anything else (a receiver, an import, no binding) is left as it was. A
/// reference in type position looks past locals and parameters.
pub open spec fn resolve_ref(scopes: Seq<NewScope>, bindings: Seq<NewBinding>, r: NewRef) -> NewRef {
    if r.receiver is Some {
        r
    } else {
        match innermost_scope(scopes, r.start_byte) {
            None => r,
            Some(s) => match lookup(scopes, bindings, s, r.name@, is_type_ref(r), scopes.len()) {
                None => r,
                Some(b) => {
                    let k = bindings[b].binding_kind@;
                    if k == "local"@ || k == "param"@ {
                        NewRef { local_only: true, ..r }
                    } else if k == "symbol"@ {
                        NewRef { resolved_local_symbol_index: bindings[b].symbol_index, ..r }
                    } else {
                        r
                    }
                },
            },
        }
    }
}

/// The innermost (narrowest, then first) scope containing `at`.
pub fn find_innermost(scopes: &Vec<NewScope>, at: i64) -> (r: Option<usize>)
    ensures
        r matches Some(i) ==> innermost_scope(scopes@, at) == Some(i as int),
        r is None ==> innermost_scope(scopes@, at) is None,
{
    let mut best: Option<(i128, usize)> = None;
    let mut i: usize = 0;
    while i < scopes.len()
        invariant
            0 <= i <= scopes@.len(),
            match best {
                None => forall|j: int| 0 <= j < i ==> !covers(#[trigger] scopes@[j], at),
                Some((w, k)) => {
                    &&& k < i
                    &&& covers(scopes@[k as int], at)
                    &&& w == width(scopes@[k as int])
                    &&& forall|j: int| 0 <= j < i && covers(#[trigger] scopes@[j], at) ==> w <= width(scopes@[j])
                    &&& forall|j: int| 0 <= j < k && covers(#[trigger] scopes@[j], at) ==> w < width(scopes@[j])
                },
            },
        decreases scopes@.len() - i,
    {
        let sc = &scopes[i];
        if at >= sc.start_byte && at < sc.end_byte {
            let w = sc.end_byte as i128 - sc.start_byte as i128;
            let better = match best {
                None => true,
                Some((bw, _)) => w < bw,
            };
            if better {
                best = Some((w, i));
            }
        }
        i = i + 1;
    }
    match best {
        None => {
            assert(!exists|k: int| is_innermost(scopes@, at, k));
            None
        },
        Some((_, k)) => {
            assert(is_innermost(scopes@, at, k as int));
            proof {
                let c = choose|x: int| is_innermost(scopes@, at, x);
                lemma_innermost_unique(scopes@, at, c, k as int);
            }
            Some(k)
        },
    }
}

/// The first binding of `name` in scope `scope` that a bare name can reach
/// (see [`binding_hit`]).
pub fn find_first_hit(bindings: &Vec<NewBinding>, scope: usize, name: &str, types_only: bool) -> (r: Option<usize>)
    ensures
        r matches Some(b) ==> first_hit(bindings@, scope as int, name@, types_only) == Some(b as int),
        r is None ==> first_hit(bindings@, scope as int, name@, types_only) is None,
{
    let mut b: usize = 0;
    while b < bindings.len()
        invariant
            0 <= b <= bindings@.len(),
            forall|b2: int| 0 <= b2 < b ==> !binding_hit(bindings@, scope as int, name@, types_only, b2),
        decreases bindings@.len() - b,
    {
        let x = &bindings[b];
        let k = x.binding_kind.as_str();
        let value = str_eq(k, "local") || str_eq(k, "param");
        if x.scope_index == scope && str_eq(x.name.as_str(), name) && !str_eq(k, "field") && !(types_only && value) {
            assert(is_first_hit(bindings@, scope as int, name@, types_only, b as int));
            proof {
                let c = choose|y: int| is_first_hit(bindings@, scope as int, name@, types_only, y);
                if c < b {
                } else if b < c {
                }
            }
            return Some(b);
        }
        b = b + 1;
    }
    None
}

/// Same-file resolution pass over every bare reference; see [`resolve_ref`].
pub fn resolve_locals(parsed: &mut ParsedFile)
    ensures
        final(parsed).refs@.len() == old(parsed).refs@.len(),
        forall|i: int|
            0 <= i < old(parsed).refs@.len() ==> #[trigger] final(parsed).refs@[i] == resolve_ref(
                old(parsed).scopes@,
                old(parsed).bindings@,
                old(parsed).refs@[i],
            ),
        final(parsed).symbols@ == old(parsed).symbols@,
        final(parsed).imports@ == old(parsed).imports@,
        final(parsed).scopes@ == old(parsed).scopes@,
        final(parsed).bindings@ == old(parsed).bindings@,
        final(parsed).string_literals@ == old(parsed).string_literals@,
        final(parsed).parse_ok == old(parsed).parse_ok,
{
    let n = parsed.refs.len();
    let ghost scopes = parsed.scopes@;
    let ghost bindings = parsed.bindings@;
    let ghost orig = parsed.refs@;
    let mut ri: usize = 0;
    while ri < n
        invariant
            n == orig.len(),
            0 <= ri <= n,
            parsed.refs@.len() == n,
            parsed.scopes@ == scopes,
            parsed.bindings@ == bindings,
            parsed.symbols@ == old(parsed).symbols@,
            parsed.imports@ == old(parsed).imports@,
            parsed.string_literals@ == old(parsed).string_literals@,
            parsed.parse_ok == old(parsed).parse_ok,
            orig == old(parsed).refs@,
            scopes == old(parsed).scopes@,
            bindings == old(parsed).bindings@,
            forall|i: int| 0 <= i < ri ==> #[trigger] parsed.refs@[i] == resolve_ref(scopes, bindings, orig[i]),
            forall|i: int| ri <= i < n ==> #[trigger] parsed.refs@[i] == orig[i],
        decreases n - ri,
    {
        let has_receiver = parsed.refs[ri].receiver.is_some();
        if !has_receiver {
            let at = parsed.refs[ri].start_byte;
            let types_only = str_eq(parsed.refs[ri].ref_kind.as_str(), "type");
            match find_innermost(&parsed.scopes, at) {
                None => {},
                Some(s) => {
                    let mut scope_idx = s;
                    let mut hit: Option<usize> = None;
                    // At most as many parent links as there are scopes are followed.
                    let mut fuel: usize = parsed.scopes.len();
                    loop
                        invariant_except_break
                            hit is None,
                        invariant
                            parsed.scopes@ == scopes,
                            parsed.bindings@ == bindings,
                            ri < n,
                            parsed.refs@.len() == n,
                            parsed.refs@[ri as int] == orig[ri as int],
                            types_only == is_type_ref(orig[ri as int]),
                            lookup(scopes, bindings, scope_idx as int, orig[ri as int].name@, is_type_ref(orig[ri as int]), fuel as nat)
                                == lookup(scopes, bindings, s as int, orig[ri as int].name@, is_type_ref(orig[ri as int]), scopes.len()),
                        ensures
                            hit matches Some(b) ==> lookup(scopes, bindings, s as int, orig[ri as int].name@, is_type_ref(orig[ri as int]), scopes.len()) == Some(b as int),
                            hit is None ==> lookup(scopes, bindings, s as int, orig[ri as int].name@, is_type_ref(orig[ri as int]), scopes.len()) is None,
                            hit matches Some(b) ==> b < bindings.len(),
                        decreases fuel,
                    {
                        if scope_idx >= parsed.scopes.len() {
                            break;
                        }
                        match find_first_hit(&parsed.bindings, scope_idx, parsed.refs[ri].name.as_str(), types_only) {
                            Some(b) => {
                                proof {
                                    let c = choose|y: int| is_first_hit(bindings, scope_idx as int, orig[ri as int].name@, is_type_ref(orig[ri as int]), y);
                                }
                                hit = Some(b);
                                break;
                            },
                            None => {},
                        }
                        match parsed.scopes[scope_idx].parent_index {
                            Some(p) => {
                                if fuel == 0 {
                                    break;
                                }
                                scope_idx = p;
                                fuel = fuel - 1;
                            },
                            None => {
                                break;
                            },
                        }
                    }
                    match hit {
                        Some(b) => {
                            let kind = parsed.bindings[b].binding_kind.as_str();
                            if str_eq(kind, "local") || str_eq(kind, "param") {
                                parsed.refs[ri].local_only = true;
                            } else if str_eq(kind, "symbol") {
                                let si = parsed.bindings[b].symbol_index;
                                parsed.refs[ri].resolved_local_symbol_index = si;
                            }
                        },
                        None => {},
                    }
                },
            }
        }
        ri = ri + 1;
    }
}

/// Resolution keeps every in-file link pointing at a real symbol.
pub proof fn lemma_resolve_keeps_links(
    scopes: Seq<NewScope>,
    bindings: Seq<NewBinding>,
    old_refs: Seq<NewRef>,
    new_refs: Seq<NewRef>,
    n_symbols: nat,
    n_imports: nat,
)
    requires
        bindings_linked(bindings, scopes.len(), n_symbols, n_imports),
        refs_linked(old_refs, n_symbols),
        new_refs.len() == old_refs.len(),
        forall|i: int| 0 <= i < old_refs.len() ==> #[trigger] new_refs[i] == resolve_ref(scopes, bindings, old_refs[i]),
    ensures
        refs_linked(new_refs, n_symbols),
{
    assert forall|i: int| 0 <= i < new_refs.len() && #[trigger] new_refs[i].resolved_local_symbol_index is Some
        implies new_refs[i].resolved_local_symbol_index->0 < n_symbols by {
        let r = old_refs[i];
        if r.receiver is None {
            match innermost_scope(scopes, r.start_byte) {
                None => {},
                Some(s) => match lookup(scopes, bindings, s, r.name@, is_type_ref(r), scopes.len()) {
                    None => {},
                    Some(b) => {
                        lemma_lookup_in_range(scopes, bindings, s, r.name@, is_type_ref(r), scopes.len());
                        assert(0 <= b < bindings.len());
                        assert(bindings_linked(bindings, scopes.len(), n_symbols, n_imports));
                        let _ = bindings[b];
                    },
                },
            }
        }
    }
}

/// A lookup lands on a real binding.
pub proof fn lemma_lookup_in_range(scopes: Seq<NewScope>, bindings: Seq<NewBinding>, scope: int, name: Seq<char>, types_only: bool, fuel: nat)
    ensures
        lookup(scopes, bindings, scope, name, types_only, fuel) matches Some(b) ==> 0 <= b < bindings.len(),
    decreases fuel,
{
    if 0 <= scope < scopes.len() {
        match first_hit(bindings, scope, name, types_only) {
            Some(b) => {
                let c = choose|y: int| is_first_hit(bindings, scope, name, types_only, y);
            },
            None => match scopes[scope].parent_index {
                Some(p) => if fuel > 0 { lemma_lookup_in_range(scopes, bindings, p as int, name, types_only, (fuel - 1) as nat); },
                None => {},
            },
        }
    }
}

/// Popping right after a push gives back the scope that was current before it.
pub proof fn law_pop_undoes_push(s: ScopeStack, pushed: ScopeStack, popped: ScopeStack)
    requires
        s.inv(),
        pushed.inv(),
        pushed.scopes@.len() == s.scopes@.len() + 1,
        pushed.scopes@.last().parent_index == Some(s.spec_current()),
        pushed.spec_current() == s.scopes@.len(),
        popped.spec_current() == (match pushed.scopes@[pushed.spec_current() as int].parent_index {
            Some(p) => p,
            None => pushed.spec_current(),
        }),
    ensures
        popped.spec_current() == s.spec_current(),
{
}

/// Resolving a reference a second time changes nothing: the pass reads only
/// the name, position and receiver, which it never writes.
pub proof fn law_resolve_ref_idempotent(scopes: Seq<NewScope>, bindings: Seq<NewBinding>, r: NewRef)
    ensures
        resolve_ref(scopes, bindings, resolve_ref(scopes, bindings, r)) == resolve_ref(scopes, bindings, r),
{
}

/// A reference with a receiver (`a.b()`, `A::b()`) is never settled by the
/// same-file pass.
pub proof fn law_receiver_refs_untouched(scopes: Seq<NewScope>, bindings: Seq<NewBinding>, r: NewRef)
    requires
        r.receiver is Some,
    ensures
        resolve_ref(scopes, bindings, r) == r,
{
}

} // verus!

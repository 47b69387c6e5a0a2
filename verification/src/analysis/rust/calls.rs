//! Calls, macro invocations, and the string literals handed to them.

use vstd::prelude::*;
use crate::cache::models::{NewRef, NewStringLiteral};
use crate::text::concat;
use crate::syntax::SyntaxTree;
use crate::analysis::reach::CallParts;
use super::{Walker, MAX_MACRO_DEPTH};
use super::helpers::{classify_rust_receiver, clean_rust_string_literal, spec_classify_rust_receiver, spec_clean_rust_string_literal};

verus! {

impl Walker {
    /// The callee's name node and receiver text of call target `func` in `t`,
    /// as [`Walker::callee_parts`] finds them.
    pub open spec fn callee_parts_in(t: SyntaxTree, func: int) -> (Option<usize>, Option<Seq<char>>)
        decreases t.size() - func,
    {
        if !(0 <= func < t.size()) {
            (None, None)
        } else if t.kind_of(func) == "identifier"@ {
            (Some(func as usize), None)
        } else if t.kind_of(func) == "field_expression"@ {
            (t.field_of(func, "field"@), match t.field_of(func, "value"@) {
                Some(n) => Some(t.text_of(n as int)),
                None => None,
            })
        } else if t.kind_of(func) == "scoped_identifier"@ {
            (t.field_of(func, "name"@), match t.field_of(func, "path"@) {
                Some(n) => Some(t.text_of(n as int)),
                None => None,
            })
        } else if t.kind_of(func) == "generic_function"@ {
            match t.field_of(func, "function"@) {
                Some(inner) => if func < inner < t.size() { Self::callee_parts_in(t, inner as int) } else { (None, None) },
                None => (None, None),
            }
        } else {
            (None, None)
        }
    }

    /// The callee's name node and receiver text, as [`Walker::callee_parts`] finds them.
    pub open spec fn spec_callee_parts(&self, func: int) -> (Option<usize>, Option<Seq<char>>) {
        Self::callee_parts_in(self.tree, func)
    }

    /// The callee's name node and its receiver text: `a.b()` names `b` with
    /// receiver `a`, `A::b()` names `b` with receiver `A`, `f::<T>()` is `f`.
    pub fn callee_parts(&self, func: usize) -> (r: (Option<usize>, Option<String>))
        requires
            self.inv(),
            self.valid(func as int),
        ensures
            r.0 matches Some(n) ==> func <= n < self.tree.size(),
            self.tree.kind_of(func as int) == "identifier"@ ==> r.0 == Some(func) && r.1 is None,
            (r.0, crate::text::opt_chars(r.1)) == self.spec_callee_parts(func as int),
        decreases self.tree.size() - func,
    {
        if self.tree.is(func, "identifier") {
            (Some(func), None)
        } else if self.tree.is(func, "field_expression") {
            let receiver = match self.tree.field_child(func, "value") {
                Some(n) => Some(self.text(n)),
                None => None,
            };
            (self.tree.field_child(func, "field"), receiver)
        } else if self.tree.is(func, "scoped_identifier") {
            let path = match self.tree.field_child(func, "path") {
                Some(n) => Some(self.text(n)),
                None => None,
            };
            (self.tree.field_child(func, "name"), path)
        } else if self.tree.is(func, "generic_function") {
            match self.tree.field_child(func, "function") {
                Some(inner) => self.callee_parts(inner),
                None => (None, None),
            }
        } else {
            (None, None)
        }
    }

    /// A `call` reference for a call expression, with the string literals
    /// among its arguments.
    pub fn collect_call(&mut self, node: usize)
        requires
            old(self).inv(),
            old(self).valid(node as int),
        ensures
            final(self).inv(),
            final(self).extends(*old(self)),
            final(self).out.symbols@ == old(self).out.symbols@,
            final(self).out.imports@ == old(self).out.imports@,
            final(self).sc == old(self).sc,
            final(self).out.refs@.len() <= old(self).out.refs@.len() + 1,
            crate::analysis::grows(old(self).out.refs@, final(self).out.refs@),
            final(self).out.refs@.len() > old(self).out.refs@.len() ==> {
                let r = final(self).out.refs@.last();
                &&& r.ref_kind@ == "call"@
                &&& r.name@.len() > 0
                &&& r.start_line == old(self).tree.line_of(node as int)
                &&& r.start_byte == old(self).tree.start_of(node as int)
                &&& r.resolved_local_symbol_index is None
                &&& !r.local_only
            },
            crate::analysis::grows(old(self).out.string_literals@, final(self).out.string_literals@),
            ({
                let t = old(self).tree;
                match t.field_of(node as int, "function"@) {
                    Some(f) => {
                        let (nn, recv) = old(self).spec_callee_parts(f as int);
                        match nn {
                            Some(n) if t.text_of(n as int).len() > 0 => {
                                &&& final(self).out.refs@ == old(self).out.refs@.push(final(self).out.refs@.last())
                                &&& Walker::is_ref(final(self).out.refs@.last(), t.text_of(n as int), "call"@, recv,
                                    spec_classify_rust_receiver(t.kind_of(f as int), recv), old(self).spec_arg_count(node as int),
                                    t.line_of(node as int), t.start_of(node as int), Some(t.start_of(n as int)))
                            },
                            _ => final(self).out.refs@ == old(self).out.refs@,
                        }
                    },
                    None => final(self).out.refs@ == old(self).out.refs@,
                }
            }),
    {
        let func = match self.tree.field_child(node, "function") {
            Some(f) => f,
            None => { return; },
        };
        let (name_node, receiver) = self.callee_parts(func);
        let name = match name_node {
            Some(n) => self.text(n),
            None => String::new(),
        };
        if name.as_str().is_empty() {
            return;
        }
        let receiver_kind = match &receiver {
            Some(rcv) => classify_rust_receiver(self.tree.kind(func), Some(rcv.as_str())),
            None => classify_rust_receiver(self.tree.kind(func), None),
        };
        let args = self.tree.field_child(node, "arguments");
        let arg_count = match args {
            Some(a) => {
                let kids = self.tree.named_children(a);
                Some(crate::syntax::to_i64(kids.len()))
            },
            None => None,
        };
        match args {
            Some(a) => {
                let kids = self.tree.named_children(a);
                let mut j: usize = 0;
                while j < kids.len()
                    invariant
                        self.inv(),
                        self.extends(*old(self)),
                        self.out.symbols@ == old(self).out.symbols@,
                        self.out.imports@ == old(self).out.imports@,
                        self.out.refs@ == old(self).out.refs@,
                        self.sc == old(self).sc,
                        0 <= j <= kids@.len(),
                        forall|x: int| 0 <= x < kids@.len() ==> #[trigger] kids@[x] < self.tree.size(),
                        crate::analysis::grows(old(self).out.string_literals@, self.out.string_literals@),
                    decreases kids@.len() - j,
                {
                    let ghost before = self.out.string_literals@;
                    self.check_and_record_string_literal(kids[j], Some(name.as_str()));
                    assert(crate::analysis::grows(before, self.out.string_literals@)) by {
                        if self.out.string_literals@ != before {
                            assert forall|i: int| 0 <= i < before.len() implies self.out.string_literals@[i] == before[i] by {
                                assert(self.out.string_literals@.drop_last()[i] == self.out.string_literals@[i]);
                            }
                        }
                    }
                    j = j + 1;
                }
            },
            None => {},
        }
        let name_start_byte = match name_node {
            Some(n) => Some(self.tree.start(n)),
            None => None,
        };
        let r = NewRef {
            name,
            ref_kind: "call".to_string(),
            receiver,
            start_line: self.tree.line(node),
            start_byte: self.tree.start(node),
            name_start_byte,
            arg_count,
            receiver_kind: receiver_kind.to_string(),
            local_only: false,
            resolved_local_symbol_index: None,
        };
        self.add_ref(r);
    }

    /// A `call` reference named `name!` for a macro invocation, with the
    /// string literals among its tokens; then the calls written inside its
    /// arguments (see [`Walker::collect_macro_body`]).
    pub fn collect_macro(&mut self, node: usize)
        requires
            old(self).inv(),
            old(self).valid(node as int),
        ensures
            final(self).inv(),
            final(self).extends(*old(self)),
            final(self).out.symbols@ == old(self).out.symbols@,
            final(self).out.imports@ == old(self).out.imports@,
            crate::analysis::grows(old(self).out.refs@, final(self).out.refs@),
            ({
                let t = old(self).tree;
                let k = old(self).out.refs@.len() as int;
                match t.field_of(node as int, "macro"@) {
                    Some(m) if t.text_of(m as int).len() > 0 => {
                        &&& final(self).out.refs@.len() > k
                        &&& Walker::is_ref(final(self).out.refs@[k], t.text_of(m as int) + "!"@, "call"@, None, "none"@, None,
                            t.line_of(node as int), t.start_of(node as int), Some(t.start_of(m as int)))
                    },
                    _ => final(self).out.refs@ == old(self).out.refs@,
                }
            }),
        decreases MAX_MACRO_DEPTH - old(self).macro_depth, old(self).tree.size() - node, 2nat,
    {
        let m = match self.tree.field_child(node, "macro") {
            Some(m) => m,
            None => { return; },
        };
        let name = self.text(m);
        if name.as_str().is_empty() {
            return;
        }
        let macro_name = concat(name.as_str(), "!");
        // `token_tree` is a child kind in tree-sitter-rust, not a field name.
        let token_tree = self.tree.child_of_kind(node, "token_tree");
        match token_tree {
            Some(tt) => {
                let kids = self.tree.named_children(tt);
                let mut j: usize = 0;
                while j < kids.len()
                    invariant
                        self.inv(),
                        self.extends(*old(self)),
                        self.out.symbols@ == old(self).out.symbols@,
                        self.out.imports@ == old(self).out.imports@,
                        self.out.refs@ == old(self).out.refs@,
                        0 <= j <= kids@.len(),
                        forall|x: int| 0 <= x < kids@.len() ==> #[trigger] kids@[x] < self.tree.size(),
                    decreases kids@.len() - j,
                {
                    self.check_and_record_string_literal(kids[j], Some(macro_name.as_str()));
                    j = j + 1;
                }
            },
            None => {},
        }
        let r = NewRef {
            name: macro_name,
            ref_kind: "call".to_string(),
            receiver: None,
            start_line: self.tree.line(node),
            start_byte: self.tree.start(node),
            name_start_byte: Some(self.tree.start(m)),
            arg_count: None,
            receiver_kind: "none".to_string(),
            local_only: false,
            resolved_local_symbol_index: None,
        };
        self.add_ref(r);
        match token_tree {
            Some(tt) => {
                let ghost before = self.out.refs@;
                self.collect_macro_body(tt);
                assert(self.out.refs@[old(self).out.refs@.len() as int] == before[old(self).out.refs@.len() as int]);
            },
            None => {
            },
        }
    }

    /// Record a string or raw string literal handed to `callee`, unquoted
    /// (an empty one is skipped).
    pub fn check_and_record_string_literal(&mut self, node: usize, callee: Option<&str>)
        requires
            old(self).inv(),
            old(self).valid(node as int),
        ensures
            final(self).inv(),
            final(self).extends(*old(self)),
            final(self).out.symbols@ == old(self).out.symbols@,
            final(self).out.imports@ == old(self).out.imports@,
            final(self).out.refs@ == old(self).out.refs@,
            final(self).sc == old(self).sc,
            ({
                let k = old(self).tree.kind_of(node as int);
                let v = spec_clean_rust_string_literal(old(self).tree.text_of(node as int));
                if (k == "string_literal"@ || k == "raw_string_literal"@) && v.len() > 0 {
                    &&& final(self).out.string_literals@.len() == old(self).out.string_literals@.len() + 1
                    &&& final(self).out.string_literals@.drop_last() == old(self).out.string_literals@
                    &&& final(self).out.string_literals@.last().value@ == v
                    &&& final(self).out.string_literals@.last().line == Some(old(self).tree.line_of(node as int))
                    &&& (final(self).out.string_literals@.last().callee matches Some(c) ==> callee matches Some(d) && c@ == d@)
                    &&& (callee is Some ==> final(self).out.string_literals@.last().callee is Some)
                } else {
                    final(self).out.string_literals@ == old(self).out.string_literals@
                }
            }),
    {
        if self.tree.is(node, "string_literal") || self.tree.is(node, "raw_string_literal") {
            let text = self.text(node);
            let unquoted = clean_rust_string_literal(text.as_str());
            if !unquoted.as_str().is_empty() {
                let c = match callee {
                    Some(s) => Some(s.to_string()),
                    None => None,
                };
                self.add_literal(NewStringLiteral { value: unquoted, callee: c, line: Some(self.tree.line(node)) });
            }
        }
    }
}

/// The reference a call expression yields, when its callee has a non-empty
/// name: `a.b(x)` is `b` with receiver `a`, `A::b()` is `b` with receiver
/// `A`, `f::<T>()` is `f`.
pub open spec fn rust_call_row(t: SyntaxTree, node: int) -> Option<CallParts> {
    match t.field_of(node, "function"@) {
        Some(f) => {
            let (nn, recv) = Walker::callee_parts_in(t, f as int);
            match nn {
                Some(n) if t.text_of(n as int).len() > 0 => Some((t.text_of(n as int), recv,
                    spec_classify_rust_receiver(t.kind_of(f as int), recv),
                    crate::analysis::reach::arg_count_in(t, node),
                    t.line_of(node), t.start_of(node), Some(t.start_of(n as int)))),
                _ => None,
            }
        },
        None => None,
    }
}

/// The reference a macro invocation yields, when the macro has a name:
/// `name!`, with no receiver.
pub open spec fn rust_macro_row(t: SyntaxTree, node: int) -> Option<CallParts> {
    match t.field_of(node, "macro"@) {
        Some(m) if t.text_of(m as int).len() > 0 => Some((t.text_of(m as int) + "!"@, None, "none"@, None,
            t.line_of(node), t.start_of(node), Some(t.start_of(m as int)))),
        _ => None,
    }
}

/// The `call` reference node `n` yields when a walk reaches it: call
/// expressions and macro invocations give one, other nodes none.
pub open spec fn rust_node_row(t: SyntaxTree, n: int) -> Option<CallParts> {
    if t.kind_of(n) == "call_expression"@ {
        rust_call_row(t, n)
    } else if t.kind_of(n) == "macro_invocation"@ {
        rust_macro_row(t, n)
    } else {
        None
    }
}

/// The kinds a Rust walk reads whole without walking into: `use` declarations.
pub open spec fn rust_stop() -> spec_fn(Seq<char>) -> bool {
    |k: Seq<char>| k == "use_declaration"@
}

/// The `call` reference each node of `t` yields, as [`rust_node_row`] gives it.
pub open spec fn rust_rows(t: SyntaxTree) -> spec_fn(int) -> Option<CallParts> {
    |n: int| rust_node_row(t, n)
}

/// Every call reference the Rust walk records reads its receiver right: a
/// method call on `self` (or an associated call through `Self.`) is a call
/// on self, a call through a path is a path call, a bare call has no
/// receiver, and any other receiver is a value.
pub proof fn law_rust_call_receivers(t: SyntaxTree, node: int)
    ensures
        rust_call_row(t, node) matches Some(c) ==> {
            let f = t.field_of(node, "function"@)->0 as int;
            &&& c.1 is None ==> c.2 == "none"@
            &&& (c.1 is Some && t.kind_of(f) == "scoped_identifier"@) ==> c.2 == "path"@
            &&& (c.1 matches Some(r) && t.kind_of(f) != "scoped_identifier"@ && (r == "self"@ || r == "Self"@)) ==> c.2 == "self"@
            &&& (c.1 matches Some(r) && t.kind_of(f) != "scoped_identifier"@ && r != "self"@ && r != "Self"@) ==> c.2 == "value"@
        },
{
    match rust_call_row(t, node) {
        Some(c) => {
            let f = t.field_of(node, "function"@)->0 as int;
            super::helpers::law_rust_receiver_kind(t.kind_of(f), c.1);
        },
        None => {},
    }
}

} // verus!

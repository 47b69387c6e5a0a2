//! Calls hiding inside macro arguments.
//!
//! The grammar hands back a macro's arguments as a `token_tree`: raw tokens,
//! not an expression tree, so every call written inside `try_join!(..)` or
//! `assert!(..)` would be invisible. The token text is re-parsed as a Rust
//! fragment, walked with an ordinary walker, and the references found are
//! rebased onto the real file.

use vstd::prelude::*;
use vstd::slice::slice_subrange;
use vstd::string::StringSliceAdditionalSpecFns;
use crate::cache::models::NewRef;
use crate::syntax::{Grammar, RawNodeView, SyntaxTree, parse_syntax, raw_nodes_view, syntax_of, to_i64, utf8_str};
use crate::text::{concat, str_trim};
use super::{Walker, MAX_MACRO_DEPTH};

verus! {

/// Above this many error nodes a fragment is treated as not Rust.
pub const MAX_FRAGMENT_ERRORS: usize = 4;

/// The text put before a macro's tokens: wrapper 0 reads them as a
/// comma-separated expression list (`try_join!(a, b)`), wrapper 1 as
/// statements (`select! { a = f() => {} }`). Neither holds a newline, so
/// fragment line 1 is the line of the opening delimiter.
pub open spec fn wrapper_prefix(w: int) -> Seq<char> {
    if w == 0 { "fn __m(){("@ } else { "fn __m(){"@ }
}

pub open spec fn wrapper_suffix(w: int) -> Seq<char> {
    if w == 0 { ")}"@ } else { "}"@ }
}

pub open spec fn wrapped(content: Seq<char>, w: int) -> Seq<char> {
    wrapper_prefix(w) + content + wrapper_suffix(w)
}

/// How many error or missing nodes a listing holds.
pub open spec fn error_count(nodes: Seq<RawNodeView>) -> nat
    decreases nodes.len(),
{
    if nodes.len() == 0 {
        0
    } else {
        error_count(nodes.drop_last()) + if nodes.last().error { 1nat } else { 0nat }
    }
}

/// Errors in the parse of `content` under wrapper `w` (`None`: no tree).
pub open spec fn errors_under(content: Seq<char>, w: int) -> Option<nat> {
    match syntax_of(Grammar::Rust, wrapped(content, w)) {
        Some(n) => Some(error_count(n)),
        None => None,
    }
}

/// The wrapper a fragment is read with: the first that parses cleanly, else
/// the one with fewer errors (the first on a tie), provided it has at most
/// [`MAX_FRAGMENT_ERRORS`]; `None` when neither will do.
pub open spec fn pick_wrapper(content: Seq<char>) -> Option<int> {
    let e0 = errors_under(content, 0);
    let e1 = errors_under(content, 1);
    let best: Option<(int, nat)> = if e0 == Some(0nat) {
        Some((0, 0nat))
    } else if e1 == Some(0nat) {
        Some((1, 0nat))
    } else {
        match (e0, e1) {
            (Some(a), Some(b)) => if b < a { Some((1, b)) } else { Some((0, a)) },
            (Some(a), None) => Some((0, a)),
            (None, Some(b)) => Some((1, b)),
            (None, None) => None,
        }
    };
    match best {
        Some((w, e)) => if e <= MAX_FRAGMENT_ERRORS { Some(w) } else { None },
        None => None,
    }
}

/// The number of error or missing nodes in a tree.
pub fn count_errors(tree: &SyntaxTree) -> (r: usize)
    ensures
        r == error_count(raw_nodes_view(tree.nodes@)),
{
    let ghost v = raw_nodes_view(tree.nodes@);
    let mut n: usize = 0;
    let mut i: usize = 0;
    while i < tree.nodes.len()
        invariant
            0 <= i <= tree.nodes@.len(),
            v == raw_nodes_view(tree.nodes@),
            n == error_count(v.take(i as int)),
            n <= i,
        decreases tree.nodes@.len() - i,
    {
        assert(v.take(i + 1).drop_last() =~= v.take(i as int));
        assert(v.take(i + 1).last() == tree.nodes@[i as int]@);
        if tree.nodes[i].error {
            n = n + 1;
        }
        i = i + 1;
    }
    assert(v.take(i as int) =~= v);
    n
}

fn wrap(content: &str, w: usize) -> (r: String)
    requires
        w < 2,
    ensures
        r@ == wrapped(content@, w as int),
{
    if w == 0 {
        let a = concat("fn __m(){(", content);
        concat(a.as_str(), ")}")
    } else {
        let a = concat("fn __m(){", content);
        concat(a.as_str(), "}")
    }
}

fn prefix_len(w: usize) -> (r: usize)
    requires
        w < 2,
    ensures
        r == wrapper_prefix(w as int).len(),
{
    proof {
        reveal_strlit("fn __m(){(");
        reveal_strlit("fn __m(){");
    }
    if w == 0 { 10 } else { 9 }
}

/// Wrap `content` so the grammar accepts it, as [`pick_wrapper`] chooses;
/// returns the wrapped text, its tree, and the length of the prefix.
pub fn parse_fragment(content: &str) -> (r: Option<(String, SyntaxTree, usize)>)
    ensures
        r is None <==> pick_wrapper(content@) is None,
        r matches Some((text, tree, p)) ==> {
            let w = pick_wrapper(content@)->0;
            &&& w == 0 || w == 1
            &&& text@ == wrapped(content@, w)
            &&& tree.wf()
            &&& syntax_of(Grammar::Rust, text@) == Some(raw_nodes_view(tree.nodes@))
            &&& p == wrapper_prefix(w).len()
        },
{
    let t0 = wrap(content, 0);
    let p0 = parse_syntax(Grammar::Rust, t0.as_str());
    let e0: Option<usize> = match &p0 {
        Some(t) => Some(count_errors(t)),
        None => None,
    };
    match e0 {
        Some(0) => {
            let tree = p0.unwrap();
            return Some((t0, tree, prefix_len(0)));
        },
        _ => {},
    }
    let t1 = wrap(content, 1);
    let p1 = parse_syntax(Grammar::Rust, t1.as_str());
    let e1: Option<usize> = match &p1 {
        Some(t) => Some(count_errors(t)),
        None => None,
    };
    match e1 {
        Some(0) => {
            let tree = p1.unwrap();
            return Some((t1, tree, prefix_len(1)));
        },
        _ => {},
    }
    let take_second = match (e0, e1) {
        (Some(a), Some(b)) => b < a,
        (Some(_), None) => false,
        (None, Some(_)) => true,
        (None, None) => { return None; },
    };
    if take_second {
        let e = e1.unwrap();
        if e <= MAX_FRAGMENT_ERRORS {
            Some((t1, p1.unwrap(), prefix_len(1)))
        } else {
            None
        }
    } else {
        let e = e0.unwrap();
        if e <= MAX_FRAGMENT_ERRORS {
            Some((t0, p0.unwrap(), prefix_len(0)))
        } else {
            None
        }
    }
}

/// `a + b`, held to the `i64` range.
pub fn add_sat(a: i64, b: i64) -> (r: i64)
    ensures
        r == (if a + b > i64::MAX { i64::MAX as int } else if a + b < i64::MIN { i64::MIN as int } else { a + b }),
{
    let s = a as i128 + b as i128;
    if s > i64::MAX as i128 {
        i64::MAX
    } else if s < i64::MIN as i128 {
        i64::MIN
    } else {
        s as i64
    }
}

fn clone_text(o: &Option<String>) -> (r: Option<String>)
    ensures
        r == *o,
{
    match o {
        Some(s) => Some(s.clone()),
        None => None,
    }
}

impl Walker {
    /// Parse a macro's `token_tree` as Rust and add the references found
    /// inside it, rebased onto this file: byte offsets shifted onto the
    /// tokens' real position, lines offset by the line of the opening
    /// delimiter, in-file resolution left to this file's own pass. Only
    /// references are taken: a macro body defines nothing this file inherits.
    /// Nothing is taken past [`MAX_MACRO_DEPTH`] nested macros, or when the
    /// tokens are not Rust.
    pub fn collect_macro_body(&mut self, tt: usize)
        requires
            old(self).inv(),
            old(self).valid(tt as int),
        ensures
            final(self).inv(),
            final(self).extends(*old(self)),
            final(self).out.symbols@ == old(self).out.symbols@,
            final(self).out.imports@ == old(self).out.imports@,
            final(self).out.string_literals@ == old(self).out.string_literals@,
            final(self).sc == old(self).sc,
            crate::analysis::grows(old(self).out.refs@, final(self).out.refs@),
            forall|k: int| old(self).out.refs@.len() <= k < final(self).out.refs@.len() ==> {
                let r = #[trigger] final(self).out.refs@[k];
                &&& !r.local_only
                &&& r.resolved_local_symbol_index is None
                &&& old(self).tree.nodes@[tt as int].end_byte <= i64::MAX ==>
                    old(self).tree.nodes@[tt as int].start_byte < r.start_byte < old(self).tree.nodes@[tt as int].end_byte
            },
            old(self).macro_depth >= MAX_MACRO_DEPTH ==> final(self).out.refs@ == old(self).out.refs@,
        decreases MAX_MACRO_DEPTH - old(self).macro_depth, old(self).tree.size() - tt, 1nat,
    {
        if self.macro_depth >= MAX_MACRO_DEPTH {
            return;
        }
        // Strip the delimiters; each is one byte in Rust.
        let s = self.tree.nodes[tt].start_byte;
        let e = self.tree.nodes[tt].end_byte;
        if s == usize::MAX {
            return;
        }
        let inner_start = s + 1;
        let inner_end = if e > 0 { e - 1 } else { 0 };
        if inner_end <= inner_start || inner_end > self.tree.src.len() {
            return;
        }
        let bytes = slice_subrange(self.tree.src.as_slice(), inner_start, inner_end);
        let content = match utf8_str(bytes) {
            Some(c) => c,
            None => { return; },
        };
        let trimmed = str_trim(content);
        if trimmed.as_str().is_empty() {
            return;
        }
        let (fragment, tree, plen) = match parse_fragment(content) {
            Some(x) => x,
            None => { return; },
        };
        let mut sub = Walker::new(tree, fragment.as_str().len(), self.macro_depth + 1);
        if sub.tree.len() > 0 {
            sub.walk(0);
        }
        let line_base = to_i64(self.tree.row(self.tree.nodes[tt].start_byte));
        let clen = content.len();
        assert(clen == inner_end - inner_start) by {
            assert(content.spec_bytes() == bytes@);
        }
        let lo: i128 = plen as i128;
        let hi: i128 = plen as i128 + clen as i128;
        let n0 = self.out.refs.len();
        let mut k: usize = 0;
        while k < sub.out.refs.len()
            invariant
                self.inv(),
                self.extends(*old(self)),
                self.out.symbols@ == old(self).out.symbols@,
                self.out.imports@ == old(self).out.imports@,
                self.out.string_literals@ == old(self).out.string_literals@,
                self.sc == old(self).sc,
                n0 == old(self).out.refs@.len(),
                crate::analysis::grows(old(self).out.refs@, self.out.refs@),
                s == old(self).tree.nodes@[tt as int].start_byte,
                e == old(self).tree.nodes@[tt as int].end_byte,
                inner_start == s + 1,
                inner_end <= e,
                inner_start < inner_end,
                clen == inner_end - inner_start,
                lo == plen,
                hi == plen + clen,
                forall|x: int| n0 <= x < self.out.refs@.len() ==> {
                    let r = #[trigger] self.out.refs@[x];
                    &&& !r.local_only
                    &&& r.resolved_local_symbol_index is None
                    &&& e <= i64::MAX ==> s < r.start_byte < e
                },
                0 <= k <= sub.out.refs@.len(),
            decreases sub.out.refs@.len() - k,
        {
            let start = sub.out.refs[k].start_byte;
            if (start as i128) < lo || (start as i128) >= hi {
                // a node of the wrapper itself
                k = k + 1;
                continue;
            }
            let off = (start as i128 - lo) as usize;
            let shifted = to_i64(inner_start + off);
            let name_start = match sub.out.refs[k].name_start_byte {
                Some(b) => {
                    if (b as i128) < lo || (b as i128) >= hi {
                        None
                    } else {
                        let boff = (b as i128 - lo) as usize;
                        Some(to_i64(inner_start + boff))
                    }
                },
                None => None,
            };
            let src_ref = &sub.out.refs[k];
            let r = NewRef {
                name: src_ref.name.clone(),
                ref_kind: src_ref.ref_kind.clone(),
                receiver: clone_text(&src_ref.receiver),
                start_line: add_sat(src_ref.start_line, line_base),
                start_byte: shifted,
                name_start_byte: name_start,
                arg_count: src_ref.arg_count,
                receiver_kind: src_ref.receiver_kind.clone(),
                local_only: false,
                resolved_local_symbol_index: None,
            };
            assert(e <= i64::MAX ==> s < r.start_byte < e) by {
                assert(inner_start + off < inner_end);
            }
            self.add_ref(r);
            k = k + 1;
        }
    }
}

} // verus!

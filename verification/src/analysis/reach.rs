//! Which nodes a walk over a syntax tree reaches, and the `call` references
//! it records for them.

use vstd::prelude::*;
use crate::analysis::rust::Walker;
use crate::cache::models::NewRef;
use crate::syntax::SyntaxTree;

verus! {

/// The parts of one `call` reference: name, receiver text, receiver kind,
/// argument count, line, start byte and the name's start byte.
pub type CallParts = (Seq<char>, Option<Seq<char>>, Seq<char>, Option<i64>, i64, i64, Option<i64>);

/// Number of arguments of call node `call`, when it has an argument list.
pub open spec fn arg_count_in(t: SyntaxTree, call: int) -> Option<i64> {
    match t.field_of(call, "arguments"@) {
        Some(a) => Some(crate::syntax::sat_i64(t.named_kids(a as int).len() as int)),
        None => None,
    }
}

/// `r` is the unresolved `call` reference with parts `c`.
pub open spec fn is_call_row(r: NewRef, c: CallParts) -> bool {
    Walker::is_ref(r, c.0, "call"@, c.1, c.2, c.3, c.4, c.5, c.6)
}

/// `refs` holds, at index `k` from `lo` on, the `call` reference with parts `c`.
pub open spec fn row_at(refs: Seq<NewRef>, lo: int, k: int, c: CallParts) -> bool {
    0 <= k && lo <= k < refs.len() && is_call_row(refs[k], c)
}

/// Whether a walk from node `i` reaches node `n`: `i` itself and whatever a
/// walk from one of the nodes `next(i)` lists (the nodes the walk moves on
/// to from `i`) reaches.
pub open spec fn walked_via(t: SyntaxTree, next: spec_fn(int) -> Seq<usize>, i: int, n: int) -> bool
    decreases t.size() - i, 1int, 0int,
{
    if !(0 <= i < t.size()) {
        false
    } else {
        n == i || walked_via_kids(t, next, i, n, next(i).len() as int)
    }
}

/// Whether a walk from one of the first `j` nodes of `next(i)` reaches `n`.
pub open spec fn walked_via_kids(t: SyntaxTree, next: spec_fn(int) -> Seq<usize>, i: int, n: int, j: int) -> bool
    decreases t.size() - i, 0int, j,
{
    if !(0 <= i < t.size()) || j <= 0 || j > next(i).len() {
        false
    } else {
        let c = next(i)[j - 1] as int;
        (i < c < t.size() && walked_via(t, next, c, n)) || walked_via_kids(t, next, i, n, j - 1)
    }
}

/// Every node that a walk from node `i` reaches and for which `rows` gives
/// a `call` reference has that reference in `refs`, from index `lo` on.
pub open spec fn covers_via(refs: Seq<NewRef>, lo: int, t: SyntaxTree, next: spec_fn(int) -> Seq<usize>,
    rows: spec_fn(int) -> Option<CallParts>, i: int) -> bool {
    forall|n: int| #[trigger] walked_via(t, next, i, n) && rows(n) is Some ==>
        exists|k: int| #[trigger] row_at(refs, lo, k, rows(n)->0)
}

/// [`covers_via`] holds for every node of `s`.
pub open spec fn seq_covered(refs: Seq<NewRef>, lo: int, t: SyntaxTree, next: spec_fn(int) -> Seq<usize>,
    rows: spec_fn(int) -> Option<CallParts>, s: Seq<usize>) -> bool {
    forall|x: int| 0 <= x < s.len() ==> #[trigger] covers_via(refs, lo, t, next, rows, s[x] as int)
}

/// A node that a walk from one of the first `j` nodes of `next(i)` reaches
/// is reached from one of them.
pub proof fn lemma_walked_via_kid(t: SyntaxTree, next: spec_fn(int) -> Seq<usize>, i: int, n: int, j: int)
    requires
        walked_via_kids(t, next, i, n, j),
    ensures
        exists|x: int| 0 <= x < j && x < next(i).len() && #[trigger] walked_via(t, next, next(i)[x] as int, n),
    decreases j,
{
    let c = next(i)[j - 1] as int;
    if i < c < t.size() && walked_via(t, next, c, n) {
        assert(walked_via(t, next, next(i)[j - 1] as int, n));
    } else {
        lemma_walked_via_kid(t, next, i, n, j - 1);
    }
}

/// Covered from `lo1` on in `a` is covered from any earlier `lo2` on in
/// anything `a` grows into.
pub proof fn lemma_covers_via_mono(a: Seq<NewRef>, b: Seq<NewRef>, lo1: int, lo2: int, t: SyntaxTree,
    next: spec_fn(int) -> Seq<usize>, rows: spec_fn(int) -> Option<CallParts>, i: int)
    requires
        covers_via(a, lo1, t, next, rows, i),
        crate::analysis::grows(a, b),
        lo2 <= lo1,
    ensures
        covers_via(b, lo2, t, next, rows, i),
{
    assert forall|n: int| #[trigger] walked_via(t, next, i, n) && rows(n) is Some implies
        exists|k: int| #[trigger] row_at(b, lo2, k, rows(n)->0) by {
        let k = choose|k: int| #[trigger] row_at(a, lo1, k, rows(n)->0);
        assert(b[k] == a[k]);
        assert(row_at(b, lo2, k, rows(n)->0));
    }
}

/// [`seq_covered`] from `lo1` on in `a` holds from any earlier `lo2` on in
/// anything `a` grows into.
pub proof fn lemma_seq_covered_mono(a: Seq<NewRef>, b: Seq<NewRef>, lo1: int, lo2: int, t: SyntaxTree,
    next: spec_fn(int) -> Seq<usize>, rows: spec_fn(int) -> Option<CallParts>, s: Seq<usize>)
    requires
        seq_covered(a, lo1, t, next, rows, s),
        crate::analysis::grows(a, b),
        lo2 <= lo1,
    ensures
        seq_covered(b, lo2, t, next, rows, s),
{
    assert forall|x: int| 0 <= x < s.len() implies #[trigger] covers_via(b, lo2, t, next, rows, s[x] as int) by {
        lemma_covers_via_mono(a, b, lo1, lo2, t, next, rows, s[x] as int);
    }
}

/// A node whose next nodes are covered, and whose own reference (if any) is
/// in `refs` from `lo` on, is covered.
pub proof fn lemma_covers_via_node(refs: Seq<NewRef>, lo: int, t: SyntaxTree, next: spec_fn(int) -> Seq<usize>,
    rows: spec_fn(int) -> Option<CallParts>, node: int)
    requires
        0 <= node < t.size(),
        seq_covered(refs, lo, t, next, rows, next(node)),
        rows(node) is Some ==> exists|k: int| #[trigger] row_at(refs, lo, k, rows(node)->0),
    ensures
        covers_via(refs, lo, t, next, rows, node),
{
    assert forall|n: int| #[trigger] walked_via(t, next, node, n) && rows(n) is Some implies
        exists|k: int| #[trigger] row_at(refs, lo, k, rows(n)->0) by {
        if n != node {
            lemma_walked_via_kid(t, next, node, n, next(node).len() as int);
            let x = choose|x: int| 0 <= x < next(node).len() as int && x < next(node).len()
                && #[trigger] walked_via(t, next, next(node)[x] as int, n);
            assert(covers_via(refs, lo, t, next, rows, next(node)[x] as int));
        }
    }
}

/// The nodes a walk moves on to from a node: its children, unless its kind
/// is one the walk reads whole without walking into (`stop`).
pub open spec fn stop_next(t: SyntaxTree, stop: spec_fn(Seq<char>) -> bool) -> spec_fn(int) -> Seq<usize> {
    |i: int| if stop(t.kind_of(i)) { Seq::empty() } else { t.kids(i) }
}

/// Every node that a walk from node `i` reaches, where the walk stops at the
/// kinds `stop` holds of, and for which `rows` gives a `call` reference has
/// that reference in `refs`, from index `lo` on.
pub open spec fn refs_cover(refs: Seq<NewRef>, lo: int, t: SyntaxTree, stop: spec_fn(Seq<char>) -> bool,
    rows: spec_fn(int) -> Option<CallParts>, i: int) -> bool {
    covers_via(refs, lo, t, stop_next(t, stop), rows, i)
}

/// [`refs_cover`] holds for every child of node `i`.
pub open spec fn kids_cover(refs: Seq<NewRef>, lo: int, t: SyntaxTree, stop: spec_fn(Seq<char>) -> bool,
    rows: spec_fn(int) -> Option<CallParts>, i: int) -> bool {
    forall|x: int| 0 <= x < t.kids(i).len() ==> #[trigger] refs_cover(refs, lo, t, stop, rows, t.kids(i)[x] as int)
}

/// Covered from `lo1` on in `a` is covered from any earlier `lo2` on in
/// anything `a` grows into.
pub proof fn lemma_refs_cover_mono(a: Seq<NewRef>, b: Seq<NewRef>, lo1: int, lo2: int, t: SyntaxTree,
    stop: spec_fn(Seq<char>) -> bool, rows: spec_fn(int) -> Option<CallParts>, i: int)
    requires
        refs_cover(a, lo1, t, stop, rows, i),
        crate::analysis::grows(a, b),
        lo2 <= lo1,
    ensures
        refs_cover(b, lo2, t, stop, rows, i),
{
    lemma_covers_via_mono(a, b, lo1, lo2, t, stop_next(t, stop), rows, i);
}

/// [`kids_cover`] from `lo1` on in `a` holds from any earlier `lo2` on in
/// anything `a` grows into.
pub proof fn lemma_kids_cover_mono(a: Seq<NewRef>, b: Seq<NewRef>, lo1: int, lo2: int, t: SyntaxTree,
    stop: spec_fn(Seq<char>) -> bool, rows: spec_fn(int) -> Option<CallParts>, i: int)
    requires
        kids_cover(a, lo1, t, stop, rows, i),
        crate::analysis::grows(a, b),
        lo2 <= lo1,
    ensures
        kids_cover(b, lo2, t, stop, rows, i),
{
    assert forall|x: int| 0 <= x < t.kids(i).len() implies #[trigger] refs_cover(b, lo2, t, stop, rows, t.kids(i)[x] as int) by {
        lemma_refs_cover_mono(a, b, lo1, lo2, t, stop, rows, t.kids(i)[x] as int);
    }
}

/// A node whose children are covered, and whose own reference (if any) is
/// in `refs` from `lo` on, is covered; a node the walk reads whole needs
/// nothing of its children.
pub proof fn lemma_refs_cover_node(refs: Seq<NewRef>, lo: int, t: SyntaxTree, stop: spec_fn(Seq<char>) -> bool,
    rows: spec_fn(int) -> Option<CallParts>, node: int)
    requires
        0 <= node < t.size(),
        !stop(t.kind_of(node)) ==> kids_cover(refs, lo, t, stop, rows, node),
        rows(node) is Some ==> exists|k: int| #[trigger] row_at(refs, lo, k, rows(node)->0),
    ensures
        refs_cover(refs, lo, t, stop, rows, node),
{
    let next = stop_next(t, stop);
    assert forall|x: int| 0 <= x < next(node).len() implies #[trigger] covers_via(refs, lo, t, next, rows, next(node)[x] as int) by {
        assert(refs_cover(refs, lo, t, stop, rows, t.kids(node)[x] as int));
    }
    lemma_covers_via_node(refs, lo, t, next, rows, node);
}

/// `p`'s references are, one for one, the references a walk of `t`
/// recorded (`raw`), resolved in-file against `p`'s scopes and bindings; and
/// that walk recorded its `call` reference for every node it reached from
/// the root for which `rows` gives one.
pub open spec fn resolved_via(t: SyntaxTree, next: spec_fn(int) -> Seq<usize>, rows: spec_fn(int) -> Option<CallParts>,
    p: crate::analysis::ParsedFile) -> bool {
    exists|raw: Seq<NewRef>| #[trigger] covers_via(raw, 0, t, next, rows, 0) && raw.len() == p.refs@.len()
        && forall|k: int| 0 <= k < raw.len() ==> p.refs@[k] == crate::analysis::scope::resolve_ref(p.scopes@, p.bindings@, #[trigger] raw[k])
}

/// [`resolved_via`] for a walk that stops at the kinds `stop` holds of.
pub open spec fn resolved_cover(t: SyntaxTree, stop: spec_fn(Seq<char>) -> bool, rows: spec_fn(int) -> Option<CallParts>,
    p: crate::analysis::ParsedFile) -> bool {
    resolved_via(t, stop_next(t, stop), rows, p)
}

/// A walk of an empty tree reaches nothing, so it covers everything.
pub proof fn lemma_covers_via_empty(refs: Seq<NewRef>, t: SyntaxTree, next: spec_fn(int) -> Seq<usize>,
    rows: spec_fn(int) -> Option<CallParts>)
    requires
        t.size() == 0,
    ensures
        covers_via(refs, 0, t, next, rows, 0),
{
    assert forall|n: int| #[trigger] walked_via(t, next, 0, n) && rows(n) is Some implies
        exists|k: int| #[trigger] row_at(refs, 0, k, rows(n)->0) by {
        assert(!walked_via(t, next, 0, n));
    }
}

/// [`lemma_covers_via_empty`] for a walk that stops at the kinds `stop` holds of.
pub proof fn lemma_refs_cover_empty(refs: Seq<NewRef>, t: SyntaxTree, stop: spec_fn(Seq<char>) -> bool,
    rows: spec_fn(int) -> Option<CallParts>)
    requires
        t.size() == 0,
    ensures
        refs_cover(refs, 0, t, stop, rows, 0),
{
    lemma_covers_via_empty(refs, t, stop_next(t, stop), rows);
}

} // verus!

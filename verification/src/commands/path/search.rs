//! Breadth-first search for the shortest chain of relations between two
//! nodes, following edges forward, backward, or both ways.

use vstd::prelude::*;
use crate::commands::impact::traversal::{edges_index, edges_of};
use crate::graph::Edge;
use crate::text::str_eq;

verus! {

/// Which way a search may follow an edge.
#[derive(Debug, Clone, Copy, PartialEq, Eq, Structural)]
pub enum Direction {
    /// From an edge's source to its target.
    Forward,
    /// From an edge's target back to its source.
    Reverse,
    /// Either way.
    Any,
}

pub open spec fn forward(d: Direction) -> bool {
    d is Forward || d is Any
}

pub open spec fn backward(d: Direction) -> bool {
    d is Reverse || d is Any
}

/// `b` is one step from `a`: along an edge listed as leaving `a` (forward),
/// or back along an edge listed as reaching `a` (reverse).
pub open spec fn adjacent(out: Seq<(String, Vec<Edge>)>, inc: Seq<(String, Vec<Edge>)>, d: Direction, a: Seq<char>, b: Seq<char>) -> bool {
    ||| forward(d) && exists|k: int| 0 <= k < edges_of(out, a).len() && (#[trigger] edges_of(out, a)[k]).target@ == b
    ||| backward(d) && exists|k: int| 0 <= k < edges_of(inc, a).len() && (#[trigger] edges_of(inc, a)[k]).source@ == b
}

/// The `i`-th link of `p` is a step.
pub open spec fn link(out: Seq<(String, Vec<Edge>)>, inc: Seq<(String, Vec<Edge>)>, d: Direction, p: Seq<Seq<char>>, i: int) -> bool {
    adjacent(out, inc, d, p[i], p[i + 1])
}

/// `p` walks from its first node to its last, one step at a time.
pub open spec fn is_walk(out: Seq<(String, Vec<Edge>)>, inc: Seq<(String, Vec<Edge>)>, d: Direction, p: Seq<Seq<char>>) -> bool {
    p.len() > 0 && forall|i: int| 0 <= i < p.len() - 1 ==> #[trigger] link(out, inc, d, p, i)
}

/// One step of a found path: the node reached, and the edge taken (entry
/// `list` of the outgoing or, when `reversed`, the incoming lists, edge `pos`
/// of it).
#[derive(Debug)]
pub struct Step {
    pub node_id: String,
    pub list: usize,
    pub pos: usize,
    pub reversed: bool,
}

pub open spec fn step_edge(out: Seq<(String, Vec<Edge>)>, inc: Seq<(String, Vec<Edge>)>, s: Step) -> Edge {
    if s.reversed { inc[s.list as int].1@[s.pos as int] } else { out[s.list as int].1@[s.pos as int] }
}

/// Step `s` leads from node `a` to its node along an edge the direction
/// allows, the edge listed for `a`.
pub open spec fn step_from(out: Seq<(String, Vec<Edge>)>, inc: Seq<(String, Vec<Edge>)>, d: Direction, a: Seq<char>, s: Step) -> bool {
    if s.reversed {
        &&& backward(d)
        &&& s.list < inc.len() && edges_of(inc, a) == inc[s.list as int].1@
        &&& s.pos < inc[s.list as int].1@.len()
        &&& step_edge(out, inc, s).source@ == s.node_id@
    } else {
        &&& forward(d)
        &&& s.list < out.len() && edges_of(out, a) == out[s.list as int].1@
        &&& s.pos < out[s.list as int].1@.len()
        &&& step_edge(out, inc, s).target@ == s.node_id@
    }
}

pub open spec fn node_before(from: Seq<char>, steps: Seq<Step>, i: int) -> Seq<char> {
    if i == 0 { from } else { steps[i - 1].node_id@ }
}

/// `steps` lead from `from` to `to`.
pub open spec fn steps_walk(out: Seq<(String, Vec<Edge>)>, inc: Seq<(String, Vec<Edge>)>, d: Direction, from: Seq<char>, to: Seq<char>, steps: Seq<Step>) -> bool {
    &&& forall|i: int| 0 <= i < steps.len() ==> step_from(out, inc, d, node_before(from, steps, i), #[trigger] steps[i])
    &&& node_before(from, steps, steps.len() as int) == to
}

/// `p` walks from `from` to `to`.
pub open spec fn walk_between(out: Seq<(String, Vec<Edge>)>, inc: Seq<(String, Vec<Edge>)>, d: Direction, from: Seq<char>, to: Seq<char>, p: Seq<Seq<char>>) -> bool {
    is_walk(out, inc, d, p) && p[0] == from && p.last() == to
}

// ------------------------------------------------------------ search state

/// The parent record of node `k` in the search: its node, its parent's
/// node, the edge between them.
pub open spec fn parent_step(ids: Seq<String>, par: Seq<(usize, usize, usize, bool)>, k: int) -> Step {
    Step { node_id: ids[k], list: par[k].1, pos: par[k].2, reversed: par[k].3 }
}

/// The search tree: node 0 is the start at depth 0; every later node was
/// reached in one step from an earlier one, one deeper; no node twice;
/// depths never decrease and stay within `max_depth`.
pub open spec fn tree_ok(
    out: Seq<(String, Vec<Edge>)>,
    inc: Seq<(String, Vec<Edge>)>,
    d: Direction,
    from: Seq<char>,
    max_depth: u32,
    ids: Seq<String>,
    depth: Seq<u32>,
    par: Seq<(usize, usize, usize, bool)>,
) -> bool {
    &&& ids.len() > 0 && depth.len() == ids.len() && par.len() == ids.len()
    &&& ids[0]@ == from && depth[0] == 0
    &&& forall|k: int| 1 <= k < ids.len() ==> {
        &&& (#[trigger] par[k]).0 < k
        &&& depth[k] == depth[par[k].0 as int] + 1
        &&& step_from(out, inc, d, ids[par[k].0 as int]@, parent_step(ids, par, k))
    }
    &&& forall|i: int, j: int| 0 <= i < j < ids.len() ==> (#[trigger] ids[i])@ != (#[trigger] ids[j])@
    &&& forall|i: int, j: int| 0 <= i < j < ids.len() ==> #[trigger] depth[i] <= #[trigger] depth[j]
    &&& forall|k: int| 0 <= k < ids.len() ==> #[trigger] depth[k] <= max_depth
}

/// Node `i` of the search has all its neighbors in the tree, none deeper
/// than one past it.
pub open spec fn expanded(
    out: Seq<(String, Vec<Edge>)>,
    inc: Seq<(String, Vec<Edge>)>,
    d: Direction,
    ids: Seq<String>,
    depth: Seq<u32>,
    i: int,
) -> bool {
    forall|b: Seq<char>| #[trigger] adjacent(out, inc, d, ids[i]@, b)
        ==> exists|j: int| 0 <= j < ids.len() && ids[j]@ == b && depth[j] <= depth[i] + 1
}

/// Every node of a walk from the start is in the tree, no deeper than its
/// place on the walk, when the tree expanded every node shallower than
/// `limit` and the walk is no longer than `limit`.
proof fn lemma_walk_in_tree(
    out: Seq<(String, Vec<Edge>)>,
    inc: Seq<(String, Vec<Edge>)>,
    d: Direction,
    ids: Seq<String>,
    depth: Seq<u32>,
    p: Seq<Seq<char>>,
    j: int,
    limit: int,
)
    requires
        is_walk(out, inc, d, p),
        0 <= j < p.len(),
        j <= limit,
        ids.len() > 0 && depth.len() == ids.len(),
        ids[0]@ == p[0] && depth[0] == 0,
        forall|i: int| 0 <= i < ids.len() && depth[i] < limit ==> #[trigger] expanded(out, inc, d, ids, depth, i),
    ensures
        exists|k: int| 0 <= k < ids.len() && ids[k]@ == p[j] && depth[k] <= j,
    decreases j,
{
    if j > 0 {
        lemma_walk_in_tree(out, inc, d, ids, depth, p, j - 1, limit);
        let k = choose|k: int| 0 <= k < ids.len() && ids[k]@ == p[j - 1] && depth[k] <= j - 1;
        assert(link(out, inc, d, p, j - 1));
        assert(expanded(out, inc, d, ids, depth, k));
        assert(adjacent(out, inc, d, ids[k]@, p[j]));
    } else {
        assert(ids[0]@ == p[0]);
    }
}

fn position(ids: &Vec<String>, id: &str) -> (r: Option<usize>)
    ensures
        r matches Some(k) ==> k < ids@.len() && ids@[k as int]@ == id@,
        r is None ==> forall|k: int| 0 <= k < ids@.len() ==> (#[trigger] ids@[k])@ != id@,
{
    let mut i: usize = 0;
    while i < ids.len()
        invariant
            0 <= i <= ids@.len(),
            forall|k: int| 0 <= k < i ==> (#[trigger] ids@[k])@ != id@,
        decreases ids@.len() - i,
    {
        if str_eq(ids[i].as_str(), id) {
            return Some(i);
        }
        i = i + 1;
    }
    None
}

/// The node ids the edges of `es` name, sources and targets.
pub open spec fn ends_of(es: Seq<Edge>) -> Seq<Seq<char>>
    decreases es.len(),
{
    if es.len() == 0 { seq![] } else { ends_of(es.drop_last()) + seq![es.last().source@, es.last().target@] }
}

/// The node ids every edge list of `adj` names.
pub open spec fn all_ends(adj: Seq<(String, Vec<Edge>)>) -> Seq<Seq<char>>
    decreases adj.len(),
{
    if adj.len() == 0 { seq![] } else { all_ends(adj.drop_last()) + ends_of(adj.last().1@) }
}

proof fn lemma_ends_of(es: Seq<Edge>, k: int)
    requires
        0 <= k < es.len(),
    ensures
        ends_of(es).contains(es[k].source@),
        ends_of(es).contains(es[k].target@),
    decreases es.len(),
{
    let n = ends_of(es.drop_last()).len() as int;
    if k < es.len() - 1 {
        lemma_ends_of(es.drop_last(), k);
        let a = choose|x: int| 0 <= x < ends_of(es.drop_last()).len() && ends_of(es.drop_last())[x] == es[k].source@;
        let b = choose|x: int| 0 <= x < ends_of(es.drop_last()).len() && ends_of(es.drop_last())[x] == es[k].target@;
        assert(ends_of(es)[a] == es[k].source@);
        assert(ends_of(es)[b] == es[k].target@);
    } else {
        assert(ends_of(es)[n] == es[k].source@);
        assert(ends_of(es)[n + 1] == es[k].target@);
    }
}

proof fn lemma_all_ends(adj: Seq<(String, Vec<Edge>)>, li: int, k: int)
    requires
        0 <= li < adj.len(),
        0 <= k < adj[li].1@.len(),
    ensures
        all_ends(adj).contains(adj[li].1@[k].source@),
        all_ends(adj).contains(adj[li].1@[k].target@),
    decreases adj.len(),
{
    let front = all_ends(adj.drop_last());
    if li < adj.len() - 1 {
        lemma_all_ends(adj.drop_last(), li, k);
        assert(adj.drop_last()[li] == adj[li]);
        let a = choose|x: int| 0 <= x < front.len() && front[x] == adj[li].1@[k].source@;
        let b = choose|x: int| 0 <= x < front.len() && front[x] == adj[li].1@[k].target@;
        assert(all_ends(adj)[a] == adj[li].1@[k].source@);
        assert(all_ends(adj)[b] == adj[li].1@[k].target@);
    } else {
        lemma_ends_of(adj[li].1@, k);
        let es = ends_of(adj[li].1@);
        let a = choose|x: int| 0 <= x < es.len() && es[x] == adj[li].1@[k].source@;
        let b = choose|x: int| 0 <= x < es.len() && es[x] == adj[li].1@[k].target@;
        assert(all_ends(adj)[front.len() + a] == adj[li].1@[k].source@);
        assert(all_ends(adj)[front.len() + b] == adj[li].1@[k].target@);
    }
}

pub open spec fn id_views(ids: Seq<String>) -> Seq<Seq<char>> {
    ids.map_values(|s: String| s@)
}

/// A tree whose distinct ids all lie in `universe` has no more nodes than it.
proof fn lemma_tree_bounded(ids: Seq<String>, universe: Seq<Seq<char>>)
    requires
        forall|i: int, j: int| 0 <= i < j < ids.len() ==> (#[trigger] ids[i])@ != (#[trigger] ids[j])@,
        forall|k: int| 0 <= k < ids.len() ==> universe.contains((#[trigger] ids[k])@),
    ensures
        ids.len() <= universe.len(),
{
    let v = id_views(ids);
    assert(v.no_duplicates()) by {
        assert forall|i: int, j: int| 0 <= i < v.len() && 0 <= j < v.len() && i != j implies v[i] != v[j] by {
            if i < j {
                assert(ids[i]@ != ids[j]@);
            } else {
                assert(ids[j]@ != ids[i]@);
            }
        }
    }
    v.unique_seq_to_set();
    assert(v.to_set().subset_of(universe.to_set())) by {
        assert forall|x: Seq<char>| v.to_set().contains(x) implies universe.to_set().contains(x) by {
            let k = choose|k: int| 0 <= k < v.len() && v[k] == x;
            assert(universe.contains(ids[k]@));
        }
    }
    vstd::seq_lib::seq_to_set_is_finite(universe);
    vstd::set_lib::lemma_len_subset(v.to_set(), universe.to_set());
    universe.lemma_cardinality_of_set();
}

/// The end of edge `e` a step reaches: its target forward, its source
/// backward.
pub open spec fn far_end(e: Edge, rev: bool) -> Seq<char> {
    if rev { e.source@ } else { e.target@ }
}

/// Node `b` is in the tree no deeper than `bound`.
pub open spec fn reached_in(ids: Seq<String>, depth: Seq<u32>, b: Seq<char>, bound: int) -> bool {
    exists|j: int| 0 <= j < ids.len() && ids[j]@ == b && depth[j] <= bound
}

/// The incoming lists when `rev`, else the outgoing ones.
pub open spec fn pick(out: Seq<(String, Vec<Edge>)>, inc: Seq<(String, Vec<Edge>)>, rev: bool) -> Seq<(String, Vec<Edge>)> {
    if rev { inc } else { out }
}

pub open spec fn in_universe(ids: Seq<String>, universe: Seq<Seq<char>>) -> bool {
    forall|k: int| 0 <= k < ids.len() ==> universe.contains((#[trigger] ids[k])@)
}

/// `new` extends `old`.
pub open spec fn extends<T>(old: Seq<T>, new: Seq<T>) -> bool {
    old.len() <= new.len() && new.take(old.len() as int) == old
}

/// Add the nodes one step from node `head` along the edge list `li` of the
/// outgoing (or, `rev`, incoming) lists, each one not yet in the tree.
#[verifier::rlimit(40)]
fn visit_edges(
    out: &Vec<(String, Vec<Edge>)>,
    inc: &Vec<(String, Vec<Edge>)>,
    d: Direction,
    from: &str,
    max_depth: u32,
    ids: &mut Vec<String>,
    depth: &mut Vec<u32>,
    par: &mut Vec<(usize, usize, usize, bool)>,
    head: usize,
    li: usize,
    rev: bool,
    Ghost(universe): Ghost<Seq<Seq<char>>>,
)
    requires
        tree_ok(out@, inc@, d, from@, max_depth, old(ids)@, old(depth)@, old(par)@),
        head < old(ids)@.len(),
        old(depth)@[head as int] < max_depth,
        forall|j: int| 0 <= j < old(ids)@.len() ==> #[trigger] old(depth)@[j] <= old(depth)@[head as int] + 1,
        if rev { backward(d) } else { forward(d) },
        li < pick(out@, inc@, rev).len(),
        edges_of(if rev { inc@ } else { out@ }, old(ids)@[head as int]@) == pick(out@, inc@, rev)[li as int].1@,
        in_universe(old(ids)@, universe),
        forall|x: int, k: int| 0 <= x < pick(out@, inc@, rev).len() && 0 <= k < pick(out@, inc@, rev)[x].1@.len()
            ==> universe.contains(far_end(#[trigger] pick(out@, inc@, rev)[x].1@[k], rev)),
    ensures
        tree_ok(out@, inc@, d, from@, max_depth, final(ids)@, final(depth)@, final(par)@),
        extends(old(ids)@, final(ids)@),
        extends(old(depth)@, final(depth)@),
        extends(old(par)@, final(par)@),
        forall|j: int| 0 <= j < final(ids)@.len() ==> #[trigger] final(depth)@[j] <= old(depth)@[head as int] + 1,
        in_universe(final(ids)@, universe),
        forall|k: int| 0 <= k < pick(out@, inc@, rev)[li as int].1@.len() ==> #[trigger] reached_in(
            final(ids)@, final(depth)@, far_end(pick(out@, inc@, rev)[li as int].1@[k], rev), old(depth)@[head as int] + 1),
{
    let adj = if rev { inc } else { out };
    let ghost ids0 = ids@;
    let ghost depth0 = depth@;
    let ghost par0 = par@;
    let dh = depth[head];
    let n = adj[li].1.len();
    let mut k: usize = 0;
    assert(ids@.take(ids@.len() as int) =~= ids@);
    assert(depth@.take(depth@.len() as int) =~= depth@);
    assert(par@.take(par@.len() as int) =~= par@);
    while k < n
        invariant
            adj@ == pick(out@, inc@, rev),
            n == adj@[li as int].1@.len(),
            li < adj@.len(),
            0 <= k <= n,
            head < ids0.len(),
            depth0.len() == ids0.len(),
            dh == depth0[head as int],
            dh < max_depth,
            if rev { backward(d) } else { forward(d) },
            edges_of(adj@, ids0[head as int]@) == adj@[li as int].1@,
            tree_ok(out@, inc@, d, from@, max_depth, ids@, depth@, par@),
            extends(ids0, ids@),
            extends(depth0, depth@),
            extends(par0, par@),
            forall|j: int| 0 <= j < ids@.len() ==> #[trigger] depth@[j] <= dh + 1,
            in_universe(ids@, universe),
            forall|x: int, q: int| 0 <= x < adj@.len() && 0 <= q < adj@[x].1@.len()
                ==> universe.contains(far_end(#[trigger] adj@[x].1@[q], rev)),
            forall|q: int| 0 <= q < k ==> #[trigger] reached_in(ids@, depth@, far_end(adj@[li as int].1@[q], rev), dh + 1),
        decreases n - k,
    {
        let e = &adj[li].1[k];
        let next = if rev { &e.source } else { &e.target };
        assert(next@ == far_end(adj@[li as int].1@[k as int], rev));
        match position(ids, next.as_str()) {
            Some(j) => {
                assert(ids@[j as int]@ == far_end(adj@[li as int].1@[k as int], rev) && depth@[j as int] <= dh + 1);
                assert(reached_in(ids@, depth@, far_end(adj@[li as int].1@[k as int], rev), dh + 1));
            },
            None => {
                let ghost i1 = ids@;
                let ghost d1 = depth@;
                let ghost p1 = par@;
                assert(ids@.take(ids0.len() as int) == ids0);
                assert(ids@[head as int] == ids@.take(ids0.len() as int)[head as int]);
                assert(ids@[head as int] == ids0[head as int]);
                assert(depth@[head as int] == depth@.take(depth0.len() as int)[head as int]);
                assert(depth@[head as int] == dh);
                ids.push(next.clone());
                depth.push(dh + 1);
                par.push((head, li, k, rev));
                proof {
                    let m = i1.len() as int;
                    assert(ids@ == i1.push(ids@[m]));
                    assert(ids@.take(ids0.len() as int) =~= ids0);
                    assert(depth@.take(depth0.len() as int) =~= depth0);
                    assert(par@.take(par0.len() as int) =~= par0);
                    assert forall|q: int| 1 <= q < ids@.len() implies {
                        &&& (#[trigger] par@[q]).0 < q
                        &&& depth@[q] == depth@[par@[q].0 as int] + 1
                        &&& step_from(out@, inc@, d, ids@[par@[q].0 as int]@, parent_step(ids@, par@, q))
                    } by {
                        if q < m {
                            assert(par@[q] == p1[q]);
                            assert(ids@[q] == i1[q]);
                            assert(ids@[par@[q].0 as int] == i1[par@[q].0 as int]);
                            assert(depth@[par@[q].0 as int] == d1[par@[q].0 as int]);
                            assert(parent_step(ids@, par@, q) == parent_step(i1, p1, q));
                        } else {
                            assert(ids@[head as int]@ == ids0[head as int]@);
                            assert(depth@[head as int] == dh);
                            let st = parent_step(ids@, par@, q);
                            assert(st.node_id@ == next@);
                            assert(step_edge(out@, inc@, st) == adj@[li as int].1@[k as int]);
                        }
                    }
                    assert forall|a: int, b: int| 0 <= a < b < ids@.len() implies (#[trigger] ids@[a])@ != (#[trigger] ids@[b])@ by {
                        if b == m {
                            assert(i1[a]@ != next@);
                        }
                    }
                    assert forall|a: int, b: int| 0 <= a < b < ids@.len() implies #[trigger] depth@[a] <= #[trigger] depth@[b] by {
                        if b == m {
                            assert(d1[a] <= dh + 1);
                        }
                    }
                    assert forall|q: int| 0 <= q < ids@.len() implies universe.contains((#[trigger] ids@[q])@) by {
                        if q == m {
                            assert(universe.contains(far_end(adj@[li as int].1@[k as int], rev)));
                        }
                    }
                    assert forall|q: int| 0 <= q < k + 1 implies #[trigger] reached_in(ids@, depth@, far_end(adj@[li as int].1@[q], rev), dh + 1) by {
                        if q < k {
                            assert(reached_in(i1, d1, far_end(adj@[li as int].1@[q], rev), dh + 1));
                            let j = choose|j: int| 0 <= j < i1.len() && i1[j]@ == far_end(adj@[li as int].1@[q], rev) && d1[j] <= dh + 1;
                            assert(ids@[j] == i1[j] && depth@[j] == d1[j]);
                        } else {
                            assert(ids@[m]@ == next@);
                        }
                    }
                }
            },
        }
        k = k + 1;
    }
}

proof fn lemma_extension_keeps(
    out: Seq<(String, Vec<Edge>)>,
    inc: Seq<(String, Vec<Edge>)>,
    d: Direction,
    ids: Seq<String>,
    depth: Seq<u32>,
    ids2: Seq<String>,
    depth2: Seq<u32>,
    upto: int,
)
    requires
        extends(ids, ids2),
        extends(depth, depth2),
        depth.len() == ids.len(),
        0 <= upto <= ids.len(),
    ensures
        forall|i: int| 0 <= i < upto && #[trigger] expanded(out, inc, d, ids, depth, i) ==> expanded(out, inc, d, ids2, depth2, i),
        forall|b: Seq<char>, bound: int| #[trigger] reached_in(ids, depth, b, bound) ==> reached_in(ids2, depth2, b, bound),
{
    assert forall|i: int| 0 <= i < upto && #[trigger] expanded(out, inc, d, ids, depth, i) implies expanded(out, inc, d, ids2, depth2, i) by {
        assert(ids2[i] == ids2.take(ids.len() as int)[i]);
        assert(depth2[i] == depth2.take(depth.len() as int)[i]);
        assert forall|b: Seq<char>| #[trigger] adjacent(out, inc, d, ids2[i]@, b)
            implies exists|j: int| 0 <= j < ids2.len() && ids2[j]@ == b && depth2[j] <= depth2[i] + 1 by {
            let j = choose|j: int| 0 <= j < ids.len() && ids[j]@ == b && depth[j] <= depth[i] + 1;
            assert(ids2[j] == ids2.take(ids.len() as int)[j]);
            assert(depth2[j] == depth2.take(depth.len() as int)[j]);
        }
    }
    assert forall|b: Seq<char>, bound: int| #[trigger] reached_in(ids, depth, b, bound) implies reached_in(ids2, depth2, b, bound) by {
        let j = choose|j: int| 0 <= j < ids.len() && ids[j]@ == b && depth[j] <= bound;
        assert(ids2[j] == ids2.take(ids.len() as int)[j]);
        assert(depth2[j] == depth2.take(depth.len() as int)[j]);
    }
}

/// The steps from the start down the tree to node `h`.
fn rebuild(
    out: &Vec<(String, Vec<Edge>)>,
    inc: &Vec<(String, Vec<Edge>)>,
    d: Direction,
    from: &str,
    max_depth: u32,
    ids: &Vec<String>,
    depth: &Vec<u32>,
    par: &Vec<(usize, usize, usize, bool)>,
    h: usize,
) -> (steps: Vec<Step>)
    requires
        tree_ok(out@, inc@, d, from@, max_depth, ids@, depth@, par@),
        h < ids@.len(),
    ensures
        steps_walk(out@, inc@, d, from@, ids@[h as int]@, steps@),
        steps@.len() == depth@[h as int],
{
    let mut cur = h;
    let mut steps: Vec<Step> = Vec::new();
    while cur != 0
        invariant
            tree_ok(out@, inc@, d, from@, max_depth, ids@, depth@, par@),
            cur <= h < ids@.len(),
            steps_walk(out@, inc@, d, ids@[cur as int]@, ids@[h as int]@, steps@),
            steps@.len() + depth@[cur as int] == depth@[h as int],
        decreases cur,
    {
        let p = par[cur];
        let s = Step { node_id: ids[cur].clone(), list: p.1, pos: p.2, reversed: p.3 };
        let ghost old_steps = steps@;
        let ghost a = ids@[p.0 as int]@;
        proof {
            assert(step_from(out@, inc@, d, a, parent_step(ids@, par@, cur as int)));
            assert(step_from(out@, inc@, d, a, s));
        }
        steps.insert(0, s);
        proof {
            assert(steps@ =~= seq![s] + old_steps);
            assert forall|i: int| 0 <= i < steps@.len() implies step_from(out@, inc@, d, node_before(a, steps@, i), #[trigger] steps@[i]) by {
                if i > 0 {
                    assert(steps@[i] == old_steps[i - 1]);
                    assert(node_before(a, steps@, i) == node_before(ids@[cur as int]@, old_steps, i - 1));
                }
            }
            assert(node_before(a, steps@, steps@.len() as int) == node_before(ids@[cur as int]@, old_steps, old_steps.len() as int));
        }
        cur = p.0;
    }
    steps
}

/// The shortest chain of steps from `from` to `to`, breadth first, no more
/// than `max_depth` steps: `None` when every walk between them is longer.
/// Among walks of the shortest length the search takes the one its
/// breadth-first order meets first.
pub fn shortest_path(
    out: &Vec<(String, Vec<Edge>)>,
    inc: &Vec<(String, Vec<Edge>)>,
    from: &str,
    to: &str,
    d: Direction,
    max_depth: u32,
) -> (r: Option<Vec<Step>>)
    ensures
        r matches Some(steps) ==> steps_walk(out@, inc@, d, from@, to@, steps@) && steps@.len() <= max_depth,
        r matches Some(steps) ==> forall|p: Seq<Seq<char>>| #[trigger] walk_between(out@, inc@, d, from@, to@, p)
            ==> steps@.len() <= p.len() - 1,
        r is None ==> forall|p: Seq<Seq<char>>| #[trigger] walk_between(out@, inc@, d, from@, to@, p)
            ==> p.len() - 1 > max_depth,
{
    let ghost universe = seq![from@] + all_ends(out@) + all_ends(inc@);
    let mut ids: Vec<String> = Vec::new();
    let mut depth: Vec<u32> = Vec::new();
    let mut par: Vec<(usize, usize, usize, bool)> = Vec::new();
    ids.push(from.to_string());
    depth.push(0);
    par.push((0, 0, 0, false));
    proof {
        assert(universe[0] == from@);
        assert(in_universe(ids@, universe));
    }
    let mut head: usize = 0;
    while head < ids.len()
        invariant
            tree_ok(out@, inc@, d, from@, max_depth, ids@, depth@, par@),
            head <= ids@.len(),
            head < ids@.len() ==> forall|j: int| 0 <= j < ids@.len() ==> #[trigger] depth@[j] <= depth@[head as int] + 1,
            forall|i: int| 0 <= i < head && depth@[i] < max_depth ==> #[trigger] expanded(out@, inc@, d, ids@, depth@, i),
            forall|i: int| 0 <= i < head ==> (#[trigger] ids@[i])@ != to@,
            in_universe(ids@, universe),
            universe == seq![from@] + all_ends(out@) + all_ends(inc@),
        decreases universe.len() - head,
    {
        proof {
            lemma_tree_bounded(ids@, universe);
        }
        if str_eq(ids[head].as_str(), to) {
            let steps = rebuild(out, inc, d, from, max_depth, &ids, &depth, &par, head);
            proof {
                let h = head as int;
                assert forall|p: Seq<Seq<char>>| #[trigger] walk_between(out@, inc@, d, from@, to@, p)
                    implies steps@.len() <= p.len() - 1 by {
                    let l = p.len() - 1;
                    if l < depth@[h] {
                        assert forall|i: int| 0 <= i < ids@.len() && depth@[i] < l implies #[trigger] expanded(out@, inc@, d, ids@, depth@, i) by {
                            if i >= h {
                                if i > h {
                                    assert(depth@[h] <= depth@[i]);
                                }
                            }
                        }
                        lemma_walk_in_tree(out@, inc@, d, ids@, depth@, p, l, l);
                        let k = choose|k: int| 0 <= k < ids@.len() && ids@[k]@ == p[l] && depth@[k] <= l;
                        if k != h {
                            if k < h {
                                assert(ids@[k]@ != ids@[h]@);
                            } else {
                                assert(ids@[h]@ != ids@[k]@);
                            }
                        }
                    }
                }
            }
            return Some(steps);
        }
        let cur = ids[head].clone();
        let ghost ids_a = ids@;
        let ghost depth_a = depth@;
        let dh = depth[head];
        if dh < max_depth {
            if matches!(d, Direction::Forward | Direction::Any) {
                match edges_index(out, cur.as_str()) {
                    Some(li) => {
                        proof {
                            assert forall|x: int, q: int| 0 <= x < out@.len() && 0 <= q < out@[x].1@.len()
                                implies universe.contains(far_end(#[trigger] pick(out@, inc@, false)[x].1@[q], false)) by {
                                lemma_all_ends(out@, x, q);
                                let w = choose|w: int| 0 <= w < all_ends(out@).len() && all_ends(out@)[w] == out@[x].1@[q].target@;
                                assert(universe[1 + w] == out@[x].1@[q].target@);
                            }
                        }
                        visit_edges(out, inc, d, from, max_depth, &mut ids, &mut depth, &mut par, head, li, false, Ghost(universe));
                        proof {
                            assert forall|k: int| 0 <= k < edges_of(out@, cur@).len() implies #[trigger] reached_in(ids@, depth@, edges_of(out@, cur@)[k].target@, dh + 1) by {
                                assert(reached_in(ids@, depth@, far_end(pick(out@, inc@, false)[li as int].1@[k], false), depth_a[head as int] + 1));
                            }
                        }
                    },
                    None => {
                        assert(ids@.take(ids_a.len() as int) =~= ids_a);
                        assert(depth@.take(depth_a.len() as int) =~= depth_a);
                    },
                }
            } else {
                assert(ids@.take(ids_a.len() as int) =~= ids_a);
                assert(depth@.take(depth_a.len() as int) =~= depth_a);
            }
            assert(forward(d) ==> forall|k: int| 0 <= k < edges_of(out@, cur@).len() ==> #[trigger] reached_in(ids@, depth@, edges_of(out@, cur@)[k].target@, dh + 1));
            let ghost ids_b = ids@;
            let ghost depth_b = depth@;
            assert(ids_b[head as int] == ids_b.take(ids_a.len() as int)[head as int]);
            assert(depth_b[head as int] == depth_b.take(depth_a.len() as int)[head as int]);
            if matches!(d, Direction::Reverse | Direction::Any) {
                match edges_index(inc, cur.as_str()) {
                    Some(li) => {
                        proof {
                            assert forall|x: int, q: int| 0 <= x < inc@.len() && 0 <= q < inc@[x].1@.len()
                                implies universe.contains(far_end(#[trigger] pick(out@, inc@, true)[x].1@[q], true)) by {
                                lemma_all_ends(inc@, x, q);
                                let w = choose|w: int| 0 <= w < all_ends(inc@).len() && all_ends(inc@)[w] == inc@[x].1@[q].source@;
                                assert(universe[1 + all_ends(out@).len() + w] == inc@[x].1@[q].source@);
                            }
                        }
                        visit_edges(out, inc, d, from, max_depth, &mut ids, &mut depth, &mut par, head, li, true, Ghost(universe));
                        proof {
                            assert forall|k: int| 0 <= k < edges_of(inc@, cur@).len() implies #[trigger] reached_in(ids@, depth@, edges_of(inc@, cur@)[k].source@, dh + 1) by {
                                assert(reached_in(ids@, depth@, far_end(pick(out@, inc@, true)[li as int].1@[k], true), depth_b[head as int] + 1));
                            }
                        }
                    },
                    None => {
                        assert(ids@.take(ids_b.len() as int) =~= ids_b);
                        assert(depth@.take(depth_b.len() as int) =~= depth_b);
                    },
                }
            } else {
                assert(ids@.take(ids_b.len() as int) =~= ids_b);
                assert(depth@.take(depth_b.len() as int) =~= depth_b);
            }
            assert(backward(d) ==> forall|k: int| 0 <= k < edges_of(inc@, cur@).len() ==> #[trigger] reached_in(ids@, depth@, edges_of(inc@, cur@)[k].source@, dh + 1));
            proof {
                let h = head as int;
                assert(ids@[h] == ids@.take(ids_a.len() as int)[h]);
                assert(depth@[h] == depth@.take(depth_a.len() as int)[h]);
                assert(ids@.take(ids_a.len() as int) =~= ids_a) by {
                    assert(ids@.take(ids_b.len() as int) == ids_b);
                    assert(ids_b.take(ids_a.len() as int) == ids_a);
                    assert(ids@.take(ids_a.len() as int) =~= ids_b.take(ids_a.len() as int));
                }
                assert(depth@.take(depth_a.len() as int) =~= depth_a) by {
                    assert(depth@.take(depth_b.len() as int) == depth_b);
                    assert(depth_b.take(depth_a.len() as int) == depth_a);
                    assert(depth@.take(depth_a.len() as int) =~= depth_b.take(depth_a.len() as int));
                }
                lemma_extension_keeps(out@, inc@, d, ids_a, depth_a, ids@, depth@, h);
                lemma_extension_keeps(out@, inc@, d, ids_b, depth_b, ids@, depth@, 0);
                assert forall|b: Seq<char>| #[trigger] adjacent(out@, inc@, d, ids@[h]@, b)
                    implies exists|j: int| 0 <= j < ids@.len() && ids@[j]@ == b && depth@[j] <= depth@[h] + 1 by {
                    assert(ids@[h]@ == cur@);
                    if forward(d) && exists|k: int| 0 <= k < edges_of(out@, cur@).len() && (#[trigger] edges_of(out@, cur@)[k]).target@ == b {
                        let k = choose|k: int| 0 <= k < edges_of(out@, cur@).len() && (#[trigger] edges_of(out@, cur@)[k]).target@ == b;
                        assert(reached_in(ids_b, depth_b, edges_of(out@, cur@)[k].target@, dh + 1));
                        assert(reached_in(ids@, depth@, b, dh + 1));
                    } else {
                        let k = choose|k: int| 0 <= k < edges_of(inc@, cur@).len() && (#[trigger] edges_of(inc@, cur@)[k]).source@ == b;
                        assert(reached_in(ids@, depth@, edges_of(inc@, cur@)[k].source@, dh + 1));
                    }
                }
                assert(expanded(out@, inc@, d, ids@, depth@, h));
                assert forall|i: int| 0 <= i < h + 1 && depth@[i] < max_depth implies #[trigger] expanded(out@, inc@, d, ids@, depth@, i) by {
                    if i < h {
                        assert(depth@[i] == depth@.take(depth_a.len() as int)[i]);
                        assert(depth_a[i] < max_depth);
                        assert(expanded(out@, inc@, d, ids_a, depth_a, i));
                    }
                }
                assert forall|i: int| 0 <= i < head ==> (#[trigger] ids@[i])@ != to@ by {
                    if 0 <= i < head {
                        assert(ids@[i] == ids@.take(ids_a.len() as int)[i]);
                    }
                }
            }
        }
        proof {
            let h = head as int;
            if h + 1 < ids@.len() {
                assert(depth@[h] <= depth@[h + 1]);
            }
        }
        head = head + 1;
    }
    proof {
        assert forall|p: Seq<Seq<char>>| #[trigger] walk_between(out@, inc@, d, from@, to@, p)
            implies p.len() - 1 > max_depth by {
            let l = p.len() - 1;
            if l <= max_depth {
                lemma_walk_in_tree(out@, inc@, d, ids@, depth@, p, l, l);
                let k = choose|k: int| 0 <= k < ids@.len() && ids@[k]@ == p[l] && depth@[k] <= l;
                assert(ids@[k]@ != to@);
            }
        }
    }
    None
}

} // verus!

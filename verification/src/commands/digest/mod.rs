//! The architecture digest: modules, their public types and functions with
//! their signatures and docs, and the most-called symbols.

pub mod assemble;
pub mod extractor;
pub mod markdown;
pub mod models;

use vstd::prelude::*;
use crate::graph::{CodeGraph, Edge, Node};
use crate::rank::{goes_before, name_views, rank_selected, ranked};
use crate::text::{clone_opt_string, opt_chars, str_eq};
use self::models::HubItem;

verus! {

/// Accessors and trait plumbing that every type has: their degree says how
/// often a name is reused, not where the architecture centres.
pub open spec fn is_trivial_name(l: Seq<char>) -> bool {
    l == "as_str"@ || l == "as_ref"@ || l == "as_mut"@ || l == "new"@ || l == "default"@ || l == "fmt"@
        || l == "from"@ || l == "into"@ || l == "clone"@ || l == "eq"@ || l == "hash"@ || l == "drop"@
        || l == "len"@ || l == "is_empty"@ || l == "get"@ || l == "set"@ || l == "iter"@ || l == "next"@
        || l == "to_string"@ || l == "text"@ || l == "line"@ || l == "push"@ || l == "pop"@ || l == "name"@
}

/// A method whose name is one of the trivial ones.
pub open spec fn spec_is_trivial_hub(n: Node) -> bool {
    n.kind@ == "method"@ && is_trivial_name(n.label@)
}

pub fn is_trivial_hub(n: &Node) -> (r: bool)
    ensures
        r == spec_is_trivial_hub(*n),
{
    if !str_eq(n.kind.as_str(), "method") {
        return false;
    }
    let l = n.label.as_str();
    str_eq(l, "as_str") || str_eq(l, "as_ref") || str_eq(l, "as_mut") || str_eq(l, "new") || str_eq(l, "default")
        || str_eq(l, "fmt") || str_eq(l, "from") || str_eq(l, "into") || str_eq(l, "clone") || str_eq(l, "eq")
        || str_eq(l, "hash") || str_eq(l, "drop") || str_eq(l, "len") || str_eq(l, "is_empty") || str_eq(l, "get")
        || str_eq(l, "set") || str_eq(l, "iter") || str_eq(l, "next") || str_eq(l, "to_string") || str_eq(l, "text")
        || str_eq(l, "line") || str_eq(l, "push") || str_eq(l, "pop") || str_eq(l, "name")
}

/// How many edge ends name `id` (an edge from a node to itself counts twice).
pub open spec fn degree_of(edges: Seq<Edge>, id: Seq<char>) -> nat
    decreases edges.len(),
{
    if edges.len() == 0 {
        0
    } else {
        let e = edges.last();
        degree_of(edges.drop_last(), id) + (if e.source@ == id { 1nat } else { 0nat })
            + (if e.target@ == id { 1nat } else { 0nat })
    }
}

/// A node worth listing as a hub: at least three edge ends, not a directory,
/// not a trivial accessor.
pub open spec fn hub_candidate(g: CodeGraph, i: int) -> bool {
    let n = g.nodes@[i];
    let d = degree_of(g.edges@, n.id@);
    3 <= d <= u32::MAX && n.kind@ != "directory"@ && !spec_is_trivial_hub(n)
}

/// The degree of `id`, when it fits a `u32`.
fn degree_exec(edges: &Vec<Edge>, id: &str) -> (r: Option<u32>)
    ensures
        r matches Some(d) ==> d == degree_of(edges@, id@),
        r is None ==> degree_of(edges@, id@) > u32::MAX,
{
    let mut d: u64 = 0;
    let mut i: usize = 0;
    assert(edges@.take(0) =~= seq![]);
    while i < edges.len()
        invariant
            0 <= i <= edges@.len(),
            d == degree_of(edges@.take(i as int), id@),
            d <= u32::MAX,
        decreases edges@.len() - i,
    {
        assert(edges@.take(i + 1).drop_last() =~= edges@.take(i as int));
        if str_eq(edges[i].source.as_str(), id) {
            d = d + 1;
        }
        if str_eq(edges[i].target.as_str(), id) {
            d = d + 1;
        }
        i = i + 1;
        if d > u32::MAX as u64 {
            proof {
                lemma_degree_grows(edges@, i as int, id@);
            }
            return None;
        }
    }
    assert(edges@.take(edges@.len() as int) =~= edges@);
    Some(d as u32)
}

proof fn lemma_degree_grows(edges: Seq<Edge>, i: int, id: Seq<char>)
    requires
        0 <= i <= edges.len(),
    ensures
        degree_of(edges.take(i), id) <= degree_of(edges, id),
    decreases edges.len() - i,
{
    if i < edges.len() {
        lemma_degree_grows(edges, i + 1, id);
        assert(edges.take(i + 1).drop_last() =~= edges.take(i));
    } else {
        assert(edges.take(i) =~= edges);
    }
}

pub open spec fn node_degrees(g: CodeGraph) -> Seq<usize> {
    Seq::new(g.nodes@.len(), |i: int| degree_of(g.edges@, g.nodes@[i].id@) as usize)
}

pub open spec fn node_labels(g: CodeGraph) -> Seq<Seq<char>> {
    g.nodes@.map_values(|n: Node| n.label@)
}

/// `r` lists the hubs of `g` for the nodes `order`: ranked by degree then
/// label, each a hub candidate, and every candidate left out ranks below all
/// listed ones (only ten are listed).
pub open spec fn hub_listing(g: CodeGraph, r: Seq<HubItem>, order: Seq<usize>) -> bool {
    let degrees = node_degrees(g);
    let labels = node_labels(g);
    &&& order.len() == r.len()
    &&& forall|a: int, b: int| 0 <= a < b < order.len() ==> goes_before(degrees, labels, #[trigger] order[a] as int, #[trigger] order[b] as int)
    &&& forall|k: int| 0 <= k < order.len() ==> #[trigger] order[k] < g.nodes@.len() && hub_candidate(g, order[k] as int) && {
        let n = g.nodes@[order[k] as int];
        &&& r[k].label@ == n.label@
        &&& r[k].kind@ == n.kind@
        &&& opt_chars(r[k].path) == opt_chars(n.path)
        &&& r[k].degree == degree_of(g.edges@, n.id@)
    }
    &&& forall|j: int| 0 <= j < g.nodes@.len() && hub_candidate(g, j) && !order.contains(j as usize) ==>
        order.len() == 10 && forall|k: int| 0 <= k < order.len() ==> goes_before(degrees, labels, #[trigger] order[k] as int, j)
}

/// The ten most connected nodes (at least three edge ends; directories and
/// trivial accessors left out), most connected first, ties by label.
pub fn hubs_from_graph(graph: &CodeGraph) -> (r: Vec<HubItem>)
    ensures
        r@.len() <= 10,
        exists|order: Seq<usize>| #[trigger] hub_listing(*graph, r@, order),
{
    let n = graph.nodes.len();
    let mut degrees: Vec<usize> = Vec::new();
    let mut labels: Vec<String> = Vec::new();
    let mut keep: Vec<bool> = Vec::new();
    let mut i: usize = 0;
    while i < n
        invariant
            n == graph.nodes@.len(),
            0 <= i <= n,
            degrees@.len() == i,
            labels@.len() == i,
            keep@.len() == i,
            forall|j: int| 0 <= j < i ==> (#[trigger] keep@[j] ==> degrees@[j] == node_degrees(*graph)[j]),
            forall|j: int| 0 <= j < i ==> degrees@[j] <= u32::MAX,
            forall|j: int| 0 <= j < i ==> (#[trigger] degrees@[j] <= u32::MAX && degree_of(graph.edges@, graph.nodes@[j].id@) <= u32::MAX ==> degrees@[j] == node_degrees(*graph)[j]),
            forall|j: int| 0 <= j < i ==> #[trigger] labels@[j]@ == graph.nodes@[j].label@,
            forall|j: int| 0 <= j < i ==> #[trigger] keep@[j] == hub_candidate(*graph, j),
        decreases n - i,
    {
        let node = &graph.nodes[i];
        let d = degree_exec(&graph.edges, node.id.as_str());
        let (dv, fits) = match d {
            Some(x) => (x as usize, true),
            None => (0usize, false),
        };
        degrees.push(dv);
        labels.push(node.label.clone());
        keep.push(fits && dv >= 3 && !str_eq(node.kind.as_str(), "directory") && !is_trivial_hub(node));
        i = i + 1;
    }
    let ghost dv = degrees@;
    let ghost lv = name_views(labels@);
    let ghost all_degrees = node_degrees(*graph);
    let ghost all_labels = node_labels(*graph);
    assert(lv =~= all_labels);
    let order = rank_selected(degrees.as_slice(), labels.as_slice(), keep.as_slice());
    // ranking among kept nodes only compares their own (exact) degrees
    proof {
        assert forall|a: int, b: int| 0 <= a < b < order@.len() implies goes_before(all_degrees, all_labels, #[trigger] order@[a] as int, #[trigger] order@[b] as int) by {
            assert(keep@[order@[a] as int] && keep@[order@[b] as int]);
            assert(goes_before(dv, lv, order@[a] as int, order@[b] as int));
        }
    }
    let mut out: Vec<HubItem> = Vec::new();
    let mut k: usize = 0;
    while k < order.len() && k < 10
        invariant
            0 <= k <= order@.len(),
            k <= 10,
            out@.len() == k,
            n == graph.nodes@.len(),
            degrees@ == dv,
            dv.len() == n,
            keep@.len() == n,
            all_degrees == node_degrees(*graph),
            forall|x: int| 0 <= x < order@.len() ==> #[trigger] order@[x] < n && keep@[order@[x] as int],
            forall|j: int| 0 <= j < n ==> (#[trigger] keep@[j] ==> dv[j] == all_degrees[j]),
            forall|j: int| 0 <= j < n ==> #[trigger] keep@[j] == hub_candidate(*graph, j),
            forall|x: int| 0 <= x < k ==> {
                let nd = graph.nodes@[order@[x] as int];
                &&& (#[trigger] out@[x]).label@ == nd.label@
                &&& out@[x].kind@ == nd.kind@
                &&& opt_chars(out@[x].path) == opt_chars(nd.path)
                &&& out@[x].degree == degree_of(graph.edges@, nd.id@)
            },
        decreases order@.len() - k,
    {
        let j = order[k];
        let node = &graph.nodes[j];
        proof {
            assert(keep@[j as int]);
            assert(hub_candidate(*graph, j as int));
            assert(dv[j as int] == all_degrees[j as int]);
            assert(all_degrees[j as int] == degree_of(graph.edges@, graph.nodes@[j as int].id@) as usize);
        }
        let ghost before = out@;
        let item = HubItem {
            label: node.label.clone(),
            kind: node.kind.clone(),
            path: clone_opt_string(&node.path),
            degree: degrees[j] as u32,
        };
        assert(item.degree == degree_of(graph.edges@, graph.nodes@[j as int].id@));
        out.push(item);
        assert forall|x: int| 0 <= x < k + 1 implies {
            let nd = graph.nodes@[order@[x] as int];
            &&& (#[trigger] out@[x]).label@ == nd.label@
            &&& out@[x].kind@ == nd.kind@
            &&& opt_chars(out@[x].path) == opt_chars(nd.path)
            &&& out@[x].degree == degree_of(graph.edges@, nd.id@)
        } by {
            if x < k {
                assert(out@[x] == before[x]);
            }
        }
        k = k + 1;
    }
    proof {
        let shown = if order@.len() > 10 { order@.take(10) } else { order@ };
        assert(shown.len() == out@.len());
        assert forall|x: int| 0 <= x < shown.len() implies #[trigger] shown[x] < graph.nodes@.len() && hub_candidate(*graph, shown[x] as int) && {
            let nd = graph.nodes@[shown[x] as int];
            &&& out@[x].label@ == nd.label@
            &&& out@[x].kind@ == nd.kind@
            &&& opt_chars(out@[x].path) == opt_chars(nd.path)
            &&& out@[x].degree == degree_of(graph.edges@, nd.id@)
        } by {
            assert(shown[x] == order@[x]);
        }
        assert forall|a: int, b: int| 0 <= a < b < shown.len() implies goes_before(all_degrees, all_labels, #[trigger] shown[a] as int, #[trigger] shown[b] as int) by {
            assert(shown[a] == order@[a] && shown[b] == order@[b]);
        }
        assert forall|j: int| 0 <= j < graph.nodes@.len() && hub_candidate(*graph, j) && !shown.contains(j as usize) implies
            shown.len() == 10 && forall|x: int| 0 <= x < shown.len() ==> goes_before(all_degrees, all_labels, #[trigger] shown[x] as int, j) by {
            assert(keep@[j]);
            assert(order@.contains(j as usize));
            let q = choose|q: int| 0 <= q < order@.len() && order@[q] == j as usize;
            if q < shown.len() {
                assert(shown[q] == j as usize);
            }
            assert forall|x: int| 0 <= x < shown.len() implies goes_before(all_degrees, all_labels, #[trigger] shown[x] as int, j) by {
                assert(shown[x] == order@[x]);
                assert(keep@[order@[x] as int]);
                assert(goes_before(dv, lv, order@[x] as int, order@[q] as int));
            }
        }
        assert(hub_listing(*graph, out@, shown));
    }
    out
}

} // verus!

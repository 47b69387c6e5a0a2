//! Which graph nodes an impact run starts from: those a symbol argument
//! names, or those the changed symbols of a `--diff` run stand for.

use vstd::prelude::*;
use crate::cache::models::SymbolRow;
use crate::graph::{Edge, Node};
use crate::text::{ascii_lower, lower_seq, str_eq, str_trim, trim};

verus! {

/// Whether symbol argument `symbol` names node `n`: by id, label or path.
pub open spec fn names_node(n: Node, symbol: Seq<char>) -> bool {
    n.id@ == symbol || n.label@ == symbol || (n.path matches Some(p) && p@ == symbol)
}

/// The indices, in order, of the first `k` nodes that `symbol` names.
pub open spec fn named_nodes(nodes: Seq<Node>, symbol: Seq<char>, k: int) -> Seq<usize>
    decreases k,
{
    if k <= 0 {
        seq![]
    } else {
        let rest = named_nodes(nodes, symbol, k - 1);
        if names_node(nodes[k - 1], symbol) { rest.push((k - 1) as usize) } else { rest }
    }
}

/// The nodes `symbol` names, as indices into `nodes`, in order.
pub fn find_targets(nodes: &Vec<Node>, symbol: &str) -> (r: Vec<usize>)
    ensures
        r@ == named_nodes(nodes@, symbol@, nodes@.len() as int),
{
    let mut out: Vec<usize> = Vec::new();
    let mut i: usize = 0;
    while i < nodes.len()
        invariant
            0 <= i <= nodes@.len(),
            out@ == named_nodes(nodes@, symbol@, i as int),
        decreases nodes@.len() - i,
    {
        let n = &nodes[i];
        let hit = str_eq(n.id.as_str(), symbol) || str_eq(n.label.as_str(), symbol) || match &n.path {
            Some(p) => str_eq(p.as_str(), symbol),
            None => false,
        };
        if hit {
            out.push(i);
        }
        i = i + 1;
    }
    out
}

/// The path of the file with id `id`, from a listing of (id, path).
pub open spec fn path_of(files: Seq<(i64, String)>, id: i64, k: int) -> Option<Seq<char>>
    decreases k,
{
    if k <= 0 {
        None
    } else if files[k - 1].0 == id {
        Some(files[k - 1].1@)
    } else {
        path_of(files, id, k - 1)
    }
}

/// The path of the file with id `id`: the last listed (a listing keyed by
/// id lists each once).
pub fn find_path<'a>(files: &'a Vec<(i64, String)>, id: i64) -> (r: Option<&'a String>)
    ensures
        (match r { Some(p) => Some(p@), None => None }) == path_of(files@, id, files@.len() as int),
{
    let mut k: usize = files.len();
    while k > 0
        invariant
            k <= files@.len(),
            path_of(files@, id, files@.len() as int) == path_of(files@, id, k as int),
        decreases k,
    {
        if files[k - 1].0 == id {
            return Some(&files[k - 1].1);
        }
        k = k - 1;
    }
    None
}

/// Whether node `n` stands for changed symbol `s`: same name, same file,
/// same first line.
pub open spec fn stands_for(n: Node, s: SymbolRow, files: Seq<(i64, String)>) -> bool {
    &&& n.label@ == s.name@
    &&& (match n.path { Some(p) => Some(p@), None => None }) == path_of(files, s.file_id, files.len() as int)
    &&& (match n.lines { Some(l) => Some(l.0), None => None }) == s.start_line
}

/// The indices, in order, of the first `k` nodes that stand for one of the
/// changed symbols.
pub open spec fn changed_nodes(nodes: Seq<Node>, symbols: Seq<SymbolRow>, files: Seq<(i64, String)>, k: int) -> Seq<usize>
    decreases k,
{
    if k <= 0 {
        seq![]
    } else {
        let rest = changed_nodes(nodes, symbols, files, k - 1);
        if exists|j: int| 0 <= j < symbols.len() && stands_for(nodes[k - 1], #[trigger] symbols[j], files) {
            rest.push((k - 1) as usize)
        } else {
            rest
        }
    }
}

/// Whether node `n` stands for `s`.
fn node_stands_for(n: &Node, s: &SymbolRow, files: &Vec<(i64, String)>) -> (r: bool)
    ensures
        r == stands_for(*n, *s, files@),
{
    if !str_eq(n.label.as_str(), s.name.as_str()) {
        return false;
    }
    let same_path = match (&n.path, find_path(files, s.file_id)) {
        (Some(p), Some(q)) => str_eq(p.as_str(), q.as_str()),
        (None, None) => true,
        _ => false,
    };
    let first = match n.lines {
        Some(l) => Some(l.0),
        None => None,
    };
    same_path && first == s.start_line
}

/// The nodes that stand for the changed symbols, as indices into `nodes`, in order.
pub fn changed_targets(nodes: &Vec<Node>, symbols: &Vec<SymbolRow>, files: &Vec<(i64, String)>) -> (r: Vec<usize>)
    ensures
        r@ == changed_nodes(nodes@, symbols@, files@, nodes@.len() as int),
{
    let mut out: Vec<usize> = Vec::new();
    let mut i: usize = 0;
    while i < nodes.len()
        invariant
            0 <= i <= nodes@.len(),
            out@ == changed_nodes(nodes@, symbols@, files@, i as int),
        decreases nodes@.len() - i,
    {
        let mut hit = false;
        let mut j: usize = 0;
        while j < symbols.len()
            invariant
                0 <= j <= symbols@.len(),
                i < nodes@.len(),
                hit == exists|x: int| 0 <= x < j && stands_for(nodes@[i as int], #[trigger] symbols@[x], files@),
            decreases symbols@.len() - j,
        {
            if node_stands_for(&nodes[i], &symbols[j], files) {
                hit = true;
            }
            j = j + 1;
        }
        if hit {
            out.push(i);
        }
        i = i + 1;
    }
    out
}

/// The edge kinds asked for, trimmed and lower-cased.
pub open spec fn wanted_kinds(kinds: Seq<String>) -> Seq<Seq<char>> {
    kinds.map_values(|k: String| lower_seq(trim(k@)))
}

/// Whether an impact walk follows edge `e`: every edge when no kind is
/// asked for, else one whose kind, lower-cased, is asked for.
pub open spec fn follows(e: Edge, kinds: Seq<String>) -> bool {
    wanted_kinds(kinds).len() == 0 || wanted_kinds(kinds).contains(lower_seq(e.kind@))
}

/// The node an edge is filed under: its source for outgoing walks, its
/// target for incoming ones.
pub open spec fn edge_key(e: Edge, outgoing: bool) -> Seq<char> {
    if outgoing { e.source@ } else { e.target@ }
}

/// The indices, in order, of the first `k` edges the walk follows that are
/// filed under `key`.
pub open spec fn filed_under(edges: Seq<Edge>, kinds: Seq<String>, outgoing: bool, key: Seq<char>, k: int) -> Seq<usize>
    decreases k,
{
    if k <= 0 {
        seq![]
    } else {
        let rest = filed_under(edges, kinds, outgoing, key, k - 1);
        if follows(edges[k - 1], kinds) && edge_key(edges[k - 1], outgoing) == key { rest.push((k - 1) as usize) } else { rest }
    }
}

/// `groups` files the first `k` edges: one group per key (no key twice),
/// each listing the followed edges under its key in order, and every
/// followed edge's key has its group.
pub open spec fn grouped(groups: Seq<(String, Vec<usize>)>, edges: Seq<Edge>, kinds: Seq<String>, outgoing: bool, k: int) -> bool {
    &&& forall|a: int, b: int| 0 <= a < b < groups.len() ==> #[trigger] groups[a].0@ != #[trigger] groups[b].0@
    &&& forall|g: int| 0 <= g < groups.len() ==> (#[trigger] groups[g]).1@ == filed_under(edges, kinds, outgoing, groups[g].0@, k)
    &&& forall|i: int| 0 <= i < k && follows(#[trigger] edges[i], kinds) ==>
        exists|g: int| 0 <= g < groups.len() && #[trigger] groups[g].0@ == edge_key(edges[i], outgoing)
}

/// Whether the lower-cased `kind` is among the wanted kinds.
fn is_wanted(wanted: &Vec<String>, kind: &str) -> (r: bool)
    ensures
        r == (exists|x: int| 0 <= x < wanted@.len() && #[trigger] wanted@[x]@ == kind@),
{
    let mut j: usize = 0;
    while j < wanted.len()
        invariant
            0 <= j <= wanted@.len(),
            forall|x: int| 0 <= x < j ==> #[trigger] wanted@[x]@ != kind@,
        decreases wanted@.len() - j,
    {
        if str_eq(wanted[j].as_str(), kind) {
            return true;
        }
        j = j + 1;
    }
    false
}

/// No followed edge among the first `k` is filed under `key`: nothing is.
proof fn lemma_filed_none(edges: Seq<Edge>, kinds: Seq<String>, outgoing: bool, key: Seq<char>, k: int)
    requires
        0 <= k <= edges.len(),
        forall|i: int| 0 <= i < k && follows(#[trigger] edges[i], kinds) ==> edge_key(edges[i], outgoing) != key,
    ensures
        filed_under(edges, kinds, outgoing, key, k) == Seq::<usize>::empty(),
    decreases k,
{
    if k > 0 {
        lemma_filed_none(edges, kinds, outgoing, key, k - 1);
        assert(follows(edges[k - 1], kinds) ==> edge_key(edges[k - 1], outgoing) != key);
    }
}

/// Where the group filed under `key` sits, if there is one.
fn group_index(groups: &Vec<(String, Vec<usize>)>, key: &str) -> (r: Option<usize>)
    ensures
        r matches Some(g) ==> g < groups@.len() && groups@[g as int].0@ == key@,
        r is None ==> forall|x: int| 0 <= x < groups@.len() ==> #[trigger] groups@[x].0@ != key@,
{
    let mut g: usize = 0;
    while g < groups.len()
        invariant
            0 <= g <= groups@.len(),
            forall|x: int| 0 <= x < g ==> #[trigger] groups@[x].0@ != key@,
        decreases groups@.len() - g,
    {
        if str_eq(groups[g].0.as_str(), key) {
            return Some(g);
        }
        g = g + 1;
    }
    None
}

/// The edges an impact walk follows, filed by the node they leave
/// (`outgoing`) or reach, as indices into `edges`.
pub fn adjacency(edges: &Vec<Edge>, kinds: &Vec<String>, outgoing: bool) -> (r: Vec<(String, Vec<usize>)>)
    ensures
        grouped(r@, edges@, kinds@, outgoing, edges@.len() as int),
{
    let mut wanted: Vec<String> = Vec::new();
    let mut w: usize = 0;
    while w < kinds.len()
        invariant
            0 <= w <= kinds@.len(),
            wanted@.len() == w,
            forall|x: int| 0 <= x < w ==> #[trigger] wanted@[x]@ == wanted_kinds(kinds@)[x],
        decreases kinds@.len() - w,
    {
        let t = str_trim(kinds[w].as_str());
        wanted.push(ascii_lower(t.as_str()));
        w = w + 1;
    }
    let mut groups: Vec<(String, Vec<usize>)> = Vec::new();
    let mut i: usize = 0;
    while i < edges.len()
        invariant
            0 <= i <= edges@.len(),
            wanted@.len() == kinds@.len(),
            forall|x: int| 0 <= x < wanted@.len() ==> #[trigger] wanted@[x]@ == wanted_kinds(kinds@)[x],
            grouped(groups@, edges@, kinds@, outgoing, i as int),
        decreases edges@.len() - i,
    {
        let e = &edges[i];
        let lk = ascii_lower(e.kind.as_str());
        let keep = wanted.len() == 0 || is_wanted(&wanted, lk.as_str());
        proof {
            if wanted.len() > 0 {
                if keep {
                    let x = choose|x: int| 0 <= x < wanted@.len() && #[trigger] wanted@[x]@ == lk@;
                    assert(wanted_kinds(kinds@)[x] == lower_seq(e.kind@));
                }
                if wanted_kinds(kinds@).contains(lower_seq(e.kind@)) {
                    let x = choose|x: int| 0 <= x < wanted_kinds(kinds@).len() && wanted_kinds(kinds@)[x] == lower_seq(e.kind@);
                    assert(wanted@[x]@ == lk@);
                }
            }
            assert(keep == follows(edges@[i as int], kinds@));
        }
        let ghost before = groups@;
        let ghost ek = edge_key(edges@[i as int], outgoing);
        if keep {
            let key = if outgoing { &e.source } else { &e.target };
            match group_index(&groups, key.as_str()) {
                Some(g) => {
                    let (k, mut v) = groups.remove(g);
                    v.push(i);
                    groups.insert(g, (k, v));
                    proof {
                        assert(groups@ =~= before.update(g as int, (k, v)));
                        assert forall|h: int| 0 <= h < groups@.len() implies (#[trigger] groups@[h]).1@
                            == filed_under(edges@, kinds@, outgoing, groups@[h].0@, i + 1) by {
                            if h != g {
                                assert(groups@[h] == before[h]);
                                assert(before[h].0@ != before[g as int].0@) by {
                                    if h < g { assert(before[h].0@ != before[g as int].0@); } else { assert(before[g as int].0@ != before[h].0@); }
                                }
                            }
                        }
                        assert forall|a: int, b: int| 0 <= a < b < groups@.len() implies #[trigger] groups@[a].0@ != #[trigger] groups@[b].0@ by {
                            assert(groups@[a].0@ == before[a].0@);
                            assert(groups@[b].0@ == before[b].0@);
                        }
                        assert forall|j: int| 0 <= j < i + 1 && follows(#[trigger] edges@[j], kinds@) implies
                            exists|h: int| 0 <= h < groups@.len() && #[trigger] groups@[h].0@ == edge_key(edges@[j], outgoing) by {
                            if j < i {
                                let h = choose|h: int| 0 <= h < before.len() && #[trigger] before[h].0@ == edge_key(edges@[j], outgoing);
                                assert(groups@[h].0@ == before[h].0@);
                            } else {
                                assert(groups@[g as int].0@ == edge_key(edges@[j], outgoing));
                            }
                        }
                    }
                },
                None => {
                    let mut v: Vec<usize> = Vec::new();
                    v.push(i);
                    groups.push((key.clone(), v));
                    proof {
                        let n = before.len() as int;
                        assert(groups@[n].0@ == ek);
                        assert forall|j: int| 0 <= j < i && follows(#[trigger] edges@[j], kinds@) implies edge_key(edges@[j], outgoing) != ek by {
                            let h = choose|h: int| 0 <= h < before.len() && #[trigger] before[h].0@ == edge_key(edges@[j], outgoing);
                        }
                        lemma_filed_none(edges@, kinds@, outgoing, ek, i as int);
                        assert(v@ =~= filed_under(edges@, kinds@, outgoing, ek, i as int).push(i));
                        assert forall|h: int| 0 <= h < groups@.len() implies (#[trigger] groups@[h]).1@
                            == filed_under(edges@, kinds@, outgoing, groups@[h].0@, i + 1) by {
                            if h < n {
                                assert(groups@[h] == before[h]);
                            }
                        }
                        assert forall|a: int, b: int| 0 <= a < b < groups@.len() implies #[trigger] groups@[a].0@ != #[trigger] groups@[b].0@ by {
                            if b < n {
                                assert(groups@[a] == before[a]);
                                assert(groups@[b] == before[b]);
                            } else {
                                assert(groups@[a] == before[a]);
                            }
                        }
                        assert forall|j: int| 0 <= j < i + 1 && follows(#[trigger] edges@[j], kinds@) implies
                            exists|h: int| 0 <= h < groups@.len() && #[trigger] groups@[h].0@ == edge_key(edges@[j], outgoing) by {
                            if j < i {
                                let h = choose|h: int| 0 <= h < before.len() && #[trigger] before[h].0@ == edge_key(edges@[j], outgoing);
                                assert(groups@[h] == before[h]);
                            } else {
                                assert(groups@[n].0@ == edge_key(edges@[j], outgoing));
                            }
                        }
                    }
                },
            }
        } else {
            proof {
                assert forall|h: int| 0 <= h < groups@.len() implies (#[trigger] groups@[h]).1@
                    == filed_under(edges@, kinds@, outgoing, groups@[h].0@, i + 1) by {
                }
                assert forall|j: int| 0 <= j < i + 1 && follows(#[trigger] edges@[j], kinds@) implies
                    exists|h: int| 0 <= h < groups@.len() && #[trigger] groups@[h].0@ == edge_key(edges@[j], outgoing) by {
                    if j < i {
                        let h = choose|h: int| 0 <= h < groups@.len() && #[trigger] groups@[h].0@ == edge_key(edges@[j], outgoing);
                    }
                }
            }
        }
        i = i + 1;
    }
    groups
}

} // verus!

//! Walking the graph out from a target: each caller (or callee), the ones
//! reached through it, and so on down to a depth limit, never revisiting a
//! node on the path that led to it.

use vstd::prelude::*;
use crate::commands::impact::models::ImpactItem;
use crate::graph::{Edge, Node};
use crate::text::{chars_of, is_last_occ, lemma_last_occ_unique, lemma_next_char_bounds, next_char, next_char_exec, occurs_at, rfind,
    rfind_exec, slice_chars, str_eq, str_trim, string_of, trim};

verus! {

/// An edge at or below this confidence (in thousandths) is a weak one.
pub const LOW_CONFIDENCE_MILLI: u32 = 700;

/// The top-level directory of a `/`-separated path: the first segment of its
/// directory part, or empty for a file at the root.
pub open spec fn spec_module_root(path: Seq<char>) -> Seq<char> {
    match rfind(path, "/"@) {
        Some(k) => {
            let dir = path.subrange(0, k);
            dir.subrange(0, next_char(dir, 0, '/'))
        },
        None => seq![],
    }
}

pub fn module_root(path: &str) -> (r: String)
    ensures
        r@ == spec_module_root(path@),
{
    let c = chars_of(path);
    let slash = chars_of("/");
    match rfind_exec(c.as_slice(), slash.as_slice()) {
        Some(k) => {
            let dir = slice_chars(c.as_slice(), 0, k);
            let first = next_char_exec(dir.as_slice(), 0, '/');
            string_of(slice_chars(dir.as_slice(), 0, first).as_slice())
        },
        None => String::new(),
    }
}

/// What a traversal compares each item against to decide the risk flags.
pub struct RiskContext {
    /// Top-level directory of the target (the fallback when communities are unavailable).
    pub module: String,
    pub community: Option<u32>,
    /// Community id and label; a later entry for the same id wins.
    pub labels: Vec<(u32, String)>,
}

/// Everything a traversal reads.
pub struct Traversal {
    /// Each node id with its edges, in order; the first entry for an id counts.
    pub adjacency: Vec<(String, Vec<Edge>)>,
    /// The graph's nodes; a later node with the same id wins.
    pub nodes: Vec<Node>,
    /// The lines of each file an item may quote; the first entry for a path counts.
    pub files: Vec<(String, Vec<String>)>,
    /// Items deeper than this are not reported.
    pub max_depth: u32,
    /// Follow edges forward (callees) rather than backward (callers).
    pub outgoing: bool,
    pub ctx: RiskContext,
}

pub open spec fn opt_view(o: Option<String>) -> Option<Seq<char>> {
    match o {
        Some(s) => Some(s@),
        None => None,
    }
}

/// The node with this id (the last one, should there be several).
pub open spec fn node_of(nodes: Seq<Node>, id: Seq<char>) -> Option<Node>
    decreases nodes.len(),
{
    if nodes.len() == 0 {
        None
    } else if nodes.last().id@ == id {
        Some(nodes.last())
    } else {
        node_of(nodes.drop_last(), id)
    }
}

/// The edges listed for a node id (none when it has no entry).
pub open spec fn edges_of(adj: Seq<(String, Vec<Edge>)>, id: Seq<char>) -> Seq<Edge>
    decreases adj.len(),
{
    if adj.len() == 0 {
        seq![]
    } else if adj[0].0@ == id {
        adj[0].1@
    } else {
        edges_of(adj.drop_first(), id)
    }
}

/// The lines held for a path (none when it has no entry).
pub open spec fn lines_of(files: Seq<(String, Vec<String>)>, path: Seq<char>) -> Seq<String>
    decreases files.len(),
{
    if files.len() == 0 {
        seq![]
    } else if files[0].0@ == path {
        files[0].1@
    } else {
        lines_of(files.drop_first(), path)
    }
}

/// The label of community `c` (the last entry for it).
pub open spec fn label_of(labels: Seq<(u32, String)>, c: u32) -> Option<Seq<char>>
    decreases labels.len(),
{
    if labels.len() == 0 {
        None
    } else if labels.last().0 == c {
        Some(labels.last().1@)
    } else {
        label_of(labels.drop_last(), c)
    }
}

/// Line `line` (1-based) of `path`, trimmed, when it exists and is not blank.
pub open spec fn snippet_of(files: Seq<(String, Vec<String>)>, path: Option<Seq<char>>, line: Option<i64>) -> Option<Seq<char>> {
    match (path, line) {
        (Some(p), Some(l)) => {
            let ls = lines_of(files, p);
            if l <= 0 || l - 1 >= ls.len() {
                None
            } else {
                let t = trim(ls[l - 1]@);
                if t.len() > 0 { Some(t) } else { None }
            }
        },
        _ => None,
    }
}

/// Whether an item lies in another subsystem than the target; when either
/// has none, whether it lies under another top-level directory.
pub open spec fn crosses(ctx: RiskContext, n: Node) -> bool {
    match (ctx.community, n.community) {
        (Some(a), Some(b)) => a != b,
        _ => match n.path {
            Some(p) => spec_module_root(p@) != ctx.module@,
            None => false,
        },
    }
}

pub open spec fn community_of(ctx: RiskContext, n: Node) -> Option<Seq<char>> {
    match n.community {
        Some(c) => label_of(ctx.labels@, c),
        None => None,
    }
}

/// The node an edge leads to, in the traversal's direction.
pub open spec fn next_of(t: Traversal, e: Edge) -> Seq<char> {
    if t.outgoing { e.target@ } else { e.source@ }
}

/// The file the relation's line lives in: the current node's for a callee,
/// the item's own for a caller.
pub open spec fn site_of(t: Traversal, cur: Seq<char>, n: Node) -> Option<Seq<char>> {
    if t.outgoing {
        match node_of(t.nodes@, cur) {
            Some(c) => opt_view(c.path),
            None => None,
        }
    } else {
        opt_view(n.path)
    }
}

/// `it` is the item that edge `e` from `cur` to node `n` makes at `depth + 1`
/// (its own callers aside).
pub open spec fn item_ok(t: Traversal, cur: Seq<char>, e: Edge, n: Node, depth: int, it: ImpactItem) -> bool {
    &&& it.id@ == n.id@
    &&& it.label@ == n.label@
    &&& it.kind@ == n.kind@
    &&& opt_view(it.path) == opt_view(n.path)
    &&& it.line == e.line
    &&& opt_view(it.site_path) == site_of(t, cur, n)
    &&& it.edge_kind@ == e.kind@
    &&& it.confidence_milli == e.confidence_milli
    &&& opt_view(it.snippet) == snippet_of(t.files@, site_of(t, cur, n), e.line)
    &&& it.depth == depth + 1
    &&& it.is_exported == n.exported
    &&& it.low_confidence == (e.confidence_milli <= LOW_CONFIDENCE_MILLI)
    &&& it.crosses_module == crosses(t.ctx, n)
    &&& opt_view(it.community) == community_of(t.ctx, n)
}

/// `items` are what walking edges `es[k..]` of `cur` at `depth` gives, with
/// `anc` the nodes on the path so far.
pub open spec fn fits_edges(
    t: Traversal,
    cur: Seq<char>,
    depth: int,
    anc: Set<Seq<char>>,
    es: Seq<Edge>,
    k: int,
    items: Seq<ImpactItem>,
) -> bool
    decreases t.max_depth - depth, 0int, es.len() - k,
{
    if depth < 0 || depth >= t.max_depth || k < 0 || k >= es.len() {
        items.len() == 0
    } else {
        let e = es[k];
        let nx = next_of(t, e);
        if anc.contains(nx) {
            fits_edges(t, cur, depth, anc, es, k + 1, items)
        } else {
            match node_of(t.nodes@, nx) {
                None => fits_edges(t, cur, depth, anc, es, k + 1, items),
                Some(n) => {
                    &&& items.len() > 0
                    &&& item_ok(t, cur, e, n, depth, items[0])
                    &&& fits_tree(t, nx, depth + 1, anc.insert(nx), items[0].callers@)
                    &&& fits_edges(t, cur, depth, anc, es, k + 1, items.drop_first())
                },
            }
        }
    }
}

/// `items` are what walking out of `cur` at `depth` gives (nothing at the
/// depth limit), with `anc` the nodes on the path so far.
pub open spec fn fits_tree(t: Traversal, cur: Seq<char>, depth: int, anc: Set<Seq<char>>, items: Seq<ImpactItem>) -> bool
    decreases t.max_depth - depth, 1int, 0int,
{
    if depth < 0 || depth >= t.max_depth {
        items.len() == 0
    } else {
        fits_edges(t, cur, depth, anc, edges_of(t.adjacency@, cur), 0, items)
    }
}

/// The ids of every item of a tree.
pub open spec fn reached(items: Seq<ImpactItem>) -> Set<Seq<char>>
    decreases items,
{
    if items.len() == 0 {
        Set::empty()
    } else {
        let last = items.last();
        proof {
            assert(decreases_to!(items => items[items.len() - 1]));
            assert(decreases_to!(items[items.len() - 1] => items[items.len() - 1].callers));
        }
        reached(items.drop_last()).insert(last.id@).union(reached(last.callers@))
    }
}

/// The strings of `v`, as a set.
pub open spec fn set_of(v: Seq<String>) -> Set<Seq<char>> {
    Set::new(|x: Seq<char>| exists|i: int| 0 <= i < v.len() && #[trigger] v[i]@ == x)
}

fn contains_str(v: &Vec<String>, s: &str) -> (r: bool)
    ensures
        r == set_of(v@).contains(s@),
{
    let mut i: usize = 0;
    while i < v.len()
        invariant
            0 <= i <= v@.len(),
            forall|j: int| 0 <= j < i ==> #[trigger] v@[j]@ != s@,
        decreases v@.len() - i,
    {
        if str_eq(v[i].as_str(), s) {
            assert(set_of(v@).contains(s@)) by {
                assert(v@[i as int]@ == s@);
            }
            return true;
        }
        i = i + 1;
    }
    false
}

pub proof fn lemma_set_of_push(v: Seq<String>, s: String)
    ensures
        set_of(v.push(s)) == set_of(v).insert(s@),
{
    assert forall|x: Seq<char>| set_of(v.push(s)).contains(x) == set_of(v).insert(s@).contains(x) by {
        if set_of(v.push(s)).contains(x) {
            let i = choose|i: int| 0 <= i < v.push(s).len() && #[trigger] v.push(s)[i]@ == x;
            if i < v.len() {
                assert(v[i]@ == x);
            }
        }
        if set_of(v).contains(x) {
            let i = choose|i: int| 0 <= i < v.len() && #[trigger] v[i]@ == x;
            assert(v.push(s)[i]@ == x);
        }
        if x == s@ {
            assert(v.push(s)[v.len() as int]@ == x);
        }
    }
    assert(set_of(v.push(s)) =~= set_of(v).insert(s@));
}

pub fn node_index(nodes: &Vec<Node>, id: &str) -> (r: Option<usize>)
    ensures
        match node_of(nodes@, id@) {
            Some(n) => r matches Some(i) && i < nodes@.len() && nodes@[i as int] == n,
            None => r is None,
        },
{
    let mut k = nodes.len();
    assert(nodes@.take(k as int) =~= nodes@);
    while k > 0
        invariant
            k <= nodes@.len(),
            node_of(nodes@, id@) == node_of(nodes@.take(k as int), id@),
        decreases k,
    {
        assert(nodes@.take(k as int).last() == nodes@[k - 1]);
        if str_eq(nodes[k - 1].id.as_str(), id) {
            return Some(k - 1);
        }
        assert(nodes@.take(k as int).drop_last() =~= nodes@.take(k - 1));
        k = k - 1;
    }
    None
}

pub(crate) fn edges_index(adj: &Vec<(String, Vec<Edge>)>, id: &str) -> (r: Option<usize>)
    ensures
        match r {
            Some(i) => i < adj@.len() && edges_of(adj@, id@) == adj@[i as int].1@,
            None => edges_of(adj@, id@) == Seq::<Edge>::empty(),
        },
{
    let mut i: usize = 0;
    assert(adj@.subrange(0, adj@.len() as int) =~= adj@);
    while i < adj.len()
        invariant
            0 <= i <= adj@.len(),
            edges_of(adj@, id@) == edges_of(adj@.subrange(i as int, adj@.len() as int), id@),
        decreases adj@.len() - i,
    {
        let ghost rest = adj@.subrange(i as int, adj@.len() as int);
        assert(rest[0] == adj@[i as int]);
        if str_eq(adj[i].0.as_str(), id) {
            return Some(i);
        }
        assert(rest.drop_first() =~= adj@.subrange(i + 1, adj@.len() as int));
        i = i + 1;
    }
    None
}

fn lines_index(files: &Vec<(String, Vec<String>)>, path: &str) -> (r: Option<usize>)
    ensures
        match r {
            Some(i) => i < files@.len() && lines_of(files@, path@) == files@[i as int].1@,
            None => lines_of(files@, path@) == Seq::<String>::empty(),
        },
{
    let mut i: usize = 0;
    assert(files@.subrange(0, files@.len() as int) =~= files@);
    while i < files.len()
        invariant
            0 <= i <= files@.len(),
            lines_of(files@, path@) == lines_of(files@.subrange(i as int, files@.len() as int), path@),
        decreases files@.len() - i,
    {
        let ghost rest = files@.subrange(i as int, files@.len() as int);
        assert(rest[0] == files@[i as int]);
        if str_eq(files[i].0.as_str(), path) {
            return Some(i);
        }
        assert(rest.drop_first() =~= files@.subrange(i + 1, files@.len() as int));
        i = i + 1;
    }
    None
}

fn label_exec(labels: &Vec<(u32, String)>, c: u32) -> (r: Option<String>)
    ensures
        opt_view(r) == label_of(labels@, c),
{
    let mut k = labels.len();
    assert(labels@.take(k as int) =~= labels@);
    while k > 0
        invariant
            k <= labels@.len(),
            label_of(labels@, c) == label_of(labels@.take(k as int), c),
        decreases k,
    {
        assert(labels@.take(k as int).last() == labels@[k - 1]);
        if labels[k - 1].0 == c {
            return Some(labels[k - 1].1.clone());
        }
        assert(labels@.take(k as int).drop_last() =~= labels@.take(k - 1));
        k = k - 1;
    }
    None
}

/// The trimmed, non-blank line `line` of `path`, from the lines held for it.
pub fn snippet(files: &Vec<(String, Vec<String>)>, path: Option<&str>, line: Option<i64>) -> (r: Option<String>)
    ensures
        opt_view(r) == snippet_of(files@, match path { Some(p) => Some(p@), None => None }, line),
{
    let (p, l) = match (path, line) {
        (Some(p), Some(l)) => (p, l),
        _ => { return None; },
    };
    if l <= 0 {
        return None;
    }
    let idx = match lines_index(files, p) {
        Some(i) => i,
        None => { return None; },
    };
    let lines = &files[idx].1;
    if (l - 1) as u64 >= lines.len() as u64 {
        return None;
    }
    let t = str_trim(lines[(l - 1) as usize].as_str());
    if t.as_str().is_empty() { None } else { Some(t) }
}

impl RiskContext {
    pub fn crosses_module(&self, n: &Node) -> (r: bool)
        ensures
            r == crosses(*self, *n),
    {
        match (self.community, n.community) {
            (Some(a), Some(b)) => a != b,
            _ => match &n.path {
                Some(p) => {
                    let m = module_root(p.as_str());
                    !str_eq(m.as_str(), self.module.as_str())
                },
                None => false,
            },
        }
    }

    pub fn community_label(&self, n: &Node) -> (r: Option<String>)
        ensures
            opt_view(r) == community_of(*self, *n),
    {
        match n.community {
            Some(c) => label_exec(&self.labels, c),
            None => None,
        }
    }
}

impl Traversal {
    /// The callers (or callees) of `cur` at `depth`, each with the ones
    /// reached through it: `anc` holds the nodes on the path here and comes
    /// back as it was; every node reached is added to `affected`.
    pub fn traverse_tree(&self, cur: &str, depth: u32, anc: &mut Vec<String>, affected: &mut Vec<String>) -> (items: Vec<ImpactItem>)
        requires
            distinct(old(affected)@),
        ensures
            distinct(final(affected)@),
            final(anc)@ == old(anc)@,
            fits_tree(*self, cur@, depth as int, set_of(old(anc)@), items@),
            set_of(final(affected)@) == set_of(old(affected)@).union(reached(items@)),
        decreases self.max_depth - depth,
    {
        let mut items: Vec<ImpactItem> = Vec::new();
        if depth >= self.max_depth {
            assert(set_of(affected@) =~= set_of(affected@).union(reached(items@)));
            return items;
        }
        let ghost a0 = set_of(anc@);
        let ghost s0 = set_of(affected@);
        let ghost anc0 = anc@;
        let ei = edges_index(&self.adjacency, cur);
        let empty: Vec<Edge> = Vec::new();
        let es: &Vec<Edge> = match ei {
            Some(i) => &self.adjacency[i].1,
            None => &empty,
        };
        assert(es@ == edges_of(self.adjacency@, cur@));
        let mut k: usize = 0;
        assert(s0 =~= s0.union(reached(items@)));
        while k < es.len()
            invariant
                0 <= k <= es@.len(),
                depth < self.max_depth,
                es@ == edges_of(self.adjacency@, cur@),
                anc@ == anc0,
                a0 == set_of(anc0),
                set_of(affected@) == s0.union(reached(items@)),
                distinct(affected@),
                forall|rest: Seq<ImpactItem>|
                    #[trigger] fits_edges(*self, cur@, depth as int, a0, es@, k as int, rest)
                        ==> fits_edges(*self, cur@, depth as int, a0, es@, 0, items@ + rest),
            decreases es@.len() - k,
        {
            let e = &es[k];
            let next_id: &str = if self.outgoing { e.target.as_str() } else { e.source.as_str() };
            assert(*e == es@[k as int]);
            assert(next_of(*self, es@[k as int]) == next_id@);
            if contains_str(anc, next_id) {
                proof {
                    assert forall|rest: Seq<ImpactItem>|
                        #[trigger] fits_edges(*self, cur@, depth as int, a0, es@, k + 1, rest)
                            implies fits_edges(*self, cur@, depth as int, a0, es@, 0, items@ + rest) by {
                        assert(fits_edges(*self, cur@, depth as int, a0, es@, k as int, rest));
                    }
                }
                k = k + 1;
                continue;
            }
            match node_index(&self.nodes, next_id) {
                None => {
                    proof {
                        assert forall|rest: Seq<ImpactItem>|
                            #[trigger] fits_edges(*self, cur@, depth as int, a0, es@, k + 1, rest)
                                implies fits_edges(*self, cur@, depth as int, a0, es@, 0, items@ + rest) by {
                            assert(fits_edges(*self, cur@, depth as int, a0, es@, k as int, rest));
                        }
                    }
                    k = k + 1;
                },
                Some(ni) => {
                    let n = &self.nodes[ni];
                    let ghost sk = set_of(affected@);
                    insert_str(affected, n.id.as_str());
                    let ghost s1 = set_of(affected@);
                    assert(s1 == sk.insert(n.id@));
                    let ghost before_anc = anc@;
                    anc.push(next_id.to_string());
                    proof { lemma_set_of_push(before_anc, anc@.last()); }
                    let sub = self.traverse_tree(next_id, depth + 1, anc, affected);
                    let ghost s2 = set_of(affected@);
                    anc.pop();
                    assert(anc@ =~= anc0);
                    let site: Option<&str> = if self.outgoing {
                        match node_index(&self.nodes, cur) {
                            Some(ci) => match &self.nodes[ci].path {
                                Some(p) => Some(p.as_str()),
                                None => None,
                            },
                            None => None,
                        }
                    } else {
                        match &n.path {
                            Some(p) => Some(p.as_str()),
                            None => None,
                        }
                    };
                    let snip = snippet(&self.files, site, e.line);
                    let item = ImpactItem {
                        id: n.id.clone(),
                        label: n.label.clone(),
                        kind: n.kind.clone(),
                        path: n.path.clone(),
                        line: e.line,
                        site_path: match site {
                            Some(s) => Some(s.to_string()),
                            None => None,
                        },
                        edge_kind: e.kind.clone(),
                        confidence_milli: e.confidence_milli,
                        snippet: snip,
                        depth: depth + 1,
                        is_exported: n.exported,
                        low_confidence: e.confidence_milli <= LOW_CONFIDENCE_MILLI,
                        crosses_module: self.ctx.crosses_module(n),
                        community: self.ctx.community_label(n),
                        callers: sub,
                    };
                    assert(item_ok(*self, cur@, *e, *n, depth as int, item));
                    let ghost items_before = items@;
                    items.push(item);
                    proof {
                        assert(items@.drop_last() =~= items_before);
                        assert(items@.last() == item);
                        assert(set_of(affected@) =~= s0.union(reached(items@)));
                        assert forall|rest: Seq<ImpactItem>|
                            #[trigger] fits_edges(*self, cur@, depth as int, a0, es@, k + 1, rest)
                                implies fits_edges(*self, cur@, depth as int, a0, es@, 0, items@ + rest) by {
                            let whole = seq![item] + rest;
                            assert(whole.drop_first() =~= rest);
                            assert(whole[0] == item);
                            assert(fits_edges(*self, cur@, depth as int, a0, es@, k as int, whole));
                            assert(items_before + whole =~= items@ + rest);
                        }
                    }
                    k = k + 1;
                },
            }
        }
        proof {
            assert(fits_edges(*self, cur@, depth as int, a0, es@, k as int, Seq::<ImpactItem>::empty()));
            assert(items@ + Seq::<ImpactItem>::empty() =~= items@);
        }
        items
    }
}

/// The views of `v` are pairwise distinct.
pub open spec fn distinct(v: Seq<String>) -> bool {
    forall|i: int, j: int| 0 <= i < j < v.len() ==> v[i]@ != v[j]@
}

pub proof fn lemma_set_of_len(v: Seq<String>)
    requires
        distinct(v),
    ensures
        set_of(v).finite(),
        set_of(v).len() == v.len(),
    decreases v.len(),
{
    if v.len() == 0 {
        assert(set_of(v) =~= Set::<Seq<char>>::empty());
    } else {
        let w = v.drop_last();
        assert(distinct(w));
        lemma_set_of_len(w);
        assert(w.push(v.last()) =~= v);
        lemma_set_of_push(w, v.last());
        assert(!set_of(w).contains(v.last()@)) by {
            if set_of(w).contains(v.last()@) {
                let i = choose|i: int| 0 <= i < w.len() && #[trigger] w[i]@ == v.last()@;
                assert(v[i]@ == v[v.len() - 1]@);
            }
        }
    }
}

/// Add `s` to `v` unless it is there already.
pub fn insert_str(v: &mut Vec<String>, s: &str) -> (added: bool)
    requires
        distinct(old(v)@),
    ensures
        distinct(final(v)@),
        set_of(final(v)@) == set_of(old(v)@).insert(s@),
        added == !set_of(old(v)@).contains(s@),
        final(v)@.len() == old(v)@.len() + (if added { 1int } else { 0int }),
{
    if contains_str(v, s) {
        assert(set_of(v@).insert(s@) =~= set_of(v@));
        false
    } else {
        let ghost before = v@;
        v.push(s.to_string());
        proof {
            lemma_set_of_push(before, v@.last());
            assert forall|i: int, j: int| 0 <= i < j < v@.len() implies v@[i]@ != v@[j]@ by {
                if j == v@.len() - 1 {
                    if v@[i]@ == v@[j]@ {
                        assert(before[i]@ == s@);
                        assert(set_of(before).contains(s@));
                    }
                } else {
                    assert(v@[i] == before[i] && v@[j] == before[j]);
                }
            }
        }
        true
    }
}

/// The deepest item of a tree (0 for none).
pub open spec fn deepest(items: Seq<ImpactItem>) -> nat
    decreases items,
{
    if items.len() == 0 {
        0
    } else {
        let last = items.last();
        proof {
            assert(decreases_to!(items => items[items.len() - 1]));
            assert(decreases_to!(items[items.len() - 1] => items[items.len() - 1].callers));
        }
        let a = deepest(items.drop_last());
        let b = deepest(last.callers@);
        let m = if a > b { a } else { b };
        if last.depth > m { last.depth as nat } else { m }
    }
}

/// Raise `max_d` to the deepest item of the tree.
pub fn calculate_max_depth(items: &Vec<ImpactItem>, max_d: &mut u32)
    ensures
        *final(max_d) == (if *old(max_d) >= deepest(items@) { *old(max_d) as nat } else { deepest(items@) }),
    decreases items@,
{
    let ghost m0 = *max_d;
    let mut i: usize = 0;
    assert(items@.take(0) =~= Seq::<ImpactItem>::empty());
    while i < items.len()
        invariant
            0 <= i <= items@.len(),
            *max_d == (if m0 >= deepest(items@.take(i as int)) { m0 as nat } else { deepest(items@.take(i as int)) }),
        decreases items@.len() - i,
    {
        let item = &items[i];
        if item.depth > *max_d {
            *max_d = item.depth;
        }
        proof {
            assert(decreases_to!(items@ => items@[i as int]));
            assert(decreases_to!(items@[i as int] => items@[i as int].callers));
        }
        calculate_max_depth(&item.callers, max_d);
        proof {
            assert(items@.take(i + 1).drop_last() =~= items@.take(i as int));
            assert(items@.take(i + 1).last() == items@[i as int]);
        }
        i = i + 1;
    }
    assert(items@.take(items@.len() as int) =~= items@);
}

/// The item touches public API, rests on a weak edge, or crosses a module.
pub open spec fn is_risky(it: ImpactItem) -> bool {
    it.is_exported || it.low_confidence || it.crosses_module
}

/// Walking a tree in preorder with the ids `seen` so far: how many items are
/// risky the first time their id comes up, and the ids seen after.
pub open spec fn risky_walk(items: Seq<ImpactItem>, seen: Set<Seq<char>>) -> (nat, Set<Seq<char>>)
    decreases items,
{
    if items.len() == 0 {
        (0, seen)
    } else {
        let first = items[0];
        proof {
            assert(decreases_to!(items => items[0]));
            assert(decreases_to!(items[0] => items[0].callers));
        }
        let c1: nat = if !seen.contains(first.id@) && is_risky(first) { 1 } else { 0 };
        let inner = risky_walk(first.callers@, seen.insert(first.id@));
        let rest = risky_walk(items.drop_first(), inner.1);
        (c1 + inner.0 + rest.0, rest.1)
    }
}

/// Count the distinct affected items that are risky (see [`is_risky`]),
/// each id counted once across calls sharing `seen`.
pub fn count_risky(items: &Vec<ImpactItem>, seen: &mut Vec<String>, count: &mut usize)
    requires
        distinct(old(seen)@),
        *old(count) <= old(seen)@.len(),
    ensures
        distinct(final(seen)@),
        *final(count) <= final(seen)@.len(),
        *final(count) - *old(count) == risky_walk(items@, set_of(old(seen)@)).0,
        set_of(final(seen)@) == risky_walk(items@, set_of(old(seen)@)).1,
    decreases items@,
{
    let ghost c0 = *count;
    let ghost s0 = set_of(seen@);
    let mut i: usize = 0;
    assert(items@.subrange(0, items@.len() as int) =~= items@);
    while i < items.len()
        invariant
            0 <= i <= items@.len(),
            distinct(seen@),
            *count <= seen@.len(),
            *count >= c0,
            ({
                let r = risky_walk(items@.subrange(i as int, items@.len() as int), set_of(seen@));
                &&& (*count - c0) + r.0 == risky_walk(items@, s0).0
                &&& r.1 == risky_walk(items@, s0).1
            }),
        decreases items@.len() - i,
    {
        let item = &items[i];
        let ghost rest = items@.subrange(i as int, items@.len() as int);
        let ghost sk = set_of(seen@);
        assert(rest[0] == items@[i as int]);
        assert(rest.drop_first() =~= items@.subrange(i + 1, items@.len() as int));
        let added = insert_str(seen, item.id.as_str());
        let len_now = seen.len();
        if added && (item.is_exported || item.low_confidence || item.crosses_module) {
            assert(*count < len_now);
            *count = *count + 1;
        }
        proof {
            assert(decreases_to!(items@ => items@[i as int]));
            assert(decreases_to!(items@[i as int] => items@[i as int].callers));
        }
        count_risky(&item.callers, seen, count);
        i = i + 1;
    }
    assert(items@.subrange(items@.len() as int, items@.len() as int) =~= Seq::<ImpactItem>::empty());
}

/// A pattern that occurs somewhere has a last occurrence, at or after it.
proof fn lemma_last_occ_exists(s: Seq<char>, p: Seq<char>, j: int)
    requires
        occurs_at(s, p, j),
    ensures
        exists|k: int| j <= k && is_last_occ(s, p, k),
    decreases s.len() - j,
{
    if exists|j2: int| j < j2 && occurs_at(s, p, j2) {
        let j2 = choose|j2: int| j < j2 && occurs_at(s, p, j2);
        lemma_last_occ_exists(s, p, j2);
    } else {
        assert(is_last_occ(s, p, j));
    }
}

/// The top-level directory of `d/rest` is `d`, when `d` holds no `/`.
pub proof fn lemma_module_root_of(d: Seq<char>, rest: Seq<char>)
    requires
        forall|i: int| 0 <= i < d.len() ==> d[i] != '/',
    ensures
        spec_module_root(d + "/"@ + rest) == d,
{
    reveal_strlit("/");
    let sl = "/"@;
    assert(sl.len() == 1 && sl[0] == '/');
    let p = d + sl + rest;
    let n = d.len() as int;
    assert(p.subrange(n, n + 1) =~= sl);
    assert(occurs_at(p, sl, n));
    lemma_last_occ_exists(p, sl, n);
    let k = choose|k: int| is_last_occ(p, sl, k);
    let k0 = choose|k0: int| n <= k0 && is_last_occ(p, sl, k0);
    lemma_last_occ_unique(p, sl, k, k0);
    assert(rfind(p, sl) == Some(k));
    let dir = p.subrange(0, k);
    lemma_next_char_bounds(dir, 0, '/');
    let r = next_char(dir, 0, '/');
    assert forall|i: int| 0 <= i < n implies dir[i] != '/' by {
        assert(dir[i] == d[i]);
    }
    if k > n {
        assert(p.subrange(n, n + 1)[0] == p[n]);
        assert(dir[n] == '/');
    }
    assert(r == n);
    assert(dir.subrange(0, r) =~= d);
}

/// Whether an item crosses modules: when the target and the item both lie
/// in a known subsystem, exactly when the subsystems differ; when either
/// does not, an item filed under `d/...` crosses exactly when `d` is not
/// the target's top-level directory, and an item without a path does not.
pub proof fn law_crosses_module(ctx: RiskContext, n: Node, d: Seq<char>, rest: Seq<char>)
    requires
        forall|i: int| 0 <= i < d.len() ==> d[i] != '/',
    ensures
        (ctx.community is Some && n.community is Some) ==> crosses(ctx, n) == (ctx.community->0 != n.community->0),
        (ctx.community is None || n.community is None) && n.path is None ==> !crosses(ctx, n),
        ((ctx.community is None || n.community is None) && (n.path matches Some(p) && p@ == d + "/"@ + rest))
            ==> crosses(ctx, n) == (d != ctx.module@),
{
    lemma_module_root_of(d, rest);
}

/// An item whose path has no directory lies at the top level: when either
/// side has no subsystem, it crosses exactly when the target lies in a
/// top-level directory.
pub proof fn law_crosses_from_top_level(ctx: RiskContext, n: Node)
    requires
        ctx.community is None || n.community is None,
        n.path matches Some(p) && (forall|i: int| 0 <= i < p@.len() ==> p@[i] != '/'),
    ensures
        crosses(ctx, n) == (ctx.module@.len() != 0),
{
    reveal_strlit("/");
    let p = n.path->0@;
    let sl = "/"@;
    assert(sl.len() == 1 && sl[0] == '/');
    assert forall|k: int| !is_last_occ(p, sl, k) by {
        if occurs_at(p, sl, k) {
            assert(p.subrange(k, k + 1)[0] == p[k]);
        }
    }
    assert(rfind(p, sl) is None);
    assert(spec_module_root(p) =~= Seq::<char>::empty());
    if ctx.module@.len() == 0 {
        assert(ctx.module@ =~= Seq::<char>::empty());
    }
}

} // verus!

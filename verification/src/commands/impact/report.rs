//! One target's impact report: its callers and callees, and the counts a
//! reader scans first.

use vstd::prelude::*;
use crate::commands::impact::models::{ImpactItem, ImpactReport};
use crate::commands::impact::traversal::{
    calculate_max_depth, count_risky, deepest, distinct, fits_tree, insert_str, label_of, lemma_set_of_len,
    module_root, node_of, opt_view, reached, risky_walk, set_of, spec_module_root, RiskContext, Traversal,
};
use crate::graph::Node;
use crate::text::{ascii_lower, lower_seq, str_eq};

verus! {

/// Which ways a `--direction` walks: callers for `both`, `reverse`,
/// `upstream`, `callers`; callees for `both`, `forward`, `downstream`,
/// `callees` (any case).
pub open spec fn walks(direction: Seq<char>) -> (bool, bool) {
    let d = lower_seq(direction);
    (
        d == "both"@ || d == "reverse"@ || d == "upstream"@ || d == "callers"@,
        d == "both"@ || d == "forward"@ || d == "downstream"@ || d == "callees"@,
    )
}

pub fn direction_walks(direction: &str) -> (r: (bool, bool))
    ensures
        r == walks(direction@),
{
    let d = ascii_lower(direction);
    let s = d.as_str();
    let both = str_eq(s, "both");
    (
        both || str_eq(s, "reverse") || str_eq(s, "upstream") || str_eq(s, "callers"),
        both || str_eq(s, "forward") || str_eq(s, "downstream") || str_eq(s, "callees"),
    )
}

impl RiskContext {
    /// The context of a target: its top-level directory and its community.
    pub fn for_target(target: &Node, labels: Vec<(u32, String)>) -> (r: RiskContext)
        ensures
            r.module@ == (match target.path { Some(p) => spec_module_root(p@), None => Seq::<char>::empty() }),
            r.community == target.community,
            r.labels@ == labels@,
    {
        let module = match &target.path {
            Some(p) => module_root(p.as_str()),
            None => String::new(),
        };
        RiskContext { module, community: target.community, labels }
    }
}

/// Node `id` is defined in file `p`.
pub open spec fn defined_in(nodes: Seq<Node>, id: Seq<char>, p: Seq<char>) -> bool {
    node_of(nodes, id) matches Some(n) && opt_view(n.path) == Some(p)
}

/// The files that define the nodes with these ids.
pub open spec fn paths_of(nodes: Seq<Node>, ids: Set<Seq<char>>) -> Set<Seq<char>> {
    Set::new(|p: Seq<char>| exists|id: Seq<char>| ids.contains(id) && #[trigger] defined_in(nodes, id, p))
}

/// Collect the defining files of the nodes `ids` lists.
fn affected_paths(nodes: &Vec<Node>, ids: &Vec<String>) -> (r: Vec<String>)
    ensures
        distinct(r@),
        set_of(r@) == paths_of(nodes@, set_of(ids@)),
{
    let mut out: Vec<String> = Vec::new();
    let mut i: usize = 0;
    while i < ids.len()
        invariant
            0 <= i <= ids@.len(),
            distinct(out@),
            set_of(out@) == paths_of(nodes@, set_of(ids@.take(i as int))),
        decreases ids@.len() - i,
    {
        let ghost before = set_of(out@);
        let ghost prev = set_of(ids@.take(i as int));
        let ghost next = set_of(ids@.take(i + 1));
        assert(next == prev.insert(ids@[i as int]@)) by {
            assert(ids@.take(i + 1) =~= ids@.take(i as int).push(ids@[i as int]));
            crate::commands::impact::traversal::lemma_set_of_push(ids@.take(i as int), ids@[i as int]);
        }
        match crate::commands::impact::traversal::node_index(nodes, ids[i].as_str()) {
            Some(ni) => {
                match &nodes[ni].path {
                    Some(p) => {
                        insert_str(&mut out, p.as_str());
                        assert(set_of(out@) =~= paths_of(nodes@, next)) by {
                            assert forall|x: Seq<char>| set_of(out@).contains(x) <== paths_of(nodes@, next).contains(x) by {
                                if paths_of(nodes@, next).contains(x) {
                                    let id = choose|id: Seq<char>| next.contains(id) && #[trigger] defined_in(nodes@, id, x);
                                    if id != ids@[i as int]@ {
                                        assert(prev.contains(id));
                                        assert(paths_of(nodes@, prev).contains(x));
                                    }
                                }
                            }
                            assert forall|x: Seq<char>| set_of(out@).contains(x) ==> paths_of(nodes@, next).contains(x) by {
                                if set_of(out@).contains(x) && x != p@ {
                                    assert(before.contains(x));
                                    let id = choose|id: Seq<char>| prev.contains(id) && #[trigger] defined_in(nodes@, id, x);
                                    assert(next.contains(id));
                                }
                                if x == p@ {
                                    assert(next.contains(ids@[i as int]@));
                                    assert(defined_in(nodes@, ids@[i as int]@, x));
                                }
                            }
                        }
                    },
                    None => {
                        assert(set_of(out@) =~= paths_of(nodes@, next)) by {
                            assert forall|x: Seq<char>| paths_of(nodes@, next).contains(x) implies set_of(out@).contains(x) by {
                                let id = choose|id: Seq<char>| next.contains(id) && #[trigger] defined_in(nodes@, id, x);
                                if id != ids@[i as int]@ {
                                    assert(prev.contains(id));
                                    assert(paths_of(nodes@, prev).contains(x));
                                }
                            }
                            assert forall|x: Seq<char>| set_of(out@).contains(x) implies paths_of(nodes@, next).contains(x) by {
                                let id = choose|id: Seq<char>| prev.contains(id) && #[trigger] defined_in(nodes@, id, x);
                                assert(next.contains(id));
                            }
                        }
                    },
                }
            },
            None => {
                assert(set_of(out@) =~= paths_of(nodes@, next)) by {
                    assert forall|x: Seq<char>| paths_of(nodes@, next).contains(x) implies set_of(out@).contains(x) by {
                        let id = choose|id: Seq<char>| next.contains(id) && #[trigger] defined_in(nodes@, id, x);
                        if id != ids@[i as int]@ {
                            assert(prev.contains(id));
                            assert(paths_of(nodes@, prev).contains(x));
                        }
                    }
                    assert forall|x: Seq<char>| set_of(out@).contains(x) implies paths_of(nodes@, next).contains(x) by {
                        let id = choose|id: Seq<char>| prev.contains(id) && #[trigger] defined_in(nodes@, id, x);
                        assert(next.contains(id));
                    }
                }
            },
        }
        i = i + 1;
    }
    assert(ids@.take(ids@.len() as int) =~= ids@);
    out
}

/// The callers and callees of `target`, as `callers_walk` (backward) and
/// `callees_walk` (forward) find them, each walked only when `direction`
/// asks for it, with the counts of the report.
pub fn impact_report(target: &Node, direction: &str, callers_walk: &Traversal, callees_walk: &Traversal) -> (r: ImpactReport)
    ensures
        r.target_symbol@ == target.label@,
        r.target_id@ == target.id@,
        r.target_kind@ == target.kind@,
        opt_view(r.target_path) == opt_view(target.path),
        r.direction@ == direction@,
        walks(direction@).0 ==> fits_tree(*callers_walk, target.id@, 0, set![target.id@], r.callers@),
        !walks(direction@).0 ==> r.callers@.len() == 0,
        walks(direction@).1 ==> fits_tree(*callees_walk, target.id@, 0, set![target.id@], r.callees@),
        !walks(direction@).1 ==> r.callees@.len() == 0,
        r.direct_callers_count == r.callers@.len(),
        r.direct_callees_count == r.callees@.len(),
        r.total_callers_count == reached(r.callers@).len(),
        r.total_callees_count == reached(r.callees@).len(),
        r.total_affected_count == reached(r.callers@).union(reached(r.callees@)).len(),
        r.total_affected_files == paths_of(callers_walk.nodes@, reached(r.callers@).union(reached(r.callees@))).len(),
        r.max_depth_reached == (if deepest(r.callers@) >= deepest(r.callees@) { deepest(r.callers@) } else { deepest(r.callees@) }),
        r.risky_affected_count == risky_walk(r.callers@, Set::empty()).0
            + risky_walk(r.callees@, risky_walk(r.callers@, Set::empty()).1).0,
        opt_view(r.target_community) == (match target.community {
            Some(c) => label_of(callers_walk.ctx.labels@, c),
            None => None,
        }),
{
    let (up, down) = direction_walks(direction);
    let mut anc_up: Vec<String> = vec![target.id.clone()];
    let mut aff_up: Vec<String> = Vec::new();
    assert(set_of(anc_up@) =~= set![target.id@]) by {
        assert(anc_up@[0]@ == target.id@);
    }
    let callers = if up {
        callers_walk.traverse_tree(target.id.as_str(), 0, &mut anc_up, &mut aff_up)
    } else {
        Vec::new()
    };
    assert(set_of(aff_up@) =~= reached(callers@)) by {
        assert(set_of(Seq::<String>::empty()) =~= Set::<Seq<char>>::empty());
        if !up {
            assert(set_of(aff_up@) =~= Set::<Seq<char>>::empty());
        }
    }
    let mut anc_down: Vec<String> = vec![target.id.clone()];
    let mut aff_down: Vec<String> = Vec::new();
    assert(set_of(anc_down@) =~= set![target.id@]) by {
        assert(anc_down@[0]@ == target.id@);
    }
    let callees = if down {
        callees_walk.traverse_tree(target.id.as_str(), 0, &mut anc_down, &mut aff_down)
    } else {
        Vec::new()
    };
    assert(set_of(aff_down@) =~= reached(callees@)) by {
        assert(set_of(Seq::<String>::empty()) =~= Set::<Seq<char>>::empty());
        if !down {
            assert(set_of(aff_down@) =~= Set::<Seq<char>>::empty());
        }
    }
    proof {
        lemma_set_of_len(aff_up@);
        lemma_set_of_len(aff_down@);
    }
    let total_callers_count = aff_up.len();
    let total_callees_count = aff_down.len();
    let mut all: Vec<String> = Vec::new();
    let mut i: usize = 0;
    assert(set_of(all@) =~= Set::<Seq<char>>::empty());
    while i < aff_up.len()
        invariant
            0 <= i <= aff_up@.len(),
            distinct(all@),
            set_of(all@) == set_of(aff_up@.take(i as int)),
        decreases aff_up@.len() - i,
    {
        insert_str(&mut all, aff_up[i].as_str());
        proof {
            assert(aff_up@.take(i + 1) =~= aff_up@.take(i as int).push(aff_up@[i as int]));
            crate::commands::impact::traversal::lemma_set_of_push(aff_up@.take(i as int), aff_up@[i as int]);
        }
        i = i + 1;
    }
    assert(aff_up@.take(aff_up@.len() as int) =~= aff_up@);
    let mut j: usize = 0;
    while j < aff_down.len()
        invariant
            0 <= j <= aff_down@.len(),
            distinct(all@),
            set_of(all@) == set_of(aff_up@).union(set_of(aff_down@.take(j as int))),
        decreases aff_down@.len() - j,
    {
        insert_str(&mut all, aff_down[j].as_str());
        proof {
            assert(aff_down@.take(j + 1) =~= aff_down@.take(j as int).push(aff_down@[j as int]));
            crate::commands::impact::traversal::lemma_set_of_push(aff_down@.take(j as int), aff_down@[j as int]);
            assert(set_of(all@) =~= set_of(aff_up@).union(set_of(aff_down@.take(j + 1))));
        }
        j = j + 1;
    }
    assert(aff_down@.take(aff_down@.len() as int) =~= aff_down@);
    proof {
        lemma_set_of_len(all@);
    }
    let total_affected_count = all.len();
    let files = affected_paths(&callers_walk.nodes, &all);
    proof {
        lemma_set_of_len(files@);
    }
    let total_affected_files = files.len();
    let mut max_depth_reached: u32 = 0;
    calculate_max_depth(&callers, &mut max_depth_reached);
    calculate_max_depth(&callees, &mut max_depth_reached);
    let mut seen: Vec<String> = Vec::new();
    let mut risky: usize = 0;
    assert(set_of(seen@) =~= Set::<Seq<char>>::empty());
    count_risky(&callers, &mut seen, &mut risky);
    count_risky(&callees, &mut seen, &mut risky);
    let target_community = callers_walk.ctx.community_label(target);
    ImpactReport {
        target_symbol: target.label.clone(),
        target_id: target.id.clone(),
        target_kind: target.kind.clone(),
        target_path: target.path.clone(),
        direction: direction.to_string(),
        direct_callers_count: callers.len(),
        total_callers_count,
        callers,
        direct_callees_count: callees.len(),
        total_callees_count,
        callees,
        total_affected_count,
        total_affected_files,
        risky_affected_count: risky,
        target_community,
        max_depth_reached,
    }
}

} // verus!

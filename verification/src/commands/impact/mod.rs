//! Blast radius: who calls a symbol (and whom it calls), transitively, and
//! how a `--diff` run narrows the changed symbols down to those worth reading.

pub mod diffscan;
pub mod models;
pub mod render;
pub mod report;
pub mod targets;
pub mod traversal;

use vstd::prelude::*;
use crate::text::{concat, decimal, decimal_string};
use crate::rank::{goes_before, name_views, rank_selected, ranked, unselected};

verus! {

/// Most targets a `--diff` run reports: a large working tree can touch
/// hundreds of symbols, far more than anyone can read.
pub const DIFF_TARGET_LIMIT: usize = 10;

/// What trimming a `--diff` result left out.
#[derive(Debug, Default, PartialEq, Eq, Structural)]
pub struct DiffTrim {
    /// Targets with no callers or callees: changing them reaches nothing.
    pub isolated: usize,
    /// Connected targets beyond the limit, least affected first to go.
    pub over_limit: usize,
}

pub open spec fn note_text(isolated: nat, over_limit: nat) -> Seq<char> {
    "note: showing the "@ + decimal(DIFF_TARGET_LIMIT as nat)
        + " most-affected changed symbols; omitted "@ + decimal(isolated)
        + " with no callers or callees and "@ + decimal(over_limit)
        + " more beyond the limit (run `impact <SYMBOL>` to inspect any of them)."@
}

impl DiffTrim {
    /// A one-line note for the reader, or `None` when nothing was dropped.
    pub fn note(&self) -> (r: Option<String>)
        ensures
            (self.isolated == 0 && self.over_limit == 0) ==> r is None,
            !(self.isolated == 0 && self.over_limit == 0) ==> (r matches Some(s) && s@ == note_text(self.isolated as nat, self.over_limit as nat)),
    {
        if self.isolated == 0 && self.over_limit == 0 {
            return None;
        }
        let a = concat("note: showing the ", decimal_string(DIFF_TARGET_LIMIT as u64).as_str());
        let b = concat(a.as_str(), " most-affected changed symbols; omitted ");
        let c = concat(b.as_str(), decimal_string(self.isolated as u64).as_str());
        let d = concat(c.as_str(), " with no callers or callees and ");
        let e = concat(d.as_str(), decimal_string(self.over_limit as u64).as_str());
        let f = concat(e.as_str(), " more beyond the limit (run `impact <SYMBOL>` to inspect any of them).");
        Some(f)
    }
}

/// How many reports affect nothing.
pub open spec fn zeros(counts: Seq<usize>) -> nat
    decreases counts.len(),
{
    if counts.len() == 0 { 0 } else { zeros(counts.drop_last()) + if counts.last() == 0 { 1nat } else { 0nat } }
}

proof fn lemma_zeros_unselected(counts: Seq<usize>, keep: Seq<bool>)
    requires
        counts.len() == keep.len(),
        forall|i: int| 0 <= i < counts.len() ==> #[trigger] keep[i] == (counts[i] > 0),
    ensures
        zeros(counts) == unselected(keep),
    decreases counts.len(),
{
    if counts.len() > 0 {
        lemma_zeros_unselected(counts.drop_last(), keep.drop_last());
    }
}

/// Which `--diff` targets to show, in what order: the reports that affect
/// anything, most affected first (ties by name, then input order), at most
/// `limit` of them; with how many were dropped for reaching nothing and for
/// the limit. `counts[i]` and `names[i]` are report `i`'s affected count and
/// target name.
pub fn diff_trim_plan(counts: &[usize], names: &[String], limit: usize) -> (r: (Vec<usize>, DiffTrim))
    requires
        counts@.len() == names@.len(),
    ensures
        ranked(counts@, name_views(names@), r.0@),
        forall|k: int| 0 <= k < r.0@.len() ==> #[trigger] r.0@[k] < counts@.len() && counts@[r.0@[k] as int] > 0,
        r.0@.len() <= limit,
        r.1.over_limit > 0 ==> r.0@.len() == limit,
        r.1.isolated == zeros(counts@),
        r.1.isolated + r.1.over_limit + r.0@.len() == counts@.len(),
        forall|j: int| 0 <= j < counts@.len() && counts@[j] > 0 && !r.0@.contains(j as usize) ==>
            forall|k: int| 0 <= k < r.0@.len() ==> goes_before(counts@, name_views(names@), #[trigger] r.0@[k] as int, j),
{
    let n = counts.len();
    let mut keep: Vec<bool> = Vec::new();
    let mut i: usize = 0;
    while i < n
        invariant
            n == counts@.len(),
            0 <= i <= n,
            keep@.len() == i,
            forall|j: int| 0 <= j < i ==> #[trigger] keep@[j] == (counts@[j] > 0),
        decreases n - i,
    {
        keep.push(counts[i] > 0);
        i = i + 1;
    }
    let mut order = rank_selected(counts, names, keep.as_slice());
    proof {
        lemma_zeros_unselected(counts@, keep@);
    }
    let isolated = n - order.len();
    let ghost full = order@;
    let ghost nv = name_views(names@);
    let over_limit = if order.len() > limit { order.len() - limit } else { 0 };
    order.truncate(limit);
    proof {
        let kept = order@;
        assert(kept =~= if full.len() > limit { full.take(limit as int) } else { full });
        assert forall|j: int| 0 <= j < n && counts@[j] > 0 && !kept.contains(j as usize) implies
            forall|k: int| 0 <= k < kept.len() ==> goes_before(counts@, nv, #[trigger] kept[k] as int, j) by {
            assert(keep@[j]);
            let q = choose|q: int| 0 <= q < full.len() && full[q] == j as usize;
            if q < kept.len() {
                assert(kept[q] == j as usize);
            }
            assert forall|k: int| 0 <= k < kept.len() implies goes_before(counts@, nv, #[trigger] kept[k] as int, j) by {
                assert(kept[k] == full[k]);
            }
        }
        assert forall|k: int| 0 <= k < kept.len() implies #[trigger] kept[k] < n && counts@[kept[k] as int] > 0 by {
            assert(kept[k] == full[k]);
            assert(keep@[full[k] as int]);
        }
    }
    (order, DiffTrim { isolated, over_limit })
}

/// An impact run names what to analyse one way or the other.
#[derive(Debug, Clone, Copy, PartialEq, Eq, Structural)]
pub enum ImpactArgError {
    /// Neither a symbol nor `--diff`.
    NoTarget,
    /// A symbol and `--diff` together.
    BothTargets,
}

impl ImpactArgError {
    pub open spec fn spec_message(self) -> Seq<char> {
        match self {
            ImpactArgError::NoTarget => "impact requires either a <SYMBOL> argument or --diff to auto-detect changed symbols from git"@,
            ImpactArgError::BothTargets => "--diff cannot be combined with an explicit <SYMBOL>; pass one or the other"@,
        }
    }

    pub fn message(&self) -> (r: &'static str)
        ensures
            r@ == self.spec_message(),
    {
        match self {
            ImpactArgError::NoTarget => "impact requires either a <SYMBOL> argument or --diff to auto-detect changed symbols from git",
            ImpactArgError::BothTargets => "--diff cannot be combined with an explicit <SYMBOL>; pass one or the other",
        }
    }
}

/// A run takes either a symbol or `--diff`, not both, not neither.
pub fn check_impact_args(diff: bool, has_symbol: bool) -> (r: Result<(), ImpactArgError>)
    ensures
        (!diff && !has_symbol) <==> r == Err::<(), ImpactArgError>(ImpactArgError::NoTarget),
        (diff && has_symbol) <==> r == Err::<(), ImpactArgError>(ImpactArgError::BothTargets),
        (diff != has_symbol) <==> r is Ok,
{
    if !diff && !has_symbol {
        Err(ImpactArgError::NoTarget)
    } else if diff && has_symbol {
        Err(ImpactArgError::BothTargets)
    } else {
        Ok(())
    }
}

/// The error of a run whose symbol matches nothing in the graph.
pub fn no_match_message(symbol: &str) -> (r: String)
    ensures
        r@ == "No symbol or file matching '"@ + symbol@
            + "' found in graph. Run `code-rcl graph` to inspect available symbols."@,
{
    let a = concat("No symbol or file matching '", symbol);
    concat(a.as_str(), "' found in graph. Run `code-rcl graph` to inspect available symbols.")
}

} // verus!

//! What an impact run reports.

use vstd::prelude::*;

verus! {

/// The blast radius of one target.
#[derive(Debug)]
pub struct ImpactReport {
    pub target_symbol: String,
    pub target_id: String,
    pub target_kind: String,
    pub target_path: Option<String>,
    pub direction: String,
    pub direct_callers_count: usize,
    pub total_callers_count: usize,
    pub callers: Vec<ImpactItem>,
    pub direct_callees_count: usize,
    pub total_callees_count: usize,
    pub callees: Vec<ImpactItem>,
    pub total_affected_count: usize,
    pub total_affected_files: usize,
    pub risky_affected_count: usize,
    /// Subsystem (community) the target belongs to, when one was detected.
    pub target_community: Option<String>,
    pub max_depth_reached: u32,
}

/// One caller or callee, with the ones reached through it.
#[derive(Debug)]
pub struct ImpactItem {
    pub id: String,
    pub label: String,
    pub kind: String,
    /// File that defines this item.
    pub path: Option<String>,
    /// Line of the relation, in `site_path` (not necessarily in `path`).
    pub line: Option<i64>,
    /// File the relation's `line` lives in: the item's own file for a caller,
    /// the target's file for a callee, whose definition is elsewhere.
    pub site_path: Option<String>,
    pub edge_kind: String,
    /// How sure the resolver is of the edge, in thousandths.
    pub confidence_milli: u32,
    pub snippet: Option<String>,
    pub depth: u32,
    pub is_exported: bool,
    pub low_confidence: bool,
    /// The item sits in another subsystem (community) than the target, or,
    /// when either has none, under another top-level directory.
    pub crosses_module: bool,
    /// Subsystem this item belongs to, when one was detected.
    pub community: Option<String>,
    pub callers: Vec<ImpactItem>,
}

} // verus!

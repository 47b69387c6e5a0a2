//! What an explain run reports about one symbol.

use vstd::prelude::*;
use crate::commands::impact::models::ImpactReport;

verus! {

/// A member of a type: a symbol nested in it, or a method of it in the
/// same file.
#[derive(Debug)]
pub struct MemberInfo {
    pub name: String,
    pub kind: String,
    pub line: Option<i64>,
    pub is_exported: bool,
}

/// A symbol's declaration, docs and members, with one hop of callers and
/// callees.
#[derive(Debug)]
pub struct ExplainReport {
    pub symbol: String,
    pub id: String,
    pub kind: String,
    pub path: Option<String>,
    pub language: Option<String>,
    pub start_line: Option<i64>,
    pub end_line: Option<i64>,
    pub is_exported: bool,
    /// Subsystem (community) the symbol belongs to, when one was detected.
    pub community: Option<String>,
    pub signature: Option<String>,
    pub doc: Option<String>,
    pub members: Vec<MemberInfo>,
    /// One-hop callers/callees with risk flags, from the same engine as `impact`.
    pub relations: ImpactReport,
}

/// A member as plain values: name, kind, line, exported.
pub open spec fn member_view(m: MemberInfo) -> (Seq<char>, Seq<char>, Option<i64>, bool) {
    (m.name@, m.kind@, m.line, m.is_exported)
}

pub open spec fn member_views(v: Seq<MemberInfo>) -> Seq<(Seq<char>, Seq<char>, Option<i64>, bool)> {
    v.map_values(|m: MemberInfo| member_view(m))
}

} // verus!

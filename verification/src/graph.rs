//! The resolved code graph: files and symbols as nodes, calls and imports as
//! edges. It is built and rendered outside the library; the logic here reads
//! its plain fields.

use vstd::prelude::*;

verus! {

#[derive(Debug, Clone)]
pub struct Node {
    pub id: String,
    /// `file`, `directory`, `function`, `method`, `struct`, ...
    pub kind: String,
    pub label: String,
    pub path: Option<String>,
    pub dir: Option<String>,
    pub language: Option<String>,
    pub exported: bool,
    /// First and last line of a symbol.
    pub lines: Option<(i64, i64)>,
    pub degree: Option<u32>,
    pub community: Option<u32>,
}

#[derive(Debug, Clone)]
pub struct Edge {
    pub source: String,
    pub target: String,
    /// `calls`, `imports`, `contains`, ...
    pub kind: String,
    /// How sure the resolver is of the edge, in thousandths.
    pub confidence_milli: u32,
    pub external: Option<bool>,
    pub line: Option<i64>,
}

#[derive(Debug, Clone)]
pub struct Community {
    pub id: u32,
    pub label: String,
    pub size: usize,
}

#[derive(Debug, Clone)]
pub struct CodeGraph {
    pub version: u32,
    pub root: String,
    pub generated_at: i64,
    pub nodes: Vec<Node>,
    pub edges: Vec<Edge>,
    pub communities: Vec<Community>,
}

} // verus!

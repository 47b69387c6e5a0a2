//! What a digest holds: per directory, per file, the public types (with their
//! methods) and functions, each with signature, doc and diagram flag.

use vstd::prelude::*;

verus! {

#[derive(Debug, Clone)]
pub struct DigestReport {
    pub project: String,
    pub total_files: usize,
    pub total_symbols: usize,
    pub public_symbols: usize,
    /// Files per language group.
    pub languages: Vec<(String, usize)>,
    pub hubs: Vec<HubItem>,
    pub modules: Vec<ModuleDigest>,
}

#[derive(Debug, Clone)]
pub struct HubItem {
    pub label: String,
    pub kind: String,
    pub path: Option<String>,
    pub degree: u32,
}

#[derive(Debug, Clone)]
pub struct ModuleDigest {
    pub directory: String,
    pub files: Vec<FileDigest>,
}

#[derive(Debug, Clone)]
pub struct FileDigest {
    pub path: String,
    pub language: String,
    pub types: Vec<TypeDigest>,
    pub functions: Vec<SymbolItem>,
}

#[derive(Debug, Clone)]
pub struct TypeDigest {
    pub name: String,
    pub kind: String,
    pub signature: String,
    pub doc: Option<String>,
    pub has_diagram: bool,
    pub has_diagram_in_fields: bool,
    pub methods: Vec<SymbolItem>,
}

#[derive(Debug, Clone)]
pub struct SymbolItem {
    pub name: String,
    pub kind: String,
    pub signature: String,
    pub line: Option<i64>,
    pub is_exported: bool,
    pub doc: Option<String>,
    pub has_diagram: bool,
}

} // verus!

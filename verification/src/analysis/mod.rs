//! Extraction of symbols, imports, references, scopes and bindings from
//! source files.

pub mod go;
pub mod java;
pub mod javascript;
pub mod kotlin;
pub mod lang;
pub mod python;
pub mod reach;
pub mod rust;
pub mod scope;
pub mod sfc;
pub mod toml;

use vstd::prelude::*;
use vstd::string::StringSliceAdditionalSpecFns;
use crate::analysis::lang::Language;
use crate::cache::models::{NewBinding, NewImport, NewRef, NewScope, NewStringLiteral, NewSymbol};
use crate::syntax::{Grammar, syntax_of};

verus! {

/// Everything an analyzer extracts from a single file.
#[derive(Debug)]
pub struct ParsedFile {
    /// Declared symbols, ordered outermost-first (parents before children).
    pub symbols: Vec<NewSymbol>,
    pub imports: Vec<NewImport>,
    pub refs: Vec<NewRef>,
    /// Lexical scopes, ordered outermost-first (parents before children).
    pub scopes: Vec<NewScope>,
    /// Names introduced in each scope (locals, params, fields, imports, ...).
    pub bindings: Vec<NewBinding>,
    /// String literals passed to calls and macros, and keys defined in config files.
    pub string_literals: Vec<NewStringLiteral>,
    /// False if the parser reported syntax errors or the language is unsupported.
    pub parse_ok: bool,
}

/// `b` is `a` with more appended.
pub open spec fn grows<T>(a: Seq<T>, b: Seq<T>) -> bool {
    &&& a.len() <= b.len()
    &&& forall|i: int| 0 <= i < a.len() ==> #[trigger] b[i] == a[i]
}

/// Each symbol's parent comes before it.
pub open spec fn symbols_ordered(symbols: Seq<NewSymbol>) -> bool {
    forall|i: int|
        0 <= i < symbols.len() && #[trigger] symbols[i].parent_index is Some
            ==> symbols[i].parent_index->0 < i
}

/// Each scope's parent comes before it, and its owner is a real symbol.
pub open spec fn scopes_ordered(scopes: Seq<NewScope>, n_symbols: nat) -> bool {
    forall|i: int|
        0 <= i < scopes.len() ==> {
            &&& (#[trigger] scopes[i]).parent_index is Some ==> scopes[i].parent_index->0 < i
            &&& scopes[i].owner_symbol_index is Some ==> scopes[i].owner_symbol_index->0 < n_symbols
        }
}

/// Each binding points at a real scope, symbol and import.
pub open spec fn bindings_linked(bindings: Seq<NewBinding>, n_scopes: nat, n_symbols: nat, n_imports: nat) -> bool {
    forall|b: int|
        0 <= b < bindings.len() ==> {
            &&& (#[trigger] bindings[b]).scope_index < n_scopes
            &&& bindings[b].symbol_index is Some ==> bindings[b].symbol_index->0 < n_symbols
            &&& bindings[b].import_index is Some ==> bindings[b].import_index->0 < n_imports
        }
}

/// Each in-file resolution points at a real symbol.
pub open spec fn refs_linked(refs: Seq<NewRef>, n_symbols: nat) -> bool {
    forall|r: int|
        0 <= r < refs.len() && #[trigger] refs[r].resolved_local_symbol_index is Some
            ==> refs[r].resolved_local_symbol_index->0 < n_symbols
}

impl ParsedFile {
    /// Every index the file holds points inside it, and parents precede children.
    pub open spec fn wf(&self) -> bool {
        &&& symbols_ordered(self.symbols@)
        &&& scopes_ordered(self.scopes@, self.symbols@.len())
        &&& bindings_linked(self.bindings@, self.scopes@.len(), self.symbols@.len(), self.imports@.len())
        &&& refs_linked(self.refs@, self.symbols@.len())
    }

    /// A file with nothing extracted.
    pub fn empty(parse_ok: bool) -> (p: ParsedFile)
        ensures
            p.wf(),
            p.parse_ok == parse_ok,
            p.symbols@.len() == 0,
            p.imports@.len() == 0,
            p.refs@.len() == 0,
            p.scopes@.len() == 0,
            p.bindings@.len() == 0,
            p.string_literals@.len() == 0,
    {
        ParsedFile {
            symbols: Vec::new(),
            imports: Vec::new(),
            refs: Vec::new(),
            scopes: Vec::new(),
            bindings: Vec::new(),
            string_literals: Vec::new(),
            parse_ok,
        }
    }
}

/// Parse `source` according to `language`: code through its grammar's
/// walker, Vue and Svelte through their script blocks, TOML for its keys.
pub fn parse_file(language: Language, source: &str) -> (p: ParsedFile)
    ensures
        p.wf(),
        language is Toml ==> p.parse_ok && p.symbols@.len() == 0 && p.refs@.len() == 0
            && p.string_literals@.len() == toml::toml_keys(source@).len(),
        (language is Vue || language is Svelte) ==> exists|k: int|
            0 <= k < p.symbols@.len() && (#[trigger] p.symbols@[k]).name@ == "default"@ && p.symbols@[k].is_exported,
        (language is Vue || language is Svelte) ==> sfc::sfc_parsed(source.spec_bytes(), source@, p),
        language is Rust ==> rust::rust_parsed(source@, p),
        (language is JavaScript || language is Jsx || language is TypeScript || language is Tsx)
            ==> javascript::js_parsed(source@, language, p),
        language is Python ==> python::py_parsed(source@, p),
        language is Java ==> java::java_parsed(source@, p),
        language is Go ==> go::go_parsed(source@, p),
        language is Kotlin ==> kotlin::kt_parsed(source@, p),
{
    match language {
        Language::Rust => rust::parse(source),
        Language::JavaScript | Language::Jsx | Language::TypeScript | Language::Tsx => javascript::parse(source, language),
        Language::Python => python::parse(source),
        Language::Vue | Language::Svelte => sfc::parse(source, language),
        Language::Toml => toml::parse(source),
        Language::Java => java::parse(source),
        Language::Go => go::parse(source),
        Language::Kotlin => kotlin::parse(source),
    }
}

} // verus!

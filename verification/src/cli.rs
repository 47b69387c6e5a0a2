//! The arguments each command takes, as plain values (paths as `/`-separated
//! strings). The command line itself is parsed outside the library.

use vstd::prelude::*;

verus! {

/// Dump the codebase into a single Markdown context file.
#[derive(Debug, Clone)]
pub struct DumpArgs {
    /// Target project directory or root path to dump.
    pub path: String,
    /// Output markdown file path stem or full filename.
    pub output: String,
    /// Skip source files larger than this many KB.
    pub max_size_kb: u64,
    /// Focus on a symbol or file and dump only its connected neighborhood.
    pub relation: Option<String>,
    /// Hop depth for relation neighborhood extraction.
    pub depth: u32,
    /// Skip auto-syncing changed files before dumping.
    pub no_sync: bool,
}

/// Create `.code-rcl/` (graph cache DB + config) in the target project.
#[derive(Debug, Clone)]
pub struct InitArgs {
    /// Project directory to initialize.
    pub project: String,
    /// Overwrite an existing config.toml.
    pub force: bool,
}

/// Opt-in compiler-grade resolution through language servers, shared by
/// `sync`, `graph`, `serve` and `impact`.
#[derive(Debug, Clone)]
pub struct PreciseArgs {
    /// Resolve references through the real language server for each language.
    pub precise: bool,
    /// Re-ask the language servers about every file, not only unanswered ones.
    pub precise_full: bool,
    /// Seconds to wait for a single language-server answer.
    pub precise_timeout: u64,
}

impl Default for PreciseArgs {
    fn default() -> (r: Self)
        ensures
            !r.precise,
            !r.precise_full,
            r.precise_timeout == 15,
    {
        PreciseArgs { precise: false, precise_full: false, precise_timeout: 15 }
    }
}

/// Parse changed source files into the graph cache.
#[derive(Debug, Clone)]
pub struct SyncArgs {
    /// Project directory to sync.
    pub project: String,
    /// Skip source files larger than this many KB.
    pub max_file_kb: u64,
    /// Restrict to a subset of languages (e.g. rust, js, py).
    pub language: Vec<String>,
    pub precise: PreciseArgs,
}

/// Analyze the blast radius of modifying a symbol.
#[derive(Debug, Clone)]
pub struct ImpactArgs {
    /// Target symbol name or identifier.
    pub symbol: String,
    /// Project directory to inspect.
    pub project: String,
    /// Maximum traversal depth.
    pub depth: u32,
    /// Edge kinds to traverse (e.g. calls, imports).
    pub kinds: Vec<String>,
    /// Output the result as JSON instead of an ASCII tree.
    pub json: bool,
    /// Skip auto-syncing changed files before analyzing.
    pub no_sync: bool,
    pub precise: PreciseArgs,
}

/// Generate an architecture outline and public API digest of the codebase.
#[derive(Debug, Clone)]
pub struct DigestArgs {
    /// Target project directory or sub-path to outline.
    pub path: String,
    /// Explicit project root; `path` is then a sub-path filter within it.
    pub project: Option<String>,
    /// Output file path for the generated markdown digest.
    pub output: Option<String>,
    /// Include private/internal functions and types.
    pub all: bool,
    /// Output structured JSON instead of Markdown.
    pub json: bool,
    /// Skip auto-syncing changed files before generating the digest.
    pub no_sync: bool,
}

/// Run the Model Context Protocol server over stdio.
#[derive(Debug, Clone)]
pub struct McpArgs {
    /// Default project directory to analyze.
    pub project: String,
}

/// Install the assistant skill file and configure MCP servers.
#[derive(Debug, Clone)]
pub struct SetupArgs {
    /// Install globally to the user profile config.
    pub global: bool,
    /// Install locally into the current workspace.
    pub workspace: bool,
    /// Target assistant environment (or `all`).
    pub target: String,
    /// Print the embedded SKILL.md to stdout and exit.
    pub print_skill: bool,
    /// Only install the skill file, do not modify MCP configs.
    pub skill_only: bool,
    /// Only configure the MCP server, do not install the skill file.
    pub mcp_only: bool,
    /// Custom target directory for the skill.
    pub skill_dir: Option<String>,
}

} // verus!

//! The logic behind each command: what it computes from the cache, apart from
//! how it reads its input and prints its output.

pub mod block_laws;
pub mod digest;
pub mod hook_settings;
pub mod hook_laws;
pub mod explain;
pub mod impact;
pub mod mcp;
pub mod path;
pub mod report;
pub mod search;
pub mod setup_integrations;
pub mod sync;

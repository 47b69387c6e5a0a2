//! The graph cache stored at `<project>/.code-rcl/cache.db`: its row types,
//! where it lives, and the computations over its rows.

pub mod models;
pub mod utils;

use vstd::prelude::*;
use crate::text::concat;

verus! {

/// Directory that holds all code-rcl project state.
pub const CODE_CTX_DIR: &'static str = ".code-rcl";
/// Cache database file name inside [`CODE_CTX_DIR`].
pub const DB_FILE: &'static str = "cache.db";

/// `base` joined with the relative path `part` (`Path::join`): a `/` goes
/// between them unless `base` is empty or already ends in one.
pub open spec fn path_join(base: Seq<char>, part: Seq<char>) -> Seq<char> {
    if base.len() == 0 {
        part
    } else if base.last() == '/' {
        base + part
    } else {
        base + "/"@ + part
    }
}

pub fn join_path(base: &str, part: &str) -> (r: String)
    ensures
        r@ == path_join(base@, part@),
{
    let c = crate::text::chars_of(base);
    if c.len() == 0 {
        part.to_string()
    } else if c[c.len() - 1] == '/' {
        concat(base, part)
    } else {
        let a = concat(base, "/");
        concat(a.as_str(), part)
    }
}

/// `<project>/.code-rcl`.
pub fn ctx_dir(project_root: &str) -> (r: String)
    ensures
        r@ == path_join(project_root@, CODE_CTX_DIR@),
{
    join_path(project_root, CODE_CTX_DIR)
}

/// `<project>/.code-rcl/cache.db`.
pub fn db_path(project_root: &str) -> (r: String)
    ensures
        r@ == path_join(path_join(project_root@, CODE_CTX_DIR@), DB_FILE@),
{
    let d = ctx_dir(project_root);
    join_path(d.as_str(), DB_FILE)
}

} // verus!

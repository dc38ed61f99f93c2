//! The command line: its commands and arguments, and where the graph database is.

use vstd::prelude::*;

use crate::pipeline::modules::{join_root, join_root_exec};
use crate::text::{chars_of, string_from_chars};

verus! {

/// Graph-powered Rust code intelligence.
#[derive(Debug)]
pub struct Cli {
    /// Output JSON instead of human-readable text.
    pub json: bool,
    pub command: Command,
}

/// A subcommand of the command line.
#[derive(Debug)]
pub enum Command {
    /// Index a Rust project into the graph.
    Index { path: String, output: Option<String> },
    /// Run a Datalog or named query against the graph.
    Query { db: Option<String>, query: String },
    /// Semantic search over the codebase.
    Search { db: Option<String>, query: String, case_insensitive: bool },
    /// Show index status and stats.
    Status { path: String },
    /// Watch for file changes and re-index.
    Watch { path: String, output: Option<String> },
    /// Find dead (unreachable) code.
    Dead { db: Option<String>, file: Option<String> },
    /// Show blast radius (transitive impact) of a node.
    Blast { db: Option<String>, node_id: String },
    /// Show callers of a node (reverse call graph).
    Callers { db: Option<String>, node_id: String, depth: u32 },
    /// Show full info for a node (type, payload, edges).
    Info { db: Option<String>, node_id: String },
    /// Show module containment graph.
    Modules { db: Option<String>, root: Option<String> },
    /// Show trait implementors.
    Traits { db: Option<String>, trait_name: String },
    /// Run the MCP server over stdio (for AI agents and IDEs).
    Mcp,
}

/// The name of the graph database in a project directory.
pub open spec fn db_name() -> Seq<char> {
    ".ferrograph"@
}

/// The message when no database path can be had.
pub open spec fn no_db_path_message() -> Seq<char> {
    "No graph database path (use --db or run from a directory with .ferrograph)"@
}

/// The default graph database: `.ferrograph` in the current directory, when it is known.
pub fn default_db_path(cwd: Option<&str>) -> (res: Option<String>)
    ensures
        match cwd {
            Some(c) => res matches Some(p) && p@ == join_root(c@, db_name()),
            None => res is None,
        },
{
    match cwd {
        Some(c) => {
            let p = join_root_exec(chars_of(c).as_slice(), chars_of(".ferrograph").as_slice());
            Some(string_from_chars(p.as_slice()))
        },
        None => None,
    }
}

/// The graph database to use: the one given with `--db`, else the default one in the current
/// directory; an error when neither can be had.
pub fn resolve_db_path(db: Option<&str>, cwd: Option<&str>) -> (res: Result<String, String>)
    ensures
        match db {
            Some(d) => res matches Ok(p) && p@ == d@,
            None => match cwd {
                Some(c) => res matches Ok(p) && p@ == join_root(c@, db_name()),
                None => res matches Err(e) && e@ == no_db_path_message(),
            },
        },
{
    match db {
        Some(d) => Ok(d.to_owned()),
        None => match default_db_path(cwd) {
            Some(p) => Ok(p),
            None => Err("No graph database path (use --db or run from a directory with .ferrograph)".to_owned()),
        },
    }
}

/// The graph database the status command reads: `.ferrograph` inside `path` when it is a
/// directory, else `path` itself.
pub fn status_db_path(path: &str, is_dir: bool) -> (res: String)
    ensures
        res@ == if is_dir {
            join_root(path@, db_name())
        } else {
            path@
        },
{
    if is_dir {
        let p = join_root_exec(chars_of(path).as_slice(), chars_of(".ferrograph").as_slice());
        string_from_chars(p.as_slice())
    } else {
        path.to_owned()
    }
}

} // verus!

//! How the daemon runs.

use vstd::prelude::*;

use crate::model::opt_text;

verus! {

/// How the daemon should run.
#[derive(Debug)]
pub struct ServeOptions {
    /// This node's id.
    pub node_id: String,
    /// If set, open the TCP surface on this address (e.g. `127.0.0.1:7878`).
    pub listen: Option<String>,
}

/// The name under which a node runs where none is given.
pub const DEFAULT_NODE: &'static str = "rrf";

impl Default for ServeOptions {
    fn default() -> (r: ServeOptions)
        ensures
            r.node_id@ == DEFAULT_NODE@,
            r.listen is None,
    {
        ServeOptions { node_id: DEFAULT_NODE.to_string(), listen: None }
    }
}

impl ServeOptions {
    /// The options that an environment asks for: a node's name and an address
    /// to listen on, each where it is given.
    pub fn from_settings(node: Option<String>, listen: Option<String>) -> (r: ServeOptions)
        ensures
            r.node_id@ == (match node {
                Some(n) => n@,
                None => DEFAULT_NODE@,
            }),
            opt_text(r.listen) == opt_text(listen),
    {
        let node_id = match node {
            Some(n) => n,
            None => DEFAULT_NODE.to_string(),
        };
        ServeOptions { node_id, listen }
    }
}

} // verus!

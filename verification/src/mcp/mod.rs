//! The tool server of a window: how it is found, what it answers, and how one window
//! drives another.
use vstd::prelude::*;

use crate::json::Json;

pub mod agents;
pub mod catalog;
pub mod discovery;
pub mod proxy;
pub mod relevance;
pub mod remote;
pub mod server;
pub mod tools;

verus! {

/// A running server: the port it is bound to and the token that opens it.
pub struct McpServer {
    pub port: u16,
    pub token: String,
}

impl McpServer {
    /// The advertisement of this window for another workspace: same port, same token, so
    /// that connections are not disturbed.
    pub fn set_workspace(&self, pid: u32, workspace: &str, windows: bool) -> (r: (String, Json))
        ensures
            r.0@ == discovery::lock_name(self.port),
            r.1@ == discovery::lock_of(pid, workspace@, windows, self.token@),
    {
        (
            discovery::lock_file_name(self.port),
            discovery::lock_body(pid, workspace, windows, self.token.as_str()),
        )
    }
}

} // verus!

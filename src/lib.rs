use vstd::prelude::*;

pub mod dispatch;
pub mod index;
pub mod indexer;
pub mod resolve;
pub mod token;
pub mod workspace;

verus! {

/// Failures that keep the server from establishing a workspace.
#[derive(Debug, Clone, Copy, PartialEq, Eq)]
pub enum LspError {
    /// No workspace folder could be resolved and the current directory is unknown.
    WorkspaceError,
    Unknown,
}

} // verus!

//! The parsed command surface.
//!
//! These types carry a parsed invocation as plain values; reading the
//! process arguments into them is the caller's business.

use vstd::prelude::*;

verus! {

/// A whole invocation.
pub struct FileshareArgs {
    pub commands: RootCommands,
}

/// How a conflict could be resolved automatically; configured but
/// never invoked.
pub enum AutoMergeCases {
    MostRecent,
    KeepOlder,
}

/// Options of a merge run; none are defined.
pub struct MergeOptions {}

/// The subcommand of an invocation.
pub enum RootCommands {
    /// Create a local copy of the remote repository.
    Clone { repository_url: String },
    /// Make this directory a repository.
    Init,
    /// Send local changes to the remote.
    Push,
    /// Fetch remote changes.
    Pull,
    /// Fetch and send changes.
    Sync,
    /// View the divergence from the remote.
    Status,
    /// Clear the authentication token.
    Logout,
    /// Obtain a new authentication token.
    Login { name: Option<String> },
    /// Show or set the editor command.
    Editor { editor: Option<EditorCommands> },
    /// Show or set the remote repository url.
    Remote { remote: Option<RemoteCommands> },
}

/// The editor subcommand.
pub enum EditorCommands {
    SetUrl { url: String },
}

/// The remote subcommand.
pub enum RemoteCommands {
    SetUrl { url: String },
}

} // verus!

//! The state that the application's commands share, and what they answer.
use vstd::prelude::*;

use crate::hosts_service::{default_hosts_path, hosts_path};

verus! {

/// The state shared by the commands: where the hosts file is.
#[derive(Debug, Default)]
pub struct AppState {
    pub hosts_path: String,
}

impl AppState {
    /// The state at startup: the hosts file at `XHOSTS_HOSTS_PATH` when it
    /// is set (`env_override`), else at the platform's default path.
    pub fn new(env_override: Option<&str>, target_windows: bool) -> (state: AppState)
        ensures
            state.hosts_path@ == match env_override {
                Some(p) => p@,
                None => default_hosts_path(target_windows),
            },
    {
        AppState { hosts_path: hosts_path(env_override, target_windows) }
    }
}

/// The answer of a successful sync with the remote hosts source.
pub fn sync_success_message() -> (m: String)
    ensures
        m@ == "Remote hosts synced successfully"@,
{
    "Remote hosts synced successfully".to_owned()
}

} // verus!

//! Startup argument handling: with a bind address the relay binds, without
//! one it only prints usage and exits.

use vstd::prelude::*;

verus! {

/// What the process does with its (single, optional) argument.
pub enum StartupAction {
    /// Bind a listening socket to this `host:port` address and run.
    Bind(String),
    /// Print the usage text and exit successfully, without binding.
    Usage,
}

/// Decides the startup action: a given argument is the bind address, no
/// argument means usage text only — no socket is ever bound then.
pub fn startup_action(arg: Option<String>) -> (r: StartupAction)
    ensures
        match arg {
            Some(a) => r matches StartupAction::Bind(b) && b@ == a@,
            None => r is Usage,
        },
{
    match arg {
        Some(a) => StartupAction::Bind(a),
        None => StartupAction::Usage,
    }
}

} // verus!

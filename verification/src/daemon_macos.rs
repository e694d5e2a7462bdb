//! The user-facing messages of the launch-agent setup. Registering,
//! loading and stopping the agent itself runs external commands and
//! belongs to the surrounding program.

use vstd::prelude::*;
use vstd::string::StringExecFns;

verus! {

/// The message shown once the launch agent is registered.
pub fn get_complete_messages() -> (r: String)
    ensures
        r@ == "Daemon setup is now completed!\nWhen you logs in a new launchd, PortSnippet process will be started by launchd.\n\nA plist file is saved as \"~/Library/LaunchAgents/launch-port-snippet.plist\"!\n"@,
{
    String::from_str(
        "Daemon setup is now completed!\nWhen you logs in a new launchd, PortSnippet process will be started by launchd.\n\nA plist file is saved as \"~/Library/LaunchAgents/launch-port-snippet.plist\"!\n",
    )
}

} // verus!

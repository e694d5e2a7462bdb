//! The user-facing messages of the Windows-service setup. Creating,
//! starting and deleting the service itself runs external commands and
//! belongs to the surrounding program.

use vstd::prelude::*;
use vstd::string::StringExecFns;

verus! {

/// The message shown once the service is registered.
pub fn get_complete_messages() -> (r: String)
    ensures
        r@ == "Daemon setup is now completed!\n\nPortSnippet is registerd for the Windows service.\nPortSnnipet(service) will automatically start each time your computer is restarted.\n\n\nPlease Exit ... (Ctrl + C)"@,
{
    String::from_str(
        "Daemon setup is now completed!\n\nPortSnippet is registerd for the Windows service.\nPortSnnipet(service) will automatically start each time your computer is restarted.\n\n\nPlease Exit ... (Ctrl + C)",
    )
}

} // verus!

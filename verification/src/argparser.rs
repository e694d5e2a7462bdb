//! Command-line argument interpretation: which mode the process was asked
//! to run in.

use vstd::prelude::*;
use vstd::string::StringExecFns;

verus! {

/// How the process was launched.
#[derive(Debug, PartialEq, Eq)]
pub enum LaunchType {
    Man,
    Daemon,
    Stop,
    Restart,
    Help,
}

struct Params {
    man: String,
    daemon: String,
    stop: String,
    restart: String,
    help: String,
}

/// The launch type an argument vector selects: with anything but exactly
/// one argument the process runs interactively; `AUTO_LAUNCH`, `-m` and
/// `man` start the watcher; `-s`/`stop`, `-r`/`restart` and `-h`/`help`
/// name the service actions; anything else runs interactively.
pub open spec fn detect_spec(args: Seq<Seq<char>>) -> LaunchType {
    if args.len() != 2 {
        LaunchType::Man
    } else if args[1] == "AUTO_LAUNCH"@ || args[1] == "-m"@ || args[1] == "man"@ {
        LaunchType::Daemon
    } else if args[1] == "-s"@ || args[1] == "stop"@ {
        LaunchType::Stop
    } else if args[1] == "-r"@ || args[1] == "restart"@ {
        LaunchType::Restart
    } else if args[1] == "-h"@ || args[1] == "help"@ {
        LaunchType::Help
    } else {
        LaunchType::Man
    }
}

/// The accepted parameter spellings, short or long.
fn get_params(short: bool) -> (r: Params)
    ensures
        r.man@ == if short {
            "-m"@
        } else {
            "man"@
        },
        r.daemon@ == if short {
            "-A"@
        } else {
            "AUTO_LAUNCH"@
        },
        r.stop@ == if short {
            "-s"@
        } else {
            "stop"@
        },
        r.restart@ == if short {
            "-r"@
        } else {
            "restart"@
        },
        r.help@ == if short {
            "-h"@
        } else {
            "help"@
        },
{
    if short {
        Params {
            man: String::from_str("-m"),
            daemon: String::from_str("-A"),
            stop: String::from_str("-s"),
            restart: String::from_str("-r"),
            help: String::from_str("-h"),
        }
    } else {
        Params {
            man: String::from_str("man"),
            daemon: String::from_str("AUTO_LAUNCH"),
            stop: String::from_str("stop"),
            restart: String::from_str("restart"),
            help: String::from_str("help"),
        }
    }
}

/// Reads the launch type off the argument vector.
pub fn detect_type(args: Vec<String>) -> (r: LaunchType)
    ensures
        r == detect_spec(args.deep_view()),
{
    proof {
        assert(args.deep_view().len() == args@.len());
    }
    if args.len() != 2 {
        return LaunchType::Man;
    }
    proof {
        assert(args.deep_view()[1] == args@[1]@);
    }
    let arg = &args[1];
    if crate::chars::str_eq(arg.as_str(), "AUTO_LAUNCH") {
        return LaunchType::Daemon;
    }
    let shorts = get_params(true);
    let longs = get_params(false);
    if crate::chars::str_eq(arg.as_str(), shorts.man.as_str()) || crate::chars::str_eq(
        arg.as_str(),
        longs.man.as_str(),
    ) {
        LaunchType::Daemon
    } else if crate::chars::str_eq(arg.as_str(), shorts.stop.as_str()) || crate::chars::str_eq(
        arg.as_str(),
        longs.stop.as_str(),
    ) {
        LaunchType::Stop
    } else if crate::chars::str_eq(arg.as_str(), shorts.restart.as_str()) || crate::chars::str_eq(
        arg.as_str(),
        longs.restart.as_str(),
    ) {
        LaunchType::Restart
    } else if crate::chars::str_eq(arg.as_str(), shorts.help.as_str()) || crate::chars::str_eq(
        arg.as_str(),
        longs.help.as_str(),
    ) {
        LaunchType::Help
    } else {
        LaunchType::Man
    }
}

/// Accepts the help command; there is no help text to print.
pub fn print_help() {
}

} // verus!

use port_snippet::argparser::{detect_type, LaunchType};

// util

fn gen_mock_args(arg: &str) -> Vec<String> {
    return vec!["MOCK_EXE_PATH".to_string(), arg.to_string()];
}

// shorts

#[test]
fn daemon_valid() {
    let launch_type = detect_type(gen_mock_args("AUTO_LAUNCH"));
    assert_eq!(launch_type, LaunchType::Daemon);
}

#[test]
fn short_daemon_invalid() {
    let launch_type = detect_type(gen_mock_args("A"));
    assert_ne!(launch_type, LaunchType::Daemon); // not!
}

#[test]
fn short_man_valid() {
    let launch_type = detect_type(gen_mock_args("-m"));
    assert_eq!(launch_type, LaunchType::Daemon);
}

#[test]
fn short_stop_valid() {
    let launch_type = detect_type(gen_mock_args("-s"));
    assert_eq!(launch_type, LaunchType::Stop);
}

#[test]
fn short_restart_valid() {
    let launch_type = detect_type(gen_mock_args("-r"));
    assert_eq!(launch_type, LaunchType::Restart);
}

#[test]
fn short_help_valid() {
    let launch_type = detect_type(gen_mock_args("-h"));
    assert_eq!(launch_type, LaunchType::Help);
}

// long

#[test]
fn long_man_valid() {
    let launch_type = detect_type(gen_mock_args("man"));
    assert_eq!(launch_type, LaunchType::Daemon);
}

#[test]
fn long_stop_valid() {
    let launch_type = detect_type(gen_mock_args("stop"));
    assert_eq!(launch_type, LaunchType::Stop);
}

#[test]
fn long_restart_valid() {
    let launch_type = detect_type(gen_mock_args("restart"));
    assert_eq!(launch_type, LaunchType::Restart);
}

#[test]
fn long_help_valid() {
    let launch_type = detect_type(gen_mock_args("help"));
    assert_eq!(launch_type, LaunchType::Help);
}

// no argument or too many arguments: interactive mode

#[test]
fn no_argument_is_man() {
    let launch_type = detect_type(vec!["MOCK_EXE_PATH".to_string()]);
    assert_eq!(launch_type, LaunchType::Man);
}

#[test]
fn unknown_argument_is_man() {
    let launch_type = detect_type(gen_mock_args("frobnicate"));
    assert_eq!(launch_type, LaunchType::Man);
}

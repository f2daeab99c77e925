use path_editor::elevation::{
    broadcast_env_change, launch_outcome, quote_arg, relaunch_arguments, restart_as_admin, LaunchError,
    BROADCAST_TIMEOUT_MS,
};

fn wide(s: &str) -> Vec<u16> {
    s.encode_utf16().chain(Some(0)).collect()
}

fn strings(items: &[&str]) -> Vec<String> {
    items.iter().map(|s| s.to_string()).collect()
}

#[test]
fn plain_argument_is_not_quoted() {
    assert_eq!(quote_arg("--verbose"), "--verbose");
    assert_eq!(quote_arg("C:\\Tools\\x.exe"), "C:\\Tools\\x.exe");
    assert_eq!(quote_arg(""), "");
    assert_eq!(quote_arg("a\tb"), "a\tb");
}

#[test]
fn argument_with_space_is_quoted() {
    assert_eq!(quote_arg("C:\\Program Files\\x"), "\"C:\\Program Files\\x\"");
    assert_eq!(quote_arg(" "), "\" \"");
}

#[test]
fn argument_with_quote_is_escaped() {
    assert_eq!(quote_arg("say\"hi\""), "\"say\\\"hi\\\"\"");
    assert_eq!(quote_arg("\""), "\"\\\"\"");
    assert_eq!(quote_arg("a \"b\" c"), "\"a \\\"b\\\" c\"");
}

#[test]
fn arguments_are_joined_with_spaces() {
    assert_eq!(relaunch_arguments(&strings(&["-a", "b c", "d\"e"])), "-a \"b c\" \"d\\\"e\"");
    assert_eq!(relaunch_arguments(&strings(&["one"])), "one");
    assert_eq!(relaunch_arguments(&[]), "");
    assert_eq!(relaunch_arguments(&strings(&["", ""])), " ");
}

#[test]
fn relaunch_asks_for_runas() {
    let request = restart_as_admin("C:\\Apps\\editor.exe", &strings(&["--x", "a b"]));
    assert_eq!(request.operation, wide("runas"));
    assert_eq!(request.file, wide("C:\\Apps\\editor.exe"));
    assert_eq!(request.parameters, Some(wide("--x \"a b\"")));
}

#[test]
fn relaunch_without_arguments_passes_none() {
    let request = restart_as_admin("C:\\Apps\\editor.exe", &[]);
    assert_eq!(request.parameters, None);
    let request = restart_as_admin("e.exe", &strings(&[""]));
    assert_eq!(request.parameters, None);
}

#[test]
fn launch_codes_up_to_32_are_failures() {
    assert_eq!(launch_outcome(32), Err(LaunchError { code: 32 }));
    assert_eq!(launch_outcome(5), Err(LaunchError { code: 5 }));
    assert_eq!(launch_outcome(0), Err(LaunchError { code: 0 }));
    assert_eq!(launch_outcome(-1), Err(LaunchError { code: -1 }));
}

#[test]
fn launch_codes_above_32_are_success() {
    assert_eq!(launch_outcome(33), Ok(()));
    assert_eq!(launch_outcome(42), Ok(()));
    assert_eq!(launch_outcome(isize::MAX), Ok(()));
}

#[test]
fn broadcast_names_the_environment() {
    let request = broadcast_env_change();
    assert_eq!(request.setting, wide("Environment"));
    assert_eq!(request.timeout_ms, 2000);
    assert_eq!(BROADCAST_TIMEOUT_MS, 2000);
}

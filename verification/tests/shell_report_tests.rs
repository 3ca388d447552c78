use pty_core::report::FailureInfo;
use pty_core::shell::{resolve_shell, session_env};

#[test]
fn windows_shell_has_no_args() {
    let cmd = resolve_shell(true, Some("/bin/bash".to_string()));
    assert_eq!(cmd.program, "powershell.exe");
    assert!(cmd.args.is_empty());
}

#[test]
fn unix_default_is_login_zsh() {
    let cmd = resolve_shell(false, None);
    assert_eq!(cmd.program, "/bin/zsh");
    assert_eq!(cmd.args, vec!["-l".to_string()]);
}

#[test]
fn unix_override_is_honored() {
    let cmd = resolve_shell(false, Some("/bin/bash".to_string()));
    assert_eq!(cmd.program, "/bin/bash");
    assert_eq!(cmd.args, vec!["-l".to_string()]);
}

#[test]
fn env_fixed_entries() {
    let env = session_env(None, None, None);
    let pairs: Vec<(String, String)> =
        env.iter().map(|v| (v.name.clone(), v.value.clone())).collect();
    assert_eq!(
        pairs,
        vec![
            ("TERM".to_string(), "xterm-256color".to_string()),
            ("SHELL_SESSIONS_DISABLE".to_string(), "1".to_string()),
            ("LANG".to_string(), "en_US.UTF-8".to_string()),
            ("LC_ALL".to_string(), "en_US.UTF-8".to_string()),
        ]
    );
}

#[test]
fn env_passthrough_when_present() {
    let env = session_env(
        Some("/home/me".to_string()),
        Some("/usr/bin".to_string()),
        Some("me".to_string()),
    );
    assert_eq!(env.len(), 7);
    assert_eq!(env[4].name, "HOME");
    assert_eq!(env[4].value, "/home/me");
    assert_eq!(env[5].name, "PATH");
    assert_eq!(env[5].value, "/usr/bin");
    assert_eq!(env[6].name, "USER");
    assert_eq!(env[6].value, "me");
}

#[test]
fn env_partial_passthrough() {
    let env = session_env(None, Some("/usr/bin".to_string()), None);
    assert_eq!(env.len(), 5);
    assert_eq!(env[4].name, "PATH");
    assert_eq!(env[4].value, "/usr/bin");
}

#[test]
fn failure_report_body() {
    let info = FailureInfo {
        payload: Some("boom".to_string()),
        location: Some("src/lib.rs:1:1".to_string()),
    };
    assert_eq!(info.render(), "[panic] boom\nlocation: src/lib.rs:1:1");
}

#[test]
fn failure_report_defaults() {
    let info = FailureInfo { payload: None, location: None };
    assert_eq!(
        info.render(),
        "[panic] unknown panic payload\nlocation: unknown location"
    );
}

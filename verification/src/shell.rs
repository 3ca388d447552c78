//! Shell resolution and the child-process environment contract.
//!
//! Pure functions of the host platform and of the caller's environment
//! values: which shell to start, with which arguments, and which environment
//! variables the child receives.

use vstd::prelude::*;

verus! {

/// The shell to start: its program and arguments.
pub struct ShellCommand {
    pub program: String,
    pub args: Vec<String>,
}

/// One environment variable handed to the child process.
pub struct EnvVar {
    pub name: String,
    pub value: String,
}

/// Picks the interactive shell. On Windows it is the platform default with
/// no arguments; elsewhere it is the caller's override when one is set, the
/// fixed default otherwise, started as a login shell so profile-configured
/// environment is honored.
pub fn resolve_shell(is_windows: bool, shell_override: Option<String>) -> (r: ShellCommand)
    ensures
        is_windows ==> r.program@ == "powershell.exe"@ && r.args@.len() == 0,
        !is_windows ==> r.args@.len() == 1 && r.args@[0]@ == "-l"@,
        !is_windows ==> (match shell_override {
            Option::Some(s) => r.program@ == s@,
            Option::None => r.program@ == "/bin/zsh"@,
        }),
{
    if is_windows {
        ShellCommand { program: "powershell.exe".to_owned(), args: Vec::new() }
    } else {
        let program = match shell_override {
            Option::Some(s) => s,
            Option::None => "/bin/zsh".to_owned(),
        };
        let mut args: Vec<String> = Vec::new();
        args.push("-l".to_owned());
        ShellCommand { program, args }
    }
}

/// The environment the child is started with: a 256-color xterm terminal
/// type, shell-session persistence disabled, a fixed UTF-8 locale, and
/// HOME, PATH and USER passed through exactly when the caller's environment
/// has them.
pub fn session_env(home: Option<String>, path: Option<String>, user: Option<String>) -> (r: Vec<
    EnvVar,
>)
    ensures
        ({
            let ho: int = if home is Some { 1 } else { 0 };
            let po: int = if path is Some { 1 } else { 0 };
            let uo: int = if user is Some { 1 } else { 0 };
            &&& r@.len() == 4 + ho + po + uo
            &&& r@[0].name@ == "TERM"@ && r@[0].value@ == "xterm-256color"@
            &&& r@[1].name@ == "SHELL_SESSIONS_DISABLE"@ && r@[1].value@ == "1"@
            &&& r@[2].name@ == "LANG"@ && r@[2].value@ == "en_US.UTF-8"@
            &&& r@[3].name@ == "LC_ALL"@ && r@[3].value@ == "en_US.UTF-8"@
            &&& (home matches Some(h) ==> (r@[4].name@ == "HOME"@ && r@[4].value@ == h@))
            &&& (path matches Some(p) ==> (r@[4 + ho].name@ == "PATH"@ && r@[4 + ho].value@
                == p@))
            &&& (user matches Some(u) ==> (r@[4 + ho + po].name@ == "USER"@ && r@[4 + ho
                + po].value@ == u@))
        }),
{
    let mut r: Vec<EnvVar> = Vec::new();
    r.push(EnvVar { name: "TERM".to_owned(), value: "xterm-256color".to_owned() });
    r.push(EnvVar { name: "SHELL_SESSIONS_DISABLE".to_owned(), value: "1".to_owned() });
    r.push(EnvVar { name: "LANG".to_owned(), value: "en_US.UTF-8".to_owned() });
    r.push(EnvVar { name: "LC_ALL".to_owned(), value: "en_US.UTF-8".to_owned() });
    match home {
        Option::Some(h) => {
            r.push(EnvVar { name: "HOME".to_owned(), value: h });
        },
        Option::None => {},
    }
    match path {
        Option::Some(p) => {
            r.push(EnvVar { name: "PATH".to_owned(), value: p });
        },
        Option::None => {},
    }
    match user {
        Option::Some(u) => {
            r.push(EnvVar { name: "USER".to_owned(), value: u });
        },
        Option::None => {},
    }
    r
}

} // verus!

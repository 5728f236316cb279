//! The boundary to the outside world: glob matching, shell execution,
//! terminal probing and console output.  Each function here wraps one
//! facility of an outside crate (or of std) and carries the contract that
//! the rest of the library is verified against.

use std::io::Write;
use vstd::prelude::*;

verus! {

/// Whether a glob pattern is well formed, as `glob::Pattern::new` decides
/// it.
pub uninterp spec fn glob_pattern_ok(pattern: Seq<char>) -> bool;

/// Whether a name matches a well-formed glob pattern, as
/// `glob::Pattern::matches` decides it: a pure function of the pattern and
/// the name.
pub uninterp spec fn glob_matches(pattern: Seq<char>, name: Seq<char>) -> bool;

/// Relies on glob::Pattern::new: it returns `Ok` exactly on the patterns
/// the glob crate accepts, and its verdict depends on the pattern alone.
#[verifier::external_body]
pub fn glob_pattern_valid(pattern: &str) -> (r: bool)
    ensures
        r == glob_pattern_ok(pattern@),
{
    glob::Pattern::new(pattern).is_ok()
}

/// Relies on glob::Pattern::new and glob::Pattern::matches: compiling a
/// well-formed pattern succeeds, and matching is a pure function of the
/// pattern and the matched name (default match options).
#[verifier::external_body]
pub fn glob_match(pattern: &str, name: &str) -> (r: bool)
    requires
        glob_pattern_ok(pattern@),
    ensures
        r == glob_matches(pattern@, name@),
{
    match glob::Pattern::new(pattern) {
        Ok(p) => p.matches(name),
        Err(_) => false,
    }
}

/// Relies on subprocess::Exec::shell and Exec::capture: runs the command
/// with the system shell, waits for it, and hands back captured standard
/// output with the exit code and signal.  `None` when the process could
/// not be spawned.  Nothing can be promised of the outcome: it depends on
/// the machine.
#[verifier::external_body]
pub fn shell_capture(command: &str) -> (r: Option<(String, Option<u32>, Option<i32>)>)
{
    match subprocess::Exec::shell(command).capture() {
        Ok(cap) => {
            let out = cap.stdout_str();
            Some((out, cap.exit_status.code(), cap.exit_status.signal()))
        },
        Err(_) => None,
    }
}

/// Relies on subprocess::Exec::shell, arg, args, cwd, env and join: runs
/// the command with the system shell in the given working directory, with
/// the given variables layered over the inherited environment and the
/// extra arguments appended, and waits for its exit code and signal.
/// `None` when the process could not be spawned.  Nothing can be promised
/// of the outcome: it depends on the machine.
#[verifier::external_body]
pub fn shell_run(
    command: &str,
    cwd: &str,
    current_exe: &str,
    arguments: &Vec<String>,
    env: &Vec<(String, String)>,
) -> (r: Option<(Option<u32>, Option<i32>)>)
{
    let mut exec = subprocess::Exec::shell(command).arg(current_exe).args(arguments).cwd(cwd);
    for (k, v) in env {
        exec = exec.env(k, v);
    }
    match exec.join() {
        Ok(status) => Some((status.code(), status.signal())),
        Err(_) => None,
    }
}

/// Relies on std::path::Path::exists: whether the path names anything on
/// disk right now.  Nothing can be promised of the answer.
#[verifier::external_body]
pub fn path_exists(path: &str) -> (r: bool)
{
    std::path::Path::new(path).exists()
}

/// Relies on atty::is: whether standard output is a terminal.  Nothing can
/// be promised of the answer.
#[verifier::external_body]
pub fn stdout_is_tty() -> (r: bool)
{
    atty::is(atty::Stream::Stdout)
}

/// Relies on yansi::disable: switches colored output off globally.
#[verifier::external_body]
pub fn disable_terminal_colors() {
    yansi::disable()
}

/// Relies on std::io::Stderr: writes one line to standard error.
#[verifier::external_body]
pub fn eprint_line(line: &str) {
    let _ = writeln!(std::io::stderr(), "{}", line);
}

/// Relies on std::io::Stdout: writes one line to standard output.
#[verifier::external_body]
pub fn print_line(line: &str) {
    let _ = writeln!(std::io::stdout(), "{}", line);
}

} // verus!

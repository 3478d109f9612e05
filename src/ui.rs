use std::io::Write;
use vstd::prelude::*;

verus! {

#[verifier::external_type_specification]
#[verifier::external_body]
pub struct ExStdout(std::io::Stdout);

#[verifier::external_type_specification]
#[verifier::external_body]
pub struct ExIoError(std::io::Error);

/// Where the store lives.
pub struct Config {
    pub db_path: String,
}

/// Reads keys, lines and choices from the terminal.
pub struct InputHandler;

/// Draws the task list, a task's details and the menus.
pub struct TaskRenderer;

/// The terminal the views are drawn on.
pub struct TerminalRenderer {
    stdout: std::io::Stdout,
}

/// Relies on `std::io::stdout`: a handle to the process's standard output.
#[verifier::external_body]
fn standard_output() -> std::io::Stdout {
    std::io::stdout()
}

/// Relies on `Write::flush` for `Stdout`: writes out what is buffered.
#[verifier::external_body]
fn flush_output(out: &mut std::io::Stdout) -> std::io::Result<()> {
    out.flush()
}

impl TerminalRenderer {
    /// A renderer on standard output.
    pub fn new() -> TerminalRenderer {
        TerminalRenderer { stdout: standard_output() }
    }

    /// Writes out what was queued for the terminal.
    pub fn flush(&mut self) -> Result<(), std::io::Error> {
        flush_output(&mut self.stdout)
    }
}

} // verus!

//! Opening a file with the operating system's default application.

use vstd::prelude::*;
use vstd::string::*;
use crate::messages::{open_failed_message, open_failed_text};

verus! {

/// The family of operating systems that the program was built for. It is a
/// build-time fact: callers fix it once and never probe for it.
#[derive(Debug, Clone, Copy)]
pub enum Platform {
    Linux,
    MacOs,
    Windows,
    /// Any other target. It has no launcher.
    Other,
}

/// A process to start: the program and its arguments, in order.
#[derive(Debug)]
pub struct LaunchCommand {
    pub program: String,
    pub args: Vec<String>,
}

/// The mathematical value of a [`LaunchCommand`].
pub struct LaunchCommandView {
    pub program: Seq<char>,
    pub args: Seq<Seq<char>>,
}

impl View for LaunchCommand {
    type V = LaunchCommandView;

    open spec fn view(&self) -> LaunchCommandView {
        LaunchCommandView { program: self.program@, args: self.args.deep_view() }
    }
}

/// What came of starting the launcher.
#[derive(Debug)]
pub enum LaunchOutcome {
    /// The platform has no launcher, so none was started.
    NotAttempted,
    /// The launcher process was created. Nothing is known of what it did.
    Started,
    /// The process could not be created; the operating system's error text.
    Failed(String),
}

/// The launcher of each platform, applied to `path`. The path is handed on
/// as it is: whether it exists is the launcher's business.
pub open spec fn launcher(platform: Platform, path: Seq<char>) -> Option<LaunchCommandView> {
    match platform {
        Platform::Linux => Some(LaunchCommandView { program: "xdg-open"@, args: seq![path] }),
        Platform::MacOs => Some(LaunchCommandView { program: "open"@, args: seq![path] }),
        Platform::Windows => Some(
            LaunchCommandView { program: "cmd"@, args: seq!["/C"@, "start"@, ""@, path] },
        ),
        Platform::Other => None,
    }
}

/// The command that opens `path` with the default application on `platform`,
/// or `None` where the platform has no launcher.
pub fn launch_command(platform: Platform, path: &str) -> (command: Option<LaunchCommand>)
    ensures
        match command {
            Some(c) => launcher(platform, path@) == Some(c@),
            None => launcher(platform, path@) is None,
        },
{
    let mut args: Vec<String> = Vec::new();
    let program = match platform {
        Platform::Linux => "xdg-open",
        Platform::MacOs => "open",
        Platform::Windows => {
            args.push("/C".to_owned());
            args.push("start".to_owned());
            args.push("".to_owned());
            "cmd"
        },
        Platform::Other => {
            return None;
        },
    };
    args.push(path.to_owned());
    let command = LaunchCommand { program: program.to_owned(), args };
    proof {
        assert(command@.args =~= launcher(platform, path@)->0.args);
    }
    Some(command)
}

/// Turns the outcome of starting the launcher into the handler's answer.
///
/// Success means that the process was created, or that there was none to
/// create; it says nothing of whether the file opened. A process that could
/// not be created is a failure that carries the operating system's text.
pub fn open_file(outcome: LaunchOutcome) -> (result: Result<(), String>)
    ensures
        match outcome {
            LaunchOutcome::Failed(os_error) => result matches Err(message) && message@
                == open_failed_text(os_error@),
            _ => result is Ok,
        },
{
    match outcome {
        LaunchOutcome::Failed(os_error) => Err(open_failed_message(os_error.as_str())),
        _ => Ok(()),
    }
}

} // verus!

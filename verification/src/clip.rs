//! Copying through a shell command, and what its exit tells of the copy.

use vstd::prelude::*;
use crate::text::{utf8, signed_decimal, push_str, push_signed_decimal};

verus! {

/// Where copied text goes: to the standard input of a shell command.
#[derive(Debug)]
pub enum ClipProvider {
    CommandClipboard(String),
}

/// Why a copy failed.
#[derive(Debug)]
pub struct ClipError(pub String);

impl ClipError {
    /// The description of the failure.
    pub fn message(&self) -> (s: String)
        ensures
            s@ == self.0@,
    {
        self.0.clone()
    }
}

/// How a shell command ended: its exit code, if it exited rather than being
/// killed by a signal, and whether it succeeded.
#[derive(Copy, Clone, Debug)]
pub struct CommandExit {
    pub code: Option<i32>,
    pub success: bool,
}

/// The text of the failure of a command that exited with `code`.
pub open spec fn failed_status_message(code: i32) -> Seq<u8> {
    utf8("Command failed with status code "@) + signed_decimal(code as int)
}

/// `r` is the result of a copy whose command ran as `status` tells: the
/// error of running it, the failure of a command that exited unsuccessfully
/// or was killed, or success.
pub open spec fn is_outcome(status: Result<CommandExit, String>, r: Result<(), ClipError>) -> bool {
    match status {
        Err(e) => r matches Err(c) && c.0@ == e@,
        Ok(exit) => match exit.code {
            Some(code) => if exit.success {
                r is Ok
            } else {
                r matches Err(c) && utf8(c.0@) == failed_status_message(code)
            },
            None => r matches Err(c) && c.0@ == "Command terminated by signal"@,
        },
    }
}

/// The result of a copy through a shell command, from how running the
/// command went.
pub fn command_outcome(status: Result<CommandExit, String>) -> (r: Result<(), ClipError>)
    ensures
        is_outcome(status, r),
{
    match status {
        Err(e) => Err(ClipError(e)),
        Ok(exit) => match exit.code {
            Some(code) => {
                if !exit.success {
                    let mut s = String::new();
                    push_str(&mut s, "Command failed with status code ");
                    push_signed_decimal(&mut s, code);
                    proof {
                        assert(utf8(Seq::<char>::empty()) =~= Seq::<u8>::empty());
                        assert(utf8(s@) =~= failed_status_message(code));
                    }
                    Err(ClipError(s))
                } else {
                    Ok(())
                }
            },
            None => Err(ClipError("Command terminated by signal".to_owned())),
        },
    }
}


impl ClipProvider {
    /// Copies `content` by handing it, with the shell command, to `run`,
    /// which runs the command with `content` as its standard input and tells
    /// how it ended; the result says whether the copy succeeded.
    pub fn copy<F: FnOnce(&str, String) -> Result<CommandExit, String>>(
        &mut self,
        content: String,
        run: F,
    ) -> (r: Result<(), ClipError>)
        requires
            match *old(self) {
                ClipProvider::CommandClipboard(cmd) => forall|c: &str|
                    c@ == cmd@ ==> #[trigger] run.requires((c, content)),
            },
        ensures
            *final(self) == *old(self),
            match *old(self) {
                ClipProvider::CommandClipboard(cmd) => exists|
                    c: &str,
                    status: Result<CommandExit, String>,
                |
                    c@ == cmd@ && #[trigger] run.ensures((c, content), status) && is_outcome(
                        status,
                        r,
                    ),
            },
    {
        match self {
            ClipProvider::CommandClipboard(shell_command) => {
                let status = run(shell_command.as_str(), content);
                command_outcome(status)
            },
        }
    }
}

} // verus!

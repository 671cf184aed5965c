//! What the interactive shell answers to a command, once the line has
//! been split into words and the command has been told apart from its
//! arguments.

use vstd::prelude::*;
use vstd::string::*;
use crate::metacommand::{handle_metacommand, MetacommandError, spec_parse};
use crate::sql_parser::{char_is_whitespace, is_whitespace};

verus! {

/// What the shell does with a command: the text that it prints, and
/// whether it exits afterwards.
#[derive(Debug, Clone, PartialEq, Eq)]
pub struct Reply {
    pub text: String,
    pub quit: bool,
}

/// Why the shell has no reply to a command.
#[derive(Debug, Clone, Copy, PartialEq, Eq, Structural)]
pub enum ReplError {
    /// The command starts with a dot but is no known metacommand.
    Metacommand(MetacommandError),
    /// The command is known to the command line but does nothing yet.
    Unimplemented,
}

/// What the loop of the shell does next.
#[derive(Debug, Clone, Copy, PartialEq, Eq, Structural)]
pub enum LoopAction {
    /// The line is blank: read the next one.
    Skip,
    /// The line is to be answered.
    Respond,
    /// The line has been answered: read the next one.
    Proceed,
    /// The line could not be answered: print the error, then read the
    /// next one.
    Report,
    /// The line asked the shell to quit: leave the loop.
    Stop,
}

/// Whether a line holds nothing but whitespace.
pub open spec fn is_blank(line: Seq<char>) -> bool {
    forall|i: int| 0 <= i < line.len() ==> char_is_whitespace(#[trigger] line[i])
}

/// What the loop does with a line: before the line has been answered
/// (`outcome` is `None`) a blank line is skipped and any other is to be
/// answered; afterwards the loop stops when the answer asked for it,
/// reports an error, and otherwise goes on.
pub open spec fn spec_next_action(line: Seq<char>, outcome: Option<Result<bool, ()>>) -> LoopAction {
    if is_blank(line) {
        LoopAction::Skip
    } else {
        match outcome {
            None => LoopAction::Respond,
            Some(Ok(true)) => LoopAction::Stop,
            Some(Ok(false)) => LoopAction::Proceed,
            Some(Err(_)) => LoopAction::Report,
        }
    }
}

/// Decides what the loop of the shell does next with a line that it has
/// read, given what answering the line came to, if it has been answered.
pub fn next_action(line: &str, outcome: Option<Result<bool, ()>>) -> (a: LoopAction)
    ensures
        a == spec_next_action(line@, outcome),
{
    let n = line.unicode_len();
    let mut i: usize = 0;
    let mut blank = true;
    while i < n && blank
        invariant
            i <= n,
            n == line@.len(),
            blank ==> forall|j: int| 0 <= j < i ==> char_is_whitespace(#[trigger] line@[j]),
            !blank ==> !is_blank(line@),
        decreases n - i + if blank { 1int } else { 0int },
    {
        if !is_whitespace(line.get_char(i)) {
            blank = false;
        } else {
            i = i + 1;
        }
    }
    if blank {
        return LoopAction::Skip;
    }
    match outcome {
        None => LoopAction::Respond,
        Some(Ok(true)) => LoopAction::Stop,
        Some(Ok(false)) => LoopAction::Proceed,
        Some(Err(_)) => LoopAction::Report,
    }
}

/// Whether a command is a dot-command.
pub open spec fn is_dot_command(cmd: Seq<char>) -> bool {
    cmd.len() > 0 && cmd[0] == '.'
}

/// Whether the shell hands a command on to the metacommands: every
/// dot-command but `.exit`.
pub open spec fn is_metacommand(cmd: Seq<char>) -> bool {
    cmd != ".exit"@ && is_dot_command(cmd)
}

/// Tells whether a command is handed on to the metacommands.
pub fn runs_metacommand(cmd: &str) -> (r: bool)
    ensures
        r == is_metacommand(cmd@),
{
    let owned = cmd.to_owned();
    if owned == ".exit".to_owned() {
        return false;
    }
    cmd.unicode_len() > 0 && cmd.get_char(0) == '.'
}

impl ReplError {
    /// What the shell has written by the time the error comes up: a
    /// metacommand's heading is written before the command is read.
    pub open spec fn spec_written_before(self) -> Seq<char> {
        match self {
            ReplError::Metacommand(_) => "calling metacommand: \n"@,
            ReplError::Unimplemented => ""@,
        }
    }

    /// The text that the shell writes before it reports the error.
    pub fn written_before(&self) -> (r: String)
        ensures
            r@ == self.spec_written_before(),
    {
        match self {
            ReplError::Metacommand(_) => "calling metacommand: \n".to_owned(),
            ReplError::Unimplemented => "".to_owned(),
        }
    }
}

/// The text that the shell prints for a command, and whether it exits.
pub open spec fn spec_reply(cmd: Seq<char>) -> Result<(Seq<char>, bool), ReplError> {
    if cmd == "ping"@ {
        Ok(("Pong"@, false))
    } else if cmd == ".exit"@ {
        Ok(("Exiting ..."@, true))
    } else if is_dot_command(cmd) {
        match spec_parse(cmd) {
            Some(c) => Ok(("calling metacommand: \n"@ + c.spec_name(), false)),
            None => Err(ReplError::Metacommand(MetacommandError::Unknown)),
        }
    } else {
        Err(ReplError::Unimplemented)
    }
}

/// Answers a command of the shell: `ping` gets a pong, `.exit` ends the
/// shell, and any other dot-command is run as a metacommand.
pub fn reply_to(cmd: &str) -> (r: Result<Reply, ReplError>)
    ensures
        match spec_reply(cmd@) {
            Ok((text, quit)) => r is Ok && r->Ok_0.text@ == text && r->Ok_0.quit == quit,
            Err(e) => r == Err::<Reply, ReplError>(e),
        },
{
    let owned = cmd.to_owned();
    if owned == "ping".to_owned() {
        return Ok(Reply { text: "Pong".to_owned(), quit: false });
    }
    if owned == ".exit".to_owned() {
        return Ok(Reply { text: "Exiting ...".to_owned(), quit: true });
    }
    if cmd.unicode_len() > 0 && cmd.get_char(0) == '.' {
        match handle_metacommand(cmd) {
            Ok(name) => {
                let mut text = "calling metacommand: \n".to_owned();
                text.append(name.as_str());
                Ok(Reply { text, quit: false })
            },
            Err(e) => Err(ReplError::Metacommand(e)),
        }
    } else {
        Err(ReplError::Unimplemented)
    }
}

} // verus!

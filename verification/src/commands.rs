//! Ex commands typed in the preview editor (`:w`, `:q`, `:wq`).
use vstd::prelude::*;
use crate::chars::str_eq;

verus! {

/// What an ex command asks of the application.
#[derive(Debug, Clone, Copy, PartialEq, Eq, Structural)]
pub enum EditorCommand {
    /// `:w`: save the file.
    Save,
    /// `:q`: leave the full-screen preview and focus the search.
    Close,
    /// `:wq`: save the file and quit.
    SaveAndQuit,
    /// Anything else: nothing.
    Unknown,
}

/// The action for the ex command `cmd`.
pub open spec fn command_for(cmd: Seq<char>) -> EditorCommand {
    if cmd == "w"@ {
        EditorCommand::Save
    } else if cmd == "q"@ {
        EditorCommand::Close
    } else if cmd == "wq"@ {
        EditorCommand::SaveAndQuit
    } else {
        EditorCommand::Unknown
    }
}

/// Decides what the ex command `cmd` does.
pub fn execute_command(cmd: &str) -> (r: EditorCommand)
    ensures
        r == command_for(cmd@),
{
    if str_eq(cmd, "w") {
        EditorCommand::Save
    } else if str_eq(cmd, "q") {
        EditorCommand::Close
    } else if str_eq(cmd, "wq") {
        EditorCommand::SaveAndQuit
    } else {
        EditorCommand::Unknown
    }
}

} // verus!

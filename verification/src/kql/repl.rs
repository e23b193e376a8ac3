//! What an interactive session does with a line of input.

use vstd::prelude::*;

use crate::order;
use crate::text;

verus! {

/// What to do with a line.
#[derive(Debug, Clone, Copy, PartialEq, Eq, Structural)]
pub enum ReplCommand {
    /// End the session.
    Quit,
    /// Ask for another line.
    Skip,
    /// Parse the line.
    Parse,
}

/// Ends the session at `quit`, passes over blank lines, parses all else.
pub fn repl_command(line: &str) -> (r: ReplCommand)
    ensures
        r == if text::trimmed(line@) == "quit"@ {
            ReplCommand::Quit
        } else if text::trimmed(line@).len() == 0 {
            ReplCommand::Skip
        } else {
            ReplCommand::Parse
        },
{
    let word: &str = text::trim(line);
    if order::str_same(word, "quit") {
        ReplCommand::Quit
    } else if word.is_empty() {
        ReplCommand::Skip
    } else {
        ReplCommand::Parse
    }
}

} // verus!

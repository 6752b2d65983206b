//! The failures the library reports.

use vstd::prelude::*;

verus! {

/// Why a command line could not be turned into a command.
#[derive(Clone, Copy, Debug, PartialEq, Eq, Structural)]
pub enum CommandError {
    /// A part of the command is missing.
    ImproperArgumentCount,
    /// A part of the command is present but cannot be read.
    MalformedArgument,
    /// The first word names no command.
    InvalidCommand,
}

/// Why an operation was refused. A refused operation changes nothing.
#[derive(Clone, Copy, Debug, PartialEq, Eq, Structural)]
pub enum Error {
    /// A position lies outside the word.
    IndexOutOfRange,
    /// A position was marked both correct and present-elsewhere.
    ConflictingClassification,
    /// A recommendation was asked of a set with no candidates left.
    EmptyCandidateSet,
    /// A command line could not be read.
    MalformedInput(CommandError),
}

} // verus!

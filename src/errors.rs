use vstd::prelude::*;

verus! {

/// What can go wrong with a command.
#[derive(Clone, Copy, Debug, Default, PartialEq, Eq, Structural, Hash)]
pub enum GameError {
    #[default]
    NoError,
    /// The command word or code is not one the game knows.
    UnknownCommand,
    /// A coordinate is malformed or out of range, or the command is not
    /// legal in the current phase.
    InvalidArgument,
}

} // verus!

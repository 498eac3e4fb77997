//! Rules engine of an 8×8 minesweeper game: board model, flood reveal,
//! win and loss detection, a textual command grammar and the game-phase
//! state machine with its countdown timer.
use vstd::prelude::*;

pub mod board;
pub mod command;
pub mod errors;
pub mod exec;
pub mod store;

verus! {

/// Whole seconds in a wall-clock reading given in milliseconds, rounded
/// down; the timer counts in these.
pub fn current_seconds(now_millis: u64) -> (r: u64)
    ensures
        r == now_millis / 1000,
{
    now_millis / 1000
}

} // verus!

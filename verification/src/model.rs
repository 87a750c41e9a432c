//! The domain vocabulary of a Busy Beaver machine: symbols, states,
//! directions and transition rules. These types describe a machine; they do
//! not run it.

use vstd::prelude::*;

verus! {

/// A tape symbol. The classic Busy Beaver uses the two symbols 0 and 1.
pub type Symbol = u8;

/// A machine state: `Normal(0)` is state A, `Normal(1)` is B, and so on.
#[derive(Clone, Copy, Debug, PartialEq, Eq, Hash, Structural)]
pub enum State {
    Normal(u8),
    Halt,
}

/// The direction in which the head moves after a write.
#[derive(Clone, Copy, Debug, PartialEq, Eq, Structural)]
pub enum Direction {
    Left,
    Right,
}

/// One rule: in the current state, reading the current symbol, write
/// `write`, move in `direction` and enter `next_state`.
#[derive(Clone, Copy, Debug, PartialEq, Eq, Structural)]
pub struct Transition {
    pub write: Symbol,
    pub direction: Direction,
    pub next_state: State,
}

} // verus!

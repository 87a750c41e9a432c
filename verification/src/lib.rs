//! Exhaustive search for Busy Beaver champions among small Turing machines.
//!
//! The crate enumerates every transition table of an `n`-state, `m`-symbol
//! machine, runs each one from a blank tape and keeps the two champion groups:
//! the halting machines that leave the most ones (Σ(n)) and those that run the
//! most steps (S(n)).

pub mod model;
pub mod tape;
pub mod machine;
pub mod generator;
pub mod search;
pub mod notation;

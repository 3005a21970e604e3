//! Planning core of a monthly-compounding investment simulator.
//!
//! The crate decides everything about a simulation run that is not plain
//! arithmetic on money: how many months the horizon spans, which market drop
//! strikes which month, which months a report shows, and how the answers typed
//! at an interactive prompt are understood.

pub mod horizon;
pub mod placement;
pub mod prompt;
pub mod random;

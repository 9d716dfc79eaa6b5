//! Adjustment commands delivered by the IPC listener.

use vstd::prelude::*;

verus! {

/// What kind of adjustment a client asked for.
///
/// `Increase` and `Decrease` carry a step; `ToggleMute` exists only for the
/// volume-class daemon and ignores the magnitude.
#[derive(Clone, Copy, Debug, PartialEq, Eq, Structural)]
pub enum CommandKind {
    Increase,
    Decrease,
    ToggleMute,
}

/// One adjustment command, immutable once created.
#[derive(Clone, Copy, Debug, PartialEq, Eq, Structural)]
pub struct Command {
    pub kind: CommandKind,
    pub magnitude: i64,
}

impl Command {
    pub fn new(kind: CommandKind, magnitude: i64) -> (r: Command)
        ensures
            r.kind == kind,
            r.magnitude == magnitude,
    {
        Command { kind, magnitude }
    }
}

} // verus!

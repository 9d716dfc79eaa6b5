//! The debounce queue: an ordered FIFO buffer of in-flight commands.
//!
//! Each command that the coordinator dispatches is appended here together
//! with a one-shot eviction timer. Every timer that fires removes the
//! current head of the queue, oldest first, whichever command it was
//! scheduled for; the overlay stays visible exactly while the queue is
//! non-empty.

use vstd::prelude::*;

use crate::command::Command;

verus! {

/// FIFO buffer of pending commands, owned exclusively by the coordinator.
pub struct DebounceQueue {
    entries: Vec<Command>,
}

impl View for DebounceQueue {
    type V = Seq<Command>;

    closed spec fn view(&self) -> Seq<Command> {
        self.entries@
    }
}

impl DebounceQueue {
    /// Creates an empty queue.
    pub fn new() -> (r: DebounceQueue)
        ensures
            r@ == Seq::<Command>::empty(),
    {
        DebounceQueue { entries: Vec::new() }
    }

    /// Appends a pending command at the tail.
    pub fn push(&mut self, cmd: Command)
        ensures
            final(self)@ == old(self)@.push(cmd),
    {
        self.entries.push(cmd);
    }

    /// Removes the oldest entry; a no-op on an empty queue, so that an
    /// eviction timer can never fault even if the accounting were off.
    pub fn pop_front(&mut self)
        ensures
            old(self)@.len() == 0 ==> final(self)@ == old(self)@,
            old(self)@.len() > 0 ==> final(self)@ == old(self)@.subrange(1, old(self)@.len() as int),
    {
        if self.entries.len() > 0 {
            self.entries.remove(0);
            proof {
                assert(self@ =~= old(self)@.subrange(1, old(self)@.len() as int));
            }
        }
    }

    /// True when no command is still pending.
    pub fn is_empty(&self) -> (r: bool)
        ensures
            r == (self@.len() == 0),
    {
        self.entries.len() == 0
    }

    /// Number of commands still pending.
    pub fn len(&self) -> (r: usize)
        ensures
            r == self@.len(),
    {
        self.entries.len()
    }
}

} // verus!

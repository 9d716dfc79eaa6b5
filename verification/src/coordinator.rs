//! The coordinator: the single-threaded control loop's decision core.
//!
//! The surrounding process wires three external collaborators to this type:
//! a command source that delivers [`Command`] values in arrival order, an
//! action executor that applies a command's effect and reports fresh state,
//! and an overlay surface with `show`, `update` and `hide` operations.
//!
//! For every command received, the caller must: execute the matching action,
//! re-query the displayed state, push it to the overlay with `update`, call
//! `show` exactly when [`Coordinator::on_command_received`] returns true, and
//! schedule one one-shot eviction timer for a fixed delay. When a timer
//! fires, the caller calls [`Coordinator::on_timer_fired`] and calls `hide`
//! exactly when it returns true. The coordinator owns all visibility
//! bookkeeping, so rapid bursts of commands coalesce into one overlay that
//! disappears one delay after the burst settles.

use vstd::prelude::*;

use crate::command::Command;
use crate::queue::DebounceQueue;

verus! {

/// Mathematical model of a coordinator: the pending commands in arrival
/// order, and whether the overlay is currently shown.
pub ghost struct Model {
    pub queue: Seq<Command>,
    pub visible: bool,
}

/// The initial model: nothing pending, overlay hidden.
pub open spec fn init_model() -> Model {
    Model { queue: Seq::empty(), visible: false }
}

/// A command triggers `show` exactly when it is the first of a burst, that
/// is, when the queue is empty immediately before it.
pub open spec fn command_shows(m: Model) -> bool {
    m.queue.len() == 0
}

/// Effect of one received command on the model: the command is appended,
/// and the overlay is shown if it was the first of a burst.
pub open spec fn on_command_model(m: Model, cmd: Command) -> Model {
    Model {
        queue: m.queue.push(cmd),
        visible: if command_shows(m) {
            true
        } else {
            m.visible
        },
    }
}

/// The queue after one eviction: the oldest entry leaves; an empty queue is
/// left alone.
pub open spec fn evicted(q: Seq<Command>) -> Seq<Command> {
    if q.len() == 0 {
        q
    } else {
        q.subrange(1, q.len() as int)
    }
}

/// A firing timer triggers `hide` exactly when its eviction leaves the
/// queue empty.
pub open spec fn timer_hides(m: Model) -> bool {
    m.queue.len() <= 1
}

/// Effect of one firing eviction timer on the model: the head entry leaves,
/// and the overlay is hidden if nothing remains pending.
pub open spec fn on_timer_model(m: Model) -> Model {
    Model {
        queue: evicted(m.queue),
        visible: if timer_hides(m) {
            false
        } else {
            m.visible
        },
    }
}

/// Decision core of one daemon instance. Owns the debounce queue and the
/// overlay-visibility state; never touches the outside world itself.
pub struct Coordinator {
    queue: DebounceQueue,
    visible: bool,
}

impl View for Coordinator {
    type V = Model;

    closed spec fn view(&self) -> Model {
        Model { queue: self.queue@, visible: self.visible }
    }
}

impl Coordinator {
    /// The overlay is visible exactly while commands are still pending.
    pub open spec fn wf(self) -> bool {
        self@.visible == (self@.queue.len() > 0)
    }

    /// A fresh coordinator: empty queue, overlay hidden.
    pub fn new() -> (r: Coordinator)
        ensures
            r@ == init_model(),
            r.wf(),
    {
        Coordinator { queue: DebounceQueue::new(), visible: false }
    }

    /// Handles one command handed over from the IPC listener.
    ///
    /// Returns true exactly when the caller must call `show` on the overlay
    /// surface (the hidden-to-visible transition, taken only on the first
    /// command of a burst). The caller must also execute the command's
    /// action, re-query and `update` the displayed state, and schedule one
    /// one-shot eviction timer, on every command.
    pub fn on_command_received(&mut self, cmd: Command) -> (show: bool)
        requires
            old(self).wf(),
        ensures
            final(self)@ == on_command_model(old(self)@, cmd),
            show == command_shows(old(self)@),
            final(self).wf(),
    {
        let show = self.queue.is_empty();
        self.queue.push(cmd);
        if show {
            self.visible = true;
        }
        show
    }

    /// Handles one fired eviction timer.
    ///
    /// Evicts the oldest pending entry — whichever command the timer was
    /// scheduled for — and returns true exactly when the caller must call
    /// `hide` on the overlay surface (the queue has drained, so the burst
    /// has settled).
    pub fn on_timer_fired(&mut self) -> (hide_overlay: bool)
        requires
            old(self).wf(),
        ensures
            final(self)@ == on_timer_model(old(self)@),
            hide_overlay == timer_hides(old(self)@),
            final(self).wf(),
    {
        self.queue.pop_front();
        let drained = self.queue.is_empty();
        if drained {
            self.visible = false;
        }
        drained
    }

    /// True while the overlay is shown.
    pub fn is_visible(&self) -> (r: bool)
        ensures
            r == self@.visible,
    {
        self.visible
    }

    /// Number of commands whose eviction timers have not yet fired.
    pub fn pending_len(&self) -> (r: usize)
        ensures
            r == self@.queue.len(),
    {
        self.queue.len()
    }
}

} // verus!

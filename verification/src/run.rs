//! Whole-run guarantees of the coordinator.
//!
//! The coordinator's methods say what one event does to the model; this
//! module says what whole event sequences do. An event is either the
//! arrival of a command or the firing of one eviction timer, in the order
//! the single-threaded loop observes them. [`replay`] folds a sequence of
//! events over the model from the initial state and counts how often the
//! overlay was shown and hidden; the lemmas below pin down that count for
//! the interesting arrival patterns.
//!
//! Timing enters only through the shape of the interleaving. Command `i`
//! arrives at time `t_i` and its timer fires at `t_i + D`, so:
//! - gaps `< D` (a burst) mean command `i + 1` arrives strictly before
//!   timer `i` fires, and timer `i` fires strictly after command `i + 1`
//!   arrived — [`burst_interleaving`];
//! - gaps `>= D` mean timer `i` fires no later than command `i + 1`
//!   arrives, so events strictly alternate — [`spaced_interleaving`].

use vstd::prelude::*;

use crate::command::Command;
use crate::coordinator::Model;
use crate::coordinator::command_shows;
use crate::coordinator::init_model;
use crate::coordinator::on_command_model;
use crate::coordinator::on_timer_model;
use crate::coordinator::timer_hides;

verus! {

/// One event observed by the coordinator's loop.
pub ghost enum Event {
    /// A command handed over from the IPC listener.
    Arrival(Command),
    /// One scheduled eviction timer fired.
    TimerFire,
}

/// Number of arrivals in `es`.
pub open spec fn arrivals(es: Seq<Event>) -> int
    decreases es.len(),
{
    if es.len() == 0 {
        0
    } else {
        arrivals(es.drop_last()) + if es.last() is Arrival {
            1int
        } else {
            0int
        }
    }
}

/// Number of timer firings in `es`.
pub open spec fn fires(es: Seq<Event>) -> int
    decreases es.len(),
{
    if es.len() == 0 {
        0
    } else {
        fires(es.drop_last()) + if es.last() is TimerFire {
            1int
        } else {
            0int
        }
    }
}

/// The model together with how often the overlay has been shown and hidden.
pub ghost struct RunStats {
    pub model: Model,
    pub shows: int,
    pub hides: int,
}

/// Folds an event sequence over the model, starting hidden and empty, and
/// counts the `show` and `hide` calls the coordinator directs.
pub open spec fn replay(es: Seq<Event>) -> RunStats
    decreases es.len(),
{
    if es.len() == 0 {
        RunStats { model: init_model(), shows: 0, hides: 0 }
    } else {
        let prev = replay(es.drop_last());
        match es.last() {
            Event::Arrival(c) => RunStats {
                model: on_command_model(prev.model, c),
                shows: prev.shows + if command_shows(prev.model) {
                    1int
                } else {
                    0int
                },
                hides: prev.hides,
            },
            Event::TimerFire => RunStats {
                model: on_timer_model(prev.model),
                shows: prev.shows,
                hides: prev.hides + if timer_hides(prev.model) {
                    1int
                } else {
                    0int
                },
            },
        }
    }
}

/// Every timer that fires was scheduled by an earlier arrival whose entry
/// is still pending: the system schedules exactly one timer per arrival,
/// with a positive delay, and every timer fires exactly once.
pub open spec fn timers_covered(es: Seq<Event>) -> bool {
    forall|p: int|
        0 <= p < es.len() && (#[trigger] es[p]) is TimerFire ==> fires(es.take(p)) < arrivals(
            es.take(p),
        )
}

/// Counting facts: every event is an arrival or a firing, and both counts
/// are non-negative.
pub proof fn lemma_counts_bounds(es: Seq<Event>)
    ensures
        arrivals(es) >= 0,
        fires(es) >= 0,
        arrivals(es) + fires(es) == es.len(),
    decreases es.len(),
{
    if es.len() > 0 {
        lemma_counts_bounds(es.drop_last());
    }
}

/// Counting distributes over concatenation.
pub proof fn lemma_counts_concat(a: Seq<Event>, b: Seq<Event>)
    ensures
        arrivals(a + b) == arrivals(a) + arrivals(b),
        fires(a + b) == fires(a) + fires(b),
    decreases b.len(),
{
    if b.len() == 0 {
        assert((a + b) =~= a);
    } else {
        lemma_counts_concat(a, b.drop_last());
        assert((a + b).drop_last() =~= a + b.drop_last());
        assert((a + b).last() == b.last());
    }
}

/// A prefix never holds more arrivals or firings than the whole sequence.
pub proof fn lemma_counts_prefix(es: Seq<Event>, p: int)
    requires
        0 <= p <= es.len(),
    ensures
        0 <= arrivals(es.take(p)) <= arrivals(es),
        0 <= fires(es.take(p)) <= fires(es),
{
    assert(es =~= es.take(p) + es.skip(p));
    lemma_counts_concat(es.take(p), es.skip(p));
    lemma_counts_bounds(es.take(p));
    lemma_counts_bounds(es.skip(p));
}

/// A shorter prefix of a prefix is a prefix of the whole sequence.
proof fn lemma_take_of_drop_last(es: Seq<Event>, p: int)
    requires
        0 <= p < es.len(),
    ensures
        es.drop_last().take(p) =~= es.take(p),
{
}

/// The exact accounting behind the debounce design: as long as every
/// firing timer still has a pending entry to evict, the queue length is
/// the number of arrivals whose timers have not yet fired, and the overlay
/// is visible exactly while that number is positive.
pub proof fn lemma_replay_accounting(es: Seq<Event>)
    requires
        timers_covered(es),
    ensures
        replay(es).model.queue.len() == arrivals(es) - fires(es),
        replay(es).model.visible == (arrivals(es) - fires(es) > 0),
    decreases es.len(),
{
    if es.len() > 0 {
        let dl = es.drop_last();
        assert(timers_covered(dl)) by {
            assert forall|p: int| 0 <= p < dl.len() && (#[trigger] dl[p]) is TimerFire implies fires(
                dl.take(p),
            ) < arrivals(dl.take(p)) by {
                assert(es[p] is TimerFire);
                lemma_take_of_drop_last(es, p);
            }
        }
        lemma_replay_accounting(dl);
        lemma_counts_bounds(dl);
        if es.last() is TimerFire {
            assert(es[es.len() - 1] is TimerFire);
            assert(es.take(es.len() - 1) =~= dl);
        }
    }
}

/// Only arrivals.
pub open spec fn all_arrivals(es: Seq<Event>) -> bool {
    forall|p: int| 0 <= p < es.len() ==> (#[trigger] es[p]) is Arrival
}

/// Only timer firings.
pub open spec fn all_timers(es: Seq<Event>) -> bool {
    forall|p: int| 0 <= p < es.len() ==> (#[trigger] es[p]) is TimerFire
}

/// Counts of a uniform sequence.
pub proof fn lemma_counts_uniform(es: Seq<Event>)
    ensures
        all_arrivals(es) ==> arrivals(es) == es.len() && fires(es) == 0,
        all_timers(es) ==> fires(es) == es.len() && arrivals(es) == 0,
    decreases es.len(),
{
    if es.len() > 0 {
        lemma_counts_uniform(es.drop_last());
        assert(all_arrivals(es) ==> all_arrivals(es.drop_last()) && es.last() is Arrival) by {
            if all_arrivals(es) {
                assert(es[es.len() - 1] is Arrival);
                assert(forall|p: int|
                    0 <= p < es.len() - 1 ==> (#[trigger] es.drop_last()[p]) == es[p]);
            }
        }
        assert(all_timers(es) ==> all_timers(es.drop_last()) && es.last() is TimerFire) by {
            if all_timers(es) {
                assert(es[es.len() - 1] is TimerFire);
                assert(forall|p: int|
                    0 <= p < es.len() - 1 ==> (#[trigger] es.drop_last()[p]) == es[p]);
            }
        }
    }
}

/// Processing `k` commands with no timer yet fired leaves `k` entries
/// pending; once all `k` timers have fired with no new arrival, the queue
/// is empty again and the overlay is hidden.
pub proof fn lemma_burst_then_drain(cs: Seq<Event>, ts: Seq<Event>)
    requires
        all_arrivals(cs),
        all_timers(ts),
        ts.len() == cs.len(),
    ensures
        replay(cs).model.queue.len() == cs.len(),
        replay(cs + ts).model.queue.len() == 0,
        !replay(cs + ts).model.visible,
{
    lemma_counts_uniform(cs);
    lemma_counts_uniform(ts);
    lemma_counts_concat(cs, ts);
    assert(timers_covered(cs)) by {
        assert(forall|p: int| 0 <= p < cs.len() ==> !((#[trigger] cs[p]) is TimerFire));
    }
    lemma_replay_accounting(cs);
    let es = cs + ts;
    assert(timers_covered(es)) by {
        assert forall|p: int| 0 <= p < es.len() && (#[trigger] es[p]) is TimerFire implies fires(
            es.take(p),
        ) < arrivals(es.take(p)) by {
            assert(p >= cs.len()) by {
                if p < cs.len() {
                    assert(cs[p] is Arrival);
                }
            }
            assert(es.take(p) =~= cs + ts.take(p - cs.len()));
            lemma_counts_concat(cs, ts.take(p - cs.len()));
            lemma_counts_uniform(ts.take(p - cs.len()));
            assert(all_timers(ts.take(p - cs.len()))) by {
                assert(forall|q: int|
                    0 <= q < p - cs.len() ==> (#[trigger] ts.take(p - cs.len())[q]) == ts[q]);
            }
        }
    }
    lemma_replay_accounting(es);
}

/// Shape of a burst of `n` commands with inter-arrival gaps strictly below
/// the eviction delay: every command after the first arrives while the
/// previous command's timer is still pending, and every timer except the
/// last fires only after the next command has already arrived.
pub open spec fn burst_interleaving(es: Seq<Event>, n: int) -> bool {
    &&& forall|p: int|
        0 <= p < es.len() && (#[trigger] es[p]) is Arrival && arrivals(es.take(p)) >= 1 ==> fires(
            es.take(p),
        ) < arrivals(es.take(p))
    &&& forall|p: int|
        0 <= p < es.len() && (#[trigger] es[p]) is TimerFire && fires(es.take(p)) < n - 1
            ==> arrivals(es.take(p)) >= fires(es.take(p)) + 2
}

/// Induction workhorse for [`lemma_burst_coalesces`]: along any prefix of
/// a burst run, the overlay has been shown exactly once as soon as the
/// first command arrived, and hidden exactly once as soon as the last of
/// the `n` timers fired.
proof fn lemma_burst_prefix(es: Seq<Event>, n: int)
    requires
        n >= 1,
        timers_covered(es),
        burst_interleaving(es, n),
        arrivals(es) <= n,
        fires(es) <= n,
    ensures
        replay(es).shows == if arrivals(es) >= 1 {
            1int
        } else {
            0int
        },
        replay(es).hides == if fires(es) >= n {
            1int
        } else {
            0int
        },
    decreases es.len(),
{
    lemma_replay_accounting(es);
    if es.len() > 0 {
        let dl = es.drop_last();
        let p = es.len() - 1;
        lemma_counts_bounds(dl);
        assert(es.take(p) =~= dl);
        assert(timers_covered(dl) && burst_interleaving(dl, n)) by {
            assert forall|q: int| 0 <= q < dl.len() implies dl[q] == es[q] && dl.take(q) =~= es.take(
                q,
            ) by {
                lemma_take_of_drop_last(es, q);
            }
        }
        lemma_burst_prefix(dl, n);
        lemma_replay_accounting(dl);
        let a = arrivals(dl);
        let f = fires(dl);
        if es.last() is Arrival {
            assert(es[p] is Arrival);
            if a >= 1 {
                // a later command of the burst: the previous command's
                // timer is still pending, so the queue is not empty and
                // the overlay is not shown again
                assert(f < a);
            }
        } else {
            assert(es[p] is TimerFire);
            assert(f < a);
            if f < n - 1 {
                // not the last timer: the next command has arrived already,
                // so at least two entries are pending and nothing is hidden
                assert(a >= f + 2);
            } else {
                // the last timer: every command has arrived, exactly one
                // entry is left, and evicting it hides the overlay
                lemma_counts_prefix(es, p);
                assert(a == n);
            }
        }
    }
}

/// Debounce coalescing: over a complete burst — `n >= 1` commands with
/// gaps strictly below the eviction delay, followed by the firing of all
/// `n` timers — the overlay is shown exactly once (on the first command)
/// and hidden exactly once (on the last timer, one delay after the last
/// command), and the run ends hidden with an empty queue.
pub proof fn lemma_burst_coalesces(es: Seq<Event>, n: int)
    requires
        n >= 1,
        arrivals(es) == n,
        fires(es) == n,
        timers_covered(es),
        burst_interleaving(es, n),
    ensures
        replay(es).shows == 1,
        replay(es).hides == 1,
        replay(es).model.queue.len() == 0,
        !replay(es).model.visible,
{
    lemma_burst_prefix(es, n);
    lemma_replay_accounting(es);
}

/// Shape of `n` commands with inter-arrival gaps at or above the eviction
/// delay: each command's timer fires before the next command arrives, so
/// arrivals and firings strictly alternate.
pub open spec fn spaced_interleaving(es: Seq<Event>) -> bool {
    &&& forall|p: int|
        0 <= p < es.len() && (#[trigger] es[p]) is Arrival ==> fires(es.take(p)) == arrivals(
            es.take(p),
        )
    &&& forall|p: int|
        0 <= p < es.len() && (#[trigger] es[p]) is TimerFire ==> arrivals(es.take(p)) == fires(
            es.take(p),
        ) + 1
}

/// Spaced commands do not coalesce: when every timer fires before the next
/// command arrives, each arrival shows the overlay and each firing hides
/// it — the hidden-visible-hidden transition happens independently per
/// command.
pub proof fn lemma_spaced_independent(es: Seq<Event>)
    requires
        spaced_interleaving(es),
    ensures
        replay(es).shows == arrivals(es),
        replay(es).hides == fires(es),
    decreases es.len(),
{
    assert(timers_covered(es));
    lemma_replay_accounting(es);
    if es.len() > 0 {
        let dl = es.drop_last();
        let p = es.len() - 1;
        lemma_counts_bounds(dl);
        assert(es.take(p) =~= dl);
        assert(spaced_interleaving(dl)) by {
            assert forall|q: int| 0 <= q < dl.len() implies dl[q] == es[q] && dl.take(q) =~= es.take(
                q,
            ) by {
                lemma_take_of_drop_last(es, q);
            }
        }
        lemma_spaced_independent(dl);
        lemma_replay_accounting(dl);
        if es.last() is Arrival {
            assert(es[p] is Arrival);
        } else {
            assert(es[p] is TimerFire);
        }
    }
}

} // verus!

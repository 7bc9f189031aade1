//! Per-connection replay scheduling.
//!
//! Every accepted connection walks the shared timeline independently,
//! through the state machine below: `Streaming { next }` sends entry
//! `next` after its wait, `Idle` holds the connection open with nothing
//! left to send, and `Closed` is terminal. The machine is a pure function
//! of its own state and the timeline, so connections cannot affect one
//! another; the surrounding runtime performs the timed waits and the
//! sends and feeds the outcome back in as a [`ReplayEvent`].

use vstd::prelude::*;
use crate::timeline::Timeline;

verus! {

/// Where one connection stands in its replay of the timeline.
#[derive(Clone, Copy, Debug, PartialEq, Eq, Structural)]
pub enum ReplayState {
    /// Entries up to `next` have been delivered; entry `next` is due
    /// after its wait.
    Streaming { next: usize },
    /// Every entry has been delivered; the connection stays open, with
    /// no further scheduled sends.
    Idle,
    /// The connection is gone; nothing more happens on it.
    Closed,
}

/// What the runtime observed on the connection after acting on a
/// [`ReplayAction`].
#[derive(Clone, Copy, Debug, PartialEq, Eq, Structural)]
pub enum ReplayEvent {
    /// The scheduled send was delivered.
    SendSucceeded,
    /// The scheduled send failed; the peer is gone.
    SendFailed,
    /// The peer disconnected.
    Disconnected,
}

/// What the runtime is to do next for one connection.
#[derive(Clone, Copy, Debug, PartialEq, Eq, Structural)]
pub enum ReplayAction {
    /// Wait `wait_secs` seconds, then send entry `index`.
    Send { index: usize, wait_secs: u64 },
    /// Keep the connection open; nothing is scheduled.
    HoldOpen,
    /// Release the connection's resources.
    Stop,
}

/// Starting state over a timeline of `len` entries.
pub open spec fn spec_start(len: nat) -> ReplayState {
    if len == 0 {
        ReplayState::Idle
    } else {
        ReplayState::Streaming { next: 0 }
    }
}

/// The action due in state `s`.
pub open spec fn spec_action(s: ReplayState, t: Seq<crate::timeline::EntryView>) -> ReplayAction {
    match s {
        ReplayState::Streaming { next } => {
            if next < t.len() {
                ReplayAction::Send { index: next, wait_secs: t[next as int].wait_secs }
            } else {
                ReplayAction::Stop
            }
        },
        ReplayState::Idle => ReplayAction::HoldOpen,
        ReplayState::Closed => ReplayAction::Stop,
    }
}

/// The state after event `e` arrives in state `s`, over a timeline of
/// `len` entries.
pub open spec fn spec_advance(s: ReplayState, len: nat, e: ReplayEvent) -> ReplayState {
    match s {
        ReplayState::Streaming { next } => match e {
            ReplayEvent::SendSucceeded => {
                if next + 1 < len {
                    ReplayState::Streaming { next: (next + 1) as usize }
                } else {
                    ReplayState::Idle
                }
            },
            ReplayEvent::SendFailed => ReplayState::Closed,
            ReplayEvent::Disconnected => ReplayState::Closed,
        },
        ReplayState::Idle => match e {
            ReplayEvent::Disconnected => ReplayState::Closed,
            _ => ReplayState::Idle,
        },
        ReplayState::Closed => ReplayState::Closed,
    }
}

/// The state after a whole sequence of events.
pub open spec fn spec_run(s: ReplayState, len: nat, evs: Seq<ReplayEvent>) -> ReplayState
    decreases evs.len(),
{
    if evs.len() == 0 {
        s
    } else {
        spec_run(spec_advance(s, len, evs[0]), len, evs.drop_first())
    }
}

/// The state a connection starts in: about to send the first entry, or
/// already idle over an empty timeline.
pub fn replay_start(t: &Timeline) -> (s: ReplayState)
    ensures
        s == spec_start(t@.len()),
{
    if t.len() == 0 {
        ReplayState::Idle
    } else {
        ReplayState::Streaming { next: 0 }
    }
}

/// The action due for a connection in state `s`: the next entry with its
/// wait while streaming, holding the connection open once all entries
/// are out, releasing it once it is closed.
pub fn replay_action(s: &ReplayState, t: &Timeline) -> (a: ReplayAction)
    ensures
        a == spec_action(*s, t@),
{
    match *s {
        ReplayState::Streaming { next } => {
            if next < t.len() {
                ReplayAction::Send { index: next, wait_secs: t.wait_secs(next) }
            } else {
                ReplayAction::Stop
            }
        },
        ReplayState::Idle => ReplayAction::HoldOpen,
        ReplayState::Closed => ReplayAction::Stop,
    }
}

/// The state after `e` was observed in state `s`: streaming advances to
/// the next entry on a delivered send and ends in `Idle` after the last,
/// any failure or disconnect is terminal for this connection alone.
pub fn replay_advance(s: ReplayState, t: &Timeline, e: ReplayEvent) -> (s2: ReplayState)
    ensures
        s2 == spec_advance(s, t@.len(), e),
{
    match s {
        ReplayState::Streaming { next } => match e {
            ReplayEvent::SendSucceeded => {
                if next < t.len() && next + 1 < t.len() {
                    ReplayState::Streaming { next: next + 1 }
                } else {
                    ReplayState::Idle
                }
            },
            ReplayEvent::SendFailed => ReplayState::Closed,
            ReplayEvent::Disconnected => ReplayState::Closed,
        },
        ReplayState::Idle => match e {
            ReplayEvent::Disconnected => ReplayState::Closed,
            _ => ReplayState::Idle,
        },
        ReplayState::Closed => ReplayState::Closed,
    }
}

/// A closed connection stays closed whatever else is observed, and
/// nothing more is ever scheduled on it: a connection that is lost after
/// any entry never receives a later one, and — the machine being a
/// function of its own state alone — this has no effect on any other
/// connection's replay.
pub proof fn law_closed_is_terminal(len: nat, evs: Seq<ReplayEvent>, t: Seq<
    crate::timeline::EntryView,
>)
    ensures
        spec_run(ReplayState::Closed, len, evs) == ReplayState::Closed,
        spec_action(ReplayState::Closed, t) == ReplayAction::Stop,
    decreases evs.len(),
{
    if evs.len() > 0 {
        law_closed_is_terminal(len, evs.drop_first(), t);
    }
}

/// A failed send, or a disconnect, while streaming closes the connection
/// at once: no later entry is sent to it.
pub proof fn law_lost_peer_ends_replay(next: usize, len: nat, e: ReplayEvent)
    requires
        e == ReplayEvent::SendFailed || e == ReplayEvent::Disconnected,
    ensures
        spec_advance(ReplayState::Streaming { next }, len, e) == ReplayState::Closed,
{
}

/// Once every entry is out the connection idles: nothing further is
/// scheduled on it, and it leaves `Idle` only when the peer disconnects.
pub proof fn law_idle_holds_open(len: nat, evs: Seq<ReplayEvent>, t: Seq<
    crate::timeline::EntryView,
>)
    requires
        forall|i: int| 0 <= i < evs.len() ==> evs[i] != ReplayEvent::Disconnected,
    ensures
        spec_run(ReplayState::Idle, len, evs) == ReplayState::Idle,
        spec_action(ReplayState::Idle, t) == ReplayAction::HoldOpen,
    decreases evs.len(),
{
    if evs.len() > 0 {
        assert(forall|i: int|
            0 <= i < evs.drop_first().len() ==> #[trigger] evs.drop_first()[i] == evs[i + 1]);
        law_idle_holds_open(len, evs.drop_first(), t);
    }
}

/// A connection whose sends all succeed walks the whole timeline in
/// order: after `k` delivered sends it stands at entry `k`, about to wait
/// that entry's own delay, and after the last it idles. Every connection
/// replays the same full sequence with the same relative delays, each
/// measured from its own start.
pub proof fn law_full_replay(t: Seq<crate::timeline::EntryView>, evs: Seq<ReplayEvent>)
    requires
        evs.len() <= t.len(),
        t.len() <= usize::MAX,
        forall|i: int| 0 <= i < evs.len() ==> evs[i] == ReplayEvent::SendSucceeded,
    ensures
        evs.len() < t.len() ==> spec_run(spec_start(t.len()), t.len(), evs)
            == (ReplayState::Streaming { next: evs.len() as usize }) && spec_action(
            spec_run(spec_start(t.len()), t.len(), evs),
            t,
        ) == (ReplayAction::Send {
            index: evs.len() as usize,
            wait_secs: t[evs.len() as int].wait_secs,
        }),
        evs.len() == t.len() ==> spec_run(spec_start(t.len()), t.len(), evs) == ReplayState::Idle,
    decreases evs.len(),
{
    if evs.len() > 0 {
        assert(forall|i: int|
            0 <= i < evs.drop_last().len() ==> #[trigger] evs.drop_last()[i] == evs[i]);
        law_full_replay(t, evs.drop_last());
        lemma_run_snoc(spec_start(t.len()), t.len(), evs.drop_last(), evs.last());
        assert(evs.drop_last().push(evs.last()) =~= evs);
    }
}

/// Running a sequence of events and then one more is running the whole.
proof fn lemma_run_snoc(s: ReplayState, len: nat, evs: Seq<ReplayEvent>, e: ReplayEvent)
    ensures
        spec_run(s, len, evs.push(e)) == spec_advance(spec_run(s, len, evs), len, e),
    decreases evs.len(),
{
    reveal_with_fuel(spec_run, 2);
    if evs.len() == 0 {
        assert(evs.push(e).drop_first() =~= Seq::<ReplayEvent>::empty());
    } else {
        assert(evs.push(e).drop_first() =~= evs.drop_first().push(e));
        lemma_run_snoc(spec_advance(s, len, evs[0]), len, evs.drop_first(), e);
    }
}

} // verus!

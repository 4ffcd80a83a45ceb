//! When the watcher of the local store's directory calls for a refresh: a change opens a short
//! quiet spell, every further change restarts it, and only once the spell passes with no change
//! does the store take in what is on disk, so a burst of writes is read once, after it ends.
use vstd::prelude::*;

verus! {

/// How long a quiet spell lasts, in milliseconds.
pub const SETTLE_MILLIS: u64 = 200;

/// What the watcher hears while it waits.
#[derive(Debug, Clone, Copy, PartialEq, Eq)]
pub enum WatchSignal {
    /// A document under the directory changed.
    Changed,
    /// The watcher was told to stop, or nobody can signal it any more.
    Stopped,
    /// A quiet spell passed with no change.
    Quiet,
}

/// How the watcher waits for its next signal.
#[derive(Debug, Clone, Copy, PartialEq, Eq)]
pub enum WatchWait {
    /// With no change pending, until something happens.
    Idle,
    /// With a change pending, at most one quiet spell.
    Settling,
}

/// What the watcher does on a signal.
#[derive(Debug, Clone, Copy, PartialEq, Eq)]
pub enum WatchStep {
    /// Wait again, with a change pending or not, having called for a refresh or not.
    Continue { pending: bool, refresh: bool },
    /// The watcher ends.
    Finish,
}

/// How the watcher waits: for at most a quiet spell while a change is pending, else for as long
/// as it takes.
pub fn watch_wait(pending: bool) -> (wait: WatchWait)
    ensures
        wait == (if pending {
            WatchWait::Settling
        } else {
            WatchWait::Idle
        }),
{
    if pending {
        WatchWait::Settling
    } else {
        WatchWait::Idle
    }
}

/// What the watcher does on a signal: a change leaves one pending, a quiet spell calls for a
/// refresh and leaves none pending, and a stop ends the watcher.
pub fn watch_step(pending: bool, signal: WatchSignal) -> (step: WatchStep)
    ensures
        step == (match signal {
            WatchSignal::Changed => WatchStep::Continue { pending: true, refresh: false },
            WatchSignal::Quiet => WatchStep::Continue { pending: false, refresh: true },
            WatchSignal::Stopped => WatchStep::Finish,
        }),
{
    match signal {
        WatchSignal::Changed => WatchStep::Continue { pending: true, refresh: false },
        WatchSignal::Quiet => WatchStep::Continue { pending: false, refresh: true },
        WatchSignal::Stopped => WatchStep::Finish,
    }
}

} // verus!

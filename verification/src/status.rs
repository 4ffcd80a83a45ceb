//! The workflow status a task declares, and the instants the tracker records.
use vstd::prelude::*;

verus! {

/// Where a task stands in its workflow.
#[derive(Debug, Clone, Copy, PartialEq, Eq, Hash, Structural)]
pub enum Status {
    Backlog,
    Todo,
    InProgress,
    InReview,
    Done,
    Cancelled,
}

impl DeepView for Status {
    type V = Status;

    open spec fn deep_view(&self) -> Status {
        *self
    }
}

/// The name a task file spells a status with.
pub open spec fn status_name(status: Status) -> Seq<char> {
    match status {
        Status::Backlog => "backlog"@,
        Status::Todo => "todo"@,
        Status::InProgress => "in_progress"@,
        Status::InReview => "in_review"@,
        Status::Done => "done"@,
        Status::Cancelled => "cancelled"@,
    }
}

/// A status that nobody can complete any more: `done` or `cancelled`.
pub open spec fn is_finished(status: Status) -> bool {
    status == Status::Done || status == Status::Cancelled
}

impl Status {
    /// The name a task file spells this status with.
    pub fn as_str(&self) -> (name: &'static str)
        ensures
            name@ == status_name(*self),
    {
        match self {
            Status::Backlog => {
                proof {
                    reveal_strlit("backlog");
                }
                "backlog"
            },
            Status::Todo => {
                proof {
                    reveal_strlit("todo");
                }
                "todo"
            },
            Status::InProgress => {
                proof {
                    reveal_strlit("in_progress");
                }
                "in_progress"
            },
            Status::InReview => {
                proof {
                    reveal_strlit("in_review");
                }
                "in_review"
            },
            Status::Done => {
                proof {
                    reveal_strlit("done");
                }
                "done"
            },
            Status::Cancelled => {
                proof {
                    reveal_strlit("cancelled");
                }
                "cancelled"
            },
        }
    }

    /// A status nobody can complete any more.
    pub fn is_finished(&self) -> (finished: bool)
        ensures
            finished == is_finished(*self),
    {
        match self {
            Status::Done | Status::Cancelled => true,
            _ => false,
        }
    }
}

/// An instant, as whole seconds since the Unix epoch in UTC.
#[derive(Debug, Clone, Copy, PartialEq, Eq, Hash, PartialOrd, Ord)]
pub struct Timestamp {
    pub second: i64,
}

impl DeepView for Timestamp {
    type V = Timestamp;

    open spec fn deep_view(&self) -> Timestamp {
        *self
    }
}

impl Timestamp {
    /// The instant `second` seconds after the Unix epoch.
    pub fn from_second(second: i64) -> (at: Timestamp)
        ensures
            at.second == second,
    {
        Timestamp { second }
    }

    /// The seconds since the Unix epoch.
    pub fn as_second(&self) -> (second: i64)
        ensures
            second == self.second,
    {
        self.second
    }

    /// The later of two instants.
    pub fn later(self, other: Timestamp) -> (at: Timestamp)
        ensures
            at.second == if self.second >= other.second {
                self.second
            } else {
                other.second
            },
    {
        if self.second >= other.second {
            self
        } else {
            other
        }
    }
}

} // verus!

//! The log of a task store, newest first: which documents each revision changed, and which
//! revisions a page of the log shows. A merge keeps only what differs from every side it joined,
//! and a revision that changed nothing under the asked prefix is left out.
use vstd::prelude::*;

use crate::history::DocumentChangeKind;
use crate::tree_diff::{changes_view, Change};

verus! {

/// What the log does with the next revision of its walk.
#[derive(Debug, PartialEq, Eq)]
pub enum LogStep {
    /// The page is full: the walk ends.
    Stop,
    /// The revision changed nothing under the prefix: it is left out.
    Skip,
    /// The revision joins the page with these changes, those under the prefix.
    Take(Vec<Change>),
}

/// The text starts with `prefix`.
pub open spec fn has_prefix(text: Seq<char>, prefix: Seq<char>) -> bool {
    prefix.len() <= text.len() && text.subrange(0, prefix.len() as int) == prefix
}

/// Of the first `n` changes, those whose path starts with `prefix`, in their order.
pub open spec fn under_prefix(changes: Seq<(Seq<char>, DocumentChangeKind)>, prefix: Seq<char>, n: int) -> Seq<
    (Seq<char>, DocumentChangeKind),
>
    decreases n,
{
    if n <= 0 {
        Seq::empty()
    } else if has_prefix(changes[n - 1].0, prefix) {
        under_prefix(changes, prefix, n - 1).push(changes[n - 1])
    } else {
        under_prefix(changes, prefix, n - 1)
    }
}

/// Optional ids as plain values.
pub open spec fn blob_view(id: Option<Vec<u8>>) -> Option<Seq<u8>> {
    match id {
        Some(v) => Some(v@),
        None => None,
    }
}

/// Of the first `n` changes of a merge, those whose document the merge holds under an id that
/// differs from what each other side it joined holds there: `ours[k]` is what the merge holds at
/// the path of change `k`, `others[k]` what each other side holds there.
pub open spec fn kept_by_merge(
    changes: Seq<(Seq<char>, DocumentChangeKind)>,
    ours: Seq<Option<Seq<u8>>>,
    others: Seq<Seq<Option<Seq<u8>>>>,
    n: int,
) -> Seq<(Seq<char>, DocumentChangeKind)>
    decreases n,
{
    if n <= 0 {
        Seq::empty()
    } else if forall|m: int| 0 <= m < others[n - 1].len() ==> #[trigger] others[n - 1][m] != ours[n - 1] {
        kept_by_merge(changes, ours, others, n - 1).push(changes[n - 1])
    } else {
        kept_by_merge(changes, ours, others, n - 1)
    }
}

/// Whether the text starts with `prefix`.
pub fn starts_with(text: &str, prefix: &str) -> (found: bool)
    ensures
        found == has_prefix(text@, prefix@),
{
    let n = prefix.unicode_len();
    if n > text.unicode_len() {
        return false;
    }
    let mut k: usize = 0;
    while k < n
        invariant
            n == prefix@.len(),
            n <= text@.len(),
            k <= n,
            forall|j: int| 0 <= j < k ==> text@[j] == prefix@[j],
        decreases n - k,
    {
        if text.get_char(k) != prefix.get_char(k) {
            proof {
                assert(text@.subrange(0, n as int)[k as int] != prefix@[k as int]);
            }
            return false;
        }
        k = k + 1;
    }
    proof {
        assert(text@.subrange(0, n as int) =~= prefix@);
    }
    true
}

/// A copy of a change.
fn copy_change(change: &Change) -> (copy: Change)
    ensures
        copy.path@ == change.path@,
        copy.kind == change.kind,
{
    Change { path: change.path.clone(), kind: change.kind }
}

/// Two optional ids are the same.
fn same_blob(a: &Option<Vec<u8>>, b: &Option<Vec<u8>>) -> (same: bool)
    ensures
        same == (blob_view(*a) == blob_view(*b)),
{
    match (a, b) {
        (Some(x), Some(y)) => {
            if x.len() != y.len() {
                proof {
                    assert(x@.len() != y@.len());
                }
                return false;
            }
            let mut k: usize = 0;
            while k < x.len()
                invariant
                    blob_view(*a) == Some(x@),
                    blob_view(*b) == Some(y@),
                    x.len() == y.len(),
                    k <= x.len(),
                    forall|j: int| 0 <= j < k ==> x@[j] == y@[j],
                decreases x.len() - k,
            {
                if x[k] != y[k] {
                    proof {
                        assert(x@[k as int] != y@[k as int]);
                        assert(x@ != y@);
                    }
                    return false;
                }
                k = k + 1;
            }
            proof {
                assert(x@ =~= y@);
            }
            true
        },
        (None, None) => true,
        _ => false,
    }
}

/// The changes a merge keeps as its own: those whose document the merge holds under an id that
/// differs from what every other side it joined holds there. A document it took unchanged from one
/// side belongs to the revision that made it there. `ours` and `others` hold, for each change, what
/// the merge and each other side hold at its path; a revision with one parent has no other side
/// and keeps every change.
pub fn merge_changes(changes: &Vec<Change>, ours: &Vec<Option<Vec<u8>>>, others: &Vec<Vec<Option<Vec<u8>>>>) -> (kept: Vec<Change>)
    requires
        ours.len() == changes.len(),
        others.len() == changes.len(),
    ensures
        changes_view(kept@) == kept_by_merge(
            changes_view(changes@),
            Seq::new(ours.len() as nat, |k: int| blob_view(ours@[k])),
            Seq::new(others.len() as nat, |k: int| Seq::new(others@[k].len() as nat, |m: int| blob_view(others@[k]@[m]))),
            changes.len() as int,
        ),
{
    let ghost ov = Seq::new(ours.len() as nat, |k: int| blob_view(ours@[k]));
    let ghost xv = Seq::new(others.len() as nat, |k: int| Seq::new(others@[k].len() as nat, |m: int| blob_view(others@[k]@[m])));
    let ghost cv = changes_view(changes@);
    let mut kept: Vec<Change> = Vec::new();
    let mut k: usize = 0;
    while k < changes.len()
        invariant
            ours.len() == changes.len(),
            others.len() == changes.len(),
            ov == Seq::new(ours.len() as nat, |k: int| blob_view(ours@[k])),
            xv == Seq::new(others.len() as nat, |k: int| Seq::new(others@[k].len() as nat, |m: int| blob_view(others@[k]@[m]))),
            cv == changes_view(changes@),
            k <= changes.len(),
            changes_view(kept@) == kept_by_merge(cv, ov, xv, k as int),
        decreases changes.len() - k,
    {
        let sides = &others[k];
        let mut differs = true;
        let mut m: usize = 0;
        while m < sides.len()
            invariant
                sides@ == others@[k as int]@,
                ov == Seq::new(ours.len() as nat, |k: int| blob_view(ours@[k])),
                xv == Seq::new(others.len() as nat, |k: int| Seq::new(others@[k].len() as nat, |m: int| blob_view(others@[k]@[m]))),
                k < changes.len(),
                ours.len() == changes.len(),
                others.len() == changes.len(),
                m <= sides.len(),
                differs == forall|j: int| 0 <= j < m ==> #[trigger] xv[k as int][j] != ov[k as int],
            decreases sides.len() - m,
        {
            let same = same_blob(&sides[m], &ours[k]);
            proof {
                assert(xv[k as int][m as int] == blob_view(sides@[m as int]));
                assert(ov[k as int] == blob_view(ours@[k as int]));
            }
            differs = differs && !same;
            m = m + 1;
        }
        if differs {
            let ghost before = kept@;
            kept.push(copy_change(&changes[k]));
            proof {
                assert(changes_view(kept@) =~= changes_view(before).push(cv[k as int]));
            }
        }
        k = k + 1;
    }
    kept
}

/// The revisions a page of the log walks back from: after `before`, the parents of that revision,
/// as the store answered them, and where the store knows no such revision the request fails on
/// that id; without `before`, the tip of the tasks, where there is one.
pub fn log_starts(before: Option<String>, parents: Option<Vec<String>>, tip: Option<String>) -> (starts: Result<Vec<String>, String>)
    ensures
        match before {
            Some(b) => match parents {
                Some(ps) => starts matches Ok(s) && s.deep_view() == ps.deep_view(),
                None => starts matches Err(unknown) && unknown@ == b@,
            },
            None => starts matches Ok(s) && s.deep_view() == match tip {
                Some(t) => seq![t@],
                None => Seq::<Seq<char>>::empty(),
            },
        },
{
    match before {
        Some(b) => match parents {
            Some(ps) => Ok(ps),
            None => Err(b),
        },
        None => {
            let mut starts: Vec<String> = Vec::new();
            if let Some(t) = tip {
                starts.push(t);
            }
            proof {
                assert(starts.deep_view().len() == starts@.len());
            }
            Ok(starts)
        },
    }
}

/// What the log does with the next revision of its walk, which changed `changes`: the walk ends
/// once the page holds `limit` revisions; otherwise the revision joins the page with its changes
/// under `prefix`, or is left out where it has none.
pub fn log_step(taken: usize, limit: Option<usize>, changes: &Vec<Change>, prefix: &str) -> (step: LogStep)
    ensures
        match step {
            LogStep::Stop => limit matches Some(l) && taken >= l,
            LogStep::Skip => !(limit matches Some(l) && taken >= l) && under_prefix(
                changes_view(changes@),
                prefix@,
                changes.len() as int,
            ).len() == 0,
            LogStep::Take(kept) => !(limit matches Some(l) && taken >= l) && changes_view(kept@) == under_prefix(
                changes_view(changes@),
                prefix@,
                changes.len() as int,
            ) && kept.len() > 0,
        },
{
    if let Some(l) = limit {
        if taken >= l {
            return LogStep::Stop;
        }
    }
    let ghost cv = changes_view(changes@);
    let mut kept: Vec<Change> = Vec::new();
    let mut k: usize = 0;
    while k < changes.len()
        invariant
            cv == changes_view(changes@),
            k <= changes.len(),
            changes_view(kept@) == under_prefix(cv, prefix@, k as int),
        decreases changes.len() - k,
    {
        if starts_with(changes[k].path.as_str(), prefix) {
            let ghost before = kept@;
            kept.push(copy_change(&changes[k]));
            proof {
                assert(changes_view(kept@) =~= changes_view(before).push(cv[k as int]));
            }
        }
        k = k + 1;
    }
    if kept.len() == 0 {
        LogStep::Skip
    } else {
        LogStep::Take(kept)
    }
}

} // verus!

//! Edits made by hand to the documents of the local store: which files on disk to read again, and
//! what the ones read change. Only a file whose stamp moved since it last matched the head is read,
//! a file whose bytes the head already holds changes nothing, and a document the head holds that
//! is no longer on disk is removed.
use vstd::prelude::*;

use crate::local::{bytes_view, find_stored, head_view, holds, holds_bytes, stored_at, HeadFile, Write};
use crate::store::{settled, Stamp};
use crate::text::same_chars;

verus! {

/// A file on disk and its stamp.
#[derive(Debug, PartialEq, Eq)]
pub struct Listed {
    pub path: String,
    pub stamp: Stamp,
}

/// A file read from disk: its path, its stamp, and its bytes.
#[derive(Debug, PartialEq, Eq)]
pub struct ReadFile {
    pub path: String,
    pub stamp: Stamp,
    pub bytes: Vec<u8>,
}

/// What the hand edits change: the writes that bring the head to what is on disk, and the files
/// whose stamps are old enough to prove them unchanged from now on.
#[derive(Debug, PartialEq, Eq)]
pub struct HandEdits {
    pub writes: Vec<Write>,
    pub settled: Vec<Listed>,
}

/// The listed files as plain values.
pub open spec fn listed_view(listed: Seq<Listed>) -> Seq<(Seq<char>, Stamp)> {
    Seq::new(listed.len(), |k: int| (listed[k].path@, listed[k].stamp))
}

/// The files read as plain values.
pub open spec fn read_view(read: Seq<ReadFile>) -> Seq<(Seq<char>, Stamp, Seq<u8>)> {
    Seq::new(read.len(), |k: int| (read[k].path@, read[k].stamp, read[k].bytes@))
}

/// The writes as plain values.
pub open spec fn write_view(writes: Seq<Write>) -> Seq<(Seq<char>, Option<Seq<u8>>)> {
    Seq::new(writes.len(), |k: int| (writes[k].path@, bytes_view(writes[k].content)))
}

/// The stamp last seen at `path`, among the first `m` known stamps: the first one there.
pub open spec fn stamp_at(known: Seq<(Seq<char>, Stamp)>, path: Seq<char>, m: int) -> Option<Stamp>
    decreases m,
{
    if m <= 0 {
        None
    } else {
        match stamp_at(known, path, m - 1) {
            Some(s) => Some(s),
            None => if known[m - 1].0 == path {
                Some(known[m - 1].1)
            } else {
                None
            },
        }
    }
}

/// Some listed file sits at `path`.
pub open spec fn is_listed(listed: Seq<(Seq<char>, Stamp)>, path: Seq<char>) -> bool {
    exists|k: int| 0 <= k < listed.len() && #[trigger] listed[k].0 == path
}

/// Of the first `n` listed files, the positions of those to read again: a file whose path can
/// name a document and whose stamp is not the one last seen at its path.
pub open spec fn stale_upto(listed: Seq<(Seq<char>, Stamp)>, valid: Seq<bool>, known: Seq<(Seq<char>, Stamp)>, n: int) -> Seq<usize>
    decreases n,
{
    if n <= 0 {
        Seq::empty()
    } else if valid[n - 1] && stamp_at(known, listed[n - 1].0, known.len() as int) != Some(listed[n - 1].1) {
        stale_upto(listed, valid, known, n - 1).push((n - 1) as usize)
    } else {
        stale_upto(listed, valid, known, n - 1)
    }
}

/// Of the first `n` known stamps, those of files still listed.
pub open spec fn kept_upto(known: Seq<(Seq<char>, Stamp)>, listed: Seq<(Seq<char>, Stamp)>, n: int) -> Seq<(Seq<char>, Stamp)>
    decreases n,
{
    if n <= 0 {
        Seq::empty()
    } else if is_listed(listed, known[n - 1].0) {
        kept_upto(known, listed, n - 1).push(known[n - 1])
    } else {
        kept_upto(known, listed, n - 1)
    }
}

/// The head holds these bytes at `path`.
pub open spec fn head_holds(head: Seq<(Seq<char>, crate::local::StoredView)>, path: Seq<char>, bytes: Seq<u8>) -> bool {
    match stored_at(head, path, head.len() as int) {
        Some(s) => holds_bytes(s, bytes),
        None => false,
    }
}

/// Of the first `n` files read, the ones to put: those whose bytes the head does not hold.
pub open spec fn puts_upto(
    read: Seq<(Seq<char>, Stamp, Seq<u8>)>,
    head: Seq<(Seq<char>, crate::local::StoredView)>,
    n: int,
) -> Seq<(Seq<char>, Option<Seq<u8>>)>
    decreases n,
{
    if n <= 0 {
        Seq::empty()
    } else if head_holds(head, read[n - 1].0, read[n - 1].2) {
        puts_upto(read, head, n - 1)
    } else {
        puts_upto(read, head, n - 1).push((read[n - 1].0, Some(read[n - 1].2)))
    }
}

/// Of the first `n` documents of the head, the removals of those no longer listed.
pub open spec fn removals_upto(
    head: Seq<(Seq<char>, crate::local::StoredView)>,
    listed: Seq<(Seq<char>, Stamp)>,
    n: int,
) -> Seq<(Seq<char>, Option<Seq<u8>>)>
    decreases n,
{
    if n <= 0 {
        Seq::empty()
    } else if is_listed(listed, head[n - 1].0) {
        removals_upto(head, listed, n - 1)
    } else {
        removals_upto(head, listed, n - 1).push((head[n - 1].0, None))
    }
}

/// Of the first `n` files read, those whose stamps are settled at `now`.
pub open spec fn settled_upto(read: Seq<(Seq<char>, Stamp, Seq<u8>)>, now: int, n: int) -> Seq<(Seq<char>, Stamp)>
    decreases n,
{
    if n <= 0 {
        Seq::empty()
    } else if settled(read[n - 1].1, now) {
        settled_upto(read, now, n - 1).push((read[n - 1].0, read[n - 1].1))
    } else {
        settled_upto(read, now, n - 1)
    }
}

/// Two stamps are the same.
fn same_stamp(a: &Stamp, b: &Stamp) -> (same: bool)
    ensures
        same == (*a == *b),
{
    let modified_same = match (a.modified, b.modified) {
        (Some(x), Some(y)) => x == y,
        (None, None) => true,
        _ => false,
    };
    a.len == b.len && modified_same && a.changed.0 == b.changed.0 && a.changed.1 == b.changed.1 && a.inode == b.inode
}

/// The stamp last seen at `path`.
fn find_stamp(known: &Vec<Listed>, path: &str) -> (stamp: Option<Stamp>)
    ensures
        stamp == stamp_at(listed_view(known@), path@, known.len() as int),
{
    let ghost kv = listed_view(known@);
    let mut k: usize = 0;
    while k < known.len()
        invariant
            kv == listed_view(known@),
            k <= known.len(),
            stamp_at(kv, path@, k as int) is None,
        decreases known.len() - k,
    {
        if same_chars(known[k].path.as_str(), path) {
            proof {
                assert(stamp_at(kv, path@, k + 1) == Some(known@[k as int].stamp));
                lemma_stamp_at_first(kv, path@, k + 1, known.len() as int);
            }
            return Some(known[k].stamp);
        }
        k = k + 1;
    }
    None
}

/// Once a stamp is found at `path`, later ones do not change which one was seen there.
proof fn lemma_stamp_at_first(known: Seq<(Seq<char>, Stamp)>, path: Seq<char>, a: int, b: int)
    requires
        0 <= a <= b,
        stamp_at(known, path, a) is Some,
    ensures
        stamp_at(known, path, b) == stamp_at(known, path, a),
    decreases b - a,
{
    if b > a {
        lemma_stamp_at_first(known, path, a, b - 1);
    }
}

/// Whether some listed file sits at `path`.
fn listed_at(listed: &Vec<Listed>, path: &str) -> (found: bool)
    ensures
        found == is_listed(listed_view(listed@), path@),
{
    let ghost lv = listed_view(listed@);
    let mut k: usize = 0;
    while k < listed.len()
        invariant
            lv == listed_view(listed@),
            k <= listed.len(),
            forall|j: int| 0 <= j < k ==> #[trigger] lv[j].0 != path@,
        decreases listed.len() - k,
    {
        if same_chars(listed[k].path.as_str(), path) {
            proof {
                assert(lv[k as int].0 == path@);
            }
            return true;
        }
        k = k + 1;
    }
    false
}

/// The positions of the listed files to read again: each file whose path can name a document
/// (`valid`, one flag per listed file) and whose stamp is not the one last seen at its path.
pub fn stale_files(listed: &Vec<Listed>, valid: &Vec<bool>, known: &Vec<Listed>) -> (picked: Vec<usize>)
    requires
        valid.len() == listed.len(),
    ensures
        picked@ == stale_upto(listed_view(listed@), valid@, listed_view(known@), listed.len() as int),
{
    let mut picked: Vec<usize> = Vec::new();
    let mut k: usize = 0;
    while k < listed.len()
        invariant
            valid.len() == listed.len(),
            k <= listed.len(),
            picked@ == stale_upto(listed_view(listed@), valid@, listed_view(known@), k as int),
        decreases listed.len() - k,
    {
        if valid[k] {
            let seen = find_stamp(known, listed[k].path.as_str());
            let moved = match seen {
                Some(s) => !same_stamp(&s, &listed[k].stamp),
                None => true,
            };
            if moved {
                picked.push(k);
            }
        }
        k = k + 1;
    }
    picked
}

/// The stamps last seen, kept only for the files still listed.
pub fn still_listed(known: &Vec<Listed>, listed: &Vec<Listed>) -> (kept: Vec<Listed>)
    ensures
        listed_view(kept@) == kept_upto(listed_view(known@), listed_view(listed@), known.len() as int),
{
    let mut kept: Vec<Listed> = Vec::new();
    let mut k: usize = 0;
    while k < known.len()
        invariant
            k <= known.len(),
            listed_view(kept@) == kept_upto(listed_view(known@), listed_view(listed@), k as int),
        decreases known.len() - k,
    {
        if listed_at(listed, known[k].path.as_str()) {
            let entry = Listed { path: known[k].path.clone(), stamp: known[k].stamp };
            let ghost before = kept@;
            kept.push(entry);
            proof {
                assert(listed_view(kept@) =~= listed_view(before).push(listed_view(known@)[k as int]));
            }
        }
        k = k + 1;
    }
    kept
}

/// Whether the head holds these bytes at `path`.
fn head_has(head: &Vec<HeadFile>, path: &str, bytes: &Vec<u8>) -> (held: bool)
    ensures
        held == head_holds(head_view(head@), path@, bytes@),
{
    match find_stored(head, path) {
        Some(s) => holds(s, bytes),
        None => false,
    }
}

/// What the files read from disk change: a put for each file whose bytes the head does not hold,
/// in the order read, then a removal for each document of the head that no file listed on disk
/// sits at; and, in the order read, the files whose stamps are settled at `now`, nanoseconds from
/// the Unix epoch.
pub fn hand_edits(read: &Vec<ReadFile>, listed: &Vec<Listed>, head: &Vec<HeadFile>, now: i128) -> (edits: HandEdits)
    ensures
        write_view(edits.writes@) == puts_upto(read_view(read@), head_view(head@), read.len() as int) + removals_upto(
            head_view(head@),
            listed_view(listed@),
            head.len() as int,
        ),
        listed_view(edits.settled@) == settled_upto(read_view(read@), now as int, read.len() as int),
{
    let ghost rv = read_view(read@);
    let ghost hv = head_view(head@);
    let mut writes: Vec<Write> = Vec::new();
    let mut settled_files: Vec<Listed> = Vec::new();
    let mut k: usize = 0;
    while k < read.len()
        invariant
            rv == read_view(read@),
            hv == head_view(head@),
            k <= read.len(),
            write_view(writes@) == puts_upto(rv, hv, k as int),
            listed_view(settled_files@) == settled_upto(rv, now as int, k as int),
        decreases read.len() - k,
    {
        let file = &read[k];
        if file.stamp.is_settled(now) {
            let ghost before = settled_files@;
            settled_files.push(Listed { path: file.path.clone(), stamp: file.stamp });
            proof {
                assert(listed_view(settled_files@) =~= listed_view(before).push((rv[k as int].0, rv[k as int].1)));
            }
        }
        if !head_has(head, file.path.as_str(), &file.bytes) {
            let ghost before = writes@;
            writes.push(Write { path: file.path.clone(), content: Some(file.bytes.clone()) });
            proof {
                assert(write_view(writes@) =~= write_view(before).push((rv[k as int].0, Some(rv[k as int].2))));
            }
        }
        k = k + 1;
    }
    let ghost puts = write_view(writes@);
    let mut h: usize = 0;
    proof {
        assert(write_view(writes@) =~= puts + removals_upto(hv, listed_view(listed@), 0));
    }
    while h < head.len()
        invariant
            hv == head_view(head@),
            h <= head.len(),
            write_view(writes@) == puts + removals_upto(hv, listed_view(listed@), h as int),
        decreases head.len() - h,
    {
        if !listed_at(listed, head[h].path.as_str()) {
            let ghost before = writes@;
            writes.push(Write { path: head[h].path.clone(), content: None });
            proof {
                assert(write_view(writes@) =~= write_view(before).push((hv[h as int].0, None)));
            }
        }
        h = h + 1;
    }
    HandEdits { writes, settled: settled_files }
}

} // verus!

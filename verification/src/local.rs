//! What a write to the local store changes: the last write to each path, in path order, with how
//! it changes the document the head holds there. A write that leaves a document as it is changes
//! nothing, and a write that changes nothing records no revision.
use std::cmp::Ordering;

use vstd::prelude::*;

use crate::history::DocumentChangeKind;
use crate::order::text_lex;
use crate::store::{hash, hex_text, sha256_of, Stored};
use crate::text::{lemma_lex_equal, lemma_lex_flip, lemma_lex_transitive, same_chars, text_order};

verus! {

/// One change a write asks for: the bytes to put at a path, or none to remove it.
#[derive(Debug, PartialEq, Eq)]
pub struct Write {
    pub path: String,
    pub content: Option<Vec<u8>>,
}

/// A document the head of the local store holds.
#[derive(Debug)]
pub struct HeadFile {
    pub path: String,
    pub stored: Stored,
}

/// A change a write makes: the path, what it puts there, and how it changes the document.
#[derive(Debug, PartialEq, Eq)]
pub struct Planned {
    pub path: String,
    pub content: Option<Vec<u8>>,
    pub kind: DocumentChangeKind,
}

/// Where a document's bytes are, as plain values.
pub enum StoredView {
    Held(Seq<u8>),
    InHistory(Seq<char>),
}

/// A stored document as plain values.
pub open spec fn stored_view(s: Stored) -> StoredView {
    match s {
        Stored::Held(b) => StoredView::Held(b@),
        Stored::InHistory { hash } => StoredView::InHistory(hash@),
    }
}

/// Optional bytes as plain values.
pub open spec fn bytes_view(content: Option<Vec<u8>>) -> Option<Seq<u8>> {
    match content {
        Some(b) => Some(b@),
        None => None,
    }
}

/// The writes as plain values.
pub open spec fn writes_view(writes: Seq<Write>) -> Seq<(Seq<char>, Option<Seq<u8>>)> {
    Seq::new(writes.len(), |k: int| (writes[k].path@, bytes_view(writes[k].content)))
}

/// The head as plain values.
pub open spec fn head_view(head: Seq<HeadFile>) -> Seq<(Seq<char>, StoredView)> {
    Seq::new(head.len(), |k: int| (head[k].path@, stored_view(head[k].stored)))
}

/// What the head holds at `path`, among its first `m` documents: the first one there.
pub open spec fn stored_at(head: Seq<(Seq<char>, StoredView)>, path: Seq<char>, m: int) -> Option<StoredView>
    decreases m,
{
    if m <= 0 {
        None
    } else {
        match stored_at(head, path, m - 1) {
            Some(s) => Some(s),
            None => if head[m - 1].0 == path {
                Some(head[m - 1].1)
            } else {
                None
            },
        }
    }
}

/// The stored document holds these bytes: the same bytes, or the name the history keeps them under.
pub open spec fn holds_bytes(stored: StoredView, bytes: Seq<u8>) -> bool {
    match stored {
        StoredView::Held(held) => held == bytes,
        StoredView::InHistory(name) => name == hex_text(sha256_of(bytes)),
    }
}

/// How putting `content` at `path` changes the head: a new document is added, a removed one is
/// removed, and one that holds other bytes is modified; anything else changes nothing.
pub open spec fn change_kind(head: Seq<(Seq<char>, StoredView)>, path: Seq<char>, content: Option<Seq<u8>>) -> Option<DocumentChangeKind> {
    match (stored_at(head, path, head.len() + 0int), content) {
        (None, Some(_)) => Some(DocumentChangeKind::Added),
        (Some(_), None) => Some(DocumentChangeKind::Removed),
        (Some(s), Some(new)) => if holds_bytes(s, new) {
            None
        } else {
            Some(DocumentChangeKind::Modified)
        },
        (None, None) => None,
    }
}

/// What the last of the first `m` writes to `path` puts there, if any of them writes to it.
pub open spec fn last_write(writes: Seq<(Seq<char>, Option<Seq<u8>>)>, path: Seq<char>, m: int) -> Option<Option<Seq<u8>>>
    decreases m,
{
    if m <= 0 {
        None
    } else if writes[m - 1].0 == path {
        Some(writes[m - 1].1)
    } else {
        last_write(writes, path, m - 1)
    }
}

/// One path comes strictly before another, byte by byte.
pub open spec fn path_before(a: Seq<char>, b: Seq<char>) -> bool {
    text_lex(a, b) == Ordering::Less
}

/// The paths come in strictly increasing byte order.
pub open spec fn paths_increase(paths: Seq<Seq<char>>) -> bool {
    forall|i: int, j: int| 0 <= i < j < paths.len() ==> path_before(#[trigger] paths[i], #[trigger] paths[j])
}

/// The change a write plans, as plain values.
pub open spec fn planned_view(p: Planned) -> (Seq<char>, Option<Seq<u8>>, DocumentChangeKind) {
    (p.path@, bytes_view(p.content), p.kind)
}

/// Text order is strict and transitive.
pub proof fn lemma_before_transitive(a: Seq<char>, b: Seq<char>, c: Seq<char>)
    requires
        path_before(a, b),
        path_before(b, c),
    ensures
        path_before(a, c),
{
    lemma_lex_transitive(vstd::utf8::encode_utf8(a), vstd::utf8::encode_utf8(b), vstd::utf8::encode_utf8(c));
}

/// Two texts that order as equal are the same text.
proof fn lemma_equal_texts(a: Seq<char>, b: Seq<char>)
    requires
        text_lex(a, b) == Ordering::Equal,
    ensures
        a == b,
{
    lemma_lex_equal(vstd::utf8::encode_utf8(a), vstd::utf8::encode_utf8(b));
    vstd::utf8::encode_utf8_decode_utf8(a);
    vstd::utf8::encode_utf8_decode_utf8(b);
}

/// No path comes before itself, and of two different paths one comes before the other.
pub proof fn lemma_before_total(a: Seq<char>, b: Seq<char>)
    ensures
        !path_before(a, a),
        !path_before(a, b) && !path_before(b, a) ==> a == b,
        path_before(a, b) ==> !path_before(b, a),
{
    lemma_lex_flip(vstd::utf8::encode_utf8(a), vstd::utf8::encode_utf8(a));
    lemma_lex_flip(vstd::utf8::encode_utf8(a), vstd::utf8::encode_utf8(b));
    if !path_before(a, b) && !path_before(b, a) {
        lemma_equal_texts(a, b);
    }
}

/// Whether one path comes strictly before another, byte by byte.
pub fn comes_before(a: &str, b: &str) -> (before: bool)
    ensures
        before == path_before(a@, b@),
{
    match text_order(a, b) {
        Ordering::Less => true,
        _ => false,
    }
}

/// A copy of optional bytes.
fn copy_content(content: &Option<Vec<u8>>) -> (copy: Option<Vec<u8>>)
    ensures
        bytes_view(copy) == bytes_view(*content),
{
    match content {
        Some(bytes) => {
            let mut out: Vec<u8> = Vec::new();
            let mut k: usize = 0;
            while k < bytes.len()
                invariant
                    k <= bytes.len(),
                    out@ == bytes@.take(k + 0int),
                decreases bytes.len() - k,
            {
                out.push(bytes[k]);
                proof {
                    assert(bytes@.take(k + 1) =~= bytes@.take(k + 0int).push(bytes@[k + 0int]));
                }
                k = k + 1;
            }
            proof {
                assert(bytes@.take(bytes.len() + 0int) =~= bytes@);
            }
            Some(out)
        },
        None => None,
    }
}

/// The last write to each path, in path order.
fn last_writes(writes: &Vec<Write>) -> (merged: Vec<Write>)
    ensures
        paths_increase(Seq::new(merged@.len(), |k: int| merged@[k].path@)),
        forall|k: int|
            0 <= k < merged@.len() ==> last_write(writes_view(writes@), (#[trigger] merged@[k]).path@, writes@.len() + 0int)
                == Some(bytes_view(merged@[k].content)),
        forall|p: Seq<char>|
            #[trigger] last_write(writes_view(writes@), p, writes@.len() + 0int) is Some ==> exists|k: int|
                0 <= k < merged@.len() && merged@[k].path@ == p,
{
    let ghost ws = writes_view(writes@);
    let mut merged: Vec<Write> = Vec::new();
    let mut i: usize = 0;
    while i < writes.len()
        invariant
            ws == writes_view(writes@),
            i <= writes.len(),
            paths_increase(Seq::new(merged@.len(), |k: int| merged@[k].path@)),
            forall|k: int|
                0 <= k < merged@.len() ==> last_write(ws, (#[trigger] merged@[k]).path@, i + 0int) == Some(bytes_view(merged@[k].content)),
            forall|p: Seq<char>| #[trigger] last_write(ws, p, i + 0int) is Some ==> exists|k: int| 0 <= k < merged@.len() && merged@[k].path@ == p,
        decreases writes.len() - i,
    {
        let w = &writes[i];
        let ghost p = w.path@;
        let ghost before = merged@;
        let ghost paths = Seq::new(before.len(), |k: int| before[k].path@);
        let mut k: usize = 0;
        while k < merged.len() && comes_before(merged[k].path.as_str(), w.path.as_str())
            invariant
                merged@ == before,
                k <= merged@.len(),
                forall|j: int| 0 <= j < k ==> path_before(#[trigger] merged@[j].path@, p),
                p == w.path@,
            decreases merged.len() - k,
        {
            k = k + 1;
        }
        let entry = Write { path: w.path.clone(), content: copy_content(&w.content) };
        proof {
            assert(ws[i + 0int] == (p, bytes_view(w.content)));
        }
        if k < merged.len() && same_chars(merged[k].path.as_str(), w.path.as_str()) {
            merged.set(k, entry);
            proof {
                let after = merged@;
                assert(Seq::new(after.len(), |j: int| after[j].path@) =~= paths);
                assert forall|j: int| 0 <= j < after.len() implies last_write(ws, (#[trigger] after[j]).path@, i + 1) == Some(bytes_view(after[j].content)) by {
                    if j != k {
                        assert(after[j] == before[j]);
                        assert(paths[j] != paths[k + 0int]) by {
                            if j < k {
                                assert(path_before(paths[j], paths[k + 0int]));
                            } else {
                                assert(path_before(paths[k + 0int], paths[j]));
                            }
                            lemma_lex_equal(vstd::utf8::encode_utf8(paths[j]), vstd::utf8::encode_utf8(paths[k + 0int]));
                        }
                    }
                }
                assert forall|q: Seq<char>| #[trigger] last_write(ws, q, i + 1) is Some implies exists|j: int| 0 <= j < after.len() && after[j].path@ == q by {
                    if q != p {
                        assert(last_write(ws, q, i + 1) == last_write(ws, q, i + 0int));
                        let j = choose|j: int| 0 <= j < before.len() && before[j].path@ == q;
                        assert(after[j].path@ == q);
                    } else {
                        assert(after[k + 0int].path@ == q);
                    }
                }
            }
        } else {
            proof {
                if k < before.len() {
                    let c = text_lex(paths[k + 0int], p);
                    assert(c != Ordering::Less);
                    if c == Ordering::Equal {
                        lemma_equal_texts(paths[k + 0int], p);
                    }
                    lemma_lex_flip(vstd::utf8::encode_utf8(paths[k + 0int]), vstd::utf8::encode_utf8(p));
                    assert(path_before(p, paths[k + 0int]));
                }
            }
            merged.insert(k, entry);
            proof {
                let after = merged@;
                assert(after =~= before.insert(k + 0int, entry));
                let after_paths = Seq::new(after.len(), |j: int| after[j].path@);
                assert forall|a: int, b: int| 0 <= a < b < after_paths.len() implies path_before(#[trigger] after_paths[a], #[trigger] after_paths[b]) by {
                    if b < k {
                        assert(after_paths[a] == paths[a] && after_paths[b] == paths[b]);
                    } else if b == k {
                        assert(after_paths[a] == paths[a]);
                    } else if a == k {
                        assert(after_paths[b] == paths[b - 1]);
                        if b - 1 > k {
                            assert(path_before(paths[k + 0int], paths[b - 1]));
                            lemma_before_transitive(p, paths[k + 0int], paths[b - 1]);
                        }
                    } else if a < k {
                        assert(after_paths[a] == paths[a] && after_paths[b] == paths[b - 1]);
                        if a < b - 1 {
                        } else {
                            assert(false);
                        }
                    } else {
                        assert(after_paths[a] == paths[a - 1] && after_paths[b] == paths[b - 1]);
                    }
                }
                assert forall|j: int| 0 <= j < after.len() implies last_write(ws, (#[trigger] after[j]).path@, i + 1) == Some(bytes_view(after[j].content)) by {
                    if j < k {
                        assert(after[j] == before[j]);
                        assert(path_before(paths[j], p));
                        assert(paths[j] != p) by {
                            lemma_lex_equal(vstd::utf8::encode_utf8(paths[j]), vstd::utf8::encode_utf8(p));
                        }
                    } else if j > k {
                        assert(after[j] == before[j - 1]);
                        assert(path_before(p, paths[j - 1])) by {
                            if j - 1 > k {
                                assert(path_before(paths[k + 0int], paths[j - 1]));
                                lemma_before_transitive(p, paths[k + 0int], paths[j - 1]);
                            }
                        }
                        assert(paths[j - 1] != p) by {
                            lemma_lex_equal(vstd::utf8::encode_utf8(p), vstd::utf8::encode_utf8(paths[j - 1]));
                        }
                    }
                }
                assert forall|q: Seq<char>| #[trigger] last_write(ws, q, i + 1) is Some implies exists|j: int| 0 <= j < after.len() && after[j].path@ == q by {
                    if q != p {
                        assert(last_write(ws, q, i + 1) == last_write(ws, q, i + 0int));
                        let j = choose|j: int| 0 <= j < before.len() && before[j].path@ == q;
                        if j < k {
                            assert(after[j].path@ == q);
                        } else {
                            assert(after[j + 1].path@ == q);
                        }
                    } else {
                        assert(after[k + 0int].path@ == q);
                    }
                }
            }
        }
        i = i + 1;
    }
    merged
}

/// What the head holds at `path`.
pub(crate) fn find_stored<'a>(head: &'a Vec<HeadFile>, path: &str) -> (stored: Option<&'a Stored>)
    ensures
        match stored {
            Some(s) => stored_at(head_view(head@), path@, head@.len() + 0int) == Some(stored_view(*s)),
            None => stored_at(head_view(head@), path@, head@.len() + 0int) is None,
        },
{
    let ghost hv = head_view(head@);
    let mut k: usize = 0;
    while k < head.len()
        invariant
            hv == head_view(head@),
            k <= head.len(),
            stored_at(hv, path@, k + 0int) is None,
        decreases head.len() - k,
    {
        if same_chars(head[k].path.as_str(), path) {
            proof {
                assert(stored_at(hv, path@, k + 1) == Some(stored_view(head@[k + 0int].stored)));
                lemma_stored_at_first(hv, path@, k + 1, head@.len() + 0int);
            }
            return Some(&head[k].stored);
        }
        k = k + 1;
    }
    None
}

/// Once a document at `path` is found, later ones do not change what the head holds there.
proof fn lemma_stored_at_first(head: Seq<(Seq<char>, StoredView)>, path: Seq<char>, a: int, b: int)
    requires
        a <= b,
        stored_at(head, path, a) is Some,
    ensures
        stored_at(head, path, b) == stored_at(head, path, a),
    decreases b - a,
{
    if a < b {
        lemma_stored_at_first(head, path, a, b - 1);
    }
}

/// Whether a stored document holds these bytes.
pub(crate) fn holds(stored: &Stored, bytes: &Vec<u8>) -> (held: bool)
    ensures
        held == holds_bytes(stored_view(*stored), bytes@),
{
    match stored {
        Stored::Held(kept) => {
            if kept.len() != bytes.len() {
                return false;
            }
            let mut k: usize = 0;
            while k < kept.len()
                invariant
                    stored_view(*stored) == StoredView::Held(kept@),
                    kept.len() == bytes.len(),
                    k <= kept.len(),
                    forall|j: int| 0 <= j < k ==> kept@[j] == bytes@[j],
                decreases kept.len() - k,
            {
                if kept[k] != bytes[k] {
                    proof {
                        assert(kept@[k + 0int] != bytes@[k + 0int]);
                        assert(kept@ != bytes@);
                    }
                    return false;
                }
                k = k + 1;
            }
            proof {
                assert(kept@ =~= bytes@);
            }
            true
        },
        Stored::InHistory { hash: name } => {
            let digest = hash(bytes);
            same_chars(name.as_str(), digest.as_str())
        },
    }
}

/// How putting `content` at `path` changes the head.
fn kind_of(head: &Vec<HeadFile>, path: &str, content: &Option<Vec<u8>>) -> (kind: Option<DocumentChangeKind>)
    ensures
        kind == change_kind(head_view(head@), path@, bytes_view(*content)),
{
    match (find_stored(head, path), content) {
        (None, Some(_)) => Some(DocumentChangeKind::Added),
        (Some(_), None) => Some(DocumentChangeKind::Removed),
        (Some(s), Some(new)) => if holds(s, new) {
            None
        } else {
            Some(DocumentChangeKind::Modified)
        },
        (None, None) => None,
    }
}

/// The changes a write makes to the head: for each path it writes, in path order, the last bytes
/// written there and how they change the document; a path left as it was drops out.
pub fn plan_writes(head: &Vec<HeadFile>, writes: &Vec<Write>) -> (planned: Vec<Planned>)
    ensures
        paths_increase(Seq::new(planned@.len(), |k: int| planned@[k].path@)),
        forall|k: int|
            0 <= k < planned@.len() ==> {
                let (p, c, kind) = planned_view(#[trigger] planned@[k]);
                &&& last_write(writes_view(writes@), p, writes@.len() + 0int) == Some(c)
                &&& change_kind(head_view(head@), p, c) == Some(kind)
            },
        forall|p: Seq<char>|
            #![trigger last_write(writes_view(writes@), p, writes@.len() + 0int)]
            (last_write(writes_view(writes@), p, writes@.len() + 0int) matches Some(c) && change_kind(head_view(head@), p, c) is Some) ==> exists|k: int|
                0 <= k < planned@.len() && planned@[k].path@ == p,
{
    let merged = last_writes(writes);
    let ghost ws = writes_view(writes@);
    let ghost hv = head_view(head@);
    let ghost paths = Seq::new(merged@.len(), |j: int| merged@[j].path@);
    let mut planned: Vec<Planned> = Vec::new();
    let ghost mut chosen: Seq<int> = Seq::empty();
    let mut k: usize = 0;
    while k < merged.len()
        invariant
            ws == writes_view(writes@),
            hv == head_view(head@),
            paths == Seq::new(merged@.len(), |j: int| merged@[j].path@),
            k <= merged.len(),
            paths_increase(paths),
            forall|j: int| 0 <= j < merged@.len() ==> last_write(ws, (#[trigger] merged@[j]).path@, writes@.len() + 0int) == Some(bytes_view(merged@[j].content)),
            chosen.len() == planned@.len(),
            forall|a: int| 0 <= a < chosen.len() ==> 0 <= #[trigger] chosen[a] < k,
            forall|a: int, b: int| 0 <= a < b < chosen.len() ==> #[trigger] chosen[a] < #[trigger] chosen[b],
            forall|a: int|
                0 <= a < planned@.len() ==> {
                    &&& (#[trigger] planned@[a]).path@ == paths[chosen[a]]
                    &&& bytes_view(planned@[a].content) == bytes_view(merged@[chosen[a]].content)
                    &&& change_kind(hv, paths[chosen[a]], bytes_view(merged@[chosen[a]].content)) == Some(planned@[a].kind)
                },
            forall|j: int|
                0 <= j < k && change_kind(hv, paths[j], bytes_view(merged@[j].content)) is Some ==> exists|a: int| 0 <= a < chosen.len() && #[trigger] chosen[a] == j,
        decreases merged.len() - k,
    {
        let w = &merged[k];
        let ghost old_chosen = chosen;
        match kind_of(head, w.path.as_str(), &w.content) {
            Some(kind) => {
                planned.push(Planned { path: w.path.clone(), content: copy_content(&w.content), kind });
                proof {
                    chosen = chosen.push(k + 0int);
                    assert(chosen[chosen.len() - 1] == k);
                }
            },
            None => {},
        }
        proof {
            assert forall|j: int|
                0 <= j < k + 1 && change_kind(hv, paths[j], bytes_view(merged@[j].content)) is Some implies exists|a: int| 0 <= a < chosen.len() && #[trigger] chosen[a] == j by {
                if j == k {
                    assert(chosen[chosen.len() - 1] == j);
                } else {
                    let a = choose|a: int| 0 <= a < old_chosen.len() && #[trigger] old_chosen[a] == j;
                    assert(chosen[a] == j);
                }
            }
        }
        k = k + 1;
    }
    proof {
        let out = Seq::new(planned@.len(), |j: int| planned@[j].path@);
        assert forall|a: int, b: int| 0 <= a < b < out.len() implies path_before(#[trigger] out[a], #[trigger] out[b]) by {
            assert(chosen[a] < chosen[b]);
            assert(path_before(paths[chosen[a]], paths[chosen[b]]));
        }
        assert forall|a: int| 0 <= a < planned@.len() implies {
            let (p, c, kind) = planned_view(#[trigger] planned@[a]);
            &&& last_write(ws, p, writes@.len() + 0int) == Some(c)
            &&& change_kind(hv, p, c) == Some(kind)
        } by {
            assert(merged@[chosen[a]].path@ == paths[chosen[a]]);
        }
        assert forall|p: Seq<char>|
            #![trigger last_write(ws, p, writes@.len() + 0int)]
            (last_write(ws, p, writes@.len() + 0int) matches Some(c) && change_kind(hv, p, c) is Some) implies exists|a: int|
                0 <= a < planned@.len() && planned@[a].path@ == p by {
            let j = choose|j: int| 0 <= j < merged@.len() && merged@[j].path@ == p;
            assert(paths[j] == p);
            let a = choose|a: int| 0 <= a < chosen.len() && #[trigger] chosen[a] == j;
            assert(planned@[a].path@ == p);
        }
    }
    planned
}


/// How the head of the local store catches up with a history that another process may have
/// written to.
#[derive(Debug, Clone, Copy, PartialEq, Eq)]
pub enum CatchUp {
    /// The head is the latest revision: nothing to do.
    Current,
    /// The history moved on from the head: replay its changes up to revision `to`.
    Forward { to: i64 },
    /// The history names no line of moves from the head, as when it went back: read it whole.
    Reread,
}

/// What catching up takes, from the revision the head holds and the latest one the history
/// holds, each where there is one.
pub fn catch_up_plan(held: Option<i64>, latest: Option<i64>) -> (plan: CatchUp)
    ensures
        plan == (if latest == held {
            CatchUp::Current
        } else {
            match latest {
                Some(to) => if held is None || held.unwrap() < to {
                    CatchUp::Forward { to }
                } else {
                    CatchUp::Reread
                },
                None => CatchUp::Reread,
            }
        }),
{
    match (held, latest) {
        (None, None) => CatchUp::Current,
        (Some(h), Some(to)) => if h == to {
            CatchUp::Current
        } else if h < to {
            CatchUp::Forward { to }
        } else {
            CatchUp::Reread
        },
        (None, Some(to)) => CatchUp::Forward { to },
        (Some(_), None) => CatchUp::Reread,
    }
}


/// What a write to the local store comes to.
#[derive(Debug, Clone, Copy, PartialEq, Eq)]
pub enum Applied {
    /// The write changes no document: no revision is recorded.
    Nothing,
    /// Another writer moved the history past the revision the write started from: nothing is
    /// recorded, and the write is tried again on the new head.
    Moved,
    /// The revision is recorded.
    Done,
}

/// What a write comes to, from the changes it plans and from the revision it started from
/// (`expected`) against the latest one the history holds: nothing where it plans no change, moved
/// where the history moved on meanwhile, else recorded.
pub fn apply_outcome(planned: &Vec<Planned>, expected: Option<i64>, latest: Option<i64>) -> (outcome: Applied)
    ensures
        outcome == (if planned.len() == 0 {
            Applied::Nothing
        } else if latest != expected {
            Applied::Moved
        } else {
            Applied::Done
        }),
{
    if planned.len() == 0 {
        Applied::Nothing
    } else if latest != expected {
        Applied::Moved
    } else {
        Applied::Done
    }
}

/// A write that changes nothing records no revision: where no path it writes changes the
/// document the head holds there, it plans no change, so it comes to nothing.
pub proof fn lemma_no_change_no_revision(
    head: Seq<(Seq<char>, StoredView)>,
    writes: Seq<(Seq<char>, Option<Seq<u8>>)>,
    planned: Seq<Planned>,
)
    requires
        forall|k: int|
            0 <= k < planned.len() ==> {
                let (q, c, kind) = planned_view(#[trigger] planned[k]);
                &&& last_write(writes, q, writes.len() + 0int) == Some(c)
                &&& change_kind(head, q, c) == Some(kind)
            },
        forall|p: Seq<char>|
            #[trigger] last_write(writes, p, writes.len() + 0int) matches Some(c) ==> change_kind(head, p, c) is None,
    ensures
        planned.len() == 0,
{
    if planned.len() > 0 {
        let (q, c, kind) = planned_view(planned[0]);
        assert(last_write(writes, q, writes.len() + 0int) == Some(c));
    }
}

} // verus!

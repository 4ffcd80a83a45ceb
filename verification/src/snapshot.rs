//! The documents the head of the local store holds after a revision: each path written holds what
//! its last write put there, a removed one holds nothing, and every other document stays. The head
//! keeps its documents in increasing path order, one per path, as a map keyed by path does.
use vstd::prelude::*;

use crate::local::{
    change_kind, head_view, holds_bytes, last_write, lemma_before_total, lemma_before_transitive, path_before,
    paths_increase, planned_view, stored_at, stored_view, HeadFile, Planned, StoredView,
};
use crate::store::{hex_text, sha256_of, Stored, HELD_BYTES};
use crate::text::same_chars;

verus! {

/// The paths of the documents, in their order.
pub open spec fn head_paths(head: Seq<(Seq<char>, StoredView)>) -> Seq<Seq<char>> {
    Seq::new(head.len(), |k: int| head[k].0)
}

/// What a write leaves at its path, as plain values.
pub open spec fn left_view(left: Option<Stored>) -> Option<StoredView> {
    match left {
        Some(s) => Some(stored_view(s)),
        None => None,
    }
}

/// The writes a revision records, as plain values.
pub open spec fn recorded_view(writes: Seq<(String, Option<Stored>)>) -> Seq<(Seq<char>, Option<StoredView>)> {
    Seq::new(writes.len(), |k: int| (writes[k].0@, left_view(writes[k].1)))
}

/// What the last of the first `m` writes to `path` leaves there, if any of them writes to it.
pub open spec fn last_recorded(writes: Seq<(Seq<char>, Option<StoredView>)>, path: Seq<char>, m: int) -> Option<
    Option<StoredView>,
>
    decreases m,
{
    if m <= 0 {
        None
    } else if writes[m - 1].0 == path {
        Some(writes[m - 1].1)
    } else {
        last_recorded(writes, path, m - 1)
    }
}

/// What the head holds at `path` once the first `m` writes are recorded: what the last of them to
/// write there left, else what the head held.
pub open spec fn held_after(
    head: Seq<(Seq<char>, StoredView)>,
    writes: Seq<(Seq<char>, Option<StoredView>)>,
    m: int,
    path: Seq<char>,
) -> Option<StoredView> {
    match last_recorded(writes, path, m) {
        Some(left) => left,
        None => stored_at(head, path, head.len() as int),
    }
}

/// In documents of increasing paths, the document at the path of entry `k` is that entry's.
proof fn lemma_found(head: Seq<(Seq<char>, StoredView)>, k: int, m: int)
    requires
        paths_increase(head_paths(head)),
        0 <= k < m <= head.len(),
    ensures
        stored_at(head, head[k].0, m) == Some(head[k].1),
    decreases m,
{
    if m - 1 > k {
        lemma_found(head, k, m - 1);
    } else {
        assert forall|j: int| 0 <= j < k implies head[j].0 != head[k].0 by {
            lemma_distinct(head, j, k);
        }
        lemma_absent(head, head[k].0, k);
    }
}

/// Among the first `m` documents, none at `path` means nothing held there.
proof fn lemma_absent(head: Seq<(Seq<char>, StoredView)>, path: Seq<char>, m: int)
    requires
        0 <= m <= head.len(),
        forall|j: int| 0 <= j < m ==> head[j].0 != path,
    ensures
        stored_at(head, path, m) is None,
    decreases m,
{
    if m > 0 {
        lemma_absent(head, path, m - 1);
    }
}

/// In documents of increasing paths, distinct entries sit at distinct paths.
proof fn lemma_distinct(head: Seq<(Seq<char>, StoredView)>, j: int, k: int)
    requires
        paths_increase(head_paths(head)),
        0 <= j < head.len(),
        0 <= k < head.len(),
        j != k,
    ensures
        head[j].0 != head[k].0,
{
    let paths = head_paths(head);
    assert(paths[j] == head[j].0 && paths[k] == head[k].0);
    lemma_before_total(head[j].0, head[k].0);
    if j < k {
        assert(path_before(paths[j], paths[k]));
    } else {
        assert(path_before(paths[k], paths[j]));
    }
}

/// What documents of increasing paths hold at a path: the entry there, or nothing.
proof fn lemma_lookup(head: Seq<(Seq<char>, StoredView)>, path: Seq<char>)
    requires
        paths_increase(head_paths(head)),
    ensures
        forall|k: int| 0 <= k < head.len() && head[k].0 == path ==> stored_at(head, path, head.len() as int) == Some(head[k].1),
        (forall|k: int| 0 <= k < head.len() ==> head[k].0 != path) ==> stored_at(head, path, head.len() as int) is None,
{
    assert forall|k: int| 0 <= k < head.len() && head[k].0 == path implies stored_at(head, path, head.len() as int) == Some(
        head[k].1,
    ) by {
        lemma_found(head, k, head.len() as int);
    }
    if forall|k: int| 0 <= k < head.len() ==> head[k].0 != path {
        lemma_absent(head, path, head.len() as int);
    }
}

/// One write recorded: the head holds what it left at its path, the same elsewhere, and keeps its
/// paths increasing.
proof fn lemma_one_write(
    before: Seq<(Seq<char>, StoredView)>,
    after: Seq<(Seq<char>, StoredView)>,
    path: Seq<char>,
    left: Option<StoredView>,
)
    requires
        paths_increase(head_paths(before)),
        paths_increase(head_paths(after)),
        forall|k: int| 0 <= k < after.len() && after[k].0 == path ==> Some(after[k].1) == left,
        left is Some ==> exists|k: int| 0 <= k < after.len() && after[k].0 == path,
        forall|k: int| 0 <= k < before.len() && before[k].0 != path ==> #[trigger] after.contains(before[k]),
        forall|k: int| 0 <= k < after.len() && after[k].0 != path ==> #[trigger] before.contains(after[k]),
    ensures
        forall|p: Seq<char>|
            #[trigger] stored_at(after, p, after.len() as int) == if p == path {
                left
            } else {
                stored_at(before, p, before.len() as int)
            },
{
    assert forall|p: Seq<char>|
        #[trigger] stored_at(after, p, after.len() as int) == if p == path {
            left
        } else {
            stored_at(before, p, before.len() as int)
        } by {
        lemma_lookup(after, p);
        lemma_lookup(before, p);
        if p == path {
            if left is Some {
                let k = choose|k: int| 0 <= k < after.len() && after[k].0 == path;
                assert(Some(after[k].1) == left);
            } else {
                assert forall|k: int| 0 <= k < after.len() implies after[k].0 != p by {
                    if after[k].0 == p {
                        assert(Some(after[k].1) == left);
                    }
                }
            }
        } else {
            if exists|k: int| 0 <= k < before.len() && before[k].0 == p {
                let k = choose|k: int| 0 <= k < before.len() && before[k].0 == p;
                assert(after.contains(before[k]));
                let a = choose|a: int| 0 <= a < after.len() && after[a] == before[k];
                assert(after[a].0 == p);
            } else {
                assert forall|a: int| 0 <= a < after.len() implies after[a].0 != p by {
                    if after[a].0 == p {
                        assert(before.contains(after[a]));
                        let k = choose|k: int| 0 <= k < before.len() && before[k] == after[a];
                        assert(before[k].0 == p);
                    }
                }
            }
        }
    }
}

/// Replacing what sits at a path keeps the paths increasing.
proof fn lemma_update_increasing(before: Seq<(Seq<char>, StoredView)>, at: int, q: Seq<char>, v: StoredView)
    requires
        paths_increase(head_paths(before)),
        0 <= at < before.len(),
        before[at].0 == q,
    ensures
        paths_increase(head_paths(before.update(at, (q, v)))),
{
    let after = before.update(at, (q, v));
    let bp = head_paths(before);
    let ap = head_paths(after);
    assert forall|x: int, y: int| 0 <= x < y < ap.len() implies path_before(#[trigger] ap[x], #[trigger] ap[y]) by {
        assert(bp[x] == before[x].0 && bp[y] == before[y].0);
        assert(ap[x] == bp[x] && ap[y] == bp[y]);
    }
}

/// Inserting a path between those before it and those after it keeps the paths increasing.
proof fn lemma_insert_increasing(before: Seq<(Seq<char>, StoredView)>, at: int, q: Seq<char>, v: StoredView)
    requires
        paths_increase(head_paths(before)),
        0 <= at <= before.len(),
        forall|j: int| 0 <= j < at ==> path_before(#[trigger] before[j].0, q),
        at < before.len() ==> path_before(q, before[at].0),
    ensures
        paths_increase(head_paths(before.insert(at, (q, v)))),
{
    let after = before.insert(at, (q, v));
    let bp = head_paths(before);
    let ap = head_paths(after);
    assert forall|x: int, y: int| 0 <= x < y < ap.len() implies path_before(#[trigger] ap[x], #[trigger] ap[y]) by {
        if y < at {
            assert(bp[x] == before[x].0 && bp[y] == before[y].0);
        } else if y == at {
            assert(path_before(before[x].0, q));
        } else if x == at {
            assert(ap[y] == before[y - 1].0);
            if y - 1 > at {
                assert(bp[at] == before[at].0 && bp[y - 1] == before[y - 1].0);
                lemma_before_transitive(q, before[at].0, before[y - 1].0);
            }
        } else if x < at {
            assert(ap[y] == before[y - 1].0);
            assert(path_before(before[x].0, q));
            if y - 1 > at {
                assert(bp[at] == before[at].0 && bp[y - 1] == before[y - 1].0);
                lemma_before_transitive(q, before[at].0, before[y - 1].0);
            }
            lemma_before_transitive(before[x].0, q, before[y - 1].0);
        } else {
            assert(bp[x - 1] == before[x - 1].0 && bp[y - 1] == before[y - 1].0);
        }
    }
}

/// Removing a document keeps the paths increasing.
proof fn lemma_remove_increasing(before: Seq<(Seq<char>, StoredView)>, at: int)
    requires
        paths_increase(head_paths(before)),
        0 <= at < before.len(),
    ensures
        paths_increase(head_paths(before.remove(at))),
{
    let after = before.remove(at);
    let bp = head_paths(before);
    let ap = head_paths(after);
    assert forall|x: int, y: int| 0 <= x < y < ap.len() implies path_before(#[trigger] ap[x], #[trigger] ap[y]) by {
        if y < at {
            assert(bp[x] == before[x].0 && bp[y] == before[y].0);
        } else if x < at {
            assert(bp[x] == before[x].0 && bp[y + 1] == before[y + 1].0);
        } else {
            assert(bp[x + 1] == before[x + 1].0 && bp[y + 1] == before[y + 1].0);
        }
    }
}

/// Where the first document at or after `path` sits: every document before it comes before `path`,
/// and it, where there is one, does not.
fn seek(files: &Vec<HeadFile>, path: &str) -> (at: usize)
    ensures
        at <= files.len(),
        forall|j: int| 0 <= j < at ==> path_before(#[trigger] head_view(files@)[j].0, path@),
        at < files.len() ==> !path_before(head_view(files@)[at as int].0, path@),
{
    let mut at: usize = 0;
    while at < files.len()
        invariant
            at <= files.len(),
            forall|j: int| 0 <= j < at ==> path_before(#[trigger] head_view(files@)[j].0, path@),
        decreases files.len() - at,
    {
        if !crate::local::comes_before(files[at].path.as_str(), path) {
            return at;
        }
        at = at + 1;
    }
    at
}

/// The head once a revision recorded `writes`, in order: each path written holds what its last
/// write left there, nothing where that write removed it, and every other document stays.
pub fn head_after(head: Vec<HeadFile>, writes: Vec<(String, Option<Stored>)>) -> (after: Vec<HeadFile>)
    requires
        paths_increase(head_paths(head_view(head@))),
    ensures
        paths_increase(head_paths(head_view(after@))),
        forall|p: Seq<char>|
            #[trigger] stored_at(head_view(after@), p, after.len() as int) == held_after(
                head_view(head@),
                recorded_view(writes@),
                writes.len() as int,
                p,
            ),
{
    let ghost h0 = head_view(head@);
    let ghost ws = recorded_view(writes@);
    let n = writes.len();
    let mut files = head;
    let mut rest = writes;
    let mut i: usize = 0;
    while i < n
        invariant
            n == ws.len(),
            i <= n,
            recorded_view(rest@) == ws.subrange(i as int, n as int),
            paths_increase(head_paths(h0)),
            paths_increase(head_paths(head_view(files@))),
            forall|p: Seq<char>|
                #[trigger] stored_at(head_view(files@), p, files.len() as int) == held_after(h0, ws, i as int, p),
        decreases n - i,
    {
        let ghost before = head_view(files@);
        let ghost rest_before = rest@;
        proof {
            assert(recorded_view(rest@).len() == rest@.len());
        }
        let (path, left) = rest.remove(0);
        proof {
            assert(recorded_view(rest_before)[0] == ws[i as int]);
            assert(recorded_view(rest@) =~= ws.subrange(i + 1, n as int)) by {
                assert(recorded_view(rest@) =~= recorded_view(rest_before).subrange(1, rest_before.len() as int));
            }
        }
        let ghost q = path@;
        let ghost lv = left_view(left);
        proof {
            assert(ws[i as int] == (q, lv));
        }
        let at = seek(&files, path.as_str());
        let here = at < files.len() && same_chars(files[at].path.as_str(), path.as_str());
        proof {
            let bp = head_paths(before);
            assert forall|j: int| 0 <= j < before.len() && j != at implies before[j].0 != q by {
                if j < at {
                    assert(path_before(before[j].0, q));
                    lemma_before_total(q, q);
                } else {
                    assert(at < before.len());
                    assert(bp[at as int] == before[at as int].0 && bp[j] == before[j].0);
                    assert(path_before(before[at as int].0, before[j].0));
                    lemma_before_total(before[at as int].0, q);
                    if before[at as int].0 != q {
                        assert(path_before(q, before[at as int].0));
                        lemma_before_transitive(q, before[at as int].0, before[j].0);
                        lemma_before_total(q, before[j].0);
                    }
                    lemma_before_total(q, q);
                }
            }
        }
        match left {
            Some(stored) => {
                if here {
                    files.set(at, HeadFile { path, stored });
                } else {
                    files.insert(at, HeadFile { path, stored });
                }
            },
            None => {
                if here {
                    files.remove(at);
                }
            },
        }
        proof {
            let after = head_view(files@);
            let bp = head_paths(before);
            // The paths stay increasing.
            if here {
                assert(before[at as int].0 == q);
            }
            if !here && at < before.len() {
                lemma_before_total(before[at as int].0, q);
            }
            if here && lv is Some {
                assert(after =~= before.update(at as int, (q, lv->0)));
                lemma_update_increasing(before, at as int, q, lv->0);
            } else if lv is Some {
                assert(after =~= before.insert(at as int, (q, lv->0)));
                lemma_insert_increasing(before, at as int, q, lv->0);
            } else if here {
                assert(after =~= before.remove(at as int));
                lemma_remove_increasing(before, at as int);
            } else {
                assert(after == before);
            }
            // What each path holds.
            if here && lv is Some {
                assert(after =~= before.update(at as int, (q, lv->0)));
            } else if lv is Some {
                assert(after =~= before.insert(at as int, (q, lv->0)));
            } else if here {
                assert(after =~= before.remove(at as int));
            } else {
                assert(after == before);
            }
            assert forall|k: int| 0 <= k < after.len() && after[k].0 == q implies Some(after[k].1) == lv by {
                if lv is Some {
                    if here {
                        if k != at {
                            assert(after[k] == before[k]);
                        }
                    } else {
                        if k < at {
                            assert(after[k] == before[k]);
                        } else if k > at {
                            assert(after[k] == before[k - 1]);
                        }
                    }
                } else {
                    if here {
                        if k < at {
                            assert(after[k] == before[k]);
                        } else {
                            assert(after[k] == before[k + 1]);
                        }
                    }
                }
            }
            if lv is Some {
                assert(after[at as int].0 == q);
            }
            assert forall|k: int| 0 <= k < before.len() && before[k].0 != q implies #[trigger] after.contains(before[k]) by {
                assert(k != at || !here);
                if here && lv is Some {
                    assert(after[k] == before[k]);
                } else if lv is Some {
                    if k < at {
                        assert(after[k] == before[k]);
                    } else {
                        assert(after[k + 1] == before[k]);
                    }
                } else if here {
                    if k < at {
                        assert(after[k] == before[k]);
                    } else {
                        assert(after[k - 1] == before[k]);
                    }
                } else {
                    assert(after[k] == before[k]);
                }
            }
            assert forall|k: int| 0 <= k < after.len() && after[k].0 != q implies #[trigger] before.contains(after[k]) by {
                if here && lv is Some {
                    assert(after[k] == before[k]);
                } else if lv is Some {
                    if k < at {
                        assert(after[k] == before[k]);
                    } else {
                        assert(after[k] == before[k - 1]);
                    }
                } else if here {
                    if k < at {
                        assert(after[k] == before[k]);
                    } else {
                        assert(after[k] == before[k + 1]);
                    }
                } else {
                    assert(after[k] == before[k]);
                }
            }
            lemma_one_write(before, after, q, lv);
            assert forall|p: Seq<char>|
                #[trigger] stored_at(after, p, files.len() as int) == held_after(h0, ws, i + 1, p) by {
                assert(stored_at(after, p, after.len() as int) == if p == q {
                    lv
                } else {
                    stored_at(before, p, before.len() as int)
                });
                assert(ws[i as int].0 == q && ws[i as int].1 == lv);
            }
        }
        i = i + 1;
    }
    files
}


/// Where `Stored::of` keeps bytes, as plain values: in memory up to the size the head holds, else
/// in the history under the hexadecimal text of their SHA-256 digest.
pub open spec fn stored_of(bytes: Seq<u8>) -> StoredView {
    if bytes.len() <= HELD_BYTES {
        StoredView::Held(bytes)
    } else {
        StoredView::InHistory(hex_text(sha256_of(bytes)))
    }
}

/// The changes a write planned, as the writes a revision records: each one's bytes kept as
/// `Stored::of` keeps them.
pub open spec fn recorded_of(planned: Seq<Planned>) -> Seq<(Seq<char>, Option<StoredView>)> {
    Seq::new(
        planned.len(),
        |k: int|
            (
                planned[k].path@,
                match planned[k].content {
                    Some(b) => Some(stored_of(b@)),
                    None => None,
                },
            ),
    )
}

/// The paths of the planned changes.
pub open spec fn planned_paths(planned: Seq<Planned>) -> Seq<Seq<char>> {
    Seq::new(planned.len(), |k: int| planned[k].path@)
}

/// The head once a revision records the changes a write planned, each one's bytes kept as
/// `Stored::of` keeps them: what each changed path holds afterwards, and every other document kept.
pub fn record_planned(head: Vec<HeadFile>, planned: Vec<Planned>) -> (after: Vec<HeadFile>)
    requires
        paths_increase(head_paths(head_view(head@))),
    ensures
        paths_increase(head_paths(head_view(after@))),
        forall|p: Seq<char>|
            #[trigger] stored_at(head_view(after@), p, after.len() as int) == held_after(
                head_view(head@),
                recorded_of(planned@),
                planned.len() as int,
                p,
            ),
{
    let ghost pv = planned@;
    let n = planned.len();
    let mut rest = planned;
    let mut writes: Vec<(String, Option<Stored>)> = Vec::new();
    let mut i: usize = 0;
    while i < n
        invariant
            n == pv.len(),
            i <= n,
            rest@ == pv.subrange(i as int, n as int),
            recorded_view(writes@) == recorded_of(pv).subrange(0, i as int),
        decreases n - i,
    {
        let ghost rest_before = rest@;
        let change = rest.remove(0);
        proof {
            assert(rest@ =~= pv.subrange(i + 1, n as int));
            assert(change == pv[i as int]);
        }
        let left = match change.content {
            Some(bytes) => Some(Stored::of(bytes)),
            None => None,
        };
        let ghost before = writes@;
        writes.push((change.path, left));
        proof {
            assert(recorded_view(writes@) =~= recorded_of(pv).subrange(0, i + 1)) by {
                assert(recorded_view(writes@) =~= recorded_view(before).push(recorded_view(writes@)[i as int]));
                match pv[i as int].content {
                    Some(b) => {
                        if b@.len() <= HELD_BYTES {
                        } else {
                        }
                    },
                    None => {},
                }
            }
        }
        i = i + 1;
    }
    proof {
        assert(recorded_of(pv).subrange(0, n as int) =~= recorded_of(pv));
    }
    head_after(head, writes)
}

/// Among writes at increasing paths, the last write to the path of entry `k` is that entry's, and
/// a path no entry holds has none.
proof fn lemma_recorded_at(writes: Seq<(Seq<char>, Option<StoredView>)>, path: Seq<char>, m: int)
    requires
        paths_increase(Seq::new(writes.len(), |k: int| writes[k].0)),
        0 <= m <= writes.len(),
    ensures
        forall|k: int| 0 <= k < m && writes[k].0 == path ==> last_recorded(writes, path, m) == Some(writes[k].1),
        (forall|k: int| 0 <= k < m ==> writes[k].0 != path) ==> last_recorded(writes, path, m) is None,
    decreases m,
{
    if m > 0 {
        lemma_recorded_at(writes, path, m - 1);
        let paths = Seq::new(writes.len(), |k: int| writes[k].0);
        assert forall|k: int| 0 <= k < m - 1 && #[trigger] writes[k].0 == path implies writes[m - 1].0 != path by {
            assert(paths[k] == writes[k].0 && paths[m - 1] == writes[m - 1].0);
            assert(path_before(paths[k], paths[m - 1]));
            lemma_before_total(path, path);
        }
    }
}

/// A read gives back what a write wrote: once the head records the changes a write plans, each
/// path the write touched holds the bytes its last write put there, or nothing where that write
/// removed it, and every other path holds what it held.
pub proof fn lemma_reads_back(
    head: Seq<(Seq<char>, StoredView)>,
    writes: Seq<(Seq<char>, Option<Seq<u8>>)>,
    planned: Seq<Planned>,
    after: Seq<(Seq<char>, StoredView)>,
    p: Seq<char>,
)
    requires
        paths_increase(planned_paths(planned)),
        forall|k: int|
            0 <= k < planned.len() ==> {
                let (q, c, kind) = planned_view(#[trigger] planned[k]);
                &&& last_write(writes, q, writes.len() as int) == Some(c)
                &&& change_kind(head, q, c) == Some(kind)
            },
        forall|q: Seq<char>|
            #![trigger last_write(writes, q, writes.len() as int)]
            (last_write(writes, q, writes.len() as int) matches Some(c) && change_kind(head, q, c) is Some) ==> exists|k: int|
                0 <= k < planned.len() && planned[k].path@ == q,
        forall|q: Seq<char>|
            #[trigger] stored_at(after, q, after.len() as int) == held_after(head, recorded_of(planned), planned.len() as int, q),
    ensures
        match last_write(writes, p, writes.len() as int) {
            Some(Some(bytes)) => stored_at(after, p, after.len() as int) matches Some(s) && holds_bytes(s, bytes),
            Some(None) => stored_at(after, p, after.len() as int) is None,
            None => stored_at(after, p, after.len() as int) == stored_at(head, p, head.len() as int),
        },
{
    let rec = recorded_of(planned);
    assert(Seq::new(rec.len(), |k: int| rec[k].0) =~= planned_paths(planned));
    lemma_recorded_at(rec, p, rec.len() as int);
    assert(stored_at(after, p, after.len() as int) == held_after(head, rec, planned.len() as int, p));
    if exists|k: int| 0 <= k < planned.len() && planned[k].path@ == p {
        let k = choose|k: int| 0 <= k < planned.len() && planned[k].path@ == p;
        assert(rec[k].0 == p);
        let (q, c, kind) = planned_view(planned[k]);
        assert(last_write(writes, p, writes.len() as int) == Some(c));
    } else {
        assert forall|k: int| 0 <= k < rec.len() implies rec[k].0 != p by {
            assert(rec[k].0 == planned[k].path@);
        }
        if last_write(writes, p, writes.len() as int) is Some {
            let c = last_write(writes, p, writes.len() as int)->0;
            assert(change_kind(head, p, c) is None);
        }
    }
}

} // verus!

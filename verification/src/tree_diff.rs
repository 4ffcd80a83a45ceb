//! What changed between the trees of two revisions: each document either of them holds, in path
//! order, with how the second revision changes it. A document whose bytes stay the same is left out.
use vstd::prelude::*;

use crate::history::DocumentChangeKind;
use crate::local::{comes_before, lemma_before_total, lemma_before_transitive, path_before, paths_increase};

verus! {

/// A document a revision's tree holds: its path and the id of its bytes.
#[derive(Debug, PartialEq, Eq)]
pub struct TreeEntry {
    pub path: String,
    pub id: Vec<u8>,
}

/// A document that changed between two revisions, and how.
#[derive(Debug, PartialEq, Eq)]
pub struct Change {
    pub path: String,
    pub kind: DocumentChangeKind,
}

/// The entries as plain values.
pub open spec fn entries_view(entries: Seq<TreeEntry>) -> Seq<(Seq<char>, Seq<u8>)> {
    Seq::new(entries.len(), |k: int| (entries[k].path@, entries[k].id@))
}

/// The paths of the entries.
pub open spec fn entry_paths(entries: Seq<(Seq<char>, Seq<u8>)>) -> Seq<Seq<char>> {
    Seq::new(entries.len(), |k: int| entries[k].0)
}

/// The changes as plain values.
pub open spec fn changes_view(changes: Seq<Change>) -> Seq<(Seq<char>, DocumentChangeKind)> {
    Seq::new(changes.len(), |k: int| (changes[k].path@, changes[k].kind))
}

/// The paths of the changes.
pub open spec fn change_paths(changes: Seq<(Seq<char>, DocumentChangeKind)>) -> Seq<Seq<char>> {
    Seq::new(changes.len(), |k: int| changes[k].0)
}

/// The entries hold a document at `path`.
pub open spec fn has_path(entries: Seq<(Seq<char>, Seq<u8>)>, path: Seq<char>) -> bool {
    exists|k: int| 0 <= k < entries.len() && #[trigger] entries[k].0 == path
}

/// The id of the document the entries hold at `path`.
pub open spec fn id_at(entries: Seq<(Seq<char>, Seq<u8>)>, path: Seq<char>) -> Seq<u8> {
    entries[choose|k: int| 0 <= k < entries.len() && #[trigger] entries[k].0 == path].1
}

/// How the tree `to` changes the document the tree `from` holds at `path`: a document only `to`
/// holds is added, one only `from` holds is removed, and one both hold under different ids is
/// modified.
pub open spec fn tree_change(
    from: Seq<(Seq<char>, Seq<u8>)>,
    to: Seq<(Seq<char>, Seq<u8>)>,
    path: Seq<char>,
) -> Option<DocumentChangeKind> {
    match (has_path(from, path), has_path(to, path)) {
        (true, false) => Some(DocumentChangeKind::Removed),
        (false, true) => Some(DocumentChangeKind::Added),
        (true, true) => if id_at(from, path) != id_at(to, path) {
            Some(DocumentChangeKind::Modified)
        } else {
            None
        },
        (false, false) => None,
    }
}

/// `changes` lists, in strictly increasing path order, exactly the paths that `to` changes from
/// `from`, each with how it changes.
pub open spec fn is_tree_diff(
    from: Seq<(Seq<char>, Seq<u8>)>,
    to: Seq<(Seq<char>, Seq<u8>)>,
    changes: Seq<(Seq<char>, DocumentChangeKind)>,
) -> bool {
    &&& paths_increase(change_paths(changes))
    &&& forall|k: int| 0 <= k < changes.len() ==> tree_change(from, to, (#[trigger] changes[k]).0) == Some(changes[k].1)
    &&& forall|p: Seq<char>| #[trigger] tree_change(from, to, p) is Some ==> exists|k: int|
        0 <= k < changes.len() && changes[k].0 == p
}

/// The same change seen from the other side: what one way adds, the other way removes.
pub open spec fn reversed(kind: DocumentChangeKind) -> DocumentChangeKind {
    match kind {
        DocumentChangeKind::Added => DocumentChangeKind::Removed,
        DocumentChangeKind::Removed => DocumentChangeKind::Added,
        DocumentChangeKind::Modified => DocumentChangeKind::Modified,
    }
}

/// In a list of increasing paths, a path that comes before one of them comes before every later one.
proof fn lemma_before_rest(paths: Seq<Seq<char>>, x: Seq<char>, j: int)
    requires
        paths_increase(paths),
        0 <= j < paths.len(),
        path_before(x, paths[j]),
    ensures
        forall|b: int| j <= b < paths.len() ==> path_before(x, #[trigger] paths[b]),
{
    assert forall|b: int| j <= b < paths.len() implies path_before(x, #[trigger] paths[b]) by {
        if b > j {
            lemma_before_transitive(x, paths[j], paths[b]);
        }
    }
}

/// A path that every earlier path of an increasing list comes before, and that comes before the
/// path at `j` (or `j` is the end), is none of the paths of the list.
proof fn lemma_absent(paths: Seq<Seq<char>>, x: Seq<char>, j: int)
    requires
        paths_increase(paths),
        0 <= j <= paths.len(),
        forall|b: int| 0 <= b < j ==> path_before(#[trigger] paths[b], x),
        j < paths.len() ==> path_before(x, paths[j]),
    ensures
        forall|b: int| 0 <= b < paths.len() ==> #[trigger] paths[b] != x,
{
    if j < paths.len() {
        lemma_before_rest(paths, x, j);
    }
    assert forall|b: int| 0 <= b < paths.len() implies #[trigger] paths[b] != x by {
        lemma_before_total(x, x);
        if b >= j {
            assert(path_before(x, paths[b]));
        } else {
            assert(path_before(paths[b], x));
        }
    }
}

/// A path listed among the changes stays listed once more changes follow.
proof fn lemma_listed_after(
    before: Seq<(Seq<char>, DocumentChangeKind)>,
    after: Seq<(Seq<char>, DocumentChangeKind)>,
    p: Seq<char>,
)
    requires
        after.len() >= before.len(),
        forall|k: int| 0 <= k < before.len() ==> after[k] == before[k],
        exists|k: int| 0 <= k < before.len() && before[k].0 == p,
    ensures
        exists|k: int| 0 <= k < after.len() && after[k].0 == p,
{
    let k = choose|k: int| 0 <= k < before.len() && before[k].0 == p;
    assert(after[k] == before[k]);
}

/// The document at the path of entry `i` is the document of entry `i`.
proof fn lemma_id_at(entries: Seq<(Seq<char>, Seq<u8>)>, i: int)
    requires
        paths_increase(entry_paths(entries)),
        0 <= i < entries.len(),
    ensures
        has_path(entries, entries[i].0),
        id_at(entries, entries[i].0) == entries[i].1,
{
    let paths = entry_paths(entries);
    assert(paths[i] == entries[i].0);
    let k = choose|k: int| 0 <= k < entries.len() && #[trigger] entries[k].0 == entries[i].0;
    assert(paths[k] == entries[k].0);
    if k < i {
        assert(path_before(paths[k], paths[i]));
        lemma_before_total(paths[i], paths[i]);
    } else if k > i {
        assert(path_before(paths[i], paths[k]));
        lemma_before_total(paths[i], paths[i]);
    }
}

/// Two ids hold the same bytes.
fn same_id(a: &Vec<u8>, b: &Vec<u8>) -> (same: bool)
    ensures
        same == (a@ == b@),
{
    if a.len() != b.len() {
        return false;
    }
    let mut k: usize = 0;
    while k < a.len()
        invariant
            a.len() == b.len(),
            k <= a.len(),
            forall|j: int| 0 <= j < k ==> a@[j] == b@[j],
        decreases a.len() - k,
    {
        if a[k] != b[k] {
            proof {
                assert(a@[k as int] != b@[k as int]);
            }
            return false;
        }
        k = k + 1;
    }
    proof {
        assert(a@ =~= b@);
    }
    true
}

/// The documents that changed from the tree `from` to the tree `to`, in path order: a document
/// only `from` holds is removed, one only `to` holds is added, and one both hold under different
/// ids is modified. Each tree lists its documents in increasing path order, as a map keyed by path
/// does.
pub fn changes(from: &Vec<TreeEntry>, to: &Vec<TreeEntry>) -> (out: Vec<Change>)
    requires
        paths_increase(entry_paths(entries_view(from@))),
        paths_increase(entry_paths(entries_view(to@))),
    ensures
        is_tree_diff(entries_view(from@), entries_view(to@), changes_view(out@)),
{
    let ghost f = entries_view(from@);
    let ghost t = entries_view(to@);
    let ghost fp = entry_paths(f);
    let ghost tp = entry_paths(t);
    let mut out: Vec<Change> = Vec::new();
    let mut i: usize = 0;
    let mut j: usize = 0;
    while i < from.len() || j < to.len()
        invariant
            f == entries_view(from@),
            t == entries_view(to@),
            fp == entry_paths(f),
            tp == entry_paths(t),
            paths_increase(fp),
            paths_increase(tp),
            i <= from.len(),
            j <= to.len(),
            i < from.len() ==> forall|b: int| 0 <= b < j ==> path_before(#[trigger] tp[b], fp[i as int]),
            j < to.len() ==> forall|a: int| 0 <= a < i ==> path_before(#[trigger] fp[a], tp[j as int]),
            paths_increase(change_paths(changes_view(out@))),
            forall|k: int|
                0 <= k < out.len() ==> tree_change(f, t, (#[trigger] changes_view(out@)[k]).0) == Some(
                    changes_view(out@)[k].1,
                ),
            forall|k: int|
                0 <= k < out.len() ==> (i < from.len() ==> path_before(
                    (#[trigger] changes_view(out@)[k]).0,
                    fp[i as int],
                )) && (j < to.len() ==> path_before(changes_view(out@)[k].0, tp[j as int])),
            forall|a: int|
                0 <= a < i && tree_change(f, t, #[trigger] fp[a]) is Some ==> exists|k: int|
                    0 <= k < out.len() && changes_view(out@)[k].0 == fp[a],
            forall|b: int|
                0 <= b < j && tree_change(f, t, #[trigger] tp[b]) is Some ==> exists|k: int|
                    0 <= k < out.len() && changes_view(out@)[k].0 == tp[b],
        decreases from.len() + to.len() - i - j,
    {
        let ghost before = changes_view(out@);
        let take_from = i < from.len() && (j == to.len() || comes_before(
            from[i].path.as_str(),
            to[j].path.as_str(),
        ));
        let take_to = !take_from && j < to.len() && (i == from.len() || comes_before(
            to[j].path.as_str(),
            from[i].path.as_str(),
        ));
        if take_from {
            let ghost p = fp[i as int];
            proof {
                assert(fp[i as int] == from@[i as int].path@);
                lemma_id_at(f, i as int);
                lemma_absent(tp, p, j as int);
                assert(!has_path(t, p)) by {
                    if has_path(t, p) {
                        let b = choose|b: int| 0 <= b < t.len() && #[trigger] t[b].0 == p;
                        assert(tp[b] == t[b].0);
                    }
                }
            }
            out.push(Change { path: from[i].path.clone(), kind: DocumentChangeKind::Removed });
            proof {
                assert(changes_view(out@) =~= before.push((p, DocumentChangeKind::Removed)));
                if i + 1 < from.len() {
                    assert(path_before(fp[i as int], fp[i + 1]));
                    assert forall|b: int| 0 <= b < j implies path_before(#[trigger] tp[b], fp[i + 1]) by {
                        lemma_before_transitive(tp[b], fp[i as int], fp[i + 1]);
                    }
                    assert forall|k: int| 0 <= k < before.len() implies path_before(#[trigger] before[k].0, fp[i + 1]) by {
                        lemma_before_transitive(before[k].0, fp[i as int], fp[i + 1]);
                    }
                }
                assert(paths_increase(change_paths(changes_view(out@)))) by {
                    assert forall|x: int, y: int|
                        0 <= x < y < changes_view(out@).len() implies path_before(
                        #[trigger] change_paths(changes_view(out@))[x],
                        #[trigger] change_paths(changes_view(out@))[y],
                    ) by {
                        assert(change_paths(changes_view(out@))[x] == changes_view(out@)[x].0);
                        assert(change_paths(changes_view(out@))[y] == changes_view(out@)[y].0);
                        if y < before.len() {
                            assert(change_paths(before)[x] == before[x].0);
                            assert(change_paths(before)[y] == before[y].0);
                        }
                    }
                }
                assert(changes_view(out@)[before.len() as int].0 == p);
                assert forall|a: int|
                    0 <= a < i + 1 && tree_change(f, t, #[trigger] fp[a]) is Some implies exists|k: int|
                        0 <= k < changes_view(out@).len() && changes_view(out@)[k].0 == fp[a] by {
                    if a < i {
                        lemma_listed_after(before, changes_view(out@), fp[a]);
                    }
                }
                assert forall|b: int|
                    0 <= b < j && tree_change(f, t, #[trigger] tp[b]) is Some implies exists|k: int|
                        0 <= k < changes_view(out@).len() && changes_view(out@)[k].0 == tp[b] by {
                    lemma_listed_after(before, changes_view(out@), tp[b]);
                }
            }
            i = i + 1;
        } else if take_to {
            let ghost p = tp[j as int];
            proof {
                assert(tp[j as int] == to@[j as int].path@);
                lemma_id_at(t, j as int);
                lemma_absent(fp, p, i as int);
                assert(!has_path(f, p)) by {
                    if has_path(f, p) {
                        let a = choose|a: int| 0 <= a < f.len() && #[trigger] f[a].0 == p;
                        assert(fp[a] == f[a].0);
                    }
                }
            }
            out.push(Change { path: to[j].path.clone(), kind: DocumentChangeKind::Added });
            proof {
                assert(changes_view(out@) =~= before.push((p, DocumentChangeKind::Added)));
                if j + 1 < to.len() {
                    assert(path_before(tp[j as int], tp[j + 1]));
                    assert forall|a: int| 0 <= a < i implies path_before(#[trigger] fp[a], tp[j + 1]) by {
                        lemma_before_transitive(fp[a], tp[j as int], tp[j + 1]);
                    }
                    assert forall|k: int| 0 <= k < before.len() implies path_before(#[trigger] before[k].0, tp[j + 1]) by {
                        lemma_before_transitive(before[k].0, tp[j as int], tp[j + 1]);
                    }
                }
                assert(paths_increase(change_paths(changes_view(out@)))) by {
                    assert forall|x: int, y: int|
                        0 <= x < y < changes_view(out@).len() implies path_before(
                        #[trigger] change_paths(changes_view(out@))[x],
                        #[trigger] change_paths(changes_view(out@))[y],
                    ) by {
                        assert(change_paths(changes_view(out@))[x] == changes_view(out@)[x].0);
                        assert(change_paths(changes_view(out@))[y] == changes_view(out@)[y].0);
                        if y < before.len() {
                            assert(change_paths(before)[x] == before[x].0);
                            assert(change_paths(before)[y] == before[y].0);
                        }
                    }
                }
                assert(changes_view(out@)[before.len() as int].0 == p);
                assert forall|a: int|
                    0 <= a < i && tree_change(f, t, #[trigger] fp[a]) is Some implies exists|k: int|
                        0 <= k < changes_view(out@).len() && changes_view(out@)[k].0 == fp[a] by {
                    lemma_listed_after(before, changes_view(out@), fp[a]);
                }
                assert forall|b: int|
                    0 <= b < j + 1 && tree_change(f, t, #[trigger] tp[b]) is Some implies exists|k: int|
                        0 <= k < changes_view(out@).len() && changes_view(out@)[k].0 == tp[b] by {
                    if b < j {
                        lemma_listed_after(before, changes_view(out@), tp[b]);
                    }
                }
            }
            j = j + 1;
        } else {
            let ghost p = fp[i as int];
            proof {
                assert(fp[i as int] == from@[i as int].path@);
                assert(tp[j as int] == to@[j as int].path@);
                lemma_before_total(fp[i as int], tp[j as int]);
                lemma_id_at(f, i as int);
                lemma_id_at(t, j as int);
            }
            let differ = !same_id(&from[i].id, &to[j].id);
            if differ {
                out.push(Change { path: from[i].path.clone(), kind: DocumentChangeKind::Modified });
            }
            proof {
                if differ {
                    assert(changes_view(out@) =~= before.push((p, DocumentChangeKind::Modified)));
                    assert(changes_view(out@)[before.len() as int].0 == p);
                    assert(paths_increase(change_paths(changes_view(out@)))) by {
                        assert forall|x: int, y: int|
                            0 <= x < y < changes_view(out@).len() implies path_before(
                            #[trigger] change_paths(changes_view(out@))[x],
                            #[trigger] change_paths(changes_view(out@))[y],
                        ) by {
                            assert(change_paths(changes_view(out@))[x] == changes_view(out@)[x].0);
                            assert(change_paths(changes_view(out@))[y] == changes_view(out@)[y].0);
                            if y < before.len() {
                                assert(change_paths(before)[x] == before[x].0);
                                assert(change_paths(before)[y] == before[y].0);
                            }
                        }
                    }
                } else {
                    assert(changes_view(out@) == before);
                }
                assert forall|a: int|
                    0 <= a < i + 1 && tree_change(f, t, #[trigger] fp[a]) is Some implies exists|k: int|
                        0 <= k < changes_view(out@).len() && changes_view(out@)[k].0 == fp[a] by {
                    if a < i {
                        lemma_listed_after(before, changes_view(out@), fp[a]);
                    } else {
                        assert(changes_view(out@)[before.len() as int].0 == fp[a]);
                    }
                }
                assert forall|b: int|
                    0 <= b < j + 1 && tree_change(f, t, #[trigger] tp[b]) is Some implies exists|k: int|
                        0 <= k < changes_view(out@).len() && changes_view(out@)[k].0 == tp[b] by {
                    if b < j {
                        lemma_listed_after(before, changes_view(out@), tp[b]);
                    } else {
                        assert(changes_view(out@)[before.len() as int].0 == tp[b]);
                    }
                }
                if i + 1 < from.len() {
                    assert(path_before(fp[i as int], fp[i + 1]));
                    assert forall|b: int| 0 <= b < j + 1 implies path_before(#[trigger] tp[b], fp[i + 1]) by {
                        if b < j {
                            lemma_before_transitive(tp[b], fp[i as int], fp[i + 1]);
                        }
                    }
                    assert forall|k: int| 0 <= k < changes_view(out@).len() implies path_before(
                        #[trigger] changes_view(out@)[k].0,
                        fp[i + 1],
                    ) by {
                        if k < before.len() {
                            lemma_before_transitive(before[k].0, fp[i as int], fp[i + 1]);
                        }
                    }
                }
                if j + 1 < to.len() {
                    assert(path_before(tp[j as int], tp[j + 1]));
                    assert forall|a: int| 0 <= a < i + 1 implies path_before(#[trigger] fp[a], tp[j + 1]) by {
                        if a < i {
                            lemma_before_transitive(fp[a], tp[j as int], tp[j + 1]);
                        }
                    }
                    assert forall|k: int| 0 <= k < changes_view(out@).len() implies path_before(
                        #[trigger] changes_view(out@)[k].0,
                        tp[j + 1],
                    ) by {
                        if k < before.len() {
                            lemma_before_transitive(before[k].0, tp[j as int], tp[j + 1]);
                        }
                    }
                }
            }
            i = i + 1;
            j = j + 1;
        }
    }
    proof {
        let o = changes_view(out@);
        assert forall|p: Seq<char>| #[trigger] tree_change(f, t, p) is Some implies exists|k: int|
            0 <= k < o.len() && o[k].0 == p by {
            if has_path(f, p) {
                let a = choose|a: int| 0 <= a < f.len() && #[trigger] f[a].0 == p;
                assert(fp[a] == p);
            } else {
                let b = choose|b: int| 0 <= b < t.len() && #[trigger] t[b].0 == p;
                assert(tp[b] == p);
            }
        }
    }
    out
}


/// Two lists of strictly increasing paths that hold the same paths are the same list.
proof fn lemma_same_increasing(a: Seq<Seq<char>>, b: Seq<Seq<char>>)
    requires
        paths_increase(a),
        paths_increase(b),
        forall|x: Seq<char>| #![trigger a.contains(x)] #![trigger b.contains(x)] a.contains(x) <==> b.contains(x),
    ensures
        a == b,
    decreases a.len(),
{
    if a.len() == 0 {
        if b.len() > 0 {
            assert(b.contains(b[0]));
        }
        assert(a =~= b);
    } else {
        assert(a.contains(a[0]));
        let j = choose|j: int| 0 <= j < b.len() && b[j] == a[0];
        assert(b.contains(b[0]));
        let i = choose|i: int| 0 <= i < a.len() && a[i] == b[0];
        lemma_before_total(a[0], a[i]);
        if j > 0 {
            assert(path_before(b[0], b[j]));
            if i > 0 {
                assert(path_before(a[0], a[i]));
            }
        }
        assert(a[0] == b[0]);
        let a1 = a.drop_first();
        let b1 = b.drop_first();
        assert forall|x: Seq<char>| #![trigger a1.contains(x)] #![trigger b1.contains(x)] a1.contains(x) <==> b1.contains(x) by {
            if a1.contains(x) {
                let k = choose|k: int| 0 <= k < a1.len() && a1[k] == x;
                assert(a[k + 1] == x);
                assert(path_before(a[0], a[k + 1]));
                lemma_before_total(x, x);
                assert(a.contains(x));
                let m = choose|m: int| 0 <= m < b.len() && b[m] == x;
                assert(m != 0);
                assert(b1[m - 1] == x);
            }
            if b1.contains(x) {
                let k = choose|k: int| 0 <= k < b1.len() && b1[k] == x;
                assert(b[k + 1] == x);
                assert(path_before(b[0], b[k + 1]));
                lemma_before_total(x, x);
                assert(b.contains(x));
                let m = choose|m: int| 0 <= m < a.len() && a[m] == x;
                assert(m != 0);
                assert(a1[m - 1] == x);
            }
        }
        assert(paths_increase(a1)) by {
            assert forall|x: int, y: int| 0 <= x < y < a1.len() implies path_before(#[trigger] a1[x], #[trigger] a1[y]) by {
                assert(a1[x] == a[x + 1] && a1[y] == a[y + 1]);
            }
        }
        assert(paths_increase(b1)) by {
            assert forall|x: int, y: int| 0 <= x < y < b1.len() implies path_before(#[trigger] b1[x], #[trigger] b1[y]) by {
                assert(b1[x] == b[x + 1] && b1[y] == b[y + 1]);
            }
        }
        lemma_same_increasing(a1, b1);
        assert(a =~= seq![a[0]] + a1);
        assert(b =~= seq![b[0]] + b1);
    }
}

/// Read the other way, the changes between two trees are the same paths, in the same order, and
/// what one way adds the other way removes.
pub proof fn lemma_changes_reverse(
    from: Seq<(Seq<char>, Seq<u8>)>,
    to: Seq<(Seq<char>, Seq<u8>)>,
    forward: Seq<(Seq<char>, DocumentChangeKind)>,
    backward: Seq<(Seq<char>, DocumentChangeKind)>,
)
    requires
        is_tree_diff(from, to, forward),
        is_tree_diff(to, from, backward),
    ensures
        forward.len() == backward.len(),
        forall|k: int|
            0 <= k < forward.len() ==> (#[trigger] forward[k]).0 == backward[k].0 && forward[k].1 == reversed(
                backward[k].1,
            ),
{
    let fa = change_paths(forward);
    let ba = change_paths(backward);
    assert forall|x: Seq<char>| #![trigger fa.contains(x)] #![trigger ba.contains(x)] fa.contains(x) <==> ba.contains(x) by {
        if fa.contains(x) {
            let k = choose|k: int| 0 <= k < fa.len() && fa[k] == x;
            assert(forward[k].0 == x);
            assert(tree_change(from, to, x) is Some);
            assert(tree_change(to, from, x) is Some);
            let m = choose|m: int| 0 <= m < backward.len() && backward[m].0 == x;
            assert(ba[m] == x);
        }
        if ba.contains(x) {
            let k = choose|k: int| 0 <= k < ba.len() && ba[k] == x;
            assert(backward[k].0 == x);
            assert(tree_change(to, from, x) is Some);
            assert(tree_change(from, to, x) is Some);
            let m = choose|m: int| 0 <= m < forward.len() && forward[m].0 == x;
            assert(fa[m] == x);
        }
    }
    lemma_same_increasing(fa, ba);
    assert forall|k: int| 0 <= k < forward.len() implies (#[trigger] forward[k]).0 == backward[k].0 && forward[k].1
        == reversed(backward[k].1) by {
        assert(fa[k] == forward[k].0);
        assert(ba[k] == backward[k].0);
        assert(tree_change(from, to, forward[k].0) == Some(forward[k].1));
        assert(tree_change(to, from, backward[k].0) == Some(backward[k].1));
    }
}

} // verus!

//! Starting the tasks of a repository from a directory of its checked-out branch: which commits of
//! the branch become revisions of the tasks, and which edits of the checkout no commit holds yet.
use vstd::prelude::*;
use vstd::string::StringExecFns;

use crate::edits::write_view;
use crate::local::Write;
use crate::text::same_chars;

verus! {

/// An import starts the tasks branch, so it is refused where that branch exists already; the
/// refusal says why.
pub fn import_refusal(branch_exists: bool) -> (refusal: Option<String>)
    ensures
        branch_exists <==> refusal is Some,
        refusal matches Some(why) ==> why@ == "openplan/tasks already exists, so there is nothing to import into"@,
{
    if branch_exists {
        Some(String::from_str("openplan/tasks already exists, so there is nothing to import into"))
    } else {
        None
    }
}

/// A file of a directory and its bytes.
#[derive(Debug, PartialEq, Eq)]
pub struct FileBytes {
    pub path: String,
    pub bytes: Vec<u8>,
}

/// The files as plain values.
pub open spec fn files_view(files: Seq<FileBytes>) -> Seq<(Seq<char>, Seq<u8>)> {
    Seq::new(files.len(), |k: int| (files[k].path@, files[k].bytes@))
}

/// The directory's tree id in each commit, where the commit holds the directory, as plain values.
pub open spec fn trees_view(trees: Seq<Option<Vec<u8>>>) -> Seq<Option<Seq<u8>>> {
    Seq::new(trees.len(), |k: int| match trees[k] {
        Some(t) => Some(t@),
        None => None,
    })
}

/// The tree of the last commit among the first `n` that becomes a revision.
pub open spec fn last_copied(trees: Seq<Option<Seq<u8>>>, n: int) -> Option<Seq<u8>>
    decreases n, 0int,
{
    if n <= 0 {
        None
    } else if copied(trees, n - 1) {
        trees[n - 1]
    } else {
        last_copied(trees, n - 1)
    }
}

/// The commit at `k`, oldest first, becomes a revision: it holds the directory, under a tree that
/// differs from that of the last commit before it that became one.
pub open spec fn copied(trees: Seq<Option<Seq<u8>>>, k: int) -> bool
    decreases k, 1int,
{
    0 <= k < trees.len() && trees[k] is Some && trees[k] != last_copied(trees, k)
}

/// Of the first `n` commits, the positions of those that become revisions.
pub open spec fn copied_upto(trees: Seq<Option<Seq<u8>>>, n: int) -> Seq<usize>
    decreases n,
{
    if n <= 0 {
        Seq::empty()
    } else if copied(trees, n - 1) {
        copied_upto(trees, n - 1).push((n - 1) as usize)
    } else {
        copied_upto(trees, n - 1)
    }
}

/// The bytes the files hold at `path`, the first file there.
pub open spec fn bytes_at(files: Seq<(Seq<char>, Seq<u8>)>, path: Seq<char>, n: int) -> Option<Seq<u8>>
    decreases n,
{
    if n <= 0 {
        None
    } else {
        match bytes_at(files, path, n - 1) {
            Some(b) => Some(b),
            None => if files[n - 1].0 == path {
                Some(files[n - 1].1)
            } else {
                None
            },
        }
    }
}

/// Of the first `n` files of the checkout, a put for each whose bytes the head does not hold.
pub open spec fn checkout_puts(
    working: Seq<(Seq<char>, Seq<u8>)>,
    head: Seq<(Seq<char>, Seq<u8>)>,
    n: int,
) -> Seq<(Seq<char>, Option<Seq<u8>>)>
    decreases n,
{
    if n <= 0 {
        Seq::empty()
    } else if bytes_at(head, working[n - 1].0, head.len() as int) == Some(working[n - 1].1) {
        checkout_puts(working, head, n - 1)
    } else {
        checkout_puts(working, head, n - 1).push((working[n - 1].0, Some(working[n - 1].1)))
    }
}

/// Of the first `n` documents of the head, a removal for each the checkout no longer holds.
pub open spec fn checkout_removals(
    working: Seq<(Seq<char>, Seq<u8>)>,
    head: Seq<(Seq<char>, Seq<u8>)>,
    n: int,
) -> Seq<(Seq<char>, Option<Seq<u8>>)>
    decreases n,
{
    if n <= 0 {
        Seq::empty()
    } else if bytes_at(working, head[n - 1].0, working.len() as int) is Some {
        checkout_removals(working, head, n - 1)
    } else {
        checkout_removals(working, head, n - 1).push((head[n - 1].0, None))
    }
}

/// Two optional trees are the same.
fn same_tree(a: &Option<Vec<u8>>, b: &Option<Vec<u8>>) -> (same: bool)
    ensures
        same == (trees_view(seq![*a])[0] == trees_view(seq![*b])[0]),
{
    match (a, b) {
        (Some(x), Some(y)) => {
            let same = same_bytes(x, y);
            proof {
                assert(trees_view(seq![*a])[0] == Some(x@));
                assert(trees_view(seq![*b])[0] == Some(y@));
            }
            same
        },
        (None, None) => true,
        (Some(_), None) => {
            proof {
                assert(trees_view(seq![*b])[0] is None);
            }
            false
        },
        (None, Some(_)) => {
            proof {
                assert(trees_view(seq![*a])[0] is None);
            }
            false
        },
    }
}

/// Two byte strings are the same.
fn same_bytes(x: &Vec<u8>, y: &Vec<u8>) -> (same: bool)
    ensures
        same == (x@ == y@),
{
    if x.len() != y.len() {
        proof {
            assert(x@.len() != y@.len());
        }
        return false;
    }
    let mut k: usize = 0;
    while k < x.len()
        invariant
            x.len() == y.len(),
            k <= x.len(),
            forall|j: int| 0 <= j < k ==> x@[j] == y@[j],
        decreases x.len() - k,
    {
        if x[k] != y[k] {
            proof {
                assert(x@[k as int] != y@[k as int]);
            }
            return false;
        }
        k = k + 1;
    }
    proof {
        assert(x@ =~= y@);
    }
    true
}

/// A copy of optional bytes.
fn copy_tree(t: &Option<Vec<u8>>) -> (copy: Option<Vec<u8>>)
    ensures
        trees_view(seq![copy])[0] == trees_view(seq![*t])[0],
{
    match t {
        Some(v) => {
            let c = v.clone();
            proof {
                assert(c@ == v@);
            }
            Some(c)
        },
        None => None,
    }
}

/// The commits of the branch, oldest first, that become revisions of the tasks, by position:
/// `trees` holds, for each commit, the tree of the directory in it, where it holds the directory.
/// A commit without the directory, or one that left it as the last copied commit had it, adds no
/// revision.
pub fn replayed(trees: &Vec<Option<Vec<u8>>>) -> (picked: Vec<usize>)
    ensures
        picked@ == copied_upto(trees_view(trees@), trees.len() as int),
{
    let ghost tv = trees_view(trees@);
    let mut picked: Vec<usize> = Vec::new();
    let mut last: Option<Vec<u8>> = None;
    let mut k: usize = 0;
    while k < trees.len()
        invariant
            tv == trees_view(trees@),
            k <= trees.len(),
            picked@ == copied_upto(tv, k as int),
            trees_view(seq![last])[0] == last_copied(tv, k as int),
        decreases trees.len() - k,
    {
        proof {
            assert(tv[k as int] == trees_view(seq![trees@[k as int]])[0]);
        }
        let take = trees[k].is_some() && !same_tree(&trees[k], &last);
        if take {
            picked.push(k);
            last = copy_tree(&trees[k]);
        }
        proof {
            assert(copied(tv, k as int) == take);
        }
        k = k + 1;
    }
    picked
}

/// The bytes the files hold at `path`.
fn find_bytes<'a>(files: &'a Vec<FileBytes>, path: &str) -> (found: Option<&'a Vec<u8>>)
    ensures
        match found {
            Some(b) => bytes_at(files_view(files@), path@, files.len() as int) == Some(b@),
            None => bytes_at(files_view(files@), path@, files.len() as int) is None,
        },
{
    let ghost fv = files_view(files@);
    let mut k: usize = 0;
    while k < files.len()
        invariant
            fv == files_view(files@),
            k <= files.len(),
            bytes_at(fv, path@, k as int) is None,
        decreases files.len() - k,
    {
        if same_chars(files[k].path.as_str(), path) {
            proof {
                assert(bytes_at(fv, path@, k + 1) == Some(files@[k as int].bytes@));
                lemma_bytes_at_first(fv, path@, k + 1, files.len() as int);
            }
            return Some(&files[k].bytes);
        }
        k = k + 1;
    }
    None
}

/// Once bytes are found at `path`, later files do not change what is found there.
proof fn lemma_bytes_at_first(files: Seq<(Seq<char>, Seq<u8>)>, path: Seq<char>, a: int, b: int)
    requires
        0 <= a <= b,
        bytes_at(files, path, a) is Some,
    ensures
        bytes_at(files, path, b) == bytes_at(files, path, a),
    decreases b - a,
{
    if b > a {
        lemma_bytes_at_first(files, path, a, b - 1);
    }
}

/// The edits of the checkout that no commit holds yet: a put for each file of the checkout whose
/// bytes the head does not hold, in the checkout's order, then a removal for each document of the
/// head the checkout no longer holds.
pub fn uncommitted_edits(working: &Vec<FileBytes>, head: &Vec<FileBytes>) -> (writes: Vec<Write>)
    ensures
        write_view(writes@) == checkout_puts(files_view(working@), files_view(head@), working.len() as int)
            + checkout_removals(files_view(working@), files_view(head@), head.len() as int),
{
    let ghost wv = files_view(working@);
    let ghost hv = files_view(head@);
    let mut writes: Vec<Write> = Vec::new();
    let mut k: usize = 0;
    while k < working.len()
        invariant
            wv == files_view(working@),
            hv == files_view(head@),
            k <= working.len(),
            write_view(writes@) == checkout_puts(wv, hv, k as int),
        decreases working.len() - k,
    {
        let file = &working[k];
        let held = match find_bytes(head, file.path.as_str()) {
            Some(b) => same_bytes(b, &file.bytes),
            None => false,
        };
        if !held {
            let ghost before = writes@;
            writes.push(Write { path: file.path.clone(), content: Some(file.bytes.clone()) });
            proof {
                assert(write_view(writes@) =~= write_view(before).push((wv[k as int].0, Some(wv[k as int].1))));
            }
        }
        k = k + 1;
    }
    let ghost puts = write_view(writes@);
    proof {
        assert(write_view(writes@) =~= puts + checkout_removals(wv, hv, 0));
    }
    let mut h: usize = 0;
    while h < head.len()
        invariant
            wv == files_view(working@),
            hv == files_view(head@),
            h <= head.len(),
            write_view(writes@) == puts + checkout_removals(wv, hv, h as int),
        decreases head.len() - h,
    {
        if find_bytes(working, head[h].path.as_str()).is_none() {
            let ghost before = writes@;
            writes.push(Write { path: head[h].path.clone(), content: None });
            proof {
                assert(write_view(writes@) =~= write_view(before).push((hv[h as int].0, None)));
            }
        }
        h = h + 1;
    }
    writes
}

} // verus!

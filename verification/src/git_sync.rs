//! How a sync brings the remote's tasks into the local ones: nothing to do where the local tip
//! already holds the remote's, a fast-forward where the local side has nothing the remote lacks,
//! and a merge commit where both moved.
use vstd::prelude::*;

verus! {

/// How the local tasks take in the remote's tip.
#[derive(Debug, Clone, Copy, PartialEq, Eq)]
pub enum Integration {
    /// The local tip already holds the remote's.
    UpToDate,
    /// The local tip is behind the remote's, or there is none: move it to the remote's tip.
    FastForward,
    /// Both sides moved: a merge commit joins them.
    Merge,
}

/// How to take in the remote's tip `theirs`, from the local tip `ours` and the newest commit both
/// hold, `base`, each where there is one. Commits are named by their ids.
pub open spec fn integration_spec(ours: Option<Seq<u8>>, theirs: Seq<u8>, base: Option<Seq<u8>>) -> Integration {
    if ours == Some(theirs) || base == Some(theirs) {
        Integration::UpToDate
    } else if ours is None || base == ours {
        Integration::FastForward
    } else {
        Integration::Merge
    }
}

/// Optional ids as plain values.
pub open spec fn id_view(id: Option<Vec<u8>>) -> Option<Seq<u8>> {
    match id {
        Some(v) => Some(v@),
        None => None,
    }
}

/// The name of the tasks the message of a merge names.
pub open spec fn tasks_name() -> Seq<char> {
    seq!['o', 'p', 'e', 'n', 'p', 'l', 'a', 'n', '/', 't', 'a', 's', 'k', 's']
}

/// The notes, one line each.
pub open spec fn note_lines(notes: Seq<Seq<char>>) -> Seq<char>
    decreases notes.len(),
{
    if notes.len() == 0 {
        Seq::empty()
    } else if notes.len() == 1 {
        notes[0]
    } else {
        note_lines(notes.drop_last()) + seq!['\n'] + notes.last()
    }
}

/// The message of a merge commit: which remote's tasks it merges, then, after a blank line, the
/// notes the merge left, where it left any.
pub open spec fn merge_text(remote: Seq<char>, notes: Seq<Seq<char>>) -> Seq<char> {
    let head = seq!['M', 'e', 'r', 'g', 'e', ' '] + remote + seq![' '] + tasks_name();
    if notes.len() == 0 {
        head
    } else {
        head + seq!['\n', '\n'] + note_lines(notes)
    }
}

/// Two ids are the same.
fn same_id(a: &Vec<u8>, b: &Vec<u8>) -> (same: bool)
    ensures
        same == (a@ == b@),
{
    if a.len() != b.len() {
        return false;
    }
    let mut k: usize = 0;
    while k < a.len()
        invariant
            a.len() == b.len(),
            k <= a.len(),
            forall|j: int| 0 <= j < k ==> a@[j] == b@[j],
        decreases a.len() - k,
    {
        if a[k] != b[k] {
            proof {
                assert(a@[k as int] != b@[k as int]);
            }
            return false;
        }
        k = k + 1;
    }
    proof {
        assert(a@ =~= b@);
    }
    true
}

/// Two optional ids are the same.
fn same_option(a: &Option<Vec<u8>>, b: &Option<Vec<u8>>) -> (same: bool)
    ensures
        same == (id_view(*a) == id_view(*b)),
{
    match (a, b) {
        (Some(x), Some(y)) => same_id(x, y),
        (None, None) => true,
        _ => false,
    }
}

/// How the local tasks take in the remote's tip `theirs`: nothing to do where the local tip is
/// it or the newest commit both sides hold is it; a fast-forward where there is no local tip or
/// the local tip is that common commit; otherwise a merge.
pub fn integration_of(ours: &Option<Vec<u8>>, theirs: &Vec<u8>, base: &Option<Vec<u8>>) -> (step: Integration)
    ensures
        step == integration_spec(id_view(*ours), theirs@, id_view(*base)),
{
    let ours_is_theirs = match ours {
        Some(o) => same_id(o, theirs),
        None => false,
    };
    let base_is_theirs = match base {
        Some(b) => same_id(b, theirs),
        None => false,
    };
    if ours_is_theirs || base_is_theirs {
        Integration::UpToDate
    } else if ours.is_none() || same_option(base, ours) {
        Integration::FastForward
    } else {
        Integration::Merge
    }
}

/// The message of a merge commit that merges the tasks of `remote`, with the notes the merge left.
pub fn merge_message(remote: &str, notes: &Vec<String>) -> (text: String)
    ensures
        text@ == merge_text(remote@, Seq::new(notes.len() as nat, |k: int| notes@[k]@)),
{
    let ghost nv = Seq::new(notes.len() as nat, |k: int| notes@[k]@);
    let mut text = String::from_str("Merge ");
    text.append(remote);
    text.append(" openplan/tasks");
    proof {
        reveal_strlit("Merge ");
        reveal_strlit(" openplan/tasks");
        assert(text@ =~= seq!['M', 'e', 'r', 'g', 'e', ' '] + remote@ + seq![' '] + tasks_name());
    }
    if notes.len() == 0 {
        return text;
    }
    let ghost head = text@;
    text.append("\n\n");
    text.append(notes[0].as_str());
    proof {
        reveal_strlit("\n\n");
        assert(nv.take(1) =~= seq![nv[0]]);
        assert(note_lines(nv.take(1)) == nv[0]);
        assert(text@ =~= head + seq!['\n', '\n'] + note_lines(nv.take(1)));
    }
    let mut k: usize = 1;
    while k < notes.len()
        invariant
            1 <= k <= notes.len(),
            nv == Seq::new(notes.len() as nat, |k: int| notes@[k]@),
            text@ == head + seq!['\n', '\n'] + note_lines(nv.take(k as int)),
        decreases notes.len() - k,
    {
        text.append("\n");
        text.append(notes[k].as_str());
        proof {
            reveal_strlit("\n");
            assert(nv.take(k + 1).drop_last() =~= nv.take(k as int));
            assert(nv.take(k + 1).last() == notes@[k as int]@);
            assert(text@ =~= head + seq!['\n', '\n'] + note_lines(nv.take(k + 1)));
        }
        k = k + 1;
    }
    proof {
        assert(nv.take(notes.len() as int) =~= nv);
    }
    text
}

} // verus!

//! The bodies of the requests that write a task's text.
use vstd::prelude::*;

verus! {

/// One conflict block of a task's body, exactly as the detail read carries it, and the text to put
/// in its place.
#[derive(Debug, PartialEq, Eq)]
pub struct ResolveConflict {
    pub block: String,
    pub text: String,
}

/// A task's body as the web editor writes it: `base` is the body the editor last read, and `text`
/// the new body in the same spelling.
#[derive(Debug, PartialEq, Eq)]
pub struct WriteBody {
    pub base: String,
    pub text: String,
}

/// A whole task file to write back over the task. The comment log is append-only, so the text must
/// keep every entry the task already has.
#[derive(Debug, PartialEq, Eq)]
pub struct WriteTaskFile {
    pub text: String,
}

} // verus!

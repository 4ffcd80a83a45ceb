//! The comment log a task carries.
use vstd::prelude::*;

use crate::field::{Field, Rfc3339};

verus! {

/// One entry of a task's comment log. `at` and `author` are fields on the read path, so a
/// hand-damaged heading still delivers the text it introduces; a comment a person typed has no
/// agent, and that is not a failure.
#[derive(Debug, PartialEq, Eq)]
pub struct Comment {
    pub at: Field<Rfc3339>,
    pub author: Field<String>,
    pub agent: Option<String>,
    pub text: String,
}

/// One branch's whole log, for the read that spans every branch.
#[derive(Debug, PartialEq, Eq)]
pub struct BranchComments {
    pub branch: String,
    pub comments: Vec<Comment>,
}

/// A comment to append. The daemon stamps the time; the caller carries the identity.
#[derive(Debug, PartialEq, Eq)]
pub struct CreateComment {
    pub text: String,
    pub author: String,
    pub agent: Option<String>,
}

} // verus!

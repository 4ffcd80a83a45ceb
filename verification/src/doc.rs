//! The documents a project keeps beside its tasks, as the API reads and writes them.
use vstd::prelude::*;

use crate::field::FieldUpdate;

verus! {

/// A doc referenced by `[[name]]`, resolved to its current title.
#[derive(Debug, PartialEq, Eq)]
pub struct DocRef {
    pub name: String,
    pub title: String,
}

/// A doc nested directly under another one.
#[derive(Debug, PartialEq, Eq)]
pub struct DocChild {
    pub name: String,
    pub title: String,
}

/// A doc to create: the name a human typed, which is also its first heading, an optional body,
/// and the name of the doc it nests under.
#[derive(Debug, PartialEq, Eq)]
pub struct CreateDoc {
    pub name: String,
    pub body: Option<String>,
    pub parent: Option<String>,
}

/// A change to a doc: `name` renames it, `body` replaces the markdown below its heading, and
/// `parent` nests it or, cleared, lifts it to the top level. An omitted key leaves it untouched.
#[derive(Debug, PartialEq, Eq)]
pub struct DocPatch {
    pub name: Option<String>,
    pub body: Option<String>,
    pub parent: FieldUpdate<String>,
}

/// A doc's title and body, as the editor holds them.
#[derive(Debug, PartialEq, Eq)]
pub struct DocText {
    pub title: String,
    pub body: String,
}

/// The web editor's save of a doc: the text it last read, and the new text.
#[derive(Debug, PartialEq, Eq)]
pub struct WriteDocText {
    pub base: DocText,
    pub text: DocText,
}

/// The source of a diagram to draw.
#[derive(Debug, PartialEq, Eq)]
pub struct DiagramSource {
    pub source: String,
}

} // verus!

//! The data and the rules of a file-based task tracker: the frontmatter fields a task carries, the
//! orders tasks are listed in, the subtree, board and flow views built from a flat task set, the
//! header and key spellings the daemon speaks, and the rules its storage backends keep.
pub mod text;
pub mod keys;
pub mod status;
pub mod field;
pub mod metadata;
pub mod sort;
pub mod task;
pub mod order;
pub mod graph;
pub mod layering;
pub mod board;
pub mod daemon;
pub mod tree;
pub mod branch;
pub mod comment;
pub mod doc;
pub mod event;
pub mod history;
pub mod write;
pub mod project;
pub mod growth;
pub mod family;
pub mod waiting;
pub mod flow;
pub mod flow_order;
pub mod layout;
pub mod wiring;
pub mod store;
pub mod render;
pub mod diagram;
pub mod local;
pub mod snapshot;
pub mod tree_diff;
pub mod edits;
pub mod git_sync;
pub mod log;
pub mod importing;
pub mod watch;

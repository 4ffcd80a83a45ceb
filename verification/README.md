# openplan

The data and the rules of openplan, a local-first, file-based task manager for humans and agents,
written in Verus: every function of the library carries a contract that Verus proves.

## Layout

- `src/` — the verified library.
  - `text.rs`, `keys.rs`, `order.rs`, `sort.rs`: byte-wise text order, task keys and their numbers,
    the orders tasks are listed in, and a stable sort of positions.
  - `status.rs`, `field.rs`, `metadata.rs`, `task.rs`: the frontmatter a task carries, field by
    field, with its errors and the conflicts a sync leaves.
  - `board.rs`, `tree.rs`: the board grouped by status and the subtree of one task.
  - `growth.rs`, `family.rs`, `waiting.rs`, `graph.rs`, `layering.rs`, `layout.rs`, `wiring.rs`,
    `flow.rs`, `flow_order.rs`, `diagram.rs`: the flow — which tasks it holds, which leaves wait
    for which, the waves, the cycles that fail it, the nodes and edges in reading order, when its
    orders are total, and its drawing.
  - `render.rs`: the frontmatter a task file is rebuilt with, and the notes of its conflicts.
  - `daemon.rs`: the header spelling that carries any name, and the daemon's wire shapes.
  - `store.rs`, `local.rs`, `snapshot.rs`, `edits.rs`, `tree_diff.rs`, `git_sync.rs`, `log.rs`,
    `importing.rs`, `watch.rs`: the storage backends' own rules — stamps, hidden names, where a
    document's bytes are kept, commit trailers, what a write changes and what the head holds
    after it, which hand edits on disk to take in, what
    changed between two revisions' trees, how a sync takes in the remote's tasks, which revisions
    the log shows, what an import of a branch's directory brings in, and when the directory
    watcher calls for a refresh.
  - `branch.rs`, `comment.rs`, `doc.rs`, `event.rs`, `history.rs`, `project.rs`, `write.rs`: the
    shapes the API speaks.
- `tests/` — the scenarios, run against the compiled library.
- `app/` — what touches the world: file stamps and directory walks, the worker of the directory
  watcher, and the wire shapes that carry serde derives.

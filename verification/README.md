# draw_engine

The editing rules of a drawing board, written in Verus and proved against their
contracts: what a press on an element selects, grouping and ungrouping, the z-order
commands, what a copy takes, the fresh copies a paste or duplicate makes and how
duplicates are stacked, what align and distribute move as one, what a flip turns, the
polygon toggle, wrapping text in a container, flowchart navigation, merging a peer's
edits into the board, how a commit and an undo stamp what they touch, what is marked
as held by the other people in a room, and the properties panel's small decisions.

- `src/` — the verified library. Each module states its model as spec functions over
  element views (`element.rs`), each public function's contract over that model, and the
  laws that span functions as public proof functions.
- `tests/` — tests of the library on concrete boards.
- `app/` — the host side that works on floating-point geometry and JSON: serialisable
  records of the library's types, align/distribute/flip arithmetic, closing a polygon's
  points, the clipboard text and the geometry of pasted copies, reading a peer's patch,
  and a board of records whose commands (delete, erase, group, stacking, lock, commit,
  undo) write the library's plans onto the records.

# klotski

A solver and viewer for the 4 x 5 sliding-block puzzle (the large red block has to
reach the exit at the bottom middle of the tray), with its rules proved in Verus.

- `src/piece.rs`: block kinds, block geometry, the order of blocks in a canonical position.
- `src/board.rs`: a position, its occupancy grid, the goal test, the starting layout.
- `src/moves.rs`: the legal moves (one block, one cell) and their laws: moves keep a
  position valid, every move can be undone, moves depend only on which blocks are present.
- `src/canonical.rs`: the canonical form of a position and the key the search remembers;
  on valid positions two keys are equal exactly when the canonical forms are.
- `src/solver.rs`: breadth-first search; the path it returns is a sequence of legal moves
  ending in a solved position, it is a shortest one, and an empty result means that no
  solution exists (for positions with at most one red block).
- `src/viewer.rs`: the rules of the viewer's Back / Forward / Reset buttons and of dragging
  blocks with the mouse.
- `app/main.rs`: the window, drawn with the `bevy` engine.

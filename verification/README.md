# snake

A snake that steers itself across a bounded grid, driven by a behaviour tree.

- `src/arena.rs`: cells, directions, the snake and the arena; moving,
  turning, growing, collisions, random food and the reconciliation of one
  tick. The arena's well-formedness (a connected snake away from the edges
  of `i32`) is kept by every reconciliation.
- `src/bfs.rs`: breadth-first search for a shortest route around obstacles;
  it returns nothing exactly when no route exists, and otherwise the shortest
  route whose steps come first in the order up, right, down, left.
- `src/blackboard.rs`: the state shared by the nodes of the tree.
- `src/tree.rs`: the actions at the leaves of the tree.
- `src/render.rs`: the frame of the arena as a grid of characters.
- `app/`: the terminal program: the behaviour tree (bonsai-bt), the drawing
  on screen (crossterm) and the main loop.

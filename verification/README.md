# penrose_memory

An aperiodic memory palace for AI agents, with its integer logic verified by
Verus.

- `src/` is the verified library: the golden-ratio hashing of lattice cells
  (Fibonacci-word tile bits, 3-colouring, matching rules), the tile store
  with its lifecycle, the consolidation pass and its content conservation,
  Lamport clocks, the cut-and-project lattice walk and tile census, and the
  tensor layout of tensor-valued tiles.
- `app/` wraps the library with the floor geometry, which is floating point:
  projecting embeddings to the floor, distances and headings, recall
  confidence, the projection matrices of the cut-and-project compiler and the
  tensor fill.
- `tests/` exercises the library.

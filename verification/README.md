# puzzle_explorer

The combinatorial core of an explorer for twisty puzzles built from two
turning axes on a sphere.

- `src/generator.rs`: permutation generators written as lists of cycles;
  GAP notation in both directions, vertex relabelling.
- `src/round_trip.rs`: what is written in GAP notation parses back.
- `src/orbit.rs`, `src/orbit_laws.rs`: orbits of the puzzle's faces under the
  two moves, the cycles each move induces on an orbit, and the checks on
  their lengths.
- `src/canon.rs`, `src/dreadnaut.rs`: the dreadnaut script that canonises an
  orbit graph, and reading the hash back from dreadnaut's output.
- `src/renaming.rs`: renaming vertices one to one does not change the
  renumbered generators, hence not the graph that is canonised.
- `src/worker_protocol.rs`: batches of jobs for the dreadnaut web worker and
  the collection of its answers.
- `src/text.rs`, `src/sorted.rs`: decimal numerals, splitting and joining
  text, sorted sequences.
- `app/`: the browser side: the web worker, colours, timing, and the
  floating-point geometry that finds where each move sends each face.

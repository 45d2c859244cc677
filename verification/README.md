# topo_reconstruct

Recovers the topology of a building from a finite-element scheme: slabs, walls,
columns and beams with the vertices and edges that they share.

## Layout

- `src/` is the library. It holds the data, the parser of LIRA schemes, the graph
  work and the rules by which something is joined, moved, split, kept or refused.
  All of it is verified with Verus.
- `app/` is the command line around it, and the geometry: what computes with
  coordinates, reads a file, writes JSON or prints.
- `tests/` runs the library. Its tests measure with geometry of their own; nothing in
  `app/` is run by them.

## Numbers

The library holds a floating-point number by its bits (`scalar::Scalar`). It orders
and compares such numbers as IEEE 754 does, but never computes with them. Where a
rule depends on a distance, an area or an angle, the caller measures it and hands it
over; the contract of the rule says what follows from the measurement.

## Modules

- `scalar`, `ordering`, `connectivity`, `registry`, `table`, `points`, `edges`,
  `shares`, `text`: comparisons, sorting, connected components, tables, lists that share
  things out, and messages.
- `input`, `parsers`, `models`, `config`, `exporters`: schemes, recovered elements,
  tolerances and DXF drawings.
- `reconstructors`: bars and panels from elements, and what a run reports.
- `geometry`: welding, common boundaries of panels, bars on the surfaces they meet.
- `reconstruction`: axes and planes of a whole scheme, the joint solve, the assembly
  of surfaces and axes, junctions, trial meshes, packages for an external mesher and
  plans for what could not be assembled.

## What is taken on trust

The contracts of five small wrappers: `hashbrown`'s map in `table::HashTable`, and the
reading of a coordinate by `fast_float` in `parsers::lira`.

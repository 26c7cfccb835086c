# hex_grid

A sparse hexagonal grid in axial coordinates `(q, r)`, written in Verus.

- `src/coord.rs`: `AxialCoord`, neighbours and grid distance, with the
  laws that relate them (distance is the length of a shortest walk,
  neighbours are at distance 1, opposite steps cancel).
- `src/grid.rs`: `HexGrid<T>`, whose contracts describe it as a map from
  coordinates to values.
- `src/codec.rs`: the binary save format for grids of JSON texts, written
  and read through bincode, with the proof that loading what was saved
  gives the grid back.
- `src/registry.rs`: numbered grids, as the web API manages them.
- `app/lib.rs`: the WebAssembly exports, pixel conversions (floating point)
  and the serde forms of the grid.

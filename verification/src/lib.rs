//! Hexagonal grid storage in axial coordinates, with verified contracts.
//!
//! * `coord`: axial coordinates, neighbours, grid distance and the laws
//!   that tie them together (distance is the length of a shortest walk).
//! * `grid`: `HexGrid<T>`, a sparse map from coordinates to values.
//! * `codec`: the binary save format of a grid whose values are JSON texts.
//! * `registry`: numbered grids, as managed by the web API.
pub mod coord;
pub mod grid;
pub mod codec;
pub mod registry;

# big_space

Bookkeeping for very large worlds, verified with Verus. Entities are located in cells of integer
grids; their small floating point transforms are relative to the center of their cell.

## Layout

- `src/` — the verified library.
  - `grid/cell.rs`: cell coordinates and their wrapping arithmetic. Cells are indexed by `i64`;
    the `GridPrecision` trait in `precision.rs` gives the same wrapping arithmetic for every
    integer width from `i8` to `i128`.
  - `grid/local_origin.rs`: the order in which the floating origin is carried from grid to grid.
  - `grid/propagation.rs`: which global transforms are recomputed each frame.
  - `hash/`: cell identifiers and the spatial hash of occupied cells, with flood fills and
    neighborhood queries.
  - `partition/`: partitions of the occupied cells into connected groups, kept up to date as
    cells are occupied and emptied, and the partition of each entity with its changes;
    `partition/growth.rs` proves when a growing partition keeps its identifier.
  - `floating_origins.rs`: the one floating origin of each big space.
  - `stationary.rs`: dirty tracking of grid subtrees for entities that do not move.
  - `validation.rs`: validation of the entity hierarchy against the kinds of nodes allowed.
  - `camera.rs`: partitions ordered by their distance in cells from the camera.
  - `precision.rs`: the integer types that can index grids.
  - `collections.rs`: the hash collections the library keeps its state in, with the contracts of
    the methods it calls on them.
- `tests/` — tests of the library on concrete values.
- `app/` — the Bevy side: components, resources, systems and plugins that read the ECS world,
  call the library, and write its results back, with the floating point transform math.

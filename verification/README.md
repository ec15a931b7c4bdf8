# genesis_sim

Verified core of the Genesis artificial-life simulation.

- `src/components.rs`: particle types, cell roles, membership records and
  the four-slot bond record of a particle.
- `src/particle_store.rs`: the Mulberry32 random stream and the
  structure-of-arrays particle store (spawning, id index, compaction of dead
  particles, mutual bonds and bond queries). Physical scalars are stored as
  values of a type parameter.
- `src/spatial_grid.rs`: spatial hash grid over integer cell coordinates
  with packed 30-bit keys and 3x3x3 neighbourhood queries.
- `src/scalar_field.rs`: cube of values with toroidal addressing.
- `src/headless.rs`: when a headless run reports progress and when it ends.
- `src/touch.rs`: finger bookkeeping and gesture classification for touch
  input.

`app/` holds the Bevy application: configuration generation, float physics
on top of the verified structures, ECS components, rendering and the
command-line entry point.

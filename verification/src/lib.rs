//! Verified core of the Genesis particle simulation: particle kinds and
//! bond slots, the structure-of-arrays particle store, the deterministic
//! random stream, the spatial hash grid, the toroidal scalar field, the
//! decisions of a headless run and the bookkeeping of touch gestures.

pub mod components;
pub mod particle_store;
pub mod spatial_grid;
pub mod scalar_field;
pub mod headless;
pub mod touch;

//! A deterministic physics sandbox core: a swarm of point particles moves
//! under a central attractive force and the reactive slope of a deformable
//! terrain field that the particles themselves reshape; overlapping particles
//! collide and separate.
//!
//! All quantities are fixed-point integers with three decimal places
//! (`1000` stands for one world unit), so every operation is exact and
//! every contract below is provable without floating point.

pub mod anchor_ent;
pub mod entity_field;
pub mod fixed;
pub mod swarm_ent;
pub mod vec3;
pub mod world_manifold;

//! The simulation core of a small arcade game: a set of entities that think,
//! die, spawn and collide once per tick, and the state of the keys that steer
//! them. Numbers with a fractional part never enter this crate: the time step,
//! the bodies of the entities and the energy of an impact are types that the
//! entities bring along.

pub mod engine;
pub mod entity;
pub mod input;
pub mod lifecycle;
pub mod render;
pub mod roid;
pub mod tick;

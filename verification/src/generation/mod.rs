//! Generators for the content of a world.

pub mod names;

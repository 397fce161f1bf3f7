//! Procedural population generation: culture-flavoured names and a registry
//! that ranks individuals by power level and tracks who leads whom.

pub mod generation;
pub mod random;
pub mod sampler;
pub mod world;

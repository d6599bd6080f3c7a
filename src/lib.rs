//! Multi-scalar multiplication over an abstract curve group: bucket
//! accumulation with batched additions, Pippenger's windowed method, GLV
//! scalar decomposition, and the planning side of a CPU/device scheduler.

pub mod error;
pub mod group;
pub mod algebra;
pub mod residue;
pub mod index;
pub mod bucket;
pub mod window;
pub mod scalar;
pub mod msm;
pub mod glv;
pub mod lattice;
pub mod scheduler;

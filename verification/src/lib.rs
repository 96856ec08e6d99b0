//! Verified core of a voxel-world engine: bit mixing, seeds, a full-cycle
//! bit permuter, a deterministic generator, generic vectors and
//! hypercomplex numbers, lattice keys for the noise fields, and
//! general-purpose data structures.

pub mod bit_permuter;
pub mod hex;
pub mod hypercomplex;
pub mod lattice;
pub mod linear;
pub mod mixing;
pub mod modular;
pub mod random;
pub mod seed;
pub mod structures;
pub mod text;

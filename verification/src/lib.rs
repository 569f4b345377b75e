//! Verified core of the Hyleus engine: the pseudo-random generator, the
//! little-endian binary codec, the `.mod` mesh file format, the integer
//! kernels of the gradient noise, packed colours, the keyboard state and the
//! index layouts of the primitive meshes.

pub mod behaviors;
pub mod binary;
pub mod color;
pub mod devices;
pub mod interpolation;
pub mod noise;
pub mod random;
pub mod texture;
pub mod vectors;
pub mod mesh_file;
pub mod mesh_shapes;
pub mod ai;

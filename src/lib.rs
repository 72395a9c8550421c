//! Surface voxelization of triangles, fan-decomposed polygons and spheres: each shape
//! becomes the set of integer lattice cells on its surface. Positions are fixed-point,
//! so every step is exact integer arithmetic.

pub mod arith;
pub mod schematic;
pub mod shapes;
pub mod voxelization;

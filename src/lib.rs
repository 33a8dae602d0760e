//! A Lattice Boltzmann (D3Q27) solver core: box indexing, the lattice tables,
//! dense grid storage and the solver phases that move distributions around.
pub mod coord_util;
pub mod lattice;
pub mod array4d;
pub mod solver;
pub mod mesh;
pub mod run;

//! Finite-volume scaffolding for a scalar quantity on a triangulated
//! icosahedral sphere mesh.
//!
//! The crate holds the combinatorial core of the simulation: spherical
//! polygons over canonical vertex identifiers, recursive icosahedral mesh
//! construction, adjacency queries over shared edges, and the discrete
//! decision logic of the flux solver (CFL regime selection, energy-balance
//! classification, and the per-step rebuild of the cell network).
//!
//! Real-valued geometry (angles, areas, quadrature) is evaluated by the
//! driver; scalar cell values cross the boundary as the IEEE-754 bit
//! patterns of non-negative doubles, for which unsigned comparison of the
//! patterns agrees with numeric comparison of the values they encode.

pub mod coords;
pub mod grid;
pub mod meshgen;
pub mod pgen;

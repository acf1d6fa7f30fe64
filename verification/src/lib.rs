//! Verified core of a 2-D force-directed graph layout.
//!
//! Nodes carry integer positions and velocities; configuration scalars
//! (ideal edge length, cooling factor, compliance, ...) are exact rationals.
//! Each simulation tick applies contact repulsion impulses, advances
//! positions, relaxes the spring constraints, and damps velocities, and the
//! whole pipeline is specified and proved over exact integer arithmetic.

pub mod config;
pub mod geom;
pub mod graph;
pub mod num;
pub mod repulsion;
mod rng;
pub mod topology;

//! A particle-life simulation engine on two's-complement fixed-point
//! arithmetic: typed point particles attract or repel each other according
//! to a configurable type-pair coefficient table, collide inelastically,
//! and stay inside a rectangular domain.
//!
//! All quantities (positions, velocities, masses, radii, coefficients and
//! time steps) are signed 64-bit integers carrying a decimal fixed-point
//! value scaled by `fixed::SCALE`. Every tick of the simulation is a total,
//! deterministic function of the previous state; `World::update` states
//! that function exactly in its contract.

pub mod fixed;
pub mod particle;
pub mod interaction_matrix;
pub mod quadtree;
pub mod dynamics;
pub mod world;
pub mod laws;

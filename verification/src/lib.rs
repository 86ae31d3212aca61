//! A small 2D point-charge electrostatics engine.
//!
//! The engine keeps a collection of charged point masses, computes the
//! pairwise Coulomb forces between them, and integrates their motion with
//! semi-implicit Euler steps.  All physical quantities are fixed-point
//! numbers: signed 64-bit tick counts with [`num::SCALE`] ticks to one
//! simulation unit, so every operation has an exact, machine-checked
//! contract.  Rendering (and any floating-point presentation of the state)
//! is left to the caller.

pub mod num;
pub mod physics;
pub mod solver;
pub mod laws;

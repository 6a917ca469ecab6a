//! A quantum circuit model and a single-pass peephole optimizer that cancels
//! or fuses adjacent redundant gates on each qubit.
pub mod circuit;
pub mod compiler;
pub mod gate;
pub mod identities;
pub mod preservation;
pub mod separation;

pub use circuit::{Circuit, CircuitError};
pub use compiler::compile;
pub use gate::{Angle, Gate, ANGLE_TOLERANCE};

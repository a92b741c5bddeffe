pub mod compiler;
pub mod graph;
pub mod net;
pub mod relay;

pub use compiler::{compile, Circuit, CircuitSpec};

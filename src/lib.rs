//! Construction of quantum circuits as a single-assignment register graph,
//! with the operation algebra and the planner that linearises a circuit.
pub mod ops;
pub mod qubits;
pub mod pipeline;
pub mod kernel;

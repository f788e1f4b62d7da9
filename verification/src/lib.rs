//! Reverse-mode automatic differentiation over a scalar computation graph.
//!
//! The engine builds a directed acyclic graph of scalar values: every
//! primitive operation (addition, multiplication, power by a constant,
//! rectified linear) allocates a new node that records its operands and an
//! operation tag.  A backward pass seeds the root's gradient with one, walks
//! the graph in reverse topological order and accumulates each node's local
//! derivative into its inputs' gradients.
//!
//! Numbers are exact rationals ([`scalar::Scalar`]): every value a node can
//! hold is a quotient of two machine integers, and any result that leaves
//! the representable domain (division by zero, an irrational power, or an
//! overflowing numerator or denominator) collapses to a non-finite marker
//! that propagates through later operations, in the way floating-point
//! infinities and NaNs do.
//!
//! The crate also ships an independent byte-pair tokenizer
//! ([`tokenizer::BytePairEncoder`]) used for text preprocessing.

pub mod backward;
pub mod engine;
pub mod laws;
pub mod scalar;
pub mod tokenizer;
pub mod topo;

pub use engine::{Graph, Operation, Value, ValueData};
pub use scalar::Scalar;
pub use tokenizer::{BytePairEncoder, Encoding, TokenError};

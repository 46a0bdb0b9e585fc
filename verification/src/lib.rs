//! A small computation-graph engine: nodes are placeholders, variables or
//! operator applications over tensor values; a forward pass evaluates a node
//! bottom-up and a backward pass accumulates gradients top-down.
//!
//! The engine never looks inside a tensor. Everything it needs from the
//! numeric side is the [`tensor::Tensor`] capability, and every statement the
//! contracts make about values is phrased over that trait's `spec` functions.
//!
//! * [`tensor`], [`operator`], [`storage`]: the values, the operations on
//!   them, and where a graph keeps them;
//! * [`network`]: the graph itself, with the two passes;
//! * [`graph`], [`forward`], [`backward`], [`gradient`]: what the passes
//!   compute, stated without reference to how they go about it, and what
//!   follows from that;
//! * [`traversal`]: the work stack of the forward pass, and why it computes
//!   what [`forward`] says;
//! * [`sums`]: graphs of additions;
//! * [`context`]: an arena of tensor views;
//! * [`shape`]: when the shapes of two arrays fit together.

pub mod backward;
pub mod context;
pub mod error;
pub mod forward;
pub mod gradient;
pub mod graph;
pub mod network;
pub mod operator;
pub mod shape;
pub mod storage;
pub mod sums;
pub mod tensor;
pub mod traversal;

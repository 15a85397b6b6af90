//! A scalar reverse-mode automatic-differentiation engine.
//!
//! An arithmetic expression is recorded on a [`Tape`] as a directed acyclic
//! graph of nodes, each a literal or one operator applied to earlier nodes.
//! For any node of the tape, [`Value::backward`] lays out the gradient pass
//! as a list of [`Step`]s: the order in which every contributing node hands
//! its gradient on to its operands, and the local rule by which it does so.
//!
//! The engine keeps the shape of the graph and decides the order of the
//! pass. Numbers are carried as the bit patterns of IEEE-754 doubles; the
//! arithmetic on them is left to the caller, who evaluates nodes in tape
//! order and then carries out the steps one by one.

pub mod identity;
pub mod graph;
pub mod engine;
pub mod order;
pub mod backward;
pub mod laws;
pub mod neuron;
pub mod layer;
pub mod mlp;

pub use crate::engine::{Tape, Value, ValueData};
pub use crate::graph::{Node, Op};
pub use crate::backward::{Step, StepModel};
pub use crate::neuron::{Neuron, NeuronModel};
pub use crate::layer::Layer;
pub use crate::mlp::MLP;

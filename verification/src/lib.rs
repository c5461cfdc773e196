//! A small reverse-mode automatic-differentiation engine over scalars, and the
//! feed-forward networks built on it.
//!
//! Every scalar computation is a node of a graph that records how its value
//! was derived. A backward pass from a node leaves, on every node it depends
//! on, the gradient of the first with respect to the second; an update step
//! then moves the parameters of a network against their gradients.
//!
//! - [`scalar`] is what the engine asks of a number type. The engine is
//!   generic in it and takes nothing about its arithmetic for granted.
//! - [`node`] and [`gradient`] say what a graph is, and what a backward pass
//!   and an update step do to one.
//! - [`value`] holds the graph itself, the operators that extend it, and the
//!   backward pass.
//! - [`neuron`], [`layer`] and [`mlp`] build units, layers and networks from
//!   the nodes of a graph.
//! - [`label`] writes the numbers in the labels of nodes.
pub mod gradient;
pub mod label;
pub mod layer;
pub mod mlp;
pub mod neuron;
pub mod node;
pub mod scalar;
pub mod value;

//! A dense fixed-point matrix library and a feed-forward neural network
//! trained by backpropagation and gradient descent.
//!
//! Every matrix entry is a fixed-point number: an `i64` counting units of
//! `1 / SCALE`. All operations are specified exactly over mathematical
//! integers, so shape and index bookkeeping, the chain rule through the
//! affine + ReLU layers, and the gradient-descent update are all verified.

pub mod matrix;
pub mod network;
pub mod rng;
pub mod training_data;

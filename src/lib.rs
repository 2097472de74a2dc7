//! A small feedforward neural network: layers of fully connected neurons,
//! a forward pass that reuses its buffers, and a hill-climbing trainer that
//! keeps random edits that do not make the error worse.

pub mod networks;
pub mod prelude;
pub mod random;
pub mod scalar;
pub mod training;

pub use networks::neuron::Neuron;
pub use networks::{ActivationFunction, NeuralNetwork, ShapeMismatch};
pub use random::RandomScalar;
pub use scalar::Scalar;
pub use training::{BasicTrainer, DataSet, Expectation};

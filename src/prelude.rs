//! The items most users need, in one place.

pub use crate::networks::neuron::Neuron;
pub use crate::networks::{ActivationFunction, NeuralNetwork, ShapeMismatch};
pub use crate::random::RandomScalar;
pub use crate::scalar::Scalar;
pub use crate::training::{BasicTrainer, DataSet, EditChoice, Expectation};

//! A topology-evolving neural network in the NEAT style.
//!
//! A [`NeatBrain`] is a layered, acyclic graph of sensor, hidden and output
//! nodes joined by weighted connections.  The graph grows by structural
//! mutation; every operation keeps it well formed ([`Topology::wf`]).
//!
//! Weights and activations are single-precision numbers carried as their
//! IEEE-754 bit patterns (`u32`); the arithmetic on them is supplied by the
//! caller of [`NeatBrain::compute`].

pub mod audit;
pub mod connect;
pub mod eval;
pub mod genesis;
pub mod laws;
pub mod layers;
pub mod model;
pub mod mutate;
pub mod rng;

pub use model::{
    Connection, NeatBrain, Node, SelectionError, Topology, HIDDEN, INNOVATION_NUM, OUTPUT, SENSOR,
    UNIT_WEIGHT,
};

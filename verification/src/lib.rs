//! A NEAT-style neuroevolution engine.
//!
//! A population of genomes, each a list of innovation-numbered connection
//! genes, is expressed as small neural networks, evaluated by a
//! cycle-tolerant demand-driven traversal, and evolved generation by
//! generation through speciation, culling, crossover and mutation.
//!
//! All fractional quantities (weights, activations, probabilities,
//! fitness scores, genetic distances) are fixed-point signed integers in
//! millionths; see [`fixed::UNIT`].

pub mod fixed;
pub mod random;
pub mod genetics;
pub mod neurology;
pub mod taxonomy;
pub mod evolution;
pub mod world;

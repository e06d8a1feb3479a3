//! Random contact networks and stochastic compartmental epidemics over them.
//!
//! The crate builds sparse symmetric graphs with prescribed statistical
//! structure (preferential attachment, stochastic block model, degree-matching
//! configuration model) and advances S/E/I/R compartmental outbreaks over them
//! with a tau-leaping engine and a per-contact daily engine.
//!
//! All rates and probabilities are exact rationals (`Ratio`); every random
//! integer draw flows through the `UniformSource` trait, and draws from
//! real-valued distributions (Poisson, Binomial, fitted degree mixtures) are
//! injected through small sampler traits, so that the graph construction and
//! epidemic bookkeeping are verified for every outcome of those draws.

pub mod multinomial_sample;
pub mod random_graphs;
pub mod run_model;
pub mod run_scenarios;
pub mod sampling;
pub mod seq_math;
pub mod stub_matching;
pub mod tau_leap;
pub mod useful_functions;

//! Claim reduction for multilinear polynomial oracles over binary fields.
//!
//! A prover holds a graph of oracles: committed polynomials at the leaves,
//! and above them virtual polynomials obtained from others (composed,
//! shifted, packed, projected, linearly combined). To prove claimed
//! evaluations of such polynomials it reduces every claim on a virtual
//! oracle to claims on the oracles below, round after round, until only
//! claims on committed oracles are left.
//!
//! - [`field`]: what the reduction needs of a field element.
//! - [`oracle`]: the descriptors of oracles and the set that registers them;
//!   the depth of an oracle in the graph.
//! - [`composite`]: the oracle of a composition over inner oracles.
//! - [`claim`]: evaluation claims and the constraints that they turn into.
//! - [`memoized`]: the record of the evaluations met in a session.
//! - [`evalcheck`]: the prover that takes claims and queues constraints.
//! - [`greedy_evalcheck`]: the rounds of reduction, as a machine to be
//!   stepped and as a loop around an engine for sumchecks.
//! - [`gkr_gpa`]: the grand product argument, its witness with the layers
//!   of partial products, and the layer by layer proof of a batch.
//!
//! The arithmetic of the field, the sumcheck protocols and the transcript
//! are not part of this crate. They enter through the traits
//! [`field::Field`], [`greedy_evalcheck::SumcheckEngine`] and
//! [`gkr_gpa::LayerReducer`]; nothing is assumed of what an engine returns.

pub mod claim;
pub mod composite;
pub mod evalcheck;
pub mod field;
pub mod gkr_gpa;
pub mod greedy_evalcheck;
pub mod memoized;
pub mod oracle;

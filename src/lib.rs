//! Composition of many transaction proofs into one block proof.
//!
//! Proofs form a monoid: `Aggregate::Identity` is the neutral value and two
//! aggregates combine into one. The library holds the admission gate that
//! bounds concurrent leaf computations, the tree-shaped reduction of leaf
//! proofs, the check on the shape of an aggregate that a remote runtime hands
//! back, and the step that wraps the final aggregate into a block proof. The
//! proving circuits themselves are supplied by the caller as functions.

pub mod aggregate;
pub mod distributed;
pub mod gate;
pub mod prover;
pub mod reduce;

//! A fixed-depth incremental Merkle accumulator over a Poseidon-style hash of
//! Ristretto scalars, with the arithmetic circuit that proves membership.
//!
//! - `field`: the scalar field and its 32-byte encoding.
//! - `hex`, `poseidon`: the permutation, the hashes and their parameters.
//! - `merkle`: the tree, its paths and their verification.
//! - `circuit`, `merge`, `r1cs`: linear combinations, merging their terms,
//!   and constraint systems.
//! - `poseidon_gadget`, `gadget_laws`: the permutation as a circuit, and
//!   what the circuit computes.
//! - `membership`, `membership_laws`: the membership circuit, the proof
//!   protocol, and what the circuit proves.
//! - `mixer`: withdrawals from a tree, each nullifier accepted once.
//! - `keys`, `rewards`, `weights`, `bridge`: key sets, the reward gadget,
//!   the weights of the tree operations, and the rules of the bridge.

pub mod bridge;
pub mod circuit;
pub mod field;
pub mod gadget_laws;
pub mod hex;
pub mod keys;
pub mod membership;
pub mod membership_laws;
pub mod merge;
pub mod merkle;
pub mod mixer;
pub mod poseidon;
pub mod poseidon_gadget;
pub mod r1cs;
pub mod rewards;
pub mod weights;

//! A balance ledger that commits to its contents with a Merkle root.
//!
//! The ledger maps account identifiers to unsigned balances. Every insertion
//! appends a leaf digest (the SHA-256 of the identifier and the decimal
//! rendering of the balance) and rebuilds the root by a bottom-up, left-to-right
//! binary reduction in which a lone node at the end of an odd level is promoted
//! unchanged to the next level.

pub mod decimal;
pub mod digest;
pub mod laws;
pub mod ledger;

pub use ledger::MerkleTree;

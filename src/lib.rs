//! A transparent, append-only log backed by a Merkle tree.
//!
//! The tree geometry (which node positions prove what), the append
//! protocol, the root computation and the verifying client are stated over
//! a mathematical model of the tree and proved by Verus.
pub mod client;
pub mod digest;
pub mod error;
pub mod geometry;
pub mod levels;
pub mod log;
pub mod memory;
pub mod position;
pub mod proof_map;
pub mod records;
pub mod root;
pub mod soundness;
pub mod verification;


pub use client::{check_record, get_proofs, split_cached, InMemoryLogClient, InMemoryLogClientBuilder, LogClient};
pub use digest::hash_two_strings;
pub use error::LogError;
pub use geometry::{prefix_proof_positions, proof_positions, tree_sizes};
pub use log::TransparentLog;
pub use memory::InMemoryLog;
pub use position::{LogHeight, LogSize, LogTree, LogTreePosition, Record};
pub use proof_map::ProofMap;
pub use records::{hash, hash_eight, hash_four, hash_two, sample_record, LogEntry, LogRecord};
pub use verification::{verify, verify_tree};

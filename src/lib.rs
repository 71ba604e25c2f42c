//! Topology-preserving simplification of protein backbone traces.
//!
//! Positions are exact fixed-point integers (thousandths of an angstrom for
//! structure files), so every geometric predicate is decided without rounding.
pub mod plane;
pub mod protein_model;
pub mod chain_model;
pub mod reduction_lemmas;
pub mod pdb_parser;

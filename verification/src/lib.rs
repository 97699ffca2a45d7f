//! Verified core of a duplicate-read consensus caller.
//!
//! The library builds an in-memory duplicate-group index from a positional
//! index file, materializes each duplicate group in file-discovery order,
//! and computes one ordered output record stream per run, calling an outside
//! partial-order-alignment engine for the per-group consensus.

pub mod bitenc;
pub mod bytes;
pub mod call;
pub mod dna;
pub mod duplicates;
pub mod groups;
pub mod ident;
pub mod index;
pub mod kmer;
pub mod numbers;
pub mod ordered;
pub mod preset;
pub mod reader;
pub mod metadata;
pub mod records;
pub mod sequence;

pub use ident::RecordIdentifier;

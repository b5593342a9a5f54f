//! Genetic-programming classifier core: expression trees over columnar data,
//! scoring with optimal threshold selection, and a checksummed token-stream
//! serialization format.
//!
//! This crate holds the verified part of the system: the data model, the
//! parsing of separated text, the sorted-order scoring statistics with
//! their optimal threshold cuts, and the persistence format with a proved
//! round trip.  The floating-point evaluator and the evolutionary loop
//! around them live in the surrounding application, which calls into these
//! contracts.

pub mod data;
pub mod error;
pub mod exec;
pub mod numbers;
mod random;
pub mod serialization;
pub mod text;

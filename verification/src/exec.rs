//! The training-time logic: scoring of classifier outputs and optimal
//! threshold selection.

pub mod classifier;
pub mod node;
pub mod score;
pub mod training;

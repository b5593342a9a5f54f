//! The data model: row/column shaped storage, class identities, and the
//! parsing of tabular text into them.

pub mod common;
pub mod data_set;
pub mod importer;
pub mod outcome;

pub use common::{Data, InputShape};
pub use outcome::Class;

//! Whitespace-separated, checksummed, ASCII token-stream persistence format.

pub mod deserializable;
pub mod serializable;
pub mod serializator;

pub use deserializable::Deserializable;
pub use serializable::Serializable;
pub use serializator::Serializator;

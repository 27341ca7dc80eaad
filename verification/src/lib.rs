//! A verified codec for the Bencode serialization format.
//!
//! The wire grammar and the canonical encoding are defined once, as
//! specification functions over byte sequences (`grammar`); the executable
//! decoder and encoder are proved to follow them exactly, and `laws` states
//! and proves the round-trip theorem that ties the two together.

pub mod decoder;
pub mod encoder;
pub mod grammar;
pub mod laws;
pub mod text;
pub mod types;

pub use decoder::decode;
pub use decoder::parse_bytes;
pub use encoder::AsBencodeBytes;
pub use types::BencodeError;
pub use types::BencodeItem;
pub use types::ByteString;
pub use types::DictKey;

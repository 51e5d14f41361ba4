//! Twine: a compact binary format for JSON-like data with tags, variants and
//! references inside the blob.

pub mod deser;
pub mod dump;
pub mod format;
pub mod leb128;
pub mod opts;
pub mod round_trip;
pub mod ser;
pub mod shallow_value;
pub mod types;
pub mod value;

pub use deser::Decoder;
pub use ser::Encoder;
pub use types::{Error, Immediate, Result};

//! Reading and writing documents in a tag-based binary format: a named root
//! compound of typed, nested values, in big- or little-endian byte order.

pub mod blob;
pub mod check;
pub mod compress;
pub mod decode;
pub mod encode;
pub mod error;
pub mod laws;
pub mod raw;
pub mod value;

pub use blob::Blob;
pub use error::Error;
pub use raw::Endianness;
pub use value::Value;

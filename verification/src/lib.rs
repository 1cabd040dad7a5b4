//! A Bencode codec: a recursive-descent parser from bytes to a value tree,
//! and a canonical serializer from values back to bytes.

pub mod de;
pub mod laws;
pub mod ser;
pub mod value;

pub use de::Decode;
pub use de::ErrorKind;
pub use de::ParseError;
pub use ser::Encode;
pub use value::BValue;
pub use value::Bencodable;

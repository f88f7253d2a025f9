//! A schema-driven binary-to-text codec.
//!
//! A schema is a sequence of bytes, one per field slot: a nonzero entry in
//! {1, 2, 4, 8} is a fixed-width field taking the low bits of one input byte,
//! and a zero entry marks a nullable field whose following entry gives the
//! number of payload slots. Encoding flattens a matching byte buffer into a
//! bit queue and packs it into 4-byte UTF-8 code points, 19 payload bits per
//! character; decoding validates the wire bytes, extracts the bits, and
//! rebuilds the buffer, materialising absent nullable payloads as zero bytes.

mod bit_math;
mod char_byte_segment;
mod constants;
mod data_kind;
mod data_requirement;
mod deserializer;
mod error;
mod handler;
mod laws;
mod nullable;
mod schema_parser;
mod serializer;

pub use char_byte_segment::CharByteSegment;
pub use constants::{BITS_IN_CONTINUATION_BYTES, CHAR_BIT_SPACE, CHAR_SIZE};
pub use data_kind::DataKind;
pub use data_requirement::{get_data_requirement, rewrite_get_data_requirement};
pub use deserializer::Deserializer;
pub use error::StoreError;
pub use handler::Handler;
pub use nullable::Nullable;
pub use schema_parser::{parse_kind, parse_schema};
pub use serializer::Serializer;

//! A codec for the DNS message wire format: header, questions and resource
//! records, with domain-name compression in both directions.

pub mod buffer;
pub mod compression;
pub mod error;
pub mod faults;
pub mod header;
pub mod name;
pub mod packet;
pub mod query;
pub mod record;
pub mod roundtrip;
pub mod sharing;
pub mod truncation;

pub use buffer::Buffer;
pub use compression::CompressionTable;
pub use error::CodecError;
pub use header::{Header, ResponseCode};
pub use name::Name;
pub use packet::{decode_message, encode_message, Packet};
pub use query::{QueryClass, QueryType};
pub use record::{Question, ResourceRecord};

//! A verified codec for the InfluxDB line protocol.
//!
//! A line carries a measurement name, a set of tags, a set of typed fields and
//! a nanosecond timestamp. `Influx::decode` turns the bytes of one line into an
//! `InfluxDatapoint`; `Influx::encode` writes a data point back as a line.
pub mod codec;
pub mod error;
pub mod laws;
pub mod number;
pub mod parser;
pub mod point;
pub mod scanner;
pub mod serializer;
pub mod text;
pub mod tnt;

pub use codec::Influx;
pub use error::{DecodeError, EncodeError, Malformation};
pub use parser::parse;
pub use point::{FieldMap, FieldValue, FloatLiteral, InfluxDatapoint, NonScalarKind, TagMap};

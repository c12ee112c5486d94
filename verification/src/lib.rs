//! Decoding of event-stream records whose payload is a schema-registry
//! envelope around a protobuf message, and their projection to JSON.

pub mod confluent;
pub mod cursor;
pub mod decode;
pub mod descriptors;
pub mod error;
pub mod kafka;
pub mod kcat;
pub mod msg;
pub mod proto2json;
pub mod text;
pub mod varint;

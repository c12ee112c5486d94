//! One record of an event stream, as a source hands it over.

use vstd::prelude::*;
use vstd::slice::slice_to_vec;
use vstd::string::StringSliceAdditionalSpecFns;
use vstd::utf8::{decode_utf8, decode_utf8_encode_utf8, encode_utf8, valid_utf8};

verus! {

/// The kinds of source that records are read from.
#[derive(Debug, Clone, Copy, PartialEq, Eq, Structural)]
pub enum Source {
    /// A live stream, read up to where it stood when reading began.
    Kafka,
    /// A capture of a stream, read from start to end.
    Kcat,
}

/// A record: where it came from, its key and its payload.
#[derive(Debug)]
pub struct Msg {
    pub topic: String,
    pub partition: i64,
    pub offset: i64,
    pub ts: i64,
    pub key: ParsedKey,
    pub key_len: usize,
    pub msg: Vec<u8>,
    pub msg_len: usize,
}

/// The key of a record: none at all, text, or bytes that are no text.
#[derive(Debug, Clone)]
pub enum ParsedKey {
    Absent,
    Utf8(String),
    NotUtf8(Vec<u8>),
}

impl ParsedKey {
    /// The bytes that the key was made of; none for a record without a key.
    pub open spec fn bytes(self) -> Seq<u8> {
        match self {
            ParsedKey::Absent => Seq::empty(),
            ParsedKey::Utf8(s) => encode_utf8(s@),
            ParsedKey::NotUtf8(v) => v@,
        }
    }

    /// Whether `self` is what the key bytes `b` are classified as: the text
    /// they spell where they are UTF-8, the bytes themselves where they are
    /// not.
    pub open spec fn is_key_of(self, b: Seq<u8>) -> bool {
        if valid_utf8(b) {
            self matches ParsedKey::Utf8(s) && s@ == decode_utf8(b)
        } else {
            self matches ParsedKey::NotUtf8(v) && v@ == b
        }
    }

    /// Classifies key bytes by trying to read them as UTF-8.
    pub fn new(v: &[u8]) -> (key: Self)
        ensures
            key.is_key_of(v@),
            key.bytes() == v@,
    {
        proof {
            if valid_utf8(v@) {
                decode_utf8_encode_utf8(v@);
            }
        }
        match String::from_utf8(slice_to_vec(v)) {
            Ok(s) => ParsedKey::Utf8(s),
            Err(_) => ParsedKey::NotUtf8(slice_to_vec(v)),
        }
    }

    /// The length of the key in bytes.
    pub fn len(&self) -> (n: usize)
        ensures
            n == self.bytes().len(),
    {
        match self {
            ParsedKey::Absent => 0,
            ParsedKey::Utf8(s) => s.as_str().as_bytes().len(),
            ParsedKey::NotUtf8(s) => s.len(),
        }
    }
}

} // verus!

//! The schema-registry envelope: a magic byte of zero, the schema identifier
//! as four big-endian bytes, a path of message indexes as zigzag varints (a
//! count, then that many values), and after it the message itself.

use crate::cursor::Cursor;
use crate::error::Error;
use crate::varint::{
    consumed_on_error, decode_zigzag, from_pattern, lemma_decode_bounds, read_varint,
};
use byteorder::ByteOrder;
use vstd::prelude::*;
use vstd::slice::slice_to_vec;

verus! {

/// A payload taken out of its envelope.
#[derive(Debug)]
pub struct ConfluentMsg {
    pub schema_id: i32,
    pub value: Vec<u8>,
}

/// One entry of the schema catalog.
#[derive(Debug, Clone)]
pub struct Schema {
    pub id: i32,
    pub version: usize,
    pub schema_type: String,
    pub subject: String,
    pub references: Option<Vec<Reference>>,
    pub schema: String,
}

/// A schema that another schema imports.
#[derive(Debug, Clone)]
pub struct Reference {
    pub name: String,
    pub subject: String,
    pub version: usize,
}

/// The length of the fixed part of an envelope: the magic byte and the
/// schema identifier.
pub const FIXED_HEADER_LEN: usize = 5;

/// The number that four bytes spell, most significant byte first, in two's
/// complement.
pub open spec fn be_i32(b: Seq<u8>) -> i32 {
    from_pattern((b[0] * 0x100_0000 + b[1] * 0x1_0000 + b[2] * 0x100 + b[3]) as nat) as i32
}

/// What reading `count` zigzag varints from the start of `s` gives, and how
/// many bytes the reading consumed before it ended, well or badly.
pub open spec fn decode_indexes(s: Seq<u8>, count: int) -> (Result<Seq<i32>, Error>, nat)
    decreases count,
{
    if count <= 0 {
        (Ok(Seq::empty()), 0)
    } else {
        match decode_zigzag(s) {
            Err(e) => (Err(e), consumed_on_error(s)),
            Ok((v, n)) => {
                let (rest, m) = decode_indexes(s.skip(n as int), count - 1);
                match rest {
                    Ok(vs) => (Ok(seq![v] + vs), n + m),
                    Err(e) => (Err(e), n + m),
                }
            },
        }
    }
}

/// What reading a message index path from the start of `s` gives: the count
/// first, then the indexes. A count below one announces no index.
pub open spec fn decode_index_path(s: Seq<u8>) -> (Result<Seq<i32>, Error>, nat) {
    match decode_zigzag(s) {
        Err(e) => (Err(e), consumed_on_error(s)),
        Ok((count, n)) => {
            let (path, m) = decode_indexes(s.skip(n as int), count as int);
            (path, n + m)
        },
    }
}

/// What an envelope holds: its schema identifier and the length of its
/// header, after which the payload runs to the end of the input.
pub open spec fn decode_envelope(s: Seq<u8>) -> Result<(i32, nat), Error> {
    if s.len() == 0 {
        Err(Error::UnexpectedEof)
    } else if s[0] != 0 {
        Err(Error::InvalidEnvelope)
    } else if s.len() < FIXED_HEADER_LEN {
        Err(Error::UnexpectedEof)
    } else {
        let (path, n) = decode_index_path(s.skip(FIXED_HEADER_LEN as int));
        match path {
            Ok(_) => Ok(
                (be_i32(s.subrange(1, FIXED_HEADER_LEN as int)), (FIXED_HEADER_LEN + n) as nat),
            ),
            Err(e) => Err(e),
        }
    }
}

/// `byteorder::BigEndian::read_i32`: the first four bytes of `buf` as a
/// big-endian two's-complement number. It panics on a shorter buffer.
#[verifier::external_body]
fn read_i32_be(buf: &[u8]) -> (v: i32)
    requires
        buf@.len() >= 4,
    ensures
        v == be_i32(buf@),
{
    byteorder::BigEndian::read_i32(buf)
}

/// Reads a message index path: a count, then that many indexes.
pub fn parse_message_indexes(rdr: &mut Cursor) -> (r: Result<Vec<i32>, Error>)
    ensures
        final(rdr).bytes() == old(rdr).bytes(),
        final(rdr).pos() == old(rdr).pos() + decode_index_path(old(rdr).remaining()).1,
        final(rdr).pos() <= final(rdr).bytes().len(),
        match decode_index_path(old(rdr).remaining()).0 {
            Ok(path) => r is Ok && r.unwrap()@ == path,
            Err(e) => r == Err::<Vec<i32>, Error>(e),
        },
{
    let ghost s = rdr.remaining();
    let size = match read_varint(rdr) {
        Ok(v) => v,
        Err(e) => {
            return Err(e);
        },
    };
    let ghost first = decode_zigzag(s).unwrap().1;
    let ghost t = s.skip(first as int);
    proof {
        lemma_decode_bounds(s);
    }
    let mut out: Vec<i32> = Vec::new();
    let mut i: i32 = 0;
    let ghost mut used: nat = 0;
    assert(rdr.remaining() =~= t);
    while i < size
        invariant
            rdr.bytes() == old(rdr).bytes(),
            s == old(rdr).remaining(),
            t == s.skip(first as int),
            decode_zigzag(s) == Ok::<(i32, nat), Error>((size, first)),
            rdr.pos() == old(rdr).pos() + first + used,
            rdr.pos() <= rdr.bytes().len(),
            0 <= i,
            out@.len() == i,
            decode_indexes(t, size as int) == (
                match decode_indexes(rdr.remaining(), size - i).0 {
                    Ok(vs) => Ok::<Seq<i32>, Error>(out@ + vs),
                    Err(e) => Err(e),
                },
                used + decode_indexes(rdr.remaining(), size - i).1,
            ),
        decreases size - i,
    {
        let ghost before = rdr.remaining();
        let ghost prev = out@;
        let next = read_varint(rdr);
        match next {
            Ok(v) => {
                out.push(v);
            },
            Err(e) => {
                return Err(e);
            },
        }
        proof {
            let n = decode_zigzag(before).unwrap().1;
            lemma_decode_bounds(before);
            assert(rdr.remaining() =~= before.skip(n as int));
            let tail = decode_indexes(rdr.remaining(), size - i - 1).0;
            if tail is Ok {
                assert(prev + (seq![out@.last()] + tail.unwrap()) =~= out@ + tail.unwrap());
            }
            used = used + n;
        }
        i = i + 1;
    }
    proof {
        assert(out@ + Seq::<i32>::empty() =~= out@);
    }
    Ok(out)
}

/// Takes an envelope apart: checks the magic byte, reads the schema
/// identifier, skips the message index path, and copies what follows.
pub fn parse_confluent(value: &[u8]) -> (r: Result<ConfluentMsg, Error>)
    ensures
        match decode_envelope(value@) {
            Ok((schema_id, header_len)) => {
                &&& r is Ok
                &&& r.unwrap().schema_id == schema_id
                &&& r.unwrap().value@ == value@.skip(header_len as int)
            },
            Err(e) => r == Err::<ConfluentMsg, Error>(e),
        },
{
    let mut rdr = Cursor::new(value);
    let magic_byte = match rdr.read_u8() {
        Some(b) => b,
        None => {
            return Err(Error::UnexpectedEof);
        },
    };
    if magic_byte != 0 {
        return Err(Error::InvalidEnvelope);
    }
    let schema_id = match rdr.read_exact(4) {
        Some(b) => read_i32_be(b),
        None => {
            return Err(Error::UnexpectedEof);
        },
    };
    assert(rdr.remaining() =~= value@.skip(FIXED_HEADER_LEN as int));
    match parse_message_indexes(&mut rdr) {
        Ok(_) => {},
        Err(e) => {
            return Err(e);
        },
    }
    let rest = slice_to_vec(rdr.rest());
    assert(rest@ =~= value@.skip(decode_envelope(value@).unwrap().1 as int));
    Ok(ConfluentMsg { schema_id, value: rest })
}

/// A payload that starts with a byte other than zero is no envelope.
pub proof fn nonzero_magic_is_invalid(s: Seq<u8>)
    requires
        s.len() > 0,
        s[0] != 0,
    ensures
        decode_envelope(s) == Err::<(i32, nat), Error>(Error::InvalidEnvelope),
{
}

/// The payload of a well-formed envelope is the input without its header:
/// as many bytes shorter, and not one changed.
pub proof fn payload_is_input_without_header(s: Seq<u8>)
    requires
        decode_envelope(s) is Ok,
    ensures
        FIXED_HEADER_LEN < decode_envelope(s).unwrap().1 <= s.len(),
        s.skip(decode_envelope(s).unwrap().1 as int).len() == s.len() - decode_envelope(
            s,
        ).unwrap().1,
        forall|i: int|
            0 <= i < s.len() - decode_envelope(s).unwrap().1 ==> s.skip(
                decode_envelope(s).unwrap().1 as int,
            )[i] == s[decode_envelope(s).unwrap().1 + i],
{
    let t = s.skip(FIXED_HEADER_LEN as int);
    lemma_index_path_len(t);
}

/// Reading an index path never consumes more than there is.
proof fn lemma_index_path_len(s: Seq<u8>)
    ensures
        decode_index_path(s).1 <= s.len(),
        decode_index_path(s).0 is Ok ==> decode_index_path(s).1 >= 1,
{
    lemma_decode_bounds(s);
    if let Ok((count, n)) = decode_zigzag(s) {
        lemma_indexes_len(s.skip(n as int), count as int);
    }
}

proof fn lemma_indexes_len(s: Seq<u8>, count: int)
    ensures
        decode_indexes(s, count).1 <= s.len(),
    decreases count,
{
    if count > 0 {
        lemma_decode_bounds(s);
        if let Ok((v, n)) = decode_zigzag(s) {
            lemma_indexes_len(s.skip(n as int), count - 1);
        }
    }
}

} // verus!

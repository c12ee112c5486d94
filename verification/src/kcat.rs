//! Records as a capture file spells them.
//!
//! A record is six fields one after the other. The topic, the partition, the
//! offset and the timestamp are each a line of text. The key and the payload
//! are each a line that gives a length, then as many raw bytes, then a
//! newline. A field that lacks its newline is malformed; input that ends
//! where a line is to begin has ended, and the capture with it.

use crate::cursor::Cursor;
use crate::error::Error;
use crate::msg::{Msg, ParsedKey};
use crate::text::{decimal_i64, parse_i64};
use vstd::prelude::*;
use vstd::slice::slice_to_vec;
use vstd::string::StringSliceAdditionalSpecFns;
use vstd::utf8::{decode_utf8, decode_utf8_encode_utf8, valid_utf8};

verus! {

/// The byte that ends a line.
pub const NEWLINE: u8 = 0x0a;

/// A reader of records over a capture held in memory.
pub struct Parser<'a> {
    r: Cursor<'a>,
}

/// Where the first newline of `s` stands.
pub open spec fn first_newline(s: Seq<u8>) -> Option<int>
    decreases s.len(),
{
    if s.len() == 0 {
        None
    } else if s[0] == NEWLINE {
        Some(0)
    } else {
        match first_newline(s.drop_first()) {
            Some(i) => Some(i + 1),
            None => None,
        }
    }
}

/// The first newline is a newline with none before it, and there is none
/// exactly where `s` holds no newline.
pub proof fn lemma_first_newline(s: Seq<u8>)
    ensures
        match first_newline(s) {
            Some(i) => 0 <= i < s.len() && s[i] == NEWLINE && forall|j: int|
                0 <= j < i ==> #[trigger] s[j] != NEWLINE,
            None => forall|j: int| 0 <= j < s.len() ==> #[trigger] s[j] != NEWLINE,
        },
    decreases s.len(),
{
    if s.len() > 0 && s[0] != NEWLINE {
        let rest = s.drop_first();
        lemma_first_newline(rest);
        match first_newline(rest) {
            Some(i) => {
                assert forall|j: int| 0 <= j < i + 1 implies #[trigger] s[j] != NEWLINE by {
                    if j > 0 {
                        assert(rest[j - 1] != NEWLINE);
                    }
                }
            },
            None => {
                assert forall|j: int| 0 <= j < s.len() implies #[trigger] s[j] != NEWLINE by {
                    if j > 0 {
                        assert(rest[j - 1] != NEWLINE);
                    }
                }
            },
        }
    }
}

/// A line at the start of `s`, without its newline, and how many bytes
/// reading it takes. No input at all is the end; input without a newline
/// is malformed, and reading it takes all there is.
pub open spec fn token_of(s: Seq<u8>) -> (Result<Seq<u8>, Error>, nat) {
    if s.len() == 0 {
        (Err(Error::Eof), 0)
    } else {
        match first_newline(s) {
            Some(i) => (Ok(s.take(i)), (i + 1) as nat),
            None => (Err(Error::EolNotFound), s.len()),
        }
    }
}

/// A line of text at the start of `s`.
pub open spec fn string_of(s: Seq<u8>) -> (Result<Seq<char>, Error>, nat) {
    match token_of(s).0 {
        Ok(line) => if valid_utf8(line) {
            (Ok(decode_utf8(line)), token_of(s).1)
        } else {
            (Err(Error::FromUtf8Error), token_of(s).1)
        },
        Err(e) => (Err(e), token_of(s).1),
    }
}

/// A line at the start of `s` that spells a 64-bit number in decimal.
pub open spec fn int_of(s: Seq<u8>) -> (Result<i64, Error>, nat) {
    match token_of(s).0 {
        Ok(line) => if !valid_utf8(line) {
            (Err(Error::FromUtf8Error), token_of(s).1)
        } else {
            match decimal_i64(line) {
                Some(v) => (Ok(v), token_of(s).1),
                None => (Err(Error::ParseIntError), token_of(s).1),
            }
        },
        Err(e) => (Err(e), token_of(s).1),
    }
}

/// The newline that ends a run of raw bytes.
pub open spec fn eol_of(s: Seq<u8>) -> (Result<(), Error>, nat) {
    if s.len() == 0 {
        (Err(Error::UnexpectedEof), 0)
    } else if s[0] == NEWLINE {
        (Ok(()), 1)
    } else {
        (Err(Error::EolNotFound), 1)
    }
}

/// `n` raw bytes at the start of `s` and the newline after them. Where fewer
/// are left, none is read.
pub open spec fn exact_of(s: Seq<u8>, n: nat) -> (Result<Seq<u8>, Error>, nat) {
    if s.len() < n {
        (Err(Error::UnexpectedEof), 0)
    } else {
        match eol_of(s.skip(n as int)).0 {
            Ok(_) => (Ok(s.take(n as int)), n + 1),
            Err(e) => (Err(e), n + eol_of(s.skip(n as int)).1),
        }
    }
}

/// A line that gives a length, then that many raw bytes and a newline.
pub open spec fn sized_of(s: Seq<u8>) -> (Result<Seq<u8>, Error>, nat) {
    match int_of(s).0 {
        Ok(len) => if 0 <= len <= usize::MAX {
            let (bytes, m) = exact_of(s.skip(int_of(s).1 as int), len as nat);
            (bytes, int_of(s).1 + m)
        } else {
            (Err(Error::TryFromIntError), int_of(s).1)
        },
        Err(e) => (Err(e), int_of(s).1),
    }
}

/// The four lines a record starts with.
pub struct Heading {
    pub topic: Seq<char>,
    pub partition: i64,
    pub offset: i64,
    pub ts: i64,
}

/// The topic, the partition, the offset and the timestamp at the start of
/// `s`.
pub open spec fn heading_of(s: Seq<u8>) -> (Result<Heading, Error>, nat) {
    let (topic, a) = string_of(s);
    let (partition, b) = int_of(s.skip(a as int));
    let (offset, c) = int_of(s.skip((a + b) as int));
    let (ts, d) = int_of(s.skip((a + b + c) as int));
    match topic {
        Err(e) => (Err(e), a),
        Ok(topic) => match partition {
            Err(e) => (Err(e), a + b),
            Ok(partition) => match offset {
                Err(e) => (Err(e), a + b + c),
                Ok(offset) => match ts {
                    Err(e) => (Err(e), a + b + c + d),
                    Ok(ts) => (Ok(Heading { topic, partition, offset, ts }), a + b + c + d),
                },
            },
        },
    }
}

/// A record as the capture spells it.
pub struct Record {
    pub heading: Heading,
    pub key: Seq<u8>,
    pub payload: Seq<u8>,
}

/// The record at the start of `s`.
pub open spec fn record_of(s: Seq<u8>) -> (Result<Record, Error>, nat) {
    let (heading, a) = heading_of(s);
    let (key, b) = sized_of(s.skip(a as int));
    let (payload, c) = sized_of(s.skip((a + b) as int));
    match heading {
        Err(e) => (Err(e), a),
        Ok(heading) => match key {
            Err(e) => (Err(e), a + b),
            Ok(key) => match payload {
                Err(e) => (Err(e), a + b + c),
                Ok(payload) => (Ok(Record { heading, key, payload }), a + b + c),
            },
        },
    }
}

/// Whether `m` is the record `r`.
pub open spec fn is_record(m: Msg, r: Record) -> bool {
    &&& m.topic@ == r.heading.topic
    &&& m.partition == r.heading.partition
    &&& m.offset == r.heading.offset
    &&& m.ts == r.heading.ts
    &&& m.key.is_key_of(r.key)
    &&& m.key.bytes() == r.key
    &&& m.key_len == r.key.len()
    &&& m.msg@ == r.payload
    &&& m.msg_len == r.payload.len()
}

/// Reading took `n` bytes of what was left and changed none.
pub open spec fn advanced(before: Cursor, after: Cursor, n: nat) -> bool {
    &&& after.bytes() == before.bytes()
    &&& after.pos() == before.pos() + n
    &&& after.pos() <= after.bytes().len()
}

proof fn lemma_skip_remaining(before: Cursor, after: Cursor, n: nat)
    requires
        advanced(before, after, n),
    ensures
        after.remaining() == before.remaining().skip(n as int),
        n <= before.remaining().len(),
{
    assert(after.remaining() =~= before.remaining().skip(n as int));
}

impl<'a> Parser<'a> {
    /// Where the parser stands in its input.
    pub closed spec fn cursor(&self) -> Cursor<'a> {
        self.r
    }

    /// A parser at the start of `data`.
    pub fn new(data: &'a [u8]) -> (p: Self)
        ensures
            p.cursor().bytes() == data@,
            p.cursor().pos() == 0,
    {
        Parser { r: Cursor::new(data) }
    }

    /// How many bytes of its input the parser has read.
    pub fn position(&self) -> (p: usize)
        ensures
            p == self.cursor().pos(),
    {
        self.r.position()
    }

    /// Reads a line and hands it back without its newline.
    pub fn token(&mut self) -> (r: Result<Vec<u8>, Error>)
        ensures
            advanced(
                old(self).cursor(),
                final(self).cursor(),
                token_of(old(self).cursor().remaining()).1,
            ),
            match token_of(old(self).cursor().remaining()).0 {
                Ok(line) => r matches Ok(v) && v@ == line,
                Err(e) => r matches Err(f) && f == e,
            },
    {
        let rest = self.r.rest();
        let ghost s = self.r.remaining();
        proof {
            lemma_first_newline(s);
        }
        let mut i: usize = 0;
        while i < rest.len()
            invariant
                i <= rest.len(),
                rest@ == s,
                forall|j: int| 0 <= j < i ==> #[trigger] s[j] != NEWLINE,
            ensures
                i < rest.len() ==> s[i as int] == NEWLINE,
            decreases rest.len() - i,
        {
            if rest[i] == NEWLINE {
                break ;
            }
            i = i + 1;
        }
        let line = self.r.read_exact(i);
        if i == rest.len() {
            return if i == 0 {
                Err(Error::Eof)
            } else {
                Err(Error::EolNotFound)
            };
        }
        let newline = self.r.read_u8();
        match (line, newline) {
            (Some(line), Some(_)) => {
                assert(line@ =~= s.take(i as int));
                Ok(slice_to_vec(line))
            },
            _ => Err(Error::EolNotFound),
        }
    }

    /// Reads a line of text.
    pub fn string(&mut self) -> (r: Result<String, Error>)
        ensures
            advanced(
                old(self).cursor(),
                final(self).cursor(),
                string_of(old(self).cursor().remaining()).1,
            ),
            match string_of(old(self).cursor().remaining()).0 {
                Ok(text) => r matches Ok(s) && s@ == text,
                Err(e) => r matches Err(f) && f == e,
            },
    {
        let a = match self.token() {
            Ok(a) => a,
            Err(e) => {
                return Err(e);
            },
        };
        match String::from_utf8(a) {
            Ok(s) => Ok(s),
            Err(_) => Err(Error::FromUtf8Error),
        }
    }

    /// Reads a line that spells a 64-bit number in decimal.
    pub fn string_int(&mut self) -> (r: Result<i64, Error>)
        ensures
            advanced(
                old(self).cursor(),
                final(self).cursor(),
                int_of(old(self).cursor().remaining()).1,
            ),
            match int_of(old(self).cursor().remaining()).0 {
                Ok(v) => r matches Ok(i) && i == v,
                Err(e) => r matches Err(f) && f == e,
            },
    {
        let ghost line = token_of(self.cursor().remaining()).0;
        let s = match self.string() {
            Ok(s) => s,
            Err(e) => {
                return Err(e);
            },
        };
        proof {
            decode_utf8_encode_utf8(line->Ok_0);
        }
        match parse_i64(s.as_str().as_bytes()) {
            Some(i) => Ok(i),
            None => Err(Error::ParseIntError),
        }
    }

    /// Reads `n` raw bytes and the newline after them.
    pub fn exact(&mut self, n: usize) -> (r: Result<Vec<u8>, Error>)
        ensures
            advanced(
                old(self).cursor(),
                final(self).cursor(),
                exact_of(old(self).cursor().remaining(), n as nat).1,
            ),
            match exact_of(old(self).cursor().remaining(), n as nat).0 {
                Ok(bytes) => r matches Ok(v) && v@ == bytes,
                Err(e) => r matches Err(f) && f == e,
            },
    {
        let ghost s = self.cursor().remaining();
        let ghost before = self.cursor();
        let buf = match self.r.read_exact(n) {
            Some(bytes) => slice_to_vec(bytes),
            None => {
                return Err(Error::UnexpectedEof);
            },
        };
        proof {
            lemma_skip_remaining(before, self.cursor(), n as nat);
            assert(buf@ =~= s.take(n as int));
        }
        match self.consume_eol() {
            Ok(()) => Ok(buf),
            Err(e) => Err(e),
        }
    }

    /// Reads the newline that ends a run of raw bytes.
    pub fn consume_eol(&mut self) -> (r: Result<(), Error>)
        ensures
            advanced(
                old(self).cursor(),
                final(self).cursor(),
                eol_of(old(self).cursor().remaining()).1,
            ),
            r == eol_of(old(self).cursor().remaining()).0,
    {
        match self.r.read_u8() {
            None => Err(Error::UnexpectedEof),
            Some(b) => if b == NEWLINE {
                Ok(())
            } else {
                Err(Error::EolNotFound)
            },
        }
    }

    /// Reads `n` raw bytes that are text, and the newline after them.
    pub fn exact_string(&mut self, n: usize) -> (r: Result<String, Error>)
        ensures
            advanced(
                old(self).cursor(),
                final(self).cursor(),
                exact_of(old(self).cursor().remaining(), n as nat).1,
            ),
            match exact_of(old(self).cursor().remaining(), n as nat).0 {
                Ok(bytes) => if valid_utf8(bytes) {
                    r matches Ok(s) && s@ == decode_utf8(bytes)
                } else {
                    r matches Err(f) && f == Error::FromUtf8Error
                },
                Err(e) => r matches Err(f) && f == e,
            },
    {
        let bytes = match self.exact(n) {
            Ok(bytes) => bytes,
            Err(e) => {
                return Err(e);
            },
        };
        match String::from_utf8(bytes) {
            Ok(s) => Ok(s),
            Err(_) => Err(Error::FromUtf8Error),
        }
    }

    /// Reads a line that gives a length, then that many raw bytes and the
    /// newline after them.
    pub fn sized(&mut self) -> (r: Result<Vec<u8>, Error>)
        ensures
            advanced(
                old(self).cursor(),
                final(self).cursor(),
                sized_of(old(self).cursor().remaining()).1,
            ),
            match sized_of(old(self).cursor().remaining()).0 {
                Ok(bytes) => r matches Ok(v) && v@ == bytes,
                Err(e) => r matches Err(f) && f == e,
            },
    {
        let ghost before = self.cursor();
        let len = match self.string_int() {
            Ok(len) => len,
            Err(e) => {
                return Err(e);
            },
        };
        proof {
            lemma_skip_remaining(before, self.cursor(), int_of(before.remaining()).1);
        }
        if len < 0 || len as u64 > usize::MAX as u64 {
            return Err(Error::TryFromIntError);
        }
        self.exact(len as usize)
    }

    /// Reads the four lines a record starts with.
    fn heading(&mut self) -> (r: Result<(String, i64, i64, i64), Error>)
        ensures
            advanced(
                old(self).cursor(),
                final(self).cursor(),
                heading_of(old(self).cursor().remaining()).1,
            ),
            match heading_of(old(self).cursor().remaining()).0 {
                Ok(h) => r matches Ok(got) && got.0@ == h.topic && got.1 == h.partition && got.2
                    == h.offset && got.3 == h.ts,
                Err(e) => r matches Err(f) && f == e,
            },
    {
        let ghost start = self.cursor();
        let topic = match self.string() {
            Ok(v) => v,
            Err(e) => {
                return Err(e);
            },
        };
        let ghost after_topic = self.cursor();
        proof {
            lemma_skip_remaining(start, after_topic, string_of(start.remaining()).1);
        }
        let partition = match self.string_int() {
            Ok(v) => v,
            Err(e) => {
                return Err(e);
            },
        };
        let ghost after_partition = self.cursor();
        proof {
            lemma_skip_remaining(
                after_topic,
                after_partition,
                int_of(after_topic.remaining()).1,
            );
            lemma_skip_remaining(
                start,
                after_partition,
                (after_partition.pos() - start.pos()) as nat,
            );
        }
        let offset = match self.string_int() {
            Ok(v) => v,
            Err(e) => {
                return Err(e);
            },
        };
        let ghost after_offset = self.cursor();
        proof {
            lemma_skip_remaining(
                after_partition,
                after_offset,
                int_of(after_partition.remaining()).1,
            );
            lemma_skip_remaining(start, after_offset, (after_offset.pos() - start.pos()) as nat);
        }
        let ts = match self.string_int() {
            Ok(v) => v,
            Err(e) => {
                return Err(e);
            },
        };
        Ok((topic, partition, offset, ts))
    }

    /// Reads one record.
    pub fn parse_next(&mut self) -> (r: Result<Msg, Error>)
        ensures
            advanced(
                old(self).cursor(),
                final(self).cursor(),
                record_of(old(self).cursor().remaining()).1,
            ),
            match record_of(old(self).cursor().remaining()).0 {
                Ok(record) => r matches Ok(m) && is_record(m, record),
                Err(e) => r matches Err(f) && f == e,
            },
    {
        let ghost start = self.cursor();
        let (topic, partition, offset, ts) = match self.heading() {
            Ok(v) => v,
            Err(e) => {
                return Err(e);
            },
        };
        let ghost after_heading = self.cursor();
        proof {
            lemma_skip_remaining(start, after_heading, heading_of(start.remaining()).1);
        }
        let key = match self.sized() {
            Ok(v) => ParsedKey::new(v.as_slice()),
            Err(e) => {
                return Err(e);
            },
        };
        let ghost after_key = self.cursor();
        proof {
            lemma_skip_remaining(after_heading, after_key, sized_of(after_heading.remaining()).1);
            lemma_skip_remaining(start, after_key, (after_key.pos() - start.pos()) as nat);
        }
        let msg = match self.sized() {
            Ok(v) => v,
            Err(e) => {
                return Err(e);
            },
        };
        let key_len = key.len();
        let msg_len = msg.len();
        Ok(Msg { topic, partition, offset, ts, key, key_len, msg, msg_len })
    }

    /// The next record, or nothing where the input has ended between two
    /// records. A malformed record is handed back as the error it is.
    pub fn next(&mut self) -> (r: Option<Result<Msg, Error>>)
        ensures
            advanced(
                old(self).cursor(),
                final(self).cursor(),
                record_of(old(self).cursor().remaining()).1,
            ),
            match record_of(old(self).cursor().remaining()).0 {
                Ok(record) => r matches Some(Ok(m)) && is_record(m, record),
                Err(Error::Eof) => r is None,
                Err(e) => r matches Some(Err(f)) && f == e,
            },
    {
        match self.parse_next() {
            Ok(msg) => Some(Ok(msg)),
            Err(Error::Eof) => None,
            Err(other) => Some(Err(other)),
        }
    }
}

} // verus!

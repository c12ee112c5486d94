//! Variable-length encoding of 32-bit integers: seven bits to a byte, lowest
//! group first, the high bit of a byte saying that another byte follows; and
//! the zigzag mapping that lets small negative numbers encode as compactly as
//! small positive ones.

use crate::cursor::Cursor;
use crate::error::{Error, VarintError};
use vstd::arithmetic::power2::{lemma2_to64, pow2};
use vstd::prelude::*;

verus! {

/// The 32-bit two's-complement pattern of `v`, read as an unsigned number.
pub open spec fn pattern(v: i32) -> nat {
    if v >= 0 {
        v as nat
    } else {
        (v + 0x1_0000_0000) as nat
    }
}

/// The signed number whose 32-bit pattern is `u`.
pub open spec fn from_pattern(u: nat) -> int {
    if u < 0x8000_0000 {
        u as int
    } else {
        u - 0x1_0000_0000
    }
}

/// Interleaves the signed numbers with the unsigned ones: 0, -1, 1, -2, 2, ...
pub open spec fn zigzag(v: int) -> nat {
    if v >= 0 {
        (2 * v) as nat
    } else {
        (-2 * v - 1) as nat
    }
}

/// The inverse of [`zigzag`].
pub open spec fn unzigzag(u: nat) -> int {
    if u % 2 == 0 {
        (u / 2) as int
    } else {
        -((u / 2) as int) - 1
    }
}

/// The bytes of `n`, base 128, lowest digit first, every byte but the last
/// with its high bit set.
pub open spec fn encode_base128(n: nat) -> Seq<u8>
    decreases n,
{
    if n < 128 {
        seq![n as u8]
    } else {
        seq![(n % 128 + 128) as u8] + encode_base128(n / 128)
    }
}

/// How many bytes at the start of `s` have their high bit set.
pub open spec fn run_length(s: Seq<u8>) -> nat
    decreases s.len(),
{
    if s.len() > 0 && s[0] >= 128 {
        1 + run_length(s.drop_first())
    } else {
        0
    }
}

/// The number whose base-128 digits, lowest first, are the low seven bits of
/// the first `n` bytes of `s`.
pub open spec fn base128(s: Seq<u8>, n: nat) -> nat
    decreases n,
{
    if n == 0 {
        0
    } else {
        (s[0] % 128) as nat + 128 * base128(s.drop_first(), (n - 1) as nat)
    }
}

/// What reading one unsigned varint at the start of `s` gives: the 32-bit
/// pattern and the number of bytes it took, or why there is none.
///
/// A value may take five bytes at most. Five bytes with the high bit set are
/// malformed whatever follows; a shorter run that reaches the end of `s` is
/// cut off.
pub open spec fn decode_base128(s: Seq<u8>) -> Result<(nat, nat), Error> {
    let k = run_length(s);
    if k >= 5 {
        Err(Error::Varint(VarintError::InvalidVarint))
    } else if k >= s.len() {
        Err(Error::UnexpectedEof)
    } else {
        Ok((base128(s, k + 1) % 0x1_0000_0000, k + 1))
    }
}

/// How many bytes a failed read has consumed.
pub open spec fn consumed_on_error(s: Seq<u8>) -> nat {
    if run_length(s) >= 5 {
        5
    } else {
        s.len()
    }
}

/// What reading one unsigned varint at the start of `s` gives: the signed
/// number that the 32-bit pattern stands for, and the count of bytes read.
pub open spec fn decode_unsigned(s: Seq<u8>) -> Result<(i32, nat), Error> {
    match decode_base128(s) {
        Ok((u, n)) => Ok((from_pattern(u) as i32, n)),
        Err(e) => Err(e),
    }
}

/// The bytes of the 32-bit pattern of `v` as an unsigned varint.
pub open spec fn encode_unsigned(v: i32) -> Seq<u8> {
    encode_base128(pattern(v))
}

/// What reading one zigzag varint at the start of `s` gives: the number and
/// the count of bytes read.
pub open spec fn decode_zigzag(s: Seq<u8>) -> Result<(i32, nat), Error> {
    match decode_base128(s) {
        Ok((u, n)) => Ok((unzigzag(u) as i32, n)),
        Err(e) => Err(e),
    }
}

/// The bytes of `v` as a zigzag varint.
pub open spec fn encode_zigzag(v: i32) -> Seq<u8> {
    encode_base128(zigzag(v as int))
}

/// 128 to the power `n`.
pub open spec fn pow128(n: nat) -> nat
    decreases n,
{
    if n == 0 {
        1
    } else {
        128 * pow128((n - 1) as nat)
    }
}

proof fn lemma_pow128_values()
    ensures
        pow128(0) == 1,
        pow128(1) == 0x80,
        pow128(2) == 0x4000,
        pow128(3) == 0x20_0000,
        pow128(4) == 0x1000_0000,
{
    reveal_with_fuel(pow128, 5);
}

/// Taking one more byte adds its digit at the next weight.
proof fn lemma_base128_extend(s: Seq<u8>, n: nat)
    requires
        n < s.len(),
    ensures
        base128(s, n + 1) == base128(s, n) + (s[n as int] % 128) * pow128(n),
    decreases n,
{
    let t = s.drop_first();
    if n > 0 {
        lemma_base128_extend(t, (n - 1) as nat);
        let d = (s[n as int] % 128) as int;
        let p = pow128((n - 1) as nat) as int;
        let low = base128(t, (n - 1) as nat) as int;
        assert(t[n - 1] == s[n as int]);
        assert(base128(t, n) == low + d * p);
        assert(base128(s, n + 1) == (s[0] % 128) + 128 * base128(t, n));
        assert(base128(s, n) == (s[0] % 128) + 128 * low);
        assert(pow128(n) == 128 * p);
        assert(128 * (low + d * p) == 128 * low + d * (128 * p)) by (nonlinear_arith);
        assert(d * pow128(n) == d * (128 * p));
    } else {
        assert(base128(t, 0) == 0);
        assert(base128(s, 1) == (s[0] % 128) + 128 * base128(t, 0));
        assert(pow128(0) == 1);
        assert((s[0] % 128) * pow128(0) == (s[0] % 128)) by (nonlinear_arith)
            requires
                pow128(0) == 1,
        ;
    }
}

proof fn lemma_base128_bound(s: Seq<u8>, n: nat)
    requires
        n <= s.len(),
    ensures
        base128(s, n) < pow128(n),
    decreases n,
{
    if n > 0 {
        lemma_base128_bound(s.drop_first(), (n - 1) as nat);
    }
}

/// A run of bytes with the high bit set, ended by the end of `s` or by a byte
/// without it, is the run at the start of `s`.
proof fn lemma_run_length(s: Seq<u8>, k: nat)
    requires
        k <= s.len(),
        forall|j: int| 0 <= j < k ==> s[j] >= 128,
    ensures
        run_length(s) >= k,
        (k == s.len() || s[k as int] < 128) ==> run_length(s) == k,
    decreases k,
{
    if k > 0 {
        let t = s.drop_first();
        assert forall|j: int| 0 <= j < k - 1 implies t[j] >= 128 by {
            assert(t[j] == s[j + 1]);
        }
        lemma_run_length(t, (k - 1) as nat);
        if k < s.len() {
            assert(t[k - 1] == s[k as int]);
        }
    }
}

/// The groups already read, joined with one more group at the next position.
proof fn lemma_or_group(value: u32, g: u32, k: nat)
    requires
        k <= 4,
        value < pow128(k),
        g < 128,
    ensures
        (value | (g << ((7 * k) as u32))) == (value + g * pow128(k)) % 0x1_0000_0000,
        k < 4 ==> value + g * pow128(k) < pow128(k + 1),
{
    lemma_pow128_values();
    let p = pow128(k);
    let sum = value + g * p;
    if k == 0 {
        assert(value < 1 && g < 128 ==> (value | (g << 0u32)) == g) by (bit_vector);
        assert(sum == g) by (nonlinear_arith)
            requires
                sum == value + g * p,
                p == 1,
                value == 0,
        ;
    } else if k == 1 {
        assert(value < 0x80 && g < 128 ==> (value | (g << 7u32)) == value + g * 0x80)
            by (bit_vector);
        assert(g * p == g * 0x80);
    } else if k == 2 {
        assert(value < 0x4000 && g < 128 ==> (value | (g << 14u32)) == value + g * 0x4000)
            by (bit_vector);
        assert(g * p == g * 0x4000);
    } else if k == 3 {
        assert(value < 0x20_0000 && g < 128 ==> (value | (g << 21u32)) == value + g * 0x20_0000)
            by (bit_vector);
        assert(g * p == g * 0x20_0000);
    } else {
        assert(value < 0x1000_0000 && g < 128 ==> (value | (g << 28u32)) == (value + g
            * 0x1000_0000) % 0x1_0000_0000) by (bit_vector);
        assert(g * p == g * 0x1000_0000);
    }
    if k < 4 {
        assert(pow128(k + 1) == 128 * p);
    }
}

/// Shifts the 32-bit pattern of `x` right by `n` places, filling with zeros.
pub fn unsigned_right_shift(x: i32, n: usize) -> (r: u32)
    requires
        n < 32,
    ensures
        r == pattern(x) / pow2(n as nat),
{
    let u: u32 = x as u32;
    let s: u32 = n as u32;
    proof {
        assert(x >= 0 ==> (x as u32) == x) by (bit_vector);
        assert(x < 0 ==> (x as u32) == x + 0x1_0000_0000) by (bit_vector);
        vstd::bits::lemma_u32_shr_is_div(u, s);
    }
    u >> s
}

/// As [`unsigned_right_shift`], with the result as a signed number where it
/// fits one: it does whenever `n` is not zero.
pub fn unsigned_right_shift_i32(x: i32, n: usize) -> (r: Result<i32, Error>)
    requires
        n < 32,
    ensures
        pattern(x) / pow2(n as nat) <= i32::MAX ==> r == Ok::<i32, Error>(
            (pattern(x) / pow2(n as nat)) as i32,
        ),
        pattern(x) / pow2(n as nat) > i32::MAX ==> r == Err::<i32, Error>(Error::TryFromIntError),
{
    let v = unsigned_right_shift(x, n);
    if v <= 0x7fff_ffff {
        Ok(v as i32)
    } else {
        Err(Error::TryFromIntError)
    }
}

/// Reads one unsigned varint and hands its 32-bit pattern back as a signed
/// number. On failure the cursor stands behind the bytes that were looked at.
pub fn read_unsigned_varint(rdr: &mut Cursor) -> (r: Result<i32, Error>)
    ensures
        final(rdr).bytes() == old(rdr).bytes(),
        old(rdr).pos() <= final(rdr).pos() <= final(rdr).bytes().len(),
        match decode_unsigned(old(rdr).remaining()) {
            Ok((v, n)) => r == Ok::<i32, Error>(v) && final(rdr).pos() == old(rdr).pos() + n,
            Err(e) => r == Err::<i32, Error>(e) && final(rdr).pos() == old(rdr).pos()
                + consumed_on_error(old(rdr).remaining()),
        },
{
    let ghost s = rdr.remaining();
    let mut value: u32 = 0;
    let mut shift: u32 = 0;
    let ghost mut k: nat = 0;
    loop
        invariant
            rdr.bytes() == old(rdr).bytes(),
            s == old(rdr).remaining(),
            rdr.pos() == old(rdr).pos() + k,
            k <= s.len(),
            k <= 4,
            shift == 7 * k,
            forall|j: int| 0 <= j < k ==> s[j] >= 128,
            value == base128(s, k),
        decreases 5 - k,
    {
        let next = rdr.read_u8();
        proof {
            lemma_run_length(s, k);
            lemma_base128_bound(s, k);
            lemma_pow128_values();
        }
        match next {
            None => {
                return Err(Error::UnexpectedEof);
            },
            Some(byte) => {
                assert(byte == s[k as int]);
                proof {
                    lemma_base128_extend(s, k);
                    assert(byte & 0x7f == byte % 128) by (bit_vector);
                    assert((byte & 0x80 == 0) == (byte < 128)) by (bit_vector);
                    lemma_or_group(value, (byte & 0x7f) as u32, k);
                }
                if byte & 0x80 == 0 {
                    value = value | ((byte as u32) << shift);
                    proof {
                        let u = value;
                        assert(u < 0x8000_0000 ==> (u as i32) == u) by (bit_vector);
                        assert(u >= 0x8000_0000 ==> (u as i32) == u - 0x1_0000_0000)
                            by (bit_vector);
                    }
                    return Ok(#[verifier::truncate] (value as i32));
                }
                value = value | (((byte & 0x7f) as u32) << shift);
                shift = shift + 7;
                proof {
                    k = k + 1;
                }
                if shift > 28 {
                    proof {
                        lemma_run_length(s, k);
                    }
                    return Err(Error::Varint(VarintError::InvalidVarint));
                }
            },
        }
    }
}

/// Reads one zigzag varint. On failure the cursor stands behind the bytes
/// that were looked at.
pub fn read_varint(rdr: &mut Cursor) -> (r: Result<i32, Error>)
    ensures
        final(rdr).bytes() == old(rdr).bytes(),
        old(rdr).pos() <= final(rdr).pos() <= final(rdr).bytes().len(),
        match decode_zigzag(old(rdr).remaining()) {
            Ok((v, n)) => r == Ok::<i32, Error>(v) && final(rdr).pos() == old(rdr).pos() + n,
            Err(e) => r == Err::<i32, Error>(e) && final(rdr).pos() == old(rdr).pos()
                + consumed_on_error(old(rdr).remaining()),
        },
{
    let value1 = match read_unsigned_varint(rdr) {
        Ok(v) => v,
        Err(e) => {
            return Err(e);
        },
    };
    proof {
        lemma2_to64();
    }
    let half = match unsigned_right_shift_i32(value1, 1) {
        Ok(h) => h,
        Err(e) => {
            return Err(e);
        },
    };
    let low: i32 = value1 & 1;
    proof {
        assert(value1 >= 0 ==> (value1 & 1) == value1 % 2) by (bit_vector);
        assert(value1 < 0 ==> (value1 & 1) == (value1 + 0x1_0000_0000) % 2) by (bit_vector);
        assert(half ^ 0 == half) by (bit_vector);
        assert(half ^ (-1i32) == -half - 1) by (bit_vector);
    }
    let mask: i32 = -low;
    Ok(half ^ mask)
}

/// Writes the 32-bit pattern of `value` as an unsigned varint. Never fails.
pub fn write_unsigned_varint(value: i32) -> (r: Result<Vec<u8>, Error>)
    ensures
        r is Ok,
        r.unwrap()@ == encode_unsigned(value),
{
    let mut out: Vec<u8> = Vec::new();
    let mut v: i32 = value;
    proof {
        lemma2_to64();
    }
    while (v & -128i32) != 0
        invariant
            out@ + encode_base128(pattern(v)) == encode_base128(pattern(value)),
            pow2(7) == 128,
        decreases pattern(v),
    {
        proof {
            assert(((v & -128i32) != 0) == (v < 0 || v >= 128)) by (bit_vector);
            assert(v >= 0 ==> ((v & 0x7f) | 0x80) == v % 128 + 128) by (bit_vector);
            assert(v < 0 ==> ((v & 0x7f) | 0x80) == (v + 0x1_0000_0000) % 128 + 128)
                by (bit_vector);
        }
        let b: i32 = (v & 0x7f) | 0x80;
        out.push(b as u8);
        v = match unsigned_right_shift_i32(v, 7) {
            Ok(q) => q,
            Err(e) => {
                return Err(e);
            },
        };
        assert(out@ + encode_base128(pattern(v)) == encode_base128(pattern(value))) by {
            let prev = out@.drop_last();
            let n = pattern(v);
            assert(out@ + encode_base128(n) =~= prev + (seq![b as u8] + encode_base128(n)));
        }
    }
    assert(((v & -128i32) != 0) == (v < 0 || v >= 128)) by (bit_vector);
    out.push(v as u8);
    assert(out@ =~= out@.drop_last() + encode_base128(pattern(v)));
    Ok(out)
}

/// Writes `value` as a zigzag varint. Never fails.
pub fn write_varint(value: i32) -> (r: Result<Vec<u8>, Error>)
    ensures
        r is Ok,
        r.unwrap()@ == encode_zigzag(value),
{
    let z: i32 = (value << 1) ^ (value >> 31);
    proof {
        assert(value >= 0 ==> ((value << 1) ^ (value >> 31)) as u32 == 2 * value) by (bit_vector);
        assert(value < 0 ==> ((value << 1) ^ (value >> 31)) as u32 == -2 * value - 1)
            by (bit_vector);
        assert(z >= 0 ==> (z as u32) == z) by (bit_vector);
        assert(z < 0 ==> (z as u32) == z + 0x1_0000_0000) by (bit_vector);
    }
    write_unsigned_varint(z)
}

/// The shape of an encoding: at most `m` bytes for a number below 128^`m`,
/// the high bit set on every byte but the last, and the digits those of `n`.
proof fn lemma_encoding_shape(n: nat, m: nat, rest: Seq<u8>)
    requires
        m >= 1,
        n < pow128(m),
    ensures
        1 <= encode_base128(n).len() <= m,
        forall|j: int| 0 <= j < encode_base128(n).len() - 1 ==> encode_base128(n)[j] >= 128,
        encode_base128(n).last() < 128,
        base128(encode_base128(n) + rest, encode_base128(n).len()) == n,
    decreases n,
{
    let e = encode_base128(n);
    if n < 128 {
        assert((e + rest).drop_first() =~= rest);
        assert(base128(rest, 0) == 0);
        assert((e + rest)[0] == n);
    } else {
        let q = n / 128;
        let tail = encode_base128(q);
        let head = (n % 128 + 128) as u8;
        assert(pow128(m) == 128 * pow128((m - 1) as nat));
        assert(m >= 2) by {
            reveal_with_fuel(pow128, 2);
        }
        lemma_encoding_shape(q, (m - 1) as nat, rest);
        assert(e =~= seq![head] + tail);
        assert((e + rest).drop_first() =~= tail + rest);
        assert((e + rest)[0] == head);
        assert(head % 128 == n % 128);
        assert forall|j: int| 0 <= j < e.len() - 1 implies e[j] >= 128 by {
            if j > 0 {
                assert(e[j] == tail[j - 1]);
            }
        }
        assert(e.last() == tail.last());
    }
}

/// A read consumes at least one byte and no more than five, none of them
/// past the end of the input, and what it gives fits 32 bits.
pub proof fn lemma_decode_bounds(s: Seq<u8>)
    ensures
        run_length(s) <= s.len(),
        consumed_on_error(s) <= s.len(),
        decode_base128(s) matches Ok((u, n)) ==> 1 <= n <= 5 && n <= s.len() && u < 0x1_0000_0000,
    decreases s.len(),
{
    if s.len() > 0 {
        lemma_decode_bounds(s.drop_first());
    }
}

/// A signed number is the one that its own 32-bit pattern stands for.
pub proof fn lemma_pattern_round_trip(v: i32)
    ensures
        pattern(v) < 0x1_0000_0000,
        from_pattern(pattern(v)) == v,
{
}

/// Zigzag loses nothing: mapping a number and mapping it back gives the
/// number, and a 32-bit number maps into 32 bits.
pub proof fn lemma_zigzag_round_trip(v: int)
    ensures
        unzigzag(zigzag(v)) == v,
        i32::MIN <= v <= i32::MAX ==> zigzag(v) < 0x1_0000_0000,
{
}

/// Decoding what was encoded gives the number back, whatever bytes follow the
/// encoding, and consumes the encoding and no more.
pub proof fn lemma_base128_round_trip(n: nat, rest: Seq<u8>)
    requires
        n < 0x1_0000_0000,
    ensures
        decode_base128(encode_base128(n) + rest) == Ok::<(nat, nat), Error>(
            (n, encode_base128(n).len()),
        ),
        1 <= encode_base128(n).len() <= 5,
{
    let e = encode_base128(n);
    let s = e + rest;
    assert(n < pow128(5)) by {
        reveal_with_fuel(pow128, 6);
    }
    lemma_encoding_shape(n, 5, rest);
    let k = (e.len() - 1) as nat;
    assert forall|j: int| 0 <= j < k implies s[j] >= 128 by {
        assert(s[j] == e[j]);
    }
    assert(s[k as int] == e.last());
    lemma_run_length(s, k);
}

/// For every 32-bit integer, reading the unsigned varint that was written for
/// it gives the integer back, whatever bytes follow, and reads no further.
pub proof fn unsigned_varint_round_trip(v: i32, rest: Seq<u8>)
    ensures
        decode_unsigned(encode_unsigned(v) + rest) == Ok::<(i32, nat), Error>(
            (v, encode_unsigned(v).len()),
        ),
{
    lemma_base128_round_trip(pattern(v), rest);
}

/// For every 32-bit integer, reading the zigzag varint that was written for
/// it gives the integer back, whatever bytes follow, and reads no further.
pub proof fn zigzag_varint_round_trip(v: i32, rest: Seq<u8>)
    ensures
        decode_zigzag(encode_zigzag(v) + rest) == Ok::<(i32, nat), Error>(
            (v, encode_zigzag(v).len()),
        ),
{
    lemma_zigzag_round_trip(v as int);
    lemma_base128_round_trip(zigzag(v as int), rest);
}

/// Five bytes in a row with the continuation bit are malformed, whatever
/// follows them, and a read gives up after those five.
pub proof fn overlong_varint_is_invalid(s: Seq<u8>)
    requires
        s.len() >= 5,
        forall|j: int| 0 <= j < 5 ==> s[j] >= 128,
    ensures
        decode_unsigned(s) == Err::<(i32, nat), Error>(Error::Varint(VarintError::InvalidVarint)),
        decode_zigzag(s) == Err::<(i32, nat), Error>(Error::Varint(VarintError::InvalidVarint)),
        consumed_on_error(s) == 5,
{
    lemma_run_length(s, 5);
}

/// Input that ends while the continuation bit is still set, before a fifth
/// byte, is cut off.
pub proof fn truncated_varint_is_eof(s: Seq<u8>)
    requires
        s.len() < 5,
        forall|j: int| 0 <= j < s.len() ==> s[j] >= 128,
    ensures
        decode_unsigned(s) == Err::<(i32, nat), Error>(Error::UnexpectedEof),
        decode_zigzag(s) == Err::<(i32, nat), Error>(Error::UnexpectedEof),
{
    lemma_run_length(s, s.len());
}

} // verus!

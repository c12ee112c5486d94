//! Text out of bytes: UTF-8 and decimal numbers.

use vstd::prelude::*;
use vstd::string::StringSliceAdditionalSpecFns;
use vstd::utf8::{
    decode_utf8, encode_utf8, encode_utf8_decode_utf8, encode_utf8_valid_utf8, is_ascii_chars,
    is_ascii_chars_encode_utf8, length_of_first_scalar, pop_first_scalar, take_first_scalar,
    valid_utf8, valid_utf8_concat,
};

verus! {

/// `std::string::FromUtf8Error`: what `String::from_utf8` fails with.
#[verifier::external_type_specification]
#[verifier::external_body]
pub struct ExFromUtf8Error(std::string::FromUtf8Error);

/// `String::from_utf8` accepts exactly the byte vectors that hold well-formed
/// UTF-8, and the string it gives spells the characters they encode.
pub assume_specification[ String::from_utf8 ](vec: Vec<u8>) -> (r: Result<
    String,
    std::string::FromUtf8Error,
>)
    ensures
        r is Ok <==> valid_utf8(vec@),
        r matches Ok(s) ==> s@ == decode_utf8(vec@),
;

/// The character of a decimal digit.
pub open spec fn digit_char(d: nat) -> char {
    (0x30 + d) as char
}

/// The decimal digits of `n`, most significant first, none of them a leading
/// zero but for zero itself.
pub open spec fn digits(n: nat) -> Seq<char>
    decreases n,
{
    if n < 10 {
        seq![digit_char(n)]
    } else {
        digits(n / 10).push(digit_char(n % 10))
    }
}

/// `n` in decimal, with a minus sign where it is negative.
pub open spec fn decimal(n: int) -> Seq<char> {
    if n < 0 {
        seq!['-'] + digits((-n) as nat)
    } else {
        digits(n as nat)
    }
}

/// The decimal digits of `n` as bytes.
pub open spec fn digit_bytes(n: nat) -> Seq<u8>
    decreases n,
{
    if n < 10 {
        seq![(0x30 + n) as u8]
    } else {
        digit_bytes(n / 10).push((0x30 + n % 10) as u8)
    }
}

/// `n` in decimal as bytes, with a minus sign where it is negative.
pub open spec fn decimal_bytes(n: int) -> Seq<u8> {
    if n < 0 {
        seq![0x2du8] + digit_bytes((-n) as nat)
    } else {
        digit_bytes(n as nat)
    }
}

/// The digits are ASCII, and as bytes they are what they are as characters.
proof fn lemma_digits_are_ascii(n: nat)
    ensures
        digits(n).len() == digit_bytes(n).len(),
        forall|i: int|
            0 <= i < digits(n).len() ==> '\0' <= #[trigger] digits(n)[i] <= '\u{7f}' && digits(
                n,
            )[i] as u8 == digit_bytes(n)[i],
    decreases n,
{
    if n >= 10 {
        lemma_digits_are_ascii(n / 10);
    }
}

/// A number in decimal is ASCII, so that its bytes are its UTF-8 encoding.
proof fn lemma_decimal_is_utf8(n: int)
    ensures
        encode_utf8(decimal(n)) == decimal_bytes(n),
{
    let chars = decimal(n);
    let bytes = decimal_bytes(n);
    if n < 0 {
        lemma_digits_are_ascii((-n) as nat);
    } else {
        lemma_digits_are_ascii(n as nat);
    }
    assert(is_ascii_chars(chars));
    is_ascii_chars_encode_utf8(chars);
    assert(encode_utf8(chars) =~= bytes);
}

/// Appends the decimal digits of `n` to `out`.
fn push_digits(n: u32, out: &mut Vec<u8>)
    ensures
        final(out)@ == old(out)@ + digit_bytes(n as nat),
    decreases n,
{
    if n >= 10 {
        push_digits(n / 10, out);
    }
    out.push(0x30 + (n % 10) as u8);
    assert(out@ =~= old(out)@ + digit_bytes(n as nat));
}

/// Spells a number in decimal: a minus sign before a negative one, no
/// padding and no leading zero.
pub fn decimal_string(n: i32) -> (s: String)
    ensures
        s@ == decimal(n as int),
{
    let mut bytes: Vec<u8> = Vec::new();
    let magnitude: u32 = if n < 0 {
        bytes.push(0x2d);
        (-(n as i64)) as u32
    } else {
        n as u32
    };
    push_digits(magnitude, &mut bytes);
    proof {
        lemma_decimal_is_utf8(n as int);
        assert(bytes@ =~= decimal_bytes(n as int));
        encode_utf8_valid_utf8(decimal(n as int));
        encode_utf8_decode_utf8(decimal(n as int));
    }
    match String::from_utf8(bytes) {
        Ok(s) => s,
        Err(_) => String::new(),
    }
}

/// Whether a byte is an ASCII decimal digit.
pub open spec fn is_digit(b: u8) -> bool {
    0x30 <= b <= 0x39
}

/// Whether `s` holds decimal digits and nothing else.
pub open spec fn all_digits(s: Seq<u8>) -> bool {
    forall|i: int| 0 <= i < s.len() ==> is_digit(#[trigger] s[i])
}

/// The number that a run of decimal digits spells.
pub open spec fn digits_value(s: Seq<u8>) -> nat
    decreases s.len(),
{
    if s.len() == 0 {
        0
    } else {
        digits_value(s.drop_last()) * 10 + (s.last() - 0x30) as nat
    }
}

/// What `s` is after its sign, if it has one.
pub open spec fn unsigned_part(s: Seq<u8>) -> Seq<u8> {
    if s.len() > 0 && (s[0] == 0x2d || s[0] == 0x2b) {
        s.skip(1)
    } else {
        s
    }
}

/// The 64-bit number that `s` spells in decimal: an optional `+` or `-`,
/// then one digit or more, and nothing else. There is none where `s` is not
/// of that form or the number does not fit.
pub open spec fn decimal_i64(s: Seq<u8>) -> Option<i64> {
    let body = unsigned_part(s);
    if body.len() == 0 || !all_digits(body) {
        None
    } else {
        let v = if s[0] == 0x2d {
            -(digits_value(body) as int)
        } else {
            digits_value(body) as int
        };
        if i64::MIN <= v <= i64::MAX {
            Some(v as i64)
        } else {
            None
        }
    }
}

/// More digits never spell a smaller number.
proof fn lemma_digits_value_grows(s: Seq<u8>, i: int)
    requires
        0 <= i <= s.len(),
        all_digits(s),
    ensures
        digits_value(s.take(i)) <= digits_value(s),
    decreases s.len() - i,
{
    if i < s.len() {
        lemma_digits_value_grows(s, i + 1);
        assert(s.take(i + 1).drop_last() =~= s.take(i));
        assert(is_digit(s[i]));
    } else {
        assert(s.take(i) =~= s);
    }
}

/// Reads a decimal 64-bit number: an optional sign, then digits.
pub fn parse_i64(s: &[u8]) -> (r: Option<i64>)
    ensures
        r == decimal_i64(s@),
{
    if s.len() == 0 {
        return None;
    }
    let negative = s[0] == 0x2d;
    let start: usize = if s[0] == 0x2d || s[0] == 0x2b {
        1
    } else {
        0
    };
    let ghost body = unsigned_part(s@);
    assert(body =~= s@.skip(start as int));
    if start == s.len() {
        return None;
    }
    let limit: u64 = 0x8000_0000_0000_0000;
    let mut acc: u64 = 0;
    let mut i: usize = start;
    while i < s.len()
        invariant
            start <= i <= s.len(),
            start <= 1,
            limit == 0x8000_0000_0000_0000,
            body == s@.skip(start as int),
            body == unsigned_part(s@),
            negative == (s@[0] == 0x2d),
            all_digits(body.take(i - start)),
            acc == digits_value(body.take(i - start)),
            acc <= limit,
        decreases s.len() - i,
    {
        let b = s[i];
        let ghost k = i - start;
        assert(body[k] == b);
        if b < 0x30 || b > 0x39 {
            assert(!is_digit(body[k]));
            return None;
        }
        let d: u64 = (b - 0x30) as u64;
        proof {
            assert(body.take(k + 1).drop_last() =~= body.take(k));
            assert forall|j: int| 0 <= j < k + 1 implies is_digit(#[trigger] body.take(k + 1)[j]) by {
                if j < k {
                    assert(is_digit(body.take(k)[j]));
                }
            }
        }
        if acc > (limit - d) / 10 {
            proof {
                if all_digits(body) {
                    lemma_digits_value_grows(body, k + 1);
                }
            }
            return None;
        }
        acc = acc * 10 + d;
        i = i + 1;
    }
    assert(body.take(i - start) =~= body);
    if negative {
        if acc == limit {
            Some(i64::MIN)
        } else {
            Some(-(acc as i64))
        }
    } else {
        if acc == limit {
            None
        } else {
            Some(acc as i64)
        }
    }
}

/// The digits of a number spell the number.
proof fn lemma_digit_bytes_value(n: nat)
    ensures
        digit_bytes(n).len() >= 1,
        all_digits(digit_bytes(n)),
        digits_value(digit_bytes(n)) == n,
    decreases n,
{
    if n >= 10 {
        lemma_digit_bytes_value(n / 10);
        let shorter = digit_bytes(n / 10);
        assert(digit_bytes(n).drop_last() =~= shorter);
        assert forall|i: int| 0 <= i < digit_bytes(n).len() implies is_digit(
            #[trigger] digit_bytes(n)[i],
        ) by {
            if i < shorter.len() {
                assert(is_digit(shorter[i]));
            }
        }
        assert(digit_bytes(n).last() == 0x30 + n % 10);
    } else {
        assert(digit_bytes(n).drop_last() =~= Seq::<u8>::empty());
        assert(digits_value(Seq::<u8>::empty()) == 0);
        assert(digit_bytes(n).last() == 0x30 + n);
    }
}

/// A 64-bit number that is spelled in decimal and read again is the number.
pub proof fn decimal_round_trip(n: i64)
    ensures
        decimal_i64(decimal_bytes(n as int)) == Some(n),
        encode_utf8(decimal(n as int)) == decimal_bytes(n as int),
{
    lemma_decimal_is_utf8(n as int);
    let s = decimal_bytes(n as int);
    if n < 0 {
        lemma_digit_bytes_value((-n) as nat);
        assert(unsigned_part(s) =~= digit_bytes((-n) as nat));
    } else {
        lemma_digit_bytes_value(n as nat);
        assert(is_digit(s[0]));
    }
}

/// Where a reader of JSON text stands: between tokens, inside a string, or
/// behind a backslash inside a string.
#[derive(Debug, Clone, Copy, PartialEq, Eq, Structural)]
pub enum Lexing {
    Outside,
    InString,
    Escaped,
}

/// Whether a byte is white space to JSON.
pub open spec fn is_json_space(b: u8) -> bool {
    b == 0x20 || b == 0x09 || b == 0x0a || b == 0x0d
}

/// Where the reader stands after the byte `b`.
pub open spec fn lex_step(state: Lexing, b: u8) -> Lexing {
    match state {
        Lexing::Outside => if b == 0x22 {
            Lexing::InString
        } else {
            Lexing::Outside
        },
        Lexing::InString => if b == 0x5c {
            Lexing::Escaped
        } else if b == 0x22 {
            Lexing::Outside
        } else {
            Lexing::InString
        },
        Lexing::Escaped => Lexing::InString,
    }
}

/// Whether the byte `b` means something where the reader stands: all bytes
/// do but white space between tokens.
pub open spec fn is_kept(state: Lexing, b: u8) -> bool {
    !(state == Lexing::Outside && is_json_space(b))
}

/// JSON text without the white space between its tokens. What stands in a
/// string stays as it is.
pub open spec fn compacted(s: Seq<u8>, state: Lexing) -> Seq<u8>
    decreases s.len(),
{
    if s.len() == 0 {
        s
    } else {
        let rest = compacted(s.drop_first(), lex_step(state, s[0]));
        if is_kept(state, s[0]) {
            seq![s[0]] + rest
        } else {
            rest
        }
    }
}

/// Where the first line break stands that is inside a string.
pub open spec fn first_raw_break(s: Seq<u8>, state: Lexing) -> Option<int>
    decreases s.len(),
{
    if s.len() == 0 {
        None
    } else if state != Lexing::Outside && s[0] == 0x0a {
        Some(0)
    } else {
        match first_raw_break(s.drop_first(), lex_step(state, s[0])) {
            Some(i) => Some(i + 1),
            None => None,
        }
    }
}

/// No line break is left between the tokens of compacted text: it is one
/// line wherever its strings hold none.
pub proof fn lemma_compacted_is_one_line(s: Seq<u8>, state: Lexing)
    ensures
        first_raw_break(s, state) is None ==> forall|i: int|
            0 <= i < compacted(s, state).len() ==> #[trigger] compacted(s, state)[i] != 0x0a,
    decreases s.len(),
{
    if s.len() > 0 {
        lemma_compacted_is_one_line(s.drop_first(), lex_step(state, s[0]));
        let rest = compacted(s.drop_first(), lex_step(state, s[0]));
        if first_raw_break(s, state) is None {
            assert forall|i: int| 0 <= i < compacted(s, state).len() implies #[trigger] compacted(
                s,
                state,
            )[i] != 0x0a by {
                if is_kept(state, s[0]) {
                    if i > 0 {
                        assert(compacted(s, state)[i] == rest[i - 1]);
                    }
                }
            }
        }
    }
}

/// Where a reader stands after bytes none of which is ASCII: where it stood,
/// but that an escape is over.
pub open spec fn after_high_bytes(state: Lexing) -> Lexing {
    if state == Lexing::Outside {
        Lexing::Outside
    } else {
        Lexing::InString
    }
}

/// Bytes none of which is ASCII are kept, all of them.
proof fn lemma_compacted_high_bytes(s: Seq<u8>, state: Lexing, w: int)
    requires
        0 <= w <= s.len(),
        forall|i: int| 0 <= i < w ==> #[trigger] s[i] >= 0x80,
    ensures
        compacted(s, state) == s.subrange(0, w) + compacted(
            s.subrange(w, s.len() as int),
            if w == 0 {
                state
            } else {
                after_high_bytes(state)
            },
        ),
    decreases w,
{
    if w == 0 {
        assert(s.subrange(0, s.len() as int) =~= s);
        assert(s.subrange(0, 0) + compacted(s, state) =~= compacted(s, state));
    } else {
        let t = s.drop_first();
        let next = lex_step(state, s[0]);
        assert(s[0] >= 0x80);
        assert(next == after_high_bytes(state));
        assert forall|i: int| 0 <= i < w - 1 implies #[trigger] t[i] >= 0x80 by {
            assert(t[i] == s[i + 1]);
        }
        lemma_compacted_high_bytes(t, next, w - 1);
        assert(t.subrange(w - 1, t.len() as int) =~= s.subrange(w, s.len() as int));
        let rest = compacted(s.subrange(w, s.len() as int), after_high_bytes(state));
        assert(seq![s[0]] + (t.subrange(0, w - 1) + rest) =~= s.subrange(0, w) + rest);
    }
}

/// Compacting leaves UTF-8 what was UTF-8: only ASCII bytes are taken out,
/// and the bytes of a longer character stay together.
pub proof fn lemma_compacted_is_utf8(s: Seq<u8>, state: Lexing)
    requires
        valid_utf8(s),
    ensures
        valid_utf8(compacted(s, state)),
    decreases s.len(),
{
    if s.len() > 0 {
        let w = length_of_first_scalar(s);
        let head = take_first_scalar(s);
        let tail = pop_first_scalar(s);
        assert(valid_utf8(head)) by {
            reveal_with_fuel(valid_utf8, 2);
            assert(pop_first_scalar(head) =~= Seq::<u8>::empty());
        }
        if s[0] < 0x80 {
            assert(tail =~= s.drop_first());
            assert(head =~= seq![s[0]]);
            lemma_compacted_is_utf8(tail, lex_step(state, s[0]));
            if is_kept(state, s[0]) {
                valid_utf8_concat(head, compacted(tail, lex_step(state, s[0])));
            }
        } else {
            lemma_compacted_high_bytes(s, state, w);
            lemma_compacted_is_utf8(tail, after_high_bytes(state));
            valid_utf8_concat(head, compacted(tail, after_high_bytes(state)));
        }
    }
}

/// JSON text without the white space between its tokens.
pub open spec fn compact_text(text: Seq<char>) -> Seq<char> {
    decode_utf8(compacted(encode_utf8(text), Lexing::Outside))
}

/// Takes the white space between tokens out of JSON text.
pub fn compact_json(text: &str) -> (r: String)
    ensures
        r@ == compact_text(text@),
{
    let bytes = text.as_bytes();
    let mut out: Vec<u8> = Vec::new();
    let mut state = Lexing::Outside;
    let mut i: usize = 0;
    assert(bytes@.skip(0) =~= bytes@);
    while i < bytes.len()
        invariant
            i <= bytes.len(),
            bytes@ == text.spec_bytes(),
            out@ + compacted(bytes@.skip(i as int), state) == compacted(bytes@, Lexing::Outside),
        decreases bytes.len() - i,
    {
        let b = bytes[i];
        let ghost rest = bytes@.skip(i as int);
        let ghost before = out@;
        assert(rest[0] == b);
        assert(rest.drop_first() =~= bytes@.skip(i + 1));
        let space = b == 0x20 || b == 0x09 || b == 0x0a || b == 0x0d;
        let next = match state {
            Lexing::Outside => if b == 0x22 {
                Lexing::InString
            } else {
                Lexing::Outside
            },
            Lexing::InString => if b == 0x5c {
                Lexing::Escaped
            } else if b == 0x22 {
                Lexing::Outside
            } else {
                Lexing::InString
            },
            Lexing::Escaped => Lexing::InString,
        };
        let keep = match state {
            Lexing::Outside => !space,
            _ => true,
        };
        if keep {
            out.push(b);
            assert(out@ + compacted(rest.drop_first(), next) =~= before + (seq![b] + compacted(
                rest.drop_first(),
                next,
            )));
        }
        state = next;
        i = i + 1;
    }
    assert(out@ + compacted(bytes@.skip(i as int), state) =~= out@);
    proof {
        encode_utf8_valid_utf8(text@);
        lemma_compacted_is_utf8(bytes@, Lexing::Outside);
    }
    match String::from_utf8(out) {
        Ok(t) => t,
        Err(_) => String::new(),
    }
}

} // verus!

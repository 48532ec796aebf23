//! The token codec: converts a decision (literal vs. match) into and from the
//! fixed 2-byte wire token.
//!
//! Each token is a big-endian 16-bit value `V`. If the high byte of `V` is
//! zero the token is a literal and the low byte is the literal value; any
//! byte 0..=255 is representable this way. Otherwise the token is a
//! reference with `V = offset * 32 + length`. The match finder's floor of 8
//! on offsets and 2 on lengths makes `V >= 258` for every legal reference,
//! so its high byte is never zero: that alone disambiguates the two
//! variants. The encoder must preserve this invariant; the decoder can only
//! trust the high-byte test.

use vstd::arithmetic::div_mod::lemma_fundamental_div_mod;
use vstd::arithmetic::div_mod::lemma_fundamental_div_mod_converse;
use vstd::prelude::*;

use crate::window::WINDOW_SIZE;

verus! {

/// One wire-level unit: a literal byte, or a back-reference into the window.
#[derive(PartialEq, Eq, Structural, Clone, Copy, Debug)]
pub enum Token {
    Literal(u8),
    Reference { offset: u16, length: u16 },
}

/// The bounds every emitted reference obeys: offset at least 8 (so the high
/// byte of the encoded value is non-zero) and below the window capacity;
/// length between 2 (a single byte is always cheaper as a literal) and 31.
pub open spec fn ref_bounds(offset: int, length: int) -> bool {
    &&& 8 <= offset < WINDOW_SIZE as int
    &&& 2 <= length <= 31
}

/// The 16-bit wire value of a reference.
pub open spec fn ref_value(offset: int, length: int) -> int {
    offset * 32 + length
}

/// The two wire bytes of a literal token.
pub open spec fn lit_token_bytes(b: u8) -> Seq<u8> {
    seq![0u8, b]
}

/// The two wire bytes of a reference token, high byte first.
pub open spec fn ref_token_bytes(offset: int, length: int) -> Seq<u8> {
    seq![
        (ref_value(offset, length) / 256) as u8,
        (ref_value(offset, length) % 256) as u8,
    ]
}

pub open spec fn encode_spec(t: Token) -> Seq<u8> {
    match t {
        Token::Literal(b) => lit_token_bytes(b),
        Token::Reference { offset, length } => ref_token_bytes(offset as int, length as int),
    }
}

/// What two wire bytes mean, high byte first. A zero high byte is a literal;
/// anything else splits into offset and length. The shift by 5 during encode
/// caps the offset at 11 bits by construction, so no further mask is needed.
pub open spec fn decode_spec(b0: u8, b1: u8) -> Token {
    if b0 == 0 {
        Token::Literal(b1)
    } else {
        let v = (b0 as int) * 256 + (b1 as int);
        Token::Reference { offset: (v / 32) as u16, length: (v % 32) as u16 }
    }
}

/// Serializes a token to its two wire bytes, high byte first.
pub fn encode_token(t: &Token) -> (r: (u8, u8))
    requires
        *t matches Token::Reference { offset, length } ==> ref_bounds(
            offset as int,
            length as int,
        ),
    ensures
        seq![r.0, r.1] == encode_spec(*t),
{
    match t {
        Token::Literal(b) => (0u8, *b),
        Token::Reference { offset, length } => {
            let v: u16 = offset * 32 + length;
            ((v / 256) as u8, (v % 256) as u8)
        },
    }
}

/// Deserializes two wire bytes, high byte first, into a token.
pub fn decode_token(b0: u8, b1: u8) -> (t: Token)
    ensures
        t == decode_spec(b0, b1),
{
    if b0 == 0 {
        Token::Literal(b1)
    } else {
        let v: u16 = (b0 as u16) * 256 + (b1 as u16);
        Token::Reference { offset: v / 32, length: v % 32 }
    }
}

/// The shape of an encoded reference: two bytes whose high byte is non-zero,
/// which reassemble to the wire value, and whose value splits back into
/// exactly the offset and length that were encoded.
pub proof fn lemma_ref_token_shape(offset: int, length: int)
    requires
        ref_bounds(offset, length),
    ensures
        ref_token_bytes(offset, length).len() == 2,
        ref_token_bytes(offset, length)[0] != 0,
        (ref_token_bytes(offset, length)[0] as int) * 256 + (ref_token_bytes(offset, length)[1]
            as int) == ref_value(offset, length),
        ref_value(offset, length) / 32 == offset,
        ref_value(offset, length) % 32 == length,
{
    let v = ref_value(offset, length);
    assert(258 <= v <= 65535);
    lemma_fundamental_div_mod(v, 256);
    lemma_fundamental_div_mod_converse(v, 32, offset, length);
    assert(1 <= v / 256 <= 255);
}

/// Encoding then decoding returns the token unchanged, for every literal and
/// for every reference within the wire bounds.
pub proof fn lemma_token_round_trip(t: Token)
    requires
        t matches Token::Reference { offset, length } ==> ref_bounds(offset as int, length as int),
    ensures
        decode_spec(encode_spec(t)[0], encode_spec(t)[1]) == t,
{
    match t {
        Token::Literal(b) => {},
        Token::Reference { offset, length } => {
            lemma_ref_token_shape(offset as int, length as int);
        },
    }
}

/// For every literal byte value, encoding then decoding yields the same
/// literal: the high byte of a literal token is always zero, so the token
/// can never be misread as a reference.
pub proof fn lemma_literal_disambiguation(b: u8)
    ensures
        encode_spec(Token::Literal(b)) == seq![0u8, b],
        decode_spec(0u8, b) == Token::Literal(b),
{
}

} // verus!

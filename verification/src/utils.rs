//! Little-endian integers, as they stand in every encoding of the engine.

use vstd::arithmetic::div_mod::{
    lemma_div_denominator, lemma_fundamental_div_mod, lemma_fundamental_div_mod_converse,
};
use vstd::prelude::*;
use vstd::slice::slice_subrange;

verus! {

/// The number that the first two bytes spell, least significant byte first.
#[verifier::opaque]
pub open spec fn u16_le(b: Seq<u8>) -> u16 {
    (b[0] as int + 256 * (b[1] as int)) as u16
}

/// The number that the first four bytes spell, least significant byte first.
#[verifier::opaque]
pub open spec fn u32_le(b: Seq<u8>) -> u32 {
    (b[0] as int + 256 * (b[1] as int) + 65536 * (b[2] as int) + 16777216 * (b[3] as int)) as u32
}

/// The two bytes of `x`, least significant first.
#[verifier::opaque]
pub open spec fn le_u16(x: u16) -> Seq<u8> {
    seq![(x % 256) as u8, (x / 256) as u8]
}

/// The four bytes of `x`, least significant first.
#[verifier::opaque]
pub open spec fn le_u32(x: u32) -> Seq<u8> {
    seq![
        (x % 256) as u8,
        ((x / 256) % 256) as u8,
        ((x / 65536) % 256) as u8,
        (x / 16777216) as u8,
    ]
}

/// A `u16` is written in two bytes, and is read back from them whatever
/// follows.
pub proof fn lemma_u16_round_trip(x: u16, rest: Seq<u8>)
    ensures
        le_u16(x).len() == 2,
        u16_le(le_u16(x) + rest) == x,
{
    reveal(le_u16);
    reveal(u16_le);
    lemma_fundamental_div_mod(x as int, 256);
    let b = le_u16(x) + rest;
    assert(b[0] == le_u16(x)[0]);
    assert(b[1] == le_u16(x)[1]);
}

/// Writing out the number that two bytes spell gives the two bytes again.
pub proof fn lemma_u16_bytes_round_trip(b: Seq<u8>)
    requires
        b.len() >= 2,
    ensures
        le_u16(u16_le(b)) == b.subrange(0, 2),
{
    reveal(le_u16);
    reveal(u16_le);
    let x = b[0] as int + 256 * (b[1] as int);
    lemma_fundamental_div_mod_converse(x, 256, b[1] as int, b[0] as int);
    assert(le_u16(u16_le(b)) =~= b.subrange(0, 2));
}

/// A `u32` is written in four bytes, and is read back from them whatever
/// follows.
pub proof fn lemma_u32_round_trip(x: u32, rest: Seq<u8>)
    ensures
        le_u32(x).len() == 4,
        u32_le(le_u32(x) + rest) == x,
{
    reveal(le_u32);
    reveal(u32_le);
    let x0 = x as int;
    let x1 = x0 / 256;
    let x2 = x1 / 256;
    let x3 = x2 / 256;
    lemma_fundamental_div_mod(x0, 256);
    lemma_fundamental_div_mod(x1, 256);
    lemma_fundamental_div_mod(x2, 256);
    lemma_div_denominator(x0, 256, 256);
    lemma_div_denominator(x0, 65536, 256);
    assert(x2 == x0 / 65536);
    assert(x3 == x0 / 16777216);
    assert(x0 == x0 % 256 + 256 * (x1 % 256) + 65536 * (x2 % 256) + 16777216 * x3);
    let b = le_u32(x) + rest;
    assert(b[0] == le_u32(x)[0]);
    assert(b[1] == le_u32(x)[1]);
    assert(b[2] == le_u32(x)[2]);
    assert(b[3] == le_u32(x)[3]);
}

/// Writing out the number that four bytes spell gives the four bytes again.
pub proof fn lemma_u32_bytes_round_trip(b: Seq<u8>)
    requires
        b.len() >= 4,
    ensures
        le_u32(u32_le(b)) == b.subrange(0, 4),
{
    reveal(le_u32);
    reveal(u32_le);
    let b0 = b[0] as int;
    let b1 = b[1] as int;
    let b2 = b[2] as int;
    let b3 = b[3] as int;
    let x = b0 + 256 * b1 + 65536 * b2 + 16777216 * b3;
    lemma_fundamental_div_mod_converse(x, 256, b1 + 256 * b2 + 65536 * b3, b0);
    lemma_fundamental_div_mod_converse(b1 + 256 * b2 + 65536 * b3, 256, b2 + 256 * b3, b1);
    lemma_fundamental_div_mod_converse(x, 65536, b2 + 256 * b3, b0 + 256 * b1);
    lemma_fundamental_div_mod_converse(b2 + 256 * b3, 256, b3, b2);
    lemma_fundamental_div_mod_converse(x, 16777216, b3, b0 + 256 * b1 + 65536 * b2);
    assert(le_u32(u32_le(b)) =~= b.subrange(0, 4));
}

/// The number that bytes spell depends on their first four alone.
pub proof fn lemma_u32_le_prefix(b: Seq<u8>, n: int)
    requires
        4 <= n <= b.len(),
    ensures
        u32_le(b.subrange(0, n)) == u32_le(b),
{
    reveal(u32_le);
}

/// The number that bytes spell depends on their first two alone.
pub proof fn lemma_u16_le_prefix(b: Seq<u8>, n: int)
    requires
        2 <= n <= b.len(),
    ensures
        u16_le(b.subrange(0, n)) == u16_le(b),
{
    reveal(u16_le);
}

/// Reads a little-endian `u32` from exactly four bytes.
pub fn bytes_to_u32(bytes: &[u8]) -> (r: u32)
    requires
        bytes@.len() == 4,
    ensures
        r == u32_le(bytes@),
{
    proof {
        reveal(u32_le);
    }
    let b0: u32 = bytes[0] as u32;
    let b1: u32 = bytes[1] as u32;
    let b2: u32 = bytes[2] as u32;
    let b3: u32 = bytes[3] as u32;
    b0 + b1 * 256 + b2 * 65536 + b3 * 16777216
}

/// Reads a little-endian `u16` from exactly two bytes.
pub fn bytes_to_u16(bytes: &[u8]) -> (r: u16)
    requires
        bytes@.len() == 2,
    ensures
        r == u16_le(bytes@),
{
    proof {
        reveal(u16_le);
    }
    let b0: u16 = bytes[0] as u16;
    let b1: u16 = bytes[1] as u16;
    b0 + b1 * 256
}

/// Reads the single byte of a one-byte slice.
pub fn bytes_to_u8(bytes: &[u8]) -> (r: u8)
    requires
        bytes@.len() == 1,
    ensures
        r == bytes@[0],
{
    bytes[0]
}

/// The little-endian `u32` at place `at` of `bytes`.
pub fn read_u32(bytes: &[u8], at: usize) -> (r: u32)
    requires
        at + 4 <= bytes@.len(),
    ensures
        r == u32_le(bytes@.skip(at as int)),
{
    let len: usize = bytes.len();
    assert(at + 4 <= len);
    let r = bytes_to_u32(slice_subrange(bytes, at, at + 4));
    proof {
        let tail = bytes@.skip(at as int);
        assert(tail.subrange(0, 4) =~= bytes@.subrange(at as int, at + 4));
        lemma_u32_le_prefix(tail, 4);
    }
    r
}

/// The four little-endian bytes of `x`.
pub fn u32_to_bytes(x: u32) -> (r: Vec<u8>)
    ensures
        r@ == le_u32(x),
{
    proof {
        reveal(le_u32);
    }
    let r = vec![
        (x % 256) as u8,
        ((x / 256) % 256) as u8,
        ((x / 65536) % 256) as u8,
        (x / 16777216) as u8,
    ];
    assert(r@ =~= le_u32(x));
    r
}

/// The two little-endian bytes of `x`.
pub fn u16_to_bytes(x: u16) -> (r: Vec<u8>)
    ensures
        r@ == le_u16(x),
{
    proof {
        reveal(le_u16);
    }
    let r = vec![(x % 256) as u8, (x / 256) as u8];
    assert(r@ =~= le_u16(x));
    r
}

} // verus!

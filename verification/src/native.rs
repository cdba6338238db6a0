//! 32-bit integers in the byte order of the executing machine.

use vstd::prelude::*;
use vstd::bytes::spec_u32_to_le_bytes;
use vstd::bytes::spec_u32_from_le_bytes;
use vstd::bytes::lemma_auto_spec_u32_to_from_le_bytes;
use vstd::endian::Endian;
use vstd::endian::endianness;

verus! {

/// The four bytes of `x` in native byte order.
pub open spec fn u32_bytes(x: u32) -> Seq<u8> {
    match endianness() {
        Endian::Little => spec_u32_to_le_bytes(x),
        Endian::Big => spec_u32_to_le_bytes(x).reverse(),
    }
}

/// The integer that four bytes in native byte order stand for.
pub open spec fn u32_value(bytes: Seq<u8>) -> u32 {
    match endianness() {
        Endian::Little => spec_u32_from_le_bytes(bytes),
        Endian::Big => spec_u32_from_le_bytes(bytes.reverse()),
    }
}

/// Encoding yields four bytes, and decoding undoes it in both directions.
pub proof fn lemma_u32_bytes(x: u32)
    ensures
        u32_bytes(x).len() == 4,
        u32_value(u32_bytes(x)) == x,
{
    lemma_auto_spec_u32_to_from_le_bytes();
    let le = spec_u32_to_le_bytes(x);
    assert(le.reverse().reverse() =~= le);
}

/// Four bytes are the encoding of the integer they stand for.
pub proof fn lemma_u32_value(bytes: Seq<u8>)
    requires
        bytes.len() == 4,
    ensures
        u32_bytes(u32_value(bytes)) == bytes,
{
    lemma_auto_spec_u32_to_from_le_bytes();
    assert(bytes.reverse().reverse() =~= bytes);
}

/// Calls `u32::to_ne_bytes`, which std documents as the memory representation
/// of the integer in native byte order: little-endian bytes on a little-endian
/// machine, the same bytes reversed on a big-endian one.
#[verifier::external_body]
pub(crate) fn to_ne_bytes(x: u32) -> (bytes: [u8; 4])
    ensures
        bytes@ == u32_bytes(x),
{
    x.to_ne_bytes()
}

/// Calls `u32::from_ne_bytes`, the inverse of `u32::to_ne_bytes`.
#[verifier::external_body]
pub(crate) fn from_ne_bytes(bytes: [u8; 4]) -> (x: u32)
    ensures
        x == u32_value(bytes@),
{
    u32::from_ne_bytes(bytes)
}

/// The four bytes of `bytes` that start at `at`, as an array.
pub(crate) fn word_at(bytes: &Vec<u8>, at: usize) -> (word: [u8; 4])
    requires
        at + 4 <= bytes@.len(),
    ensures
        word@ == bytes@.subrange(at as int, at + 4),
{
    let len = bytes.len();
    assert(at + 4 <= len);
    let word = [bytes[at], bytes[at + 1], bytes[at + 2], bytes[at + 3]];
    assert(word@ =~= bytes@.subrange(at as int, at + 4));
    word
}

} // verus!

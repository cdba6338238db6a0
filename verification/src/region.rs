//! Positioned reads and writes on the bytes of one chunk.
//!
//! A chunk's storage is a byte string of fixed length. Reads and writes name
//! their offset, and one that would pass the end fails and changes nothing.

use vstd::prelude::*;
use vstd::slice::slice_subrange;
use vstd::slice::slice_to_vec;
use crate::error::Fault;

verus! {

/// `region` with `bytes` laid over it from `offset` on.
pub open spec fn overwrite(region: Seq<u8>, offset: int, bytes: Seq<u8>) -> Seq<u8> {
    region.subrange(0, offset) + bytes + region.subrange(offset + bytes.len(), region.len() as int)
}

/// Whether `len` bytes from `offset` on lie inside a region of `size` bytes.
pub open spec fn in_bounds(size: nat, offset: int, len: int) -> bool {
    0 <= offset && 0 <= len && offset + len <= size
}

/// Reads exactly `len` bytes at `offset`.
pub fn read_exact_at(region: &[u8], offset: u64, len: usize) -> (res: Result<Vec<u8>, Fault>)
    ensures
        in_bounds(region@.len(), offset as int, len as int) ==> (res matches Ok(bytes)
            && bytes@ == region@.subrange(offset as int, offset + len)),
        !in_bounds(region@.len(), offset as int, len as int) ==> res == Err::<Vec<u8>, Fault>(
            Fault::UnexpectedEof,
        ),
{
    let size = region.len();
    if offset > size as u64 || len > size - offset as usize {
        return Err(Fault::UnexpectedEof);
    }
    let start = offset as usize;
    Ok(slice_to_vec(slice_subrange(region, start, start + len)))
}

/// Writes all of `bytes` at `offset`.
pub fn write_all_at(region: &mut Vec<u8>, bytes: &[u8], offset: u64) -> (res: Result<(), Fault>)
    ensures
        final(region)@.len() == old(region)@.len(),
        in_bounds(old(region)@.len(), offset as int, bytes@.len() as int) ==> res is Ok
            && final(region)@ == overwrite(old(region)@, offset as int, bytes@),
        !in_bounds(old(region)@.len(), offset as int, bytes@.len() as int) ==> res == Err::<
            (),
            Fault,
        >(Fault::WriteZero) && final(region)@ == old(region)@,
{
    let size = region.len();
    let len = bytes.len();
    if offset > size as u64 || len > size - offset as usize {
        return Err(Fault::WriteZero);
    }
    let start = offset as usize;
    let mut i: usize = 0;
    while i < len
        invariant
            i <= len,
            len == bytes@.len(),
            start + len <= region@.len() <= usize::MAX,
            region@.len() == old(region)@.len(),
            region@ == overwrite(old(region)@, start as int, bytes@.subrange(0, i as int)),
        decreases len - i,
    {
        region.set(start + i, bytes[i]);
        i += 1;
        assert(region@ =~= overwrite(old(region)@, start as int, bytes@.subrange(0, i as int)));
    }
    assert(bytes@.subrange(0, len as int) =~= bytes@);
    Ok(())
}

} // verus!

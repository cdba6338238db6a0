//! The cursor pair at the start of every chunk.

use vstd::prelude::*;
use crate::error::Fault;
use crate::native::from_ne_bytes;
use crate::native::to_ne_bytes;
use crate::native::word_at;
use crate::native::u32_bytes;
use crate::native::u32_value;
use crate::native::lemma_u32_bytes;
use crate::region::overwrite;
use crate::region::read_exact_at;
use crate::region::write_all_at;

verus! {

/// Bytes that a header takes at the start of a chunk.
pub const HEADER_SIZE: u64 = 8;

/// Where reading and writing stand in a chunk, in bytes from the first frame.
#[derive(Debug, Clone, Copy, PartialEq, Eq, Structural)]
pub struct Header {
    read_cursor: u32,
    write_cursor: u32,
}

/// The eight bytes that store a cursor pair: the read cursor, then the write
/// cursor, both in native byte order.
pub open spec fn cursor_bytes(read_cursor: u64, write_cursor: u64) -> Seq<u8> {
    u32_bytes(read_cursor as u32) + u32_bytes(write_cursor as u32)
}

/// Whether the first eight bytes of `region` store this cursor pair.
pub open spec fn stores(region: Seq<u8>, read_cursor: u64, write_cursor: u64) -> bool {
    &&& region.len() >= HEADER_SIZE
    &&& read_cursor == u32_value(region.subrange(0, 4))
    &&& write_cursor == u32_value(region.subrange(4, 8))
}

impl Header {
    /// Offset of the first frame that was not consumed yet.
    pub closed spec fn spec_read_cursor(&self) -> u64 {
        self.read_cursor as u64
    }

    /// Offset just past the last frame written.
    pub closed spec fn spec_write_cursor(&self) -> u64 {
        self.write_cursor as u64
    }

    /// The eight bytes that store this header.
    pub open spec fn bytes(&self) -> Seq<u8> {
        cursor_bytes(self.spec_read_cursor(), self.spec_write_cursor())
    }

    /// Whether the first eight bytes of `region` store this header.
    pub open spec fn stored_in(&self, region: Seq<u8>) -> bool {
        stores(region, self.spec_read_cursor(), self.spec_write_cursor())
    }

    /// A header with both cursors at the first frame.
    pub fn new() -> (header: Self)
        ensures
            header.spec_read_cursor() == 0,
            header.spec_write_cursor() == 0,
    {
        Self { read_cursor: 0, write_cursor: 0 }
    }

    #[verifier::when_used_as_spec(spec_read_cursor)]
    pub fn read_cursor(&self) -> (cursor: u64)
        ensures
            cursor == self.spec_read_cursor(),
            cursor <= u32::MAX,
    {
        self.read_cursor as u64
    }

    /// Moves the read cursor `offset` bytes on.
    pub fn advance_read_cursor(&mut self, offset: u64)
        requires
            old(self).spec_read_cursor() + offset <= u32::MAX,
        ensures
            final(self).spec_read_cursor() == old(self).spec_read_cursor() + offset,
            final(self).spec_write_cursor() == old(self).spec_write_cursor(),
    {
        self.read_cursor = self.read_cursor + offset as u32;
    }

    #[verifier::when_used_as_spec(spec_write_cursor)]
    pub fn write_cursor(&self) -> (cursor: u64)
        ensures
            cursor == self.spec_write_cursor(),
            cursor <= u32::MAX,
    {
        self.write_cursor as u64
    }

    /// Moves the write cursor `offset` bytes on.
    pub fn advance_write_cursor(&mut self, offset: u64)
        requires
            old(self).spec_write_cursor() + offset <= u32::MAX,
        ensures
            final(self).spec_write_cursor() == old(self).spec_write_cursor() + offset,
            final(self).spec_read_cursor() == old(self).spec_read_cursor(),
    {
        self.write_cursor = self.write_cursor + offset as u32;
    }

    /// Reads the header that the first eight bytes of `region` store. Fails,
    /// as a short read, exactly when the region has fewer.
    pub fn read_from(region: &[u8]) -> (res: Result<Self, Fault>)
        ensures
            region@.len() >= HEADER_SIZE ==> (res matches Ok(header) && header.stored_in(region@)),
            region@.len() < HEADER_SIZE ==> res == Err::<Self, Fault>(Fault::UnexpectedEof),
    {
        match read_exact_at(region, 0, 8) {
            Ok(bytes) => {
                let read_cursor = from_ne_bytes(word_at(&bytes, 0));
                let write_cursor = from_ne_bytes(word_at(&bytes, 4));
                proof {
                    assert(bytes@.subrange(0, 4) =~= region@.subrange(0, 4));
                    assert(bytes@.subrange(4, 8) =~= region@.subrange(4, 8));
                }
                Ok(Self { read_cursor, write_cursor })
            },
            Err(fault) => Err(fault),
        }
    }

    /// Stores the header in the first eight bytes of `region`. Fails exactly
    /// when the region has fewer, and then leaves it as it was.
    pub fn write_into(&self, region: &mut Vec<u8>) -> (res: Result<(), Fault>)
        ensures
            final(region)@.len() == old(region)@.len(),
            old(region)@.len() >= HEADER_SIZE ==> res is Ok && final(region)@ == overwrite(
                old(region)@,
                0,
                self.bytes(),
            ) && self.stored_in(final(region)@),
            old(region)@.len() < HEADER_SIZE ==> res == Err::<(), Fault>(Fault::WriteZero)
                && final(region)@ == old(region)@,
    {
        let mut data: Vec<u8> = Vec::new();
        let head = to_ne_bytes(self.read_cursor);
        let tail = to_ne_bytes(self.write_cursor);
        proof {
            lemma_u32_bytes(self.read_cursor);
            lemma_u32_bytes(self.write_cursor);
        }
        let mut i: usize = 0;
        while i < 4
            invariant
                i <= 4,
                head@.len() == 4,
                data@ == head@.subrange(0, i as int),
            decreases 4 - i,
        {
            data.push(head[i]);
            i += 1;
            assert(data@ =~= head@.subrange(0, i as int));
        }
        let mut j: usize = 0;
        while j < 4
            invariant
                j <= 4,
                head@.len() == 4,
                tail@.len() == 4,
                data@ == head@ + tail@.subrange(0, j as int),
            decreases 4 - j,
        {
            data.push(tail[j]);
            j += 1;
            assert(data@ =~= head@ + tail@.subrange(0, j as int));
        }
        assert(data@ =~= self.bytes());
        let res = write_all_at(region, data.as_slice(), 0);
        proof {
            if old(region)@.len() >= HEADER_SIZE {
                Self::lemma_stored(*self, old(region)@);
            }
        }
        res
    }

    /// A cursor pair that is written over the start of a region is the one
    /// read back from it.
    pub proof fn lemma_cursors_stored(read_cursor: u32, write_cursor: u32, region: Seq<u8>)
        requires
            region.len() >= HEADER_SIZE,
        ensures
            stores(
                overwrite(region, 0, cursor_bytes(read_cursor as u64, write_cursor as u64)),
                read_cursor as u64,
                write_cursor as u64,
            ),
            overwrite(region, 0, cursor_bytes(read_cursor as u64, write_cursor as u64)).len()
                == region.len(),
    {
        lemma_u32_bytes(read_cursor);
        lemma_u32_bytes(write_cursor);
        let after = overwrite(region, 0, cursor_bytes(read_cursor as u64, write_cursor as u64));
        assert(after.subrange(0, 4) =~= u32_bytes(read_cursor));
        assert(after.subrange(4, 8) =~= u32_bytes(write_cursor));
    }

    /// A header that is written over the start of a region is the one read
    /// back from it, and the bytes behind it stay.
    pub proof fn lemma_stored(header: Self, region: Seq<u8>)
        requires
            region.len() >= HEADER_SIZE,
        ensures
            header.stored_in(overwrite(region, 0, header.bytes())),
            overwrite(region, 0, header.bytes()).len() == region.len(),
            overwrite(region, 0, header.bytes()).subrange(8, region.len() as int)
                == region.subrange(8, region.len() as int),
    {
        let r = header.spec_read_cursor() as u32;
        let w = header.spec_write_cursor() as u32;
        lemma_u32_bytes(r);
        lemma_u32_bytes(w);
        let after = overwrite(region, 0, header.bytes());
        assert(after.subrange(0, 4) =~= u32_bytes(r));
        assert(after.subrange(4, 8) =~= u32_bytes(w));
        assert(after.subrange(8, region.len() as int) =~= region.subrange(8, region.len() as int));
    }
}

} // verus!

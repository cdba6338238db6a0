//! One record on disk: its length, its payload and a checksum over both.
//!
//! A frame is stored as `[length:4][data:N][checksum:4]`, the two integers in
//! native byte order. `length` counts the whole frame, so that adding it to the
//! frame's offset gives the offset of the next one.

use vstd::prelude::*;
use crate::checksum::checksum;
use crate::checksum::crc32_iscsi;
use crate::error::Fault;
use crate::native::from_ne_bytes;
use crate::native::lemma_u32_bytes;
use crate::native::to_ne_bytes;
use crate::native::u32_bytes;
use crate::native::u32_value;
use crate::native::word_at;
use crate::region::in_bounds;
use crate::region::overwrite;
use crate::region::read_exact_at;
use crate::region::write_all_at;

verus! {

/// Bytes that a frame takes besides its payload.
pub const FRAME_OVERHEAD: u64 = 8;

/// The checksum that belongs to a frame of this length and payload.
pub open spec fn digest(length: u32, data: Seq<u8>) -> u32 {
    crc32_iscsi(u32_bytes(length) + data)
}

/// The length field of the frame that starts at `offset`.
pub open spec fn length_at(region: Seq<u8>, offset: int) -> u32 {
    u32_value(region.subrange(offset, offset + 4))
}

/// Whether a whole frame can be read at `offset`: its length field lies in
/// the region, holds at least the overhead, and the frame ends in the region.
pub open spec fn readable_at(region: Seq<u8>, offset: int) -> bool {
    &&& in_bounds(region.len(), offset, 4)
    &&& length_at(region, offset) >= FRAME_OVERHEAD
    &&& in_bounds(region.len(), offset, length_at(region, offset) as int)
}

/// The payload of the frame that starts at `offset`.
pub open spec fn data_at(region: Seq<u8>, offset: int) -> Seq<u8> {
    region.subrange(offset + 4, offset + length_at(region, offset) - 4)
}

/// The checksum stored with the frame that starts at `offset`.
pub open spec fn checksum_at(region: Seq<u8>, offset: int) -> u32 {
    let end = offset + length_at(region, offset);
    u32_value(region.subrange(end - 4, end))
}

/// The error with which reading a frame at `offset` fails, where it does.
pub open spec fn fault_at(region: Seq<u8>, offset: int) -> Fault {
    if in_bounds(region.len(), offset, 4) && length_at(region, offset) < FRAME_OVERHEAD {
        Fault::InvalidData
    } else {
        Fault::UnexpectedEof
    }
}

/// The bytes that store a frame: the length, the payload, the checksum.
pub open spec fn frame_bytes(length: u32, data: Seq<u8>, checksum: u32) -> Seq<u8> {
    u32_bytes(length) + data + u32_bytes(checksum)
}

/// The bytes of the sound frame around the payload `entry`.
pub open spec fn entry_bytes(entry: Seq<u8>) -> Seq<u8> {
    let length = (entry.len() + FRAME_OVERHEAD) as u32;
    frame_bytes(length, entry, digest(length, entry))
}

/// The bytes of a frame, written into a region, are read back there as the
/// frame's length, payload and checksum.
pub proof fn lemma_written(region: Seq<u8>, offset: int, length: u32, data: Seq<u8>, checksum: u32)
    requires
        length == data.len() + FRAME_OVERHEAD,
        in_bounds(region.len(), offset, length as int),
    ensures
        frame_bytes(length, data, checksum).len() == length,
        ({
            let after = overwrite(region, offset, frame_bytes(length, data, checksum));
            &&& after.len() == region.len()
            &&& readable_at(after, offset)
            &&& length_at(after, offset) == length
            &&& data_at(after, offset) == data
            &&& checksum_at(after, offset) == checksum
        }),
{
    lemma_u32_bytes(length);
    lemma_u32_bytes(checksum);
    let after = overwrite(region, offset, frame_bytes(length, data, checksum));
    assert(after.subrange(offset, offset + 4) =~= u32_bytes(length));
    assert(after.subrange(offset + 4, offset + length - 4) =~= data);
    assert(after.subrange(offset + length - 4, offset + length) =~= u32_bytes(checksum));
}

/// Whether `decode` accepts every payload.
pub open spec fn total<T, D: Fn(Vec<u8>) -> Result<T, String>>(decode: D) -> bool {
    forall|bytes: Vec<u8>| call_requires(decode, (bytes,))
}

/// Whether `res` is something that `decode` makes of `payload`.
pub open spec fn decodes_to<T, D: Fn(Vec<u8>) -> Result<T, String>>(
    decode: D,
    payload: Seq<u8>,
    res: Result<T, String>,
) -> bool {
    exists|bytes: Vec<u8>| bytes@ == payload && call_ensures(decode, (bytes,), res)
}

/// One record: the length of the whole frame, the payload, and the checksum
/// over the bytes of both.
#[derive(Debug, PartialEq, Eq)]
pub struct Frame {
    length: u32,
    data: Vec<u8>,
    checksum: u32,
}

impl Frame {
    /// Size of the whole frame in bytes.
    pub closed spec fn spec_len(&self) -> u64 {
        self.length as u64
    }

    /// The payload.
    pub closed spec fn spec_data(&self) -> Seq<u8> {
        self.data@
    }

    /// The checksum that the frame carries.
    pub closed spec fn spec_checksum(&self) -> u32 {
        self.checksum
    }

    /// The length counts the payload and the two integers around it.
    pub open spec fn wf(&self) -> bool {
        self.spec_len() == self.spec_data().len() + FRAME_OVERHEAD && self.spec_len() <= u32::MAX
    }

    /// The checksum carried is the one that length and payload give.
    pub open spec fn sound(&self) -> bool {
        self.spec_checksum() == digest(self.spec_len() as u32, self.spec_data())
    }

    /// The bytes that store the frame.
    pub open spec fn bytes(&self) -> Seq<u8> {
        frame_bytes(self.spec_len() as u32, self.spec_data(), self.spec_checksum())
    }

    /// Whether the frame is the one stored in `region` at `offset`.
    pub open spec fn stored_at(&self, region: Seq<u8>, offset: int) -> bool {
        &&& readable_at(region, offset)
        &&& self.spec_len() == length_at(region, offset)
        &&& self.spec_data() == data_at(region, offset)
        &&& self.spec_checksum() == checksum_at(region, offset)
    }

    /// Whether the frame is the sound frame around the payload `entry`.
    pub open spec fn frames(&self, entry: Seq<u8>) -> bool {
        self.wf() && self.sound() && self.spec_data() == entry
    }

    /// Frames an encoded entry: the length is the payload's plus the
    /// overhead, the checksum covers the length's bytes and then the payload.
    pub fn from_entry(data: Vec<u8>) -> (frame: Self)
        requires
            data@.len() + FRAME_OVERHEAD <= u32::MAX,
        ensures
            frame.frames(data@),
            frame.bytes() == entry_bytes(data@),
            frame.spec_len() == data@.len() + FRAME_OVERHEAD,
    {
        let length: u32 = data.len() as u32 + 8;
        let checksum = Self::compute(length, &data);
        Self { length, data, checksum }
    }

    /// The checksum over the bytes of `length` followed by `data`.
    fn compute(length: u32, data: &Vec<u8>) -> (sum: u32)
        ensures
            sum == digest(length, data@),
    {
        let head = to_ne_bytes(length);
        proof {
            lemma_u32_bytes(length);
        }
        let mut covered: Vec<u8> = Vec::new();
        let mut i: usize = 0;
        while i < 4
            invariant
                i <= 4,
                head@.len() == 4,
                covered@ == head@.subrange(0, i as int),
            decreases 4 - i,
        {
            covered.push(head[i]);
            i += 1;
            assert(covered@ =~= head@.subrange(0, i as int));
        }
        assert(covered@ =~= head@);
        covered.extend_from_slice(data.as_slice());
        assert(covered@ =~= u32_bytes(length) + data@);
        checksum(covered.as_slice())
    }

    /// Reads the frame that starts at `offset`: the length first, then the
    /// checksum in the last four bytes that the length claims, then what lies
    /// between. The checksum is not verified here.
    pub fn from_file_at(region: &[u8], offset: u64) -> (res: Result<Self, Fault>)
        ensures
            readable_at(region@, offset as int) ==> (res matches Ok(frame) && frame.wf()
                && frame.stored_at(region@, offset as int)),
            !readable_at(region@, offset as int) ==> res == Err::<Self, Fault>(
                fault_at(region@, offset as int),
            ),
    {
        let head = match read_exact_at(region, offset, 4) {
            Ok(bytes) => bytes,
            Err(fault) => { return Err(fault); },
        };
        let length = from_ne_bytes(word_at(&head, 0));
        assert(head@.subrange(0, 4) =~= region@.subrange(offset as int, offset + 4));
        if length < 8 {
            return Err(Fault::InvalidData);
        }
        let size = region.len();
        if length as usize > size - offset as usize {
            return Err(Fault::UnexpectedEof);
        }
        let tail = match read_exact_at(region, offset + (length as u64 - 4), 4) {
            Ok(bytes) => bytes,
            Err(fault) => { return Err(fault); },
        };
        let checksum = from_ne_bytes(word_at(&tail, 0));
        assert(tail@.subrange(0, 4) =~= region@.subrange(offset + length - 4, offset + length));
        let data = match read_exact_at(region, offset + 4, length as usize - 8) {
            Ok(bytes) => bytes,
            Err(fault) => { return Err(fault); },
        };
        Ok(Self { length, data, checksum })
    }

    #[verifier::when_used_as_spec(spec_len)]
    pub fn len(&self) -> (length: u64)
        ensures
            length == self.spec_len(),
            length <= u32::MAX,
    {
        self.length as u64
    }

    pub fn data(&self) -> (data: &[u8])
        ensures
            data@ == self.spec_data(),
    {
        self.data.as_slice()
    }

    #[verifier::when_used_as_spec(spec_checksum)]
    pub fn checksum(&self) -> (sum: u32)
        ensures
            sum == self.spec_checksum(),
    {
        self.checksum
    }

    /// Hands out the payload.
    pub fn into_data(self) -> (data: Vec<u8>)
        ensures
            data@ == self.spec_data(),
    {
        self.data
    }

    /// Decodes the payload with `decode`, the capability that turns the bytes
    /// of an entry back into the entry.
    pub fn deserialize<T, D: Fn(Vec<u8>) -> Result<T, String>>(self, decode: &D) -> (res: Result<
        T,
        String,
    >)
        requires
            total(*decode),
        ensures
            decodes_to(*decode, self.spec_data(), res),
    {
        let payload = self.data;
        let ghost given = payload;
        let res = decode(payload);
        assert(given@ == self.spec_data() && call_ensures(*decode, (given,), res));
        res
    }

    /// Recomputes the checksum over length and payload. A mismatch comes back
    /// as the pair of the checksum stored and the one computed.
    pub fn verify_checksum(&self) -> (res: Result<(), (u32, u32)>)
        ensures
            self.sound() ==> res is Ok,
            !self.sound() ==> res == Err::<(), (u32, u32)>(
                (self.spec_checksum(), digest(self.spec_len() as u32, self.spec_data())),
            ),
            res matches Err(pair) ==> pair.0 != pair.1,
    {
        let actual = Self::compute(self.length, &self.data);
        if self.checksum == actual {
            Ok(())
        } else {
            Err((self.checksum, actual))
        }
    }

    /// Writes the frame at `offset`: the length, the payload behind it, the
    /// checksum behind the payload. Fails when the frame would pass the end of
    /// the region, and then changes nothing.
    pub fn write_at(&self, region: &mut Vec<u8>, offset: u64) -> (res: Result<(), Fault>)
        requires
            self.wf(),
        ensures
            final(region)@.len() == old(region)@.len(),
            in_bounds(old(region)@.len(), offset as int, self.spec_len() as int) ==> res is Ok
                && final(region)@ == overwrite(old(region)@, offset as int, self.bytes()),
            !in_bounds(old(region)@.len(), offset as int, self.spec_len() as int) ==> res
                == Err::<(), Fault>(Fault::WriteZero) && final(region)@ == old(region)@,
    {
        let size = region.len();
        if offset > size as u64 || self.length as usize > size - offset as usize {
            return Err(Fault::WriteZero);
        }
        let head = to_ne_bytes(self.length);
        let tail = to_ne_bytes(self.checksum);
        proof {
            lemma_u32_bytes(self.length);
            lemma_u32_bytes(self.checksum);
        }
        let ghost before = region@;
        let ghost at = offset as int;
        match write_all_at(region, head.as_slice(), offset) {
            Ok(()) => {},
            Err(fault) => {
                return Err(fault);
            },
        }
        match write_all_at(region, self.data.as_slice(), offset + 4) {
            Ok(()) => {},
            Err(fault) => {
                return Err(fault);
            },
        }
        let res = write_all_at(region, tail.as_slice(), offset + 4 + self.data.len() as u64);
        assert(region@ =~= overwrite(before, at, self.bytes()));
        res
    }

    /// A frame takes as many bytes as its length says.
    pub proof fn lemma_bytes_len(frame: Self)
        requires
            frame.wf(),
        ensures
            frame.bytes().len() == frame.spec_len(),
    {
        lemma_u32_bytes(frame.spec_len() as u32);
        lemma_u32_bytes(frame.spec_checksum());
    }
}

} // verus!

//! One file of the backlog: a header and the frames behind it.
//!
//! A chunk owns the bytes of its file. Every operation that changes a cursor
//! stores the header back into those bytes before it returns, so that the bytes
//! alone say where reading and writing stand.

use vstd::prelude::*;
use vstd::slice::slice_subrange;
use vstd::slice::slice_to_vec;
use crate::error::Fault;
use crate::error::InitError;
use crate::error::ReadError;
use crate::error::WriteError;
use crate::frame::checksum_at;
use crate::frame::data_at;
use crate::frame::decodes_to;
use crate::frame::digest;
use crate::frame::entry_bytes;
use crate::frame::fault_at;
use crate::frame::length_at;
use crate::frame::readable_at;
use crate::frame::total;
use crate::frame::Frame;
use crate::frame::FRAME_OVERHEAD;
use crate::header::cursor_bytes;
use crate::header::stores;
use crate::header::Header;
use crate::header::HEADER_SIZE;
use crate::naming::decimal_value;
use crate::naming::extension;
use crate::naming::digits_start;
use crate::naming::find_last_dot;
use crate::naming::suffix_digits;
use crate::naming::suffix_of;
use crate::naming::to_decimal;
use crate::naming::with_suffix;
use crate::naming::lemma_with_suffix;
use crate::naming::DOT;
use crate::naming::ZERO;
use crate::region::overwrite;

verus! {

/// What a chunk is, as plain values.
pub struct ChunkView {
    /// Path of the chunk's file.
    pub path: Seq<u8>,
    /// How often the chunk was rotated: the number its path carries.
    pub position: u32,
    /// Size of the file in bytes.
    pub size: u32,
    /// The bytes of the file.
    pub region: Seq<u8>,
    /// Offset of the first frame not consumed yet, counted from the first frame.
    pub read_cursor: u64,
    /// Offset just past the last frame written, counted from the first frame.
    pub write_cursor: u64,
}

impl ChunkView {
    /// The file has its size, the cursors lie in order inside the space for
    /// frames, and the file's first bytes store them.
    pub open spec fn wf(self) -> bool {
        &&& self.size >= HEADER_SIZE
        &&& self.region.len() == self.size
        &&& self.read_cursor <= self.write_cursor <= self.size - HEADER_SIZE
        &&& stores(self.region, self.read_cursor, self.write_cursor)
    }

    /// A new chunk of `size` bytes at `path`: zeros behind an empty header.
    pub open spec fn fresh(path: Seq<u8>, size: u32) -> Self {
        ChunkView {
            path,
            position: 0,
            size,
            region: Seq::new(size as nat, |i: int| 0u8),
            read_cursor: 0,
            write_cursor: 0,
        }.with_cursors(0, 0)
    }

    /// Bytes that can still be written before the chunk is full.
    pub open spec fn capacity(self) -> int {
        self.size - HEADER_SIZE - self.write_cursor
    }

    /// The part of the file that was written: the header and the frames.
    pub open spec fn written(self) -> Seq<u8> {
        self.region.subrange(0, HEADER_SIZE + self.write_cursor)
    }

    /// The chunk with other cursors, stored in its file.
    pub open spec fn with_cursors(self, read_cursor: u64, write_cursor: u64) -> Self {
        ChunkView {
            region: overwrite(self.region, 0, cursor_bytes(read_cursor, write_cursor)),
            read_cursor,
            write_cursor,
            ..self
        }
    }

    /// The chunk once it has moved one position on.
    pub open spec fn rotated(self) -> Self {
        ChunkView {
            path: with_suffix(self.path, (self.position + 1) as nat),
            position: (self.position + 1) as u32,
            ..self
        }
    }

    /// Offset in the file of the frame at `cursor`.
    pub open spec fn offset_of(self, cursor: u64) -> int {
        HEADER_SIZE + cursor
    }

    /// Whether a whole frame lies at `cursor`, before the write cursor.
    pub open spec fn has_frame(self, cursor: u64) -> bool {
        readable_at(self.written(), self.offset_of(cursor))
    }

    /// The cursor behind the frame at `cursor`.
    pub open spec fn next_cursor(self, cursor: u64) -> u64 {
        (cursor + length_at(self.written(), self.offset_of(cursor))) as u64
    }

    /// The payload of the frame at `cursor`.
    pub open spec fn payload(self, cursor: u64) -> Seq<u8> {
        data_at(self.written(), self.offset_of(cursor))
    }

    /// Whether the frame at `cursor` carries the checksum of its bytes.
    pub open spec fn intact(self, cursor: u64) -> bool {
        let log = self.written();
        let at = self.offset_of(cursor);
        checksum_at(log, at) == digest(length_at(log, at), data_at(log, at))
    }

    /// Whether `res` is what reading one entry at `cursor` gives: the fault
    /// where no whole frame lies there; the mismatch, with the payload and both
    /// checksums, where the frame is corrupt; else what `decode` makes of the
    /// payload, a failure of it with the cursor attached.
    pub open spec fn read_gives<T, D: Fn(Vec<u8>) -> Result<T, String>>(
        self,
        cursor: u64,
        decode: D,
        res: Result<T, ReadError>,
    ) -> bool {
        let log = self.written();
        let at = self.offset_of(cursor);
        if !self.has_frame(cursor) {
            res matches Err(ReadError::ReadError { path, source }) && path@ == self.path && source
                == fault_at(log, at)
        } else if !self.intact(cursor) {
            res matches Err(ReadError::InvalidChecksum { path, offset, data, expected, actual })
                && path@ == self.path && offset == cursor && data@ == self.payload(cursor)
                && expected == checksum_at(log, at) && actual == digest(
                length_at(log, at),
                data_at(log, at),
            )
        } else {
            match res {
                Ok(entry) => decodes_to(decode, self.payload(cursor), Ok(entry)),
                Err(ReadError::DeserializeError { path, offset, source }) => path@ == self.path
                    && offset == cursor && decodes_to(decode, self.payload(cursor), Err(source)),
                Err(_) => false,
            }
        }
    }

    /// The cursor behind `count` frames from `cursor` on, or the fault at the
    /// first place where no whole frame lies.
    pub open spec fn skipped(self, cursor: u64, count: nat) -> Result<u64, Fault>
        decreases count,
    {
        if count == 0 {
            Ok(cursor)
        } else if !self.has_frame(cursor) {
            Err(fault_at(self.written(), self.offset_of(cursor)))
        } else {
            self.skipped(self.next_cursor(cursor), (count - 1) as nat)
        }
    }

    /// The chunk after the bytes of a frame of this length were written
    /// behind its frames.
    pub open spec fn grown_by(self, bytes: Seq<u8>, length: u64) -> Self {
        ChunkView {
            region: overwrite(self.region, HEADER_SIZE + self.write_cursor, bytes),
            ..self
        }.with_cursors(self.read_cursor, (self.write_cursor + length) as u64)
    }

    /// The chunk after `frame` was appended.
    pub open spec fn appended(self, frame: Frame) -> Self {
        self.grown_by(frame.bytes(), frame.spec_len())
    }

    /// The chunk after the sound frame around `entry` was appended.
    pub open spec fn with_entry(self, entry: Seq<u8>) -> Self {
        self.grown_by(entry_bytes(entry), (entry.len() + FRAME_OVERHEAD) as u64)
    }

    /// Whether the frame around `entry` fits into the room left.
    pub open spec fn fits(self, entry: Seq<u8>) -> bool {
        entry.len() + FRAME_OVERHEAD <= self.capacity()
    }
}

/// One file of the backlog, held as its bytes: the header in the first eight
/// of them, the frames back to back behind it, zeros behind the frames.
pub struct Chunk {
    path: Vec<u8>,
    position: u32,
    size: u32,
    region: Vec<u8>,
    header: Header,
}

impl View for Chunk {
    type V = ChunkView;

    closed spec fn view(&self) -> ChunkView {
        ChunkView {
            path: self.path@,
            position: self.position,
            size: self.size,
            region: self.region@,
            read_cursor: self.header.spec_read_cursor(),
            write_cursor: self.header.spec_write_cursor(),
        }
    }
}

/// Prefixes of a digit string write numbers, and none above the whole.
proof fn lemma_decimal_prefix(s: Seq<u8>, k: int)
    requires
        0 <= k <= s.len(),
    ensures
        decimal_value(s) matches Some(v) ==> (decimal_value(s.subrange(0, k)) matches Some(p)
            && p <= v),
    decreases s.len() - k,
{
    if k == s.len() {
        assert(s.subrange(0, k) =~= s);
    } else {
        assert(s.drop_last().subrange(0, k) =~= s.subrange(0, k));
        lemma_decimal_prefix(s.drop_last(), k);
    }
}

/// The position that the extension of `path` carries. An extension without
/// digits, as that of the canonical chunk, stands for 0; digits that write
/// no `u32`, or that other bytes follow, are refused.
pub fn extract_suffix(path: &[u8]) -> (res: Result<u32, InitError>)
    ensures
        suffix_of(path@) matches Some(n) ==> res == Ok::<u32, InitError>(n),
        suffix_of(path@) is None ==> (res matches Err(InitError::InvalidSuffix { path: p, suffix })
            && p@ == path@ && suffix@ == suffix_digits(path@)),
{
    let len = path.len();
    let first = digits_start(path);
    let ghost digits = path@.subrange(first as int, len as int);
    assert(suffix_digits(path@) == digits);
    if first == len {
        return Ok(0);
    }
    let mut value: u64 = 0;
    let mut next = first;
    let mut valid = true;
    while valid && next < len
        invariant
            first <= next <= len,
            len == path@.len(),
            digits == path@.subrange(first as int, len as int),
            valid ==> decimal_value(digits.subrange(0, next - first)) == Some(value as nat)
                && value <= u32::MAX,
            !valid ==> !(decimal_value(digits) matches Some(v) && v <= u32::MAX),
        decreases len - next + if valid { 1int } else { 0int },
    {
        let b = path[next];
        let ghost head = digits.subrange(0, next - first + 1);
        assert(head.drop_last() =~= digits.subrange(0, next - first));
        assert(head.last() == b);
        proof {
            lemma_decimal_prefix(digits, next - first + 1);
        }
        if ZERO <= b && b <= ZERO + 9 {
            let grown = value * 10 + (b - ZERO) as u64;
            if grown > u32::MAX as u64 {
                valid = false;
            } else {
                value = grown;
                next += 1;
            }
        } else {
            valid = false;
        }
    }
    if valid {
        assert(digits.subrange(0, len - first) =~= digits);
        Ok(value as u32)
    } else {
        Err(
            InitError::InvalidSuffix {
                path: slice_to_vec(path),
                suffix: slice_to_vec(slice_subrange(path, first, len)),
            },
        )
    }
}

impl Chunk {
    /// Path of the chunk's file.
    pub fn path(&self) -> (path: &[u8])
        ensures
            path@ == self@.path,
    {
        self.path.as_slice()
    }

    /// The number that the chunk's path carries.
    pub fn position(&self) -> (position: u32)
        ensures
            position == self@.position,
    {
        self.position
    }

    /// Size of the chunk's file in bytes.
    pub fn size(&self) -> (size: u32)
        ensures
            size == self@.size,
    {
        self.size
    }

    /// The bytes of the chunk's file, as they have to stand on disk.
    pub fn bytes(&self) -> (bytes: &[u8])
        ensures
            bytes@ == self@.region,
    {
        self.region.as_slice()
    }

    /// The cursor pair of the chunk.
    pub fn header(&self) -> (header: Header)
        ensures
            header.spec_read_cursor() == self@.read_cursor,
            header.spec_write_cursor() == self@.write_cursor,
    {
        self.header
    }

    /// Bytes that can still be written before the chunk is full.
    pub fn capacity(&self) -> (room: u64)
        requires
            self@.wf(),
        ensures
            room == self@.capacity(),
    {
        self.size as u64 - HEADER_SIZE - self.header.write_cursor()
    }

    /// A new chunk of `size` bytes at `path`: zeros with an empty header in
    /// front, at position 0. A size that leaves no room for the header is
    /// refused as a header that cannot be written.
    pub fn create(path: &[u8], size: u32) -> (res: Result<Self, InitError>)
        ensures
            size >= HEADER_SIZE ==> (res matches Ok(chunk) && chunk@.wf() && chunk@
                == ChunkView::fresh(path@, size)),
            size < HEADER_SIZE ==> (res matches Err(InitError::HeaderWriteError { path: p, source })
                && p@ == path@ && source == Fault::WriteZero),
    {
        let mut region: Vec<u8> = Vec::new();
        let mut i: u32 = 0;
        while i < size
            invariant
                i <= size,
                region@ == Seq::new(i as nat, |i: int| 0u8),
            decreases size - i,
        {
            region.push(0);
            i += 1;
            assert(region@ =~= Seq::new(i as nat, |i: int| 0u8));
        }
        let header = Header::new();
        match header.write_into(&mut region) {
            Ok(()) => {
                let chunk = Chunk { path: slice_to_vec(path), position: 0, size, region, header };
                proof {
                    Header::lemma_stored(header, Seq::new(size as nat, |i: int| 0u8));
                }
                Ok(chunk)
            },
            Err(source) => Err(InitError::HeaderWriteError { path: slice_to_vec(path), source }),
        }
    }

    /// Opens the chunk that `region`, the bytes of the file at `path`, holds.
    /// The position comes from the path, the cursors from the file's first
    /// bytes. A file that is not `size` bytes long, or whose cursors do not lie
    /// in order inside it, is refused as a header that cannot be read.
    pub fn open(path: &[u8], size: u32, region: Vec<u8>) -> (res: Result<Self, InitError>)
        ensures
            Self::opens(path@, size, region@) ==> (res matches Ok(chunk) && chunk@.wf() && chunk@
                == Self::opened(path@, size, region@)),
            !Self::opens(path@, size, region@) ==> (res matches Err(e) && Self::refused_with(
                path@,
                region@,
                e,
            )),
    {
        let position = match extract_suffix(path) {
            Ok(position) => position,
            Err(e) => { return Err(e); },
        };
        let header = match Header::read_from(region.as_slice()) {
            Ok(header) => header,
            Err(source) => {
                return Err(InitError::HeaderReadError { path: slice_to_vec(path), source });
            },
        };
        if region.len() != size as usize || header.read_cursor() > header.write_cursor()
            || header.write_cursor() > size as u64 - HEADER_SIZE {
            return Err(
                InitError::HeaderReadError { path: slice_to_vec(path), source: Fault::InvalidData },
            );
        }
        Ok(Chunk { path: slice_to_vec(path), position, size, region, header })
    }

    /// Whether a file with these bytes opens as a chunk of this size.
    pub open spec fn opens(path: Seq<u8>, size: u32, region: Seq<u8>) -> bool {
        suffix_of(path) is Some && Self::opened(path, size, region).wf()
    }

    /// The chunk that a file with these bytes is.
    pub open spec fn opened(path: Seq<u8>, size: u32, region: Seq<u8>) -> ChunkView {
        ChunkView {
            path,
            position: suffix_of(path).unwrap(),
            size,
            region,
            read_cursor: crate::native::u32_value(region.subrange(0, 4)) as u64,
            write_cursor: crate::native::u32_value(region.subrange(4, 8)) as u64,
        }
    }

    /// Whether `e` is the error with which a file that does not open is
    /// refused: the digits of its path where they name no position; else a
    /// short read where it is too short for a header, and invalid data where
    /// its header or its length contradict the size.
    pub open spec fn refused_with(path: Seq<u8>, region: Seq<u8>, e: InitError) -> bool {
        if suffix_of(path) is None {
            e matches InitError::InvalidSuffix { path: p, suffix } && p@ == path && suffix@
                == suffix_digits(path)
        } else {
            e matches InitError::HeaderReadError { path: p, source } && p@ == path && source == (
            if region.len() < HEADER_SIZE {
                Fault::UnexpectedEof
            } else {
                Fault::InvalidData
            })
        }
    }

    /// The error for a chunk file that could not be created: one that exists
    /// already, or one that the caller may not create.
    pub fn create_failed(path: &[u8], fault: Fault) -> (e: InitError)
        requires
            fault == Fault::AlreadyExists || fault == Fault::PermissionDenied,
        ensures
            fault == Fault::AlreadyExists ==> (e matches InitError::AlreadyExists { path: p, source }
                && p@ == path@ && source == fault),
            fault == Fault::PermissionDenied ==> (e matches InitError::InsufficientRights {
                path: p,
                source,
            } && p@ == path@ && source == fault),
    {
        match fault {
            Fault::AlreadyExists => InitError::AlreadyExists {
                path: slice_to_vec(path),
                source: fault,
            },
            _ => InitError::InsufficientRights { path: slice_to_vec(path), source: fault },
        }
    }

    /// The error for a chunk file that could not be opened: one that does not
    /// exist, or one that the caller may not open.
    pub fn open_failed(path: &[u8], fault: Fault) -> (e: InitError)
        requires
            fault == Fault::NotFound || fault == Fault::PermissionDenied,
        ensures
            fault == Fault::NotFound ==> (e matches InitError::DoesNotExist { path: p, source }
                && p@ == path@ && source == fault),
            fault == Fault::PermissionDenied ==> (e matches InitError::InsufficientRights {
                path: p,
                source,
            } && p@ == path@ && source == fault),
    {
        match fault {
            Fault::NotFound => InitError::DoesNotExist { path: slice_to_vec(path), source: fault },
            _ => InitError::InsufficientRights { path: slice_to_vec(path), source: fault },
        }
    }

    /// Frames an encoded entry and appends the frame.
    pub fn write_entry(&mut self, entry: Vec<u8>) -> (res: Result<(), WriteError>)
        requires
            old(self)@.wf(),
            entry@.len() + FRAME_OVERHEAD <= u32::MAX,
        ensures
            final(self)@.wf(),
            old(self)@.fits(entry@) ==> res is Ok && final(self)@ == old(self)@.with_entry(entry@),
            !old(self)@.fits(entry@) ==> final(self)@ == old(self)@ && (res matches Err(
                WriteError::ChunkFull { path, size, max_size, frame },
            ) && path@ == old(self)@.path && size == entry@.len() + FRAME_OVERHEAD && max_size
                == old(self)@.size && frame.frames(entry@)),
    {
        let frame = Frame::from_entry(entry);
        proof {
            Frame::lemma_bytes_len(frame);
        }
        self.write_frame(frame)
    }

    /// Appends `frame` where the chunk has room for it: the frame goes behind
    /// the last one, the write cursor moves past it and the header is stored.
    /// Where the room does not suffice, nothing changes and the frame comes
    /// back inside the error.
    pub fn write_frame(&mut self, frame: Frame) -> (res: Result<(), WriteError>)
        requires
            old(self)@.wf(),
            frame.wf(),
        ensures
            final(self)@.wf(),
            frame.spec_len() <= old(self)@.capacity() ==> res is Ok && final(self)@ == old(
                self,
            )@.appended(frame),
            frame.spec_len() > old(self)@.capacity() ==> final(self)@ == old(self)@ && (
            res matches Err(WriteError::ChunkFull { path, size, max_size, frame: back }) && path@
                == old(self)@.path && size == frame.spec_len() && max_size == old(self)@.size
                && back == frame),
    {
        if self.capacity() >= frame.len() {
            let at = HEADER_SIZE + self.header.write_cursor();
            match frame.write_at(&mut self.region, at) {
                Ok(()) => {},
                Err(source) => {
                    return Err(
                        WriteError::IoError { path: slice_to_vec(self.path.as_slice()), source },
                    );
                },
            }
            self.header.advance_write_cursor(frame.len());
            let ghost middle = self.region@;
            match self.header.write_into(&mut self.region) {
                Ok(()) => {},
                Err(source) => {
                    return Err(
                        WriteError::IoError { path: slice_to_vec(self.path.as_slice()), source },
                    );
                },
            }
            proof {
                Header::lemma_stored(self.header, middle);
                Frame::lemma_bytes_len(frame);
                assert(self@.region == old(self)@.appended(frame).region);
                assert(self@ == old(self)@.appended(frame));
            }
            Ok(())
        } else {
            Err(
                WriteError::ChunkFull {
                    path: slice_to_vec(self.path.as_slice()),
                    size: frame.len() as usize,
                    max_size: self.size as usize,
                    frame,
                },
            )
        }
    }

    /// The frame that lies at `cursor` in the written part of the file.
    fn frame_at(&self, cursor: u64) -> (res: Result<Frame, Fault>)
        requires
            self@.wf(),
            cursor <= self@.write_cursor,
        ensures
            self@.has_frame(cursor) ==> (res matches Ok(frame) && frame.wf() && frame.stored_at(
                self@.written(),
                self@.offset_of(cursor),
            ) && self@.next_cursor(cursor) <= self@.write_cursor),
            !self@.has_frame(cursor) ==> res == Err::<Frame, Fault>(
                fault_at(self@.written(), self@.offset_of(cursor)),
            ),
    {
        let end = (HEADER_SIZE + self.header.write_cursor()) as usize;
        let log = slice_subrange(self.region.as_slice(), 0, end);
        Frame::from_file_at(log, HEADER_SIZE + cursor)
    }

    /// Reads the entry at `cursor`, and says where the next one starts. The
    /// frame there is read, its checksum verified and its payload decoded;
    /// nothing is changed.
    pub fn read_at<T, D: Fn(Vec<u8>) -> Result<T, String>>(&self, cursor: u64, decode: &D) -> (res:
        Result<(T, u64), ReadError>)
        requires
            self@.wf(),
            cursor <= self@.write_cursor,
            total(*decode),
        ensures
            match res {
                Ok((entry, next)) => self@.read_gives(cursor, *decode, Ok(entry)) && next
                    == self@.next_cursor(cursor) && next <= self@.write_cursor,
                Err(e) => self@.read_gives::<T, D>(cursor, *decode, Err(e)),
            },
    {
        let frame = match self.frame_at(cursor) {
            Ok(frame) => frame,
            Err(source) => {
                return Err(
                    ReadError::ReadError { path: slice_to_vec(self.path.as_slice()), source },
                );
            },
        };
        let next = cursor + frame.len();
        match frame.verify_checksum() {
            Ok(()) => {},
            Err((expected, actual)) => {
                return Err(
                    ReadError::InvalidChecksum {
                        path: slice_to_vec(self.path.as_slice()),
                        offset: cursor,
                        data: frame.into_data(),
                        expected,
                        actual,
                    },
                );
            },
        }
        match frame.deserialize(decode) {
            Ok(entry) => Ok((entry, next)),
            Err(source) => Err(
                ReadError::DeserializeError {
                    path: slice_to_vec(self.path.as_slice()),
                    offset: cursor,
                    source,
                },
            ),
        }
    }

    /// Reads the entry at the read cursor without consuming it.
    pub fn read<T, D: Fn(Vec<u8>) -> Result<T, String>>(&self, decode: &D) -> (res: Result<
        T,
        ReadError,
    >)
        requires
            self@.wf(),
            total(*decode),
        ensures
            self@.read_gives(self@.read_cursor, *decode, res),
    {
        match self.read_at(self.header.read_cursor(), decode) {
            Ok((entry, _)) => Ok(entry),
            Err(e) => Err(e),
        }
    }

    /// Moves the read cursor past `count` frames and stores the header. The
    /// frames are read for their lengths alone. Where fewer than `count` whole
    /// frames lie before the write cursor, nothing changes.
    pub fn advance(&mut self, count: usize) -> (res: Result<(), ReadError>)
        requires
            old(self)@.wf(),
        ensures
            final(self)@.wf(),
            match old(self)@.skipped(old(self)@.read_cursor, count as nat) {
                Ok(cursor) => res is Ok && final(self)@ == old(self)@.with_cursors(
                    cursor,
                    old(self)@.write_cursor,
                ),
                Err(fault) => final(self)@ == old(self)@ && (res matches Err(
                    ReadError::AdvanceError { path, source },
                ) && path@ == old(self)@.path && source == fault),
            },
    {
        let mut cursor = self.header.read_cursor();
        let mut done: usize = 0;
        while done < count
            invariant
                done <= count,
                self@ == old(self)@,
                self@.wf(),
                self@.read_cursor <= cursor <= self@.write_cursor,
                self@.skipped(self@.read_cursor, count as nat) == self@.skipped(
                    cursor,
                    (count - done) as nat,
                ),
            decreases count - done,
        {
            match self.frame_at(cursor) {
                Ok(frame) => {
                    cursor = cursor + frame.len();
                },
                Err(source) => {
                    return Err(
                        ReadError::AdvanceError { path: slice_to_vec(self.path.as_slice()), source },
                    );
                },
            }
            done += 1;
        }
        let ghost before = self.region@;
        self.header.advance_read_cursor(cursor - self.header.read_cursor());
        match self.header.write_into(&mut self.region) {
            Ok(()) => {},
            Err(source) => {
                return Err(
                    ReadError::AdvanceError { path: slice_to_vec(self.path.as_slice()), source },
                );
            },
        }
        proof {
            Header::lemma_stored(self.header, before);
        }
        Ok(())
    }

    /// Moves the chunk one position on: its path gains the next number as
    /// suffix, or has its number replaced by the next. The file itself has
    /// to be renamed from the path that comes back to the new one.
    pub fn rotate(&mut self) -> (previous: Vec<u8>)
        requires
            old(self)@.position < u32::MAX,
        ensures
            previous@ == old(self)@.path,
            final(self)@ == old(self)@.rotated(),
            suffix_of(final(self)@.path) == Some(final(self)@.position),
            old(self)@.wf() ==> final(self)@.wf(),
    {
        let first = digits_start(self.path.as_slice());
        let len = self.path.len();
        let keep = if first == len {
            len
        } else {
            match find_last_dot(self.path.as_slice()) {
                Some(at) => at + 1,
                None => len,
            }
        };
        let mut moved = slice_to_vec(slice_subrange(self.path.as_slice(), 0, keep));
        if first == len {
            moved.push(DOT);
        }
        let digits = to_decimal(self.position + 1);
        moved.extend_from_slice(digits.as_slice());
        proof {
            lemma_with_suffix(self.path@, (self.position + 1) as nat);
            assert(self.path@.subrange(0, len as int) =~= self.path@);
            assert(moved@ =~= with_suffix(self.path@, (self.position + 1) as nat));
        }
        let mut previous = moved;
        core::mem::swap(&mut self.path, &mut previous);
        self.position = self.position + 1;
        previous
    }
}

} // verus!

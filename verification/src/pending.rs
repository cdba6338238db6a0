//! The entries that a chunk holds between two cursors, and how the chunk's
//! operations change them.

use vstd::prelude::*;
use crate::chunk::Chunk;
use crate::chunk::ChunkView;
use crate::frame::checksum_at;
use crate::error::Fault;
use crate::error::ReadError;
use crate::frame::data_at;
use crate::frame::fault_at;
use crate::frame::digest;
use crate::frame::frame_bytes;
use crate::frame::lemma_written;
use crate::frame::FRAME_OVERHEAD;
use crate::frame::length_at;
use crate::frame::readable_at;
use crate::frame::Frame;
use crate::header::cursor_bytes;
use crate::header::Header;
use crate::header::HEADER_SIZE;
use crate::native::lemma_u32_bytes;
use crate::naming::suffix_of;
use crate::region::overwrite;

verus! {

/// Two byte strings that agree on the bytes of a frame hold the same frame there.
pub proof fn lemma_same_frame(a: Seq<u8>, b: Seq<u8>, at: int)
    requires
        readable_at(a, at),
        at + length_at(a, at) <= b.len(),
        forall|i: int| at <= i < at + length_at(a, at) ==> a[i] == b[i],
    ensures
        readable_at(b, at),
        length_at(b, at) == length_at(a, at),
        data_at(b, at) == data_at(a, at),
        checksum_at(b, at) == checksum_at(a, at),
{
    let length = length_at(a, at);
    assert(b.subrange(at, at + 4) =~= a.subrange(at, at + 4));
    assert(b.subrange(at + 4, at + length - 4) =~= a.subrange(at + 4, at + length - 4));
    assert(b.subrange(at + length - 4, at + length) =~= a.subrange(
        at + length - 4,
        at + length,
    ));
}

impl ChunkView {
    /// Whether intact frames lie back to back from `from` up to `to` and carry
    /// `payloads`, one each, in this order.
    pub open spec fn spans(self, from: u64, to: u64, payloads: Seq<Seq<u8>>) -> bool
        decreases payloads.len(),
    {
        if payloads.len() == 0 {
            from == to
        } else {
            &&& self.has_frame(from)
            &&& self.intact(from)
            &&& self.payload(from) == payloads[0]
            &&& self.next_cursor(from) <= to
            &&& self.spans(self.next_cursor(from), to, payloads.drop_first())
        }
    }

    /// Whether `res` is what reading `count` entries in a row from `cursor` on
    /// gives: the entries, each decoded from its frame, where every read
    /// succeeds; else the error of the first read that fails, behind reads
    /// that gave entries.
    pub open spec fn reads_give<T, D: Fn(Vec<u8>) -> Result<T, String>>(
        self,
        cursor: u64,
        count: nat,
        decode: D,
        res: Result<Seq<T>, ReadError>,
    ) -> bool {
        match res {
            Ok(entries) => entries.len() == count && forall|i: int|
                0 <= i < count ==> (#[trigger] self.skipped(cursor, i as nat) matches Ok(at)
                    && self.read_gives(at, decode, Ok(entries[i]))),
            Err(e) => exists|k: int|
                0 <= k < count && (#[trigger] self.skipped(cursor, k as nat) matches Ok(at)
                    && self.read_gives::<T, D>(at, decode, Err(e))) && forall|i: int|
                    0 <= i < k ==> (#[trigger] self.skipped(cursor, i as nat) matches Ok(at)
                        && self.accepted::<T, D>(at, decode)),
        }
    }

    /// Whether a read at `cursor` has given an entry: an intact frame lies
    /// there and `decode` has made an entry of its payload.
    pub open spec fn accepted<T, D: Fn(Vec<u8>) -> Result<T, String>>(
        self,
        cursor: u64,
        decode: D,
    ) -> bool {
        exists|entry: T| self.read_gives(cursor, decode, Ok::<T, ReadError>(entry))
    }

    /// Skipping one frame more ends behind the frame at which skipping ended,
    /// or with the fault there.
    pub proof fn lemma_skipped_more(self, cursor: u64, count: nat)
        requires
            self.skipped(cursor, count) is Ok,
        ensures
            ({
                let at = self.skipped(cursor, count).unwrap();
                self.skipped(cursor, count + 1) == if self.has_frame(at) {
                    Ok::<u64, Fault>(self.next_cursor(at))
                } else {
                    Err::<u64, Fault>(fault_at(self.written(), self.offset_of(at)))
                }
            }),
        decreases count,
    {
        let next = self.next_cursor(cursor);
        if count == 0 {
            assert(self.skipped(next, 0) == Ok::<u64, Fault>(next));
            assert(self.skipped(cursor, 1) == if self.has_frame(cursor) {
                self.skipped(next, 0)
            } else {
                Err::<u64, Fault>(fault_at(self.written(), self.offset_of(cursor)))
            });
        } else {
            assert(self.has_frame(cursor));
            assert(self.skipped(cursor, count) == self.skipped(next, (count - 1) as nat));
            self.lemma_skipped_more(next, (count - 1) as nat);
            assert(self.skipped(cursor, count + 1) == self.skipped(next, count));
        }
    }

    /// Whether the entries not consumed yet are `payloads`, oldest first.
    pub open spec fn holds(self, payloads: Seq<Seq<u8>>) -> bool {
        self.spans(self.read_cursor, self.write_cursor, payloads)
    }

    /// Whether the frame space of `other` starts with that of `self`.
    pub open spec fn extended_by(self, other: Self) -> bool {
        &&& self.write_cursor <= other.write_cursor
        &&& HEADER_SIZE + self.write_cursor <= self.region.len()
        &&& HEADER_SIZE + other.write_cursor <= other.region.len()
        &&& forall|i: int|
            HEADER_SIZE <= i < HEADER_SIZE + self.write_cursor ==> self.region[i]
                == other.region[i]
    }

    /// A frame of one chunk is a frame of every chunk that extends it.
    pub proof fn lemma_frame_kept(self, other: Self, cursor: u64)
        requires
            self.extended_by(other),
            self.has_frame(cursor),
        ensures
            other.has_frame(cursor),
            other.next_cursor(cursor) == self.next_cursor(cursor),
            other.payload(cursor) == self.payload(cursor),
            other.intact(cursor) == self.intact(cursor),
    {
        lemma_same_frame(self.written(), other.written(), self.offset_of(cursor));
    }

    /// The frames between two cursors are there in every chunk that extends
    /// this one.
    pub proof fn lemma_spans_kept(self, other: Self, from: u64, to: u64, payloads: Seq<Seq<u8>>)
        requires
            self.extended_by(other),
            self.spans(from, to, payloads),
        ensures
            other.spans(from, to, payloads),
        decreases payloads.len(),
    {
        if payloads.len() > 0 {
            self.lemma_frame_kept(other, from);
            self.lemma_spans_kept(other, self.next_cursor(from), to, payloads.drop_first());
        }
    }

    /// Frames up to a cursor and frames from it on are the frames of both.
    pub proof fn lemma_spans_joined(
        self,
        from: u64,
        mid: u64,
        to: u64,
        first: Seq<Seq<u8>>,
        second: Seq<Seq<u8>>,
    )
        requires
            self.spans(from, mid, first),
            self.spans(mid, to, second),
            mid <= to,
        ensures
            self.spans(from, to, first + second),
        decreases first.len(),
    {
        if first.len() == 0 {
            assert(first + second =~= second);
        } else {
            self.lemma_spans_joined(self.next_cursor(from), mid, to, first.drop_first(), second);
            assert((first + second).drop_first() =~= first.drop_first() + second);
        }
    }

    /// Cursors only move forward along frames.
    pub proof fn lemma_spans_ordered(self, from: u64, to: u64, payloads: Seq<Seq<u8>>)
        requires
            self.wf(),
            self.spans(from, to, payloads),
        ensures
            from <= to,
            payloads.len() > 0 ==> from < to,
        decreases payloads.len(),
    {
        if payloads.len() > 0 {
            self.lemma_spans_ordered(self.next_cursor(from), to, payloads.drop_first());
        }
    }

    /// A fresh chunk is sound where it has room for its header, and holds
    /// nothing.
    pub proof fn lemma_fresh(path: Seq<u8>, size: u32)
        requires
            size >= HEADER_SIZE,
        ensures
            Self::fresh(path, size).wf(),
            Self::fresh(path, size).holds(Seq::empty()),
    {
        crate::header::Header::lemma_cursors_stored(0, 0, Seq::new(size as nat, |i: int| 0u8));
    }

    /// Storing other cursors with the same write cursor keeps every frame.
    pub proof fn lemma_cursors_keep(self, read_cursor: u64)
        requires
            self.wf(),
            read_cursor <= self.write_cursor,
        ensures
            self.extended_by(self.with_cursors(read_cursor, self.write_cursor)),
            self.with_cursors(read_cursor, self.write_cursor).wf(),
    {
        lemma_u32_bytes(read_cursor as u32);
        lemma_u32_bytes(self.write_cursor as u32);
        let bytes = cursor_bytes(read_cursor, self.write_cursor);
        let after = overwrite(self.region, 0, bytes);
        assert(after.subrange(0, 4) =~= crate::native::u32_bytes(read_cursor as u32));
        assert(after.subrange(4, 8) =~= crate::native::u32_bytes(self.write_cursor as u32));
    }

    /// Writing the bytes of a frame behind the frames of a chunk keeps every
    /// frame written before, and puts the new one behind them.
    pub proof fn lemma_grown(self, length: u32, data: Seq<u8>, checksum: u32)
        requires
            self.wf(),
            length == data.len() + FRAME_OVERHEAD,
            length <= self.capacity(),
        ensures
            ({
                let after = self.grown_by(frame_bytes(length, data, checksum), length as u64);
                &&& after.wf()
                &&& self.extended_by(after)
                &&& after.write_cursor == self.write_cursor + length
                &&& after.has_frame(self.write_cursor)
                &&& after.next_cursor(self.write_cursor) == after.write_cursor
                &&& after.payload(self.write_cursor) == data
                &&& after.intact(self.write_cursor) == (checksum == digest(length, data))
            }),
    {
        let at = HEADER_SIZE + self.write_cursor;
        let grown = (self.write_cursor + length) as u64;
        let bytes = frame_bytes(length, data, checksum);
        lemma_written(self.region, at, length, data, checksum);
        let middle = overwrite(self.region, at, bytes);
        lemma_u32_bytes(self.read_cursor as u32);
        lemma_u32_bytes(grown as u32);
        let head = cursor_bytes(self.read_cursor, grown);
        let after = overwrite(middle, 0, head);
        assert(after.subrange(0, 4) =~= crate::native::u32_bytes(self.read_cursor as u32));
        assert(after.subrange(4, 8) =~= crate::native::u32_bytes(grown as u32));
        assert(after == self.grown_by(bytes, length as u64).region);
        let log = self.grown_by(bytes, length as u64).written();
        assert(log.len() == at + length);
        assert forall|i: int| at <= i < at + length_at(middle, at) implies middle[i] == log[i] by {}
        lemma_same_frame(middle, log, at);
    }

    /// Writing the bytes of an intact frame behind the frames of a chunk that
    /// holds `payloads` makes it hold them with the frame's payload behind.
    pub proof fn lemma_grown_holds(
        self,
        length: u32,
        data: Seq<u8>,
        checksum: u32,
        payloads: Seq<Seq<u8>>,
    )
        requires
            self.wf(),
            length == data.len() + FRAME_OVERHEAD,
            length <= self.capacity(),
            checksum == digest(length, data),
            self.holds(payloads),
        ensures
            self.grown_by(frame_bytes(length, data, checksum), length as u64).holds(
                payloads.push(data),
            ),
    {
        let after = self.grown_by(frame_bytes(length, data, checksum), length as u64);
        self.lemma_grown(length, data, checksum);
        self.lemma_spans_kept(after, self.read_cursor, self.write_cursor, payloads);
        let last = seq![data];
        assert(last.drop_first() =~= Seq::<Seq<u8>>::empty());
        assert(after.spans(after.write_cursor, after.write_cursor, last.drop_first()));
        assert(last[0] == data);
        assert(after.spans(self.write_cursor, after.write_cursor, last));
        after.lemma_spans_joined(
            self.read_cursor,
            self.write_cursor,
            after.write_cursor,
            payloads,
            last,
        );
        assert(payloads + last =~= payloads.push(data));
    }

    /// Appending a sound frame to a chunk that holds `payloads` makes it hold
    /// them with the frame's payload behind.
    pub proof fn lemma_appended_holds(self, frame: Frame, payloads: Seq<Seq<u8>>)
        requires
            self.wf(),
            frame.wf(),
            frame.sound(),
            frame.spec_len() <= self.capacity(),
            self.holds(payloads),
        ensures
            self.appended(frame).wf(),
            self.appended(frame).holds(payloads.push(frame.spec_data())),
    {
        self.lemma_grown(frame.spec_len() as u32, frame.spec_data(), frame.spec_checksum());
        self.lemma_grown_holds(
            frame.spec_len() as u32,
            frame.spec_data(),
            frame.spec_checksum(),
            payloads,
        );
    }

    /// Appending an entry to a chunk that holds `payloads` makes it hold them
    /// with the entry behind.
    pub proof fn lemma_entry_held(self, entry: Seq<u8>, payloads: Seq<Seq<u8>>)
        requires
            self.wf(),
            self.fits(entry),
            self.holds(payloads),
        ensures
            self.with_entry(entry).wf(),
            self.with_entry(entry).holds(payloads.push(entry)),
    {
        let length = (entry.len() + FRAME_OVERHEAD) as u32;
        self.lemma_grown(length, entry, digest(length, entry));
        self.lemma_grown_holds(length, entry, digest(length, entry), payloads);
    }

    /// Skipping `count` of the frames between two cursors ends at a cursor
    /// from which the remaining frames lie.
    pub proof fn lemma_skipped(self, from: u64, to: u64, payloads: Seq<Seq<u8>>, count: nat)
        requires
            self.wf(),
            self.spans(from, to, payloads),
            count <= payloads.len(),
        ensures
            self.skipped(from, count) matches Ok(cursor) && from <= cursor <= to && self.spans(
                cursor,
                to,
                payloads.skip(count as int),
            ),
        decreases count,
    {
        if count == 0 {
            assert(payloads.skip(0) =~= payloads);
            self.lemma_spans_ordered(from, to, payloads);
        } else {
            self.lemma_skipped(
                self.next_cursor(from),
                to,
                payloads.drop_first(),
                (count - 1) as nat,
            );
            assert(payloads.drop_first().skip(count - 1) =~= payloads.skip(count as int));
        }
    }

    /// Consuming `count` of the entries held leaves the others, in order.
    pub proof fn lemma_consumed_holds(self, payloads: Seq<Seq<u8>>, count: nat)
        requires
            self.wf(),
            self.holds(payloads),
            count <= payloads.len(),
        ensures
            self.skipped(self.read_cursor, count) matches Ok(cursor) && self.with_cursors(
                cursor,
                self.write_cursor,
            ).holds(payloads.skip(count as int)),
    {
        self.lemma_skipped(self.read_cursor, self.write_cursor, payloads, count);
        let cursor = self.skipped(self.read_cursor, count).unwrap();
        self.lemma_cursors_keep(cursor);
        self.lemma_spans_kept(
            self.with_cursors(cursor, self.write_cursor),
            cursor,
            self.write_cursor,
            payloads.skip(count as int),
        );
    }

    /// The bytes of a chunk say all of it but its path: a file with these
    /// bytes, under a path that names the chunk's position, opens as this
    /// chunk.
    pub proof fn lemma_reopens(self)
        requires
            self.wf(),
            suffix_of(self.path) == Some(self.position),
        ensures
            Chunk::opens(self.path, self.size, self.region),
            Chunk::opened(self.path, self.size, self.region) == self,
    {
    }
}

} // verus!

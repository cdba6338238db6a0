//! What holds of a backlog whatever is written to it and read from it.

use vstd::prelude::*;
use crate::backlog::arranged;
use crate::backlog::assembled;
use crate::backlog::ascending;
use crate::backlog::lemma_slot;
use crate::backlog::oldest_pending;
use crate::backlog::opened_all;
use crate::backlog::opens;
use crate::backlog::placed;
use crate::backlog::slot;
use crate::backlog::BacklogView;
use crate::backlog::Found;
use crate::frame::decodes_to;
use crate::chunk::Chunk;
use crate::chunk::ChunkView;
use crate::error::ReadError;
use crate::frame::FRAME_OVERHEAD;
use crate::naming::lemma_with_suffix;
use crate::naming::suffix_of;

verus! {

/// Whether `decode` makes one thing of one payload.
pub open spec fn functional<T, D: Fn(Vec<u8>) -> Result<T, String>>(decode: D) -> bool {
    forall|a: Vec<u8>, b: Vec<u8>, x: Result<T, String>, y: Result<T, String>|
        a@ == b@ && #[trigger] call_ensures(decode, (a,), x) && #[trigger] call_ensures(
            decode,
            (b,),
            y,
        ) ==> x == y
}

impl ChunkView {
    /// Whether the frames around `entries` fit into the chunk one behind the
    /// other.
    pub open spec fn takes(self, entries: Seq<Seq<u8>>) -> bool
        decreases entries.len(),
    {
        entries.len() == 0 || (self.fits(entries[0]) && self.with_entry(entries[0]).takes(
            entries.drop_first(),
        ))
    }

    /// The chunk after the frames around `entries` were appended.
    pub open spec fn with_entries(self, entries: Seq<Seq<u8>>) -> Self
        decreases entries.len(),
    {
        if entries.len() == 0 {
            self
        } else {
            self.with_entry(entries[0]).with_entries(entries.drop_first())
        }
    }

    /// Entries appended to a chunk are held behind the ones it held, in the
    /// order of their appending.
    pub proof fn lemma_entries_held(self, held: Seq<Seq<u8>>, entries: Seq<Seq<u8>>)
        requires
            self.wf(),
            self.holds(held),
            self.takes(entries),
        ensures
            self.with_entries(entries).wf(),
            self.with_entries(entries).holds(held + entries),
            self.with_entries(entries).path == self.path,
            self.with_entries(entries).position == self.position,
            self.with_entries(entries).size == self.size,
            self.with_entries(entries).read_cursor == self.read_cursor,
        decreases entries.len(),
    {
        if entries.len() == 0 {
            assert(held + entries =~= held);
        } else {
            self.lemma_entry_held(entries[0], held);
            self.with_entry(entries[0]).lemma_entries_held(
                held.push(entries[0]),
                entries.drop_first(),
            );
            assert(held.push(entries[0]) + entries.drop_first() =~= held + entries);
        }
    }

    /// The cursor behind the first `count` of the entries held lies at an
    /// intact frame that carries the next one.
    pub proof fn lemma_held_at(self, held: Seq<Seq<u8>>, count: nat)
        requires
            self.wf(),
            self.holds(held),
            count < held.len(),
        ensures
            self.skipped(self.read_cursor, count) matches Ok(at) && self.has_frame(at)
                && self.intact(at) && self.payload(at) == held[count as int],
    {
        self.lemma_skipped(self.read_cursor, self.write_cursor, held, count);
    }

    /// Reading from a chunk gives the entries it holds, oldest first: each
    /// entry read is decoded from the entry held at its place, and a read can
    /// only fail where `decode` refuses the entry held there.
    pub proof fn lemma_reads_held<T, D: Fn(Vec<u8>) -> Result<T, String>>(
        self,
        held: Seq<Seq<u8>>,
        count: nat,
        decode: D,
        res: Result<Seq<T>, ReadError>,
    )
        requires
            self.wf(),
            self.holds(held),
            count <= held.len(),
            self.reads_give(self.read_cursor, count, decode, res),
        ensures
            match res {
                Ok(entries) => entries.len() == count && forall|i: int|
                    0 <= i < count ==> decodes_to(decode, held[i], Ok(#[trigger] entries[i])),
                Err(e) => exists|k: int|
                    0 <= k < count && (e matches ReadError::DeserializeError {
                        path,
                        offset,
                        source,
                    } && path@ == self.path && decodes_to(
                        decode,
                        #[trigger] held[k],
                        Err::<T, String>(source),
                    )),
            },
    {
        match res {
            Ok(entries) => {
                assert forall|i: int| 0 <= i < count implies decodes_to(
                    decode,
                    held[i],
                    Ok(#[trigger] entries[i]),
                ) by {
                    self.lemma_held_at(held, i as nat);
                    let at = self.skipped(self.read_cursor, i as nat).unwrap();
                    assert(self.read_gives(at, decode, Ok(entries[i])));
                }
            },
            Err(e) => {
                let k = choose|k: int|
                    0 <= k < count && (#[trigger] self.skipped(self.read_cursor, k as nat) matches Ok(
                        at,
                    ) && self.read_gives::<T, D>(at, decode, Err(e)));
                self.lemma_held_at(held, k as nat);
                let at = self.skipped(self.read_cursor, k as nat).unwrap();
                assert(self.read_gives::<T, D>(at, decode, Err(e)));
                assert(e matches ReadError::DeserializeError { path, offset, source } && path@
                    == self.path && decodes_to(decode, held[k], Err::<T, String>(source)));
            },
        }
    }

    /// The first read from a chunk that holds entries gives the oldest.
    pub proof fn lemma_read_held<T, D: Fn(Vec<u8>) -> Result<T, String>>(
        self,
        held: Seq<Seq<u8>>,
        decode: D,
        res: Result<T, ReadError>,
    )
        requires
            self.wf(),
            self.holds(held),
            held.len() > 0,
            self.read_gives(self.read_cursor, decode, res),
        ensures
            match res {
                Ok(entry) => decodes_to(decode, held[0], Ok(entry)),
                Err(e) => e matches ReadError::DeserializeError { path, offset, source } && path@
                    == self.path && offset == self.read_cursor && decodes_to(
                    decode,
                    held[0],
                    Err::<T, String>(source),
                ),
            },
    {
        self.lemma_held_at(held, 0);
    }

    /// Two reads at one cursor, with nothing written between them, give the
    /// same entry, where `decode` makes one thing of one payload.
    pub proof fn lemma_read_again<T, D: Fn(Vec<u8>) -> Result<T, String>>(
        self,
        cursor: u64,
        decode: D,
        first: Result<T, ReadError>,
        second: Result<T, ReadError>,
    )
        requires
            functional(decode),
            self.read_gives(cursor, decode, first),
            self.read_gives(cursor, decode, second),
        ensures
            first is Ok <==> second is Ok,
            first matches Ok(a) ==> second == Ok::<T, ReadError>(a),
    {
        if self.has_frame(cursor) && self.intact(cursor) {
            let payload = self.payload(cursor);
            let x: Result<T, String> = match first {
                Ok(a) => Ok(a),
                Err(ReadError::DeserializeError { path, offset, source }) => Err(source),
                Err(_) => arbitrary(),
            };
            let y: Result<T, String> = match second {
                Ok(a) => Ok(a),
                Err(ReadError::DeserializeError { path, offset, source }) => Err(source),
                Err(_) => arbitrary(),
            };
            assert(decodes_to(decode, payload, x));
            assert(decodes_to(decode, payload, y));
            let a = choose|bytes: Vec<u8>| bytes@ == payload && call_ensures(decode, (bytes,), x);
            let b = choose|bytes: Vec<u8>| bytes@ == payload && call_ensures(decode, (bytes,), y);
            assert(a@ == b@ && call_ensures(decode, (a,), x) && call_ensures(decode, (b,), y));
            assert(x == y);
        }
    }

    /// After `count` of the entries held were consumed, the next read gives
    /// the entry behind them, and never one of them again.
    pub proof fn lemma_read_after_consume<T, D: Fn(Vec<u8>) -> Result<T, String>>(
        self,
        held: Seq<Seq<u8>>,
        count: nat,
        decode: D,
        res: Result<T, ReadError>,
    )
        requires
            self.wf(),
            self.holds(held),
            count < held.len(),
            ({
                let after = self.with_cursors(
                    self.skipped(self.read_cursor, count).unwrap(),
                    self.write_cursor,
                );
                after.read_gives(after.read_cursor, decode, res)
            }),
        ensures
            self.skipped(self.read_cursor, count) is Ok,
            match res {
                Ok(entry) => decodes_to(decode, held[count as int], Ok(entry)),
                Err(e) => e matches ReadError::DeserializeError { path, offset, source }
                    && decodes_to(decode, held[count as int], Err::<T, String>(source)),
            },
    {
        self.lemma_consumed_holds(held, count);
        let cursor = self.skipped(self.read_cursor, count).unwrap();
        let after = self.with_cursors(cursor, self.write_cursor);
        self.lemma_skipped(self.read_cursor, self.write_cursor, held, count);
        self.lemma_cursors_keep(cursor);
        after.lemma_read_held(held.skip(count as int), decode, res);
    }
}

impl BacklogView {
    /// Whether every chunk lies at a path that names its position.
    pub open spec fn named(self) -> bool {
        forall|i: int|
            0 <= i < self.chunks.len() ==> suffix_of((#[trigger] self.chunks[i]).path) == Some(
                self.chunks[i].position,
            )
    }

    /// Entries that fit into the chunk written to are written there, one
    /// behind the other, and nothing else changes.
    pub proof fn lemma_written_in_place(self, entries: Seq<Seq<u8>>)
        requires
            self.wf(),
            self.writing().takes(entries),
        ensures
            self.accepts_all(entries),
            self.after_writes(entries) == self.with_chunk(
                self.writing_chunk,
                self.writing().with_entries(entries),
            ),
            self.after_writes(entries).wf(),
        decreases entries.len(),
    {
        if entries.len() == 0 {
            assert(self.chunks.update(self.writing_chunk, self.writing()) =~= self.chunks);
        } else {
            let next = self.after_write(entries[0]);
            let length = (entries[0].len() + FRAME_OVERHEAD) as u32;
            assert(self.writing().wf());
            self.writing().lemma_grown(length, entries[0], crate::frame::digest(length, entries[0]));
            self.lemma_chunk_replaced(self.writing_chunk, self.writing().with_entry(entries[0]));
            next.lemma_written_in_place(entries.drop_first());
            assert(next.chunks.update(
                self.writing_chunk,
                next.writing().with_entries(entries.drop_first()),
            ) =~= self.chunks.update(self.writing_chunk, self.writing().with_entries(entries)));
        }
    }

    /// A sound chunk of the same position and size can take the place of
    /// another.
    pub proof fn lemma_chunk_replaced(self, index: int, chunk: ChunkView)
        requires
            self.wf(),
            0 <= index < self.chunks.len(),
            chunk.wf(),
            chunk.size == self.chunk_size,
            chunk.position == self.chunks[index].position,
        ensures
            self.with_chunk(index, chunk).wf(),
    {
        let after = self.with_chunk(index, chunk);
        assert forall|i: int, j: int| 0 <= i <= j < after.chunks.len() implies after.chunks[i].position
            <= after.chunks[j].position by {
            assert(self.chunks[i].position <= self.chunks[j].position);
        }
        assert forall|i: int| 0 <= i < after.chunks.len() implies (#[trigger] after.chunks[i]).wf()
            && after.chunks[i].size == after.chunk_size by {
            if i != index {
                assert(self.chunks[i].wf());
            }
        }
    }

    /// First in, first out: where the chunk read from is the chunk written
    /// to, and entries are written that fit into it, reading as many entries
    /// as the chunk then holds gives the entries held before and the entries
    /// written, each decoded, in the order of their writing.
    pub proof fn lemma_fifo<T, D: Fn(Vec<u8>) -> Result<T, String>>(
        self,
        held: Seq<Seq<u8>>,
        entries: Seq<Seq<u8>>,
        decode: D,
        res: Result<Seq<T>, ReadError>,
    )
        requires
            self.wf(),
            self.reading_chunk == self.writing_chunk,
            self.reading().holds(held),
            self.writing().takes(entries),
            ({
                let after = self.after_writes(entries);
                after.reading().reads_give(
                    after.reading().read_cursor,
                    held.len() + entries.len(),
                    decode,
                    res,
                )
            }),
        ensures
            self.accepts_all(entries),
            self.after_writes(entries).reading().holds(held + entries),
            match res {
                Ok(read) => read.len() == held.len() + entries.len() && forall|i: int|
                    0 <= i < read.len() ==> decodes_to(
                        decode,
                        (held + entries)[i],
                        Ok(#[trigger] read[i]),
                    ),
                Err(e) => e is DeserializeError,
            },
    {
        self.lemma_written_in_place(entries);
        self.writing().lemma_entries_held(held, entries);
        let after = self.after_writes(entries);
        after.reading().lemma_reads_held(held + entries, held.len() + entries.len(), decode, res);
    }

    /// An entry whose frame takes exactly the room left is written into the
    /// chunk written to and the chain stays as long as it was; one byte more
    /// and the chain rotates, where it can.
    pub proof fn lemma_capacity_boundary(self, entry: Seq<u8>)
        requires
            self.wf(),
            self.can_rotate(),
        ensures
            entry.len() + FRAME_OVERHEAD == self.writing().capacity() ==> self.accepts(entry)
                && self.after_write(entry).chunks.len() == self.chunks.len() && self.after_write(
                entry,
            ).writing().write_cursor == self.writing().write_cursor + entry.len()
                + FRAME_OVERHEAD,
            entry.len() + FRAME_OVERHEAD == self.writing().capacity() + 1 ==> self.after_write(
                entry,
            ).chunks.len() == self.chunks.len() + 1 && self.after_write(entry).writing_chunk == 0
                && self.after_write(entry).reading_chunk == self.reading_chunk + 1,
    {
        if entry.len() + FRAME_OVERHEAD == self.writing().capacity() {
            crate::native::lemma_u32_bytes((entry.len() + FRAME_OVERHEAD) as u32);
            crate::native::lemma_u32_bytes(
                crate::frame::digest((entry.len() + FRAME_OVERHEAD) as u32, entry),
            );
        }
    }

    /// A rotation keeps the entries of every chunk, moves reading along with
    /// its chunk, and leaves a fresh chunk to write to.
    pub proof fn lemma_rotated(self, index: int, held: Seq<Seq<u8>>)
        requires
            self.wf(),
            self.can_rotate(),
            0 <= index < self.chunks.len(),
            self.chunks[index].holds(held),
        ensures
            self.rotated().chunks[index + 1].holds(held),
            self.rotated().reading().region == self.reading().region,
            self.rotated().writing() == ChunkView::fresh(self.path, self.chunk_size),
            self.rotated().writing().holds(Seq::empty()),
    {
        let old = self.chunks[index];
        assert(old.wf());
        old.lemma_cursors_keep(old.read_cursor);
        old.lemma_spans_kept(old.rotated(), old.read_cursor, old.write_cursor, held);
    }

    /// A rotated chain is sound, and its chunks lie at paths that name their
    /// positions where they did before and the backlog's path names none.
    pub proof fn lemma_rotated_sound(self)
        requires
            self.wf(),
            self.can_rotate(),
        ensures
            self.rotated().wf(),
            self.named() && suffix_of(self.path) == Some(0u32) ==> self.rotated().named(),
    {
        let after = self.rotated();
        assert forall|i: int| 0 <= i < after.chunks.len() implies (#[trigger] after.chunks[i]).wf()
            && after.chunks[i].size == after.chunk_size by {
            if i > 0 {
                assert(self.chunks[i - 1].wf());
            } else {
                ChunkView::lemma_fresh(self.path, self.chunk_size);
            }
        }
        assert forall|i: int, j: int| 0 <= i <= j < after.chunks.len() implies after.chunks[i].position
            <= after.chunks[j].position by {
            if i > 0 {
                assert(self.chunks[i - 1].position <= self.chunks[j - 1].position);
            }
        }
        if self.named() && suffix_of(self.path) == Some(0u32) {
            assert forall|i: int| 0 <= i < after.chunks.len() implies suffix_of(
                (#[trigger] after.chunks[i]).path,
            ) == Some(after.chunks[i].position) by {
                if i > 0 {
                    let before = self.chunks[i - 1];
                    lemma_with_suffix(before.path, (before.position + 1) as nat);
                }
            }
        }
    }

    /// Durability: an entry written into the one chunk of a backlog is in the
    /// bytes of that chunk. A backlog opened from them is the backlog after
    /// the write: its write cursor lies behind the entry, and it holds the
    /// entry behind the ones held before.
    pub proof fn lemma_durable(self, held: Seq<Seq<u8>>, entry: Seq<u8>, found: Seq<Found>)
        requires
            self.wf(),
            self.named(),
            self.chunks.len() == 1,
            self.reading().holds(held),
            self.fits(entry),
            found.len() == 1,
            found[0].path@ == self.after_write(entry).chunks[0].path,
            found[0].bytes@ == self.after_write(entry).chunks[0].region,
        ensures
            opens(found[0], self.chunk_size),
            assembled(self.path, self.chunk_size, found) == self.after_write(entry),
            self.after_write(entry).writing().write_cursor == self.writing().write_cursor
                + entry.len() + FRAME_OVERHEAD,
            self.after_write(entry).reading().holds(held.push(entry)),
    {
        let after = self.after_write(entry);
        assert(self.chunks[0].wf());
        self.chunks[0].lemma_entry_held(entry, held);
        self.lemma_chunk_replaced(0, self.chunks[0].with_entry(entry));
        assert(after.named());
        after.lemma_restart(found);
    }

    /// A restart loses nothing: the files of a backlog whose paths name the
    /// positions of its chunks open again, as the same chunks in the same
    /// order.
    pub proof fn lemma_restart(self, found: Seq<Found>)
        requires
            self.wf(),
            self.named(),
            found.len() == self.chunks.len(),
            forall|i: int|
                0 <= i < found.len() ==> (#[trigger] found[i]).path@ == self.chunks[i].path
                    && found[i].bytes@ == self.chunks[i].region,
        ensures
            forall|i: int| 0 <= i < found.len() ==> opens(#[trigger] found[i], self.chunk_size),
            opened_all(found, self.chunk_size) == self.chunks,
            arranged(opened_all(found, self.chunk_size)) == self.chunks,
            self.reading_chunk == oldest_pending(self.chunks) ==> assembled(
                self.path,
                self.chunk_size,
                found,
            ) == self,
    {
        assert forall|i: int| 0 <= i < found.len() implies opens(
            #[trigger] found[i],
            self.chunk_size,
        ) && Chunk::opened(found[i].path@, self.chunk_size, found[i].bytes@)
            == self.chunks[i] by {
            assert(self.chunks[i].wf());
            self.chunks[i].lemma_reopens();
        }
        assert(opened_all(found, self.chunk_size) =~= self.chunks);
        lemma_arranged_ascending(self.chunks);
    }
}

/// Chunks that stand by ascending position stay as they are when arranged.
pub proof fn lemma_arranged_ascending(chain: Seq<ChunkView>)
    requires
        ascending(chain),
    ensures
        arranged(chain) == chain,
    decreases chain.len(),
{
    if chain.len() == 0 {
        assert(arranged(chain) =~= chain);
    } else {
        let front = chain.drop_last();
        assert(ascending(front)) by {
            assert forall|i: int, j: int| 0 <= i <= j < front.len() implies front[i].position
                <= front[j].position by {
                assert(front[i] == chain[i] && front[j] == chain[j]);
            }
        }
        lemma_arranged_ascending(front);
        lemma_slot(front, chain.last().position);
        let at = slot(front, chain.last().position);
        if at < front.len() {
            assert(front[at] == chain[at]);
            assert(chain[at].position <= chain[chain.len() - 1].position);
        }
        assert(placed(front, chain.last()) =~= chain);
    }
}

} // verus!

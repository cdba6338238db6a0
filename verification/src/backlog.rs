//! The chain of chunks, and the cursors that say which chunk is written to and
//! which is read from.
//!
//! The chain is ordered by position: the canonical chunk, the one written to,
//! comes first, and the chunks behind it are older the further back they
//! stand. When the canonical chunk is full the chain rotates: every chunk moves
//! one position on and a fresh canonical chunk takes the front.
//!
//! Reading stays with one chunk: entries are peeked and consumed there, and a
//! rotation moves the index along with the chunk. A backlog that is opened
//! from its files reads from the oldest chunk that still holds entries. No
//! chunk is ever dropped from the chain or deleted.

use vstd::prelude::*;
use vstd::slice::slice_to_vec;
use crate::chunk::Chunk;
use crate::chunk::ChunkView;
use crate::error::Fault;
use crate::error::InitError;
use crate::error::PeekError;
use crate::error::ReadError;
use crate::error::WriteError;
use crate::frame::total;
use crate::frame::Frame;
use crate::frame::FRAME_OVERHEAD;
use crate::header::HEADER_SIZE;

verus! {

/// One file that was found for a backlog: its path and its bytes.
pub struct Found {
    pub path: Vec<u8>,
    pub bytes: Vec<u8>,
}

/// What a backlog is, as plain values.
pub struct BacklogView {
    /// Path of the canonical chunk.
    pub path: Seq<u8>,
    /// Size of every chunk in bytes.
    pub chunk_size: u32,
    /// The chain, the canonical chunk first.
    pub chunks: Seq<ChunkView>,
    /// Index of the chunk that is read from.
    pub reading_chunk: int,
    /// Index of the chunk that is written to.
    pub writing_chunk: int,
}

impl BacklogView {
    /// There is a chunk to read, writing goes to the first chunk, positions
    /// never fall along the chain, and every chunk is sound and of the
    /// backlog's chunk size.
    pub open spec fn wf(self) -> bool {
        &&& self.chunk_size >= HEADER_SIZE
        &&& 0 <= self.reading_chunk < self.chunks.len()
        &&& self.writing_chunk == 0
        &&& self.chunks.len() > 0
        &&& ascending(self.chunks)
        &&& forall|i: int|
            0 <= i < self.chunks.len() ==> (#[trigger] self.chunks[i]).wf() && self.chunks[i].size
                == self.chunk_size
    }

    /// The chunk that is read from.
    pub open spec fn reading(self) -> ChunkView {
        self.chunks[self.reading_chunk]
    }

    /// The chunk that is written to.
    pub open spec fn writing(self) -> ChunkView {
        self.chunks[self.writing_chunk]
    }

    /// The backlog with another chunk at `index`.
    pub open spec fn with_chunk(self, index: int, chunk: ChunkView) -> Self {
        BacklogView { chunks: self.chunks.update(index, chunk), ..self }
    }

    /// Whether every chunk can move one position on.
    pub open spec fn can_rotate(self) -> bool {
        forall|i: int| 0 <= i < self.chunks.len() ==> (#[trigger] self.chunks[i]).position < u32::MAX
    }

    /// The backlog after a rotation: every chunk has moved one position on,
    /// and one slot back behind a fresh canonical chunk. Reading stays with
    /// its chunk, writing goes to the fresh one.
    pub open spec fn rotated(self) -> Self {
        BacklogView {
            chunks: seq![ChunkView::fresh(self.path, self.chunk_size)] + Seq::new(
                self.chunks.len(),
                |i: int| self.chunks[i].rotated(),
            ),
            reading_chunk: self.reading_chunk + 1,
            writing_chunk: 0,
            ..self
        }
    }

    /// Whether the frame around `entry` fits into the chunk written to.
    pub open spec fn fits(self, entry: Seq<u8>) -> bool {
        self.writing().fits(entry)
    }

    /// Whether `entry` can be written: into the chunk written to, or after a
    /// rotation into a fresh one.
    pub open spec fn accepts(self, entry: Seq<u8>) -> bool {
        self.fits(entry) || (self.can_rotate() && self.rotated().fits(entry))
    }

    /// The backlog after `entry` was handed to it: with the entry behind the
    /// frames of the chunk written to, where it fits; unchanged, where it does
    /// not and the chain cannot rotate; else rotated, with the entry in the
    /// fresh chunk where it fits there.
    pub open spec fn after_write(self, entry: Seq<u8>) -> Self {
        if self.fits(entry) {
            self.with_chunk(self.writing_chunk, self.writing().with_entry(entry))
        } else if !self.can_rotate() {
            self
        } else if self.rotated().fits(entry) {
            self.rotated().with_chunk(0, self.rotated().writing().with_entry(entry))
        } else {
            self.rotated()
        }
    }

    /// Whether each of `entries` can be written behind the ones before it.
    pub open spec fn accepts_all(self, entries: Seq<Seq<u8>>) -> bool
        decreases entries.len(),
    {
        entries.len() == 0 || (self.accepts(entries[0]) && self.after_write(
            entries[0],
        ).accepts_all(entries.drop_first()))
    }

    /// The backlog after `entries` were handed to it one by one, up to and
    /// with the first that cannot be written.
    pub open spec fn after_writes(self, entries: Seq<Seq<u8>>) -> Self
        decreases entries.len(),
    {
        if entries.len() == 0 {
            self
        } else if !self.accepts(entries[0]) {
            self.after_write(entries[0])
        } else {
            self.after_write(entries[0]).after_writes(entries.drop_first())
        }
    }

    /// Whether `e` is the error with which writing `entries` one by one
    /// fails: that of the first entry that cannot be written.
    pub open spec fn writes_fail_with(self, entries: Seq<Seq<u8>>, e: WriteError) -> bool
        decreases entries.len(),
    {
        entries.len() > 0 && if !self.accepts(entries[0]) {
            self.write_fails_with(entries[0], e)
        } else {
            self.after_write(entries[0]).writes_fail_with(entries.drop_first(), e)
        }
    }

    /// The backlog with the read cursor of the chunk read from at `cursor`.
    pub open spec fn consumed_to(self, cursor: u64) -> Self {
        self.with_chunk(
            self.reading_chunk,
            self.reading().with_cursors(cursor, self.reading().write_cursor),
        )
    }

    /// Whether `e` is the error of an entry that no chunk of this backlog
    /// takes: it names the canonical chunk and brings back the entry's frame.
    pub open spec fn too_large(self, entry: Seq<u8>, e: WriteError) -> bool {
        e matches WriteError::ChunkFull { path, size, max_size, frame } && path@ == self.path
            && size == entry.len() + FRAME_OVERHEAD && max_size == self.chunk_size
            && frame.frames(entry)
    }

    /// Whether `e` is the error of a rotation that cannot take place: it
    /// names the first chunk whose position cannot grow.
    pub open spec fn stuck(self, e: WriteError) -> bool {
        e matches WriteError::RotationError { path, source } && source == Fault::InvalidData
            && exists|k: int|
            0 <= k < self.chunks.len() && path@ == (#[trigger] self.chunks[k]).path
                && self.chunks[k].position == u32::MAX && forall|i: int|
                0 <= i < k ==> (#[trigger] self.chunks[i]).position < u32::MAX
    }

    /// Whether `e` is the error with which writing `entry` fails.
    pub open spec fn write_fails_with(self, entry: Seq<u8>, e: WriteError) -> bool {
        if self.can_rotate() {
            self.too_large(entry, e)
        } else {
            self.stuck(e)
        }
    }
}

/// The views of a chain of chunks.
pub open spec fn views(chunks: Seq<Chunk>) -> Seq<ChunkView> {
    Seq::new(chunks.len(), |i: int| chunks[i]@)
}

/// Whether the file found opens as a chunk of `size` bytes.
pub open spec fn opens(found: Found, size: u32) -> bool {
    Chunk::opens(found.path@, size, found.bytes@)
}

/// `chain` with `chunk` put before the first chunk of a higher position.
pub open spec fn placed(chain: Seq<ChunkView>, chunk: ChunkView) -> Seq<ChunkView> {
    chain.insert(slot(chain, chunk.position), chunk)
}

/// Index of the first chunk of `chain` with a position above `position`.
pub open spec fn slot(chain: Seq<ChunkView>, position: u32) -> int
    decreases chain.len(),
{
    if chain.len() == 0 || chain.last().position <= position {
        chain.len() as int
    } else {
        slot(chain.drop_last(), position)
    }
}

/// The chain that chunks make when they are placed one after the other.
pub open spec fn arranged(chunks: Seq<ChunkView>) -> Seq<ChunkView>
    decreases chunks.len(),
{
    if chunks.len() == 0 {
        Seq::empty()
    } else {
        placed(arranged(chunks.drop_last()), chunks.last())
    }
}

/// Whether positions never fall along `chain`.
pub open spec fn ascending(chain: Seq<ChunkView>) -> bool {
    forall|i: int, j: int| 0 <= i <= j < chain.len() ==> chain[i].position <= chain[j].position
}

/// Index of the oldest chunk of `chain` that holds entries not consumed yet:
/// the last one whose cursors differ, the first chunk where there is none.
pub open spec fn oldest_pending(chain: Seq<ChunkView>) -> int
    decreases chain.len(),
{
    if chain.len() <= 1 {
        0
    } else if chain.last().read_cursor < chain.last().write_cursor {
        chain.len() - 1
    } else {
        oldest_pending(chain.drop_last())
    }
}

/// The chunks that the files found open as.
pub open spec fn opened_all(found: Seq<Found>, size: u32) -> Seq<ChunkView> {
    Seq::new(found.len(), |i: int| Chunk::opened(found[i].path@, size, found[i].bytes@))
}

/// The backlog that files make which all open: their chunks arranged, with
/// writing at the first of them and reading at the oldest that holds entries.
pub open spec fn assembled(path: Seq<u8>, size: u32, found: Seq<Found>) -> BacklogView {
    BacklogView {
        path,
        chunk_size: size,
        chunks: arranged(opened_all(found, size)),
        reading_chunk: oldest_pending(arranged(opened_all(found, size))),
        writing_chunk: 0,
    }
}

/// The backlog that is created where no file was found: one fresh chunk.
pub open spec fn created(path: Seq<u8>, size: u32) -> BacklogView {
    BacklogView {
        path,
        chunk_size: size,
        chunks: seq![ChunkView::fresh(path, size)],
        reading_chunk: 0,
        writing_chunk: 0,
    }
}

/// The slot lies inside the chain, behind every chunk of no higher position
/// and before every chunk of a higher one.
pub proof fn lemma_slot(chain: Seq<ChunkView>, position: u32)
    requires
        ascending(chain),
    ensures
        0 <= slot(chain, position) <= chain.len(),
        forall|i: int| 0 <= i < slot(chain, position) ==> chain[i].position <= position,
        forall|i: int| slot(chain, position) <= i < chain.len() ==> chain[i].position > position,
    decreases chain.len(),
{
    let at = slot(chain, position);
    if chain.len() > 0 && chain.last().position > position {
        let front = chain.drop_last();
        assert(ascending(front)) by {
            assert forall|i: int, j: int| 0 <= i <= j < front.len() implies front[i].position
                <= front[j].position by {
                assert(front[i] == chain[i] && front[j] == chain[j]);
            }
        }
        lemma_slot(front, position);
        assert forall|i: int| 0 <= i < at implies chain[i].position <= position by {
            assert(front[i] == chain[i]);
        }
        assert forall|i: int| at <= i < chain.len() implies chain[i].position > position by {
            if i < front.len() {
                assert(front[i] == chain[i]);
            }
        }
    } else if chain.len() > 0 {
        assert forall|i: int| 0 <= i < at implies chain[i].position <= position by {
            assert(chain[i].position <= chain[chain.len() - 1].position);
        }
    }
}

/// Placing a chunk keeps positions ascending.
pub proof fn lemma_placed(chain: Seq<ChunkView>, chunk: ChunkView)
    requires
        ascending(chain),
    ensures
        ascending(placed(chain, chunk)),
        placed(chain, chunk).len() == chain.len() + 1,
{
    lemma_slot(chain, chunk.position);
}

/// Chunks arranged stand by ascending position, and all of them are there.
pub proof fn lemma_arranged(chunks: Seq<ChunkView>)
    ensures
        ascending(arranged(chunks)),
        arranged(chunks).len() == chunks.len(),
        forall|i: int|
            0 <= i < chunks.len() ==> arranged(chunks).contains(#[trigger] chunks[i]),
        forall|i: int|
            0 <= i < chunks.len() ==> chunks.contains(#[trigger] arranged(chunks)[i]),
    decreases chunks.len(),
{
    if chunks.len() > 0 {
        let front = chunks.drop_last();
        lemma_arranged(front);
        lemma_placed(arranged(front), chunks.last());
        lemma_slot(arranged(front), chunks.last().position);
        let at = slot(arranged(front), chunks.last().position);
        let all = arranged(chunks);
        assert forall|i: int| 0 <= i < chunks.len() implies all.contains(
            #[trigger] chunks[i],
        ) by {
            if i == chunks.len() - 1 {
                assert(all[at] == chunks[i]);
            } else {
                assert(front[i] == chunks[i]);
                let k = choose|k: int| 0 <= k < arranged(front).len() && arranged(front)[k] == front[i];
                if k < at {
                    assert(all[k] == chunks[i]);
                } else {
                    assert(all[k + 1] == chunks[i]);
                }
            }
        }
        assert forall|i: int| 0 <= i < chunks.len() implies chunks.contains(
            #[trigger] all[i],
        ) by {
            if i == at {
                assert(chunks[chunks.len() - 1] == all[i]);
            } else {
                let k = if i < at { i } else { i - 1 };
                assert(arranged(front)[k] == all[i]);
                assert(front.contains(arranged(front)[k]));
                let j = choose|j: int| 0 <= j < front.len() && front[j] == arranged(front)[k];
                assert(chunks[j] == all[i]);
            }
        }
    }
}

/// A backlog of encoded entries: appended at the front chunk, read and
/// consumed in the order of their writing. Not safe for use by several
/// writers or readers at once.
pub struct Backlog {
    path: Vec<u8>,
    chunk_size: u32,
    chunks: Vec<Chunk>,
    reading_chunk: usize,
    writing_chunk: usize,
}

impl View for Backlog {
    type V = BacklogView;

    closed spec fn view(&self) -> BacklogView {
        BacklogView {
            path: self.path@,
            chunk_size: self.chunk_size,
            chunks: views(self.chunks@),
            reading_chunk: self.reading_chunk as int,
            writing_chunk: self.writing_chunk as int,
        }
    }
}

/// Puts `chunk` into `chain` before the first chunk of a higher position.
fn place(chain: &mut Vec<Chunk>, chunk: Chunk)
    ensures
        views(final(chain)@) == placed(views(old(chain)@), chunk@),
{
    let position = chunk.position();
    let mut at = chain.len();
    assert(views(chain@).subrange(0, at as int) =~= views(chain@));
    while at > 0 && chain[at - 1].position() > position
        invariant
            at <= chain@.len(),
            chain@ == old(chain)@,
            slot(views(chain@), position) == slot(views(chain@).subrange(0, at as int), position),
        decreases at,
    {
        let ghost head = views(chain@).subrange(0, at as int);
        assert(head.last() == chain@[at - 1]@);
        assert(head.drop_last() =~= views(chain@).subrange(0, at - 1));
        at -= 1;
    }
    proof {
        let head = views(chain@).subrange(0, at as int);
        if at > 0 {
            assert(head.last() == chain@[at - 1]@);
        }
        assert(slot(head, position) == at);
    }
    chain.insert(at, chunk);
    assert(views(chain@) =~= placed(views(old(chain)@), chunk@));
}

impl Backlog {
    /// Opens the backlog at `path` from the files found for it, or creates it
    /// where none was found. Each file is opened as a chunk of `size` bytes,
    /// in the order given, and the first that does not open fails the whole.
    /// The chunks are arranged by ascending position. Writing goes to the
    /// first of them, reading to the oldest that holds unconsumed entries.
    pub fn new(path: &[u8], size: u32, found: Vec<Found>) -> (res: Result<Self, InitError>)
        ensures
            found@.len() == 0 && size >= HEADER_SIZE ==> (res matches Ok(backlog) && backlog@.wf()
                && backlog@ == created(path@, size)),
            found@.len() == 0 && size < HEADER_SIZE ==> (res matches Err(
                InitError::HeaderWriteError { path: p, source },
            ) && p@ == path@ && source == Fault::WriteZero),
            found@.len() > 0 && (forall|i: int| 0 <= i < found@.len() ==> opens(found@[i], size))
                ==> (res matches Ok(backlog) && backlog@.wf() && backlog@ == assembled(
                path@,
                size,
                found@,
            )),
            res matches Err(e) ==> (found@.len() > 0 ==> exists|k: int|
                0 <= k < found@.len() && !opens(found@[k], size) && Chunk::refused_with(
                    found@[k].path@,
                    found@[k].bytes@,
                    e,
                ) && forall|i: int| 0 <= i < k ==> opens(found@[i], size)),
    {
        let mut chunks: Vec<Chunk> = Vec::new();
        let mut rest = found;
        let count = rest.len();
        let mut done: usize = 0;
        assert(opened_all(found@, size).subrange(0, 0) =~= Seq::<ChunkView>::empty());
        assert(views(chunks@) =~= Seq::<ChunkView>::empty());
        while done < count
            invariant
                done <= count,
                count == found@.len(),
                rest@ == found@.skip(done as int),
                forall|i: int| 0 <= i < done ==> opens(found@[i], size),
                views(chunks@) == arranged(opened_all(found@, size).subrange(0, done as int)),
                forall|i: int| 0 <= i < chunks@.len() ==> (#[trigger] chunks@[i])@.wf() && chunks@[i]@.size == size,
            decreases count - done,
        {
            let item = rest.remove(0);
            assert(item == found@[done as int]);
            assert(rest@ =~= found@.skip(done + 1));
            let chunk = match Chunk::open(item.path.as_slice(), size, item.bytes) {
                Ok(chunk) => chunk,
                Err(e) => {
                    return Err(e);
                },
            };
            let ghost before = chunks@;
            let ghost all = opened_all(found@, size);
            assert(all.subrange(0, done + 1).drop_last() =~= all.subrange(0, done as int));
            assert(all.subrange(0, done + 1).last() == chunk@);
            place(&mut chunks, chunk);
            proof {
                lemma_arranged(all.subrange(0, done as int));
                lemma_slot(views(before), chunk@.position);
                let at = slot(views(before), chunk@.position);
                assert(views(chunks@).len() == chunks@.len());
                assert forall|i: int| 0 <= i < chunks@.len() implies (#[trigger] chunks@[i])@.wf()
                    && chunks@[i]@.size == size by {
                    assert(views(chunks@)[i] == chunks@[i]@);
                    if i < at {
                        assert(views(before)[i] == before[i]@);
                    } else if i > at {
                        assert(views(before)[i - 1] == before[i - 1]@);
                    }
                }
            }
            done += 1;
        }
        assert(opened_all(found@, size).subrange(0, count as int) =~= opened_all(found@, size));
        if chunks.len() == 0 {
            let chunk = match Chunk::create(path, size) {
                Ok(chunk) => chunk,
                Err(e) => {
                    return Err(e);
                },
            };
            chunks.push(chunk);
            let backlog = Backlog {
                path: slice_to_vec(path),
                chunk_size: size,
                chunks,
                reading_chunk: 0,
                writing_chunk: 0,
            };
            assert(backlog@.chunks =~= seq![ChunkView::fresh(path@, size)]);
            return Ok(backlog);
        }
        let mut reading = chunks.len() - 1;
        assert(views(chunks@).subrange(0, reading + 1) =~= views(chunks@));
        while reading > 0 && chunks[reading].header().read_cursor() >= chunks[
            reading
        ].header().write_cursor()
            invariant
                reading < chunks@.len(),
                oldest_pending(views(chunks@)) == oldest_pending(
                    views(chunks@).subrange(0, reading + 1),
                ),
            decreases reading,
        {
            let ghost head = views(chunks@).subrange(0, reading + 1);
            assert(head.last() == chunks@[reading as int]@);
            assert(head.drop_last() =~= views(chunks@).subrange(0, reading as int));
            reading -= 1;
        }
        proof {
            let head = views(chunks@).subrange(0, reading + 1);
            assert(head.last() == chunks@[reading as int]@);
            assert(oldest_pending(head) == reading);
            assert(chunks@[0]@.wf());
            lemma_arranged(opened_all(found@, size));
        }
        Ok(
            Backlog {
                path: slice_to_vec(path),
                chunk_size: size,
                chunks,
                reading_chunk: reading,
                writing_chunk: 0,
            },
        )
    }

    /// Path of the canonical chunk.
    pub fn path(&self) -> (path: &[u8])
        ensures
            path@ == self@.path,
    {
        self.path.as_slice()
    }

    /// Size of every chunk in bytes.
    pub fn chunk_size(&self) -> (size: u32)
        ensures
            size == self@.chunk_size,
    {
        self.chunk_size
    }

    /// Number of chunks in the chain.
    pub fn len(&self) -> (count: usize)
        ensures
            count == self@.chunks.len(),
    {
        self.chunks.len()
    }

    /// Index of the chunk that is read from.
    pub fn reading_chunk(&self) -> (index: usize)
        ensures
            index == self@.reading_chunk,
    {
        self.reading_chunk
    }

    /// Index of the chunk that is written to.
    pub fn writing_chunk(&self) -> (index: usize)
        ensures
            index == self@.writing_chunk,
    {
        self.writing_chunk
    }

    /// The chunk at `index` of the chain.
    pub fn chunk(&self, index: usize) -> (chunk: &Chunk)
        requires
            index < self@.chunks.len(),
        ensures
            chunk@ == self@.chunks[index as int],
    {
        &self.chunks[index]
    }
    /// Moves every chunk one position on and puts a fresh canonical chunk in
    /// front of them. Where a chunk cannot move, nothing changes.
    fn rotate(&mut self) -> (res: Result<(), WriteError>)
        requires
            old(self)@.wf(),
        ensures
            final(self)@.wf(),
            old(self)@.can_rotate() ==> res is Ok && final(self)@ == old(self)@.rotated(),
            !old(self)@.can_rotate() ==> final(self)@ == old(self)@ && (res matches Err(e)
                && old(self)@.stuck(e)),
    {
        let count = self.chunks.len();
        let mut i: usize = 0;
        while i < count
            invariant
                i <= count,
                count == self.chunks@.len(),
                self@ == old(self)@,
                *self == *old(self),
                old(self)@.wf(),
                forall|j: int| 0 <= j < i ==> (#[trigger] self@.chunks[j]).position < u32::MAX,
            decreases count - i,
        {
            assert(self@.chunks[i as int] == self.chunks@[i as int]@);
            if self.chunks[i].position() == u32::MAX {
                return Err(
                    WriteError::RotationError {
                        path: slice_to_vec(self.chunks[i].path()),
                        source: Fault::InvalidData,
                    },
                );
            }
            i += 1;
        }
        let mut j: usize = 0;
        while j < count
            invariant
                j <= count,
                count == self.chunks@.len(),
                count == old(self)@.chunks.len(),
                old(self)@.wf(),
                old(self)@.can_rotate(),
                self.path == old(self).path,
                self.chunk_size == old(self).chunk_size,
                self.reading_chunk == old(self).reading_chunk,
                self.writing_chunk == old(self).writing_chunk,
                forall|k: int|
                    0 <= k < count ==> (#[trigger] self.chunks@[k])@ == if k < j {
                        old(self)@.chunks[k].rotated()
                    } else {
                        old(self)@.chunks[k]
                    },
            decreases count - j,
        {
            assert(self.chunks@[j as int]@ == old(self)@.chunks[j as int]);
            let ghost before = self.chunks@;
            self.chunks[j].rotate();
            assert forall|k: int| 0 <= k < count implies (#[trigger] self.chunks@[k])@ == if k < j
                + 1 {
                old(self)@.chunks[k].rotated()
            } else {
                old(self)@.chunks[k]
            } by {
                if k != j {
                    assert(self.chunks@[k] == before[k]);
                }
            }
            j += 1;
        }
        match Chunk::create(self.path.as_slice(), self.chunk_size) {
            Ok(fresh) => {
                self.chunks.insert(0, fresh);
                self.reading_chunk = self.reading_chunk + 1;
                self.writing_chunk = 0;
                proof {
                    assert(self@.chunks =~= old(self)@.rotated().chunks);
                    assert forall|k: int| 0 <= k < self@.chunks.len() implies (
                    #[trigger] self@.chunks[k]).wf() && self@.chunks[k].size
                        == self@.chunk_size by {
                        if k > 0 {
                            assert(old(self)@.chunks[k - 1].wf());
                        }
                    }
                }
                Ok(())
            },
            Err(_) => {
                assert(false);
                Err(WriteError::RotationError { path: Vec::new(), source: Fault::Other })
            },
        }
    }

    /// Writes one encoded entry. It goes to the chunk written to; where that
    /// chunk is full the chain rotates, and the frame, built once, goes to the
    /// fresh chunk. An entry that an empty chunk cannot take fails there, after
    /// the rotation.
    pub fn write_entry(&mut self, entry: Vec<u8>) -> (res: Result<(), WriteError>)
        requires
            old(self)@.wf(),
            entry@.len() + FRAME_OVERHEAD <= u32::MAX,
        ensures
            final(self)@.wf(),
            final(self)@ == old(self)@.after_write(entry@),
            old(self)@.accepts(entry@) ==> res is Ok,
            !old(self)@.accepts(entry@) ==> (res matches Err(e) && old(self)@.write_fails_with(
                entry@,
                e,
            )),
    {
        let frame = Frame::from_entry(entry);
        let ghost before = self.chunks@;
        let at = self.writing_chunk;
        assert(self@.writing() == self.chunks@[at as int]@);
        let first = self.chunks[at].write_frame(frame);
        proof {
            assert forall|k: int| 0 <= k < before.len() && k != at implies self.chunks@[k]
                == before[k] by {}
            if first is Ok {
                assert(self@.chunks =~= old(self)@.after_write(entry@).chunks);
                assert forall|k: int| 0 <= k < self@.chunks.len() implies (
                #[trigger] self@.chunks[k]).wf() && self@.chunks[k].size == self@.chunk_size by {
                    if k != at {
                        assert(old(self)@.chunks[k].wf());
                    }
                }
            } else {
                assert(self@.chunks =~= old(self)@.chunks);
            }
        }
        match first {
            Ok(()) => Ok(()),
            Err(WriteError::ChunkFull { path: _, size: _, max_size: _, frame }) => {
                match self.rotate() {
                    Ok(()) => {},
                    Err(e) => {
                        return Err(e);
                    },
                }
                let ghost rotated = self.chunks@;
                assert(self@.writing() == self.chunks@[0]@);
                let second = self.chunks[0].write_frame(frame);
                proof {
                    assert forall|k: int| 0 < k < rotated.len() implies self.chunks@[k]
                        == rotated[k] by {}
                    if second is Ok {
                        assert(self@.chunks =~= old(self)@.after_write(entry@).chunks);
                        assert forall|k: int| 0 <= k < self@.chunks.len() implies (
                        #[trigger] self@.chunks[k]).wf() && self@.chunks[k].size
                            == self@.chunk_size by {
                            if k > 0 {
                                assert(old(self)@.rotated().chunks[k].wf());
                            }
                        }
                    } else {
                        assert(self@.chunks =~= old(self)@.rotated().chunks);
                    }
                }
                second
            },
            Err(e) => {
                assert(false);
                Err(e)
            },
        }
    }
    /// Writes encoded entries one by one, and stops at the first that fails.
    /// The entries before it stay written.
    pub fn write_entries(&mut self, entries: Vec<Vec<u8>>) -> (res: Result<(), WriteError>)
        requires
            old(self)@.wf(),
            forall|i: int|
                0 <= i < entries@.len() ==> (#[trigger] entries@[i])@.len() + FRAME_OVERHEAD
                    <= u32::MAX,
        ensures
            final(self)@.wf(),
            final(self)@ == old(self)@.after_writes(entries.deep_view()),
            old(self)@.accepts_all(entries.deep_view()) <==> res is Ok,
            res matches Err(e) ==> old(self)@.writes_fail_with(entries.deep_view(), e),
    {
        let mut rest = entries;
        let count = rest.len();
        let mut done: usize = 0;
        let ghost all = entries.deep_view();
        assert(all.skip(0) =~= all);
        while done < count
            invariant
                done <= count,
                count == entries@.len(),
                all == entries.deep_view(),
                rest@ == entries@.skip(done as int),
                self@.wf(),
                forall|i: int|
                    0 <= i < entries@.len() ==> (#[trigger] entries@[i])@.len() + FRAME_OVERHEAD
                        <= u32::MAX,
                old(self)@.after_writes(all) == self@.after_writes(all.skip(done as int)),
                old(self)@.accepts_all(all) == self@.accepts_all(all.skip(done as int)),
                forall|e: WriteError|
                    #![trigger old(self)@.writes_fail_with(all, e)]
                    old(self)@.writes_fail_with(all, e) == self@.writes_fail_with(
                        all.skip(done as int),
                        e,
                    ),
            decreases count - done,
        {
            let entry = rest.remove(0);
            assert(entry == entries@[done as int]);
            assert(rest@ =~= entries@.skip(done + 1));
            assert(all.skip(done as int)[0] == entry@);
            assert(all.skip(done as int).drop_first() =~= all.skip(done + 1));
            match self.write_entry(entry) {
                Ok(()) => {},
                Err(e) => {
                    return Err(e);
                },
            }
            done += 1;
        }
        assert(all.skip(count as int) =~= Seq::<Seq<u8>>::empty());
        Ok(())
    }

    /// Reads `count` entries in a row from the read cursor of `chunk` on,
    /// without consuming any.
    fn read_run<T, D: Fn(Vec<u8>) -> Result<T, String>>(chunk: &Chunk, count: usize, decode: &D) -> (res:
        Result<Vec<T>, ReadError>)
        requires
            chunk@.wf(),
            total(*decode),
        ensures
            match res {
                Ok(entries) => chunk@.reads_give(
                    chunk@.read_cursor,
                    count as nat,
                    *decode,
                    Ok(entries@),
                ) && chunk@.skipped(chunk@.read_cursor, count as nat) is Ok,
                Err(e) => chunk@.reads_give::<T, D>(
                    chunk@.read_cursor,
                    count as nat,
                    *decode,
                    Err(e),
                ),
            },
    {
        let mut entries: Vec<T> = Vec::new();
        let start = chunk.header().read_cursor();
        let mut cursor = start;
        let mut done: usize = 0;
        while done < count
            invariant
                done <= count,
                chunk@.wf(),
                total(*decode),
                start == chunk@.read_cursor,
                cursor <= chunk@.write_cursor,
                entries@.len() == done,
                chunk@.skipped(start, done as nat) == Ok::<u64, Fault>(cursor),
                forall|i: int|
                    0 <= i < done ==> (#[trigger] chunk@.skipped(start, i as nat) matches Ok(at)
                        && chunk@.read_gives(at, *decode, Ok(entries@[i]))),
            decreases count - done,
        {
            let ghost before = entries@;
            match chunk.read_at(cursor, decode) {
                Ok((entry, next)) => {
                    proof {
                        chunk@.lemma_skipped_more(start, done as nat);
                    }
                    entries.push(entry);
                    cursor = next;
                },
                Err(e) => {
                    proof {
                        let k = done as int;
                        assert(chunk@.skipped(start, k as nat) == Ok::<u64, Fault>(cursor));
                        assert(chunk@.read_gives::<T, D>(cursor, *decode, Err(e)));
                        assert forall|i: int| 0 <= i < k implies (#[trigger] chunk@.skipped(
                            start,
                            i as nat,
                        ) matches Ok(at) && chunk@.accepted::<T, D>(at, *decode)) by {
                            let at = chunk@.skipped(start, i as nat).unwrap();
                            assert(chunk@.read_gives(at, *decode, Ok::<T, ReadError>(entries@[i])));
                        }
                        assert(chunk@.reads_give::<T, D>(start, count as nat, *decode, Err(e)));
                    }
                    return Err(e);
                },
            }
            assert forall|i: int| 0 <= i < done + 1 implies (#[trigger] chunk@.skipped(
                start,
                i as nat,
            ) matches Ok(at) && chunk@.read_gives(at, *decode, Ok(entries@[i]))) by {
                if i < done {
                    assert(entries@[i] == before[i]);
                }
            }
            done += 1;
        }
        Ok(entries)
    }

    /// Reads the entry at the read cursor of the chunk read from, without
    /// consuming it.
    pub fn peek_entry<T, D: Fn(Vec<u8>) -> Result<T, String>>(&self, decode: &D) -> (res: Result<
        T,
        PeekError,
    >)
        requires
            self@.wf(),
            total(*decode),
        ensures
            match res {
                Ok(entry) => self@.reading().read_gives(
                    self@.reading().read_cursor,
                    *decode,
                    Ok(entry),
                ),
                Err(PeekError::ReadError { source }) => self@.reading().read_gives::<T, D>(
                    self@.reading().read_cursor,
                    *decode,
                    Err(source),
                ),
                Err(_) => false,
            },
    {
        assert(self@.reading() == self.chunks@[self.reading_chunk as int]@);
        match self.chunks[self.reading_chunk].read(decode) {
            Ok(entry) => Ok(entry),
            Err(source) => Err(PeekError::from(source)),
        }
    }

    /// Reads `count` entries in a row from the read cursor on, each frame
    /// behind the one before, without consuming any.
    pub fn peek_entries<T, D: Fn(Vec<u8>) -> Result<T, String>>(&self, count: usize, decode: &D) -> (res:
        Result<Vec<T>, PeekError>)
        requires
            self@.wf(),
            total(*decode),
        ensures
            match res {
                Ok(entries) => self@.reading().reads_give(
                    self@.reading().read_cursor,
                    count as nat,
                    *decode,
                    Ok(entries@),
                ),
                Err(PeekError::ReadError { source }) => self@.reading().reads_give::<T, D>(
                    self@.reading().read_cursor,
                    count as nat,
                    *decode,
                    Err(source),
                ),
                Err(_) => false,
            },
    {
        assert(self@.reading() == self.chunks@[self.reading_chunk as int]@);
        match Self::read_run(&self.chunks[self.reading_chunk], count, decode) {
            Ok(entries) => Ok(entries),
            Err(source) => Err(PeekError::from(source)),
        }
    }

    /// Consumes `count` entries: the read cursor of the chunk read from moves
    /// past their frames. Where fewer whole frames lie there, nothing changes.
    pub fn consume(&mut self, count: usize) -> (res: Result<(), ReadError>)
        requires
            old(self)@.wf(),
        ensures
            final(self)@.wf(),
            match old(self)@.reading().skipped(old(self)@.reading().read_cursor, count as nat) {
                Ok(cursor) => res is Ok && final(self)@ == old(self)@.consumed_to(cursor),
                Err(fault) => final(self)@ == old(self)@ && (res matches Err(
                    ReadError::AdvanceError { path, source },
                ) && path@ == old(self)@.reading().path && source == fault),
            },
    {
        let at = self.reading_chunk;
        let ghost before = self.chunks@;
        assert(self@.reading() == self.chunks@[at as int]@);
        let res = self.chunks[at].advance(count);
        proof {
            assert forall|k: int| 0 <= k < before.len() && k != at implies self.chunks@[k]
                == before[k] by {}
            if res is Ok {
                let cursor = old(self)@.reading().skipped(
                    old(self)@.reading().read_cursor,
                    count as nat,
                ).unwrap();
                assert(self@.chunks =~= old(self)@.consumed_to(cursor).chunks);
            } else {
                assert(self@.chunks =~= old(self)@.chunks);
            }
            assert forall|k: int| 0 <= k < self@.chunks.len() implies (#[trigger] self@.chunks[k]).wf()
                && self@.chunks[k].size == self@.chunk_size by {
                if k != at {
                    assert(old(self)@.chunks[k].wf());
                } else {
                    assert(old(self)@.chunks[k].wf());
                }
            }
        }
        res
    }

    /// Reads the entry at the read cursor and consumes it. An entry that
    /// cannot be read or decoded stays where it is.
    pub fn read_entry<T, D: Fn(Vec<u8>) -> Result<T, String>>(&mut self, decode: &D) -> (res: Result<
        T,
        ReadError,
    >)
        requires
            old(self)@.wf(),
            total(*decode),
        ensures
            final(self)@.wf(),
            match res {
                Ok(entry) => old(self)@.reading().read_gives(
                    old(self)@.reading().read_cursor,
                    *decode,
                    Ok(entry),
                ) && final(self)@ == old(self)@.consumed_to(
                    old(self)@.reading().next_cursor(old(self)@.reading().read_cursor),
                ),
                Err(e) => old(self)@.reading().read_gives::<T, D>(
                    old(self)@.reading().read_cursor,
                    *decode,
                    Err(e),
                ) && final(self)@ == old(self)@,
            },
    {
        let at = self.reading_chunk;
        assert(self@.reading() == self.chunks@[at as int]@);
        let entry = match self.chunks[at].read(decode) {
            Ok(entry) => entry,
            Err(e) => {
                return Err(e);
            },
        };
        proof {
            let chunk = self@.reading();
            chunk.lemma_skipped_more(chunk.read_cursor, 0);
        }
        match self.consume(1) {
            Ok(()) => Ok(entry),
            Err(e) => {
                assert(false);
                Err(e)
            },
        }
    }

    /// Reads `count` entries in a row and consumes them. Where one of them
    /// cannot be read or decoded, none is consumed.
    pub fn read_entries<T, D: Fn(Vec<u8>) -> Result<T, String>>(&mut self, count: usize, decode: &D) -> (res:
        Result<Vec<T>, ReadError>)
        requires
            old(self)@.wf(),
            total(*decode),
        ensures
            final(self)@.wf(),
            match res {
                Ok(entries) => old(self)@.reading().reads_give(
                    old(self)@.reading().read_cursor,
                    count as nat,
                    *decode,
                    Ok(entries@),
                ) && (old(self)@.reading().skipped(
                    old(self)@.reading().read_cursor,
                    count as nat,
                ) matches Ok(cursor) && final(self)@ == old(self)@.consumed_to(cursor)),
                Err(e) => old(self)@.reading().reads_give::<T, D>(
                    old(self)@.reading().read_cursor,
                    count as nat,
                    *decode,
                    Err(e),
                ) && final(self)@ == old(self)@,
            },
    {
        let at = self.reading_chunk;
        assert(self@.reading() == self.chunks@[at as int]@);
        let entries = match Self::read_run(&self.chunks[at], count, decode) {
            Ok(entries) => entries,
            Err(e) => {
                return Err(e);
            },
        };
        match self.consume(count) {
            Ok(()) => Ok(entries),
            Err(e) => {
                assert(false);
                Err(e)
            },
        }
    }
}

} // verus!
//! The block writer: appends blocks at 8-byte aligned offsets with zero
//! padding, remembers where named blocks went, and patches link fields and
//! other values of blocks already written.

use vstd::prelude::*;
use vstd::hash_map::StringHashMap;
use crate::error::{MdfError, SinkError};
use crate::le::{u32_le_bytes, u64_le_bytes};
use crate::writer::sink::{
    InMemorySink,
    MmapWriter,
    SeekFrom,
    SinkView,
    seek_spec,
    write_all_spec,
};

verus! {

/// Where the finished image is to go.
pub enum Dest {
    /// Kept in memory for the caller.
    Memory,
    /// A file created at `path`, written through a buffer of `capacity` bytes.
    File { path: Seq<char>, capacity: usize },
    /// A file of fixed length at `path`, written through a memory map.
    Mapped { path: Seq<char> },
}

/// The sink of a writer together with its destination.
pub enum WriterTarget {
    /// An in-memory image handed back to the caller.
    Memory(InMemorySink),
    /// The image of a file to be created at `path`.
    File { path: String, capacity: usize, sink: InMemorySink },
    /// The fixed-length image of a memory-mapped file at `path`.
    Mapped { path: String, map: MmapWriter },
}

/// Abstract state of a writer target.
pub struct TargetView {
    pub sink: SinkView,
    pub dest: Dest,
}

impl View for WriterTarget {
    type V = TargetView;

    open spec fn view(&self) -> TargetView {
        match self {
            WriterTarget::Memory(s) => TargetView { sink: s@, dest: Dest::Memory },
            WriterTarget::File { path, capacity, sink } => TargetView {
                sink: sink@,
                dest: Dest::File { path: path@, capacity: *capacity },
            },
            WriterTarget::Mapped { path, map } => TargetView { sink: map@, dest: Dest::Mapped { path: path@ } },
        }
    }
}

/// A target's sink grows exactly when its destination is not a mapped file.
pub open spec fn target_consistent(t: TargetView) -> bool {
    t.sink.fixed <==> t.dest is Mapped
}

impl WriterTarget {
    fn write_all(&mut self, buf: &[u8]) -> (r: Result<(), MdfError>)
        requires
            old(self)@.sink.pos + buf@.len() <= usize::MAX,
            target_consistent(old(self)@),
        ensures
            final(self)@.dest == old(self)@.dest,
            target_consistent(final(self)@),
            match write_all_spec(old(self)@.sink, buf@) {
                Some(v) => r == Ok::<(), MdfError>(()) && final(self)@.sink == v,
                None => r == Err::<(), MdfError>(MdfError::Io(SinkError::WriteOverflow)) && final(self)@.sink == old(self)@.sink,
            },
    {
        match self {
            WriterTarget::Memory(s) => s.write_all(buf),
            WriterTarget::File { path: _, capacity: _, sink } => sink.write_all(buf),
            WriterTarget::Mapped { path: _, map } => map.write_all(buf),
        }
    }

    fn seek_start(&mut self, to: u64) -> (r: Result<u64, MdfError>)
        requires
            target_consistent(old(self)@),
        ensures
            final(self)@.dest == old(self)@.dest,
            target_consistent(final(self)@),
            match seek_spec(old(self)@.sink, SeekFrom::Start(to)) {
                Some(v) => r == Ok::<u64, MdfError>(to) && final(self)@.sink == v,
                None => r == Err::<u64, MdfError>(MdfError::Io(SinkError::InvalidSeek)) && final(self)@.sink == old(self)@.sink,
            },
    {
        match self {
            WriterTarget::Memory(s) => s.seek(SeekFrom::Start(to)),
            WriterTarget::File { path: _, capacity: _, sink } => sink.seek(SeekFrom::Start(to)),
            WriterTarget::Mapped { path: _, map } => map.seek(SeekFrom::Start(to)),
        }
    }

    fn flush(&mut self) -> (r: Result<(), MdfError>)
        ensures
            r == Ok::<(), MdfError>(()),
            final(self)@ == old(self)@,
    {
        match self {
            WriterTarget::Memory(s) => s.flush(),
            WriterTarget::File { path: _, capacity: _, sink } => sink.flush(),
            WriterTarget::Mapped { path: _, map } => map.flush(),
        }
    }
}

/// Abstract state of a writer: its sink, destination, logical offset (where
/// the next block goes, before alignment) and the positions of named blocks.
pub struct WriterView {
    pub sink: SinkView,
    pub dest: Dest,
    pub offset: u64,
    pub positions: Map<Seq<char>, u64>,
}

/// `n` zero bytes.
pub open spec fn zeros(n: int) -> Seq<u8> {
    Seq::new(n as nat, |i: int| 0u8)
}

/// Number of padding bytes that bring `offset` to a multiple of 8.
pub open spec fn align_pad(offset: u64) -> int {
    ((8 - offset % 8) % 8) as int
}

/// The writer with another sink and offset.
pub open spec fn with_sink(v: WriterView, sink: SinkView, offset: u64) -> WriterView {
    WriterView { sink, dest: v.dest, offset, positions: v.positions }
}

/// Outcome of writing a block: zero padding up to the next multiple of 8,
/// then the block; the block's start offset on success. A failed padding
/// write changes nothing; a failed block write leaves the padding written.
pub open spec fn write_block_spec(v: WriterView, block: Seq<u8>) -> (WriterView, Result<u64, MdfError>) {
    let pad = align_pad(v.offset);
    match write_all_spec(v.sink, zeros(pad)) {
        None => (v, Err(MdfError::Io(SinkError::WriteOverflow))),
        Some(s1) => {
            let start = v.offset + pad;
            match write_all_spec(s1, block) {
                None => (with_sink(v, s1, start as u64), Err(MdfError::Io(SinkError::WriteOverflow))),
                Some(s2) => (with_sink(v, s2, (start + block.len()) as u64), Ok(start as u64)),
            }
        },
    }
}

/// Outcome of overwriting the file at `at` with `bytes`: seek there, write,
/// and seek back to the writer's offset. A step that fails ends the update
/// with the sink as the earlier steps left it.
pub open spec fn patch_spec(v: WriterView, at: u64, bytes: Seq<u8>) -> (WriterView, Result<(), MdfError>) {
    match seek_spec(v.sink, SeekFrom::Start(at)) {
        None => (v, Err(MdfError::Io(SinkError::InvalidSeek))),
        Some(s1) => match write_all_spec(s1, bytes) {
            None => (with_sink(v, s1, v.offset), Err(MdfError::Io(SinkError::WriteOverflow))),
            Some(s2) => match seek_spec(s2, SeekFrom::Start(v.offset)) {
                None => (with_sink(v, s2, v.offset), Err(MdfError::Io(SinkError::InvalidSeek))),
                Some(s3) => (with_sink(v, s3, v.offset), Ok(())),
            },
        },
    }
}

/// The sink's cursor is at the writer's offset, as it is after any
/// sequence of successful operations.
pub open spec fn synced(v: WriterView) -> bool {
    &&& v.sink.pos == v.offset
    &&& v.sink.pos <= v.sink.data.len()
    &&& v.sink.fixed ==> v.sink.data.len() <= i64::MAX
}

/// Every block that is written starts on an 8-byte boundary.
pub proof fn lemma_block_start_aligned(v: WriterView, block: Seq<u8>)
    requires
        v.offset + 7 <= u64::MAX,
    ensures
        write_block_spec(v, block).1 matches Ok(start) ==> start % 8 == 0 && v.offset <= start < v.offset + 8,
{
}

/// Writing a block to a synced writer keeps it synced; on success the file
/// then reads back the block at the returned start, zeros between the old
/// offset and the start, and the earlier bytes unchanged.
pub proof fn lemma_write_block_readback(v: WriterView, block: Seq<u8>)
    requires
        synced(v),
        v.offset + 7 + block.len() <= u64::MAX,
    ensures
        ({
            let (w, r) = write_block_spec(v, block);
            &&& r matches Ok(start) ==> {
                &&& synced(w)
                &&& w.offset == start + block.len()
                &&& w.sink.data.len() >= start + block.len()
                &&& w.sink.data.subrange(start as int, start + block.len()) == block
                &&& forall|i: int| v.offset <= i < start ==> #[trigger] w.sink.data[i] == 0u8
                &&& forall|i: int| 0 <= i < v.offset && i < v.sink.data.len() ==> #[trigger] w.sink.data[i] == v.sink.data[i]
            }
            &&& r is Err ==> v.sink.fixed
        }),
{
    let pad = align_pad(v.offset);
    let (w, r) = write_block_spec(v, block);
    if let Ok(start) = r {
        let s1 = write_all_spec(v.sink, zeros(pad)).unwrap();
        let s2 = write_all_spec(s1, block).unwrap();
        assert(s1.pos == v.offset + pad);
        assert(w.sink.data.subrange(start as int, start + block.len()) =~= block);
        assert forall|i: int| v.offset <= i < start implies #[trigger] w.sink.data[i] == 0u8 by {
            assert(s1.data[i] == 0u8);
        }
        assert forall|i: int| 0 <= i < v.offset && i < v.sink.data.len() implies #[trigger] w.sink.data[i] == v.sink.data[i] by {
            assert(s1.data[i] == v.sink.data[i]);
        }
    }
}

/// Patching bytes inside the written part of a synced writer succeeds,
/// keeps it synced and the file's length, and changes exactly those bytes.
pub proof fn lemma_patch_readback(v: WriterView, at: u64, bytes: Seq<u8>)
    requires
        synced(v),
        at + bytes.len() <= v.sink.data.len(),
    ensures
        ({
            let (w, r) = patch_spec(v, at, bytes);
            &&& r == Ok::<(), MdfError>(())
            &&& synced(w)
            &&& w.positions == v.positions
            &&& w.sink.data.len() == v.sink.data.len()
            &&& w.sink.data.subrange(at as int, at + bytes.len()) == bytes
            &&& forall|i: int| 0 <= i < v.sink.data.len() && !(at <= i < at + bytes.len()) ==> #[trigger] w.sink.data[i] == v.sink.data[i]
        }),
{
    let (w, r) = patch_spec(v, at, bytes);
    assert(w.sink.data.subrange(at as int, at + bytes.len()) =~= bytes);
}

/// Outcome of writing a block and recording its position under `id`: the
/// block is written as by `write_block_spec`, and on success `id` then maps
/// to its start (replacing any earlier position of `id`).
pub open spec fn write_block_with_id_spec(v: WriterView, block: Seq<u8>, id: Seq<char>) -> (WriterView, Result<u64, MdfError>) {
    let (w, r) = write_block_spec(v, block);
    match r {
        Ok(start) => (WriterView { sink: w.sink, dest: w.dest, offset: w.offset, positions: v.positions.insert(id, start) }, r),
        Err(_) => (w, r),
    }
}

/// One operation of the writer, as its methods perform it.
pub enum WriterOp {
    WriteBlock(Seq<u8>),
    WriteBlockWithId(Seq<u8>, Seq<char>),
    UpdateLink(u64, u64),
    UpdateBlockLink(Seq<char>, u64, Seq<char>),
    UpdateBlockU32(Seq<char>, u64, u32),
    UpdateBlockU8(Seq<char>, u64, u8),
    UpdateBlockU64(Seq<char>, u64, u64),
}

/// The writer after one operation (an update of an unknown block changes
/// nothing).
pub open spec fn apply_op(v: WriterView, op: WriterOp) -> WriterView {
    match op {
        WriterOp::WriteBlock(b) => write_block_spec(v, b).0,
        WriterOp::WriteBlockWithId(b, id) => write_block_with_id_spec(v, b, id).0,
        WriterOp::UpdateLink(at, address) => patch_spec(v, at, vstd::bytes::spec_u64_to_le_bytes(address)).0,
        WriterOp::UpdateBlockLink(src, off, tgt) => if v.positions.contains_key(src) && v.positions.contains_key(tgt) {
            patch_spec(v, (v.positions[src] + off) as u64, vstd::bytes::spec_u64_to_le_bytes(v.positions[tgt])).0
        } else {
            v
        },
        WriterOp::UpdateBlockU32(id, off, x) => if v.positions.contains_key(id) {
            patch_spec(v, (v.positions[id] + off) as u64, vstd::bytes::spec_u32_to_le_bytes(x)).0
        } else {
            v
        },
        WriterOp::UpdateBlockU8(id, off, x) => if v.positions.contains_key(id) {
            patch_spec(v, (v.positions[id] + off) as u64, seq![x]).0
        } else {
            v
        },
        WriterOp::UpdateBlockU64(id, off, x) => if v.positions.contains_key(id) {
            patch_spec(v, (v.positions[id] + off) as u64, vstd::bytes::spec_u64_to_le_bytes(x)).0
        } else {
            v
        },
    }
}

/// The writer after a sequence of operations.
pub open spec fn run_ops(v: WriterView, ops: Seq<WriterOp>) -> WriterView
    decreases ops.len(),
{
    if ops.len() == 0 {
        v
    } else {
        apply_op(run_ops(v, ops.drop_last()), ops.last())
    }
}

/// The start of the latest successful `WriteBlockWithId` for `id` in `ops`
/// (or the position `id` had before them).
pub open spec fn latest_position(v0: WriterView, ops: Seq<WriterOp>, id: Seq<char>) -> Option<u64>
    decreases ops.len(),
{
    if ops.len() == 0 {
        if v0.positions.contains_key(id) {
            Some(v0.positions[id])
        } else {
            None
        }
    } else {
        let prev = run_ops(v0, ops.drop_last());
        match ops.last() {
            WriterOp::WriteBlockWithId(b, i) => match write_block_spec(prev, b).1 {
                Ok(start) => if i == id {
                    Some(start)
                } else {
                    latest_position(v0, ops.drop_last(), id)
                },
                Err(_) => latest_position(v0, ops.drop_last(), id),
            },
            _ => latest_position(v0, ops.drop_last(), id),
        }
    }
}

/// After any sequence of operations, a block id is known exactly when some
/// `write_block_with_id` for it succeeded, and its position is the start of
/// the latest such block; the other operations never change positions.
pub proof fn lemma_positions_are_latest(v0: WriterView, ops: Seq<WriterOp>, id: Seq<char>)
    ensures
        match latest_position(v0, ops, id) {
            Some(p) => run_ops(v0, ops).positions.contains_key(id) && run_ops(v0, ops).positions[id] == p,
            None => !run_ops(v0, ops).positions.contains_key(id),
        },
    decreases ops.len(),
{
    if ops.len() > 0 {
        lemma_positions_are_latest(v0, ops.drop_last(), id);
    }
}

/// An in-memory writer whose cursor and offset are at the end of what it
/// has written.
pub open spec fn tight(v: WriterView) -> bool {
    &&& !v.sink.fixed
    &&& v.sink.pos == v.offset
    &&& v.offset == v.sink.data.len()
}

/// The operation stays within the machine's limits and patches only bytes
/// already written.
pub open spec fn op_in_range(v: WriterView, op: WriterOp) -> bool {
    match op {
        WriterOp::WriteBlock(b) => v.offset + 7 + b.len() <= u64::MAX,
        WriterOp::WriteBlockWithId(b, _) => v.offset + 7 + b.len() <= u64::MAX,
        WriterOp::UpdateLink(at, _) => at + 8 <= v.sink.data.len(),
        WriterOp::UpdateBlockLink(src, off, tgt) => v.positions.contains_key(src) && v.positions.contains_key(tgt)
            ==> v.positions[src] + off + 8 <= v.sink.data.len(),
        WriterOp::UpdateBlockU32(id, off, _) => v.positions.contains_key(id) ==> v.positions[id] + off + 4 <= v.sink.data.len(),
        WriterOp::UpdateBlockU8(id, off, _) => v.positions.contains_key(id) ==> v.positions[id] + off + 1 <= v.sink.data.len(),
        WriterOp::UpdateBlockU64(id, off, _) => v.positions.contains_key(id) ==> v.positions[id] + off + 8 <= v.sink.data.len(),
    }
}

/// Every operation of the sequence is in range in the state it meets.
pub open spec fn ops_in_range(v0: WriterView, ops: Seq<WriterOp>) -> bool
    decreases ops.len(),
{
    ops.len() == 0 || (ops_in_range(v0, ops.drop_last()) && op_in_range(run_ops(v0, ops.drop_last()), ops.last()))
}

proof fn lemma_tight_patch(v: WriterView, at: u64, bytes: Seq<u8>)
    requires
        tight(v),
        at + bytes.len() <= v.sink.data.len(),
    ensures
        tight(patch_spec(v, at, bytes).0),
{
}

/// An in-memory writer stays tight under one in-range operation.
pub proof fn lemma_tight_step(v: WriterView, op: WriterOp)
    requires
        tight(v),
        op_in_range(v, op),
    ensures
        tight(apply_op(v, op)),
{
    match op {
        WriterOp::UpdateLink(at, a) => {
            vstd::bytes::lemma_auto_spec_u64_to_from_le_bytes();
            lemma_tight_patch(v, at, vstd::bytes::spec_u64_to_le_bytes(a));
        },
        WriterOp::UpdateBlockLink(src, off, tgt) => {
            vstd::bytes::lemma_auto_spec_u64_to_from_le_bytes();
            if v.positions.contains_key(src) && v.positions.contains_key(tgt) {
                lemma_tight_patch(v, (v.positions[src] + off) as u64, vstd::bytes::spec_u64_to_le_bytes(v.positions[tgt]));
            }
        },
        WriterOp::UpdateBlockU32(id, off, x) => {
            vstd::bytes::lemma_auto_spec_u32_to_from_le_bytes();
            if v.positions.contains_key(id) {
                lemma_tight_patch(v, (v.positions[id] + off) as u64, vstd::bytes::spec_u32_to_le_bytes(x));
            }
        },
        WriterOp::UpdateBlockU8(id, off, x) => {
            if v.positions.contains_key(id) {
                lemma_tight_patch(v, (v.positions[id] + off) as u64, seq![x]);
            }
        },
        WriterOp::UpdateBlockU64(id, off, x) => {
            vstd::bytes::lemma_auto_spec_u64_to_from_le_bytes();
            if v.positions.contains_key(id) {
                lemma_tight_patch(v, (v.positions[id] + off) as u64, vstd::bytes::spec_u64_to_le_bytes(x));
            }
        },
        _ => {},
    }
}

/// For an in-memory writer (such as one over `InMemorySink::new()`), the
/// offset is the length of the file written so far after any sequence of
/// in-range operations.
pub proof fn lemma_offset_is_written_length(v0: WriterView, ops: Seq<WriterOp>)
    requires
        tight(v0),
        ops_in_range(v0, ops),
    ensures
        tight(run_ops(v0, ops)),
        run_ops(v0, ops).offset == run_ops(v0, ops).sink.data.len(),
    decreases ops.len(),
{
    if ops.len() > 0 {
        lemma_offset_is_written_length(v0, ops.drop_last());
        lemma_tight_step(run_ops(v0, ops.drop_last()), ops.last());
    }
}

/// Writer for MDF blocks, ensuring 8-byte alignment and zero padding.
/// Tracks block positions and supports updating links at a later stage.
pub struct MdfWriter {
    file: WriterTarget,
    offset: u64,
    block_positions: StringHashMap<u64>,
}

impl View for MdfWriter {
    type V = WriterView;

    closed spec fn view(&self) -> WriterView {
        WriterView {
            sink: self.file@.sink,
            dest: self.file@.dest,
            offset: self.offset,
            positions: self.block_positions@,
        }
    }
}

impl MdfWriter {
    /// The sink grows exactly when the destination is not a mapped file.
    pub closed spec fn wf(&self) -> bool {
        target_consistent(self.file@)
    }

    /// A well-formed writer's sink has a fixed length exactly when its
    /// destination is a mapped file.
    pub proof fn lemma_wf(&self)
        requires
            self.wf(),
        ensures
            self@.sink.fixed <==> self@.dest is Mapped,
    {
    }

    /// Creates a new writer over an in-memory sink.
    pub fn new_from_writer(w: InMemorySink) -> (s: Self)
        ensures
            s.wf(),
            s@ == (WriterView { sink: w@, dest: Dest::Memory, offset: 0, positions: Map::empty() }),
    {
        proof {
            w.lemma_grows();
        }
        MdfWriter { file: WriterTarget::Memory(w), offset: 0, block_positions: StringHashMap::new() }
    }

    /// Creates a new writer for a file to be created at `path`, written
    /// through a 1 MB buffer.
    pub fn new(path: &str) -> (r: Result<Self, MdfError>)
        ensures
            r matches Ok(s) && s.wf() && s@ == (WriterView {
                sink: SinkView { data: Seq::empty(), pos: 0, fixed: false },
                dest: Dest::File { path: path@, capacity: 1_048_576 },
                offset: 0,
                positions: Map::empty(),
            }),
    {
        Self::new_with_capacity(path, 1_048_576)
    }

    /// Creates a new writer for a file to be created at `path`, written
    /// through a buffer of `capacity` bytes.
    pub fn new_with_capacity(path: &str, capacity: usize) -> (r: Result<Self, MdfError>)
        ensures
            r matches Ok(s) && s.wf() && s@ == (WriterView {
                sink: SinkView { data: Seq::empty(), pos: 0, fixed: false },
                dest: Dest::File { path: path@, capacity },
                offset: 0,
                positions: Map::empty(),
            }),
    {
        let sink = InMemorySink::new();
        proof {
            sink.lemma_grows();
        }
        Ok(MdfWriter {
            file: WriterTarget::File { path: path.to_owned(), capacity, sink },
            offset: 0,
            block_positions: StringHashMap::new(),
        })
    }

    /// Creates a new writer over a memory-mapped file at `path` whose
    /// current contents are `mapped` (its length is the file's size).
    pub fn new_mmap(path: &str, mapped: Vec<u8>) -> (r: Result<Self, MdfError>)
        ensures
            r matches Ok(s) && s.wf() && s@ == (WriterView {
                sink: SinkView { data: mapped@, pos: 0, fixed: true },
                dest: Dest::Mapped { path: path@ },
                offset: 0,
                positions: Map::empty(),
            }),
    {
        let map = MmapWriter::new(mapped);
        proof {
            map.lemma_fixed();
        }
        Ok(MdfWriter {
            file: WriterTarget::Mapped { path: path.to_owned(), map },
            offset: 0,
            block_positions: StringHashMap::new(),
        })
    }

    /// Writes a block, aligning to 8 bytes and zero-padding as needed.
    /// Returns the starting offset of the block.
    pub fn write_block(&mut self, block_bytes: &[u8]) -> (r: Result<u64, MdfError>)
        requires
            old(self).wf(),
            old(self)@.offset + 7 + block_bytes@.len() <= u64::MAX,
            old(self)@.sink.pos + 7 + block_bytes@.len() <= usize::MAX,
        ensures
            final(self).wf(),
            (final(self)@, r) == write_block_spec(old(self)@, block_bytes@),
            final(self)@ == apply_op(old(self)@, WriterOp::WriteBlock(block_bytes@)),
    {
        let align = (8 - (self.offset % 8)) % 8;
        let ghost v0 = self@;
        let padding = vec![0u8; align as usize];
        proof {
            assert(padding@ =~= zeros(align_pad(v0.offset)));
        }
        match self.file.write_all(padding.as_slice()) {
            Ok(()) => {},
            Err(e) => {
                return Err(e);
            },
        }
        self.offset = self.offset + align;
        proof {
            assert(self@.sink.pos <= v0.sink.pos + 7);
        }
        match self.file.write_all(block_bytes) {
            Ok(()) => {},
            Err(e) => {
                return Err(e);
            },
        }
        let block_start = self.offset;
        self.offset = self.offset + block_bytes.len() as u64;
        Ok(block_start)
    }

    /// Writes a block and records its position under `block_id`.
    pub fn write_block_with_id(&mut self, block_bytes: &[u8], block_id: &str) -> (r: Result<u64, MdfError>)
        requires
            old(self).wf(),
            old(self)@.offset + 7 + block_bytes@.len() <= u64::MAX,
            old(self)@.sink.pos + 7 + block_bytes@.len() <= usize::MAX,
        ensures
            final(self).wf(),
            (final(self)@, r) == write_block_with_id_spec(old(self)@, block_bytes@, block_id@),
            final(self)@ == apply_op(old(self)@, WriterOp::WriteBlockWithId(block_bytes@, block_id@)),
    {
        let block_start = match self.write_block(block_bytes) {
            Ok(p) => p,
            Err(e) => {
                return Err(e);
            },
        };
        self.block_positions.insert(block_id.to_owned(), block_start);
        Ok(block_start)
    }

    /// Retrieves the position of a previously written block.
    pub fn get_block_position(&self, block_id: &str) -> (r: Option<u64>)
        ensures
            match r {
                Some(p) => self@.positions.contains_key(block_id@) && p == self@.positions[block_id@],
                None => !self@.positions.contains_key(block_id@),
            },
    {
        match self.block_positions.get(block_id) {
            Some(p) => Some(*p),
            None => None,
        }
    }

    /// Overwrite the file at `at` with `bytes`, then return the cursor to
    /// the writer's offset.
    fn patch(&mut self, at: u64, bytes: &[u8]) -> (r: Result<(), MdfError>)
        requires
            old(self).wf(),
            at + bytes@.len() <= usize::MAX,
        ensures
            final(self).wf(),
            (final(self)@, r) == patch_spec(old(self)@, at, bytes@),
    {
        let current_pos = self.offset;
        match self.file.seek_start(at) {
            Ok(_) => {},
            Err(e) => {
                return Err(e);
            },
        }
        match self.file.write_all(bytes) {
            Ok(()) => {},
            Err(e) => {
                return Err(e);
            },
        }
        match self.file.seek_start(current_pos) {
            Ok(_) => {},
            Err(e) => {
                return Err(e);
            },
        }
        Ok(())
    }

    /// Updates a link (u64 address, little endian) at a specific offset in
    /// the file.
    pub fn update_link(&mut self, offset: u64, address: u64) -> (r: Result<(), MdfError>)
        requires
            old(self).wf(),
            offset + 8 <= usize::MAX,
        ensures
            final(self).wf(),
            (final(self)@, r) == patch_spec(old(self)@, offset, vstd::bytes::spec_u64_to_le_bytes(address)),
            final(self)@ == apply_op(old(self)@, WriterOp::UpdateLink(offset, address)),
    {
        let bytes = u64_le_bytes(address);
        proof {
            vstd::bytes::lemma_auto_spec_u64_to_from_le_bytes();
        }
        self.patch(offset, bytes.as_slice())
    }

    /// Updates a link using block IDs instead of raw offsets: the link field
    /// at `link_offset` in the source block is set to the target block's
    /// position.
    pub fn update_block_link(&mut self, source_id: &str, link_offset: u64, target_id: &str) -> (r: Result<(), MdfError>)
        requires
            old(self).wf(),
            old(self)@.positions.contains_key(source_id@) && old(self)@.positions.contains_key(target_id@)
                ==> old(self)@.positions[source_id@] + link_offset + 8 <= usize::MAX,
        ensures
            final(self).wf(),
            !old(self)@.positions.contains_key(source_id@) ==> final(self)@ == old(self)@
                && (r matches Err(MdfError::SourceBlockNotFound(s)) && s@ == source_id@),
            old(self)@.positions.contains_key(source_id@) && !old(self)@.positions.contains_key(target_id@)
                ==> final(self)@ == old(self)@ && (r matches Err(MdfError::TargetBlockNotFound(t)) && t@ == target_id@),
            old(self)@.positions.contains_key(source_id@) && old(self)@.positions.contains_key(target_id@)
                ==> (final(self)@, r) == patch_spec(
                    old(self)@,
                    (old(self)@.positions[source_id@] + link_offset) as u64,
                    vstd::bytes::spec_u64_to_le_bytes(old(self)@.positions[target_id@]),
                ),
            final(self)@ == apply_op(old(self)@, WriterOp::UpdateBlockLink(source_id@, link_offset, target_id@)),
    {
        let source_pos = match self.get_block_position(source_id) {
            Some(p) => p,
            None => {
                return Err(MdfError::SourceBlockNotFound(source_id.to_owned()));
            },
        };
        let target_pos = match self.get_block_position(target_id) {
            Some(p) => p,
            None => {
                return Err(MdfError::TargetBlockNotFound(target_id.to_owned()));
            },
        };
        let link_pos = source_pos + link_offset;
        self.update_link(link_pos, target_pos)
    }

    /// Overwrite a little-endian `u32` at `offset`.
    fn update_u32(&mut self, offset: u64, value: u32) -> (r: Result<(), MdfError>)
        requires
            old(self).wf(),
            offset + 4 <= usize::MAX,
        ensures
            final(self).wf(),
            (final(self)@, r) == patch_spec(old(self)@, offset, vstd::bytes::spec_u32_to_le_bytes(value)),
    {
        let bytes = u32_le_bytes(value);
        proof {
            vstd::bytes::lemma_auto_spec_u32_to_from_le_bytes();
        }
        self.patch(offset, bytes.as_slice())
    }

    /// Overwrite a little-endian `u64` at `offset`.
    fn update_u64(&mut self, offset: u64, value: u64) -> (r: Result<(), MdfError>)
        requires
            old(self).wf(),
            offset + 8 <= usize::MAX,
        ensures
            final(self).wf(),
            (final(self)@, r) == patch_spec(old(self)@, offset, vstd::bytes::spec_u64_to_le_bytes(value)),
    {
        let bytes = u64_le_bytes(value);
        proof {
            vstd::bytes::lemma_auto_spec_u64_to_from_le_bytes();
        }
        self.patch(offset, bytes.as_slice())
    }

    /// Overwrite one byte at `offset`.
    fn update_u8(&mut self, offset: u64, value: u8) -> (r: Result<(), MdfError>)
        requires
            old(self).wf(),
            offset + 1 <= usize::MAX,
        ensures
            final(self).wf(),
            (final(self)@, r) == patch_spec(old(self)@, offset, seq![value]),
    {
        let bytes = vec![value];
        proof {
            assert(bytes@ =~= seq![value]);
        }
        self.patch(offset, bytes.as_slice())
    }

    /// Overwrite a little-endian `u32` field of the block `block_id`.
    pub fn update_block_u32(&mut self, block_id: &str, field_offset: u64, value: u32) -> (r: Result<(), MdfError>)
        requires
            old(self).wf(),
            old(self)@.positions.contains_key(block_id@) ==> old(self)@.positions[block_id@] + field_offset + 4 <= usize::MAX,
        ensures
            final(self).wf(),
            !old(self)@.positions.contains_key(block_id@) ==> final(self)@ == old(self)@
                && (r matches Err(MdfError::BlockNotFound(s)) && s@ == block_id@),
            old(self)@.positions.contains_key(block_id@) ==> (final(self)@, r) == patch_spec(
                old(self)@,
                (old(self)@.positions[block_id@] + field_offset) as u64,
                vstd::bytes::spec_u32_to_le_bytes(value),
            ),
            final(self)@ == apply_op(old(self)@, WriterOp::UpdateBlockU32(block_id@, field_offset, value)),
    {
        let block_pos = match self.get_block_position(block_id) {
            Some(p) => p,
            None => {
                return Err(MdfError::BlockNotFound(block_id.to_owned()));
            },
        };
        self.update_u32(block_pos + field_offset, value)
    }

    /// Overwrite a one-byte field of the block `block_id`.
    pub fn update_block_u8(&mut self, block_id: &str, field_offset: u64, value: u8) -> (r: Result<(), MdfError>)
        requires
            old(self).wf(),
            old(self)@.positions.contains_key(block_id@) ==> old(self)@.positions[block_id@] + field_offset + 1 <= usize::MAX,
        ensures
            final(self).wf(),
            !old(self)@.positions.contains_key(block_id@) ==> final(self)@ == old(self)@
                && (r matches Err(MdfError::BlockNotFound(s)) && s@ == block_id@),
            old(self)@.positions.contains_key(block_id@) ==> (final(self)@, r) == patch_spec(
                old(self)@,
                (old(self)@.positions[block_id@] + field_offset) as u64,
                seq![value],
            ),
            final(self)@ == apply_op(old(self)@, WriterOp::UpdateBlockU8(block_id@, field_offset, value)),
    {
        let block_pos = match self.get_block_position(block_id) {
            Some(p) => p,
            None => {
                return Err(MdfError::BlockNotFound(block_id.to_owned()));
            },
        };
        self.update_u8(block_pos + field_offset, value)
    }

    /// Overwrite a little-endian `u64` field of the block `block_id`.
    pub fn update_block_u64(&mut self, block_id: &str, field_offset: u64, value: u64) -> (r: Result<(), MdfError>)
        requires
            old(self).wf(),
            old(self)@.positions.contains_key(block_id@) ==> old(self)@.positions[block_id@] + field_offset + 8 <= usize::MAX,
        ensures
            final(self).wf(),
            !old(self)@.positions.contains_key(block_id@) ==> final(self)@ == old(self)@
                && (r matches Err(MdfError::BlockNotFound(s)) && s@ == block_id@),
            old(self)@.positions.contains_key(block_id@) ==> (final(self)@, r) == patch_spec(
                old(self)@,
                (old(self)@.positions[block_id@] + field_offset) as u64,
                vstd::bytes::spec_u64_to_le_bytes(value),
            ),
            final(self)@ == apply_op(old(self)@, WriterOp::UpdateBlockU64(block_id@, field_offset, value)),
    {
        let block_pos = match self.get_block_position(block_id) {
            Some(p) => p,
            None => {
                return Err(MdfError::BlockNotFound(block_id.to_owned()));
            },
        };
        self.update_u64(block_pos + field_offset, value)
    }

    /// Returns the current file offset (for block address calculation).
    pub fn offset(&self) -> (r: u64)
        ensures
            r == self@.offset,
    {
        self.offset
    }

    /// Finalizes the writer: flushes, and hands back the target with the
    /// finished image for its destination.
    pub fn finalize(self) -> (r: Result<WriterTarget, MdfError>)
        ensures
            r matches Ok(t) && t@.sink == self@.sink && t@.dest == self@.dest,
    {
        let mut file = self.file;
        match file.flush() {
            Ok(()) => {},
            Err(e) => {
                return Err(e);
            },
        }
        Ok(file)
    }
}

} // verus!

//! Output sinks for the writer: a growable in-memory image with a cursor
//! (the semantics of a file or of `Cursor<Vec<u8>>`), and a fixed-size image
//! (the semantics of a memory-mapped file of a given length).

use vstd::prelude::*;
use crate::error::{MdfError, SinkError};

verus! {

/// Abstract state of a sink: its bytes, its cursor, and whether its length
/// is fixed.
pub struct SinkView {
    pub data: Seq<u8>,
    pub pos: int,
    pub fixed: bool,
}

/// `data` after writing `bytes` at `pos`: bytes past the old end up to
/// `pos` read as zero, the written bytes replace what was there, the rest is
/// kept.
pub open spec fn overwrite(data: Seq<u8>, pos: int, bytes: Seq<u8>) -> Seq<u8> {
    let len = if data.len() >= pos + bytes.len() { data.len() as int } else { pos + bytes.len() };
    Seq::new(
        len as nat,
        |i: int|
            if pos <= i < pos + bytes.len() {
                bytes[i - pos]
            } else if i < data.len() {
                data[i]
            } else {
                0u8
            },
    )
}

/// Outcome of writing all of `bytes` at the cursor: `None` when a fixed-size
/// sink has no room for them. An empty write changes nothing.
pub open spec fn write_all_spec(v: SinkView, bytes: Seq<u8>) -> Option<SinkView> {
    if bytes.len() == 0 {
        Some(v)
    } else if v.fixed && v.pos + bytes.len() > v.data.len() {
        None
    } else {
        Some(SinkView { data: overwrite(v.data, v.pos, bytes), pos: v.pos + bytes.len(), fixed: v.fixed })
    }
}

/// Where a seek goes.
#[derive(Debug, Clone, Copy, PartialEq, Eq)]
pub enum SeekFrom {
    Start(u64),
    End(i64),
    Current(i64),
}

/// Target position of a seek, before it is checked.
pub open spec fn seek_target(v: SinkView, to: SeekFrom) -> int {
    match to {
        SeekFrom::Start(x) => x as int,
        SeekFrom::End(x) => v.data.len() + x,
        SeekFrom::Current(x) => v.pos + x,
    }
}

/// Outcome of a seek: `None` when the target is negative, beyond `u64`, or
/// (for a fixed-size sink) beyond its end or beyond `i64::MAX`.
pub open spec fn seek_spec(v: SinkView, to: SeekFrom) -> Option<SinkView> {
    let t = seek_target(v, to);
    if t < 0 || t > u64::MAX {
        None
    } else if v.fixed && (t > v.data.len() || (to is Start && t > i64::MAX)) {
        None
    } else {
        Some(SinkView { data: v.data, pos: t, fixed: v.fixed })
    }
}

/// A growable in-memory sink with a cursor, as `Cursor<Vec<u8>>` behaves.
pub struct InMemorySink {
    data: Vec<u8>,
    pos: u64,
}

impl View for InMemorySink {
    type V = SinkView;

    closed spec fn view(&self) -> SinkView {
        SinkView { data: self.data@, pos: self.pos as int, fixed: false }
    }
}

impl InMemorySink {
    /// An in-memory sink grows as it is written.
    pub proof fn lemma_grows(&self)
        ensures
            !self@.fixed,
    {
    }

    /// Create an empty in-memory sink.
    pub fn new() -> (s: Self)
        ensures
            s@ == (SinkView { data: Seq::empty(), pos: 0, fixed: false }),
    {
        InMemorySink { data: Vec::new(), pos: 0 }
    }

    /// Copy out the bytes written so far.
    pub fn to_vec(&self) -> (v: Vec<u8>)
        ensures
            v@ == self@.data,
    {
        self.data.clone()
    }

    /// Write `buf` at the cursor (zero-filling any hole before it) and
    /// advance the cursor; returns the number of bytes written.
    pub fn write(&mut self, buf: &[u8]) -> (r: Result<usize, MdfError>)
        requires
            old(self)@.pos + buf@.len() <= usize::MAX,
        ensures
            r == Ok::<usize, MdfError>(buf@.len() as usize),
            final(self)@ == (SinkView {
                data: overwrite(old(self)@.data, old(self)@.pos, buf@),
                pos: old(self)@.pos + buf@.len(),
                fixed: false,
            }),
    {
        let p = self.pos as usize;
        let ghost d0 = self.data@;
        while self.data.len() < p
            invariant
                p == self.pos,
                d0 == old(self).data@,
                self.pos == old(self).pos,
                d0.len() <= self.data@.len() <= p || (d0.len() > p && self.data@ == d0),
                forall|i: int| 0 <= i < self.data@.len() ==> #[trigger] self.data@[i] == if i < d0.len() {
                    d0[i]
                } else {
                    0u8
                },
            decreases p - self.data.len(),
        {
            self.data.push(0u8);
        }
        let ghost d1 = self.data@;
        let n = buf.len();
        let mut i: usize = 0;
        while i < n
            invariant
                n == buf@.len(),
                p + n <= usize::MAX,
                p == old(self).pos,
                self.pos == old(self).pos,
                0 <= i <= n,
                d1.len() >= p,
                self.data@.len() == if d1.len() >= p + i { d1.len() as int } else { p + i },
                forall|j: int| 0 <= j < self.data@.len() ==> #[trigger] self.data@[j] == if p <= j < p + i {
                    buf@[j - p]
                } else {
                    d1[j]
                },
            decreases n - i,
        {
            if p + i < self.data.len() {
                self.data.set(p + i, buf[i]);
            } else {
                self.data.push(buf[i]);
            }
            i = i + 1;
        }
        self.pos = self.pos + n as u64;
        proof {
            assert forall|j: int| 0 <= j < self.data@.len() implies #[trigger] self.data@[j] == overwrite(d0, p as int, buf@)[j] by {
                if !(p <= j < p + n) {
                    assert(self.data@[j] == d1[j]);
                }
            }
            assert(self.data@ =~= overwrite(d0, p as int, buf@));
        }
        Ok(n)
    }

    /// Write all of `buf`; an empty buffer changes nothing.
    pub fn write_all(&mut self, buf: &[u8]) -> (r: Result<(), MdfError>)
        requires
            old(self)@.pos + buf@.len() <= usize::MAX,
        ensures
            r == Ok::<(), MdfError>(()),
            Some(final(self)@) == write_all_spec(old(self)@, buf@),
    {
        if buf.len() == 0 {
            return Ok(());
        }
        let _ = self.write(buf);
        Ok(())
    }

    /// Nothing is buffered; always succeeds.
    pub fn flush(&mut self) -> (r: Result<(), MdfError>)
        ensures
            r == Ok::<(), MdfError>(()),
            final(self)@ == old(self)@,
    {
        Ok(())
    }

    /// Move the cursor; fails on a negative or overflowing target.
    pub fn seek(&mut self, to: SeekFrom) -> (r: Result<u64, MdfError>)
        ensures
            match seek_spec(old(self)@, to) {
                Some(v) => r == Ok::<u64, MdfError>(v.pos as u64) && final(self)@ == v,
                None => r == Err::<u64, MdfError>(MdfError::Io(SinkError::InvalidSeek)) && final(self)@ == old(self)@,
            },
    {
        let target: Option<u64> = match to {
            SeekFrom::Start(x) => Some(x),
            SeekFrom::End(x) => add_signed(self.data.len() as u64, x),
            SeekFrom::Current(x) => add_signed(self.pos, x),
        };
        match target {
            Some(t) => {
                self.pos = t;
                Ok(t)
            },
            None => Err(MdfError::Io(SinkError::InvalidSeek)),
        }
    }
}

/// `base + delta` when it lies within `u64`.
fn add_signed(base: u64, delta: i64) -> (r: Option<u64>)
    ensures
        0 <= base + delta <= u64::MAX ==> r == Some((base + delta) as u64),
        !(0 <= base + delta <= u64::MAX) ==> r is None,
{
    if delta >= 0 {
        base.checked_add(delta as u64)
    } else {
        let m: u64 = if delta == i64::MIN { 0x8000_0000_0000_0000u64 } else { (-delta) as u64 };
        if m > base {
            None
        } else {
            Some(base - m)
        }
    }
}

/// A fixed-size sink, as a memory-mapped file of a given length behaves:
/// writes past the end fail, and so do seeks past the end.
pub struct MmapWriter {
    mmap: Vec<u8>,
    pos: usize,
}

impl View for MmapWriter {
    type V = SinkView;

    closed spec fn view(&self) -> SinkView {
        SinkView { data: self.mmap@, pos: self.pos as int, fixed: true }
    }
}

impl MmapWriter {
    /// A mapped sink has a fixed length.
    pub proof fn lemma_fixed(&self)
        ensures
            self@.fixed,
    {
    }

    /// A fixed-size sink over the bytes `mapped` (the current contents of
    /// the mapped file), with the cursor at the start.
    pub fn new(mapped: Vec<u8>) -> (s: Self)
        ensures
            s@ == (SinkView { data: mapped@, pos: 0, fixed: true }),
    {
        MmapWriter { mmap: mapped, pos: 0 }
    }

    /// The current contents.
    pub fn to_vec(&self) -> (v: Vec<u8>)
        ensures
            v@ == self@.data,
    {
        self.mmap.clone()
    }

    /// Write `buf` at the cursor if it fits before the end; otherwise fail
    /// and change nothing.
    pub fn write(&mut self, buf: &[u8]) -> (r: Result<usize, MdfError>)
        requires
            old(self)@.pos + buf@.len() <= usize::MAX,
        ensures
            old(self)@.pos + buf@.len() > old(self)@.data.len() ==> r == Err::<usize, MdfError>(
                MdfError::Io(SinkError::WriteOverflow)) && final(self)@ == old(self)@,
            old(self)@.pos + buf@.len() <= old(self)@.data.len() ==> r == Ok::<usize, MdfError>(buf@.len() as usize)
                && final(self)@ == (SinkView {
                    data: overwrite(old(self)@.data, old(self)@.pos, buf@),
                    pos: old(self)@.pos + buf@.len(),
                    fixed: true,
                }),
    {
        let end = self.pos + buf.len();
        if end > self.mmap.len() {
            return Err(MdfError::Io(SinkError::WriteOverflow));
        }
        let ghost d0 = self.mmap@;
        let p = self.pos;
        let n = buf.len();
        let mut i: usize = 0;
        while i < n
            invariant
                n == buf@.len(),
                p + n <= d0.len(),
                p + n <= usize::MAX,
                self.mmap@.len() == d0.len(),
                0 <= i <= n,
                forall|j: int| 0 <= j < d0.len() ==> #[trigger] self.mmap@[j] == if p <= j < p + i {
                    buf@[j - p]
                } else {
                    d0[j]
                },
            decreases n - i,
        {
            self.mmap.set(p + i, buf[i]);
            i = i + 1;
        }
        self.pos = end;
        proof {
            assert(self.mmap@ =~= overwrite(d0, p as int, buf@));
        }
        Ok(n)
    }

    /// Write all of `buf`; an empty buffer changes nothing.
    pub fn write_all(&mut self, buf: &[u8]) -> (r: Result<(), MdfError>)
        requires
            old(self)@.pos + buf@.len() <= usize::MAX,
        ensures
            match write_all_spec(old(self)@, buf@) {
                Some(v) => r == Ok::<(), MdfError>(()) && final(self)@ == v,
                None => r == Err::<(), MdfError>(MdfError::Io(SinkError::WriteOverflow)) && final(self)@ == old(self)@,
            },
    {
        if buf.len() == 0 {
            return Ok(());
        }
        match self.write(buf) {
            Ok(_) => Ok(()),
            Err(e) => Err(e),
        }
    }

    /// The image is flushed by whoever owns the mapping; always succeeds.
    pub fn flush(&mut self) -> (r: Result<(), MdfError>)
        ensures
            r == Ok::<(), MdfError>(()),
            final(self)@ == old(self)@,
    {
        Ok(())
    }

    /// Move the cursor; fails on a target before the start or past the end.
    pub fn seek(&mut self, to: SeekFrom) -> (r: Result<u64, MdfError>)
        requires
            to matches SeekFrom::End(x) ==> old(self)@.data.len() <= i64::MAX
                && i64::MIN <= old(self)@.data.len() + x <= i64::MAX,
            to matches SeekFrom::Current(x) ==> old(self)@.pos <= i64::MAX
                && i64::MIN <= old(self)@.pos + x <= i64::MAX,
        ensures
            match seek_spec(old(self)@, to) {
                Some(v) => r == Ok::<u64, MdfError>(v.pos as u64) && final(self)@ == v,
                None => r == Err::<u64, MdfError>(MdfError::Io(SinkError::InvalidSeek)) && final(self)@ == old(self)@,
            },
    {
        let new_pos: i64 = match to {
            SeekFrom::Start(x) => {
                if x > i64::MAX as u64 {
                    return Err(MdfError::Io(SinkError::InvalidSeek));
                }
                x as i64
            },
            SeekFrom::End(x) => self.mmap.len() as i64 + x,
            SeekFrom::Current(x) => self.pos as i64 + x,
        };
        if new_pos < 0 || new_pos as u64 > self.mmap.len() as u64 {
            return Err(MdfError::Io(SinkError::InvalidSeek));
        }
        self.pos = new_pos as usize;
        Ok(self.pos as u64)
    }
}

} // verus!

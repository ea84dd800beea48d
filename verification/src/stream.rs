use vstd::prelude::*;

verus! {

/// What a positioned write leaves in a stream: the bytes before the cursor,
/// zero padding if the cursor lay past the end, the written bytes, and
/// whatever of the old contents lies beyond the written range.
pub open spec fn write_at(data: Seq<u8>, pos: int, buf: Seq<u8>) -> Seq<u8> {
    let padded = if pos <= data.len() {
        data
    } else {
        data + Seq::new((pos - data.len()) as nat, |i: int| 0u8)
    };
    let end = pos + buf.len();
    if end <= padded.len() {
        padded.subrange(0, pos) + buf + padded.subrange(end, padded.len() as int)
    } else {
        padded.subrange(0, pos) + buf
    }
}

/// A byte stream for reading that tracks its own cursor, so record offsets
/// can be computed from positions before and after each decode.
pub struct ReaderPos {
    data: Vec<u8>,
    pos: u64,
}

impl ReaderPos {
    /// The bytes the stream holds.
    pub closed spec fn data_spec(&self) -> Seq<u8> {
        self.data@
    }

    /// The cursor. It may point past the end; reads there return nothing.
    pub closed spec fn pos_spec(&self) -> u64 {
        self.pos
    }

    /// Wraps a byte buffer, with the cursor at the start.
    pub fn new(data: Vec<u8>) -> (r: ReaderPos)
        ensures
            r.data_spec() == data@,
            r.pos_spec() == 0,
    {
        ReaderPos { data, pos: 0 }
    }

    /// Gives the underlying bytes back.
    pub fn into_inner(self) -> (r: Vec<u8>)
        ensures
            r@ == self.data_spec(),
    {
        self.data
    }

    /// The underlying bytes, borrowed.
    pub fn data(&self) -> (r: &Vec<u8>)
        ensures
            r@ == self.data_spec(),
    {
        &self.data
    }

    /// How many bytes the stream holds.
    pub fn len(&self) -> (r: usize)
        ensures
            r == self.data_spec().len(),
    {
        self.data.len()
    }

    /// The current cursor.
    pub fn pos(&self) -> (r: u64)
        ensures
            r == self.pos_spec(),
    {
        self.pos
    }

    /// Moves the cursor to an absolute position and returns it.
    pub fn seek(&mut self, pos: u64) -> (r: u64)
        ensures
            final(self).data_spec() == old(self).data_spec(),
            final(self).pos_spec() == pos,
            r == pos,
    {
        self.pos = pos;
        pos
    }

    /// Reads up to `n` bytes at the cursor and advances the cursor by the
    /// number of bytes actually read (fewer than `n` only at end of stream).
    pub fn read(&mut self, n: usize) -> (r: Vec<u8>)
        ensures
            final(self).data_spec() == old(self).data_spec(),
            r@ == read_range(old(self).data_spec(), old(self).pos_spec() as int, n as int),
            final(self).pos_spec() == old(self).pos_spec() + r@.len(),
    {
        let len = self.data.len();
        if self.pos >= len as u64 {
            Vec::new()
        } else {
            let start: usize = self.pos as usize;
            let end: usize = if n <= len - start {
                start + n
            } else {
                len
            };
            let mut out: Vec<u8> = Vec::new();
            let mut i: usize = start;
            while i < end
                invariant
                    start <= i <= end <= self.data@.len(),
                    out@ == self.data@.subrange(start as int, i as int),
                decreases end - i,
            {
                out.push(self.data[i]);
                i = i + 1;
                proof {
                    assert(out@ =~= self.data@.subrange(start as int, i as int));
                }
            }
            proof {
                assert(out@ =~= read_range(self.data@, start as int, n as int));
            }
            self.pos = end as u64;
            out
        }
    }
}

/// The bytes a positioned read returns: up to `n` bytes starting at `pos`,
/// clipped to the end of the stream.
pub open spec fn read_range(data: Seq<u8>, pos: int, n: int) -> Seq<u8> {
    if pos >= data.len() || pos < 0 || n <= 0 {
        Seq::empty()
    } else if pos + n <= data.len() {
        data.subrange(pos, pos + n)
    } else {
        data.subrange(pos, data.len() as int)
    }
}

/// A byte stream for writing that tracks its own cursor, so a record's
/// `(start, end)` range is the cursor before and after appending it.
pub struct WriterPos {
    data: Vec<u8>,
    pos: u64,
}

impl WriterPos {
    /// The bytes the stream holds.
    pub closed spec fn data_spec(&self) -> Seq<u8> {
        self.data@
    }

    /// The cursor.
    pub closed spec fn pos_spec(&self) -> u64 {
        self.pos
    }

    /// Wraps a byte buffer, with the cursor at the start.
    pub fn new(data: Vec<u8>) -> (r: WriterPos)
        ensures
            r.data_spec() == data@,
            r.pos_spec() == 0,
    {
        WriterPos { data, pos: 0 }
    }

    /// Gives the underlying bytes back.
    pub fn into_inner(self) -> (r: Vec<u8>)
        ensures
            r@ == self.data_spec(),
    {
        self.data
    }

    /// The current cursor.
    pub fn pos(&self) -> (r: u64)
        ensures
            r == self.pos_spec(),
    {
        self.pos
    }

    /// Moves the cursor to an absolute position and returns it.
    pub fn seek(&mut self, pos: u64) -> (r: u64)
        ensures
            final(self).data_spec() == old(self).data_spec(),
            final(self).pos_spec() == pos,
            r == pos,
    {
        self.pos = pos;
        pos
    }

    /// Moves the cursor to the end of the stream and returns it.
    pub fn seek_end(&mut self) -> (r: u64)
        requires
            old(self).data_spec().len() <= u64::MAX,
        ensures
            final(self).data_spec() == old(self).data_spec(),
            final(self).pos_spec() == old(self).data_spec().len(),
            r == final(self).pos_spec(),
    {
        self.pos = self.data.len() as u64;
        self.pos
    }

    /// Writes all of `buf` at the cursor, overwriting what was there,
    /// zero-filling any gap if the cursor lay past the end, and advances the
    /// cursor past the written bytes. Returns the number of bytes written.
    pub fn write(&mut self, buf: &Vec<u8>) -> (r: usize)
        requires
            old(self).pos_spec() <= usize::MAX,
            old(self).pos_spec() + buf@.len() <= usize::MAX,
        ensures
            final(self).data_spec() == write_at(
                old(self).data_spec(),
                old(self).pos_spec() as int,
                buf@,
            ),
            final(self).pos_spec() == old(self).pos_spec() + buf@.len(),
            r == buf@.len(),
    {
        let ghost orig = self.data@;
        let start: usize = self.pos as usize;
        while self.data.len() < start
            invariant
                self.pos == start as u64,
                orig.len() <= self.data@.len(),
                self.data@.len() <= orig.len() || self.data@.len() <= start,
                forall|j: int| 0 <= j < orig.len() ==> self.data@[j] == orig[j],
                forall|j: int| orig.len() <= j < self.data@.len() ==> self.data@[j] == 0u8,
            decreases start - self.data@.len(),
        {
            self.data.push(0u8);
        }
        let ghost padded = self.data@;
        proof {
            if start <= orig.len() {
                assert(padded =~= orig);
            } else {
                assert(padded =~= orig + Seq::new((start - orig.len()) as nat, |i: int| 0u8));
            }
            assert(start <= padded.len());
        }
        let mut i: usize = 0;
        while i < buf.len()
            invariant
                self.pos == start as u64,
                i <= buf@.len(),
                start <= padded.len(),
                start + buf@.len() <= usize::MAX,
                self.data@.len() == if padded.len() >= start + i {
                    padded.len()
                } else {
                    (start + i) as nat
                },
                forall|j: int| 0 <= j < start ==> self.data@[j] == padded[j],
                forall|j: int| 0 <= j < i ==> self.data@[start + j] == buf@[j],
                forall|j: int| start + i <= j < self.data@.len() ==> self.data@[j] == padded[j],
            decreases buf@.len() - i,
        {
            let b = buf[i];
            if start + i < self.data.len() {
                self.data[start + i] = b;
            } else {
                self.data.push(b);
            }
            i = i + 1;
        }
        self.pos = self.pos + buf.len() as u64;
        proof {
            if start + buf@.len() <= padded.len() {
                assert(self.data@ =~= padded.subrange(0, start as int) + buf@ + padded.subrange(
                    start + buf@.len(),
                    padded.len() as int,
                ));
            } else {
                assert(self.data@ =~= padded.subrange(0, start as int) + buf@);
            }
            assert(self.data@ =~= write_at(orig, start as int, buf@));
        }
        buf.len()
    }

    /// Makes the written bytes visible to readers of the same buffer. The
    /// in-memory stream is always current, so this changes nothing.
    pub fn flush(&mut self)
        ensures
            final(self).data_spec() == old(self).data_spec(),
            final(self).pos_spec() == old(self).pos_spec(),
    {
    }
}

} // verus!

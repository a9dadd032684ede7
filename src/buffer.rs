//! Fixed-capacity windows over a byte stream.
//!
//! `Buffer` holds its contents at the front of its storage and grows them
//! toward the back, as a forward search reads the stream. `BufferRev` holds
//! its contents at the back of its storage and grows them toward the front,
//! as a backward search reads the stream from its end.
use vstd::prelude::*;
use vstd::slice::slice_subrange;

verus! {

/// The smallest capacity a window is ever given: 8 KiB.
pub const DEFAULT_BUFFER_CAPACITY: usize = 8 * 1024;

/// The minimum length kept by a window made for `min_buffer_len`.
pub open spec fn window_min_len(min_buffer_len: int) -> int {
    if min_buffer_len > 1 {
        min_buffer_len
    } else {
        1
    }
}

/// The capacity of a window made for `min_buffer_len`: eight times its
/// minimum length, but never below `DEFAULT_BUFFER_CAPACITY`.
pub open spec fn window_capacity(min_buffer_len: int) -> int {
    let m = window_min_len(min_buffer_len);
    if m * 8 > DEFAULT_BUFFER_CAPACITY {
        m * 8
    } else {
        DEFAULT_BUFFER_CAPACITY as int
    }
}

fn capacity_for(min_buffer_len: usize) -> (r: (usize, usize))
    requires
        min_buffer_len <= usize::MAX / 8,
    ensures
        r.0 == window_min_len(min_buffer_len as int),
        r.1 == window_capacity(min_buffer_len as int),
{
    let min: usize = if min_buffer_len > 1 {
        min_buffer_len
    } else {
        1
    };
    let capacity: usize = if min * 8 > DEFAULT_BUFFER_CAPACITY {
        min * 8
    } else {
        DEFAULT_BUFFER_CAPACITY
    };
    (min, capacity)
}

/// A window for searching a stream from its start. Its contents sit at the
/// front of a fixed-size storage.
pub struct Buffer {
    buf: Vec<u8>,
    min: usize,
    end: usize,
}

impl View for Buffer {
    type V = Seq<u8>;

    /// The contents of the window.
    closed spec fn view(&self) -> Seq<u8> {
        self.buf@.subrange(0, self.end as int)
    }
}

impl Buffer {
    /// The number of bytes that a roll keeps: the length of the needle.
    pub closed spec fn min_len(&self) -> int {
        self.min as int
    }

    /// The fixed size of the storage.
    pub closed spec fn storage_len(&self) -> int {
        self.buf@.len() as int
    }

    /// The contents lie within the storage.
    pub closed spec fn in_bounds(&self) -> bool {
        self.end <= self.buf@.len()
    }

    /// The window is well formed: its storage has the size its minimum
    /// length calls for, and holds its contents.
    pub open spec fn wf(&self) -> bool {
        &&& self.in_bounds()
        &&& self.min_len() >= 1
        &&& self.storage_len() == window_capacity(self.min_len())
        &&& self@.len() <= self.storage_len()
    }

    /// Creates an empty window for a needle of length `min_buffer_len`.
    pub fn new(min_buffer_len: usize) -> (b: Buffer)
        requires
            min_buffer_len <= usize::MAX / 8,
        ensures
            b.wf(),
            b@ == Seq::<u8>::empty(),
            b.min_len() == window_min_len(min_buffer_len as int),
            b.storage_len() == window_capacity(min_buffer_len as int),
    {
        let (min, capacity) = capacity_for(min_buffer_len);
        let b = Buffer { buf: vec![0u8; capacity], min, end: 0 };
        assert(b@ =~= Seq::<u8>::empty());
        b
    }

    /// Returns the number of bytes that a roll keeps.
    pub fn min_buffer_len(&self) -> (r: usize)
        requires
            self.wf(),
        ensures
            r == self.min_len(),
    {
        self.min
    }

    /// Returns the contents of this window.
    pub fn buffer(&self) -> (r: &[u8])
        requires
            self.wf(),
        ensures
            r@ == self@,
    {
        slice_subrange(self.buf.as_slice(), 0, self.end)
    }

    /// Returns the number of bytes in this window.
    pub fn len(&self) -> (r: usize)
        requires
            self.wf(),
        ensures
            r == self@.len(),
    {
        self.end
    }

    /// Returns the size of the free part of the storage, the most that the
    /// next `fill` may add.
    pub fn free_buffer(&self) -> (r: usize)
        requires
            self.wf(),
        ensures
            r == self.storage_len() - self@.len(),
    {
        self.buf.len() - self.end
    }

    /// Appends the bytes of one read of the stream. Returns whether the
    /// window now holds at least the minimum length, at which point a search
    /// stops reading.
    pub fn fill(&mut self, data: &[u8]) -> (r: bool)
        requires
            old(self).wf(),
            data@.len() <= old(self).storage_len() - old(self)@.len(),
        ensures
            final(self).wf(),
            final(self).min_len() == old(self).min_len(),
            final(self).storage_len() == old(self).storage_len(),
            final(self)@ == old(self)@ + data@,
            r == (final(self)@.len() >= final(self).min_len()),
    {
        let ghost before = self@;
        let mut i: usize = 0;
        while i < data.len()
            invariant
                self.wf(),
                self.min == old(self).min,
                self.buf@.len() == old(self).buf@.len(),
                self.end == old(self).end,
                0 <= i <= data@.len(),
                self.end + data@.len() <= self.buf.len(),
                self.buf@.subrange(0, self.end as int) == before,
                forall|k: int| 0 <= k < i ==> self.buf@[self.end + k] == data@[k],
            decreases data@.len() - i,
        {
            self.buf.set(self.end + i, data[i]);
            i = i + 1;
            assert(self.buf@.subrange(0, self.end as int) =~= before);
        }
        self.end = self.end + data.len();
        assert(self@ =~= before + data@);
        self.end >= self.min
    }

    /// Keeps only the last `min_len()` bytes, moved to the front of the
    /// storage. A match that straddles the end of what was read so far then
    /// still lies within the window once more bytes are appended.
    pub fn roll(&mut self)
        requires
            old(self).wf(),
            old(self)@.len() >= old(self).min_len(),
        ensures
            final(self).wf(),
            final(self).min_len() == old(self).min_len(),
            final(self).storage_len() == old(self).storage_len(),
            final(self)@ == old(self)@.subrange(
                old(self)@.len() - old(self).min_len(),
                old(self)@.len() as int,
            ),
    {
        let ghost before = self@;
        let start: usize = self.end - self.min;
        let mut i: usize = 0;
        while i < self.min
            invariant
                self.wf(),
                self.min == old(self).min,
                self.buf@.len() == old(self).buf@.len(),
                self.end == old(self).end,
                start + self.min == self.end,
                before == old(self).buf@.subrange(0, self.end as int),
                0 <= i <= self.min,
                forall|k: int| 0 <= k < i ==> self.buf@[k] == before[start + k],
                forall|k: int| i <= k < self.buf@.len() ==> self.buf@[k] == old(self).buf@[k],
            decreases self.min - i,
        {
            let b = self.buf[start + i];
            self.buf.set(i, b);
            i = i + 1;
        }
        self.end = self.min;
        assert(self@ =~= before.subrange(start as int, before.len() as int));
    }
}

/// A window for searching a stream from its end. Its contents sit at the
/// back of a fixed-size storage and grow toward the front.
pub struct BufferRev {
    buf: Vec<u8>,
    min: usize,
    end: usize,
}

impl View for BufferRev {
    type V = Seq<u8>;

    /// The contents of the window.
    closed spec fn view(&self) -> Seq<u8> {
        self.buf@.subrange(self.buf@.len() - self.end, self.buf@.len() as int)
    }
}

impl BufferRev {
    /// The number of bytes that a roll keeps: the length of the needle.
    pub closed spec fn min_len(&self) -> int {
        self.min as int
    }

    /// The fixed size of the storage.
    pub closed spec fn storage_len(&self) -> int {
        self.buf@.len() as int
    }

    /// The contents lie within the storage.
    pub closed spec fn in_bounds(&self) -> bool {
        self.end <= self.buf@.len()
    }

    /// The window is well formed: its storage has the size its minimum
    /// length calls for, and holds its contents.
    pub open spec fn wf(&self) -> bool {
        &&& self.in_bounds()
        &&& self.min_len() >= 1
        &&& self.storage_len() == window_capacity(self.min_len())
        &&& self@.len() <= self.storage_len()
    }

    /// Creates an empty window for a needle of length `min_buffer_len`.
    pub fn new(min_buffer_len: usize) -> (b: BufferRev)
        requires
            min_buffer_len <= usize::MAX / 8,
        ensures
            b.wf(),
            b@ == Seq::<u8>::empty(),
            b.min_len() == window_min_len(min_buffer_len as int),
            b.storage_len() == window_capacity(min_buffer_len as int),
    {
        let (min, capacity) = capacity_for(min_buffer_len);
        let b = BufferRev { buf: vec![0u8; capacity], min, end: 0 };
        assert(b@ =~= Seq::<u8>::empty());
        b
    }

    /// Returns the number of bytes that a roll keeps.
    pub fn min_buffer_len(&self) -> (r: usize)
        requires
            self.wf(),
        ensures
            r == self.min_len(),
    {
        self.min
    }

    /// Returns the fixed size of the storage.
    pub fn capacity(&self) -> (r: usize)
        requires
            self.wf(),
        ensures
            r == self.storage_len(),
    {
        self.buf.len()
    }

    /// Returns the contents of this window.
    pub fn buffer(&self) -> (r: &[u8])
        requires
            self.wf(),
        ensures
            r@ == self@,
    {
        slice_subrange(self.buf.as_slice(), self.buf.len() - self.end, self.buf.len())
    }

    /// Returns the number of bytes in this window.
    pub fn len(&self) -> (r: usize)
        requires
            self.wf(),
        ensures
            r == self@.len(),
    {
        self.end
    }

    /// Returns the size of the free part of the storage, the most that the
    /// next `fill_exact` may add.
    pub fn free_buffer(&self) -> (r: usize)
        requires
            self.wf(),
        ensures
            r == self.storage_len() - self@.len(),
    {
        self.buf.len() - self.end
    }

    /// Puts the bytes that precede the contents in the stream, read there in
    /// one exact read, in front of the contents.
    pub fn fill_exact(&mut self, data: &[u8])
        requires
            old(self).wf(),
            data@.len() <= old(self).storage_len() - old(self)@.len(),
        ensures
            final(self).wf(),
            final(self).min_len() == old(self).min_len(),
            final(self).storage_len() == old(self).storage_len(),
            final(self)@ == data@ + old(self)@,
    {
        let ghost before = self@;
        let cap: usize = self.buf.len();
        let start: usize = cap - self.end - data.len();
        let mut i: usize = 0;
        while i < data.len()
            invariant
                self.wf(),
                self.min == old(self).min,
                self.end == old(self).end,
                cap == self.buf@.len(),
                start + data@.len() + self.end == cap,
                0 <= i <= data@.len(),
                self.buf@.subrange(cap - self.end, cap as int) == before,
                forall|k: int| 0 <= k < i ==> self.buf@[start + k] == data@[k],
            decreases data@.len() - i,
        {
            self.buf.set(start + i, data[i]);
            i = i + 1;
            assert(self.buf@.subrange(cap - self.end, cap as int) =~= before);
        }
        self.end = self.end + data.len();
        assert(self@ =~= data@ + before);
    }

    /// Keeps only the first `min_len()` bytes, moved to the back of the
    /// storage. A match that straddles the start of what was read so far
    /// then still lies within the window once more bytes are put in front.
    pub fn roll_right(&mut self)
        requires
            old(self).wf(),
            old(self)@.len() >= old(self).min_len(),
        ensures
            final(self).wf(),
            final(self).min_len() == old(self).min_len(),
            final(self).storage_len() == old(self).storage_len(),
            final(self)@ == old(self)@.subrange(0, old(self).min_len()),
    {
        let ghost before = self@;
        let cap: usize = self.buf.len();
        let src: usize = cap - self.end;
        let dst: usize = cap - self.min;
        let mut i: usize = self.min;
        while i > 0
            invariant
                self.wf(),
                self.min == old(self).min,
                self.end == old(self).end,
                cap == self.buf@.len(),
                cap == old(self).buf@.len(),
                src + self.end == cap,
                dst + self.min == cap,
                self.min <= self.end,
                before == old(self).buf@.subrange(src as int, cap as int),
                0 <= i <= self.min,
                forall|k: int| i <= k < self.min ==> self.buf@[dst + k] == before[k],
                forall|k: int| 0 <= k < dst + i ==> self.buf@[k] == old(self).buf@[k],
            decreases i,
        {
            i = i - 1;
            let b = self.buf[src + i];
            assert(b == before[i as int]);
            self.buf.set(dst + i, b);
        }
        self.end = self.min;
        assert(self@ =~= before.subrange(0, self.min as int));
    }
}

} // verus!

//! A sequential big-endian byte reader that doubles as a small append-only
//! scratch accumulator.

use vstd::prelude::*;
use vstd::std_specs::convert::FromSpec;

verus! {

/// What a [`Buffer`] is, mathematically: its bytes and how many of them have
/// been read.
pub struct BufferView {
    pub bytes: Seq<u8>,
    pub position: nat,
}

impl BufferView {
    /// The number of bytes not yet read.
    pub open spec fn remaining(self) -> int {
        self.bytes.len() - self.position
    }

    /// The bytes not yet read.
    pub open spec fn unread(self) -> Seq<u8> {
        self.bytes.skip(self.position as int)
    }

    /// The same bytes with the read position moved forward by `count`.
    pub open spec fn advanced(self, count: nat) -> BufferView {
        BufferView { bytes: self.bytes, position: self.position + count }
    }
}

/// The value of two bytes read in big-endian order.
pub open spec fn be_u16(hi: u8, lo: u8) -> int {
    hi * 0x100 + lo
}

/// The value of four bytes read in big-endian order.
pub open spec fn be_u32(b0: u8, b1: u8, b2: u8, b3: u8) -> int {
    b0 * 0x100_0000 + b1 * 0x1_0000 + b2 * 0x100 + b3
}

/// An owned byte sequence with a read position. Every buffer that this
/// module hands out satisfies [`Buffer::wf`], and every method keeps it so.
#[derive(Debug)]
pub struct Buffer {
    cur: usize,
    vec: Vec<u8>,
}

impl View for Buffer {
    type V = BufferView;

    closed spec fn view(&self) -> BufferView {
        BufferView { bytes: self.vec@, position: self.cur as nat }
    }
}

impl From<Vec<u8>> for Buffer {
    fn from(vec: Vec<u8>) -> (buffer: Buffer) {
        Buffer { cur: 0, vec }
    }
}

impl vstd::std_specs::convert::FromSpecImpl<Vec<u8>> for Buffer {
    open spec fn obeys_from_spec() -> bool {
        true
    }

    closed spec fn from_spec(vec: Vec<u8>) -> Buffer {
        Buffer { cur: 0, vec: vec }
    }
}

impl Buffer {
    /// What converting a byte vector gives: a buffer over it, positioned at
    /// its first byte.
    pub proof fn lemma_from_vec(vec: Vec<u8>)
        ensures
            <Buffer as FromSpec<Vec<u8>>>::from_spec(vec).wf(),
            <Buffer as FromSpec<Vec<u8>>>::from_spec(vec)@ == (BufferView {
                bytes: vec@,
                position: 0,
            }),
    {
    }

    /// The read position never passes the end of the bytes.
    pub open spec fn wf(&self) -> bool {
        self@.position <= self@.bytes.len()
    }

    /// An empty buffer.
    pub fn new() -> (buffer: Buffer)
        ensures
            buffer.wf(),
            buffer@ == (BufferView { bytes: Seq::empty(), position: 0 }),
    {
        Buffer::from_vec(Vec::new())
    }

    /// A buffer over `v`, positioned at its first byte.
    pub fn from_vec(v: Vec<u8>) -> (buffer: Buffer)
        ensures
            buffer.wf(),
            buffer@ == (BufferView { bytes: v@, position: 0 }),
    {
        Buffer { cur: 0, vec: v }
    }

    /// Gives up the bytes, read or not.
    pub fn into_vec(self) -> (bytes: Vec<u8>)
        ensures
            bytes@ == self@.bytes,
    {
        self.vec
    }

    /// The total number of bytes held, read or not.
    pub fn len(&self) -> (len: usize)
        ensures
            len == self@.bytes.len(),
    {
        self.vec.len()
    }

    /// The number of bytes not yet read.
    pub fn remaining_size(&self) -> (size: usize)
        requires
            self.wf(),
        ensures
            size == self@.remaining(),
    {
        self.vec.len() - self.cur
    }

    /// Reads one byte and moves past it. The caller checks beforehand that a
    /// byte remains.
    pub fn next(&mut self) -> (byte: u8)
        requires
            old(self).wf(),
            old(self)@.remaining() > 0,
        ensures
            final(self).wf(),
            byte == old(self)@.bytes[old(self)@.position as int],
            final(self)@ == old(self)@.advanced(1),
    {
        let result: u8 = self.vec[self.cur];
        assert(self.cur < self.vec.len());
        self.cur += 1;
        result
    }

    /// Reads four bytes as a big-endian number. When fewer than four bytes
    /// remain, nothing is read and the result is zero.
    pub fn read_u32(&mut self) -> (value: u32)
        requires
            old(self).wf(),
        ensures
            final(self).wf(),
            old(self)@.remaining() < 4 ==> value == 0 && final(self)@ == old(self)@,
            old(self)@.remaining() >= 4 ==> {
                let at = old(self)@.position as int;
                let bytes = old(self)@.bytes;
                &&& value == be_u32(bytes[at], bytes[at + 1], bytes[at + 2], bytes[at + 3])
                &&& final(self)@ == old(self)@.advanced(4)
            },
    {
        if self.remaining_size() < 4 {
            return 0;
        }
        let b0: u32 = self.next() as u32;
        let b1: u32 = self.next() as u32;
        let b2: u32 = self.next() as u32;
        let b3: u32 = self.next() as u32;
        assert((b0 << 24) | (b1 << 16) | (b2 << 8) | b3 == b0 * 0x100_0000 + b1 * 0x1_0000 + b2
            * 0x100 + b3) by (bit_vector)
            requires
                b0 < 0x100,
                b1 < 0x100,
                b2 < 0x100,
                b3 < 0x100,
        ;
        (b0 << 24) | (b1 << 16) | (b2 << 8) | b3
    }

    /// Reads two bytes as a big-endian number. When fewer than two bytes
    /// remain, nothing is read and the result is zero.
    pub fn read_u16(&mut self) -> (value: u16)
        requires
            old(self).wf(),
        ensures
            final(self).wf(),
            old(self)@.remaining() < 2 ==> value == 0 && final(self)@ == old(self)@,
            old(self)@.remaining() >= 2 ==> {
                let at = old(self)@.position as int;
                let bytes = old(self)@.bytes;
                &&& value == be_u16(bytes[at], bytes[at + 1])
                &&& final(self)@ == old(self)@.advanced(2)
            },
    {
        if self.remaining_size() < 2 {
            return 0;
        }
        let hi: u16 = self.next() as u16;
        let lo: u16 = self.next() as u16;
        assert((hi << 8) | lo == hi * 0x100 + lo) by (bit_vector)
            requires
                hi < 0x100,
                lo < 0x100,
        ;
        (hi << 8) | lo
    }

    /// Copies the next `size` unread bytes into a buffer of their own,
    /// positioned at its start. The read position of `self` stays where it
    /// was. Nothing is copied when fewer than `size` bytes remain.
    pub fn read_subbuf(&mut self, size: usize) -> (sub: Option<Buffer>)
        requires
            old(self).wf(),
        ensures
            final(self)@ == old(self)@,
            sub is None <==> size > old(self)@.remaining(),
            sub matches Some(b) ==> b.wf() && b@ == (BufferView {
                bytes: old(self)@.bytes.subrange(
                    old(self)@.position as int,
                    old(self)@.position + size,
                ),
                position: 0,
            }),
    {
        if size > self.remaining_size() {
            return None;
        }
        let mut ret: Vec<u8> = Vec::with_capacity(size);
        let mut i: usize = 0;
        while i < size
            invariant
                i <= size,
                self.cur + size <= self.vec.len(),
                ret@ == self.vec@.subrange(self.cur as int, self.cur + i),
            decreases size - i,
        {
            ret.push(self.vec[self.cur + i]);
            i += 1;
        }
        Some(Buffer { vec: ret, cur: 0 })
    }

    /// Appends one byte after the last one held.
    pub fn push(&mut self, byte: u8)
        requires
            old(self).wf(),
        ensures
            final(self).wf(),
            final(self)@ == (BufferView {
                bytes: old(self)@.bytes.push(byte),
                position: old(self)@.position,
            }),
    {
        self.vec.push(byte)
    }

    /// Drops every byte and rewinds to the start, keeping the allocation.
    pub fn reset(&mut self)
        ensures
            final(self).wf(),
            final(self)@ == (BufferView { bytes: Seq::empty(), position: 0 }),
    {
        self.cur = 0;
        self.vec.clear();
    }
}

} // verus!

use vstd::prelude::*;
use crate::error::McError;
use crate::types::{
    all_continued, lemma_varint_parse_is, varint_parse, VARINT32_MAX_BYTES, VARINT64_MAX_BYTES,
};
use crate::utils::decode_varint;

verus! {

/// A forward-only write cursor over a buffer of fixed size.
pub struct OutputBuffer {
    buffer: Vec<u8>,
    position: usize,
}

impl OutputBuffer {
    /// The whole buffer, written or not.
    pub closed spec fn bytes(&self) -> Seq<u8> {
        self.buffer@
    }

    /// Where the next byte goes.
    pub closed spec fn pos(&self) -> nat {
        self.position as nat
    }

    pub open spec fn wf(&self) -> bool {
        self.pos() <= self.bytes().len()
    }

    /// What has been written so far.
    pub open spec fn written(&self) -> Seq<u8> {
        self.bytes().take(self.pos() as int)
    }

    /// Room left for writing.
    pub open spec fn room(&self) -> nat {
        (self.bytes().len() - self.pos()) as nat
    }

    /// Going from `before` to `after`, `w` was written behind what was there,
    /// and nothing else changed.
    pub open spec fn wrote(before: OutputBuffer, after: OutputBuffer, w: Seq<u8>) -> bool {
        &&& after.wf()
        &&& after.bytes().len() == before.bytes().len()
        &&& after.pos() == before.pos() + w.len()
        &&& after.written() == before.written() + w
        &&& after.bytes().skip(after.pos() as int) == before.bytes().skip(after.pos() as int)
    }

    /// Writing `w1` and then `w2` writes `w1 + w2`.
    pub proof fn lemma_wrote_trans(a: OutputBuffer, b: OutputBuffer, c: OutputBuffer, w1: Seq<u8>, w2: Seq<u8>)
        requires
            a.wf(),
            OutputBuffer::wrote(a, b, w1),
            OutputBuffer::wrote(b, c, w2),
        ensures
            OutputBuffer::wrote(a, c, w1 + w2),
    {
        assert(c.written() =~= a.written() + (w1 + w2));
        let p = c.pos() as int;
        assert(c.bytes().skip(p) =~= a.bytes().skip(p)) by {
            assert forall|i: int| 0 <= i < c.bytes().len() - p implies c.bytes().skip(p)[i] == a.bytes().skip(p)[i] by {
                assert(c.bytes().skip(p)[i] == b.bytes().skip(b.pos() as int)[i + p - b.pos()]);
                assert(b.bytes().skip(b.pos() as int)[i + p - b.pos()] == a.bytes().skip(b.pos() as int)[i + p - b.pos()]);
            }
        }
    }

    /// Nothing written leaves the buffer as it is.
    pub proof fn lemma_wrote_nothing(a: OutputBuffer)
        requires
            a.wf(),
        ensures
            OutputBuffer::wrote(a, a, Seq::empty()),
    {
        assert(a.written() + Seq::empty() =~= a.written());
    }

    /// A cursor at the start of a copy of `slice`.
    pub fn from_slice(slice: &[u8]) -> (r: OutputBuffer)
        ensures
            r.wf(),
            r.bytes() == slice@,
            r.pos() == 0,
    {
        let mut buffer: Vec<u8> = Vec::with_capacity(slice.len());
        let mut i: usize = 0;
        while i < slice.len()
            invariant
                i <= slice@.len(),
                buffer@ == slice@.take(i as int),
            decreases slice@.len() - i,
        {
            buffer.push(slice[i]);
            i = i + 1;
            assert(buffer@ =~= slice@.take(i as int));
        }
        assert(slice@.take(i as int) =~= slice@);
        OutputBuffer { buffer, position: 0 }
    }

    /// A cursor at the start of `vec`.
    pub fn from_vector(vec: Vec<u8>) -> (r: OutputBuffer)
        ensures
            r.wf(),
            r.bytes() == vec@,
            r.pos() == 0,
    {
        OutputBuffer { buffer: vec, position: 0 }
    }

    /// Writes `data` at the cursor and moves past it; fails on a full buffer.
    pub fn put_byte(&mut self, data: u8) -> (r: Result<(), McError>)
        requires
            old(self).wf(),
        ensures
            old(self).room() > 0 ==> r == Ok::<(), McError>(()) && OutputBuffer::wrote(
                *old(self),
                *final(self),
                seq![data],
            ),
            old(self).room() == 0 ==> r == Err::<(), McError>(McError::BufferOverrun) && *final(self)
                == *old(self),
    {
        if self.position >= self.buffer.len() {
            return Err(McError::BufferOverrun);
        }
        let ghost before = *self;
        self.buffer.set(self.position, data);
        self.position = self.position + 1;
        proof {
            assert(self.written() =~= before.written() + seq![data]);
            assert(self.bytes().skip(self.pos() as int) =~= before.bytes().skip(self.pos() as int));
        }
        Ok(())
    }

    /// Number of bytes the buffer holds, written or not.
    pub fn get_length(&self) -> (r: usize)
        ensures
            r == self.bytes().len(),
    {
        self.buffer.len()
    }

    /// Number of bytes written so far.
    pub fn get_position(&self) -> (r: usize)
        ensures
            r == self.pos(),
    {
        self.position
    }

    /// Hands back the whole buffer.
    pub fn into_vec(self) -> (r: Vec<u8>)
        ensures
            r@ == self.bytes(),
    {
        self.buffer
    }
}

/// A forward-only read cursor over a byte sequence.
#[derive(Debug)]
pub struct InputBuffer<'a> {
    data: &'a [u8],
    position: usize,
}

impl<'a> InputBuffer<'a> {
    /// The bytes under the cursor.
    pub closed spec fn data(&self) -> Seq<u8> {
        self.data@
    }

    /// Where the next byte is read.
    pub closed spec fn pos(&self) -> nat {
        self.position as nat
    }

    pub open spec fn wf(&self) -> bool {
        self.pos() <= self.data().len()
    }

    /// What is left to read.
    pub open spec fn remaining(&self) -> Seq<u8> {
        self.data().skip(self.pos() as int)
    }

    /// Going from `before` to `after`, exactly `n` bytes were consumed.
    pub open spec fn consumed(before: InputBuffer, after: InputBuffer, n: nat) -> bool {
        &&& after.wf()
        &&& after.data() == before.data()
        &&& after.pos() == before.pos() + n
    }

    pub fn create(data: &'a [u8]) -> (r: InputBuffer<'a>)
        ensures
            r.wf(),
            r.data() == data@,
            r.pos() == 0,
            r.remaining() == data@,
    {
        let r = InputBuffer { data, position: 0 };
        assert(r.remaining() =~= data@);
        r
    }

    /// Reads the byte at the cursor and moves past it; fails at the end.
    pub fn read_byte(&mut self) -> (r: Result<u8, McError>)
        requires
            old(self).wf(),
        ensures
            old(self).remaining().len() > 0 ==> r == Ok::<u8, McError>(old(self).remaining()[0])
                && InputBuffer::consumed(*old(self), *final(self), 1),
            old(self).remaining().len() == 0 ==> r == Err::<u8, McError>(McError::BufferUnderrun)
                && *final(self) == *old(self),
    {
        if self.position >= self.data.len() {
            return Err(McError::BufferUnderrun);
        }
        let b = self.data[self.position];
        self.position = self.position + 1;
        Ok(b)
    }

    /// Reads a VarInt of at most `max_bytes` bytes and a value of at most
    /// `max_value`, and moves past it; on failure nothing is consumed.
    pub fn read_varint(&mut self, max_bytes: usize, max_value: u64) -> (r: Result<u64, McError>)
        requires
            old(self).wf(),
            1 <= max_bytes <= VARINT64_MAX_BYTES,
        ensures
            match varint_parse(old(self).remaining(), max_bytes as nat, max_value as nat) {
                Ok((v, n)) => r == Ok::<u64, McError>(v as u64) && InputBuffer::consumed(
                    *old(self),
                    *final(self),
                    n,
                ),
                Err(e) => r == Err::<u64, McError>(e) && *final(self) == *old(self),
            },
    {
        let total = self.data.len();
        match decode_varint(self.data, self.position, max_bytes, max_value) {
            Ok((v, n)) => {
                proof {
                    lemma_varint_parse_is(self.remaining(), max_bytes as nat, max_value as nat, v as nat, n as nat);
                    assert(n <= self.data@.skip(self.position as int).len());
                    assert(self.position + n <= total);
                }
                self.position = self.position + n;
                Ok(v)
            },
            Err(e) => Err(e),
        }
    }

    /// Reads the next `n` bytes and moves past them; fails, consuming nothing,
    /// when fewer are left.
    pub fn read_bytes(&mut self, n: usize) -> (r: Result<Vec<u8>, McError>)
        requires
            old(self).wf(),
        ensures
            n <= old(self).remaining().len() ==> (r matches Ok(v) && v@ == old(self).remaining().take(
                n as int,
            ) && InputBuffer::consumed(*old(self), *final(self), n as nat)),
            n > old(self).remaining().len() ==> (r matches Err(e) && e == McError::BufferUnderrun
                && *final(self) == *old(self)),
    {
        if n > self.data.len() - self.position {
            return Err(McError::BufferUnderrun);
        }
        let ghost start = *self;
        let mut out: Vec<u8> = Vec::with_capacity(n);
        let mut i: usize = 0;
        while i < n
            invariant
                start.wf(),
                n <= start.remaining().len(),
                i <= n,
                self.data == start.data,
                self.position == start.position + i,
                out@ == start.remaining().take(i as int),
            decreases n - i,
        {
            out.push(self.data[self.position]);
            self.position = self.position + 1;
            i = i + 1;
            assert(out@ =~= start.remaining().take(i as int));
        }
        Ok(out)
    }

    /// Whether what is left is the start of a 32-bit VarInt cut off before its
    /// last byte: fewer than five bytes, each with bit 7 set.
    pub fn ends_inside_varint(&self) -> (r: bool)
        requires
            self.wf(),
        ensures
            r == (all_continued(self.remaining(), self.remaining().len() as int)
                && self.remaining().len() < VARINT32_MAX_BYTES),
    {
        if self.data.len() - self.position >= VARINT32_MAX_BYTES {
            return false;
        }
        let mut i: usize = self.position;
        while i < self.data.len()
            invariant
                self.wf(),
                self.position <= i <= self.data@.len(),
                all_continued(self.remaining(), i - self.position),
            decreases self.data@.len() - i,
        {
            if self.data[i] < 128 {
                assert(self.remaining()[i - self.position] == self.data@[i as int]);
                return false;
            }
            assert(self.remaining()[i - self.position] == self.data@[i as int]);
            i = i + 1;
        }
        true
    }

    pub fn has_next(&self) -> (r: bool)
        requires
            self.wf(),
        ensures
            r == (self.remaining().len() > 0),
    {
        self.position < self.data.len()
    }

    pub fn get_length(&self) -> (r: usize)
        ensures
            r == self.data().len(),
    {
        self.data.len()
    }

    /// Number of bytes read so far.
    pub fn get_position(&self) -> (r: usize)
        ensures
            r == self.pos(),
    {
        self.position
    }
}

} // verus!

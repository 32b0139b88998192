use vstd::prelude::*;
use crate::error::McError;
use crate::packet::{frame, PacketInformation};
use crate::types::{
    all_continued, lemma_pow128_values, lemma_varint_encoding_shape, lemma_varint_parse_is,
    lemma_varint_round_trip, lemma_varint_size, lemma_varint_size_bound, varint_encoding,
    varint_ends_at, varint_parse, varint_readable, VARINT32_MAX_BYTES,
};
use crate::utils::decode_varint;

verus! {

/// What the frame reader can do with the bytes it holds.
pub enum FrameStep {
    /// The first frame is not complete yet.
    NeedMore,
    /// The first frame is complete: its length, id and payload, and the number
    /// of bytes it takes.
    Ready { length: nat, id: u8, payload: Seq<u8>, consumed: nat },
    /// The bytes cannot start a frame.
    Failed(McError),
}

/// What the first frame in `p` is: its VarInt length (at most 32 bits, so at
/// most five bytes) is read, then `length` bytes of id and payload. A length
/// prefix or a frame that has not fully arrived needs more bytes; a length
/// prefix that is too long or too large, or a frame without an id, fails.
pub open spec fn frame_step(p: Seq<u8>) -> FrameStep {
    match varint_parse(p, 5, u32::MAX as nat) {
        Err(_) => if all_continued(p, p.len() as int) && p.len() < 5 {
            FrameStep::NeedMore
        } else {
            FrameStep::Failed(McError::MalformedVarInt)
        },
        Ok((len, k)) => if len == 0 {
            FrameStep::Failed(McError::UnknownPacket)
        } else if k + len > p.len() {
            FrameStep::NeedMore
        } else {
            FrameStep::Ready {
                length: len,
                id: p[k as int],
                payload: p.subrange((k + 1) as int, (k + len) as int),
                consumed: k + len,
            }
        },
    }
}

/// A frame split anywhere gives nothing until its last byte has arrived, and
/// then decodes exactly as the whole frame does, whatever follows it.
pub proof fn lemma_frame_split(id: u8, body: Seq<u8>, i: nat, rest: Seq<u8>)
    requires
        body.len() + 1 <= u32::MAX,
        i < frame(id, body).len(),
    ensures
        frame_step(frame(id, body).take(i as int)) == FrameStep::NeedMore,
        frame_step(frame(id, body) + rest) == (FrameStep::Ready {
            length: body.len() + 1,
            id,
            payload: body,
            consumed: frame(id, body).len(),
        }),
{
    let len = body.len() + 1;
    let f = frame(id, body);
    let e = varint_encoding(len);
    let k = e.len();
    lemma_pow128_values();
    lemma_varint_size_bound(len, 5);
    lemma_varint_size(len);
    lemma_varint_encoding_shape(len);
    let a = f.take(i as int);
    if i < k {
        assert forall|j: int| 0 <= j < i implies a[j] >= 128 by {
            assert(a[j] == e[j]);
        }
        assert forall|v: nat, n: nat| !crate::types::varint_decodes(a, 5, u32::MAX as nat, v, n) by {
            if varint_ends_at(a, n) {
                assert(a[n - 1] >= 128);
            }
        }
        assert(!varint_readable(a, 5, u32::MAX as nat));
    } else {
        let tail = f.subrange(k as int, i as int);
        assert(a =~= e + tail);
        lemma_varint_round_trip(len, tail, 5, u32::MAX as nat);
    }
    let whole = f + rest;
    let after = seq![id] + body + rest;
    assert(whole =~= e + after);
    lemma_varint_round_trip(len, after, 5, u32::MAX as nat);
    assert(whole[k as int] == id);
    assert(whole.subrange((k + 1) as int, (k + len) as int) =~= body);
}

/// One frame carved out of the stream.
#[derive(Debug, PartialEq)]
pub struct Frame {
    pub info: PacketInformation,
    pub payload: Vec<u8>,
}

/// Whether every byte of `data` has bit 7 set.
fn all_continuation(data: &[u8]) -> (r: bool)
    ensures
        r == all_continued(data@, data@.len() as int),
{
    let mut i: usize = 0;
    while i < data.len()
        invariant
            i <= data@.len(),
            all_continued(data@, i as int),
        decreases data@.len() - i,
    {
        if data[i] < 128 {
            return false;
        }
        i = i + 1;
    }
    true
}

/// A copy of `data[from..to]`.
fn copy_range(data: &[u8], from: usize, to: usize) -> (r: Vec<u8>)
    requires
        from <= to <= data@.len(),
    ensures
        r@ == data@.subrange(from as int, to as int),
{
    let mut out: Vec<u8> = Vec::with_capacity(to - from);
    let mut i: usize = from;
    while i < to
        invariant
            from <= i <= to,
            to <= data@.len(),
            out@ == data@.subrange(from as int, i as int),
        decreases to - i,
    {
        out.push(data[i]);
        i = i + 1;
        assert(out@ =~= data@.subrange(from as int, i as int));
    }
    out
}

/// Assembles frames from chunks of a byte stream, holding back what does not
/// yet complete a frame.
pub struct FrameReader {
    pending: Vec<u8>,
}

impl View for FrameReader {
    type V = Seq<u8>;

    /// The bytes received and not yet carved into frames.
    closed spec fn view(&self) -> Seq<u8> {
        self.pending@
    }
}

impl FrameReader {
    pub fn new() -> (r: FrameReader)
        ensures
            r@ == Seq::<u8>::empty(),
    {
        FrameReader { pending: Vec::new() }
    }

    /// Takes in the next chunk of the stream.
    pub fn push(&mut self, chunk: &[u8])
        ensures
            final(self)@ == old(self)@ + chunk@,
    {
        let ghost before = self.pending@;
        let mut i: usize = 0;
        while i < chunk.len()
            invariant
                i <= chunk@.len(),
                self.pending@ == before + chunk@.take(i as int),
            decreases chunk@.len() - i,
        {
            self.pending.push(chunk[i]);
            i = i + 1;
            assert(self.pending@ =~= before + chunk@.take(i as int));
        }
        assert(chunk@.take(i as int) =~= chunk@);
    }

    /// Carves the first frame out of what was received, as `frame_step` says:
    /// `None` while it is incomplete; on an error nothing is consumed.
    pub fn next_frame(&mut self) -> (r: Result<Option<Frame>, McError>)
        ensures
            match frame_step(old(self)@) {
                FrameStep::NeedMore => r matches Ok(None) && final(self)@ == old(self)@,
                FrameStep::Failed(e) => r matches Err(f) && f == e && final(self)@ == old(self)@,
                FrameStep::Ready { length, id, payload, consumed } => r matches Ok(Some(fr))
                    && fr.info.length == length && fr.info.id == id && fr.payload@ == payload
                    && final(self)@ == old(self)@.skip(consumed as int),
            },
    {
        let p = self.pending.as_slice();
        assert(p@.skip(0) =~= p@);
        match decode_varint(p, 0, VARINT32_MAX_BYTES, u32::MAX as u64) {
            Err(_) => {
                if p.len() < VARINT32_MAX_BYTES && all_continuation(p) {
                    Ok(None)
                } else {
                    Err(McError::MalformedVarInt)
                }
            },
            Ok((len, k)) => {
                proof {
                    lemma_varint_parse_is(p@, 5, u32::MAX as nat, len as nat, k as nat);
                }
                if len == 0 {
                    return Err(McError::UnknownPacket);
                }
                if len > (p.len() - k) as u64 {
                    return Ok(None);
                }
                let end = k + len as usize;
                let id = p[k];
                let payload = copy_range(p, k + 1, end);
                let rest = copy_range(p, end, p.len());
                assert(rest@ =~= self.pending@.skip(end as int));
                self.pending = rest;
                Ok(Some(Frame { info: PacketInformation { length: len, id }, payload }))
            },
        }
    }

    /// Ends the stream: clean when nothing is held back, `TruncatedFrame`
    /// when a frame was cut off.
    pub fn finish(&self) -> (r: Result<(), McError>)
        ensures
            self@.len() == 0 ==> r == Ok::<(), McError>(()),
            self@.len() > 0 ==> r == Err::<(), McError>(McError::TruncatedFrame),
    {
        if self.pending.len() == 0 {
            Ok(())
        } else {
            Err(McError::TruncatedFrame)
        }
    }

    /// Number of bytes held back.
    pub fn pending_len(&self) -> (r: usize)
        ensures
            r == self@.len(),
    {
        self.pending.len()
    }
}

} // verus!

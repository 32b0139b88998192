use vstd::prelude::*;
use vstd::utf8::{decode_utf8, encode_utf8, encode_utf8_decode_utf8, encode_utf8_valid_utf8, valid_utf8};
use crate::error::McError;
use crate::input::{InputBuffer, OutputBuffer};
use crate::types::{
    lemma_pow128_values, lemma_varint_round_trip, lemma_varint_size, lemma_varint_size_bound,
    varint_encoding, varint_parse, varint_size, VarInt, VARINT32_MAX_BYTES,
};
use crate::utils::size_of_varint;

verus! {

/// A value that has a wire form: it writes itself into an `OutputBuffer` and
/// reads itself back from an `InputBuffer`.
pub trait PacketField: View + core::marker::Sized {
    /// The values that can be written.
    spec fn representable(v: Self::V) -> bool;

    /// The bytes that stand for `v` on the wire.
    spec fn wire(v: Self::V) -> Seq<u8>;

    /// What reading from the start of `bytes` gives: the value and the number
    /// of bytes it took, or the error.
    spec fn parse(bytes: Seq<u8>) -> Result<(Self::V, nat), McError>;

    /// Reading back what was written gives the value, and takes exactly its
    /// bytes, whatever follows them.
    proof fn lemma_round_trip(v: Self::V, rest: Seq<u8>)
        requires
            Self::representable(v),
        ensures
            Self::parse(Self::wire(v) + rest) == Ok::<(Self::V, nat), McError>(
                (v, Self::wire(v).len()),
            ),
    ;

    /// Writes the wire form at the cursor; fails, writing nothing, when there
    /// is not room for all of it.
    fn write_to(&self, buffer: &mut OutputBuffer) -> (r: Result<(), McError>)
        requires
            old(buffer).wf(),
            Self::representable(self@),
        ensures
            old(buffer).room() >= Self::wire(self@).len() ==> r == Ok::<(), McError>(())
                && OutputBuffer::wrote(*old(buffer), *final(buffer), Self::wire(self@)),
            old(buffer).room() < Self::wire(self@).len() ==> r == Err::<(), McError>(
                McError::BufferOverrun,
            ) && *final(buffer) == *old(buffer),
    ;

    /// Reads a value at the cursor and moves past it, as `parse` says.
    fn read_from(buffer: &mut InputBuffer) -> (r: Result<Self, McError>)
        requires
            old(buffer).wf(),
        ensures
            final(buffer).wf(),
            final(buffer).data() == old(buffer).data(),
            match Self::parse(old(buffer).remaining()) {
                Ok((v, n)) => r matches Ok(x) && x@ == v && InputBuffer::consumed(
                    *old(buffer),
                    *final(buffer),
                    n,
                ),
                Err(e) => r matches Err(f) && f == e,
            },
    ;
}

/// For every field type, reading back the bytes that `write_to` writes gives
/// the value that was written, and takes exactly those bytes.
pub proof fn lemma_field_round_trip<T: PacketField>(v: T::V, rest: Seq<u8>)
    requires
        T::representable(v),
    ensures
        T::parse(T::wire(v) + rest) == Ok::<(T::V, nat), McError>((v, T::wire(v).len())),
{
    T::lemma_round_trip(v, rest);
}

/// Writes the minimal VarInt encoding of `value`; fails, writing nothing,
/// when there is not room for it.
pub fn write_varint(buffer: &mut OutputBuffer, value: u64) -> (r: Result<(), McError>)
    requires
        old(buffer).wf(),
    ensures
        old(buffer).room() >= varint_size(value as nat) ==> r == Ok::<(), McError>(())
            && OutputBuffer::wrote(*old(buffer), *final(buffer), varint_encoding(value as nat)),
        old(buffer).room() < varint_size(value as nat) ==> r == Err::<(), McError>(
            McError::BufferOverrun,
        ) && *final(buffer) == *old(buffer),
{
    let size = size_of_varint(value);
    if buffer.get_length() - buffer.get_position() < size {
        return Err(McError::BufferOverrun);
    }
    let ghost start = *buffer;
    let ghost mut emitted: Seq<u8> = Seq::empty();
    proof {
        OutputBuffer::lemma_wrote_nothing(start);
    }
    let mut val: u64 = value;
    while val >= 128
        invariant
            start.wf(),
            buffer.wf(),
            OutputBuffer::wrote(start, *buffer, emitted),
            emitted + varint_encoding(val as nat) == varint_encoding(value as nat),
            buffer.room() >= varint_size(val as nat),
        decreases val,
    {
        let b = (val % 128 + 128) as u8;
        let ghost mid = *buffer;
        let _ = buffer.put_byte(b);
        proof {
            OutputBuffer::lemma_wrote_trans(start, mid, *buffer, emitted, seq![b]);
            assert(varint_encoding(val as nat) == seq![b] + varint_encoding((val / 128) as nat));
            assert(emitted + seq![b] + varint_encoding((val / 128) as nat) =~= emitted
                + varint_encoding(val as nat));
            emitted = emitted + seq![b];
        }
        val = val / 128;
    }
    let ghost mid = *buffer;
    let _ = buffer.put_byte(val as u8);
    proof {
        OutputBuffer::lemma_wrote_trans(start, mid, *buffer, emitted, seq![val as u8]);
        assert(varint_encoding(val as nat) == seq![val as u8]);
    }
    Ok(())
}

/// Relies on `String::from_utf8`: it accepts exactly the byte sequences that
/// are valid UTF-8, and the string it returns holds the characters they encode.
#[verifier::external_body]
fn string_from_utf8(bytes: Vec<u8>) -> (r: Option<String>)
    ensures
        r is Some <==> valid_utf8(bytes@),
        r matches Some(s) ==> s@ == decode_utf8(bytes@),
{
    String::from_utf8(bytes).ok()
}

impl PacketField for u8 {
    open spec fn representable(v: u8) -> bool {
        true
    }

    open spec fn wire(v: u8) -> Seq<u8> {
        seq![v]
    }

    open spec fn parse(bytes: Seq<u8>) -> Result<(u8, nat), McError> {
        if bytes.len() >= 1 {
            Ok((bytes[0], 1))
        } else {
            Err(McError::BufferUnderrun)
        }
    }

    proof fn lemma_round_trip(v: u8, rest: Seq<u8>) {
        assert((seq![v] + rest)[0] == v);
    }

    fn write_to(&self, buffer: &mut OutputBuffer) -> (r: Result<(), McError>) {
        buffer.put_byte(*self)
    }

    fn read_from(buffer: &mut InputBuffer) -> (r: Result<u8, McError>) {
        buffer.read_byte()
    }
}

impl PacketField for u16 {
    open spec fn representable(v: u16) -> bool {
        true
    }

    /// Big-endian: high byte first.
    open spec fn wire(v: u16) -> Seq<u8> {
        seq![(v / 256) as u8, (v % 256) as u8]
    }

    open spec fn parse(bytes: Seq<u8>) -> Result<(u16, nat), McError> {
        if bytes.len() >= 2 {
            Ok(((bytes[0] as nat * 256 + bytes[1] as nat) as u16, 2))
        } else {
            Err(McError::BufferUnderrun)
        }
    }

    proof fn lemma_round_trip(v: u16, rest: Seq<u8>) {
        let s = Self::wire(v) + rest;
        assert(s[0] == (v / 256) as u8);
        assert(s[1] == (v % 256) as u8);
    }

    fn write_to(&self, buffer: &mut OutputBuffer) -> (r: Result<(), McError>) {
        if buffer.get_length() - buffer.get_position() < 2 {
            return Err(McError::BufferOverrun);
        }
        let ghost start = *buffer;
        let hi = (*self / 256) as u8;
        let lo = (*self % 256) as u8;
        let _ = buffer.put_byte(hi);
        let ghost mid = *buffer;
        let _ = buffer.put_byte(lo);
        proof {
            OutputBuffer::lemma_wrote_trans(start, mid, *buffer, seq![hi], seq![lo]);
            assert(seq![hi] + seq![lo] =~= Self::wire(*self));
        }
        Ok(())
    }

    fn read_from(buffer: &mut InputBuffer) -> (r: Result<u16, McError>) {
        if buffer.get_length() - buffer.get_position() < 2 {
            return Err(McError::BufferUnderrun);
        }
        let hi = buffer.read_byte();
        let lo = buffer.read_byte();
        match (hi, lo) {
            (Ok(h), Ok(l)) => Ok(h as u16 * 256 + l as u16),
            _ => Err(McError::BufferUnderrun),
        }
    }
}

impl PacketField for VarInt {
    open spec fn representable(v: u32) -> bool {
        true
    }

    open spec fn wire(v: u32) -> Seq<u8> {
        varint_encoding(v as nat)
    }

    open spec fn parse(bytes: Seq<u8>) -> Result<(u32, nat), McError> {
        match varint_parse(bytes, 5, u32::MAX as nat) {
            Ok((v, n)) => Ok((v as u32, n)),
            Err(e) => Err(e),
        }
    }

    proof fn lemma_round_trip(v: u32, rest: Seq<u8>) {
        lemma_pow128_values();
        lemma_varint_size_bound(v as nat, 5);
        lemma_varint_size(v as nat);
        lemma_varint_round_trip(v as nat, rest, 5, u32::MAX as nat);
    }

    fn write_to(&self, buffer: &mut OutputBuffer) -> (r: Result<(), McError>) {
        proof {
            lemma_varint_size(self@ as nat);
        }
        write_varint(buffer, self.get_value() as u64)
    }

    fn read_from(buffer: &mut InputBuffer) -> (r: Result<VarInt, McError>) {
        match buffer.read_varint(VARINT32_MAX_BYTES, u32::MAX as u64) {
            Ok(v) => Ok(VarInt::wrap(v as u32)),
            Err(e) => Err(e),
        }
    }
}

/// What reading a string's bytes gives, once its VarInt length `len`, which
/// took `k` bytes, has been read from the start of `bytes`.
pub open spec fn string_body_parse(bytes: Seq<u8>, len: nat, k: nat) -> Result<(Seq<char>, nat), McError> {
    if k + len > bytes.len() {
        Err(McError::BufferUnderrun)
    } else if !valid_utf8(bytes.subrange(k as int, (k + len) as int)) {
        Err(McError::InvalidUtf8)
    } else {
        Ok((decode_utf8(bytes.subrange(k as int, (k + len) as int)), k + len))
    }
}

impl PacketField for String {
    /// The length prefix is a 32-bit VarInt, and the whole wire form must be
    /// countable in a `usize`.
    open spec fn representable(v: Seq<char>) -> bool {
        &&& encode_utf8(v).len() <= u32::MAX
        &&& encode_utf8(v).len() + VARINT32_MAX_BYTES <= usize::MAX
    }

    /// The VarInt byte length, then the UTF-8 bytes.
    open spec fn wire(v: Seq<char>) -> Seq<u8> {
        varint_encoding(encode_utf8(v).len()) + encode_utf8(v)
    }

    open spec fn parse(bytes: Seq<u8>) -> Result<(Seq<char>, nat), McError> {
        match varint_parse(bytes, 5, u32::MAX as nat) {
            Ok((len, k)) => string_body_parse(bytes, len, k),
            Err(e) => Err(e),
        }
    }

    proof fn lemma_round_trip(v: Seq<char>, rest: Seq<u8>) {
        let b = encode_utf8(v);
        let len = b.len();
        lemma_pow128_values();
        lemma_varint_size_bound(len, 5);
        lemma_varint_size(len);
        let e = varint_encoding(len);
        let s = e + b + rest;
        assert(Self::wire(v) + rest =~= e + (b + rest));
        lemma_varint_round_trip(len, b + rest, 5, u32::MAX as nat);
        assert(s.subrange(e.len() as int, (e.len() + len) as int) =~= b);
        encode_utf8_valid_utf8(v);
        encode_utf8_decode_utf8(v);
    }

    fn write_to(&self, buffer: &mut OutputBuffer) -> (r: Result<(), McError>) {
        let len = self.as_str().len();
        proof {
            lemma_pow128_values();
            lemma_varint_size_bound(len as nat, 5);
            lemma_varint_size(len as nat);
        }
        let size = len + size_of_varint(len as u64);
        if buffer.get_length() - buffer.get_position() < size {
            return Err(McError::BufferOverrun);
        }
        let bytes = self.as_str().as_bytes();
        let ghost start = *buffer;
        proof {
            lemma_pow128_values();
            lemma_varint_size_bound(bytes@.len(), 5);
            lemma_varint_size(bytes@.len());
        }
        let _ = write_varint(buffer, bytes.len() as u64);
        let ghost prefixed = *buffer;
        let ghost mut emitted: Seq<u8> = Seq::empty();
        proof {
            OutputBuffer::lemma_wrote_nothing(prefixed);
        }
        let mut i: usize = 0;
        while i < bytes.len()
            invariant
                prefixed.wf(),
                bytes@ == encode_utf8(self@),
                i <= bytes@.len(),
                OutputBuffer::wrote(prefixed, *buffer, bytes@.take(i as int)),
                prefixed.room() >= bytes@.len(),
            decreases bytes@.len() - i,
        {
            let ghost mid = *buffer;
            let _ = buffer.put_byte(bytes[i]);
            proof {
                OutputBuffer::lemma_wrote_trans(prefixed, mid, *buffer, bytes@.take(i as int), seq![bytes@[i as int]]);
                assert(bytes@.take(i as int) + seq![bytes@[i as int]] =~= bytes@.take(i + 1));
            }
            i = i + 1;
        }
        proof {
            assert(bytes@.take(i as int) =~= bytes@);
            OutputBuffer::lemma_wrote_trans(start, prefixed, *buffer, varint_encoding(bytes@.len()), bytes@);
        }
        Ok(())
    }

    fn read_from(buffer: &mut InputBuffer) -> (r: Result<String, McError>) {
        let ghost start = *buffer;
        let len = match buffer.read_varint(VARINT32_MAX_BYTES, u32::MAX as u64) {
            Ok(v) => v,
            Err(e) => return Err(e),
        };
        let ghost k = buffer.pos() - start.pos();
        assert(buffer.remaining() =~= start.remaining().skip(k as int));
        if len > (buffer.get_length() - buffer.get_position()) as u64 {
            return Err(McError::BufferUnderrun);
        }
        let raw = match buffer.read_bytes(len as usize) {
            Ok(v) => v,
            Err(e) => return Err(e),
        };
        assert(raw@ =~= start.remaining().subrange(k as int, k + len));
        match string_from_utf8(raw) {
            Some(s) => Ok(s),
            None => Err(McError::InvalidUtf8),
        }
    }
}

} // verus!

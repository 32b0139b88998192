use vstd::prelude::*;
use vstd::utf8::encode_utf8;
use crate::error::McError;
use crate::packet::PacketInformation;
use crate::types::{
    all_continued, groups_value, lemma_pow128_mono, lemma_pow128_values, lemma_varint_decodes_unique,
    lemma_varint_end_unique, lemma_varint_size, lemma_varint_size_bound, pow128, varint_decodes, varint_ends_at,
    varint_readable, varint_size, VARINT32_MAX_BYTES, VARINT64_MAX_BYTES,
};

verus! {

/// Decodes the VarInt that starts at `data[start]`, accepting at most
/// `max_bytes` bytes and a value of at most `max_value`. Returns the value and
/// the number of bytes it took.
pub fn decode_varint(data: &[u8], start: usize, max_bytes: usize, max_value: u64) -> (r: Result<
    (u64, usize),
    McError,
>)
    requires
        start <= data@.len(),
        1 <= max_bytes <= VARINT64_MAX_BYTES,
    ensures
        match r {
            Ok((v, n)) => varint_decodes(
                data@.skip(start as int),
                max_bytes as nat,
                max_value as nat,
                v as nat,
                n as nat,
            ),
            Err(e) => e == McError::MalformedVarInt && !varint_readable(
                data@.skip(start as int),
                max_bytes as nat,
                max_value as nat,
            ),
        },
{
    let ghost bytes = data@.skip(start as int);
    let mut acc: u128 = 0;
    let mut scale: u128 = 1;
    let mut i: usize = 0;
    proof {
        lemma_pow128_values();
        assert(bytes.take(0) =~= Seq::<u8>::empty());
    }
    loop
        invariant
            bytes == data@.skip(start as int),
            start <= data@.len(),
            1 <= max_bytes <= 10,
            i < max_bytes,
            scale == pow128(i as nat),
            pow128(9) == 0x8000_0000_0000_0000,
            acc == groups_value(bytes.take(i as int)),
            acc < scale,
            i <= bytes.len(),
            all_continued(bytes, i as int),
        decreases max_bytes - i,
    {
        if i >= data.len() - start {
            proof {
                assert forall|v: nat, n: nat| !varint_decodes(bytes, max_bytes as nat, max_value as nat, v, n) by {
                    if varint_ends_at(bytes, n) {
                        assert(bytes[n - 1] >= 128);
                    }
                }
            }
            return Err(McError::MalformedVarInt);
        }
        let b = data[start + i];
        assert(b == bytes[i as int]);
        proof {
            lemma_pow128_mono(i as nat, 9);
            let t = bytes.take(i as int + 1);
            assert(t.drop_last() =~= bytes.take(i as int));
            let x = (b % 128) as nat;
            assert(acc + x * scale < 128 * scale) by (nonlinear_arith)
                requires
                    acc < scale,
                    x <= 127,
            ;
        }
        acc = acc + (b % 128) as u128 * scale;
        if b < 128 {
            proof {
                assert(varint_ends_at(bytes, (i + 1) as nat));
                assert forall|v: nat, n: nat|
                    varint_decodes(bytes, max_bytes as nat, max_value as nat, v, n) implies n == i + 1
                    && v == acc by {
                    lemma_varint_end_unique(bytes, n, (i + 1) as nat);
                }
            }
            if acc > max_value as u128 {
                return Err(McError::MalformedVarInt);
            }
            return Ok((acc as u64, i + 1));
        }
        i = i + 1;
        if i == max_bytes {
            proof {
                assert forall|v: nat, n: nat| !varint_decodes(bytes, max_bytes as nat, max_value as nat, v, n) by {
                    if varint_ends_at(bytes, n) && n <= max_bytes {
                        assert(bytes[n - 1] >= 128);
                    }
                }
            }
            return Err(McError::MalformedVarInt);
        }
        proof {
            assert(pow128(i as nat) == 128 * pow128((i - 1) as nat));
            lemma_pow128_mono(i as nat, 9);
        }
        scale = scale * 128;
    }
}

/// Reads a single VarInt of at most ten bytes (64 bits) from the start of `data`.
pub fn read_varint(data: &[u8]) -> (r: Result<u64, McError>)
    ensures
        match r {
            Ok(v) => exists|n: nat| #[trigger] varint_decodes(data@, 10, u64::MAX as nat, v as nat, n),
            Err(e) => e == McError::MalformedVarInt && !varint_readable(data@, 10, u64::MAX as nat),
        },
{
    assert(data@.skip(0) =~= data@);
    match decode_varint(data, 0, VARINT64_MAX_BYTES, u64::MAX) {
        Ok((v, n)) => {
            assert(exists|m: nat| #[trigger] varint_decodes(data@, 10, u64::MAX as nat, v as nat, m)) by {
                assert(varint_decodes(data@, 10, u64::MAX as nat, v as nat, n as nat));
            }
            let r: Result<u64, McError> = Ok(v);
            assert(r matches Ok(w) && w == v);
            r
        },
        Err(e) => Err(e),
    }
}

/// Number of bytes of the minimal VarInt encoding of `value`.
pub fn size_of_varint(value: u64) -> (r: usize)
    ensures
        r == varint_size(value as nat),
        1 <= r <= VARINT64_MAX_BYTES,
{
    proof {
        lemma_pow128_values();
        lemma_varint_size_bound(value as nat, 10);
    }
    let mut curr: u64 = value;
    let mut length: usize = 1;
    while curr >= 128
        invariant
            1 <= length <= varint_size(value as nat),
            varint_size(value as nat) <= 10,
            length + varint_size(curr as nat) == varint_size(value as nat) + 1,
        decreases curr,
    {
        proof {
            lemma_varint_size((curr / 128) as nat);
        }
        curr = curr / 128;
        length = length + 1;
    }
    length
}

/// Number of bytes a string takes on the wire: its UTF-8 bytes behind their
/// VarInt length.
pub fn size_of_string(str: &String) -> (r: usize)
    requires
        encode_utf8(str@).len() + VARINT64_MAX_BYTES <= usize::MAX,
    ensures
        r == encode_utf8(str@).len() + varint_size(encode_utf8(str@).len()),
{
    let size = str.as_str().len();
    size + size_of_varint(size as u64)
}

/// Reads the header of a frame at the start of `data`: a VarInt length of at
/// most 32 bits, then the packet id byte.
pub fn read_packet_information(data: &[u8]) -> (r: Result<PacketInformation, McError>)
    ensures
        match r {
            Ok(info) => exists|n: nat|
                varint_decodes(data@, 5, u32::MAX as nat, info.length as nat, n) && n < data@.len()
                    && info.id == data@[n as int],
            Err(e) => if varint_readable(data@, 5, u32::MAX as nat) {
                e == McError::BufferUnderrun && forall|v: nat, n: nat|
                    varint_decodes(data@, 5, u32::MAX as nat, v, n) ==> n == data@.len()
            } else {
                e == McError::MalformedVarInt
            },
        },
{
    assert(data@.skip(0) =~= data@);
    match decode_varint(data, 0, VARINT32_MAX_BYTES, u32::MAX as u64) {
        Ok((length, n)) => {
            proof {
                assert forall|v: nat, m: nat| varint_decodes(data@, 5, u32::MAX as nat, v, m) implies m == n by {
                    lemma_varint_decodes_unique(data@, 5, u32::MAX as nat, v, m, length as nat, n as nat);
                }
            }
            if n >= data.len() {
                return Err(McError::BufferUnderrun);
            }
            Ok(PacketInformation { length, id: data[n] })
        },
        Err(e) => Err(e),
    }
}

} // verus!

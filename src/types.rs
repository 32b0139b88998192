use vstd::prelude::*;
use crate::error::McError;

verus! {

/// Largest number of bytes a VarInt of 32 bits may take on the wire.
pub const VARINT32_MAX_BYTES: usize = 5;

/// Largest number of bytes a VarInt of 64 bits may take on the wire.
pub const VARINT64_MAX_BYTES: usize = 10;

/// `128` raised to `k`.
pub open spec fn pow128(k: nat) -> nat
    decreases k,
{
    if k == 0 { 1 } else { 128 * pow128((k - 1) as nat) }
}

/// The minimal VarInt encoding of `v`: seven bits per byte, least significant
/// group first, bit 7 set on every byte but the last.
pub open spec fn varint_encoding(v: nat) -> Seq<u8>
    decreases v,
{
    if v < 128 {
        seq![v as u8]
    } else {
        seq![(v % 128 + 128) as u8] + varint_encoding(v / 128)
    }
}

/// Number of bytes in the minimal VarInt encoding of `v`.
pub open spec fn varint_size(v: nat) -> nat
    decreases v,
{
    if v < 128 { 1 } else { 1 + varint_size(v / 128) }
}

/// The integer carried by the seven-bit groups of `bytes`, first byte least
/// significant; continuation bits are ignored.
pub open spec fn groups_value(bytes: Seq<u8>) -> nat
    decreases bytes.len(),
{
    if bytes.len() == 0 {
        0
    } else {
        groups_value(bytes.drop_last()) + (bytes.last() % 128) as nat * pow128(
            (bytes.len() - 1) as nat,
        )
    }
}

/// The first VarInt of `bytes` ends after `n` bytes: byte `n - 1` is the first
/// one with bit 7 clear.
pub open spec fn varint_ends_at(bytes: Seq<u8>, n: nat) -> bool {
    &&& 1 <= n <= bytes.len()
    &&& bytes[n - 1] < 128
    &&& forall|j: int| 0 <= j < n - 1 ==> bytes[j] >= 128
}

/// `bytes` begins with a VarInt of at most `max_bytes` bytes whose value `v`
/// is at most `max_value`, and it takes `n` bytes.
pub open spec fn varint_decodes(bytes: Seq<u8>, max_bytes: nat, max_value: nat, v: nat, n: nat) -> bool {
    &&& varint_ends_at(bytes, n)
    &&& n <= max_bytes
    &&& v == groups_value(bytes.take(n as int))
    &&& v <= max_value
}

/// `bytes` begins with an acceptable VarInt (see `varint_decodes`).
pub open spec fn varint_readable(bytes: Seq<u8>, max_bytes: nat, max_value: nat) -> bool {
    exists|v: nat, n: nat| varint_decodes(bytes, max_bytes, max_value, v, n)
}

/// What reading a VarInt from the start of `bytes` gives: its value and the
/// number of bytes it takes, or `MalformedVarInt`.
pub open spec fn varint_parse(bytes: Seq<u8>, max_bytes: nat, max_value: nat) -> Result<(nat, nat), McError> {
    if varint_readable(bytes, max_bytes, max_value) {
        let (v, n) = choose|v: nat, n: nat| varint_decodes(bytes, max_bytes, max_value, v, n);
        Ok((v, n))
    } else {
        Err(McError::MalformedVarInt)
    }
}

/// A decoding that was found is the one `varint_parse` names.
pub proof fn lemma_varint_parse_is(bytes: Seq<u8>, max_bytes: nat, max_value: nat, v: nat, n: nat)
    requires
        varint_decodes(bytes, max_bytes, max_value, v, n),
    ensures
        varint_parse(bytes, max_bytes, max_value) == Ok::<(nat, nat), McError>((v, n)),
{
    assert(varint_readable(bytes, max_bytes, max_value));
    let (w, m) = choose|w: nat, m: nat| varint_decodes(bytes, max_bytes, max_value, w, m);
    lemma_varint_decodes_unique(bytes, max_bytes, max_value, v, n, w, m);
}

/// No byte of `bytes.take(k)` ends a VarInt.
pub open spec fn all_continued(bytes: Seq<u8>, k: int) -> bool {
    forall|j: int| 0 <= j < k ==> bytes[j] >= 128
}

pub proof fn lemma_pow128_pos(k: nat)
    ensures
        pow128(k) >= 1,
    decreases k,
{
    if k > 0 {
        lemma_pow128_pos((k - 1) as nat);
    }
}

pub proof fn lemma_pow128_mono(a: nat, b: nat)
    requires
        a <= b,
    ensures
        pow128(a) <= pow128(b),
    decreases b,
{
    if a < b {
        lemma_pow128_mono(a, (b - 1) as nat);
        lemma_pow128_pos((b - 1) as nat);
    }
}

/// The end of a VarInt is unique.
pub proof fn lemma_varint_end_unique(bytes: Seq<u8>, n: nat, m: nat)
    requires
        varint_ends_at(bytes, n),
        varint_ends_at(bytes, m),
    ensures
        n == m,
{
    if n < m {
        assert(bytes[n - 1] >= 128);
    } else if m < n {
        assert(bytes[m - 1] >= 128);
    }
}

/// What is decoded from `bytes` is determined by `bytes`.
pub proof fn lemma_varint_decodes_unique(
    bytes: Seq<u8>,
    max_bytes: nat,
    max_value: nat,
    v: nat,
    n: nat,
    w: nat,
    m: nat,
)
    requires
        varint_decodes(bytes, max_bytes, max_value, v, n),
        varint_decodes(bytes, max_bytes, max_value, w, m),
    ensures
        v == w,
        n == m,
{
    lemma_varint_end_unique(bytes, n, m);
}

/// The size of the encoding is its length.
pub proof fn lemma_varint_size(v: nat)
    ensures
        varint_encoding(v).len() == varint_size(v),
        varint_size(v) >= 1,
    decreases v,
{
    if v >= 128 {
        lemma_varint_size(v / 128);
    }
}

/// A value under `128^k` takes at most `k` bytes.
pub proof fn lemma_varint_size_bound(v: nat, k: nat)
    requires
        k >= 1,
        v < pow128(k),
    ensures
        varint_size(v) <= k,
    decreases k,
{
    if v >= 128 {
        if k == 1 {
            assert(pow128(1) == 128 * pow128(0));
        } else {
            let k1 = (k - 1) as nat;
            assert(pow128(k) == 128 * pow128(k1));
            assert(v / 128 < pow128(k1)) by (nonlinear_arith)
                requires
                    v < 128 * pow128(k1),
            ;
            lemma_varint_size_bound(v / 128, k1);
        }
    }
}

/// Every byte of the encoding but the last has bit 7 set, the last has it clear,
/// and the last is zero only for the one-byte encoding of zero.
pub proof fn lemma_varint_encoding_shape(v: nat)
    ensures
        varint_encoding(v).last() < 128,
        all_continued(varint_encoding(v), varint_encoding(v).len() - 1),
        varint_encoding(v).len() > 1 ==> varint_encoding(v).last() != 0,
    decreases v,
{
    lemma_varint_size(v);
    if v >= 128 {
        lemma_varint_encoding_shape(v / 128);
        lemma_varint_size(v / 128);
        let e = varint_encoding(v);
        let t = varint_encoding(v / 128);
        assert(e =~= seq![(v % 128 + 128) as u8] + t);
        assert forall|j: int| 0 <= j < e.len() - 1 implies e[j] >= 128 by {
            if j > 0 {
                assert(e[j] == t[j - 1]);
            }
        }
        if t.len() == 1 {
            assert(v / 128 >= 1);
            assert(t.last() == (v / 128) as u8);
        }
    }
}

/// Reading the groups of a byte put in front of `s`.
pub proof fn lemma_groups_value_cons(b: u8, s: Seq<u8>)
    ensures
        groups_value(seq![b] + s) == (b % 128) as nat + 128 * groups_value(s),
    decreases s.len(),
{
    let t = seq![b] + s;
    if s.len() == 0 {
        assert(t.drop_last() =~= Seq::<u8>::empty());
        assert(pow128(0) == 1);
        assert(groups_value(t) == groups_value(t.drop_last()) + (t.last() % 128) as nat * pow128(0));
    } else {
        assert(t.drop_last() =~= seq![b] + s.drop_last());
        lemma_groups_value_cons(b, s.drop_last());
        let k = (s.len() - 1) as nat;
        assert(pow128(k + 1) == 128 * pow128(k));
        assert(t.last() == s.last());
        let x = (s.last() % 128) as nat;
        let a = groups_value(s.drop_last());
        assert(groups_value(s) == a + x * pow128(k));
        assert(groups_value(t) == groups_value(seq![b] + s.drop_last()) + x * pow128(k + 1));
        assert(x * (128 * pow128(k)) + 128 * a == 128 * (a + x * pow128(k))) by (nonlinear_arith);
    }
}

/// The groups of the encoding of `v` carry `v`.
pub proof fn lemma_varint_encoding_value(v: nat)
    ensures
        groups_value(varint_encoding(v)) == v,
    decreases v,
{
    if v < 128 {
        let e = varint_encoding(v);
        assert(e.drop_last() =~= Seq::<u8>::empty());
        assert(pow128(0) == 1);
        assert(groups_value(Seq::<u8>::empty()) == 0);
        assert(groups_value(e) == groups_value(e.drop_last()) + (e.last() % 128) as nat * pow128(0));
    } else {
        lemma_varint_encoding_value(v / 128);
        let b = (v % 128 + 128) as u8;
        assert(b % 128 == v % 128);
        lemma_groups_value_cons(b, varint_encoding(v / 128));
    }
}

/// The encoding of `v`, followed by anything, decodes to `v` and takes exactly
/// the bytes of the encoding.
pub proof fn lemma_varint_round_trip(v: nat, rest: Seq<u8>, max_bytes: nat, max_value: nat)
    requires
        v <= max_value,
        varint_size(v) <= max_bytes,
    ensures
        varint_decodes(
            varint_encoding(v) + rest,
            max_bytes,
            max_value,
            v,
            varint_size(v),
        ),
        varint_readable(varint_encoding(v) + rest, max_bytes, max_value),
        varint_parse(varint_encoding(v) + rest, max_bytes, max_value) == Ok::<(nat, nat), McError>(
            (v, varint_size(v)),
        ),
{
    lemma_varint_size(v);
    lemma_varint_encoding_shape(v);
    lemma_varint_encoding_value(v);
    let e = varint_encoding(v);
    let s = e + rest;
    assert(s.take(e.len() as int) =~= e);
    assert(s[e.len() - 1] == e.last());
    assert forall|j: int| 0 <= j < e.len() - 1 implies s[j] >= 128 by {
        assert(s[j] == e[j]);
    }
    assert(varint_decodes(s, max_bytes, max_value, v, varint_size(v)));
    lemma_varint_parse_is(s, max_bytes, max_value, v, varint_size(v));
}

/// For every 64-bit value, decoding its encoding gives the value back and takes
/// the whole encoding; and the encoding is minimal: only its last byte has bit
/// 7 clear, and that byte is zero only in the one-byte encoding of zero.
pub proof fn lemma_varint_codec(v: u64)
    ensures
        varint_decodes(varint_encoding(v as nat), 10, u64::MAX as nat, v as nat, varint_size(v as nat)),
        varint_encoding(v as nat).len() == varint_size(v as nat),
        varint_size(v as nat) <= 10,
        varint_encoding(v as nat).last() < 128,
        all_continued(varint_encoding(v as nat), varint_encoding(v as nat).len() - 1),
        varint_encoding(v as nat).len() > 1 ==> varint_encoding(v as nat).last() != 0,
{
    lemma_pow128_values();
    lemma_varint_size_bound(v as nat, 10);
    lemma_varint_size(v as nat);
    lemma_varint_encoding_shape(v as nat);
    lemma_varint_round_trip(v as nat, Seq::empty(), 10, u64::MAX as nat);
    assert(varint_encoding(v as nat) + Seq::<u8>::empty() =~= varint_encoding(v as nat));
}

/// A VarInt on the wire: a non-negative integer of 32 bits.
#[derive(Debug, Clone, Copy, PartialEq, Eq, Structural)]
pub struct VarInt(pub u32);

impl View for VarInt {
    type V = u32;

    open spec fn view(&self) -> u32 {
        self.0
    }
}

impl VarInt {
    pub fn wrap(value: u32) -> (r: VarInt)
        ensures
            r@ == value,
    {
        VarInt(value)
    }

    pub fn get_value(&self) -> (r: u32)
        ensures
            r == self@,
    {
        self.0
    }

    /// Number of bytes of the minimal encoding of this value.
    pub fn byte_len(&self) -> (r: usize)
        ensures
            r == varint_size(self@ as nat),
            1 <= r <= VARINT32_MAX_BYTES,
    {
        proof {
            lemma_pow128_values();
            lemma_varint_size_bound(self@ as nat, 5);
        }
        let mut curr: u32 = self.get_value();
        let mut length: usize = 1;
        while curr >= 128
            invariant
                1 <= length <= varint_size(self@ as nat),
                varint_size(self@ as nat) <= 5,
                length + varint_size(curr as nat) == varint_size(self@ as nat) + 1,
            decreases curr,
        {
            proof {
                lemma_varint_size((curr / 128) as nat);
            }
            curr = curr / 128;
            length = length + 1;
        }
        length
    }
}

/// The powers of 128 that bound the widths of 32 and 64 bits.
pub proof fn lemma_pow128_values()
    ensures
        pow128(5) == 0x8_0000_0000,
        pow128(9) == 0x8000_0000_0000_0000,
        pow128(10) == 0x40_0000_0000_0000_0000,
{
    reveal_with_fuel(pow128, 11);
}

} // verus!

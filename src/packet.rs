use vstd::prelude::*;
use crate::field::PacketField;
use crate::types::{
    lemma_pow128_values, lemma_varint_size, lemma_varint_size_bound, varint_encoding, VarInt,
};
use crate::utils::size_of_varint;

verus! {

/// The header of one frame: the length that follows the length prefix, and
/// the packet id.
#[derive(Debug, Clone, Copy, PartialEq, Eq, Structural)]
pub struct PacketInformation {
    pub length: u64,
    pub id: u8,
}

/// A whole frame on the wire: the VarInt length of what follows it, the
/// packet id, then the fields.
pub open spec fn frame(id: u8, body: Seq<u8>) -> Seq<u8> {
    varint_encoding(body.len() + 1) + seq![id] + body
}

/// A field whose wire size is known without writing it.
pub trait Sized: PacketField {
    fn get_size(&self) -> (r: usize)
        requires
            Self::representable(self@),
        ensures
            r == Self::wire(self@).len(),
    ;
}

impl Sized for String {
    fn get_size(&self) -> (r: usize) {
        let size = self.as_str().len();
        proof {
            lemma_pow128_values();
            lemma_varint_size_bound(size as nat, 5);
            lemma_varint_size(size as nat);
        }
        size + size_of_varint(size as u64)
    }
}

impl Sized for VarInt {
    fn get_size(&self) -> (r: usize) {
        proof {
            lemma_varint_size(self@ as nat);
        }
        self.byte_len()
    }
}

impl Sized for u8 {
    fn get_size(&self) -> (r: usize) {
        1
    }
}

impl Sized for u16 {
    fn get_size(&self) -> (r: usize) {
        2
    }
}

} // verus!

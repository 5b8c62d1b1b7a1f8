//! A record of one identifier and one number, in eight bytes.

use crate::utils::{
    le_u32, lemma_u32_round_trip, read_u32, u32_le, u32_to_bytes,
};
use vstd::prelude::*;

verus! {

/// An identifier, which is not zero, and a number.
#[derive(Debug, Clone, Copy, PartialEq, Eq, PartialOrd, Ord, Hash)]
pub struct Record {
    pub id: u32,
    pub val: u32,
}

/// The eight bytes of a record: identifier, then number, each
/// little-endian.
pub open spec fn record_bytes(r: Record) -> Seq<u8> {
    le_u32(r.id) + le_u32(r.val)
}

/// The record that eight bytes spell. An identifier of zero is read as 1.
pub open spec fn parse_fixed(bytes: Seq<u8>) -> Record {
    Record {
        id: if u32_le(bytes) == 0 {
            1
        } else {
            u32_le(bytes)
        },
        val: u32_le(bytes.skip(4)),
    }
}

/// A record whose identifier is not zero is read back from its bytes.
pub proof fn lemma_record_round_trip(r: Record)
    requires
        r.id != 0,
    ensures
        record_bytes(r).len() == 8,
        parse_fixed(record_bytes(r)) == r,
{
    lemma_u32_round_trip(r.id, le_u32(r.val));
    lemma_u32_round_trip(r.val, Seq::empty());
    assert(record_bytes(r).skip(4) =~= le_u32(r.val) + Seq::<u8>::empty());
}

impl Record {
    /// The record's eight bytes.
    pub fn to_bytes(self) -> (r: Vec<u8>)
        ensures
            r@ == record_bytes(self),
    {
        let mut res = u32_to_bytes(self.id);
        let mut val = u32_to_bytes(self.val);
        res.append(&mut val);
        res
    }

    /// The record that eight bytes spell. An identifier of zero is read as
    /// 1.
    pub fn from_bytes(bytes: &[u8; 8]) -> (r: Self)
        ensures
            r == parse_fixed(bytes@),
            r.id != 0,
    {
        let slice = bytes.as_slice();
        let id = read_u32(slice, 0);
        let val = read_u32(slice, 4);
        assert(slice@.skip(0) =~= slice@);
        Record {
            id: if id == 0 {
                1
            } else {
                id
            },
            val,
        }
    }
}

} // verus!

//! Segment-within-session sequence numbers.
use crate::text::{dec_text, push_decimal};
use vstd::prelude::*;

verus! {

/// Zero-based index of a segment file within its session: zero for the
/// first segment of a session, one more on each roll.
#[derive(Copy, Clone, Debug, PartialEq, Eq, Structural, PartialOrd, Ord, Hash)]
pub struct SeqId(u64);

impl View for SeqId {
    type V = u64;

    closed spec fn view(&self) -> u64 {
        self.0
    }
}

/// Two sequence numbers are equal exactly when their values are.
pub broadcast proof fn lemma_seqid_view_injective(a: SeqId, b: SeqId)
    ensures
        #![trigger a@, b@]
        (a@ == b@) <==> a == b,
{
}

impl SeqId {
    /// The first sequence number in a session.
    pub fn zero() -> (r: SeqId)
        ensures
            r@ == 0,
    {
        SeqId(0)
    }

    /// Wraps a raw value.
    pub fn from_u64(v: u64) -> (r: SeqId)
        ensures
            r@ == v,
    {
        SeqId(v)
    }

    /// The underlying value.
    pub fn as_u64(self) -> (r: u64)
        ensures
            r == self@,
    {
        self.0
    }

    /// The next sequence number, saturating at `u64::MAX`.
    pub fn saturating_next(self) -> (r: SeqId)
        ensures
            r@ == if self@ == u64::MAX { u64::MAX } else { (self@ + 1) as u64 },
    {
        SeqId(self.0.saturating_add(1))
    }

    /// Little-endian byte encoding of the underlying value.
    pub fn to_le_bytes(self) -> (r: [u8; 8])
        ensures
            r@ == vstd::bytes::spec_u64_to_le_bytes(self@),
    {
        crate::le::u64_to_le_array(self.0)
    }

    /// Builds a sequence number from its little-endian byte encoding.
    pub fn from_le_bytes(bytes: [u8; 8]) -> (r: SeqId)
        ensures
            r@ == vstd::bytes::spec_u64_from_le_bytes(bytes@),
    {
        SeqId(crate::le::u64_from_le_array(bytes))
    }

    /// Decimal rendering of the value.
    pub fn to_string(&self) -> (r: String)
        ensures
            r@ == dec_text(self@ as nat),
    {
        let mut s = String::new();
        push_decimal(self.0, &mut s);
        s
    }
}

/// Decoding the little-endian bytes of a sequence number gives it back.
pub proof fn lemma_seqid_le_roundtrip(s: SeqId)
    ensures
        vstd::bytes::spec_u64_from_le_bytes(vstd::bytes::spec_u64_to_le_bytes(s@)) == s@,
{
    vstd::bytes::lemma_auto_spec_u64_to_from_le_bytes();
}

} // verus!

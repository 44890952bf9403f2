//! Little-endian fixed-width integer encodings into byte arrays.
use vstd::bytes::*;
use vstd::prelude::*;

verus! {

/// Little-endian bytes of a `u64`.
pub fn u64_to_le_array(x: u64) -> (r: [u8; 8])
    ensures
        r@ == spec_u64_to_le_bytes(x),
{
    let r: [u8; 8] = [
        (x & 0xff) as u8,
        ((x >> 8) & 0xff) as u8,
        ((x >> 16) & 0xff) as u8,
        ((x >> 24) & 0xff) as u8,
        ((x >> 32) & 0xff) as u8,
        ((x >> 40) & 0xff) as u8,
        ((x >> 48) & 0xff) as u8,
        ((x >> 56) & 0xff) as u8,
    ];
    proof {
        spec_u64_to_le_bytes_to_open(x);
        assert(r@ =~= spec_u64_to_le_bytes_open(x));
    }
    r
}

/// The `u64` whose little-endian bytes are `b`.
pub fn u64_from_le_array(b: [u8; 8]) -> (x: u64)
    ensures
        x == spec_u64_from_le_bytes(b@),
{
    u64_from_le_bytes(b.as_slice())
}

/// Little-endian bytes of a `u32`.
pub fn u32_to_le_array(x: u32) -> (r: [u8; 4])
    ensures
        r@ == spec_u32_to_le_bytes(x),
{
    let v = u32_to_le_bytes(x);
    let r: [u8; 4] = [v[0], v[1], v[2], v[3]];
    proof {
        assert(r@ =~= v@);
    }
    r
}

/// The `u32` whose little-endian bytes are `b`.
pub fn u32_from_le_array(b: [u8; 4]) -> (x: u32)
    ensures
        x == spec_u32_from_le_bytes(b@),
{
    u32_from_le_bytes(b.as_slice())
}

} // verus!

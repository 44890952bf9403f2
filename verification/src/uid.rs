//! Unique identifiers built from a nanosecond clock reading, stored with a
//! one-nanosecond offset so that the all-zero pattern is free to mark a
//! continuation.
use crate::radix::{spec_radix_value, u128_from_str_radix};
use vstd::bytes::*;
use std::cmp::Ordering;
use vstd::prelude::*;
use vstd::std_specs::cmp::PartialOrdSpecImpl;

verus! {

/// Identifier: nanoseconds since the UNIX epoch plus one, split into whole
/// seconds and nanoseconds below one second.
#[derive(Debug, Clone, Copy, Default, PartialEq, Eq, Structural)]
pub struct Uid {
    nanos: u32,
    secs: u64,
}

impl View for Uid {
    type V = (u64, u32);

    closed spec fn view(&self) -> (u64, u32) {
        (self.secs, self.nanos)
    }
}

/// Two uids are equal exactly when their views are.
pub broadcast proof fn lemma_uid_view_injective(a: Uid, b: Uid)
    ensures
        #![trigger a@, b@]
        (a@ == b@) <==> a == b,
{
}

/// Stored nanosecond count (the real count plus one).
pub open spec fn uid_raw(t: (u64, u32)) -> nat {
    t.0 as nat * 1_000_000_000 + t.1 as nat
}

/// The stored fields for a stored nanosecond count, seconds truncated to
/// 64 bits.
pub open spec fn uid_fields_of_raw(n: nat) -> (u64, u32) {
    ((n / 1_000_000_000) as u64, (n % 1_000_000_000) as u32)
}

/// Largest count `from_nanos` accepts.
pub open spec fn uid_from_nanos_ok(n: nat) -> bool {
    n + 1 <= u128::MAX && (n + 1) / 1_000_000_000 <= u64::MAX
}

impl Uid {
    /// Packed length on disk: four bytes of nanoseconds, eight of seconds.
    pub const PACKLEN: usize = 12;

    /// The earliest uid (zero nanoseconds after the epoch).
    pub fn zero() -> (r: Uid)
        ensures
            r@ == (0u64, 1u32),
    {
        Self::from_nanos_raw(1)
    }

    /// The continuation marker: all bits zero. Identifiers made by
    /// `from_nanos` always carry the offset, so they never equal it.
    pub fn cont() -> (r: Uid)
        ensures
            r@ == (0u64, 0u32),
    {
        Self::new_raw(0, 0)
    }

    /// The largest uid, equal to `Uid::new(u64::MAX, 999_999_998)`.
    pub fn max_value() -> (r: Uid)
        ensures
            r@ == (u64::MAX, 999_999_999u32),
    {
        Self::new_raw(0xffff_ffff_ffff_ffff, 999_999_999)
    }

    /// Builds a uid from seconds and nanoseconds, adding the
    /// one-nanosecond offset (carrying once into the seconds).
    pub fn new(secs: u64, nanos: u32) -> (r: Uid)
        requires
            nanos + 1 >= 1_000_000_000 ==> secs < u64::MAX,
        ensures
            r@ == if nanos + 1 >= 1_000_000_000 {
                ((secs + 1) as u64, (nanos + 1 - 1_000_000_000) as u32)
            } else {
                (secs, (nanos + 1) as u32)
            },
    {
        let mut secs = secs;
        let mut nanos: u64 = nanos as u64 + 1;
        if nanos >= 1_000_000_000 {
            nanos -= 1_000_000_000;
            secs += 1;
        }
        Uid { nanos: nanos as u32, secs }
    }

    fn new_raw(secs: u64, nanos: u32) -> (r: Uid)
        ensures
            r@ == (secs, nanos),
    {
        Uid { nanos, secs }
    }

    /// Lower-case hex form: the seconds zero-padded to at least eight
    /// digits, then the stored nanoseconds zero-padded to at least four.
    pub fn to_lower_hex(&self) -> (r: String)
        ensures
            r@ == crate::segid::hex_padded(self@.0 as nat, 8) + crate::segid::hex_padded(self@.1 as nat, 4),
    {
        let mut out = String::new();
        crate::segid::push_hex_padded(self.secs, 8, &mut out);
        crate::segid::push_hex_padded(self.nanos as u64, 4, &mut out);
        out
    }

    /// Length when packed.
    pub fn packlen(&self) -> (r: usize)
        ensures
            r == 12,
    {
        4 + 8
    }

    /// Builds a uid from a nanosecond count since the epoch.
    pub fn from_nanos(nanos_arg: u128) -> (r: Uid)
        requires
            uid_from_nanos_ok(nanos_arg as nat),
        ensures
            r@ == uid_fields_of_raw(nanos_arg as nat + 1),
            uid_raw(r@) == nanos_arg as nat + 1,
    {
        let n = nanos_arg + 1;
        let nanos = (n % 1_000_000_000) as u32;
        let secs = (n / 1_000_000_000) as u64;
        proof {
            vstd::arithmetic::div_mod::lemma_fundamental_div_mod(n as int, 1_000_000_000);
        }
        Uid { nanos, secs }
    }

    fn from_nanos_raw(nanos_arg: u128) -> (r: Uid)
        ensures
            r@ == (((nanos_arg / 1_000_000_000) % 0x1_0000_0000_0000_0000) as u64, (nanos_arg
                % 1_000_000_000) as u32),
    {
        let nanos = (nanos_arg % 1_000_000_000) as u32;
        let secs = ((nanos_arg / 1_000_000_000) % 0x1_0000_0000_0000_0000) as u64;
        Uid { nanos, secs }
    }

    /// Nanoseconds since the epoch (the stored count minus the offset).
    pub fn as_nanos(&self) -> (r: u128)
        requires
            uid_raw(self@) >= 1,
        ensures
            r == uid_raw(self@) - 1,
    {
        self.as_nanos_raw() - 1
    }

    fn as_nanos_raw(&self) -> (r: u128)
        ensures
            r == uid_raw(self@),
    {
        self.secs as u128 * 1_000_000_000 + self.nanos as u128
    }

    /// The identifier in microseconds, any sub-microsecond part dropped.
    pub fn as_micros(&self) -> (r: u128)
        requires
            uid_raw(self@) >= 1,
        ensures
            r == (uid_raw(self@) - 1) / 1000,
    {
        self.as_nanos() / 1_000
    }

    /// Builds an identifier from a microsecond count.
    pub fn from_micros(micros: u128) -> (r: Uid)
        requires
            micros * 1000 <= u128::MAX,
            uid_from_nanos_ok(micros as nat * 1000),
        ensures
            uid_raw(r@) == micros as nat * 1000 + 1,
    {
        Uid::from_nanos(micros * 1_000)
    }

    /// Packed bytes: nanoseconds then seconds, little-endian.
    pub fn to_le_bytes(&self) -> (r: [u8; 12])
        ensures
            r@ == spec_u32_to_le_bytes(self@.1) + spec_u64_to_le_bytes(self@.0),
    {
        let a = crate::le::u32_to_le_array(self.nanos);
        let b = crate::le::u64_to_le_array(self.secs);
        let r: [u8; 12] = [a[0], a[1], a[2], a[3], b[0], b[1], b[2], b[3], b[4], b[5], b[6], b[7]];
        proof {
            assert(r@ =~= a@ + b@);
        }
        r
    }

    /// Unpacks the bytes written by `to_le_bytes`.
    pub fn from_le_bytes(buf: [u8; 12]) -> (r: Uid)
        ensures
            r@ == (spec_u64_from_le_bytes(buf@.subrange(4, 12)), spec_u32_from_le_bytes(
                buf@.subrange(0, 4),
            )),
    {
        let a: [u8; 4] = [buf[0], buf[1], buf[2], buf[3]];
        let b: [u8; 8] = [buf[4], buf[5], buf[6], buf[7], buf[8], buf[9], buf[10], buf[11]];
        proof {
            assert(a@ =~= buf@.subrange(0, 4));
            assert(b@ =~= buf@.subrange(4, 12));
        }
        let nanos = crate::le::u32_from_le_array(a);
        let secs = crate::le::u64_from_le_array(b);
        Uid { nanos, secs }
    }

    /// Parses a nanosecond count written in `radix`.
    pub fn from_str_radix(src: &str, radix: u32) -> (r: Result<Uid, std::num::ParseIntError>)
        requires
            2 <= radix <= 36,
            spec_radix_value(src@, radix) matches Some(n) ==> (n <= u128::MAX ==> uid_from_nanos_ok(n)),
        ensures
            r is Ok <==> (spec_radix_value(src@, radix) matches Some(n) && n <= u128::MAX),
            r matches Ok(t) ==> uid_raw(t@) == spec_radix_value(src@, radix).unwrap() + 1,
    {
        let nanos = u128_from_str_radix(src, radix)?;
        Ok(Uid::from_nanos(nanos))
    }
}
/// Identifiers order by seconds, then nanoseconds.
impl PartialOrd for Uid {
    fn partial_cmp(&self, other: &Uid) -> (r: Option<Ordering>) {
        if self.secs < other.secs {
            Some(Ordering::Less)
        } else if self.secs > other.secs {
            Some(Ordering::Greater)
        } else if self.nanos < other.nanos {
            Some(Ordering::Less)
        } else if self.nanos > other.nanos {
            Some(Ordering::Greater)
        } else {
            Some(Ordering::Equal)
        }
    }
}

impl PartialOrdSpecImpl for Uid {
    open spec fn obeys_partial_cmp_spec() -> bool {
        true
    }

    open spec fn partial_cmp_spec(&self, other: &Uid) -> Option<Ordering> {
        if self@.0 < other@.0 {
            Some(Ordering::Less)
        } else if self@.0 > other@.0 {
            Some(Ordering::Greater)
        } else if self@.1 < other@.1 {
            Some(Ordering::Less)
        } else if self@.1 > other@.1 {
            Some(Ordering::Greater)
        } else {
            Some(Ordering::Equal)
        }
    }
}


/// The count given to `from_nanos` reads back from `as_nanos`.
pub proof fn lemma_uid_nanos_roundtrip(n: nat)
    requires
        uid_from_nanos_ok(n),
    ensures
        uid_raw(uid_fields_of_raw(n + 1)) == n + 1,
{
    vstd::arithmetic::div_mod::lemma_fundamental_div_mod((n + 1) as int, 1_000_000_000);
}

/// Packing and unpacking a uid gives it back.
pub proof fn lemma_uid_bytes_roundtrip(t: (u64, u32))
    ensures
        ({
            let b = spec_u32_to_le_bytes(t.1) + spec_u64_to_le_bytes(t.0);
            (spec_u64_from_le_bytes(b.subrange(4, 12)), spec_u32_from_le_bytes(b.subrange(0, 4)))
                == t
        }),
{
    lemma_auto_spec_u64_to_from_le_bytes();
    lemma_auto_spec_u32_to_from_le_bytes();
    let b = spec_u32_to_le_bytes(t.1) + spec_u64_to_le_bytes(t.0);
    assert(b.subrange(0, 4) =~= spec_u32_to_le_bytes(t.1));
    assert(b.subrange(4, 12) =~= spec_u64_to_le_bytes(t.0));
}

} // verus!

//! Nanosecond timestamps stored with a one-nanosecond offset, so that the
//! all-zero bit pattern never denotes a real time.
use crate::radix::{spec_radix_value, u128_from_str_radix};
use vstd::bytes::*;
use std::cmp::Ordering;
use vstd::prelude::*;
use vstd::std_specs::cmp::PartialOrdSpecImpl;

verus! {

/// Timestamp: nanoseconds since the UNIX epoch plus one, split into whole
/// seconds and nanoseconds below one second.
#[derive(Debug, Clone, Copy, Default, PartialEq, Eq, Structural)]
pub struct Timestamp {
    nanos: u32,
    secs: u64,
}

impl View for Timestamp {
    type V = (u64, u32);

    closed spec fn view(&self) -> (u64, u32) {
        (self.secs, self.nanos)
    }
}

/// Two timestamps are equal exactly when their views are.
pub broadcast proof fn lemma_timestamp_view_injective(a: Timestamp, b: Timestamp)
    ensures
        #![trigger a@, b@]
        (a@ == b@) <==> a == b,
{
}

/// Stored nanosecond count (the real count plus one).
pub open spec fn ts_raw(t: (u64, u32)) -> nat {
    t.0 as nat * 1_000_000_000 + t.1 as nat
}

/// The stored fields for a stored nanosecond count, seconds truncated to
/// 64 bits.
pub open spec fn ts_fields_of_raw(n: nat) -> (u64, u32) {
    ((n / 1_000_000_000) as u64, (n % 1_000_000_000) as u32)
}

/// Largest count `from_nanos` accepts.
pub open spec fn ts_from_nanos_ok(n: nat) -> bool {
    n + 1 <= u128::MAX && (n + 1) / 1_000_000_000 <= u64::MAX
}

impl Timestamp {
    /// Packed length on disk: four bytes of nanoseconds, eight of seconds.
    pub const PACKLEN: usize = 12;

    /// The earliest timestamp (zero nanoseconds after the epoch).
    pub fn zero() -> (r: Timestamp)
        ensures
            r@ == (0u64, 1u32),
    {
        Self::from_nanos_raw(1)
    }

    /// The continuation marker: all bits zero. Every timestamp made by
    /// `new` or `from_nanos` carries the offset, so none equals it.
    pub fn cont() -> (r: Timestamp)
        ensures
            r@ == (0u64, 0u32),
    {
        Self::new_raw(0, 0)
    }

    /// The largest timestamp, equal to `Timestamp::new(u64::MAX, 999_999_998)`.
    pub fn max_value() -> (r: Timestamp)
        ensures
            r@ == (u64::MAX, 999_999_999u32),
    {
        Self::new_raw(0xffff_ffff_ffff_ffff, 999_999_999)
    }

    /// Builds a timestamp from seconds and nanoseconds, adding the
    /// one-nanosecond offset (carrying once into the seconds).
    pub fn new(secs: u64, nanos: u32) -> (r: Timestamp)
        requires
            nanos + 1 >= 1_000_000_000 ==> secs < u64::MAX,
        ensures
            r@ == if nanos + 1 >= 1_000_000_000 {
                ((secs + 1) as u64, (nanos + 1 - 1_000_000_000) as u32)
            } else {
                (secs, (nanos + 1) as u32)
            },
            r@ != (0u64, 0u32),
    {
        let mut secs = secs;
        let mut nanos: u64 = nanos as u64 + 1;
        if nanos >= 1_000_000_000 {
            nanos -= 1_000_000_000;
            secs += 1;
        }
        Timestamp { nanos: nanos as u32, secs }
    }

    fn new_raw(secs: u64, nanos: u32) -> (r: Timestamp)
        ensures
            r@ == (secs, nanos),
    {
        Timestamp { nanos, secs }
    }

    /// Lower-case hex form: the seconds zero-padded to at least eight
    /// digits, then the stored nanoseconds zero-padded to at least four.
    pub fn to_lower_hex(&self) -> (r: String)
        ensures
            r@ == crate::segid::hex_padded(self@.0 as nat, 8) + crate::segid::hex_padded(self@.1 as nat, 4),
    {
        let mut out = String::new();
        crate::segid::push_hex_padded(self.secs, 8, &mut out);
        crate::segid::push_hex_padded(self.nanos as u64, 4, &mut out);
        out
    }

    /// Length when packed.
    pub fn packlen(&self) -> (r: usize)
        ensures
            r == 12,
    {
        4 + 8
    }

    /// Builds a timestamp from a nanosecond count since the epoch.
    pub fn from_nanos(nanos_arg: u128) -> (r: Timestamp)
        requires
            ts_from_nanos_ok(nanos_arg as nat),
        ensures
            r@ == ts_fields_of_raw(nanos_arg as nat + 1),
            ts_raw(r@) == nanos_arg as nat + 1,
            r@ != (0u64, 0u32),
    {
        let n = nanos_arg + 1;
        let nanos = (n % 1_000_000_000) as u32;
        let secs = (n / 1_000_000_000) as u64;
        proof {
            vstd::arithmetic::div_mod::lemma_fundamental_div_mod(n as int, 1_000_000_000);
        }
        Timestamp { nanos, secs }
    }

    fn from_nanos_raw(nanos_arg: u128) -> (r: Timestamp)
        ensures
            r@ == (((nanos_arg / 1_000_000_000) % 0x1_0000_0000_0000_0000) as u64, (nanos_arg
                % 1_000_000_000) as u32),
    {
        let nanos = (nanos_arg % 1_000_000_000) as u32;
        let secs = ((nanos_arg / 1_000_000_000) % 0x1_0000_0000_0000_0000) as u64;
        Timestamp { nanos, secs }
    }

    /// Nanoseconds since the epoch (the stored count minus the offset).
    pub fn as_nanos(&self) -> (r: u128)
        requires
            ts_raw(self@) >= 1,
        ensures
            r == ts_raw(self@) - 1,
    {
        self.as_nanos_raw() - 1
    }

    fn as_nanos_raw(&self) -> (r: u128)
        ensures
            r == ts_raw(self@),
    {
        self.secs as u128 * 1_000_000_000 + self.nanos as u128
    }

    /// Packed bytes: nanoseconds then seconds, little-endian.
    pub fn to_le_bytes(&self) -> (r: [u8; 12])
        ensures
            r@ == spec_u32_to_le_bytes(self@.1) + spec_u64_to_le_bytes(self@.0),
    {
        let a = crate::le::u32_to_le_array(self.nanos);
        let b = crate::le::u64_to_le_array(self.secs);
        let r: [u8; 12] = [a[0], a[1], a[2], a[3], b[0], b[1], b[2], b[3], b[4], b[5], b[6], b[7]];
        proof {
            assert(r@ =~= a@ + b@);
        }
        r
    }

    /// Unpacks the bytes written by `to_le_bytes`.
    pub fn from_le_bytes(buf: [u8; 12]) -> (r: Timestamp)
        ensures
            r@ == (spec_u64_from_le_bytes(buf@.subrange(4, 12)), spec_u32_from_le_bytes(
                buf@.subrange(0, 4),
            )),
    {
        let a: [u8; 4] = [buf[0], buf[1], buf[2], buf[3]];
        let b: [u8; 8] = [buf[4], buf[5], buf[6], buf[7], buf[8], buf[9], buf[10], buf[11]];
        proof {
            assert(a@ =~= buf@.subrange(0, 4));
            assert(b@ =~= buf@.subrange(4, 12));
        }
        let nanos = crate::le::u32_from_le_array(a);
        let secs = crate::le::u64_from_le_array(b);
        Timestamp { nanos, secs }
    }

    /// Parses a nanosecond count written in `radix`.
    pub fn from_str_radix(src: &str, radix: u32) -> (r: Result<Timestamp, std::num::ParseIntError>)
        requires
            2 <= radix <= 36,
            spec_radix_value(src@, radix) matches Some(n) ==> (n <= u128::MAX ==> ts_from_nanos_ok(n)),
        ensures
            r is Ok <==> (spec_radix_value(src@, radix) matches Some(n) && n <= u128::MAX),
            r matches Ok(t) ==> ts_raw(t@) == spec_radix_value(src@, radix).unwrap() + 1,
    {
        let nanos = u128_from_str_radix(src, radix)?;
        Ok(Timestamp::from_nanos(nanos))
    }
}
/// Identifiers order by seconds, then nanoseconds.
impl PartialOrd for Timestamp {
    fn partial_cmp(&self, other: &Timestamp) -> (r: Option<Ordering>) {
        if self.secs < other.secs {
            Some(Ordering::Less)
        } else if self.secs > other.secs {
            Some(Ordering::Greater)
        } else if self.nanos < other.nanos {
            Some(Ordering::Less)
        } else if self.nanos > other.nanos {
            Some(Ordering::Greater)
        } else {
            Some(Ordering::Equal)
        }
    }
}

impl PartialOrdSpecImpl for Timestamp {
    open spec fn obeys_partial_cmp_spec() -> bool {
        true
    }

    open spec fn partial_cmp_spec(&self, other: &Timestamp) -> Option<Ordering> {
        if self@.0 < other@.0 {
            Some(Ordering::Less)
        } else if self@.0 > other@.0 {
            Some(Ordering::Greater)
        } else if self@.1 < other@.1 {
            Some(Ordering::Less)
        } else if self@.1 > other@.1 {
            Some(Ordering::Greater)
        } else {
            Some(Ordering::Equal)
        }
    }
}


/// The count given to `from_nanos` reads back from `as_nanos`.
pub proof fn lemma_timestamp_nanos_roundtrip(n: nat)
    requires
        ts_from_nanos_ok(n),
    ensures
        ts_raw(ts_fields_of_raw(n + 1)) == n + 1,
{
    vstd::arithmetic::div_mod::lemma_fundamental_div_mod((n + 1) as int, 1_000_000_000);
}

/// Packing and unpacking a timestamp gives it back.
pub proof fn lemma_timestamp_bytes_roundtrip(t: (u64, u32))
    ensures
        ({
            let b = spec_u32_to_le_bytes(t.1) + spec_u64_to_le_bytes(t.0);
            (spec_u64_from_le_bytes(b.subrange(4, 12)), spec_u32_from_le_bytes(b.subrange(0, 4)))
                == t
        }),
{
    lemma_auto_spec_u64_to_from_le_bytes();
    lemma_auto_spec_u32_to_from_le_bytes();
    let b = spec_u32_to_le_bytes(t.1) + spec_u64_to_le_bytes(t.0);
    assert(b.subrange(0, 4) =~= spec_u32_to_le_bytes(t.1));
    assert(b.subrange(4, 12) =~= spec_u64_to_le_bytes(t.0));
}

/// A timestamp source for tests: each reading is one nanosecond later
/// than the previous one, starting just after the epoch.
#[derive(Debug)]
pub struct Teststamper {
    time: Timestamp,
}

impl Teststamper {
    /// The timestamp last handed out (or the start value).
    pub closed spec fn spec_time(&self) -> (u64, u32) {
        self.time@
    }

    /// A source that starts at `Timestamp::zero()`.
    pub fn new() -> (r: Teststamper)
        ensures
            r.spec_time() == (0u64, 1u32),
    {
        Teststamper { time: Timestamp::zero() }
    }

    /// The timestamp last handed out, without advancing.
    pub fn snapshot(&self) -> (r: Timestamp)
        ensures
            r@ == self.spec_time(),
    {
        self.time
    }

    /// Advances by one nanosecond and returns the new time.
    pub fn timestamp(&mut self) -> (r: Timestamp)
        requires
            ts_raw(old(self).spec_time()) >= 1,
            ts_from_nanos_ok(ts_raw(old(self).spec_time())),
        ensures
            ts_raw(final(self).spec_time()) == ts_raw(old(self).spec_time()) + 1,
            final(self).spec_time() == ts_fields_of_raw(ts_raw(old(self).spec_time()) + 1),
            r@ == final(self).spec_time(),
    {
        let time_ns = self.time.as_nanos() + 1;
        self.time = Timestamp::from_nanos(time_ns);
        self.time
    }
}

} // verus!

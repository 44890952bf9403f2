//! Segment-file data formats, per-record metadata and their text forms.
use crate::calendar::{civil_date, civil_from_days, lemma_civil_year_bound};
use crate::text::{dec_fixed, dec_text, push_char, push_dec_fixed, push_decimal, push_str};
use vstd::prelude::*;

verus! {

/// Size in bytes of the telemetry payload of a data record.
pub type RecSize = u32;

/// Nanoseconds since the UNIX epoch, as stored with `VariableTsRc` records.
pub type Timestamp = u64;

/// Record identifier stored with `VariableTsRc` records; one for the first
/// record of a session.
pub type RecordCount = u64;

/// How records are laid out in the data section of a segment file.
#[derive(Copy, Clone, Debug, PartialEq, Eq, Structural)]
pub enum Format {
    /// Every record holds exactly `n` payload bytes and has no per-record
    /// header; `n` is at least one.
    Fixed(RecSize),
    /// Records carry a length prefix and a payload of any size up to
    /// `RecSize::MAX` bytes.
    VariableSimple,
    /// Like `VariableSimple`, plus a timestamp and a record count.
    VariableTsRc,
}

impl Format {
    /// The one-byte tag that identifies the format in a segment header.
    pub fn tag(self) -> (r: u8)
        ensures
            r == spec_tag(self),
    {
        match self {
            Format::Fixed(_) => 0,
            Format::VariableSimple => 1,
            Format::VariableTsRc => 2,
        }
    }

    /// The `n` of `Fixed(n)`, zero for the other formats.
    pub fn fixed_len(self) -> (r: RecSize)
        ensures
            r == spec_fixed_len(self),
    {
        match self {
            Format::Fixed(n) => n,
            _ => 0,
        }
    }

    /// Bytes of per-record data header on disk.
    pub fn data_header_len(self) -> (r: u32)
        ensures
            r == spec_data_header_len(self),
    {
        match self {
            Format::Fixed(_) => 0,
            Format::VariableSimple => 4,
            Format::VariableTsRc => 4 + 8 + 8,
        }
    }
}

pub open spec fn spec_tag(f: Format) -> u8 {
    match f {
        Format::Fixed(_) => 0,
        Format::VariableSimple => 1,
        Format::VariableTsRc => 2,
    }
}

pub open spec fn spec_fixed_len(f: Format) -> u32 {
    match f {
        Format::Fixed(n) => n,
        _ => 0,
    }
}

pub open spec fn spec_data_header_len(f: Format) -> u32 {
    match f {
        Format::Fixed(_) => 0,
        Format::VariableSimple => 4,
        Format::VariableTsRc => 20,
    }
}

/// Per-record metadata returned to the reader alongside the payload.
#[derive(Copy, Clone, Debug, PartialEq, Eq, Structural)]
pub enum Meta {
    /// The segment uses `Format::Fixed`.
    Fixed,
    /// The segment uses `Format::VariableSimple`.
    VariableSimple,
    /// The segment uses `Format::VariableTsRc`: timestamp, record count.
    VariableTsRc(Timestamp, RecordCount),
}

/// `10^n`.
pub open spec fn pow10(n: nat) -> nat
    decreases n,
{
    if n == 0 {
        1
    } else {
        10 * pow10((n - 1) as nat)
    }
}

/// Decimal form of `v` zero-padded on the left to at least `n` digits.
pub open spec fn pad_dec(v: nat, n: nat) -> Seq<char> {
    if v < pow10(n) {
        dec_fixed(v, n)
    } else {
        dec_text(v)
    }
}

/// ISO 8601 UTC rendering `YYYY-MM-DDTHH:MM:SS.nnnnnnnnnZ` of a timestamp.
pub open spec fn timestamp_text(ts: u64) -> Seq<char> {
    let secs = ts as nat / 1_000_000_000;
    let nanos = ts as nat % 1_000_000_000;
    let days = secs / 86_400;
    let sod = secs % 86_400;
    let date = civil_date(days as int);
    pad_dec(date.0 as nat, 4) + seq!['-'] + pad_dec(date.1 as nat, 2) + seq!['-'] + pad_dec(
        date.2 as nat,
        2,
    ) + seq!['T'] + pad_dec(sod / 3600, 2) + seq![':'] + pad_dec((sod % 3600) / 60, 2) + seq![':']
        + pad_dec(sod % 60, 2) + seq!['.'] + pad_dec(nanos, 9) + seq!['Z']
}

/// Text of the metadata: empty for formats that carry none, else
/// `ts=<timestamp>, rc=<count>`.
pub open spec fn meta_text(m: Meta) -> Seq<char> {
    match m {
        Meta::VariableTsRc(ts, rc) => seq!['t', 's', '='] + timestamp_text(ts) + seq![
            ',',
            ' ',
            'r',
            'c',
            '=',
        ] + dec_text(rc as nat),
        _ => Seq::empty(),
    }
}

/// The parenthesised trailer printed after a record's payload.
pub open spec fn trailer_text(payload_len: nat, m: Meta) -> Seq<char> {
    let head = seq!['('] + dec_text(payload_len) + seq![' ', 'b', 'y', 't', 'e', 's'];
    match m {
        Meta::VariableTsRc(_, _) => head + seq![',', ' '] + meta_text(m) + seq![')'],
        _ => head + seq![')'],
    }
}

/// Renders a timestamp as an ISO 8601 UTC date and time with nanosecond
/// precision, for example `2026-09-21T16:45:12.123456789Z`.
pub fn format_timestamp(ts: Timestamp) -> (r: String)
    ensures
        r@ == timestamp_text(ts),
{
    let mut out = String::new();
    push_timestamp(ts, &mut out);
    out
}

fn push_timestamp(ts: Timestamp, out: &mut String)
    ensures
        final(out)@ == old(out)@ + timestamp_text(ts),
{
    let secs = ts / 1_000_000_000;
    let nanos = ts % 1_000_000_000;
    let days = secs / 86_400;
    let secs_of_day = secs % 86_400;
    let (year, month, day) = civil_from_days(days);
    let hour = secs_of_day / 3600;
    let minute = (secs_of_day % 3600) / 60;
    let second = secs_of_day % 60;
    proof {
        lemma_civil_year_bound(days as int, year as int, month as int, day as int);
        reveal_with_fuel(pow10, 10);
        assert(pow10(2) == 100 && pow10(4) == 10000 && pow10(9) == 1_000_000_000);
        assert(year < 10000);
    }
    let ghost start = out@;
    push_dec_fixed(year, 4, out);
    push_char(out, '-');
    push_dec_fixed(month, 2, out);
    push_char(out, '-');
    push_dec_fixed(day, 2, out);
    push_char(out, 'T');
    push_dec_fixed(hour, 2, out);
    push_char(out, ':');
    push_dec_fixed(minute, 2, out);
    push_char(out, ':');
    push_dec_fixed(second, 2, out);
    push_char(out, '.');
    push_dec_fixed(nanos, 9, out);
    push_char(out, 'Z');
    proof {
        assert(out@ =~= start + timestamp_text(ts));
    }
}

impl Meta {
    /// Comma-separated `field=value` text of the metadata; empty for
    /// formats that carry none.
    pub fn to_string(&self) -> (r: String)
        ensures
            r@ == meta_text(*self),
    {
        let mut out = String::new();
        push_meta(*self, &mut out);
        out
    }
}

fn push_meta(m: Meta, out: &mut String)
    ensures
        final(out)@ == old(out)@ + meta_text(m),
{
    match m {
        Meta::VariableTsRc(ts, rc) => {
            let ghost start = out@;
            push_char(out, 't');
            push_char(out, 's');
            push_char(out, '=');
            push_timestamp(ts, out);
            push_char(out, ',');
            push_char(out, ' ');
            push_char(out, 'r');
            push_char(out, 'c');
            push_char(out, '=');
            push_decimal(rc, out);
            proof {
                assert(out@ =~= start + meta_text(m));
            }
        },
        _ => {
            assert(out@ =~= out@ + meta_text(m));
        },
    }
}

/// The trailer printed after each record's payload: the payload length
/// followed by whatever metadata the record format carries.
pub fn record_trailer(payload_len: usize, meta: Meta) -> (r: String)
    ensures
        r@ == trailer_text(payload_len as nat, meta),
{
    let mut out = String::new();
    push_char(&mut out, '(');
    push_decimal(payload_len as u64, &mut out);
    push_char(&mut out, ' ');
    push_char(&mut out, 'b');
    push_char(&mut out, 'y');
    push_char(&mut out, 't');
    push_char(&mut out, 'e');
    push_char(&mut out, 's');
    let ghost head = out@;
    match meta {
        Meta::VariableTsRc(..) => {
            push_char(&mut out, ',');
            push_char(&mut out, ' ');
            push_meta(meta, &mut out);
        },
        _ => {},
    }
    push_char(&mut out, ')');
    proof {
        assert(out@ =~= trailer_text(payload_len as nat, meta));
    }
    out
}

} // verus!

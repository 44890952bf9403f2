//! On-disk segment file header layout.
use crate::error::LogError;
use crate::format::{spec_fixed_len, spec_tag, Format};
use crate::segid::SegId;
use crate::seq_id::SeqId;
use vstd::bytes::*;
use vstd::prelude::*;

verus! {

/// Major version of the on-disk format understood by this crate.
pub const VERSION_MAJOR: u8 = 0;

/// Minor version of the on-disk format understood by this crate.
pub const VERSION_MINOR: u8 = 1;

/// Number of bytes the segment file header takes on disk.
///
/// Layout (little-endian, tightly packed):
///
/// | offset | length | field       |
/// |-------:|-------:|:------------|
/// |      0 |      8 | file type   |
/// |      8 |      4 | version     |
/// |     12 |      8 | segment_id  |
/// |     20 |      8 | session_id  |
/// |     28 |      4 | max_size    |
/// |     32 |      8 | remaining   |
/// |     40 |      1 | format tag  |
/// |     41 |      4 | format arg  |
/// |     45 |      8 | sequence    |
pub const SEGMENT_FILE_HEADER_LEN: u32 = 53;

/// ASCII magic `tcslogsf` at the start of every segment file.
pub open spec fn file_type_bytes() -> Seq<u8> {
    seq![116u8, 99u8, 115u8, 108u8, 111u8, 103u8, 115u8, 102u8]
}

/// ASCII version `0010` (`MMmp`: two-digit major, minor, patch) written by
/// this crate.
pub open spec fn version_bytes() -> Seq<u8> {
    seq![48u8, 48u8, 49u8, 48u8]
}

/// In-memory form of a segment file header.
#[derive(Copy, Clone, Debug, PartialEq, Eq, Structural)]
pub struct SegmentHeader {
    /// Identifier of this segment file; matches its file name.
    pub segment_id: SegId,
    /// Identifier of the first segment file of this file's session.
    pub session_id: SegId,
    /// Maximum size in bytes of a segment file in this log.
    pub max_size: u32,
    /// Bytes left of the data record whose first byte is the first byte
    /// of this file's data section (zero when a record starts there). May
    /// exceed the data section; the record then continues in later files.
    pub remaining: u64,
    /// Layout of the records in the data section.
    pub format: Format,
    /// Index of this segment within its session, from zero.
    pub sequence: SeqId,
}

/// Value of one ASCII lower-case hex digit.
pub open spec fn version_digit(b: u8) -> Option<u8> {
    if 48 <= b <= 57 {
        Some((b - 48) as u8)
    } else if 97 <= b <= 102 {
        Some((b - 87) as u8)
    } else {
        None
    }
}

/// A version string this crate can read: four hex digits, the major (the
/// first two) equal to `VERSION_MAJOR`, the minor (the third) at most
/// `VERSION_MINOR`.
pub open spec fn spec_version_ok(v: Seq<u8>) -> bool {
    &&& version_digit(v[0]) is Some
    &&& version_digit(v[1]) is Some
    &&& version_digit(v[2]) is Some
    &&& version_digit(v[3]) is Some
    &&& version_digit(v[0]).unwrap() * 16 + version_digit(v[1]).unwrap() == VERSION_MAJOR
    &&& version_digit(v[2]).unwrap() <= VERSION_MINOR
}

/// Whether a segment file with the given four-byte version can be read:
/// the major must match exactly, the file's minor must not exceed ours.
pub fn version_is_compatible(v: &[u8; 4]) -> (r: bool)
    ensures
        r == spec_version_ok(v@),
{
    let h = hex(v[0]);
    let t = hex(v[1]);
    let m = hex(v[2]);
    let p = hex(v[3]);
    match (h, t, m, p) {
        (Some(h), Some(t), Some(m), Some(_p)) => {
            let major: u32 = (h as u32) * 16 + (t as u32);
            major == VERSION_MAJOR as u32 && m <= VERSION_MINOR
        },
        _ => false,
    }
}

fn hex(b: u8) -> (r: Option<u8>)
    ensures
        r == version_digit(b),
{
    if 48 <= b && b <= 57 {
        Some(b - 48)
    } else if 97 <= b && b <= 102 {
        Some(b - 87)
    } else {
        None
    }
}

/// The on-disk bytes of a header.
pub open spec fn spec_header_bytes(h: SegmentHeader) -> Seq<u8> {
    file_type_bytes() + version_bytes() + spec_u64_to_le_bytes(h.segment_id@)
        + spec_u64_to_le_bytes(h.session_id@) + spec_u32_to_le_bytes(h.max_size)
        + spec_u64_to_le_bytes(h.remaining) + seq![spec_tag(h.format)] + spec_u32_to_le_bytes(
        spec_fixed_len(h.format),
    ) + spec_u64_to_le_bytes(h.sequence@)
}

/// Why a header could not be decoded.
pub enum HeaderFault {
    /// Bad magic or bad format field: `LogError::InvalidHeader`.
    Invalid,
    /// Unreadable version: `LogError::VersionMismatch`.
    Version,
}

/// The format named by a tag and its argument, if any.
pub open spec fn spec_decode_format(tag: u8, arg: u32) -> Option<Format> {
    if tag == 0 {
        if arg == 0 {
            None
        } else {
            Some(Format::Fixed(arg))
        }
    } else if tag == 1 {
        Some(Format::VariableSimple)
    } else if tag == 2 {
        Some(Format::VariableTsRc)
    } else {
        None
    }
}

/// Decoding of the 53 header bytes.
pub open spec fn spec_header_decode(b: Seq<u8>) -> Result<
    (u64, u64, u32, u64, Format, u64),
    HeaderFault,
> {
    if b.subrange(0, 8) != file_type_bytes() {
        Err(HeaderFault::Invalid)
    } else if !spec_version_ok(b.subrange(8, 12)) {
        Err(HeaderFault::Version)
    } else {
        match spec_decode_format(b[40], spec_u32_from_le_bytes(b.subrange(41, 45))) {
            None => Err(HeaderFault::Invalid),
            Some(f) => Ok(
                (
                    spec_u64_from_le_bytes(b.subrange(12, 20)),
                    spec_u64_from_le_bytes(b.subrange(20, 28)),
                    spec_u32_from_le_bytes(b.subrange(28, 32)),
                    spec_u64_from_le_bytes(b.subrange(32, 40)),
                    f,
                    spec_u64_from_le_bytes(b.subrange(45, 53)),
                ),
            ),
        }
    }
}

/// The header fields as the tuple the decoder produces.
pub open spec fn header_fields(h: SegmentHeader) -> (u64, u64, u32, u64, Format, u64) {
    (h.segment_id@, h.session_id@, h.max_size, h.remaining, h.format, h.sequence@)
}

/// Writes `src` into `buf` at `at`.
fn put(buf: &mut [u8; 53], at: usize, src: &[u8])
    requires
        at + src@.len() <= 53,
    ensures
        final(buf)@ == old(buf)@.subrange(0, at as int) + src@ + old(buf)@.subrange(
            at + src@.len(),
            53,
        ),
{
    let mut i: usize = 0;
    while i < src.len()
        invariant
            at + src@.len() <= 53,
            0 <= i <= src@.len(),
            buf@.len() == 53,
            buf@ == old(buf)@.subrange(0, at as int) + src@.subrange(0, i as int) + old(
                buf,
            )@.subrange(at + i, 53),
        decreases src.len() - i,
    {
        buf[at + i] = src[i];
        proof {
            assert(buf@ =~= old(buf)@.subrange(0, at as int) + src@.subrange(0, i + 1) + old(
                buf,
            )@.subrange(at + i + 1, 53));
        }
        i = i + 1;
    }
    proof {
        assert(src@.subrange(0, i as int) =~= src@);
    }
}

impl SegmentHeader {
    /// Bytes usable for the data section of a segment file at most
    /// `max_size` bytes long.
    pub fn data_section_len(max_size: u32) -> (r: u32)
        ensures
            r == if max_size >= SEGMENT_FILE_HEADER_LEN {
                (max_size - SEGMENT_FILE_HEADER_LEN) as u32
            } else {
                0
            },
    {
        max_size.saturating_sub(SEGMENT_FILE_HEADER_LEN)
    }

    /// Bytes available for records in this segment's data section.
    pub fn data_capacity(&self) -> (r: u32)
        ensures
            r == if self.max_size >= SEGMENT_FILE_HEADER_LEN {
                (self.max_size - SEGMENT_FILE_HEADER_LEN) as u32
            } else {
                0
            },
    {
        Self::data_section_len(self.max_size)
    }

    /// Serializes the header into its `SEGMENT_FILE_HEADER_LEN` bytes.
    pub fn to_bytes(&self) -> (r: [u8; 53])
        ensures
            r@ == spec_header_bytes(*self),
    {
        let mut buf = [0u8; 53];
        let ft: [u8; 8] = [116, 99, 115, 108, 111, 103, 115, 102];
        let ver: [u8; 4] = [48, 48, 49, 48];
        let ghost b0 = buf@;
        put(&mut buf, 0, ft.as_slice());
        put(&mut buf, 8, ver.as_slice());
        let seg = self.segment_id.to_le_bytes();
        put(&mut buf, 12, seg.as_slice());
        let ses = self.session_id.to_le_bytes();
        put(&mut buf, 20, ses.as_slice());
        let mx = crate::le::u32_to_le_array(self.max_size);
        put(&mut buf, 28, mx.as_slice());
        let rem = crate::le::u64_to_le_array(self.remaining);
        put(&mut buf, 32, rem.as_slice());
        buf[40] = self.format.tag();
        let arg = crate::le::u32_to_le_array(self.format.fixed_len());
        put(&mut buf, 41, arg.as_slice());
        let sq = self.sequence.to_le_bytes();
        put(&mut buf, 45, sq.as_slice());
        proof {
            lemma_auto_spec_u64_to_from_le_bytes();
            lemma_auto_spec_u32_to_from_le_bytes();
            assert(buf@ =~= spec_header_bytes(*self));
        }
        buf
    }

    /// Deserializes a header from its on-disk bytes.
    pub fn from_bytes(buf: &[u8; 53]) -> (r: Result<SegmentHeader, LogError>)
        ensures
            match (r, spec_header_decode(buf@)) {
                (Ok(h), Ok(t)) => header_fields(h) == t,
                (Err(LogError::InvalidHeader), Err(HeaderFault::Invalid)) => true,
                (Err(LogError::VersionMismatch), Err(HeaderFault::Version)) => true,
                _ => false,
            },
    {
        let b = buf.as_slice();
        if !(b[0] == 116 && b[1] == 99 && b[2] == 115 && b[3] == 108 && b[4] == 111 && b[5] == 103
            && b[6] == 115 && b[7] == 102) {
            proof {
                if buf@.subrange(0, 8) == file_type_bytes() {
                    assert(buf@.subrange(0, 8)[0] == 116);
                    assert(buf@.subrange(0, 8)[1] == 99);
                    assert(buf@.subrange(0, 8)[2] == 115);
                    assert(buf@.subrange(0, 8)[3] == 108);
                    assert(buf@.subrange(0, 8)[4] == 111);
                    assert(buf@.subrange(0, 8)[5] == 103);
                    assert(buf@.subrange(0, 8)[6] == 115);
                    assert(buf@.subrange(0, 8)[7] == 102);
                }
            }
            return Err(LogError::InvalidHeader);
        }
        proof {
            assert(buf@.subrange(0, 8) =~= file_type_bytes());
        }
        let version: [u8; 4] = [b[8], b[9], b[10], b[11]];
        if !version_is_compatible(&version) {
            proof {
                assert(version@ =~= buf@.subrange(8, 12));
            }
            return Err(LogError::VersionMismatch);
        }
        proof {
            assert(version@ =~= buf@.subrange(8, 12));
        }
        let segment_id = SegId::from_le_bytes([b[12], b[13], b[14], b[15], b[16], b[17], b[18], b[19]]);
        let session_id = SegId::from_le_bytes([b[20], b[21], b[22], b[23], b[24], b[25], b[26], b[27]]);
        let max_size = crate::le::u32_from_le_array([b[28], b[29], b[30], b[31]]);
        let remaining = crate::le::u64_from_le_array([b[32], b[33], b[34], b[35], b[36], b[37], b[38], b[39]]);
        let tag = b[40];
        let arg = crate::le::u32_from_le_array([b[41], b[42], b[43], b[44]]);
        let sequence = SeqId::from_le_bytes([b[45], b[46], b[47], b[48], b[49], b[50], b[51], b[52]]);
        proof {
            assert([b[12], b[13], b[14], b[15], b[16], b[17], b[18], b[19]]@ =~= buf@.subrange(12, 20));
            assert([b[20], b[21], b[22], b[23], b[24], b[25], b[26], b[27]]@ =~= buf@.subrange(20, 28));
            assert([b[28], b[29], b[30], b[31]]@ =~= buf@.subrange(28, 32));
            assert([b[32], b[33], b[34], b[35], b[36], b[37], b[38], b[39]]@ =~= buf@.subrange(32, 40));
            assert([b[41], b[42], b[43], b[44]]@ =~= buf@.subrange(41, 45));
            assert([b[45], b[46], b[47], b[48], b[49], b[50], b[51], b[52]]@ =~= buf@.subrange(45, 53));
        }
        let format = if tag == 0 {
            if arg == 0 {
                return Err(LogError::InvalidHeader);
            }
            Format::Fixed(arg)
        } else if tag == 1 {
            Format::VariableSimple
        } else if tag == 2 {
            Format::VariableTsRc
        } else {
            return Err(LogError::InvalidHeader);
        };
        Ok(SegmentHeader { segment_id, session_id, max_size, remaining, format, sequence })
    }
}

/// A header that names a real format reads back from its bytes unchanged.
pub proof fn lemma_header_roundtrip(h: SegmentHeader)
    requires
        h.format != Format::Fixed(0),
    ensures
        spec_header_bytes(h).len() == SEGMENT_FILE_HEADER_LEN,
        spec_header_decode(spec_header_bytes(h)) == Ok::<_, HeaderFault>(header_fields(h)),
{
    lemma_auto_spec_u64_to_from_le_bytes();
    lemma_auto_spec_u32_to_from_le_bytes();
    let b = spec_header_bytes(h);
    assert(b.subrange(0, 8) =~= file_type_bytes());
    assert(b.subrange(8, 12) =~= version_bytes());
    assert(b.subrange(12, 20) =~= spec_u64_to_le_bytes(h.segment_id@));
    assert(b.subrange(20, 28) =~= spec_u64_to_le_bytes(h.session_id@));
    assert(b.subrange(28, 32) =~= spec_u32_to_le_bytes(h.max_size));
    assert(b.subrange(32, 40) =~= spec_u64_to_le_bytes(h.remaining));
    assert(b[40] == spec_tag(h.format));
    assert(b.subrange(41, 45) =~= spec_u32_to_le_bytes(spec_fixed_len(h.format)));
    assert(b.subrange(45, 53) =~= spec_u64_to_le_bytes(h.sequence@));
    assert(spec_version_ok(version_bytes()));
}

} // verus!

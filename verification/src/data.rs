//! Data blocks: block headers, data records and the in-memory block
//! writer and reader.
use crate::config::BLOCK_SIZE;
use crate::error::TcsLogError;
use crate::timestamp::Timestamp;
use vstd::bytes::*;
use vstd::prelude::*;

verus! {

/// Offset of a record within a log file, as stored in a block header. The
/// small values 1 and 2 are reserved as markers.
#[derive(Debug, Clone, Copy, PartialEq, Eq, Structural)]
pub struct Offset(u64);

impl View for Offset {
    type V = u64;

    closed spec fn view(&self) -> u64 {
        self.0
    }
}

/// Two offsets are equal exactly when their values are.
pub broadcast proof fn lemma_offset_view_injective(a: Offset, b: Offset)
    ensures
        #![trigger a@, b@]
        (a@ == b@) <==> a == b,
{
}

impl Offset {
    /// Bytes of an offset on disk.
    pub const PACKLEN: usize = 8;

    /// Marker: the header references nothing.
    pub fn null() -> (r: Offset)
        ensures
            r@ == 1,
    {
        Offset(1)
    }

    /// Marker: the next record starts right after the header.
    pub fn rec_start() -> (r: Offset)
        ensures
            r@ == 2,
    {
        Offset(2)
    }

    /// Wraps a raw value.
    pub fn new_raw(v: u64) -> (r: Offset)
        ensures
            r@ == v,
    {
        Offset(v)
    }

    /// The raw value.
    pub fn to_u64(self) -> (r: u64)
        ensures
            r == self@,
    {
        self.0
    }

    /// Little-endian bytes.
    pub fn to_le_bytes(&self) -> (r: [u8; 8])
        ensures
            r@ == spec_u64_to_le_bytes(self@),
    {
        crate::le::u64_to_le_array(self.0)
    }

    /// Reads little-endian bytes.
    pub fn from_le_bytes(buf: [u8; 8]) -> (r: Offset)
        ensures
            r@ == spec_u64_from_le_bytes(buf@),
    {
        Offset(crate::le::u64_from_le_array(buf))
    }
}

/// Size of a block header in bytes.
pub const PACKLEN: usize = 8;

/// Size of a block header in bytes (same as `BlockHeader::PACKLEN`).
pub const BLOCK_HEADER_SIZE: usize = 8;

/// Size of the record length field in bytes.
pub const RECORD_LENGTH_SIZE: usize = 8;

/// Size of the packed timestamp field in bytes.
pub const RECORD_PACKLEN: usize = 12;

/// Size of record metadata (timestamp and length).
pub const RECORD_METADATA_SIZE: usize = 20;

/// Largest record that fits in one data block.
pub const MAX_RECORD_SIZE: usize = 4068;

/// A block header: the offset it carries.
#[derive(Debug, Clone, Copy, PartialEq, Eq, Structural)]
pub struct BlockHeader {
    offset: Offset,
}

impl View for BlockHeader {
    type V = u64;

    closed spec fn view(&self) -> u64 {
        self.offset@
    }
}

/// Two block headers are equal exactly when their offsets are.
pub broadcast proof fn lemma_block_header_view_injective(a: BlockHeader, b: BlockHeader)
    ensures
        #![trigger a@, b@]
        (a@ == b@) <==> a == b,
{
    lemma_offset_view_injective(a.offset, b.offset);
}

impl BlockHeader {
    /// Number of bytes of a block header in the log file.
    pub const PACKLEN: usize = 8;

    /// The header that references nothing.
    pub fn null() -> (r: BlockHeader)
        ensures
            r@ == 1,
    {
        BlockHeader::new(Offset::null())
    }

    /// The header saying the next record starts right after it.
    pub fn rec_start() -> (r: BlockHeader)
        ensures
            r@ == 2,
    {
        BlockHeader::new(Offset::rec_start())
    }

    /// A header carrying `offset`.
    pub fn new(offset: Offset) -> (r: BlockHeader)
        ensures
            r@ == offset@,
    {
        BlockHeader { offset }
    }

    /// The on-disk form of the header.
    pub fn to_le_bytes(&self) -> (r: [u8; 8])
        ensures
            r@ == spec_u64_to_le_bytes(self@),
    {
        self.offset.to_le_bytes()
    }

    /// Reads a header from its on-disk form.
    pub fn from_le_bytes(buf: [u8; 8]) -> (r: BlockHeader)
        ensures
            r@ == spec_u64_from_le_bytes(buf@),
    {
        BlockHeader { offset: Offset::from_le_bytes(buf) }
    }

    /// The header's value as a `u64`.
    pub fn to_u64(&self) -> (r: u64)
        ensures
            r == self@,
    {
        self.offset.to_u64()
    }
}

/// A data record with its metadata.
#[derive(Debug, Clone)]
pub struct DataRecord {
    /// When the record was written.
    pub timestamp: Timestamp,
    /// The payload.
    pub data: Vec<u8>,
}

/// On-disk bytes of a record: packed timestamp, payload length (8 bytes,
/// little-endian), payload.
pub open spec fn spec_record_bytes(t: (u64, u32), data: Seq<u8>) -> Seq<u8> {
    spec_u32_to_le_bytes(t.1) + spec_u64_to_le_bytes(t.0) + spec_u64_to_le_bytes(data.len() as u64)
        + data
}

/// The length field of a record's bytes.
pub open spec fn spec_record_len_field(bytes: Seq<u8>) -> u64 {
    spec_u64_from_le_bytes(bytes.subrange(12, 20))
}

impl DataRecord {
    /// A record of `data` written at `timestamp`.
    pub fn new(timestamp: Timestamp, data: Vec<u8>) -> (r: DataRecord)
        ensures
            r.timestamp == timestamp,
            r.data@ == data@,
    {
        DataRecord { timestamp, data }
    }

    /// Bytes the record takes in the file, metadata included.
    pub fn packlen(&self) -> (r: usize)
        requires
            self.data@.len() + RECORD_METADATA_SIZE <= usize::MAX,
        ensures
            r == self.data@.len() + RECORD_METADATA_SIZE,
    {
        RECORD_METADATA_SIZE + self.data.len()
    }

    /// Serializes metadata and payload.
    pub fn to_le_bytes(&self) -> (r: Vec<u8>)
        requires
            self.data@.len() <= u64::MAX,
        ensures
            r@ == spec_record_bytes(self.timestamp@, self.data@),
    {
        let mut bytes: Vec<u8> = Vec::new();
        let t = self.timestamp.to_le_bytes();
        let l = crate::le::u64_to_le_array(self.data.len() as u64);
        let mut i: usize = 0;
        while i < 12
            invariant
                0 <= i <= 12,
                bytes@ == t@.subrange(0, i as int),
            decreases 12 - i,
        {
            bytes.push(t[i]);
            proof {
                assert(bytes@ =~= t@.subrange(0, i + 1));
            }
            i = i + 1;
        }
        let mut j: usize = 0;
        while j < 8
            invariant
                0 <= j <= 8,
                bytes@ == t@ + l@.subrange(0, j as int),
            decreases 8 - j,
        {
            bytes.push(l[j]);
            proof {
                assert(bytes@ =~= t@ + l@.subrange(0, j + 1));
            }
            j = j + 1;
        }
        let ghost head = bytes@;
        let mut k: usize = 0;
        while k < self.data.len()
            invariant
                0 <= k <= self.data@.len(),
                head == t@ + l@,
                bytes@ == head + self.data@.subrange(0, k as int),
            decreases self.data.len() - k,
        {
            bytes.push(self.data[k]);
            proof {
                assert(bytes@ =~= head + self.data@.subrange(0, k + 1));
            }
            k = k + 1;
        }
        proof {
            assert(self.data@.subrange(0, self.data@.len() as int) =~= self.data@);
            assert(bytes@ =~= spec_record_bytes(self.timestamp@, self.data@));
        }
        bytes
    }

    /// Deserializes a record written by `to_le_bytes`: timestamp, length,
    /// payload. Fails when the bytes are shorter than the metadata or than
    /// the payload length they declare.
    pub fn from_le_bytes(bytes: &[u8]) -> (r: Result<Self, TcsLogError<'_>>)
        ensures
            match r {
                Ok(rec) => {
                    &&& bytes@.len() >= RECORD_METADATA_SIZE
                    &&& bytes@.len() >= RECORD_METADATA_SIZE + spec_record_len_field(bytes@)
                    &&& rec.timestamp@ == (spec_u64_from_le_bytes(bytes@.subrange(4, 12)),
                        spec_u32_from_le_bytes(bytes@.subrange(0, 4)))
                    &&& rec.data@ == bytes@.subrange(
                        RECORD_METADATA_SIZE as int,
                        RECORD_METADATA_SIZE + spec_record_len_field(bytes@),
                    )
                },
                Err(TcsLogError::InvalidFormat(_)) => bytes@.len() < RECORD_METADATA_SIZE || bytes@.len()
                    < RECORD_METADATA_SIZE + spec_record_len_field(bytes@),
                Err(_) => false,
            },
    {
        if bytes.len() < RECORD_METADATA_SIZE {
            return Err(TcsLogError::InvalidFormat(String::from_str("Record too short for metadata")));
        }
        let tb: [u8; 12] = [
            bytes[0], bytes[1], bytes[2], bytes[3], bytes[4], bytes[5], bytes[6], bytes[7], bytes[8],
            bytes[9], bytes[10], bytes[11],
        ];
        let lb: [u8; 8] = [
            bytes[12], bytes[13], bytes[14], bytes[15], bytes[16], bytes[17], bytes[18], bytes[19],
        ];
        proof {
            assert(tb@.subrange(0, 4) =~= bytes@.subrange(0, 4));
            assert(tb@.subrange(4, 12) =~= bytes@.subrange(4, 12));
            assert(lb@ =~= bytes@.subrange(12, 20));
        }
        let timestamp = Timestamp::from_le_bytes(tb);
        let declared = crate::le::u64_from_le_array(lb);
        let available = (bytes.len() - RECORD_METADATA_SIZE) as u64;
        if available < declared {
            return Err(TcsLogError::InvalidFormat(String::from_str("Record data truncated")));
        }
        let length = declared as usize;
        let data = vstd::slice::slice_to_vec(&bytes[RECORD_METADATA_SIZE..RECORD_METADATA_SIZE + length]);
        Ok(DataRecord { timestamp, data })
    }
}

/// Serializing then deserializing a record gives it back.
pub proof fn lemma_record_roundtrip(t: (u64, u32), data: Seq<u8>)
    requires
        data.len() <= u64::MAX,
    ensures
        ({
            let b = spec_record_bytes(t, data);
            &&& b.len() == RECORD_METADATA_SIZE + data.len()
            &&& spec_record_len_field(b) == data.len()
            &&& (spec_u64_from_le_bytes(b.subrange(4, 12)), spec_u32_from_le_bytes(b.subrange(0, 4)))
                == t
            &&& b.subrange(RECORD_METADATA_SIZE as int, RECORD_METADATA_SIZE + data.len()) == data
        }),
{
    lemma_auto_spec_u64_to_from_le_bytes();
    lemma_auto_spec_u32_to_from_le_bytes();
    let b = spec_record_bytes(t, data);
    assert(b.subrange(0, 4) =~= spec_u32_to_le_bytes(t.1));
    assert(b.subrange(4, 12) =~= spec_u64_to_le_bytes(t.0));
    assert(b.subrange(12, 20) =~= spec_u64_to_le_bytes(data.len() as u64));
    assert(b.subrange(20, 20 + data.len() as int) =~= data);
}

/// Writes data records into one block buffer.
pub struct DataBlockWriter {
    buffer: [u8; 4096],
    position: usize,
    in_record: bool,
}

impl DataBlockWriter {
    #[verifier::type_invariant]
    spec fn inv(self) -> bool {
        8 <= self.position <= 4096
    }

    /// Current write position in the block.
    pub closed spec fn spec_position(&self) -> nat {
        self.position as nat
    }

    /// Current block contents.
    pub closed spec fn spec_buffer(&self) -> Seq<u8> {
        self.buffer@
    }

    /// A block holding only a `REC_START` header.
    pub fn new() -> (r: Self)
        ensures
            r.spec_position() == 8,
            r.spec_buffer().subrange(0, 8) == spec_u64_to_le_bytes(2),
            forall|i: int| 8 <= i < 4096 ==> r.spec_buffer()[i] == 0,
            r.spec_buffer().len() == 4096,
    {
        let mut buffer = [0u8; 4096];
        let h = Offset::rec_start().to_le_bytes();
        let mut i: usize = 0;
        while i < 8
            invariant
                0 <= i <= 8,
                buffer@.len() == 4096,
                forall|k: int| 0 <= k < i ==> buffer@[k] == h@[k],
                forall|k: int| 8 <= k < 4096 ==> buffer@[k] == 0,
            decreases 8 - i,
        {
            buffer[i] = h[i];
            i = i + 1;
        }
        proof {
            assert(buffer@.subrange(0, 8) =~= h@);
        }
        DataBlockWriter { buffer, position: BlockHeader::PACKLEN, in_record: false }
    }

    /// Free bytes left in the block.
    pub fn remaining(&self) -> (r: usize)
        ensures
            r == 4096 - self.spec_position(),
            8 <= self.spec_position() <= 4096,
            self.spec_buffer().len() == 4096,
    {
        proof {
            use_type_invariant(self);
        }
        BLOCK_SIZE - self.position
    }

    /// Whether the block holds only its header.
    pub fn is_empty(&self) -> (r: bool)
        ensures
            r == (self.spec_position() == 8),
            8 <= self.spec_position() <= 4096,
    {
        proof {
            use_type_invariant(self);
        }
        self.position == BlockHeader::PACKLEN
    }

    /// The block contents.
    pub fn buffer(&self) -> (r: &[u8; 4096])
        ensures
            r@ == self.spec_buffer(),
            r@.len() == 4096,
    {
        &self.buffer
    }

    /// Starts a fresh block, as `new` does.
    pub fn reset(&mut self)
        ensures
            final(self).spec_position() == 8,
            final(self).spec_buffer().subrange(0, 8) == spec_u64_to_le_bytes(2),
            forall|i: int| 8 <= i < 4096 ==> final(self).spec_buffer()[i] == 0,
            final(self).spec_buffer().len() == 4096,
    {
        *self = DataBlockWriter::new();
    }

    /// Copies as much of `data` as fits into the block; returns how many
    /// bytes were written.
    pub fn write(&mut self, data: &[u8]) -> (r: usize)
        ensures
            8 <= old(self).spec_position() <= final(self).spec_position() <= 4096,
            old(self).spec_buffer().len() == 4096,
            final(self).spec_buffer().len() == 4096,
            r > 0 ==> final(self).spec_position() > 8,
            r == if data@.len() < 4096 - old(self).spec_position() {
                data@.len()
            } else {
                (4096 - old(self).spec_position()) as nat
            },
            final(self).spec_position() == old(self).spec_position() + r,
            final(self).spec_buffer() == old(self).spec_buffer().subrange(
                0,
                old(self).spec_position() as int,
            ) + data@.subrange(0, r as int) + old(self).spec_buffer().subrange(
                old(self).spec_position() + r,
                4096,
            ),
    {
        proof {
            use_type_invariant(&*self);
        }
        let room = BLOCK_SIZE - self.position;
        let to_write = if data.len() < room {
            data.len()
        } else {
            room
        };
        let start = self.position;
        let ghost before = self.buffer@;
        let mut buf = self.buffer;
        let mut i: usize = 0;
        while i < to_write
            invariant
                0 <= i <= to_write,
                start + to_write <= 4096,
                to_write <= data@.len(),
                buf@.len() == 4096,
                before.len() == 4096,
                buf@ == before.subrange(0, start as int) + data@.subrange(0, i as int) + before.subrange(
                    start + i,
                    4096,
                ),
            decreases to_write - i,
        {
            buf[start + i] = data[i];
            proof {
                assert(buf@ =~= before.subrange(0, start as int) + data@.subrange(0, i + 1)
                    + before.subrange(start + i + 1, 4096));
            }
            i = i + 1;
        }
        self.buffer = buf;
        self.position = start + to_write;
        to_write
    }

    /// Stores a continuation offset in the header: `offset_in_block` with
    /// its low eight bits cleared.
    pub fn set_continuation(&mut self, offset_in_block: usize)
        ensures
            final(self).spec_position() == old(self).spec_position(),
            final(self).spec_buffer().len() == 4096,
            final(self).spec_buffer() == spec_u64_to_le_bytes(offset_in_block as u64 & !0xFFu64)
                + old(self).spec_buffer().subrange(8, 4096),
    {
        proof {
            use_type_invariant(&*self);
        }
        let header_value = (offset_in_block as u64) & !0xFFu64;
        let h = crate::le::u64_to_le_array(header_value);
        let ghost before = self.buffer@;
        let mut buf = self.buffer;
        let mut i: usize = 0;
        while i < 8
            invariant
                0 <= i <= 8,
                buf@.len() == 4096,
                forall|k: int| 0 <= k < i ==> buf@[k] == h@[k],
                forall|k: int| 8 <= k < 4096 ==> buf@[k] == before[k],
            decreases 8 - i,
        {
            buf[i] = h[i];
            i = i + 1;
        }
        self.buffer = buf;
        proof {
            assert(self.buffer@ =~= h@ + before.subrange(8, 4096));
        }
    }
}

impl Default for DataBlockWriter {
    fn default() -> (r: Self)
        ensures
            r.spec_position() == 8,
            r.spec_buffer().subrange(0, 8) == spec_u64_to_le_bytes(2),
            forall|i: int| 8 <= i < 4096 ==> r.spec_buffer()[i] == 0,
            r.spec_buffer().len() == 4096,
    {
        Self::new()
    }
}

/// Reads data records out of one block buffer.
pub struct DataBlockReader {
    buffer: [u8; 4096],
    position: usize,
}

impl DataBlockReader {
    #[verifier::type_invariant]
    spec fn inv(self) -> bool {
        self.position <= 4096
    }

    /// Current read position in the block.
    pub closed spec fn spec_position(&self) -> nat {
        self.position as nat
    }

    /// The block contents.
    pub closed spec fn spec_buffer(&self) -> Seq<u8> {
        self.buffer@
    }

    /// A reader positioned just after the block header.
    pub fn new(buffer: [u8; 4096]) -> (r: Self)
        ensures
            r.spec_position() == 8,
            r.spec_buffer() == buffer@,
    {
        DataBlockReader { buffer, position: BlockHeader::PACKLEN }
    }

    /// The block header.
    pub fn header(&self) -> (r: Result<BlockHeader, TcsLogError<'_>>)
        ensures
            r matches Ok(h) && h@ == spec_u64_from_le_bytes(self.spec_buffer().subrange(0, 8)),
    {
        let b: [u8; 8] = [
            self.buffer[0], self.buffer[1], self.buffer[2], self.buffer[3], self.buffer[4],
            self.buffer[5], self.buffer[6], self.buffer[7],
        ];
        proof {
            assert(b@ =~= self.buffer@.subrange(0, 8));
        }
        let offset = Offset::from_le_bytes(b);
        Ok(BlockHeader::new(offset))
    }

    /// Bytes left to read in the block.
    pub fn remaining(&self) -> (r: usize)
        ensures
            r == 4096 - self.spec_position(),
            self.spec_position() <= 4096,
            self.spec_buffer().len() == 4096,
    {
        proof {
            use_type_invariant(self);
        }
        BLOCK_SIZE - self.position
    }

    /// Reads up to `count` bytes from the current position.
    pub fn read(&mut self, count: usize) -> (r: &[u8])
        ensures
            ({
                let n = if count < 4096 - old(self).spec_position() {
                    count as int
                } else {
                    4096 - old(self).spec_position()
                };
                &&& r@ == old(self).spec_buffer().subrange(
                    old(self).spec_position() as int,
                    old(self).spec_position() + n,
                )
                &&& final(self).spec_position() == old(self).spec_position() + n
                &&& final(self).spec_buffer() == old(self).spec_buffer()
            }),
    {
        proof {
            use_type_invariant(&*self);
        }
        let room = BLOCK_SIZE - self.position;
        let to_read = if count < room {
            count
        } else {
            room
        };
        let start = self.position;
        self.position = start + to_read;
        &self.buffer[start..start + to_read]
    }

    /// Moves the read position, clamped to the block size.
    pub fn set_position(&mut self, position: usize)
        ensures
            final(self).spec_position() == if position < 4096 { position as nat } else { 4096 },
            final(self).spec_buffer() == old(self).spec_buffer(),
    {
        self.position = if position < BLOCK_SIZE {
            position
        } else {
            BLOCK_SIZE
        };
    }
}

} // verus!

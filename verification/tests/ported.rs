#![allow(non_snake_case)]
use tcslog::config::{BLOCK_SIZE, TIMER_RESOLUTION_NS};
use tcslog::data::{BlockHeader, DataBlockWriter, DataRecord, Offset};
use tcslog::header::version_is_compatible;
use tcslog::index::{IndexBlock, IndexEntry, IndexStructure, ENTRIES_PER_BLOCK, INDEX_ENTRY_SIZE};
use tcslog::io_util::{is_segment_name, parse_segment_name, validate_prefix_suffix};
use tcslog::timestamp::Timestamp;
use tcslog::uid::Uid;
use tcslog::{
    format_timestamp, record_trailer, Format, LogError, Meta, SegId, SegmentHeader, SeqId,
};

const NANOS_PER_SEC: u64 = 1_000_000_000;

#[test]
fn test_block_header_null() {
    let header = BlockHeader::from_le_bytes(Offset::null().to_le_bytes());
    assert_eq!(header, BlockHeader::null());
    assert_eq!(header.to_u64(), Offset::null().to_u64());
}

#[test]
fn test_block_header_rec_start() {
    let header = BlockHeader::from_le_bytes(Offset::rec_start().to_le_bytes());
    assert_eq!(header, BlockHeader::rec_start());
    assert_eq!(header.to_u64(), Offset::rec_start().to_u64());
}

#[test]
fn test_block_header_roundtrip() {
    let offset: u64 = 0x1234_5600;
    let header = BlockHeader::new(Offset::new_raw(offset));
    let restored = BlockHeader::from_le_bytes(header.to_le_bytes());
    assert_eq!(header, restored);
    assert_eq!(restored.to_u64(), offset);
}

#[test]
fn test_data_record_roundtrip() {
    let record = DataRecord::new(Timestamp::from_nanos(12345678900), vec![1, 2, 3, 4, 5]);
    let bytes = record.to_le_bytes();
    let restored = DataRecord::from_le_bytes(&bytes).unwrap();

    assert_eq!(record.timestamp, restored.timestamp);
    assert_eq!(record.data, restored.data);
}

#[test]
fn test_data_block_writer() {
    let mut writer = DataBlockWriter::new();
    assert!(writer.is_empty());
    assert_eq!(writer.remaining(), BLOCK_SIZE - BlockHeader::PACKLEN);

    let data = vec![1, 2, 3, 4, 5];
    let written = writer.write(&data);
    assert_eq!(written, 5);
    assert!(!writer.is_empty());
}

#[test]
fn format_timestamp_matches_known_dates() {
    let cases = [
        (0, "1970-01-01T00:00:00.000000000Z"),
        (1_234_567_890, "2009-02-13T23:31:30.000000000Z"),
        (951_782_400, "2000-02-29T00:00:00.000000000Z"),
        (1_709_164_800, "2024-02-29T00:00:00.000000000Z"),
        (4_107_542_400, "2100-03-01T00:00:00.000000000Z"),
    ];
    for (secs, expected) in cases {
        let ts = secs * NANOS_PER_SEC;
        assert_eq!(format_timestamp(ts), expected, "secs={secs}");
    }
}

#[test]
fn format_timestamp_keeps_sub_second_precision() {
    assert_eq!(format_timestamp(123_456_789), "1970-01-01T00:00:00.123456789Z");
    assert_eq!(format_timestamp(NANOS_PER_SEC - 1), "1970-01-01T00:00:00.999999999Z");
}

#[test]
fn format_timestamp_handles_max() {
    assert_eq!(format_timestamp(u64::MAX), "2554-07-21T23:34:33.709551615Z");
}

#[test]
fn trailer_omits_metadata_when_format_carries_none() {
    assert_eq!(record_trailer(7, Meta::Fixed), "(7 bytes)");
    assert_eq!(record_trailer(0, Meta::VariableSimple), "(0 bytes)");
}

#[test]
fn trailer_includes_timestamp_and_record_count() {
    let meta = Meta::VariableTsRc(1_234_567_890 * NANOS_PER_SEC, 42);
    assert_eq!(
        record_trailer(9, meta),
        "(9 bytes, ts=2009-02-13T23:31:30.000000000Z, rc=42)"
    );
}

#[test]
fn roundtrip_variable_ts_rc() {
    let h = SegmentHeader {
        segment_id: SegId::from_u64(0x1111_2222_3333_4444),
        session_id: SegId::from_u64(0x1111_2222_3333_4444),
        max_size: 4096,
        remaining: 0,
        format: Format::VariableTsRc,
        sequence: SeqId::zero(),
    };
    let bytes = h.to_bytes();
    let back = SegmentHeader::from_bytes(&bytes).unwrap();
    assert_eq!(h, back);
}

#[test]
fn roundtrip_fixed() {
    let h = SegmentHeader {
        segment_id: SegId::from_u64(1),
        session_id: SegId::from_u64(1),
        max_size: 256,
        remaining: 17,
        format: Format::Fixed(64),
        sequence: SeqId::zero(),
    };
    let bytes = h.to_bytes();
    let back = SegmentHeader::from_bytes(&bytes).unwrap();
    assert_eq!(h, back);
}

#[test]
fn rejects_bad_magic() {
    let mut bytes = SegmentHeader {
        segment_id: SegId::from_u64(1),
        session_id: SegId::from_u64(1),
        max_size: 256,
        remaining: 0,
        format: Format::VariableSimple,
        sequence: SeqId::zero(),
    }
    .to_bytes();
    bytes[0] = b'X';
    assert!(matches!(
        SegmentHeader::from_bytes(&bytes),
        Err(LogError::InvalidHeader)
    ));
}

#[test]
fn accepts_minor_zero() {
    assert!(version_is_compatible(b"0000"));
    assert!(version_is_compatible(b"0010"));
}

#[test]
fn rejects_higher_minor() {
    assert!(!version_is_compatible(b"0020"));
}

#[test]
fn rejects_higher_major() {
    assert!(!version_is_compatible(b"0100"));
}

#[test]
fn test_index_entry_roundtrip() {
    let entry = IndexEntry::new(0x1234_5678_9ABC_DEF0, Uid::from_nanos(0xFEDC_BA98_7654_3210));
    let bytes = entry.to_bytes();
    let restored = IndexEntry::from_bytes(&bytes);
    assert_eq!(entry.offset, restored.offset);
    assert_eq!(entry.Uid, restored.Uid);
}

#[test]
fn test_index_block_roundtrip() {
    let mut block = IndexBlock::new();
    block.entries[0] = IndexEntry::new(4096, Uid::from_nanos(1000));
    block.entries[1] = IndexEntry::new(8192, Uid::from_nanos(2000));

    let bytes = block.to_bytes();
    let restored = IndexBlock::from_bytes(&bytes);

    assert_eq!(block.entries[0].offset, restored.entries[0].offset);
    assert_eq!(block.entries[0].Uid, restored.entries[0].Uid);
    assert_eq!(block.entries[1].offset, restored.entries[1].offset);
    assert_eq!(block.entries[1].Uid, restored.entries[1].Uid);
}

#[test]
fn test_find_le() {
    let mut block = IndexBlock::new();
    block.entries[0] = IndexEntry::new(4096, Uid::from_nanos(1000));
    block.entries[1] = IndexEntry::new(8192, Uid::from_nanos(2000));
    block.entries[2] = IndexEntry::new(12288, Uid::from_nanos(3000));

    assert_eq!(block.find_le(Uid::from_nanos(500)), None);
    assert_eq!(block.find_le(Uid::from_nanos(1000)), Some(0));
    assert_eq!(block.find_le(Uid::from_nanos(1500)), Some(0));
    assert_eq!(block.find_le(Uid::from_nanos(2000)), Some(1));
    assert_eq!(block.find_le(Uid::from_nanos(3500)), Some(2));
}

#[test]
fn test_index_structure_single_level() {
    let structure = IndexStructure::compute(100).unwrap();
    assert_eq!(structure.levels, 1);
    assert_eq!(structure.total_blocks, 1);
}

#[test]
fn test_entries_per_block() {
    assert_eq!(ENTRIES_PER_BLOCK, BLOCK_SIZE / INDEX_ENTRY_SIZE);
}

#[test]
fn accepts_valid_name() {
    assert!(is_segment_name("pre_0000-0000-0000-0001_suf", "pre_", "_suf"));
}

#[test]
fn rejects_bad_id() {
    assert!(!is_segment_name("pre_zzzz-zzzz-zzzz-zzzz_suf", "pre_", "_suf"));
}

#[test]
fn rejects_wrong_shape() {
    assert!(!is_segment_name("something_else", "pre_", "_suf"));
}

#[test]
fn parse_returns_id() {
    let id = parse_segment_name("pre_0000-0000-0000-000f_suf", "pre_", "_suf").unwrap();
    assert_eq!(id.as_u64(), 0x0f);
}

#[test]
fn delimiter_rejected() {
    assert!(matches!(
        validate_prefix_suffix("bad/pre", "suf"),
        Err(LogError::HasDelimiter),
    ));
    assert!(matches!(
        validate_prefix_suffix("pre", "bad/suf"),
        Err(LogError::HasDelimiter),
    ));
    assert!(validate_prefix_suffix("pre_", "_suf").is_ok());
}

#[test]
fn timer_resolution_is_positive() {
    assert!(TIMER_RESOLUTION_NS > 0);
}

#[test]
fn display_roundtrip() {
    let id = SegId::from_u64(0x1234_abcd_5678_efabu64);
    let s = id.to_string();
    assert_eq!(s, "1234-abcd-5678-efab");
    assert_eq!(s.len(), SegId::STR_LEN);
    assert_eq!(SegId::parse(&s), Some(id));
}

#[test]
fn parse_rejects_uppercase() {
    assert!(SegId::parse("1234-ABCD-5678-EFAB").is_none());
}

#[test]
fn parse_rejects_bad_length() {
    assert!(SegId::parse("1234-abcd-5678").is_none());
    assert!(SegId::parse("1234-abcd-5678-efab-0000").is_none());
}

#[test]
fn parse_rejects_missing_dashes() {
    assert!(SegId::parse("1234_abcd_5678_efab").is_none());
}

#[test]
fn zero() {
    assert_eq!(SegId::from_u64(0).to_string(), "0000-0000-0000-0000");
}

#[test]
fn zero_and_next() {
    assert_eq!(SeqId::zero().as_u64(), 0);
    assert_eq!(SeqId::zero().saturating_next(), SeqId::from_u64(1));
}

#[test]
fn saturates_at_max() {
    let max = SeqId::from_u64(u64::MAX);
    assert_eq!(max.saturating_next(), max);
}

#[test]
fn le_bytes_roundtrip() {
    let s = SeqId::from_u64(0x0102_0304_0506_0708);
    assert_eq!(SeqId::from_le_bytes(s.to_le_bytes()), s);
}

#[test]
fn display_is_decimal() {
    assert_eq!(SeqId::from_u64(42).to_string(), "42");
}

#[test]
fn timestamp_test_bidir_u128() {
    let timestamp_in = Timestamp::from_nanos(0);
    let timestamp_out = timestamp_in.as_nanos();
    assert_eq!(0, timestamp_out);

    let timestamp_in = Timestamp::from_nanos(1);
    let timestamp_out = timestamp_in.as_nanos();
    assert_eq!(1, timestamp_out);
}

#[test]
fn test_bidir_timestamp() {
    let timestamp_in = Timestamp::new(0, 0);
    let timestamp_out = timestamp_in.as_nanos();
    assert_eq!(0, timestamp_out);

    let timestamp_in = Timestamp::new(0, 999_999_999);
    let timestamp_out = timestamp_in.as_nanos();
    assert_eq!(999_999_999, timestamp_out);

    let timestamp_in = Timestamp::new(1, 999_999_999);
    let timestamp_out = timestamp_in.as_nanos();
    assert_eq!(1_999_999_999, timestamp_out);
}

#[test]
fn timestamp_test_bidir_overflow() {
    let timestamp_in = Timestamp::new(0xffff_ffff_ffff_ffff, 999_999_998);

    assert_eq!(timestamp_in, Timestamp::max_value());
}

#[test]
fn uid_test_bidir_u128() {
    let uid_in = Uid::from_nanos(0);
    let uid_out = uid_in.as_nanos();
    assert_eq!(0, uid_out);

    let uid_in = Uid::from_nanos(1);
    let uid_out = uid_in.as_nanos();
    assert_eq!(1, uid_out);
}

#[test]
fn uid_test_bidir_Uid() {
    let uid_in = Uid::new(0, 0);
    let uid_out = uid_in.as_nanos();
    assert_eq!(0, uid_out);

    let uid_in = Uid::new(0, 999_999_999);
    let uid_out = uid_in.as_nanos();
    assert_eq!(999_999_999, uid_out);

    let uid_in = Uid::new(1, 999_999_999);
    let uid_out = uid_in.as_nanos();
    assert_eq!(1_999_999_999, uid_out);
}

#[test]
fn uid_test_bidir_overflow() {
    let uid_in = Uid::new(0xffff_ffff_ffff_ffff, 999_999_998);

    assert_eq!(uid_in, Uid::max_value());
}

#[test]
fn test_bidir_u128() {
    let uid_in = Uid::from_nanos(0);
    let uid_out = uid_in.as_nanos();
    assert_eq!(0, uid_out);

    let uid_in = Uid::from_nanos(1);
    let uid_out = uid_in.as_nanos();
    assert_eq!(1, uid_out);
}

#[test]
fn test_bidir_Uid() {
    let uid_in = Uid::new(0, 0);
    let uid_out = uid_in.as_nanos();
    assert_eq!(0, uid_out);

    let uid_in = Uid::new(0, 999_999_999);
    let uid_out = uid_in.as_nanos();
    assert_eq!(999_999_999, uid_out);

    let uid_in = Uid::new(1, 999_999_999);
    let uid_out = uid_in.as_nanos();
    assert_eq!(1_999_999_999, uid_out);
}

#[test]
fn test_bidir_overflow() {
    let uid_in = Uid::new(0xffff_ffff_ffff_ffff, 999_999_998);

    assert_eq!(uid_in, Uid::max_value());
}

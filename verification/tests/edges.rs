//! Edge cases: markers, counts, overlapping names, oversized length
//! fields, index sizing at the top of the range, and record beginnings.
use tcslog::data::{DataBlockWriter, DataRecord};
use tcslog::gen::RecordFormatSpec;
use tcslog::index::{compute_index_blocks, IndexBlock, IndexEntry, IndexStructure};
use tcslog::timestamp::Timestamp;
use tcslog::uid::Uid;
use tcslog::util::{parse_segment_file_name, segment_file_name, select_segment_ids};
use tcslog::write::WriteState;
use tcslog::{Format, LogError, SegId, TcsLogError};

#[test]
fn continuation_marker_is_all_zero_bits() {
    assert_eq!(Timestamp::cont().to_le_bytes(), [0u8; 12]);
    assert_ne!(Timestamp::cont(), Timestamp::zero());
    assert_ne!(Timestamp::from_nanos(0), Timestamp::cont());
    assert_ne!(Timestamp::new(0, 0), Timestamp::cont());
    assert_eq!(Uid::cont().to_le_bytes(), [0u8; 12]);
}

#[test]
fn count_includes_entries_after_a_null_one() {
    let mut block = IndexBlock::new();
    assert_eq!(block.count(), 0);
    block.entries[1] = IndexEntry::new(4096, Uid::from_nanos(7));
    assert_eq!(block.count(), 1);
    block.entries[0] = IndexEntry::new(8192, Uid::from_nanos(3));
    block.entries[203] = IndexEntry::new(12288, Uid::from_nanos(9));
    assert_eq!(block.count(), 3);
}

#[test]
fn overlapping_prefix_and_suffix_give_no_identifier() {
    assert_eq!(parse_segment_file_name("ab", "ab", "b"), None);
    assert_eq!(parse_segment_file_name("abc", "ab", "bc"), None);
    let names = vec!["ab".to_string(), "x".to_string()];
    assert!(select_segment_ids(&names, "ab", "b").is_empty());
}

#[test]
fn segment_name_parses_back_exactly() {
    let id = SegId::from_u64(0x1234_abcd_5678_efab);
    let name = segment_file_name("fw-", id, ".l");
    assert_eq!(name, "fw-1234-abcd-5678-efab.l");
    assert_eq!(parse_segment_file_name(&name, "fw-", ".l"), Some(id));
    assert_eq!(parse_segment_file_name("fw-1234-ABCD-5678-efab.l", "fw-", ".l"), None);
    assert_eq!(SegId::parse(&id.to_string()), Some(id));
}

#[test]
fn huge_declared_length_is_rejected() {
    let mut bytes = vec![0u8; 24];
    bytes[12..20].copy_from_slice(&(u64::MAX - 5).to_le_bytes());
    assert!(matches!(DataRecord::from_le_bytes(&bytes), Err(TcsLogError::InvalidFormat(_))));
    bytes[12..20].copy_from_slice(&4u64.to_le_bytes());
    let rec = DataRecord::from_le_bytes(&bytes).unwrap();
    assert_eq!(rec.data, vec![0u8; 4]);
}

#[test]
fn writer_places_bytes_after_the_header() {
    let mut w = DataBlockWriter::new();
    assert_eq!(w.write(&[1, 2, 3, 4, 5]), 5);
    assert!(!w.is_empty());
    assert_eq!(&w.buffer()[8..13], &[1, 2, 3, 4, 5]);
    assert!(w.buffer()[13..].iter().all(|b| *b == 0));
}

#[test]
fn index_sizing_at_the_top_of_the_range() {
    let n = usize::MAX;
    let s = IndexStructure::compute(n).unwrap();
    assert_eq!(compute_index_blocks(n), s.total_blocks);
    assert_eq!(s.blocks_per_level[0], 1);
    for n in [0usize, 1, 204, 205, 204 * 204, 204 * 204 + 1] {
        assert_eq!(compute_index_blocks(n), IndexStructure::compute(n).unwrap().total_blocks);
    }
}

#[test]
fn valid_record_begins_after_rejected_ones() {
    let (mut st, _) = WriteState::start(200, Format::Fixed(4), SegId::from_u64(1));
    assert!(matches!(st.begin_record(b"abc", None), Err(LogError::FixedLenMismatch)));
    assert!(matches!(st.begin_record(b"abcde", None), Err(LogError::FixedLenMismatch)));
    let (hdr, total) = st.begin_record(b"abcd", None).unwrap();
    assert!(hdr.is_empty());
    assert_eq!(total, 4);

    let (mut st, _) = WriteState::start(200, Format::VariableTsRc, SegId::from_u64(1));
    assert!(matches!(st.begin_record(b"x", None), Err(LogError::ClockError)));
    let (hdr, total) = st.begin_record(b"x", Some(5)).unwrap();
    assert_eq!(hdr.len(), 20);
    assert_eq!(total, 21);
}

#[test]
fn format_specs_rejected_and_round_tripped() {
    for bad in ["fixed:0", "fixed:1..2", "variable-simple:9..3", "variable-ts-rc:", "fixed8", "var:4"] {
        assert!(RecordFormatSpec::from_str(bad).is_err(), "{bad} should be rejected");
    }
    for spec in [
        RecordFormatSpec::Fixed(1),
        RecordFormatSpec::Fixed(4096),
        RecordFormatSpec::VariableSimple { min: 0, max: 0 },
        RecordFormatSpec::VariableSimple { min: 3, max: 9 },
        RecordFormatSpec::VariableTsRc { min: 16, max: 64 },
    ] {
        assert_eq!(RecordFormatSpec::from_str(spec.to_string().as_str()).ok(), Some(spec));
    }
}

#[test]
fn segid_parse_examples() {
    assert_eq!(SegId::parse("1234-abcd-5678-efab"), Some(SegId::from_u64(0x1234_abcd_5678_efab)));
    assert_eq!(SegId::parse("0000-0000-0000-0000"), Some(SegId::from_u64(0)));
    assert_eq!(SegId::parse("ffff-ffff-ffff-ffff"), Some(SegId::from_u64(u64::MAX)));
    assert_eq!(SegId::parse("1234-ABCD-5678-EFAB"), None);
    assert_eq!(SegId::parse("1234-abcd-5678"), None);
    assert_eq!(SegId::parse("1234_abcd_5678_efab"), None);
    assert_eq!(SegId::parse("+234-abcd-5678-efab"), None);
}

#[test]
fn lower_hex_forms() {
    assert_eq!(Timestamp::new(1, 0).to_lower_hex(), "000000010001");
    assert_eq!(Timestamp::new(0x1_2345_6789, 5).to_lower_hex(), format!("{:08x}{:04x}", 0x1_2345_6789u64, 6u32));
    assert_eq!(Timestamp::max_value().to_lower_hex(), format!("{:08x}{:04x}", u64::MAX, 999_999_999u32));
    assert_eq!(Uid::cont().to_lower_hex(), "000000000000");
    assert_eq!(Uid::from_nanos(0x10).to_lower_hex(), "000000000011");
}

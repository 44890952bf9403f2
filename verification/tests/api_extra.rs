//! Block writer and reader positions, identifier helpers and index sizing.
use tcslog::config::BLOCK_SIZE;
use tcslog::data::{BlockHeader, DataBlockReader, DataBlockWriter};
use tcslog::index::compute_index_blocks;
use tcslog::timestamp::Timestamp;
use tcslog::uid::Uid;
use std::cmp::Ordering;
use tcslog::SegId;

#[test]
fn writer_reset_starts_a_fresh_block() {
    let mut w = DataBlockWriter::new();
    assert_eq!(w.write(&[9u8; 10]), 10);
    assert!(!w.is_empty());
    w.reset();
    assert!(w.is_empty());
    assert_eq!(w.remaining(), BLOCK_SIZE - BlockHeader::PACKLEN);
    assert_eq!(&w.buffer()[..8], &2u64.to_le_bytes());
    assert!(w.buffer()[8..].iter().all(|b| *b == 0));
}

#[test]
fn writer_fills_to_block_end_only() {
    let mut w = DataBlockWriter::new();
    let big = vec![7u8; BLOCK_SIZE];
    assert_eq!(w.write(&big), BLOCK_SIZE - 8);
    assert_eq!(w.remaining(), 0);
    assert_eq!(w.write(&[1u8]), 0);
}

#[test]
fn set_continuation_clears_low_byte() {
    let mut w = DataBlockWriter::new();
    w.write(&[5u8; 3]);
    w.set_continuation(0x1234);
    assert_eq!(&w.buffer()[..8], &0x1200u64.to_le_bytes());
    assert_eq!(&w.buffer()[8..11], &[5u8, 5, 5]);
    assert_eq!(w.remaining(), BLOCK_SIZE - 11);
}

#[test]
fn reader_set_position_clamps() {
    let mut block = [0u8; 4096];
    block[8] = 42;
    block[4095] = 17;
    let mut r = DataBlockReader::new(block);
    assert_eq!(r.read(1), &[42u8][..]);
    r.set_position(5000);
    assert_eq!(r.remaining(), 0);
    assert_eq!(r.read(4).len(), 0);
    r.set_position(4095);
    assert_eq!(r.read(4), &[17u8][..]);
}

#[test]
fn index_blocks_for_data_blocks() {
    assert_eq!(compute_index_blocks(0), 1);
    assert_eq!(compute_index_blocks(1), 1);
    assert_eq!(compute_index_blocks(204), 1);
    assert_eq!(compute_index_blocks(205), 3);
}

#[test]
fn uid_micros_roundtrip() {
    let u = Uid::from_micros(1_500_000);
    assert_eq!(u.as_micros(), 1_500_000);
    assert_eq!(u.as_nanos(), 1_500_000_000);
    assert_eq!(Uid::new(1, 999_999).as_micros(), 1_000_999);
}

#[test]
fn segid_max_is_all_ones() {
    assert_eq!(SegId::max_id().as_u64(), u64::MAX);
    assert_eq!(SegId::max_id().to_string(), "ffff-ffff-ffff-ffff");
}

#[test]
fn uid_and_timestamp_order_by_seconds_then_nanos() {
    assert!(Uid::new(1, 999_000) < Uid::new(2, 0));
    assert!(Uid::new(2, 5) > Uid::new(2, 4));
    assert_eq!(Uid::new(3, 7).partial_cmp(&Uid::new(3, 7)), Some(Ordering::Equal));
    assert!(Timestamp::new(1, 5) <= Timestamp::new(1, 5));
    assert!(Timestamp::new(0, 10) < Timestamp::new(1, 0));
    assert_eq!(Timestamp::new(4, 0).partial_cmp(&Timestamp::new(3, 999)), Some(Ordering::Greater));
}

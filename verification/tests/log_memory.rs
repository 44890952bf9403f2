//! Writer and reader driven together over segment files kept in memory.
use tcslog::read::{ReadResult, ReadState, ReadStep, Record};
use tcslog::write::{check_config, WriteState, WriteStep};
use tcslog::{Format, LogError, Meta, SegId, SegmentHeader, SeqId, SEGMENT_FILE_HEADER_LEN};

/// Segment files of one directory, in creation order.
struct MemDir {
    files: Vec<(SegId, Vec<u8>)>,
    next_id: u64,
    sends: usize,
    fail_next_send: bool,
}

impl MemDir {
    fn new() -> MemDir {
        MemDir { files: Vec::new(), next_id: 0x1000, sends: 0, fail_next_send: false }
    }

    fn create(&mut self, header: &SegmentHeader) {
        self.files.push((header.segment_id, header.to_bytes().to_vec()));
    }

    fn fresh_id(&mut self) -> SegId {
        self.next_id += 1;
        SegId::from_u64(self.next_id)
    }

    fn send(&mut self) -> Result<(), LogError> {
        self.sends += 1;
        if self.fail_next_send {
            self.fail_next_send = false;
            return Err(LogError::IoError(std::io::Error::new(std::io::ErrorKind::Other, "boom")));
        }
        Ok(())
    }

    fn ids(&self) -> Vec<SegId> {
        let mut v: Vec<SegId> = self.files.iter().map(|f| f.0).collect();
        v.sort();
        v
    }

    fn bytes_of(&self, id: SegId) -> Option<Vec<u8>> {
        self.files.iter().find(|f| f.0 == id).map(|f| f.1.clone())
    }

    fn remove(&mut self, idx: usize) {
        let ids = self.ids();
        let id = ids[idx];
        self.files.retain(|f| f.0 != id);
    }
}

struct MemWriter {
    st: WriteState,
    clock: u128,
}

impl MemWriter {
    fn open(dir: &mut MemDir, prefix: &str, suffix: &str, seg_size_max: u32, format: Format) -> Result<MemWriter, LogError> {
        check_config(prefix, suffix, seg_size_max, format)?;
        for _ in dir.ids() {
            dir.send()?;
        }
        let id = dir.fresh_id();
        let (st, header) = WriteState::start(seg_size_max, format, id);
        dir.create(&header);
        Ok(MemWriter { st, clock: 1_000 })
    }

    fn write(&mut self, dir: &mut MemDir, msg: &[u8]) -> Result<u32, LogError> {
        self.clock += 1;
        let (hdr, total) = self.st.begin_record(msg, Some(self.clock))?;
        let mut data = hdr;
        data.extend_from_slice(msg);
        let mut written = 0usize;
        while written < data.len() {
            match self.st.next_step(data.len() - written) {
                WriteStep::Write(n) => {
                    let id = self.st.current_segment_id();
                    let f = dir.files.iter_mut().find(|f| f.0 == id).unwrap();
                    f.1.extend_from_slice(&data[written..written + n]);
                    self.st.wrote(n);
                    written += n;
                }
                WriteStep::Roll => {
                    self.st.file_closed();
                    dir.send()?;
                    let id = dir.fresh_id();
                    let header = self.st.rolled(id);
                    dir.create(&header);
                    self.st.header_written();
                }
            }
        }
        Ok(total)
    }

    fn close(self, dir: &mut MemDir) {
        if self.st.has_unsent_data() {
            let _ = dir.send();
        }
    }
}

fn read_one(reader: &mut ReadState, dir: &MemDir, buf: &mut [u8]) -> Result<ReadResult, LogError> {
    loop {
        match reader.read(buf) {
            ReadStep::Done(r) => return r,
            ReadStep::Need(id) => reader.supply(id, dir.bytes_of(id)),
        }
    }
}

fn write_and_read_roundtrip(format: Format, msgs: &[&[u8]], seg_size_max: u32) {
    let mut dir = MemDir::new();
    let mut log = MemWriter::open(&mut dir, "seg-", ".log", seg_size_max, format).unwrap();
    for m in msgs {
        log.write(&mut dir, m).unwrap();
    }
    log.close(&mut dir);

    let mut reader = ReadState::new(dir.ids()).unwrap();
    let mut buf = vec![0u8; 4096];
    for m in msgs {
        let res = read_one(&mut reader, &dir, &mut buf).unwrap();
        assert_eq!(res.n as usize, m.len(), "length matches");
        assert_eq!(&buf[..res.n as usize], *m);
    }
    assert!(matches!(read_one(&mut reader, &dir, &mut buf), Err(LogError::Eof)));
}

#[test]
fn variable_ts_rc_short_records() {
    write_and_read_roundtrip(
        Format::VariableTsRc,
        &[b"one", b"two", b"three"],
        SEGMENT_FILE_HEADER_LEN + 4096,
    );
}

#[test]
fn variable_simple_short_records() {
    write_and_read_roundtrip(
        Format::VariableSimple,
        &[b"", b"a", b"bb", b"ccc"],
        SEGMENT_FILE_HEADER_LEN + 4096,
    );
}

#[test]
fn variable_ts_rc_records_span_segments() {
    let msg = vec![0x42u8; 200];
    let msgs = vec![msg.as_slice(); 5];
    write_and_read_roundtrip(Format::VariableTsRc, &msgs, SEGMENT_FILE_HEADER_LEN + 40);
}

#[test]
fn fixed_records_span_segments() {
    let msgs = vec![
        b"11111111".as_ref(),
        b"22222222".as_ref(),
        b"33333333".as_ref(),
        b"44444444".as_ref(),
        b"55555555".as_ref(),
    ];
    write_and_read_roundtrip(Format::Fixed(8), &msgs, SEGMENT_FILE_HEADER_LEN + 5);
}

#[test]
fn read_overflow_reports_actual_bytes() {
    let mut dir = MemDir::new();
    let mut log =
        MemWriter::open(&mut dir, "over-", ".log", SEGMENT_FILE_HEADER_LEN + 4096, Format::VariableSimple)
            .unwrap();
    log.write(&mut dir, &[7u8; 100]).unwrap();
    log.close(&mut dir);

    let mut reader = ReadState::new(dir.ids()).unwrap();
    let mut small = [0u8; 20];
    match read_one(&mut reader, &dir, &mut small) {
        Err(LogError::ReadOverflow(n)) => {
            assert_eq!(n, 20);
            assert!(small.iter().all(|b| *b == 7));
        }
        other => panic!("expected ReadOverflow, got {other:?}"),
    }
    assert!(matches!(read_one(&mut reader, &dir, &mut small), Err(LogError::Eof)));
}

#[test]
fn seg_size_too_small_rejected() {
    let err = check_config("s-", ".l", SEGMENT_FILE_HEADER_LEN, Format::VariableSimple).unwrap_err();
    assert!(matches!(err, LogError::SegSizeTooSmall));
}

#[test]
fn path_delimiter_rejected() {
    let err = check_config("bad/prefix-", ".l", SEGMENT_FILE_HEADER_LEN + 100, Format::VariableSimple)
        .unwrap_err();
    assert!(matches!(err, LogError::PathDelimiterNotAllowed));
}

#[test]
fn no_segments_reports_error() {
    let err = ReadState::new(Vec::new()).err().unwrap();
    assert!(matches!(err, LogError::NoSegmentFiles));
}

#[test]
fn fixed_rejects_zero_length_config() {
    let err = check_config("fz-", ".l", SEGMENT_FILE_HEADER_LEN + 8, Format::Fixed(0)).unwrap_err();
    assert!(matches!(err, LogError::FixedLenMismatch));
}

#[test]
fn fixed_rejects_wrong_length_write() {
    let mut dir = MemDir::new();
    let mut log =
        MemWriter::open(&mut dir, "fw-", ".l", SEGMENT_FILE_HEADER_LEN + 16, Format::Fixed(4)).unwrap();
    assert!(matches!(log.write(&mut dir, b"abc"), Err(LogError::FixedLenMismatch)));
    assert!(matches!(log.write(&mut dir, b"abcde"), Err(LogError::FixedLenMismatch)));
    assert!(log.write(&mut dir, b"abcd").is_ok());
}

#[test]
fn corrupt_segment_is_skipped() {
    let mut dir = MemDir::new();
    let mut log =
        MemWriter::open(&mut dir, "cs-", ".log", SEGMENT_FILE_HEADER_LEN + 40, Format::VariableSimple)
            .unwrap();
    log.write(&mut dir, &[0xAAu8; 30]).unwrap();
    log.write(&mut dir, &[0xBBu8; 30]).unwrap();
    log.close(&mut dir);
    let first = dir.ids()[0];
    let f = dir.files.iter_mut().find(|f| f.0 == first).unwrap();
    f.1[..8].copy_from_slice(b"XXXXXXXX");

    let mut reader = ReadState::new(dir.ids()).unwrap();
    let mut buf = [0u8; 128];
    match read_one(&mut reader, &dir, &mut buf) {
        Ok(_) => {}
        Err(LogError::Eof) => {}
        other => panic!("expected Ok or Eof after corrupt-header skip, got {other:?}"),
    }
}

#[test]
fn missing_segment_mid_record_recovers() {
    let mut dir = MemDir::new();
    let mut log =
        MemWriter::open(&mut dir, "ms-", ".log", SEGMENT_FILE_HEADER_LEN + 40, Format::VariableSimple)
            .unwrap();
    log.write(&mut dir, &vec![0xA0u8; 30]).unwrap();
    log.write(&mut dir, &vec![0xB1u8; 200]).unwrap();
    log.write(&mut dir, &vec![0xC2u8; 30]).unwrap();
    log.close(&mut dir);
    let n = dir.ids().len();
    assert!(n >= 5, "test setup produced too few segments: {}", n);
    dir.remove(n / 2);

    let mut reader = ReadState::new(dir.ids()).unwrap();
    let mut buf = vec![0u8; 4096];

    let r0 = read_one(&mut reader, &dir, &mut buf).unwrap();
    assert_eq!(r0.n, 30);
    assert!(buf[..30].iter().all(|b| *b == 0xA0));

    let mut saw_truncation = false;
    let mut saw_c2 = false;
    loop {
        match read_one(&mut reader, &dir, &mut buf) {
            Ok(res) => {
                if res.n == 30 && buf[..30].iter().all(|b| *b == 0xC2) {
                    saw_c2 = true;
                    break;
                }
                if res.n == 200 && buf[..200].iter().all(|b| *b == 0xB1) {
                    panic!("record 1 read succeeded despite missing segment");
                }
            }
            Err(LogError::ReadTruncated(_)) => {
                saw_truncation = true;
            }
            Err(LogError::Eof) => break,
            Err(e) => panic!("unexpected error: {e:?}"),
        }
    }
    assert!(saw_truncation, "expected ReadTruncated for the record spanning the gap");
    assert!(saw_c2, "expected record 2 to be recovered after the gap");
}

#[test]
fn missing_segment_mid_data_header_is_detected() {
    const PAYLOAD: usize = 9;
    const COUNT: usize = 8;
    let mut dir = MemDir::new();
    let mut log =
        MemWriter::open(&mut dir, "mh-", ".log", SEGMENT_FILE_HEADER_LEN + 40, Format::VariableTsRc)
            .unwrap();
    for i in 0..COUNT {
        log.write(&mut dir, &vec![0xA0u8 + i as u8; PAYLOAD]).unwrap();
    }
    log.close(&mut dir);
    let n = dir.ids().len();
    assert!(n >= 4, "test setup produced too few segments: {}", n);
    dir.remove(1);

    let mut reader = ReadState::new(dir.ids()).unwrap();
    let mut buf = vec![0u8; 4096];
    let mut saw_truncation = false;
    let mut recovered = Vec::new();
    loop {
        match read_one(&mut reader, &dir, &mut buf) {
            Ok(res) => {
                assert_eq!(res.n as usize, PAYLOAD, "phantom record with implausible length {}", res.n);
                let first = buf[0];
                assert!(
                    buf[..PAYLOAD].iter().all(|b| *b == first),
                    "payload is not one of the written records"
                );
                let idx = first
                    .checked_sub(0xA0)
                    .filter(|i| (*i as usize) < COUNT)
                    .unwrap_or_else(|| panic!("payload byte {first:#x} was never written"));
                match res.meta {
                    Meta::VariableTsRc(_, rc) => assert_eq!(
                        rc,
                        u64::from(idx) + 1,
                        "record count does not match payload {first:#x}"
                    ),
                    other => panic!("unexpected metadata {other:?}"),
                }
                recovered.push(idx);
            }
            Err(LogError::ReadTruncated(_)) => saw_truncation = true,
            Err(LogError::Eof) => break,
            Err(e) => panic!("unexpected error: {e:?}"),
        }
    }
    assert!(saw_truncation, "the segment gap splitting a data header must surface as ReadTruncated");
    assert_eq!(recovered.first(), Some(&0), "the record before the gap must still be returned");
    assert!(recovered.len() > 1, "the reader must resynchronize and recover records after the gap, got {recovered:?}");
}

#[test]
fn missing_segments_at_record_boundaries_recovers_survivors() {
    let mut dir = MemDir::new();
    let mut log =
        MemWriter::open(&mut dir, "fb-", ".log", SEGMENT_FILE_HEADER_LEN + 1, Format::Fixed(1)).unwrap();
    for byte in b"12345" {
        log.write(&mut dir, &[*byte]).unwrap();
    }
    log.close(&mut dir);
    assert_eq!(dir.ids().len(), 5, "test setup produced the wrong number of segments");
    for idx in [3usize, 2, 0] {
        dir.remove(idx);
    }

    let mut reader = ReadState::new(dir.ids()).unwrap();
    let mut buf = [0u8; 1];
    let mut recovered: Vec<u8> = Vec::new();
    loop {
        match read_one(&mut reader, &dir, &mut buf) {
            Ok(res) => {
                assert_eq!(res.n, 1);
                recovered.push(buf[0]);
            }
            Err(LogError::ReadTruncated(_)) => {}
            Err(LogError::Eof) => break,
            Err(e) => panic!("unexpected error: {e:?}"),
        }
    }
    assert_eq!(recovered, b"25");
}

#[test]
fn callbacks_see_rolled_segments() {
    let mut dir = MemDir::new();
    let mut log =
        MemWriter::open(&mut dir, "cb-", ".log", SEGMENT_FILE_HEADER_LEN + 40, Format::VariableTsRc).unwrap();
    for _ in 0..3 {
        log.write(&mut dir, &[0xAAu8; 100]).unwrap();
    }
    log.close(&mut dir);
    assert!(dir.sends >= 3);
}

#[test]
fn current_header_reports_active_segment() {
    let mut dir = MemDir::new();
    let mut log =
        MemWriter::open(&mut dir, "ch-", ".log", SEGMENT_FILE_HEADER_LEN + 4096, Format::VariableTsRc)
            .unwrap();
    log.write(&mut dir, b"one").unwrap();
    log.close(&mut dir);
    let mut reader = ReadState::new(dir.ids()).unwrap();
    assert!(reader.current_header().is_none());
    let mut buf = [0u8; 32];
    read_one(&mut reader, &dir, &mut buf).unwrap();
    let h = reader.current_header().unwrap();
    assert_eq!(h.format, Format::VariableTsRc);
    assert_eq!(h.sequence, SeqId::zero());
}

#[test]
fn session_end_returned_when_session_changes() {
    let mut dir = MemDir::new();
    let mut log =
        MemWriter::open(&mut dir, "se-", ".log", SEGMENT_FILE_HEADER_LEN + 4096, Format::VariableSimple)
            .unwrap();
    log.write(&mut dir, b"first").unwrap();
    log.close(&mut dir);
    let mut log =
        MemWriter::open(&mut dir, "se-", ".log", SEGMENT_FILE_HEADER_LEN + 4096, Format::VariableSimple)
            .unwrap();
    log.write(&mut dir, b"second").unwrap();
    log.close(&mut dir);

    let mut reader = ReadState::new(dir.ids()).unwrap();
    let mut buf = [0u8; 32];
    let r = read_one(&mut reader, &dir, &mut buf).unwrap();
    assert_eq!(&buf[..r.n as usize], b"first");
    match read_one(&mut reader, &dir, &mut buf) {
        Err(LogError::SessionEnd) => {}
        other => panic!("expected SessionEnd, got {other:?}"),
    }
    let r = read_one(&mut reader, &dir, &mut buf).unwrap();
    assert_eq!(&buf[..r.n as usize], b"second");
}

#[test]
fn iterator_yields_all_records() {
    let mut dir = MemDir::new();
    let mut log =
        MemWriter::open(&mut dir, "it-", ".log", SEGMENT_FILE_HEADER_LEN + 4096, Format::VariableSimple)
            .unwrap();
    log.write(&mut dir, b"alpha").unwrap();
    log.write(&mut dir, b"beta").unwrap();
    log.write(&mut dir, b"gamma").unwrap();
    log.close(&mut dir);
    let mut reader = ReadState::new(dir.ids()).unwrap();
    let mut collected: Vec<Vec<u8>> = Vec::new();
    let mut buf = vec![0u8; 4096];
    loop {
        match read_one(&mut reader, &dir, &mut buf) {
            Ok(res) => {
                let rec = Record { meta: res.meta, payload: buf[..res.n as usize].to_vec() };
                collected.push(rec.payload);
            }
            Err(LogError::Eof) => break,
            Err(e) => panic!("unexpected error: {e:?}"),
        }
    }
    assert_eq!(collected, vec![b"alpha".to_vec(), b"beta".to_vec(), b"gamma".to_vec()]);
}

#[test]
fn drop_sends_pending_segment() {
    let mut dir = MemDir::new();
    let mut log =
        MemWriter::open(&mut dir, "ds-", ".log", SEGMENT_FILE_HEADER_LEN + 4096, Format::VariableSimple)
            .unwrap();
    log.write(&mut dir, b"only-record").unwrap();
    log.close(&mut dir);
    assert_eq!(dir.sends, 1);
}

#[test]
fn write_error_recovery_rolls_to_new_segment() {
    let mut dir = MemDir::new();
    let mut log =
        MemWriter::open(&mut dir, "we-", ".log", SEGMENT_FILE_HEADER_LEN + 40, Format::VariableSimple)
            .unwrap();
    dir.fail_next_send = true;
    let err = log.write(&mut dir, &[0x11u8; 100]).unwrap_err();
    assert!(matches!(err, LogError::IoError(_)));
    assert!(log.write(&mut dir, &[0x22u8; 5]).is_ok());
}

#[test]
fn writer_headers_chain_sequence_and_remaining() {
    let mut dir = MemDir::new();
    let mut log =
        MemWriter::open(&mut dir, "hd-", ".log", SEGMENT_FILE_HEADER_LEN + 40, Format::VariableSimple)
            .unwrap();
    log.write(&mut dir, &[1u8; 100]).unwrap();
    log.close(&mut dir);
    let headers: Vec<SegmentHeader> = dir
        .files
        .iter()
        .map(|f| {
            let mut b = [0u8; 53];
            b.copy_from_slice(&f.1[..53]);
            SegmentHeader::from_bytes(&b).unwrap()
        })
        .collect();
    assert_eq!(headers.len(), 3);
    for (i, h) in headers.iter().enumerate() {
        assert_eq!(h.sequence, SeqId::from_u64(i as u64));
        assert_eq!(h.session_id, headers[0].segment_id);
    }
    assert_eq!(headers[0].remaining, 0);
    assert_eq!(headers[1].remaining, 104 - 40);
    assert_eq!(headers[2].remaining, 104 - 80);
}


#[test]
fn clear_removes_prior_segments_only() {
    let mut dir = MemDir::new();
    let mut log =
        MemWriter::open(&mut dir, "cl-", ".log", SEGMENT_FILE_HEADER_LEN + 40, Format::VariableTsRc).unwrap();
    for _ in 0..3 {
        log.write(&mut dir, &[0xFFu8; 100]).unwrap();
    }
    assert!(dir.files.len() > 1);
    let current = log.st.current_segment_id();
    dir.files.retain(|f| f.0 == current);
    log.close(&mut dir);
    assert_eq!(dir.ids(), vec![current]);
    let mut reader = ReadState::new(dir.ids()).unwrap();
    let mut buf = vec![0u8; 4096];
    let _ = read_one(&mut reader, &dir, &mut buf);
}

/// A record of exactly `rec_size` bytes carrying its serial number `i`.
fn create_record(rec_size: usize, i: usize) -> Vec<u8> {
    let start = format!("<<<Record {} ", i);
    let end = format!(" #{} >>>", i);
    let mid_len = rec_size - (start.len() + end.len());
    let fill = format!("{}", i);
    let middle: String = fill.chars().cycle().take(mid_len).collect();
    (start + &middle + &end).into()
}

#[test]
fn chain_count_runs_zero_one_two_and_reads_back() {
    let mut dir = MemDir::new();
    let rec_size = 60;
    let mut log =
        MemWriter::open(&mut dir, "chainlog", ".tcsl", SEGMENT_FILE_HEADER_LEN + 150, Format::VariableTsRc)
            .unwrap();
    let mut n_recs = 0;
    while dir.files.len() < 3 {
        log.write(&mut dir, &create_record(rec_size, n_recs)).unwrap();
        n_recs += 1;
    }
    log.close(&mut dir);
    let mut seqs: Vec<u64> = dir
        .files
        .iter()
        .map(|f| {
            let mut b = [0u8; 53];
            b.copy_from_slice(&f.1[..53]);
            SegmentHeader::from_bytes(&b).unwrap().sequence.as_u64()
        })
        .collect();
    seqs.sort();
    assert_eq!(seqs, vec![0, 1, 2]);
    let mut reader = ReadState::new(dir.ids()).unwrap();
    let mut buf = vec![0u8; rec_size];
    for i in 0..n_recs {
        let res = read_one(&mut reader, &dir, &mut buf).unwrap();
        assert_eq!(&buf[..res.n as usize], &create_record(rec_size, i)[..]);
    }
    assert!(matches!(read_one(&mut reader, &dir, &mut buf), Err(LogError::Eof)));
}

fn one_record_per_file(payloads: &[&[u8]]) -> MemDir {
    let mut dir = MemDir::new();
    let mut log =
        MemWriter::open(&mut dir, "r-", ".l", SEGMENT_FILE_HEADER_LEN + 1, Format::Fixed(1)).unwrap();
    for p in payloads {
        log.write(&mut dir, p).unwrap();
    }
    log.close(&mut dir);
    dir
}

#[test]
fn unusable_files_at_the_read_position_are_passed_over() {
    let mut dir = one_record_per_file(&[b"1", b"2", b"3", b"4"]);
    let ids = dir.ids();
    // first file: damaged header; second: shorter than a header.
    dir.files.iter_mut().find(|f| f.0 == ids[0]).unwrap().1[..8].copy_from_slice(b"XXXXXXXX");
    dir.files.iter_mut().find(|f| f.0 == ids[1]).unwrap().1.truncate(10);
    let mut reader = ReadState::new(ids.clone()).unwrap();
    let mut buf = [0u8; 8];
    let r = read_one(&mut reader, &dir, &mut buf).unwrap();
    assert_eq!(&buf[..r.n as usize], b"3");
    let r = read_one(&mut reader, &dir, &mut buf).unwrap();
    assert_eq!(&buf[..r.n as usize], b"4");
    assert!(matches!(read_one(&mut reader, &dir, &mut buf), Err(LogError::Eof)));
}

#[test]
fn missing_and_oversized_files_are_passed_over() {
    let mut dir = one_record_per_file(&[b"1", b"2", b"3"]);
    let ids = dir.ids();
    // first file: longer than the size its header declares.
    dir.files.iter_mut().find(|f| f.0 == ids[0]).unwrap().1.extend_from_slice(&[0u8; 5]);
    // second file: gone from the directory.
    dir.files.retain(|f| f.0 != ids[1]);
    let mut reader = ReadState::new(ids.clone()).unwrap();
    let mut buf = [0u8; 8];
    let r = read_one(&mut reader, &dir, &mut buf).unwrap();
    assert_eq!(&buf[..r.n as usize], b"3");
    assert!(matches!(read_one(&mut reader, &dir, &mut buf), Err(LogError::Eof)));
}

#[test]
fn reads_ask_for_the_first_file_not_loaded() {
    let dir = one_record_per_file(&[b"1", b"2", b"3"]);
    let ids = dir.ids();
    let mut reader = ReadState::new(ids.clone()).unwrap();
    let mut buf = [0u8; 8];
    assert!(matches!(reader.read(&mut buf), ReadStep::Need(id) if id == ids[0]));
    reader.supply(ids[0], None);
    assert!(matches!(reader.read(&mut buf), ReadStep::Need(id) if id == ids[1]));
    reader.supply(ids[1], None);
    assert!(matches!(reader.read(&mut buf), ReadStep::Need(id) if id == ids[2]));
    reader.supply(ids[2], dir.bytes_of(ids[2]));
    match reader.read(&mut buf) {
        ReadStep::Done(Ok(r)) => assert_eq!(&buf[..r.n as usize], b"3"),
        _ => panic!("expected the third record"),
    }
}

#[test]
fn nothing_usable_left_is_the_end_of_the_log() {
    let mut dir = one_record_per_file(&[b"1", b"2"]);
    let ids = dir.ids();
    for id in &ids {
        dir.files.iter_mut().find(|f| f.0 == *id).unwrap().1[..8].copy_from_slice(b"XXXXXXXX");
    }
    let mut reader = ReadState::new(ids).unwrap();
    let mut buf = [0u8; 8];
    assert!(matches!(read_one(&mut reader, &dir, &mut buf), Err(LogError::Eof)));
}

#[test]
fn damaged_remaining_on_a_crossing_is_detected() {
    let mut dir = MemDir::new();
    let mut log =
        MemWriter::open(&mut dir, "rm-", ".l", SEGMENT_FILE_HEADER_LEN + 40, Format::VariableSimple).unwrap();
    log.write(&mut dir, &[0x5Au8; 50]).unwrap();
    log.close(&mut dir);
    let ids = dir.ids();
    assert!(ids.len() >= 2);
    let second = dir.files.iter_mut().find(|f| f.0 == ids[1]).unwrap();
    assert_eq!(u64::from_le_bytes(second.1[32..40].try_into().unwrap()), 14);
    second.1[32..40].copy_from_slice(&7u64.to_le_bytes());
    let mut reader = ReadState::new(ids).unwrap();
    let mut buf = [0u8; 128];
    assert!(matches!(read_one(&mut reader, &dir, &mut buf), Err(LogError::ReadTruncated(0))));
}

#[test]
fn remaining_at_a_record_boundary_must_be_zero() {
    let mut dir = MemDir::new();
    let mut log =
        MemWriter::open(&mut dir, "rz-", ".l", SEGMENT_FILE_HEADER_LEN + 4, Format::Fixed(4)).unwrap();
    log.write(&mut dir, b"abcd").unwrap();
    log.write(&mut dir, b"efgh").unwrap();
    log.close(&mut dir);
    let ids = dir.ids();
    assert_eq!(ids.len(), 2);
    let second = dir.files.iter_mut().find(|f| f.0 == ids[1]).unwrap();
    second.1[32..40].copy_from_slice(&3u64.to_le_bytes());
    let mut reader = ReadState::new(ids).unwrap();
    let mut buf = [0u8; 16];
    let r = read_one(&mut reader, &dir, &mut buf).unwrap();
    assert_eq!(&buf[..r.n as usize], b"abcd");
    assert!(matches!(read_one(&mut reader, &dir, &mut buf), Err(LogError::ReadTruncated(0))));
}

#[test]
fn skipped_files_are_not_counted_as_opened() {
    let mut dir = one_record_per_file(&[b"1", b"2", b"3", b"4"]);
    let ids = dir.ids();
    dir.files.iter_mut().find(|f| f.0 == ids[0]).unwrap().1[..8].copy_from_slice(b"XXXXXXXX");
    dir.files.iter_mut().find(|f| f.0 == ids[2]).unwrap().1.truncate(10);
    let mut reader = ReadState::new(ids.clone()).unwrap();
    reader.collect_opened_headers(true);
    let mut buf = [0u8; 8];
    let mut got: Vec<Vec<u8>> = Vec::new();
    loop {
        match read_one(&mut reader, &dir, &mut buf) {
            Ok(r) => got.push(buf[..r.n as usize].to_vec()),
            Err(LogError::Eof) => break,
            Err(_) => {}
        }
    }
    assert_eq!(got, vec![b"2".to_vec(), b"4".to_vec()]);
    assert_eq!(reader.segments_opened(), 2);
    let headers = reader.take_opened_headers();
    let opened: Vec<SegId> = headers.iter().map(|h| h.segment_id).collect();
    assert_eq!(opened, vec![ids[1], ids[3]]);
}

use tcslog::dump::{format_msg, header_block, partial_record_line, record_line, DumpStep, DumpTally};
use tcslog::gen::{build_payload, sample_message, segment_size_for, RecordFormatSpec};
use tcslog::read::ReadResult;
use tcslog::sample::{MAX_MESSAGES, SEG_SIZE_MAX};
use tcslog::timestamp::Teststamper;
use tcslog::{Format, LogError, Meta, SegId, SegmentHeader, SeqId};

fn parse(s: &str) -> Result<RecordFormatSpec, String> {
    RecordFormatSpec::from_str(s).map_err(|e| e.to_string())
}

#[test]
fn spec_parses_each_kind() {
    assert_eq!(parse("fixed:16"), Ok(RecordFormatSpec::Fixed(16)));
    assert_eq!(parse("variable-simple:10"), Ok(RecordFormatSpec::VariableSimple { min: 10, max: 10 }));
    assert_eq!(parse("variable-ts-rc:16..64"), Ok(RecordFormatSpec::VariableTsRc { min: 16, max: 64 }));
    assert_eq!(parse("variable-simple: 5 .. +7 "), Ok(RecordFormatSpec::VariableSimple { min: 5, max: 7 }));
    assert_eq!(parse("fixed:\t4294967295\n"), Ok(RecordFormatSpec::Fixed(4294967295)));
}

#[test]
fn spec_errors_carry_their_messages() {
    assert_eq!(
        parse("fixed"),
        Err("invalid --format value \"fixed\": expected 'KIND:LEN' or 'KIND:MIN..MAX' where KIND is one of 'fixed', 'variable-simple', 'variable-ts-rc'".to_string())
    );
    assert_eq!(
        parse("bogus:1"),
        Err("invalid --format value \"bogus:1\": unknown kind \"bogus\"; expected 'fixed', 'variable-simple', or 'variable-ts-rc'".to_string())
    );
    assert_eq!(parse("fixed:0"), Err("invalid --format value: 'fixed' length must be at least 1".to_string()));
    assert_eq!(
        parse("fixed:1..2"),
        Err("invalid --format value: \"1..2\" is not a valid fixed length (expected a non-negative integer up to 4294967295)".to_string())
    );
    assert_eq!(parse("variable-simple:  "), Err("invalid --format value: variable-simple length is missing".to_string()));
    assert_eq!(
        parse("variable-ts-rc:7..3"),
        Err("invalid --format value: variable-ts-rc min (7) must be less than or equal to max (3)".to_string())
    );
    assert_eq!(
        parse("variable-simple:4294967296"),
        Err("invalid --format value: \"4294967296\" is not a valid variable-simple length (expected a non-negative integer up to 4294967295)".to_string())
    );
    assert_eq!(
        parse("variable-simple:-1"),
        Err("invalid --format value: \"-1\" is not a valid variable-simple length (expected a non-negative integer up to 4294967295)".to_string())
    );
}

#[test]
fn spec_text_forms() {
    assert_eq!(RecordFormatSpec::Fixed(8).to_string(), "fixed:8");
    assert_eq!(RecordFormatSpec::VariableSimple { min: 10, max: 10 }.to_string(), "variable-simple:10");
    assert_eq!(RecordFormatSpec::VariableTsRc { min: 16, max: 64 }.to_string(), "variable-ts-rc:16..64");
}

#[test]
fn spec_text_parses_back() {
    for f in [
        RecordFormatSpec::Fixed(1),
        RecordFormatSpec::Fixed(4294967295),
        RecordFormatSpec::VariableSimple { min: 0, max: 0 },
        RecordFormatSpec::VariableSimple { min: 3, max: 900 },
        RecordFormatSpec::VariableTsRc { min: 12, max: 12 },
        RecordFormatSpec::VariableTsRc { min: 0, max: 4294967295 },
    ] {
        assert_eq!(parse(&f.to_string()), Ok(f));
    }
}

#[test]
fn spec_accessors() {
    let f = RecordFormatSpec::VariableTsRc { min: 3, max: 9 };
    assert_eq!(f.format(), Format::VariableTsRc);
    assert_eq!(f.min_size(), 3);
    assert_eq!(f.max_size(), 9);
    let f = RecordFormatSpec::Fixed(5);
    assert_eq!(f.format(), Format::Fixed(5));
    assert_eq!(f.min_size(), 5);
    assert_eq!(f.max_size(), 5);
    assert_eq!(RecordFormatSpec::VariableSimple { min: 1, max: 2 }.format(), Format::VariableSimple);
}

#[test]
fn messages_and_payloads() {
    assert_eq!(sample_message(1234, 5, 0), "time=1234.000000005s message=1");
    assert_eq!(sample_message(0, 999_999_999, 41), "time=0.999999999s message=42");
    let p = build_payload(RecordFormatSpec::Fixed(10), 0, 1, 5);
    assert_eq!(p, b"time=1.000".to_vec());
    let vs = RecordFormatSpec::VariableSimple { min: 30, max: 32 };
    assert_eq!(build_payload(vs, 1, 1, 5), b"time=1.000000005s message=2....".to_vec());
    assert_eq!(build_payload(vs, 2, 1, 5).len(), 32);
    assert_eq!(build_payload(vs, 3, 1, 5), b"time=1.000000005s message=4...".to_vec());
    assert_eq!(segment_size_for(16), 69);
    assert_eq!(segment_size_for(u32::MAX), u32::MAX);
    assert_eq!(SEG_SIZE_MAX, 100);
    assert_eq!(MAX_MESSAGES, 20);
}

#[test]
fn payload_text_renderings() {
    assert_eq!(format_msg(false, &[0x41, 0xe9]), "A\u{e9}");
    assert_eq!(format_msg(true, &[0x41, 0xff]), "A\u{fffd}");
    assert_eq!(format_msg(true, "h\u{e9}".as_bytes()), "h\u{e9}");
    assert_eq!(record_line(false, Meta::VariableSimple, b"abc"), "    abc (3 bytes)");
    assert_eq!(partial_record_line(true, b"xy"), "    xy (2 bytes captured, record truncated)");
}

#[test]
fn header_block_lists_fields() {
    let h = SegmentHeader {
        segment_id: SegId::from_u64(0x10),
        session_id: SegId::from_u64(0x0f),
        max_size: 100,
        remaining: 7,
        format: Format::Fixed(4),
        sequence: SeqId::from_u64(3),
    };
    assert_eq!(
        header_block("p-", ".l", &h),
        "=== segment file: p-0000-0000-0000-0010.l ===\n    segment_id: 0000-0000-0000-0010\n    session_id: 0000-0000-0000-000f\n    max_size:   100\n    remaining:  7\n    format:     Fixed(4)\n    sequence:   3\n"
    );
}

fn printed(s: DumpStep) -> String {
    match s {
        DumpStep::Print(t) => t,
        DumpStep::Stop => panic!("unexpected stop"),
        DumpStep::Fail => panic!("unexpected failure"),
    }
}

#[test]
fn dump_tally_steps() {
    let mut t = DumpTally::new();
    let buf = *b"hello....";
    let ok: Result<ReadResult, LogError> = Ok(ReadResult { n: 5, meta: Meta::VariableSimple });
    assert_eq!(printed(t.on_read(&ok, &buf, true, false)), "    hello (5 bytes)\n");
    let over: Result<ReadResult, LogError> = Err(LogError::ReadOverflow(2));
    assert_eq!(
        printed(t.on_read(&over, &buf, true, true)),
        "    he (2 bytes captured, record truncated)\n    (payload larger than 256-byte buffer; 2 bytes captured, remainder discarded)\n"
    );
    let gap: Result<ReadResult, LogError> = Err(LogError::ReadTruncated(3));
    assert_eq!(printed(t.on_read(&gap, &buf, true, true)), "    -- 3 missing segment file(s); resynchronizing --\n");
    let bad: Result<ReadResult, LogError> = Err(LogError::ReadTruncated(0));
    assert_eq!(printed(t.on_read(&bad, &buf, true, true)), "    -- corrupted or truncated segment file; resynchronizing --\n");
    assert_eq!(printed(t.on_read(&bad, &buf, true, false)), "");
    let end: Result<ReadResult, LogError> = Err(LogError::SessionEnd);
    assert_eq!(printed(t.on_read(&end, &buf, true, true)), "\n--- End of Session---\n");
    let eof: Result<ReadResult, LogError> = Err(LogError::Eof);
    assert!(matches!(t.on_read(&eof, &buf, true, true), DumpStep::Stop));
    let other: Result<ReadResult, LogError> = Err(LogError::InvalidHeader);
    assert!(matches!(t.on_read(&other, &buf, true, true), DumpStep::Fail));
    assert_eq!(t.total, 2);
    assert_eq!(t.files_lost, 3);
    assert_eq!(t.summary(4), "\nread 2 message(s) across 4 file(s)\n3 segment file(s) lost\n");
    let h = SegmentHeader {
        segment_id: SegId::from_u64(1),
        session_id: SegId::from_u64(1),
        max_size: 60,
        remaining: 0,
        format: Format::VariableSimple,
        sequence: SeqId::zero(),
    };
    let first = t.header_text("a", "b", &h);
    assert!(first.starts_with("=== segment file: a0000-0000-0000-0001b ===\n"));
    let second = t.header_text("a", "b", &h);
    assert_eq!(second, format!("\n{first}"));
}

#[test]
fn teststamper_advances_by_one() {
    let mut s = Teststamper::new();
    assert_eq!(s.snapshot().as_nanos(), 0);
    assert_eq!(s.timestamp().as_nanos(), 1);
    assert_eq!(s.timestamp().as_nanos(), 2);
    assert_eq!(s.snapshot().as_nanos(), 2);
}

//! Error types shared by the read and write halves of the log.
use vstd::prelude::*;

verus! {

/// `std::io::Error`, carried through unchanged.
#[verifier::external_type_specification]
#[verifier::external_body]
pub struct ExIoError(std::io::Error);

/// Errors returned by any log operation.
#[derive(Debug)]
pub enum LogError {
    /// The underlying operation returned an I/O error.
    IoError(std::io::Error),
    /// The requested path could not be represented as a valid pathname on
    /// this platform, or does not name a directory.
    InvalidPathname,
    /// The combination of prefix, suffix and segment identifier does not
    /// form a valid file name.
    InvalidFileName,
    /// The prefix or suffix contained a path separator.
    PathDelimiterNotAllowed,
    /// The prefix or suffix contained a path delimiter (file-name helpers).
    HasDelimiter,
    /// Too much telemetry data in the current data record to fit in the
    /// caller's buffer. The value is the number of bytes placed in it.
    ReadOverflow(u32),
    /// `seg_size_max` is not larger than a segment header plus one data
    /// header.
    SegSizeTooSmall,
    /// The most recently opened segment file belongs to a different
    /// session than the previous one.
    SessionEnd,
    /// No more data records are available.
    Eof,
    /// The segment file header did not match the on-disk layout.
    InvalidHeader,
    /// The segment file was written by an incompatible version.
    VersionMismatch,
    /// The segment file's stored `segment_id` did not match its file name.
    SegIdMismatch,
    /// A `Format::Fixed(n)` log requires records of exactly `n` bytes (and
    /// `n` of at least one).
    FixedLenMismatch,
    /// A payload larger than `RecSize::MAX` bytes was supplied to a write.
    PayloadTooLarge,
    /// No segment files matching the prefix and suffix were found.
    NoSegmentFiles,
    /// The system clock returned a value before the UNIX epoch.
    ClockError,
    /// A record was cut short by a missing, truncated or corrupt segment;
    /// the value counts the segment files a sequence gap accounts for. The
    /// reader resynchronizes on the next call.
    ReadTruncated(u64),
    /// The configured timer resolution is zero.
    TimerResolutionZero,
}

impl From<std::io::Error> for LogError {
    fn from(e: std::io::Error) -> (r: LogError) {
        LogError::IoError(e)
    }
}

impl vstd::std_specs::convert::FromSpecImpl<std::io::Error> for LogError {
    open spec fn obeys_from_spec() -> bool {
        true
    }

    open spec fn from_spec(e: std::io::Error) -> LogError {
        LogError::IoError(e)
    }
}

/// Errors of the block and index layer.
#[derive(Debug)]
pub enum TcsLogError<'a> {
    /// A test-harness failure with its description.
    TestError(&'a str),
    /// The header block is too small.
    BlockSizeTooSmall,
    /// An I/O error.
    Io(std::io::Error),
    /// Malformed on-disk data, with a description.
    InvalidFormat(String),
    /// A record too large to fit in a log file.
    RecordTooLarge,
    /// End of log reached.
    EOF,
    /// A corrupted end-of-file marker.
    CorruptedEOF,
    /// Log file not found.
    NotFound,
    /// An invalid unique identifier.
    InvalidUid,
    /// The log file already exists.
    AlreadyExists,
    /// An invalid prefix character.
    InvalidPrefixChar(String),
    /// A prefix of invalid length; the value is the maximum.
    InvalidPrefixLen(usize),
    /// An invalid suffix character.
    InvalidSuffixChar(String),
    /// A suffix of invalid length; the value is the maximum.
    InvalidSuffixLen(usize),
    /// Index corruption detected.
    IndexCorrupted,
    /// A value too large.
    ValueTooLarge,
    /// The log does not end with an end-of-file marker.
    MissingEOF,
}

impl<'a> From<std::io::Error> for TcsLogError<'a> {
    fn from(e: std::io::Error) -> (r: TcsLogError<'a>) {
        TcsLogError::Io(e)
    }
}

impl<'a> vstd::std_specs::convert::FromSpecImpl<std::io::Error> for TcsLogError<'a> {
    open spec fn obeys_from_spec() -> bool {
        true
    }

    open spec fn from_spec(e: std::io::Error) -> TcsLogError<'a> {
        TcsLogError::Io(e)
    }
}

} // verus!

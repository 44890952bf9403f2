//! Segmented telemetry log: on-disk formats, segment naming and the
//! decisions of the reader and the writer, with their contracts.
#![allow(non_snake_case)]

pub mod calendar;
pub mod chain;
pub mod config;
pub mod data;
pub mod dump;
pub mod error;
pub mod format;
pub mod gen;
pub mod header;
pub mod index;
pub mod io_util;
pub mod le;
pub mod radix;
pub mod read;
pub mod roundtrip;
pub mod sample;
pub mod segid;
pub mod seq_id;
pub mod text;
pub mod timestamp;
pub mod uid;
pub mod util;
pub mod write;

pub use error::{LogError, TcsLogError};
pub use format::{format_timestamp, record_trailer, Format, Meta, RecSize, RecordCount, Timestamp};
pub use header::{SegmentHeader, SEGMENT_FILE_HEADER_LEN, VERSION_MAJOR, VERSION_MINOR};
pub use segid::SegId;
pub use seq_id::SeqId;

//! The writer's decisions: configuration checks, the per-record data
//! header, how a record's bytes are cut across segment files, and the
//! header each new segment file starts with. The files themselves are
//! created and written by the caller.
use crate::config::TIMER_RESOLUTION_NS;
use crate::error::LogError;
use crate::format::{Format, Meta};
use crate::header::{
    header_fields, lemma_header_roundtrip, spec_header_bytes, SegmentHeader, SEGMENT_FILE_HEADER_LEN,
};
use crate::chain::{
    chain_data, chain_format, chain_offsets, chain_rems, data_upto, image_data, image_fields,
    image_fits, image_header_ok, log_ok, records_ok,
};
use crate::read::{header_len_of, spec_decode_data_header};
use crate::segid::SegId;
use crate::seq_id::SeqId;
use crate::util::{check_no_path_delim, has_path_delim};
use vstd::bytes::*;
use vstd::prelude::*;

verus! {

/// Largest per-record data header of any format.
pub const MAX_DATA_HEADER_LEN: usize = 20;

/// Why a writer configuration is refused.
pub enum ConfigFault {
    /// `LogError::TimerResolutionZero`.
    TimerResolution,
    /// `LogError::PathDelimiterNotAllowed`.
    Delimiter,
    /// `LogError::SegSizeTooSmall`.
    SegSize,
    /// `LogError::FixedLenMismatch`.
    FixedLen,
}

/// The first check a writer configuration fails, in the order the checks
/// run.
pub open spec fn config_error(prefix: Seq<char>, suffix: Seq<char>, seg_size_max: u32, format: Format) -> Option<
    ConfigFault,
> {
    if TIMER_RESOLUTION_NS == 0 {
        Some(ConfigFault::TimerResolution)
    } else if has_path_delim(prefix) || has_path_delim(suffix) {
        Some(ConfigFault::Delimiter)
    } else if seg_size_max <= SEGMENT_FILE_HEADER_LEN + header_len_of(format) {
        Some(ConfigFault::SegSize)
    } else if format == Format::Fixed(0) {
        Some(ConfigFault::FixedLen)
    } else {
        None
    }
}

/// Checks the arguments of a new writer: a positive timer resolution, no
/// path separator in prefix or suffix, room for a segment header plus one
/// data header, and a non-zero `Fixed` length.
pub fn check_config(prefix: &str, suffix: &str, seg_size_max: u32, format: Format) -> (r: Result<
    (),
    LogError,
>)
    ensures
        match config_error(prefix@, suffix@, seg_size_max, format) {
            None => r is Ok,
            Some(ConfigFault::TimerResolution) => r matches Err(LogError::TimerResolutionZero),
            Some(ConfigFault::Delimiter) => r matches Err(LogError::PathDelimiterNotAllowed),
            Some(ConfigFault::SegSize) => r matches Err(LogError::SegSizeTooSmall),
            Some(ConfigFault::FixedLen) => r matches Err(LogError::FixedLenMismatch),
        },
{
    if TIMER_RESOLUTION_NS == 0 {
        return Err(LogError::TimerResolutionZero);
    }
    check_no_path_delim(prefix)?;
    check_no_path_delim(suffix)?;
    let min_size = SEGMENT_FILE_HEADER_LEN + format.data_header_len();
    if seg_size_max <= min_size {
        return Err(LogError::SegSizeTooSmall);
    }
    match format {
        Format::Fixed(n) => {
            if n == 0 {
                return Err(LogError::FixedLenMismatch);
            }
        },
        _ => {},
    }
    Ok(())
}

/// The data header written before a payload of `len` bytes.
pub open spec fn spec_data_header_bytes(f: Format, len: u32, ts: u64, rc: u64) -> Seq<u8> {
    match f {
        Format::Fixed(_) => Seq::empty(),
        Format::VariableSimple => spec_u32_to_le_bytes(len),
        Format::VariableTsRc => spec_u32_to_le_bytes(len) + spec_u64_to_le_bytes(ts)
            + spec_u64_to_le_bytes(rc),
    }
}

/// A segment size limit is refused as too small exactly when a segment
/// file of that size cannot hold its header and then the data header the
/// writer puts before every record of the format: for every payload
/// length, timestamp and record count, `seg_size_max` is at most the
/// segment header length plus the length of that data header. Checks that
/// come first (timer resolution, path separators) aside, an accepted
/// configuration always leaves room for both.
pub proof fn lemma_config_size_limit(
    prefix: Seq<char>,
    suffix: Seq<char>,
    seg_size_max: u32,
    format: Format,
    len: u32,
    ts: u64,
    rc: u64,
)
    ensures
        config_error(prefix, suffix, seg_size_max, format) is None ==> seg_size_max > SEGMENT_FILE_HEADER_LEN
            + spec_data_header_bytes(format, len, ts, rc).len(),
        TIMER_RESOLUTION_NS != 0 && !has_path_delim(prefix) && !has_path_delim(suffix) ==> ((seg_size_max
            <= SEGMENT_FILE_HEADER_LEN + spec_data_header_bytes(format, len, ts, rc).len()) <==> config_error(
            prefix,
            suffix,
            seg_size_max,
            format,
        ) matches Some(ConfigFault::SegSize)),
{
    lemma_auto_spec_u32_to_from_le_bytes();
    lemma_auto_spec_u64_to_from_le_bytes();
    assert(spec_data_header_bytes(format, len, ts, rc).len() == header_len_of(format));
}

/// What the writer does next with the bytes of a record.
pub enum WriteStep {
    /// Write this many bytes into the open segment file.
    Write(usize),
    /// The open segment is full: hand it off and start a new one.
    Roll,
}

/// The writer's state, with a record of what it has laid down: the
/// segment files of the session (identifier, header, data written), and
/// the messages begun.
pub struct WriteState {
    seg_size_max: u32,
    format: Format,
    session_id: SegId,
    segment_id: SegId,
    sequence: SeqId,
    file_open: bool,
    file_pos: u32,
    record_bytes_left: u64,
    record_total: u64,
    record_count: u64,
    g_ids: Ghost<Seq<SegId>>,
    g_heads: Ghost<Seq<SegmentHeader>>,
    g_data: Ghost<Seq<Seq<u8>>>,
    g_msgs: Ghost<Seq<(u32, u64, u64, Seq<u8>)>>,
    g_intact: Ghost<bool>,
    g_header_pending: Ghost<bool>,
}

/// Data sections laid back to back.
pub open spec fn flat_data(data: Seq<Seq<u8>>) -> Seq<u8>
    decreases data.len(),
{
    if data.len() == 0 {
        Seq::empty()
    } else {
        flat_data(data.drop_last()) + data.last()
    }
}

/// `min(i, u64::MAX)`: the sequence number of the `i`-th segment file of
/// a session.
pub open spec fn seq_of(i: int) -> u64 {
    if i >= u64::MAX {
        u64::MAX
    } else {
        i as u64
    }
}

/// The part of the current record not written yet.
pub open spec fn pending_tail(f: Format, msgs: Seq<(u32, u64, u64, Seq<u8>)>, total: u64, left: u64) -> Seq<u8> {
    if msgs.len() == 0 {
        Seq::empty()
    } else {
        rec_bytes(f, msgs.last()).subrange(total - left, total as int)
    }
}

impl WriteState {
    /// Maximum size of a segment file.
    pub closed spec fn spec_seg_size_max(&self) -> u32 {
        self.seg_size_max
    }

    /// The record layout.
    pub closed spec fn spec_format(&self) -> Format {
        self.format
    }

    /// Identifier of the first segment of the session.
    pub closed spec fn spec_session_id(&self) -> SegId {
        self.session_id
    }

    /// Identifier of the segment the next byte goes into.
    pub closed spec fn spec_segment_id(&self) -> SegId {
        self.segment_id
    }

    /// Index of the current segment within the session.
    pub closed spec fn spec_sequence(&self) -> SeqId {
        self.sequence
    }

    /// Whether a segment file is open.
    pub closed spec fn spec_file_open(&self) -> bool {
        self.file_open
    }

    /// Write position in the current segment file.
    pub closed spec fn spec_file_pos(&self) -> u32 {
        self.file_pos
    }

    /// Bytes of the current record not written yet.
    pub closed spec fn spec_record_bytes_left(&self) -> u64 {
        self.record_bytes_left
    }

    /// Bytes of the current record in all, data header included.
    pub closed spec fn spec_record_total(&self) -> u64 {
        self.record_total
    }

    /// Records written in this session (`VariableTsRc` only).
    pub closed spec fn spec_record_count(&self) -> u64 {
        self.record_count
    }

    /// The segment files of the session, in order.
    pub closed spec fn segments(&self) -> Seq<SegId> {
        self.g_ids@
    }

    /// The headers of the segment files of the session.
    pub closed spec fn headers(&self) -> Seq<SegmentHeader> {
        self.g_heads@
    }

    /// The bytes of each segment file of the session: header, then the
    /// data written into it.
    pub closed spec fn images(&self) -> Seq<Seq<u8>> {
        Seq::new(self.g_ids@.len(), |i: int| spec_header_bytes(self.g_heads@[i]) + self.g_data@[i])
    }

    /// The messages begun in this session, in order.
    pub closed spec fn messages(&self) -> Seq<(u32, u64, u64, Seq<u8>)> {
        self.g_msgs@
    }

    /// Every record begun was written in full, in order, each header
    /// after the file it starts.
    pub closed spec fn intact(&self) -> bool {
        self.g_intact@
    }

    /// A new segment file was started and its header not written yet.
    pub closed spec fn spec_header_pending(&self) -> bool {
        self.g_header_pending@
    }

    /// The record of what was laid down agrees with the state: one header
    /// per segment file, chained by sequence number in one session; and
    /// while intact, the data written followed by what is left of the
    /// current record is the records of the messages begun, and every
    /// header after the first marks in `remaining` the record it cuts.
    pub closed spec fn inv(&self) -> bool {
        let n = self.g_ids@.len();
        let f = self.format;
        let msgs = self.g_msgs@;
        &&& n >= 1
        &&& self.g_heads@.len() == n
        &&& self.g_data@.len() == n
        &&& self.g_ids@[0] == self.session_id
        &&& self.g_ids@[n - 1] == self.segment_id
        &&& self.sequence@ == seq_of(n - 1)
        &&& self.g_heads@[0].remaining == 0
        &&& forall|i: int|
            0 <= i < n ==> {
                let h = #[trigger] self.g_heads@[i];
                &&& h.segment_id == self.g_ids@[i]
                &&& h.session_id == self.session_id
                &&& h.max_size == self.seg_size_max
                &&& h.format == f
                &&& h.sequence@ == seq_of(i)
            }
        &&& !self.g_header_pending@ ==> SEGMENT_FILE_HEADER_LEN + self.g_data@[n - 1].len() == self.file_pos
        &&& self.g_header_pending@ ==> self.g_data@[n - 1].len() == 0
        &&& self.record_bytes_left <= self.record_total
        &&& self.g_intact@ ==> {
            &&& msgs.len() == 0 ==> self.record_total == 0
            &&& msgs.len() > 0 ==> self.record_total == rec_bytes(f, msgs.last()).len()
            &&& flat_data(self.g_data@) + pending_tail(f, msgs, self.record_total, self.record_bytes_left)
                == flat_recs(f, msgs)
            &&& forall|j: int| 0 <= j < msgs.len() ==> #[trigger] msg_ok(f, msgs[j])
            &&& forall|i: int|
                1 <= i < n ==> (#[trigger] self.g_heads@[i]).remaining == rem_at(
                    f,
                    msgs,
                    flat_data(self.g_data@.subrange(0, i)).len() as int,
                )
            &&& forall|i: int|
                0 <= i < n ==> (#[trigger] self.g_data@[i]).len() == 0 || SEGMENT_FILE_HEADER_LEN
                    + self.g_data@[i].len() <= self.seg_size_max
        }
    }

    /// Starts a session in the freshly created segment file `first`;
    /// returns the state and the header to write at the start of the file.
    pub fn start(seg_size_max: u32, format: Format, first: SegId) -> (r: (WriteState, SegmentHeader))
        ensures
            r.0.inv(),
            r.0.intact(),
            !r.0.spec_header_pending(),
            r.0.segments() == seq![first],
            r.0.headers() == seq![r.1],
            r.0.messages().len() == 0,
            r.0.spec_seg_size_max() == seg_size_max,
            r.0.spec_format() == format,
            r.0.spec_session_id() == first,
            r.0.spec_segment_id() == first,
            r.0.spec_sequence()@ == 0,
            r.0.spec_file_open(),
            r.0.spec_file_pos() == SEGMENT_FILE_HEADER_LEN,
            r.0.spec_record_bytes_left() == 0,
            r.0.spec_record_total() == 0,
            r.0.spec_record_count() == 0,
            r.1 == (SegmentHeader {
                segment_id: first,
                session_id: first,
                max_size: seg_size_max,
                remaining: 0,
                format,
                sequence: r.0.spec_sequence(),
            }),
    {
        let sequence = SeqId::zero();
        let header = SegmentHeader {
            segment_id: first,
            session_id: first,
            max_size: seg_size_max,
            remaining: 0,
            format,
            sequence,
        };
        let ghost ids: Seq<SegId> = seq![first];
        let ghost heads: Seq<SegmentHeader> = seq![header];
        let ghost data: Seq<Seq<u8>> = seq![Seq::empty()];
        let ghost msgs: Seq<(u32, u64, u64, Seq<u8>)> = Seq::empty();
        let st = WriteState {
            seg_size_max,
            format,
            session_id: first,
            segment_id: first,
            sequence,
            file_open: true,
            file_pos: SEGMENT_FILE_HEADER_LEN,
            record_bytes_left: 0,
            record_total: 0,
            record_count: 0,
            g_ids: Ghost(ids),
            g_heads: Ghost(heads),
            g_data: Ghost(data),
            g_msgs: Ghost(msgs),
            g_intact: Ghost(true),
            g_header_pending: Ghost(false),
        };
        proof {
            assert(data.drop_last() =~= Seq::<Seq<u8>>::empty());
            assert(flat_data(data.drop_last()) =~= Seq::<u8>::empty());
            assert(flat_data(data) =~= Seq::<u8>::empty());
        }
        (st, header)
    }

    /// The session identifier: that of the session's first segment file.
    pub fn session_id(&self) -> (r: SegId)
        ensures
            r == self.spec_session_id(),
    {
        self.session_id
    }

    /// The identifier of the segment file the next byte goes into.
    pub fn current_segment_id(&self) -> (r: SegId)
        ensures
            r == self.spec_segment_id(),
    {
        self.segment_id
    }

    /// The record layout.
    pub fn format(&self) -> (r: Format)
        ensures
            r == self.spec_format(),
    {
        self.format
    }

    /// Whether a segment file is open.
    pub fn file_open(&self) -> (r: bool)
        ensures
            r == self.spec_file_open(),
    {
        self.file_open
    }

    /// Whether the open segment file holds data beyond its header, so that
    /// it still has to be handed off when the writer stops.
    pub fn has_unsent_data(&self) -> (r: bool)
        ensures
            r == (self.spec_file_open() && self.spec_file_pos() > SEGMENT_FILE_HEADER_LEN),
    {
        self.file_open && self.file_pos > SEGMENT_FILE_HEADER_LEN
    }

    /// Begins a record with payload `msg`: checks its size against the
    /// format, and builds its data header. `now_ns` is the clock reading
    /// in nanoseconds since the epoch (`None` if the clock is before the
    /// epoch); only `VariableTsRc` uses it. Returns the data header and
    /// the number of bytes the record takes (header included, truncated
    /// to 32 bits). A record begun before the previous one was written in
    /// full leaves the log no longer intact.
    pub fn begin_record(&mut self, msg: &[u8], now_ns: Option<u128>) -> (r: Result<
        (Vec<u8>, u32),
        LogError,
    >)
        requires
            old(self).inv(),
        ensures
            final(self).inv(),
            final(self).spec_seg_size_max() == old(self).spec_seg_size_max(),
            final(self).spec_format() == old(self).spec_format(),
            final(self).spec_session_id() == old(self).spec_session_id(),
            final(self).spec_segment_id() == old(self).spec_segment_id(),
            final(self).spec_sequence() == old(self).spec_sequence(),
            final(self).spec_file_open() == old(self).spec_file_open(),
            final(self).spec_file_pos() == old(self).spec_file_pos(),
            final(self).segments() == old(self).segments(),
            final(self).headers() == old(self).headers(),
            final(self).images() == old(self).images(),
            final(self).spec_header_pending() == old(self).spec_header_pending(),
            match old(self).spec_format() {
                Format::Fixed(n) => msg@.len() != n ==> r matches Err(LogError::FixedLenMismatch),
                _ => true,
            },
            (old(self).spec_format() matches Format::Fixed(n) && msg@.len() != n) || msg@.len() > u32::MAX || (
            old(self).spec_format() == Format::VariableTsRc && now_ns is None) ==> r is Err
                && final(self).spec_record_count() == old(self).spec_record_count()
                && final(self).spec_record_bytes_left() == old(self).spec_record_bytes_left()
                && final(self).spec_record_total() == old(self).spec_record_total()
                && final(self).messages() == old(self).messages()
                && final(self).intact() == old(self).intact(),
            !(old(self).spec_format() matches Format::Fixed(n) && msg@.len() != n) && msg@.len() > u32::MAX
                ==> r matches Err(LogError::PayloadTooLarge),
            !(old(self).spec_format() matches Format::Fixed(n) && msg@.len() != n) && msg@.len() <= u32::MAX
                && old(self).spec_format() == Format::VariableTsRc && now_ns is None ==> r matches Err(
                LogError::ClockError,
            ),
            msg@.len() <= u32::MAX && !(old(self).spec_format() matches Format::Fixed(n) && msg@.len()
                != n) && !(old(self).spec_format() == Format::VariableTsRc && now_ns is None) ==> r is Ok,
            r matches Ok((h, total)) ==> {
                let f = old(self).spec_format();
                let rc = if f == Format::VariableTsRc {
                    if old(self).spec_record_count() == u64::MAX {
                        u64::MAX
                    } else {
                        (old(self).spec_record_count() + 1) as u64
                    }
                } else {
                    old(self).spec_record_count()
                };
                let ts: u64 = match now_ns {
                    Some(t) => if t > u64::MAX {
                        u64::MAX
                    } else {
                        t as u64
                    },
                    None => 0,
                };
                &&& msg@.len() <= u32::MAX
                &&& !(f matches Format::Fixed(n) && msg@.len() != n)
                &&& (f == Format::VariableTsRc ==> now_ns is Some)
                &&& final(self).spec_record_count() == rc
                &&& h@ == spec_data_header_bytes(f, msg@.len() as u32, ts, rc)
                &&& final(self).spec_record_bytes_left() == h@.len() + msg@.len()
                &&& final(self).spec_record_total() == h@.len() + msg@.len()
                &&& total == (h@.len() + msg@.len()) % 0x1_0000_0000
                &&& final(self).messages() == old(self).messages().push((msg@.len() as u32, ts, rc, msg@))
                &&& final(self).intact() == (old(self).intact() && old(self).spec_record_bytes_left() == 0)
            },
    {
        let msg_len = msg.len();
        match self.format {
            Format::Fixed(n) => {
                if msg_len as u64 != n as u64 {
                    return Err(LogError::FixedLenMismatch);
                }
            },
            _ => {},
        }
        if msg_len > 0xffff_ffffusize {
            return Err(LogError::PayloadTooLarge);
        }
        let len = msg_len as u32;
        let mut header: Vec<u8> = Vec::new();
        let mut ts: u64 = 0;
        let ghost old_count = self.record_count;
        match self.format {
            Format::Fixed(_) => {},
            Format::VariableSimple => {
                header = u32_to_le_bytes(len);
            },
            Format::VariableTsRc => {
                ts = match now_ns {
                    Some(t) => if t > 0xffff_ffff_ffff_ffffu128 {
                        0xffff_ffff_ffff_ffffu64
                    } else {
                        t as u64
                    },
                    None => {
                        return Err(LogError::ClockError);
                    },
                };
                self.record_count = self.record_count.saturating_add(1);
                let mut a = u32_to_le_bytes(len);
                let mut b = u64_to_le_bytes(ts);
                let mut c = u64_to_le_bytes(self.record_count);
                a.append(&mut b);
                a.append(&mut c);
                header = a;
            },
        }
        let hl = header.len();
        proof {
            lemma_auto_spec_u32_to_from_le_bytes();
            lemma_auto_spec_u64_to_from_le_bytes();
        }
        let ghost m = (len, match now_ns {
            Some(t) => if t > u64::MAX {
                u64::MAX
            } else {
                t as u64
            },
            None => 0u64,
        }, self.record_count, msg@);
        let ghost old_self = *self;
        let total: u64 = hl as u64 + msg_len as u64;
        proof {
            let f = self.format;
            assert(header@ == spec_data_header_bytes(f, m.0, m.1, m.2)) by {
                match f {
                    Format::VariableTsRc => {
                        assert(ts == m.1);
                    },
                    _ => {},
                }
            }
            assert(rec_bytes(f, m).len() == total);
            let msgs = self.g_msgs@;
            let nm = msgs.push(m);
            assert(nm.drop_last() =~= msgs);
            if self.g_intact@ && self.record_bytes_left == 0 {
                assert(pending_tail(f, msgs, self.record_total, 0) =~= Seq::<u8>::empty()) by {
                    if msgs.len() > 0 {
                        assert(rec_bytes(f, msgs.last()).subrange(
                            self.record_total as int,
                            self.record_total as int,
                        ) =~= Seq::<u8>::empty());
                    }
                }
                assert(flat_data(self.g_data@) + Seq::<u8>::empty() =~= flat_data(self.g_data@));
                assert(pending_tail(f, nm, total, total) =~= rec_bytes(f, m));
                assert(flat_data(self.g_data@) + pending_tail(f, nm, total, total) =~= flat_recs(f, nm));
                assert(msg_ok(f, m));
                assert forall|j: int| 0 <= j < nm.len() implies #[trigger] msg_ok(f, nm[j]) by {
                    if j < msgs.len() {
                        assert(nm[j] == msgs[j]);
                    }
                }
                let n = self.g_ids@.len();
                assert forall|i: int| 1 <= i < n implies (#[trigger] self.g_heads@[i]).remaining == rem_at(
                    f,
                    nm,
                    flat_data(self.g_data@.subrange(0, i)).len() as int,
                ) by {
                    lemma_flat_data_prefix(self.g_data@, i);
                    assert(self.g_heads@[i].remaining == rem_at(
                        f,
                        msgs,
                        flat_data(self.g_data@.subrange(0, i)).len() as int,
                    ));
                }
            }
        }
        self.record_bytes_left = total;
        self.record_total = total;
        proof {
            self.g_intact = Ghost(old_self.g_intact@ && old_self.record_bytes_left == 0);
            self.g_msgs = Ghost(old_self.g_msgs@.push(m));
        }
        Ok((header, (total % 0x1_0000_0000) as u32))
    }

    /// What to do next with the `left` bytes of the record still to write.
    pub fn next_step(&self, left: usize) -> (r: WriteStep)
        ensures
            ({
                let avail = if self.spec_seg_size_max() >= self.spec_file_pos() {
                    self.spec_seg_size_max() - self.spec_file_pos()
                } else {
                    0
                };
                match r {
                    WriteStep::Roll => avail == 0,
                    WriteStep::Write(n) => avail > 0 && n == if left < avail {
                        left as int
                    } else {
                        avail
                    },
                }
            }),
    {
        let available = self.seg_size_max.saturating_sub(self.file_pos) as usize;
        if available == 0 {
            WriteStep::Roll
        } else if left < available {
            WriteStep::Write(left)
        } else {
            WriteStep::Write(available)
        }
    }

    /// Notes that the next `n` bytes of the record went into the open
    /// segment file. More bytes than the record has left, or bytes written
    /// before the new file's header, leave the log no longer intact.
    pub fn wrote(&mut self, n: usize)
        requires
            old(self).inv(),
            old(self).spec_file_pos() + n <= old(self).spec_seg_size_max(),
        ensures
            final(self).inv(),
            final(self).spec_file_pos() == old(self).spec_file_pos() + n,
            final(self).spec_record_bytes_left() == if old(self).spec_record_bytes_left() >= n {
                old(self).spec_record_bytes_left() - n
            } else {
                0
            },
            final(self).spec_seg_size_max() == old(self).spec_seg_size_max(),
            final(self).spec_format() == old(self).spec_format(),
            final(self).spec_session_id() == old(self).spec_session_id(),
            final(self).spec_segment_id() == old(self).spec_segment_id(),
            final(self).spec_sequence() == old(self).spec_sequence(),
            final(self).spec_file_open() == old(self).spec_file_open(),
            final(self).spec_record_count() == old(self).spec_record_count(),
            final(self).spec_record_total() == old(self).spec_record_total(),
            final(self).segments() == old(self).segments(),
            final(self).headers() == old(self).headers(),
            final(self).messages() == old(self).messages(),
            final(self).spec_header_pending() == old(self).spec_header_pending(),
            final(self).intact() == (old(self).intact() && n <= old(self).spec_record_bytes_left()
                && !old(self).spec_header_pending()),
    {
        let ghost old_self = *self;
        let ghost k = self.g_ids@.len() - 1;
        let ghost f = self.format;
        let ghost msgs = self.g_msgs@;
        let ghost w = self.record_total - self.record_bytes_left;
        let ghost ok = self.g_intact@ && n <= self.record_bytes_left && !self.g_header_pending@;
        let ghost chunk: Seq<u8> = if ok {
            rec_bytes(f, msgs.last()).subrange(w, w + n)
        } else {
            Seq::new(n as nat, |_i: int| 0u8)
        };
        proof {
            if ok && n > 0 {
                assert(msgs.len() > 0);
            }
        }
        self.file_pos = self.file_pos + n as u32;
        self.record_bytes_left = self.record_bytes_left.saturating_sub(n as u64);
        proof {
            let nd = if old_self.g_header_pending@ {
                old_self.g_data@
            } else {
                old_self.g_data@.update(k, old_self.g_data@[k] + chunk)
            };
            self.g_data = Ghost(nd);
            self.g_intact = Ghost(ok);
            if !old_self.g_header_pending@ {
                assert(nd.drop_last() =~= old_self.g_data@.drop_last());
                assert(flat_data(nd) =~= flat_data(old_self.g_data@) + chunk);
            }
            assert forall|i: int| 0 <= i <= k implies nd.subrange(0, i) =~= old_self.g_data@.subrange(0, i)
                || i == k + 1 by {}
            if ok {
                assert forall|i: int| 1 <= i < k + 1 implies (#[trigger] self.g_heads@[i]).remaining == rem_at(
                    f,
                    msgs,
                    flat_data(nd.subrange(0, i)).len() as int,
                ) by {
                    assert(nd.subrange(0, i) =~= old_self.g_data@.subrange(0, i));
                }
                let t = old_self.record_total;
                let l = old_self.record_bytes_left;
                if msgs.len() > 0 {
                    let rb = rec_bytes(f, msgs.last());
                    assert(rb.subrange(t - l, t as int) =~= chunk + rb.subrange(t - l + n, t as int));
                    assert(flat_data(nd) + pending_tail(f, msgs, t, (l - n) as u64) =~= flat_data(
                        old_self.g_data@,
                    ) + pending_tail(f, msgs, t, l));
                }
                assert forall|i: int| 0 <= i < k + 1 implies (#[trigger] nd[i]).len() == 0
                    || SEGMENT_FILE_HEADER_LEN + nd[i].len() <= self.seg_size_max by {
                    if i < k {
                        assert(nd[i] == old_self.g_data@[i]);
                    }
                }
            }
        }
    }

    /// Notes that the open segment file was closed (before it is handed
    /// off).
    pub fn file_closed(&mut self)
        requires
            old(self).inv(),
        ensures
            final(self).inv(),
            !final(self).spec_file_open(),
            final(self).spec_file_pos() == old(self).spec_file_pos(),
            final(self).spec_record_bytes_left() == old(self).spec_record_bytes_left(),
            final(self).spec_seg_size_max() == old(self).spec_seg_size_max(),
            final(self).spec_format() == old(self).spec_format(),
            final(self).spec_session_id() == old(self).spec_session_id(),
            final(self).spec_segment_id() == old(self).spec_segment_id(),
            final(self).spec_sequence() == old(self).spec_sequence(),
            final(self).spec_record_count() == old(self).spec_record_count(),
            final(self).spec_record_total() == old(self).spec_record_total(),
            final(self).segments() == old(self).segments(),
            final(self).headers() == old(self).headers(),
            final(self).images() == old(self).images(),
            final(self).messages() == old(self).messages(),
            final(self).intact() == old(self).intact(),
            final(self).spec_header_pending() == old(self).spec_header_pending(),
    {
        self.file_open = false;
    }

    /// Moves to the freshly created segment file `new_id`; returns the
    /// header to write at its start: the next sequence number, and as
    /// `remaining` the bytes of the current record still to be written,
    /// or zero when none of it has been written yet (the record then
    /// starts at the new file's data section).
    pub fn rolled(&mut self, new_id: SegId) -> (r: SegmentHeader)
        requires
            old(self).inv(),
        ensures
            final(self).inv(),
            final(self).spec_segment_id() == new_id,
            final(self).spec_sequence()@ == if old(self).spec_sequence()@ == u64::MAX {
                u64::MAX
            } else {
                (old(self).spec_sequence()@ + 1) as u64
            },
            r == (SegmentHeader {
                segment_id: new_id,
                session_id: old(self).spec_session_id(),
                max_size: old(self).spec_seg_size_max(),
                remaining: if old(self).spec_record_bytes_left() == old(self).spec_record_total() {
                    0
                } else {
                    old(self).spec_record_bytes_left()
                },
                format: old(self).spec_format(),
                sequence: final(self).spec_sequence(),
            }),
            final(self).spec_record_total() == old(self).spec_record_total(),
            final(self).spec_file_open() == old(self).spec_file_open(),
            final(self).spec_file_pos() == old(self).spec_file_pos(),
            final(self).spec_record_bytes_left() == old(self).spec_record_bytes_left(),
            final(self).spec_seg_size_max() == old(self).spec_seg_size_max(),
            final(self).spec_format() == old(self).spec_format(),
            final(self).spec_session_id() == old(self).spec_session_id(),
            final(self).spec_record_count() == old(self).spec_record_count(),
            final(self).segments() == old(self).segments().push(new_id),
            final(self).headers() == old(self).headers().push(r),
            final(self).messages() == old(self).messages(),
            final(self).intact() == old(self).intact(),
            final(self).spec_header_pending(),
    {
        let ghost old_self = *self;
        self.segment_id = new_id;
        self.sequence = self.sequence.saturating_next();
        let remaining = if self.record_bytes_left == self.record_total {
            0
        } else {
            self.record_bytes_left
        };
        let header = SegmentHeader {
            segment_id: new_id,
            session_id: self.session_id,
            max_size: self.seg_size_max,
            remaining,
            format: self.format,
            sequence: self.sequence,
        };
        proof {
            let f = self.format;
            let msgs = self.g_msgs@;
            let n = old_self.g_ids@.len();
            let nd = old_self.g_data@.push(Seq::<u8>::empty());
            self.g_ids = Ghost(old_self.g_ids@.push(new_id));
            self.g_heads = Ghost(old_self.g_heads@.push(header));
            self.g_data = Ghost(nd);
            self.g_header_pending = Ghost(true);
            assert(nd.subrange(0, n as int) =~= old_self.g_data@);
            assert forall|i: int| 0 <= i < n implies nd.subrange(0, i) =~= old_self.g_data@.subrange(0, i) by {}
            if old_self.g_intact@ {
                let t = old_self.record_total;
                let l = old_self.record_bytes_left;
                let fd = flat_data(old_self.g_data@);
                let o = fd.len() as int;
                if msgs.len() > 0 {
                    let j = msgs.len() - 1;
                    lemma_flat_prefix(f, msgs, j);
                    assert(msgs.subrange(0, j) =~= msgs.drop_last());
                    assert(msgs.subrange(0, j + 1) =~= msgs);
                    lemma_rem_at(f, msgs, o, j);
                    lemma_rem_at(f, msgs, o, j + 1);
                    assert(pending_tail(f, msgs, t, l).len() == l);
                } else {
                    lemma_rem_at(f, msgs, o, 0);
                }
                assert(header.remaining == rem_at(f, msgs, flat_data(nd.subrange(0, n as int)).len() as int));
                assert(nd.drop_last() =~= old_self.g_data@);
                assert(flat_data(nd) =~= fd);
            }
        }
        header
    }

    /// Notes that the new segment file's header was written. Data noted
    /// before it leaves the log no longer intact.
    pub fn header_written(&mut self)
        requires
            old(self).inv(),
        ensures
            final(self).inv(),
            final(self).spec_file_open(),
            final(self).spec_file_pos() == SEGMENT_FILE_HEADER_LEN,
            final(self).spec_record_bytes_left() == old(self).spec_record_bytes_left(),
            final(self).spec_seg_size_max() == old(self).spec_seg_size_max(),
            final(self).spec_format() == old(self).spec_format(),
            final(self).spec_session_id() == old(self).spec_session_id(),
            final(self).spec_segment_id() == old(self).spec_segment_id(),
            final(self).spec_sequence() == old(self).spec_sequence(),
            final(self).spec_record_count() == old(self).spec_record_count(),
            final(self).spec_record_total() == old(self).spec_record_total(),
            final(self).segments() == old(self).segments(),
            final(self).headers() == old(self).headers(),
            final(self).messages() == old(self).messages(),
            !final(self).spec_header_pending(),
            final(self).intact() == (old(self).intact() && (old(self).spec_header_pending() || old(
                self,
            ).spec_file_pos() == SEGMENT_FILE_HEADER_LEN)),
    {
        let ghost old_self = *self;
        let ghost k = self.g_ids@.len() - 1;
        let ghost ok = self.g_intact@ && (self.g_header_pending@ || self.file_pos == SEGMENT_FILE_HEADER_LEN);
        self.file_open = true;
        self.file_pos = SEGMENT_FILE_HEADER_LEN;
        proof {
            let nd = old_self.g_data@.update(k, Seq::<u8>::empty());
            self.g_data = Ghost(nd);
            self.g_header_pending = Ghost(false);
            self.g_intact = Ghost(ok);
            if ok {
                assert(old_self.g_data@[k].len() == 0);
                assert(old_self.g_data@[k] =~= Seq::<u8>::empty());
                assert(nd =~= old_self.g_data@);
            }
        }
    }
}

/// The data sections of the first `i` images, back to back, are the
/// first `i` data runs laid back to back.
proof fn lemma_data_upto_flat(imgs: Seq<Seq<u8>>, data: Seq<Seq<u8>>, i: int)
    requires
        0 <= i <= imgs.len(),
        imgs.len() == data.len(),
        forall|k: int| 0 <= k < imgs.len() ==> image_data(#[trigger] imgs[k]) == data[k],
    ensures
        data_upto(imgs, i) == flat_data(data.subrange(0, i)),
    decreases i,
{
    if i > 0 {
        lemma_data_upto_flat(imgs, data, i - 1);
        let a = data.subrange(0, i);
        assert(a.drop_last() =~= data.subrange(0, i - 1));
        assert(a.last() == data[i - 1]);
        assert(image_data(imgs[i - 1]) == data[i - 1]);
    } else {
        assert(data.subrange(0, 0) =~= Seq::<Seq<u8>>::empty());
    }
}

/// What a writer leaves behind, once every record it began was written in
/// full and the header of its last segment file is on disk, is a
/// well-formed log of one session: its segment files chain, and their
/// data sections, back to back, are the records of the messages written,
/// in order. (Sessions of `u64::MAX` segment files or more are left out:
/// there the sequence numbers saturate.)
pub proof fn lemma_writer_leaves_log(w: WriteState)
    requires
        w.inv(),
        w.intact(),
        w.spec_record_bytes_left() == 0,
        !w.spec_header_pending(),
        w.spec_seg_size_max() > SEGMENT_FILE_HEADER_LEN,
        w.spec_format() != Format::Fixed(0),
        w.segments().len() < u64::MAX,
    ensures
        log_ok(w.segments(), w.images()),
        chain_format(w.images()) == w.spec_format(),
        chain_data(w.images()) == flat_recs(w.spec_format(), w.messages()),
        forall|k: int| 0 <= k < w.messages().len() ==> #[trigger] msg_ok(w.spec_format(), w.messages()[k]),
{
    let ids = w.g_ids@;
    let heads = w.g_heads@;
    let data = w.g_data@;
    let msgs = w.g_msgs@;
    let f = w.format;
    let imgs = w.images();
    let n = ids.len();
    assert forall|k: int| 0 <= k < n implies {
        &&& image_header_ok(#[trigger] imgs[k])
        &&& image_fields(imgs[k]) == header_fields(heads[k])
        &&& image_data(imgs[k]) == data[k]
    } by {
        let h = heads[k];
        assert(h.format == f);
        lemma_header_roundtrip(h);
        let hb = spec_header_bytes(h);
        assert(imgs[k] == hb + data[k]);
        assert(imgs[k].subrange(0, SEGMENT_FILE_HEADER_LEN as int) =~= hb);
        assert(image_data(imgs[k]) =~= data[k]);
    }
    assert forall|k: int| 0 <= k < n implies #[trigger] image_fits(ids, imgs, k) by {
        let h = heads[k];
        let h0 = heads[0];
        assert(image_fields(imgs[k]) == header_fields(h));
        assert(image_fields(imgs[0]) == header_fields(h0));
        assert(h.sequence@ == seq_of(k));
        assert(h0.sequence@ == seq_of(0));
        assert(data[k].len() == 0 || SEGMENT_FILE_HEADER_LEN + data[k].len() <= w.seg_size_max);
        assert(imgs[k].len() == SEGMENT_FILE_HEADER_LEN + data[k].len());
    }
    assert(data.subrange(0, n as int) =~= data);
    lemma_data_upto_flat(imgs, data, n as int);
    assert(chain_data(imgs) == flat_data(data));
    assert(pending_tail(f, msgs, w.record_total, 0) =~= Seq::<u8>::empty()) by {
        if msgs.len() > 0 {
            assert(rec_bytes(f, msgs.last()).subrange(w.record_total as int, w.record_total as int)
                =~= Seq::<u8>::empty());
        }
    }
    assert(flat_data(data) + Seq::<u8>::empty() =~= flat_data(data));
    assert(flat_data(data) == flat_recs(f, msgs));
    assert(image_fields(imgs[0]) == header_fields(heads[0]));
    assert(chain_format(imgs) == f);
    let offs = chain_offsets(imgs);
    let rems = chain_rems(imgs);
    assert forall|i: int| 1 <= i < offs.len() implies rems[i] == rem_at(f, msgs, #[trigger] offs[i]) by {
        lemma_data_upto_flat(imgs, data, i);
        assert(image_fields(imgs[i]) == header_fields(heads[i]));
        assert(heads[i].remaining == rem_at(f, msgs, flat_data(data.subrange(0, i)).len() as int));
    }
    lemma_records_ok_of_msgs(f, msgs, offs, rems, 0);
    assert(msgs.subrange(0, 0) =~= Seq::<(u32, u64, u64, Seq<u8>)>::empty());
    assert(rec_start(f, msgs, 0) == 0);
}

/// A shorter run of data sections lays down a prefix of a longer one.
pub proof fn lemma_flat_data_prefix(data: Seq<Seq<u8>>, i: int)
    requires
        0 <= i <= data.len(),
    ensures
        flat_data(data.subrange(0, i)).len() <= flat_data(data).len(),
        flat_data(data).subrange(0, flat_data(data.subrange(0, i)).len() as int) == flat_data(
            data.subrange(0, i),
        ),
    decreases data.len() - i,
{
    if i < data.len() {
        lemma_flat_data_prefix(data, i + 1);
        let a = data.subrange(0, i + 1);
        assert(a.drop_last() =~= data.subrange(0, i));
        let fa = flat_data(a);
        let fi = flat_data(data.subrange(0, i));
        let d = flat_data(data);
        assert(d.subrange(0, fi.len() as int) =~= fa.subrange(0, fi.len() as int));
        assert(fa.subrange(0, fi.len() as int) =~= fi);
    } else {
        assert(data.subrange(0, i) =~= data);
        assert(flat_data(data).subrange(0, flat_data(data).len() as int) =~= flat_data(data));
    }
}

/// The data header the writer builds decodes, on the reader's side, to
/// the payload length and metadata it was built from.
pub proof fn lemma_data_header_roundtrip(f: Format, len: u32, ts: u64, rc: u64)
    requires
        f matches Format::Fixed(n) ==> n == len,
    ensures
        spec_data_header_bytes(f, len, ts, rc).len() == header_len_of(f),
        spec_decode_data_header(f, spec_data_header_bytes(f, len, ts, rc)) == (
            len,
            match f {
                Format::Fixed(_) => Meta::Fixed,
                Format::VariableSimple => Meta::VariableSimple,
                Format::VariableTsRc => Meta::VariableTsRc(ts, rc),
            },
        ),
{
    lemma_auto_spec_u32_to_from_le_bytes();
    lemma_auto_spec_u64_to_from_le_bytes();
    let h = spec_data_header_bytes(f, len, ts, rc);
    match f {
        Format::Fixed(_) => {},
        Format::VariableSimple => {
            assert(h.subrange(0, 4) =~= h);
        },
        Format::VariableTsRc => {
            assert(h.subrange(0, 4) =~= spec_u32_to_le_bytes(len));
            assert(h.subrange(4, 12) =~= spec_u64_to_le_bytes(ts));
            assert(h.subrange(12, 20) =~= spec_u64_to_le_bytes(rc));
        },
    }
}

/// A record as the writer lays it down: its data header, then its
/// payload. A message is (payload length, timestamp, record count,
/// payload).
pub open spec fn rec_bytes(f: Format, m: (u32, u64, u64, Seq<u8>)) -> Seq<u8> {
    spec_data_header_bytes(f, m.0, m.1, m.2) + m.3
}

/// Records back to back.
pub open spec fn flat_recs(f: Format, msgs: Seq<(u32, u64, u64, Seq<u8>)>) -> Seq<u8>
    decreases msgs.len(),
{
    if msgs.len() == 0 {
        Seq::empty()
    } else {
        flat_recs(f, msgs.drop_last()) + rec_bytes(f, msgs.last())
    }
}

/// Where record `j` starts in the records laid back to back.
pub open spec fn rec_start(f: Format, msgs: Seq<(u32, u64, u64, Seq<u8>)>, j: int) -> int {
    flat_recs(f, msgs.subrange(0, j)).len() as int
}

/// Of the record that position `o` lies strictly inside, the bytes from
/// `o` to its end; zero on a record boundary.
pub open spec fn rem_at(f: Format, msgs: Seq<(u32, u64, u64, Seq<u8>)>, o: int) -> int
    decreases msgs.len(),
{
    if msgs.len() == 0 {
        0
    } else {
        let b = flat_recs(f, msgs.drop_last()).len() as int;
        let e = b + rec_bytes(f, msgs.last()).len();
        if b < o < e {
            e - o
        } else {
            rem_at(f, msgs.drop_last(), o)
        }
    }
}

/// A message fits the format: its payload has the length its header
/// gives, the fixed length for `Fixed`.
pub open spec fn msg_ok(f: Format, m: (u32, u64, u64, Seq<u8>)) -> bool {
    &&& m.3.len() == m.0
    &&& f matches Format::Fixed(n) ==> n == m.0
}

/// The metadata a reader gets back for a message.
pub open spec fn msg_meta(f: Format, m: (u32, u64, u64, Seq<u8>)) -> Meta {
    match f {
        Format::Fixed(_) => Meta::Fixed,
        Format::VariableSimple => Meta::VariableSimple,
        Format::VariableTsRc => Meta::VariableTsRc(m.1, m.2),
    }
}

/// The records of the first `j` messages are a prefix of all of them,
/// and record `j` follows them.
pub proof fn lemma_flat_prefix(f: Format, msgs: Seq<(u32, u64, u64, Seq<u8>)>, j: int)
    requires
        0 <= j <= msgs.len(),
    ensures
        rec_start(f, msgs, j) <= flat_recs(f, msgs).len(),
        flat_recs(f, msgs).subrange(0, rec_start(f, msgs, j)) == flat_recs(f, msgs.subrange(0, j)),
        j < msgs.len() ==> rec_start(f, msgs, j + 1) == rec_start(f, msgs, j) + rec_bytes(f, msgs[j]).len(),
        j < msgs.len() ==> flat_recs(f, msgs).subrange(rec_start(f, msgs, j), rec_start(f, msgs, j + 1))
            == rec_bytes(f, msgs[j]),
        rec_start(f, msgs, msgs.len() as int) == flat_recs(f, msgs).len(),
    decreases msgs.len() - j,
{
    assert(msgs.subrange(0, msgs.len() as int) =~= msgs);
    if j < msgs.len() {
        lemma_flat_prefix(f, msgs, j + 1);
        let a = msgs.subrange(0, j + 1);
        assert(a.drop_last() =~= msgs.subrange(0, j));
        assert(a.last() == msgs[j]);
        let fa = flat_recs(f, a);
        let fj = flat_recs(f, msgs.subrange(0, j));
        assert(fa == fj + rec_bytes(f, msgs[j]));
        let d = flat_recs(f, msgs);
        assert(d.subrange(0, fa.len() as int) == fa);
        assert(d.subrange(0, fj.len() as int) =~= fa.subrange(0, fj.len() as int));
        assert(fa.subrange(0, fj.len() as int) =~= fj);
        assert(d.subrange(fj.len() as int, fa.len() as int) =~= fa.subrange(fj.len() as int, fa.len() as int));
        assert(fa.subrange(fj.len() as int, fa.len() as int) =~= rec_bytes(f, msgs[j]));
    } else {
        assert(flat_recs(f, msgs).subrange(0, flat_recs(f, msgs).len() as int) =~= flat_recs(f, msgs));
    }
}

/// `rem_at` is zero on record boundaries and past the end, and inside
/// record `j` it is the distance to that record's end.
pub proof fn lemma_rem_at(f: Format, msgs: Seq<(u32, u64, u64, Seq<u8>)>, o: int, j: int)
    requires
        0 <= j <= msgs.len(),
    ensures
        o == rec_start(f, msgs, j) ==> rem_at(f, msgs, o) == 0,
        o >= flat_recs(f, msgs).len() ==> rem_at(f, msgs, o) == 0,
        j < msgs.len() && rec_start(f, msgs, j) < o < rec_start(f, msgs, j + 1) ==> rem_at(f, msgs, o)
            == rec_start(f, msgs, j + 1) - o,
    decreases msgs.len(),
{
    if msgs.len() > 0 {
        let n = msgs.len() - 1;
        let dl = msgs.drop_last();
        lemma_flat_prefix(f, msgs, j);
        lemma_flat_prefix(f, msgs, n);
        assert(msgs.subrange(0, n) =~= dl);
        if j <= n {
            lemma_rem_at(f, dl, o, j);
            assert(dl.subrange(0, j) =~= msgs.subrange(0, j));
            if j < n {
                assert(dl.subrange(0, j + 1) =~= msgs.subrange(0, j + 1));
                lemma_flat_prefix(f, msgs, j + 1);
                lemma_starts_grow(f, msgs, j + 1, n);
            }
            lemma_starts_grow(f, msgs, j, n);
        } else {
            lemma_rem_at(f, dl, o, n);
        }
    }
}

/// Record starts grow with the index.
pub proof fn lemma_starts_grow(f: Format, msgs: Seq<(u32, u64, u64, Seq<u8>)>, i: int, j: int)
    requires
        0 <= i <= j <= msgs.len(),
    ensures
        rec_start(f, msgs, i) <= rec_start(f, msgs, j),
    decreases j - i,
{
    if i < j {
        lemma_flat_prefix(f, msgs, i);
        lemma_starts_grow(f, msgs, i + 1, j);
    }
}

/// Records laid back to back, with every data section after the first
/// marked by `rem_at`, read as whole records from each record start on.
pub proof fn lemma_records_ok_of_msgs(
    f: Format,
    msgs: Seq<(u32, u64, u64, Seq<u8>)>,
    offs: Seq<int>,
    rems: Seq<u64>,
    j: int,
)
    requires
        0 <= j <= msgs.len(),
        f != Format::Fixed(0),
        forall|k: int| 0 <= k < msgs.len() ==> #[trigger] msg_ok(f, msgs[k]),
        offs.len() == rems.len(),
        forall|i: int| 1 <= i < offs.len() ==> rems[i] == rem_at(f, msgs, #[trigger] offs[i]),
    ensures
        records_ok(f, flat_recs(f, msgs), offs, rems, rec_start(f, msgs, j)),
    decreases msgs.len() - j,
{
    let d = flat_recs(f, msgs);
    let p = rec_start(f, msgs, j);
    lemma_flat_prefix(f, msgs, j);
    assert forall|i: int| 1 <= i < offs.len() && offs[i] == p implies rems[i] == 0 by {
        lemma_rem_at(f, msgs, offs[i], j);
    }
    if j < msgs.len() {
        let m = msgs[j];
        assert(msg_ok(f, m));
        lemma_data_header_roundtrip(f, m.0, m.1, m.2);
        let hl = header_len_of(f);
        let q = rec_start(f, msgs, j + 1);
        lemma_flat_prefix(f, msgs, j + 1);
        assert(d.subrange(p, q) == rec_bytes(f, m));
        assert(rec_bytes(f, m).len() == hl + m.3.len());
        assert(d.subrange(p, p + hl) =~= d.subrange(p, q).subrange(0, hl as int));
        assert(d.subrange(p, p + hl) =~= rec_bytes(f, m).subrange(0, hl as int));
        assert(rec_bytes(f, m).subrange(0, hl as int) =~= spec_data_header_bytes(f, m.0, m.1, m.2));
        assert(crate::chain::rec_len(f, d, p) == q - p);
        assert(q - p >= 1) by {
            match f {
                Format::Fixed(n) => {
                    assert(m.3.len() == n);
                },
                _ => {},
            }
        }
        assert forall|i: int| 1 <= i < offs.len() && p < offs[i] < q implies rems[i] == q - offs[i] by {
            lemma_rem_at(f, msgs, offs[i], j);
        }
        lemma_records_ok_of_msgs(f, msgs, offs, rems, j + 1);
    } else {
        assert forall|i: int| 1 <= i < offs.len() && offs[i] == p implies rems[i] == 0 by {
            lemma_rem_at(f, msgs, offs[i], j);
        }
    }
}

} // verus!

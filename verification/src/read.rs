//! The reader's decisions: which segment file to open next, how records
//! are reassembled across segment files, how every crossing is checked,
//! and how the reader resynchronizes after a gap. The segment files
//! themselves are handed in as byte images by the caller.
use crate::chain::{
    chain_data, chain_format, chain_offsets, chain_rems, data_upto, image_data, image_fields, image_fits,
    image_header_ok, image_opens, lemma_chain_data_at, lemma_data_upto_prefix, lemma_image_format_ok,
    lemma_seg_offset, lemma_tail_cut_suffix, log_cut_ok, rec_len, records_cut_ok, seg_offset, tail_cut_ok,
    whole_at,
};
use crate::error::LogError;
use crate::format::{Format, Meta, RecSize};
use crate::header::{header_fields, spec_header_decode, SegmentHeader, SEGMENT_FILE_HEADER_LEN};
use crate::segid::SegId;
use crate::seq_id::SeqId;
use vstd::prelude::*;

verus! {

/// The bytes of one segment file, or `None` when it could not be opened.
pub struct SegmentImage {
    /// Identifier named by the file name.
    pub id: SegId,
    /// Contents of the file.
    pub bytes: Option<Vec<u8>>,
}

/// Segment files loaded so far, by identifier.
pub struct SegmentStore {
    /// The loaded images; the first image of an identifier counts.
    pub images: Vec<SegmentImage>,
}

/// Index of the first image of `id` at or after `from`, or the length.
pub open spec fn find_image(imgs: Seq<SegmentImage>, id: u64, from: int) -> int
    decreases imgs.len() - from,
{
    if from >= imgs.len() {
        imgs.len() as int
    } else if imgs[from].id@ == id {
        from
    } else {
        find_image(imgs, id, from + 1)
    }
}

/// The loaded contents of `id`: `None` if not loaded yet, `Some(None)` if
/// the file could not be opened.
pub open spec fn loaded(st: &SegmentStore, id: u64) -> Option<Option<Seq<u8>>> {
    loaded_in(st.images@, id)
}

/// The loaded contents of `id` in a list of images.
pub open spec fn loaded_in(imgs: Seq<SegmentImage>, id: u64) -> Option<Option<Seq<u8>>> {
    let i = find_image(imgs, id, 0);
    if i >= imgs.len() {
        None
    } else {
        match imgs[i].bytes {
            Some(v) => Some(Some(v@)),
            None => Some(None),
        }
    }
}

proof fn lemma_find_image_bounds(imgs: Seq<SegmentImage>, id: u64, from: int)
    requires
        0 <= from,
    ensures
        from <= find_image(imgs, id, from) || from > imgs.len(),
        find_image(imgs, id, from) <= imgs.len() || from > imgs.len(),
        find_image(imgs, id, from) < imgs.len() ==> imgs[find_image(imgs, id, from)].id@ == id,
    decreases imgs.len() - from,
{
    if from < imgs.len() && imgs[from].id@ != id {
        lemma_find_image_bounds(imgs, id, from + 1);
    }
}

impl SegmentStore {
    /// An empty store.
    pub fn new() -> (r: SegmentStore)
        ensures
            r.images@.len() == 0,
    {
        SegmentStore { images: Vec::new() }
    }

    /// Adds the contents of a segment file.
    pub fn insert(&mut self, id: SegId, bytes: Option<Vec<u8>>)
        ensures
            final(self).images@ == old(self).images@.push(SegmentImage { id, bytes }),
    {
        self.images.push(SegmentImage { id, bytes });
    }

    /// Drops every image except the one that counts for `keep`.
    pub fn retain_only(&mut self, keep: Option<SegId>)
        ensures
            match keep {
                Some(k) => loaded(final(self), k@) == loaded(old(self), k@) && final(self).images@.len()
                    <= 1,
                None => final(self).images@.len() == 0,
            },
            forall|id: u64|
                #[trigger] loaded(final(self), id) is None || loaded(final(self), id) == loaded(old(self), id),
    {
        let mut images = Vec::new();
        std::mem::swap(&mut images, &mut self.images);
        match keep {
            Some(k) => {
                let ghost before = images@;
                let found = find_in(&images, k);
                match found {
                    Some(i) => {
                        let img = images.swap_remove(i);
                        assert(self.images@.len() == 0);
                        self.images.push(img);
                        proof {
                            lemma_find_image_bounds(before, k@, 0);
                            assert(img == before[i as int]);
                            assert(self.images@[0].id@ == k@);
                            assert(find_image(self.images@, k@, 0) == 0);
                            assert forall|id: u64| #[trigger] loaded(self, id) is None || loaded(self, id)
                                == loaded_in(before, id) by {
                                if id != k@ {
                                    assert(find_image(self.images@, id, 1) == 1);
                                    assert(find_image(self.images@, id, 0) == 1);
                                }
                            }
                        }
                    },
                    None => {
                        proof {
                            assert(self.images@.len() == 0);
                        }
                    },
                }
            },
            None => {},
        }
    }

    fn lookup(&self, id: SegId) -> (r: Option<usize>)
        ensures
            match r {
                Some(i) => i < self.images@.len() && i == find_image(self.images@, id@, 0),
                None => find_image(self.images@, id@, 0) >= self.images@.len(),
            },
    {
        find_in(&self.images, id)
    }
}

fn find_in(images: &Vec<SegmentImage>, id: SegId) -> (r: Option<usize>)
    ensures
        match r {
            Some(i) => i < images@.len() && i == find_image(images@, id@, 0),
            None => find_image(images@, id@, 0) >= images@.len(),
        },
{
    let mut i: usize = 0;
    while i < images.len()
        invariant
            0 <= i <= images@.len(),
            find_image(images@, id@, 0) == find_image(images@, id@, i as int),
        decreases images.len() - i,
    {
        if images[i].id.as_u64() == id.as_u64() {
            return Some(i);
        }
        i = i + 1;
    }
    None
}


/// One record's worth of data returned by a read.
#[derive(Debug, Clone, Copy)]
pub struct ReadResult {
    /// Number of payload bytes of the record (all of them were stored in
    /// the caller's buffer).
    pub n: RecSize,
    /// Format-specific per-record metadata.
    pub meta: Meta,
}

/// One record's payload plus its metadata.
#[derive(Debug, Clone)]
pub struct Record {
    /// Format-specific per-record metadata.
    pub meta: Meta,
    /// The record's payload bytes.
    pub payload: Vec<u8>,
}

/// The segment file the reader is positioned in.
#[derive(Debug, Clone, Copy)]
pub struct OpenSegment {
    /// Its header.
    pub header: SegmentHeader,
    /// Byte position within the file; at least the header length.
    pub file_pos: u32,
    /// Size of the file (at most its declared `max_size`).
    pub file_len: u32,
}

/// A file length as the reader counts it: clamped to `u32::MAX`.
pub open spec fn clamp_len(n: nat) -> u32 {
    if n > u32::MAX {
        u32::MAX
    } else {
        n as u32
    }
}

/// Bytes of the data section still unread in the segment.
pub open spec fn bytes_left(s: OpenSegment) -> int {
    s.file_len - s.file_pos
}

/// A position in a well-formed open segment.
pub open spec fn seg_ok(s: OpenSegment) -> bool {
    &&& SEGMENT_FILE_HEADER_LEN <= s.file_pos <= s.file_len
    &&& s.file_len <= s.header.max_size
}

/// The errors a read can end with on the reader's own account.
pub open spec fn read_error(e: LogError) -> bool {
    e is Eof || e is SessionEnd || e is ReadTruncated
}

/// Outcome of a read attempt inside the reader.
enum Fail {
    /// The contents of this segment file are needed first.
    Need(SegId),
    /// The read ended with this error.
    Log(LogError),
}

/// The part of the reader's state that a read attempt changes.
#[derive(Clone, Copy)]
struct Cursor {
    current: Option<OpenSegment>,
    next: usize,
    session_id: Option<SegId>,
    pending_session_end: bool,
    resync: bool,
    consumed: u64,
    total: Option<u64>,
    segments_opened: u64,
    last_opened: Option<SegId>,
    spans: Ghost<Seq<(u64, int, int)>>,
    fmt: Ghost<Format>,
}

/// The open segment file has had at least one data byte read from it.
spec fn past_start(c: Cursor) -> bool {
    c.current matches Some(s) && s.file_pos > SEGMENT_FILE_HEADER_LEN
}

/// The next listed segment file is loaded, can be opened, and belongs to
/// another session than the reader's.
spec fn next_other(c: Cursor, ids: Seq<SegId>, st: &SegmentStore) -> bool {
    &&& c.next < ids.len()
    &&& c.session_id matches Some(x) && loaded(st, ids[c.next as int]@) matches Some(Some(b)) && image_opens(
        b,
        ids[c.next as int]@,
    ) && image_fields(b).1 != x@
}

/// The next listed segment file is loaded, can be opened, and belongs to
/// the reader's session.
spec fn next_in_session(c: Cursor, ids: Seq<SegId>, st: &SegmentStore) -> bool {
    &&& c.next < ids.len()
    &&& c.session_id matches Some(x) && loaded(st, ids[c.next as int]@) matches Some(Some(b)) && image_opens(
        b,
        ids[c.next as int]@,
    ) && image_fields(b).1 == x@
}

/// The loaded contents of the next listed segment file.
spec fn next_image(c: Cursor, ids: Seq<SegId>, st: &SegmentStore) -> Seq<u8> {
    match loaded(st, ids[c.next as int]@) {
        Some(Some(b)) => b,
        _ => Seq::empty(),
    }
}

/// The sequence number that follows `s`, saturating.
pub open spec fn seq_after(s: u64) -> u64 {
    if s == u64::MAX {
        u64::MAX
    } else {
        (s + 1) as u64
    }
}

/// The number of segment files a jump from sequence number `prev` to
/// `next` skips (zero if it does not move forward).
pub open spec fn seq_lost(prev: u64, next: u64) -> u64 {
    if next >= seq_after(prev) {
        (next - seq_after(prev)) as u64
    } else {
        0
    }
}

/// The bytes of the spans `(segment, start, end)`, one after another.
pub open spec fn span_bytes(st: &SegmentStore, spans: Seq<(u64, int, int)>) -> Seq<u8>
    decreases spans.len(),
{
    if spans.len() == 0 {
        Seq::empty()
    } else {
        let sp = spans.last();
        let b = match loaded(st, sp.0) {
            Some(Some(b)) => b,
            _ => Seq::empty(),
        };
        span_bytes(st, spans.drop_last()) + b.subrange(sp.1, sp.2)
    }
}

/// The reader's bookkeeping is consistent with the segment list and the
/// loaded files.
spec fn cursor_ok(c: Cursor, ids: Seq<SegId>, st: &SegmentStore) -> bool {
    &&& c.next <= ids.len()
    &&& (c.current matches Some(s) ==> {
        &&& seg_ok(s)
        &&& c.segments_opened <= c.next
        &&& c.next >= 1
        &&& ids[c.next - 1] == s.header.segment_id
        &&& c.last_opened == Some(s.header.segment_id)
        &&& loaded(st, s.header.segment_id@) matches Some(Some(b)) && clamp_len(b.len()) == s.file_len
    })
    &&& (c.segments_opened <= c.next || (c.next < ids.len() && c.last_opened == Some(ids[c.next as int])
        && c.segments_opened == c.next + 1))
    &&& (c.total matches Some(t) ==> c.consumed <= t)
    &&& c.consumed <= 0x1_0000_0000_0000
}

/// What was loaded of the listed segment files from `k0` on agrees with
/// the images `imgs`: each is not loaded yet or loaded with its image.
pub open spec fn agrees(ids: Seq<SegId>, st: &SegmentStore, k0: int, imgs: Seq<Seq<u8>>) -> bool {
    &&& 0 <= k0
    &&& k0 + imgs.len() <= ids.len()
    &&& forall|j: int|
        k0 <= j < k0 + imgs.len() ==> match loaded(st, #[trigger] ids[j]@) {
            None => true,
            Some(x) => x == Some(imgs[j - k0]),
        }
}

/// The listed segment files from `k0` on, with images `imgs`, fit one
/// chain, and what was loaded of them agrees with the images.
pub open spec fn chain_ctx(ids: Seq<SegId>, st: &SegmentStore, k0: int, imgs: Seq<Seq<u8>>) -> bool {
    &&& agrees(ids, st, k0, imgs)
    &&& imgs.len() >= 1
    &&& forall|i: int| 0 <= i < imgs.len() ==> #[trigger] image_fits(ids.subrange(k0, ids.len() as int), imgs, i)
}

/// The cursor reads segment `j` (listed index) of the chain from its start.
spec fn opened_at(c: Cursor, k0: int, imgs: Seq<Seq<u8>>, j: int) -> bool {
    &&& c.next == j + 1
    &&& c.current matches Some(s) && {
        &&& header_fields(s.header) == image_fields(imgs[j - k0])
        &&& s.file_len == imgs[j - k0].len()
        &&& s.file_pos == SEGMENT_FILE_HEADER_LEN
    }
    &&& c.session_id matches Some(x) && x@ == image_fields(imgs[0]).1
}

/// The cursor is inside the chain, in a segment it opened, in the
/// chain's session, neither resynchronizing nor ending a session.
spec fn on_tail(c: Cursor, k0: int, imgs: Seq<Seq<u8>>) -> bool {
    &&& c.current matches Some(s) && {
        &&& k0 + 1 <= c.next <= k0 + imgs.len()
        &&& header_fields(s.header) == image_fields(imgs[c.next - 1 - k0])
        &&& s.file_len == imgs[c.next - 1 - k0].len()
    }
    &&& c.session_id matches Some(x) && x@ == image_fields(imgs[0]).1
    &&& !c.resync
    &&& !c.pending_session_end
}

/// Supplying `bytes` for `id` agrees with the images `imgs` of the
/// listed segment files from index `k0` on: wherever `id` is listed among
/// them, `bytes` holds its image.
pub open spec fn supplies_agree(listed: Seq<SegId>, k0: int, imgs: Seq<Seq<u8>>, id: SegId, bytes: Option<Vec<u8>>) -> bool {
    forall|j: int|
        k0 <= j < k0 + imgs.len() && #[trigger] listed[j] == id ==> (bytes matches Some(v) && v@ == imgs[j - k0])
}

/// `id` is one of the listed segment files from `k0` on.
spec fn asks_tail(ids: Seq<SegId>, k0: int, imgs: Seq<Seq<u8>>, id: SegId) -> bool {
    exists|j: int| k0 <= j < k0 + imgs.len() && ids[j] == id
}

/// The next segment's `remaining` is what the reader will check when it
/// crosses into it: zero on a record boundary, else the bytes of the
/// record still owed once the record's size is known.
spec fn crossing_ok(c: Cursor, k0: int, imgs: Seq<Seq<u8>>) -> bool {
    let rem = image_fields(imgs[c.next - k0]).3;
    &&& c.consumed == 0 ==> rem == 0
    &&& c.consumed != 0 ==> match c.total {
        Some(t) => rem == t - c.consumed,
        None => true,
    }
}

/// Position of the cursor in the chain's byte stream.
spec fn tail_pos(c: Cursor, k0: int, imgs: Seq<Seq<u8>>) -> int {
    seg_offset(imgs, c.next - 1 - k0) + c.current->0.file_pos - SEGMENT_FILE_HEADER_LEN
}

/// Listed file `j` is loaded and opens as the segment file it is listed
/// as: long enough for a header, the header decodes and names it, and its
/// length (counted up to `u32::MAX`) is no more than the size it declares.
pub open spec fn usable_at(ids: Seq<SegId>, st: &SegmentStore, j: int) -> bool {
    &&& loaded(st, ids[j]@) matches Some(Some(b)) && image_header_ok(b) && image_fields(b).0 == ids[j]@
        && clamp_len(b.len()) <= image_fields(b).2
}

/// The loaded image of listed file `j` (empty when there is none).
pub open spec fn listed_image(ids: Seq<SegId>, st: &SegmentStore, j: int) -> Seq<u8> {
    match loaded(st, ids[j]@) {
        Some(Some(b)) => b,
        _ => Seq::empty(),
    }
}

/// The first listed index at or after `from` whose file is not loaded
/// yet or opens; the length of the list when there is none. The files
/// before it are loaded and missing, damaged, too long or misnamed.
pub open spec fn first_stop(ids: Seq<SegId>, st: &SegmentStore, from: int) -> int
    decreases ids.len() - from,
{
    if from < 0 || from >= ids.len() {
        ids.len() as int
    } else if loaded(st, ids[from]@) is None || usable_at(ids, st, from) {
        from
    } else {
        first_stop(ids, st, from + 1)
    }
}

/// The first listed index at or after `from` whose file is not loaded
/// yet; the length of the list when there is none.
pub open spec fn first_unloaded(ids: Seq<SegId>, st: &SegmentStore, from: int) -> int
    decreases ids.len() - from,
{
    if from < 0 || from >= ids.len() {
        ids.len() as int
    } else if loaded(st, ids[from]@) is None {
        from
    } else {
        first_unloaded(ids, st, from + 1)
    }
}

/// `id` is the first listed file at or after `from` that is not loaded.
pub open spec fn needed_first(ids: Seq<SegId>, st: &SegmentStore, from: int, id: SegId) -> bool {
    let u = first_unloaded(ids, st, from);
    u < ids.len() && ids[u] == id
}

proof fn lemma_first_unloaded(ids: Seq<SegId>, st: &SegmentStore, from: int)
    requires
        0 <= from <= ids.len(),
    ensures
        from <= first_unloaded(ids, st, from) <= ids.len(),
        forall|k: int| from <= k < first_unloaded(ids, st, from) ==> loaded(st, #[trigger] ids[k]@) is Some,
        first_unloaded(ids, st, from) < ids.len() ==> loaded(st, ids[first_unloaded(ids, st, from)]@) is None,
    decreases ids.len() - from,
{
    if from < ids.len() && loaded(st, ids[from]@) is Some {
        lemma_first_unloaded(ids, st, from + 1);
    }
}

proof fn lemma_first_stop_bounds(ids: Seq<SegId>, st: &SegmentStore, from: int)
    requires
        0 <= from <= ids.len(),
    ensures
        from <= first_stop(ids, st, from) <= ids.len(),
        first_unloaded(ids, st, from) == first_unloaded(ids, st, first_stop(ids, st, from)),
        forall|k: int|
            from <= k < first_stop(ids, st, from) ==> loaded(st, #[trigger] ids[k]@) is Some && !usable_at(
                ids,
                st,
                k,
            ),
        first_stop(ids, st, from) < ids.len() ==> loaded(st, ids[first_stop(ids, st, from)]@) is None
            || usable_at(ids, st, first_stop(ids, st, from)),
    decreases ids.len() - from,
{
    if from < ids.len() && !(loaded(st, ids[from]@) is None || usable_at(ids, st, from)) {
        lemma_first_stop_bounds(ids, st, from + 1);
    }
}

/// `h` is the header of a listed file that opens.
pub open spec fn opened_from(ids: Seq<SegId>, st: &SegmentStore, h: SegmentHeader) -> bool {
    exists|j: int|
        0 <= j < ids.len() && #[trigger] ids[j] == h.segment_id && usable_at(ids, st, j) && header_fields(h)
            == image_fields(listed_image(ids, st, j))
}

/// From cursor `c0` and collected headers `o0` to `c1` and `o1`: the
/// count of opened files only grows; collected headers are only added, one
/// per file counted (none when not collecting), each the header of a
/// listed file that opens.
spec fn opens_grow(
    c0: Cursor,
    c1: Cursor,
    o0: Seq<SegmentHeader>,
    o1: Seq<SegmentHeader>,
    ids: Seq<SegId>,
    st: &SegmentStore,
    collect: bool,
) -> bool {
    &&& c0.segments_opened <= c1.segments_opened
    &&& o0.len() <= o1.len()
    &&& collect ==> o1.len() - o0.len() == c1.segments_opened - c0.segments_opened
    &&& !collect ==> o1 == o0
    &&& forall|i: int| 0 <= i < o0.len() ==> #[trigger] o1[i] == o0[i]
    &&& forall|i: int| o0.len() <= i < o1.len() ==> opened_from(ids, st, #[trigger] o1[i])
}

/// Copies the first header-length bytes of a file.
fn header_bytes_of(b: &Vec<u8>) -> (r: [u8; 53])
    requires
        b@.len() >= 53,
    ensures
        r@ == b@.subrange(0, 53),
{
    let mut r = [0u8; 53];
    let mut i: usize = 0;
    while i < 53
        invariant
            0 <= i <= 53,
            b@.len() >= 53,
            r@.len() == 53,
            forall|k: int| 0 <= k < i ==> r@[k] == b@[k],
        decreases 53 - i,
    {
        r[i] = b[i];
        i = i + 1;
    }
    proof {
        assert(r@ =~= b@.subrange(0, 53));
    }
    r
}

fn same_segid(a: Option<SegId>, b: SegId) -> (r: bool)
    ensures
        r == (a == Some(b)),
{
    match a {
        Some(x) => {
            proof {
                crate::segid::lemma_segid_view_injective(x, b);
            }
            x.as_u64() == b.as_u64()
        },
        None => false,
    }
}

/// Opens the next pending segment whose header is readable and belongs
/// to the current session, passing over the loaded files that do not
/// open; asks for the first file not loaded yet on the way; `Ok(false)`
/// once the pending list is exhausted.
fn open_next_ready_segment(
    c: &mut Cursor,
    ids: &Vec<SegId>,
    st: &SegmentStore,
    opened: &mut Vec<SegmentHeader>,
    collect: bool,
    Ghost(k0): Ghost<int>,
    Ghost(imgs): Ghost<Seq<Seq<u8>>>,
) -> (r: Result<bool, Fail>)
    requires
        cursor_ok(*old(c), ids@, st),
        old(c).current is None,
    ensures
        !collect ==> final(opened)@ == old(opened)@,
        opens_grow(*old(c), *final(c), old(opened)@, final(opened)@, ids@, st, collect),
        r == Ok::<bool, Fail>(true) ==> ({
            let id = ids@[final(c).next - 1];
            let fresh = old(c).last_opened != Some(id);
            &&& final(c).last_opened == Some(id)
            &&& final(c).segments_opened == old(c).segments_opened + if fresh { 1int } else { 0int }
            &&& final(opened)@ == if collect && fresh {
                old(opened)@.push(final(c).current->0.header)
            } else {
                old(opened)@
            }
        }),
        r != Ok::<bool, Fail>(true) ==> final(c).segments_opened == old(c).segments_opened && final(c).last_opened
            == old(c).last_opened && final(opened)@ == old(opened)@,
        next_in_session(*old(c), ids@, st) ==> r == Ok::<bool, Fail>(true) && final(c).next == old(c).next + 1
            && (final(c).current matches Some(s) && header_fields(s.header) == image_fields(
            next_image(*old(c), ids@, st),
        )) && final(c).session_id == old(c).session_id,
        next_other(*old(c), ids@, st) ==> r == Err::<bool, Fail>(Fail::Log(LogError::SessionEnd)) && final(c).next
            == old(c).next,
        cursor_ok(*final(c), ids@, st),
        final(c).fmt == old(c).fmt,
        final(c).spans == old(c).spans,
        final(c).consumed == old(c).consumed,
        final(c).total == old(c).total,
        final(c).resync == old(c).resync,
        final(c).next >= old(c).next,
        match r {
            Ok(true) => final(c).current is Some && final(c).next > old(c).next && final(c).current->0.file_pos
                == SEGMENT_FILE_HEADER_LEN,
            Ok(false) => final(c).current is None && final(c).next == ids@.len(),
            Err(Fail::Log(LogError::SessionEnd)) => final(c).current is None && final(c).pending_session_end,
            Err(Fail::Need(id)) => loaded(st, id@) is None,
            Err(Fail::Log(_)) => false,
        },
        r is Ok ==> final(c).pending_session_end == old(c).pending_session_end,
        old(c).next == ids@.len() ==> r == Ok::<bool, Fail>(false),
        ({
            let j = first_stop(ids@, st, old(c).next as int);
            let b = listed_image(ids@, st, j);
            &&& j == ids@.len() ==> r == Ok::<bool, Fail>(false) && final(c).next == ids@.len()
            &&& j < ids@.len() && loaded(st, ids@[j]@) is None ==> r == Err::<bool, Fail>(Fail::Need(ids@[j]))
            &&& j < ids@.len() && usable_at(ids@, st, j) && (old(c).session_id matches Some(x) ==> x@
                == image_fields(b).1) ==> r == Ok::<bool, Fail>(true) && final(c).next == j + 1
                && (final(c).current matches Some(s) && header_fields(s.header) == image_fields(b)
                && s.file_len == clamp_len(b.len())) && (final(c).session_id matches Some(x) && x@
                == image_fields(b).1)
            &&& j < ids@.len() && usable_at(ids@, st, j) && (old(c).session_id matches Some(x) && x@
                != image_fields(b).1) ==> r == Err::<bool, Fail>(Fail::Log(LogError::SessionEnd))
                && final(c).next == j
        }),
        first_unloaded(ids@, st, final(c).next as int) == first_unloaded(ids@, st, old(c).next as int),
        r matches Err(Fail::Need(id)) ==> needed_first(ids@, st, old(c).next as int, id),
        chain_ctx(ids@, st, k0, imgs) && k0 <= old(c).next < k0 + imgs.len() && (old(c).session_id matches Some(
            x,
        ) ==> x@ == image_fields(imgs[0]).1) ==> (r matches Err(Fail::Need(id)) && asks_tail(ids@, k0, imgs, id)) || (r == Ok::<
            bool,
            Fail,
        >(true) && opened_at(*final(c), k0, imgs, old(c).next as int)),
{
    let ghost hyp = chain_ctx(ids@, st, k0, imgs) && k0 <= c.next < k0 + imgs.len() && (c.session_id matches Some(
        x,
    ) ==> x@ == image_fields(imgs[0]).1);
    while c.next < ids.len()
        invariant
            c.segments_opened == old(c).segments_opened,
            c.last_opened == old(c).last_opened,
            opened@ == old(opened)@,
            !collect ==> opened@ == old(opened)@,
            cursor_ok(*c, ids@, st),
            c.fmt == old(c).fmt,
            c.current is None,
            c.spans == old(c).spans,
            c.consumed == old(c).consumed,
            c.total == old(c).total,
            c.resync == old(c).resync,
            c.next >= old(c).next,
            c.pending_session_end == old(c).pending_session_end,
            hyp == (chain_ctx(ids@, st, k0, imgs) && k0 <= old(c).next < k0 + imgs.len() && (old(
                c,
            ).session_id matches Some(x) ==> x@ == image_fields(imgs[0]).1)),
            hyp ==> c.next == old(c).next && c.session_id == old(c).session_id,
            next_other(*old(c), ids@, st) ==> c.next == old(c).next && c.session_id == old(c).session_id,
            next_in_session(*old(c), ids@, st) ==> c.next == old(c).next && c.session_id == old(c).session_id,
            c.session_id == old(c).session_id,
            first_stop(ids@, st, c.next as int) == first_stop(ids@, st, old(c).next as int),
            first_unloaded(ids@, st, c.next as int) == first_unloaded(ids@, st, old(c).next as int),
        decreases ids@.len() - c.next,
    {
        let id = ids[c.next];
        let ghost j = c.next as int;
        let idx = match st.lookup(id) {
            None => {
                proof {
                    if hyp {
                        assert(ids@[c.next as int] == id);
                    }
                    assert(first_stop(ids@, st, j) == j);
                    assert(first_unloaded(ids@, st, j) == j);
                }
                return Err(Fail::Need(id));
            },
            Some(i) => i,
        };
        proof {
            lemma_find_image_bounds(st.images@, id@, 0);
            assert(loaded(st, ids@[j]@) is Some);
            assert(first_unloaded(ids@, st, j) == first_unloaded(ids@, st, j + 1));
        }
        let ghost tids = ids@.subrange(k0, ids@.len() as int);
        proof {
            if hyp {
                assert(loaded(st, ids@[j]@) matches Some(x) && x == Some(imgs[j - k0]));
                assert(image_fits(tids, imgs, j - k0));
                assert(tids[j - k0] == ids@[j]);
            }
        }
        c.next = c.next + 1;
        let bytes = match &st.images[idx].bytes {
            None => {
                proof {
                    assert(loaded(st, ids@[j]@) == Some(None::<Seq<u8>>));
                    assert(!usable_at(ids@, st, j));
                    assert(first_stop(ids@, st, j) == first_stop(ids@, st, j + 1));
                }
                continue;
            },
            Some(b) => b,
        };
        proof {
            assert(loaded(st, ids@[j]@) == Some(Some(bytes@)));
            assert(listed_image(ids@, st, j) == bytes@);
            if hyp {
                assert(bytes@ == imgs[j - k0]);
            }
        }
        let file_len: u32 = if bytes.len() > 0xffff_ffffusize {
            0xffff_ffffu32
        } else {
            bytes.len() as u32
        };
        if file_len < SEGMENT_FILE_HEADER_LEN {
            proof {
                assert(!usable_at(ids@, st, j));
                assert(first_stop(ids@, st, j) == first_stop(ids@, st, j + 1));
            }
            continue;
        }
        let hb = header_bytes_of(bytes);
        proof {
            if next_other(*old(c), ids@, st) || next_in_session(*old(c), ids@, st) {
                assert(loaded(st, ids@[j]@) == Some(Some(bytes@)));
            }
        }
        let header = match SegmentHeader::from_bytes(&hb) {
            Err(_) => {
                proof {
                    assert(!image_header_ok(bytes@));
                    assert(!usable_at(ids@, st, j));
                    assert(first_stop(ids@, st, j) == first_stop(ids@, st, j + 1));
                }
                continue;
            },
            Ok(h) => h,
        };
        proof {
            assert(image_header_ok(bytes@));
            assert(header_fields(header) == image_fields(bytes@));
        }
        if header.segment_id.as_u64() != id.as_u64() {
            proof {
                assert(!usable_at(ids@, st, j));
                assert(first_stop(ids@, st, j) == first_stop(ids@, st, j + 1));
            }
            continue;
        }
        proof {
            crate::segid::lemma_segid_view_injective(header.segment_id, id);
        }
        if file_len > header.max_size {
            proof {
                assert(!usable_at(ids@, st, j));
                assert(first_stop(ids@, st, j) == first_stop(ids@, st, j + 1));
            }
            continue;
        }
        proof {
            assert(usable_at(ids@, st, j));
            assert(first_stop(ids@, st, j) == j);
        }
        match c.session_id {
            None => {
                c.session_id = Some(header.session_id);
            },
            Some(active) => {
                if active.as_u64() != header.session_id.as_u64() {
                    c.next = c.next - 1;
                    c.pending_session_end = true;
                    return Err(Fail::Log(LogError::SessionEnd));
                }
            },
        }
        if !same_segid(c.last_opened, id) {
            c.segments_opened = c.segments_opened + 1;
            c.last_opened = Some(id);
            if collect {
                opened.push(header);
            }
        }
        c.current = Some(OpenSegment { header, file_pos: SEGMENT_FILE_HEADER_LEN, file_len });
        return Ok(true);
    }
    Ok(false)
}


/// Classifies running out of segment files in the middle of a read: on
/// a record boundary the log simply ended; inside a record its tail is
/// missing.
fn exhausted_mid_record(c: &Cursor) -> (r: LogError)
    ensures
        c.consumed == 0 ==> r is Eof,
        c.consumed != 0 ==> r matches LogError::ReadTruncated(0),
{
    if c.consumed == 0 {
        LogError::Eof
    } else {
        LogError::ReadTruncated(0)
    }
}

/// Rejects the segment just entered: it goes back to the front of the
/// pending list and the reader resynchronizes.
fn reject_crossing(c: &mut Cursor, ids: &Vec<SegId>, st: &SegmentStore, lost: u64) -> (r: LogError)
    requires
        cursor_ok(*old(c), ids@, st),
        old(c).current is Some,
    ensures
        final(c).segments_opened == old(c).segments_opened,
        first_unloaded(ids@, st, final(c).next as int) == first_unloaded(ids@, st, old(c).next as int),
        cursor_ok(*final(c), ids@, st),
        final(c).fmt == old(c).fmt,
        final(c).current is None,
        final(c).resync,
        final(c).next == old(c).next - 1,
        final(c).spans == old(c).spans,
        final(c).consumed == old(c).consumed,
        final(c).total == old(c).total,
        r matches LogError::ReadTruncated(l) && l == lost,
        final(c).session_id == old(c).session_id,
        final(c).pending_session_end == old(c).pending_session_end,
{
    c.current = None;
    c.next = c.next - 1;
    c.resync = true;
    LogError::ReadTruncated(lost)
}

/// Enters resync mode; the open segment, if any, goes back to the front
/// of the pending list to be reopened cleanly.
fn arm_resync(c: &mut Cursor, ids: &Vec<SegId>, st: &SegmentStore)
    requires
        cursor_ok(*old(c), ids@, st),
    ensures
        final(c).segments_opened == old(c).segments_opened,
        first_unloaded(ids@, st, final(c).next as int) == first_unloaded(ids@, st, old(c).next as int),
        cursor_ok(*final(c), ids@, st),
        final(c).fmt == old(c).fmt,
        final(c).current is None,
        final(c).resync,
        final(c).spans == old(c).spans,
        old(c).current is None ==> final(c).next == old(c).next,
        final(c).session_id == old(c).session_id,
        final(c).pending_session_end == old(c).pending_session_end,
{
    c.resync = true;
    if c.current.is_some() {
        c.current = None;
        c.next = c.next - 1;
    }
}

/// Moves into the next segment in the middle of a record and checks that
/// it continues the record: its sequence number must follow the previous
/// segment's, and its `remaining` must be zero on a record boundary, or
/// the bytes still owed once the record's size is known.
fn cross_to_next_in_record(
    c: &mut Cursor,
    ids: &Vec<SegId>,
    st: &SegmentStore,
    opened: &mut Vec<SegmentHeader>,
    collect: bool,
    Ghost(k0): Ghost<int>,
    Ghost(imgs): Ghost<Seq<Seq<u8>>>,
) -> (r: Result<(), Fail>)
    requires
        cursor_ok(*old(c), ids@, st),
    ensures
        first_unloaded(ids@, st, final(c).next as int) == first_unloaded(ids@, st, old(c).next as int),
        r matches Err(Fail::Need(id)) ==> needed_first(ids@, st, old(c).next as int, id),
        !collect ==> final(opened)@ == old(opened)@,
        opens_grow(*old(c), *final(c), old(opened)@, final(opened)@, ids@, st, collect),
        old(c).current is Some && next_in_session(*old(c), ids@, st) && image_fields(next_image(*old(c), ids@, st)).5
            != seq_after(old(c).current->0.header.sequence@) ==> r == Err::<(), Fail>(
            Fail::Log(
                LogError::ReadTruncated(
                    seq_lost(old(c).current->0.header.sequence@, image_fields(next_image(*old(c), ids@, st)).5),
                ),
            ),
        ) && final(c).next == old(c).next && final(c).current is None && final(c).session_id == old(c).session_id,
        old(c).current is Some && next_in_session(*old(c), ids@, st) && image_fields(next_image(*old(c), ids@, st)).5
            == seq_after(old(c).current->0.header.sequence@) && ((old(c).consumed == 0 && image_fields(
            next_image(*old(c), ids@, st),
        ).3 != 0) || (old(c).consumed != 0 && (old(c).total matches Some(t) && image_fields(
            next_image(*old(c), ids@, st),
        ).3 != t - old(c).consumed))) ==> r == Err::<(), Fail>(Fail::Log(LogError::ReadTruncated(0)))
            && final(c).next == old(c).next && final(c).current is None && final(c).resync && final(c).session_id
            == old(c).session_id,
        next_other(*old(c), ids@, st) ==> r == Err::<(), Fail>(Fail::Log(LogError::SessionEnd)) && final(c).next
            == old(c).next,
        r matches Err(Fail::Log(LogError::SessionEnd)) ==> final(c).current is None && final(c).pending_session_end,
        cursor_ok(*final(c), ids@, st),
        final(c).fmt == old(c).fmt,
        final(c).spans == old(c).spans,
        final(c).consumed == old(c).consumed,
        final(c).total == old(c).total,
        r is Ok ==> final(c).current is Some && final(c).next > old(c).next
            && final(c).current->0.file_pos == SEGMENT_FILE_HEADER_LEN,
        r matches Err(Fail::Log(e)) ==> read_error(e),
        r matches Err(Fail::Need(id)) ==> loaded(st, id@) is None,
        old(c).next == ids@.len() && old(c).consumed == 0 ==> r matches Err(Fail::Log(LogError::Eof)),
        old(c).next == ids@.len() && old(c).consumed != 0 ==> r matches Err(
            Fail::Log(LogError::ReadTruncated(0)),
        ),
        chain_ctx(ids@, st, k0, imgs) && on_tail(*old(c), k0, imgs) && old(c).next < k0 + imgs.len()
            && crossing_ok(*old(c), k0, imgs) ==> (r matches Err(Fail::Need(id)) && asks_tail(ids@, k0, imgs, id)) || (r is Ok && on_tail(
            *final(c),
            k0,
            imgs,
        ) && opened_at(*final(c), k0, imgs, old(c).next as int)),
{
    let ghost tids = ids@.subrange(k0, ids@.len() as int);
    proof {
        if chain_ctx(ids@, st, k0, imgs) && on_tail(*old(c), k0, imgs) && old(c).next < k0 + imgs.len() {
            let i = old(c).next - 1 - k0;
            assert(image_fits(tids, imgs, i));
            assert(image_fits(tids, imgs, i + 1));
        }
    }
    let prev_sequence = match c.current {
        Some(s) => Some(s.header.sequence),
        None => None,
    };
    c.current = None;
    if !open_next_ready_segment(c, ids, st, opened, collect, Ghost(k0), Ghost(imgs))? {
        return Err(Fail::Log(exhausted_mid_record(c)));
    }
    let cur = c.current.unwrap();
    match prev_sequence {
        Some(prev) => {
            let nx = prev.saturating_next();
            if cur.header.sequence.as_u64() != nx.as_u64() {
                let lost = cur.header.sequence.as_u64().saturating_sub(nx.as_u64());
                return Err(Fail::Log(reject_crossing(c, ids, st, lost)));
            }
        },
        None => {},
    }
    let expected: Option<u64> = if c.consumed == 0 {
        Some(0)
    } else {
        match c.total {
            Some(t) => Some(t - c.consumed),
            None => None,
        }
    };
    match expected {
        Some(e) => {
            if cur.header.remaining != e {
                return Err(Fail::Log(reject_crossing(c, ids, st, 0)));
            }
        },
        None => {},
    }
    Ok(())
}

/// Copies `want` bytes of the open segment, from its position, into
/// `out` at `at`.
fn copy_from_segment(s: OpenSegment, st: &SegmentStore, out: &mut [u8], at: usize, want: usize)
    requires
        seg_ok(s),
        want <= s.file_len - s.file_pos,
        at + want <= old(out)@.len(),
        loaded(st, s.header.segment_id@) matches Some(Some(b)) && clamp_len(b.len()) == s.file_len,
    ensures
        final(out)@.len() == old(out)@.len(),
        loaded(st, s.header.segment_id@) matches Some(Some(b)) && final(out)@ == old(out)@.subrange(
            0,
            at as int,
        ) + b.subrange(s.file_pos as int, s.file_pos + want) + old(out)@.subrange(
            at + want,
            old(out)@.len() as int,
        ),
{
    let idx = st.lookup(s.header.segment_id).unwrap();
    proof {
        lemma_find_image_bounds(st.images@, s.header.segment_id@, 0);
    }
    let bytes = st.images[idx].bytes.as_ref().unwrap();
    let ghost b = bytes@;
    let ghost o = out@;
    let olen = out.len();
    let blen = bytes.len();
    let start = s.file_pos as usize;
    let mut k: usize = 0;
    while k < want
        invariant
            0 <= k <= want,
            b == bytes@,
            olen == o.len(),
            blen == b.len(),
            start == s.file_pos,
            start + want <= b.len(),
            at + want <= o.len(),
            out@.len() == o.len(),
            out@ == o.subrange(0, at as int) + b.subrange(start as int, start + k) + o.subrange(
                at + k,
                o.len() as int,
            ),
        decreases want - k,
    {
        out[at + k] = bytes[start + k];
        proof {
            assert(out@ =~= o.subrange(0, at as int) + b.subrange(start as int, start + k + 1)
                + o.subrange(at + k + 1, o.len() as int));
        }
        k = k + 1;
    }
}

/// A read of `len` more bytes of the record that starts at
/// `tail_pos - consumed` stays inside the chain: that position is a
/// record boundary of the stream, and the bytes asked for lie within that
/// record, whose size the reader knows once it has read its header; or
/// the record boundary is the end of the stream and the read asks for
/// bytes there.
#[verifier::opaque]
spec fn read_in_chain(c: Cursor, ids: Seq<SegId>, st: &SegmentStore, k0: int, imgs: Seq<Seq<u8>>, len: int) -> bool {
    let d = chain_data(imgs);
    let f = chain_format(imgs);
    let p0 = tail_pos(c, k0, imgs) - c.consumed;
    &&& chain_ctx(ids, st, k0, imgs)
    &&& on_tail(c, k0, imgs)
    &&& records_cut_ok(f, d, chain_offsets(imgs), chain_rems(imgs), p0)
    &&& p0 < d.len() ==> p0 + header_len_of(f) <= d.len() && rec_len(f, d, p0) >= 1 && tail_pos(c, k0, imgs)
        + len <= d.len()
    &&& p0 < d.len() ==> {
        &&& tail_pos(c, k0, imgs) + len <= p0 + rec_len(f, d, p0)
        &&& c.total matches Some(t) ==> t == rec_len(f, d, p0)
    }
    &&& p0 >= d.len() ==> c.consumed == 0 && len > 0
}

/// Every image of a chain holds at least a header.
proof fn lemma_ctx_lens(ids: Seq<SegId>, st: &SegmentStore, k0: int, imgs: Seq<Seq<u8>>)
    requires
        chain_ctx(ids, st, k0, imgs),
    ensures
        forall|k: int| 0 <= k < imgs.len() ==> (#[trigger] imgs[k]).len() >= SEGMENT_FILE_HEADER_LEN,
{
    assert forall|k: int| 0 <= k < imgs.len() implies (#[trigger] imgs[k]).len() >= SEGMENT_FILE_HEADER_LEN by {
        assert(image_fits(ids.subrange(k0, ids.len() as int), imgs, k));
    }
}

/// What is left of the open segment reaches up to the next segment's
/// offset in the stream, which does not pass the stream's end.
proof fn lemma_tail_pos(c: Cursor, ids: Seq<SegId>, st: &SegmentStore, k0: int, imgs: Seq<Seq<u8>>)
    requires
        chain_ctx(ids, st, k0, imgs),
        on_tail(c, k0, imgs),
        cursor_ok(c, ids, st),
    ensures
        tail_pos(c, k0, imgs) + (c.current->0.file_len - c.current->0.file_pos) == seg_offset(
            imgs,
            c.next - k0,
        ),
        seg_offset(imgs, c.next - k0) <= chain_data(imgs).len(),
        tail_pos(c, k0, imgs) >= seg_offset(imgs, c.next - 1 - k0),
        c.next - k0 == imgs.len() ==> seg_offset(imgs, c.next - k0) == chain_data(imgs).len(),
{
    lemma_ctx_lens(ids, st, k0, imgs);
    lemma_seg_offset(imgs, c.next - 1 - k0, imgs.len() as int);
    lemma_seg_offset(imgs, c.next - k0, imgs.len() as int);
}

/// The open segment is loaded with its image, and its bytes from the
/// cursor on are the stream's bytes from the cursor's position on.
proof fn lemma_copy_in_chain(c: Cursor, ids: Seq<SegId>, st: &SegmentStore, k0: int, imgs: Seq<Seq<u8>>, want: int)
    requires
        chain_ctx(ids, st, k0, imgs),
        on_tail(c, k0, imgs),
        cursor_ok(c, ids, st),
        0 <= want <= c.current->0.file_len - c.current->0.file_pos,
    ensures
        loaded(st, c.current->0.header.segment_id@) == Some(Some(imgs[c.next - 1 - k0])),
        0 <= tail_pos(c, k0, imgs),
        tail_pos(c, k0, imgs) + want <= chain_data(imgs).len(),
        chain_data(imgs).subrange(tail_pos(c, k0, imgs), tail_pos(c, k0, imgs) + want) == imgs[c.next
            - 1 - k0].subrange(c.current->0.file_pos as int, c.current->0.file_pos + want),
{
    let s = c.current->0;
    let i = c.next - 1 - k0;
    lemma_ctx_lens(ids, st, k0, imgs);
    assert(ids[c.next - 1] == s.header.segment_id);
    assert(match loaded(st, ids[c.next - 1]@) {
        None => true,
        Some(x) => x == Some(imgs[c.next - 1 - k0]),
    });
    let a = s.file_pos - SEGMENT_FILE_HEADER_LEN;
    lemma_chain_data_at(imgs, i, a, a + want);
    lemma_seg_offset(imgs, 0, i);
    assert(image_data(imgs[i]).subrange(a, a + want) =~= imgs[i].subrange(
        s.file_pos as int,
        s.file_pos + want,
    ));
}

/// Crossing out of an exhausted segment inside a read that stays in the
/// chain: there is a next segment unless the read sits at the stream's
/// end, and its `remaining` passes the reader's check.
proof fn lemma_cross_in_chain(c: Cursor, ids: Seq<SegId>, st: &SegmentStore, k0: int, imgs: Seq<Seq<u8>>, len: int)
    requires
        read_in_chain(c, ids, st, k0, imgs, len),
        cursor_ok(c, ids, st),
        c.current->0.file_pos == c.current->0.file_len,
        len > 0,
    ensures
        tail_pos(c, k0, imgs) == seg_offset(imgs, c.next - k0),
        tail_pos(c, k0, imgs) - c.consumed < chain_data(imgs).len() ==> c.next < k0 + imgs.len(),
        c.next < k0 + imgs.len() ==> crossing_ok(c, k0, imgs),
{
    reveal(read_in_chain);
    lemma_tail_pos(c, ids, st, k0, imgs);
    let d = chain_data(imgs);
    let f = chain_format(imgs);
    let p0 = tail_pos(c, k0, imgs) - c.consumed;
    let pos = tail_pos(c, k0, imgs);
    if c.next < k0 + imgs.len() {
        let i = c.next - k0;
        assert(chain_offsets(imgs)[i] == pos);
        if p0 < d.len() {
            let l = rec_len(f, d, p0);
            assert(records_cut_ok(f, d, chain_offsets(imgs), chain_rems(imgs), p0));
            assert(chain_rems(imgs)[i] == image_fields(imgs[i]).3);
            if c.consumed == 0 {
                assert(chain_offsets(imgs)[i] == p0);
            } else {
                assert(p0 < chain_offsets(imgs)[i] < p0 + l);
            }
        } else {
            assert(chain_rems(imgs)[i] == image_fields(imgs[i]).3);
        }
    }
}

/// A read of `len` more bytes of the record that starts at
/// `tail_pos - consumed` runs past the end of the chain's stream, where
/// that record is cut short: the read takes the rest of the chain's bytes
/// on the way, and asks for no more of the record than it has (once its
/// size is known).
#[verifier::opaque]
spec fn read_out_chain(c: Cursor, ids: Seq<SegId>, st: &SegmentStore, k0: int, imgs: Seq<Seq<u8>>, len: int) -> bool {
    let d = chain_data(imgs);
    let f = chain_format(imgs);
    let p0 = tail_pos(c, k0, imgs) - c.consumed;
    &&& chain_ctx(ids, st, k0, imgs)
    &&& on_tail(c, k0, imgs)
    &&& 0 <= p0 < d.len()
    &&& records_cut_ok(f, d, chain_offsets(imgs), chain_rems(imgs), p0)
    &&& tail_pos(c, k0, imgs) <= d.len() < tail_pos(c, k0, imgs) + len
    &&& c.total matches Some(t) ==> {
        &&& p0 + header_len_of(f) <= d.len()
        &&& rec_len(f, d, p0) >= 1
        &&& t == rec_len(f, d, p0)
        &&& tail_pos(c, k0, imgs) + len <= p0 + t
    }
}

/// The listed segment file right after the chain is loaded, can be
/// opened, is in the chain's session, and does not follow the chain's
/// last file in sequence: files between them are missing.
spec fn gap_after(ids: Seq<SegId>, st: &SegmentStore, k0: int, imgs: Seq<Seq<u8>>) -> bool {
    let j = k0 + imgs.len();
    &&& 0 <= j < ids.len()
    &&& loaded(st, ids[j]@) matches Some(Some(b)) && image_opens(b, ids[j]@) && image_fields(b).1 == image_fields(
        imgs[0],
    ).1 && image_fields(b).5 != seq_after(image_fields(imgs.last()).5)
}

/// The listed segment file right after the chain is loaded, can be
/// opened, is in the chain's session and follows the chain's last file in
/// sequence, but declares in `remaining` another count than `owed`, the
/// bytes still owed of the record the chain cuts.
spec fn mismark_after(ids: Seq<SegId>, st: &SegmentStore, k0: int, imgs: Seq<Seq<u8>>, owed: int) -> bool {
    let j = k0 + imgs.len();
    &&& 0 <= j < ids.len()
    &&& loaded(st, ids[j]@) matches Some(Some(b)) && image_opens(b, ids[j]@) && image_fields(b).1 == image_fields(
        imgs[0],
    ).1 && image_fields(b).5 == seq_after(image_fields(imgs.last()).5) && image_fields(b).3 != owed
}

/// The bytes still owed, at the chain's end, of the record the cursor
/// reads, once its size is known.
spec fn owed_at(c: Cursor, k0: int, imgs: Seq<Seq<u8>>) -> Option<int> {
    match c.total {
        Some(t) => Some(tail_pos(c, k0, imgs) - c.consumed + t - chain_data(imgs).len()),
        None => None,
    }
}

/// Crossing out of the chain into the next listed file fails its checks:
/// files are missing between them, or the next file's `remaining` does not
/// match what is owed (when that is known).
spec fn bad_after(ids: Seq<SegId>, st: &SegmentStore, k0: int, imgs: Seq<Seq<u8>>, owed: Option<int>) -> bool {
    gap_after(ids, st, k0, imgs) || (owed matches Some(o) && mismark_after(ids, st, k0, imgs, o))
}

/// A read of the record at `p0` of the chain's stream fails its checks
/// when it crosses out of the chain: files are missing after the chain,
/// or the record starts in the chain with its data header, runs past the
/// chain's end, and the next file's `remaining` is not what is left of
/// the record there.
spec fn rec_bad_after(ids: Seq<SegId>, st: &SegmentStore, k0: int, imgs: Seq<Seq<u8>>, p0: int) -> bool {
    let d = chain_data(imgs);
    let f = chain_format(imgs);
    ||| gap_after(ids, st, k0, imgs)
    ||| (0 <= p0 < d.len() && p0 + header_len_of(f) <= d.len() && rec_len(f, d, p0) >= 1 && d.len() < p0
        + rec_len(f, d, p0) && mismark_after(
        ids,
        st,
        k0,
        imgs,
        p0 + rec_len(f, d, p0) - d.len(),
    ))
}

/// The number of segment files missing after the chain.
spec fn gap_lost(ids: Seq<SegId>, st: &SegmentStore, k0: int, imgs: Seq<Seq<u8>>) -> u64 {
    let b = match loaded(st, ids[k0 + imgs.len()]@) {
        Some(Some(b)) => b,
        _ => Seq::empty(),
    };
    seq_lost(image_fields(imgs.last()).5, image_fields(b).5)
}

/// Conditions under which a read runs out of the chain.
proof fn lemma_out_chain_intro(c: Cursor, ids: Seq<SegId>, st: &SegmentStore, k0: int, imgs: Seq<Seq<u8>>, len: int, p0: int)
    requires
        chain_ctx(ids, st, k0, imgs),
        on_tail(c, k0, imgs),
        p0 == tail_pos(c, k0, imgs) - c.consumed,
        0 <= p0 < chain_data(imgs).len(),
        records_cut_ok(chain_format(imgs), chain_data(imgs), chain_offsets(imgs), chain_rems(imgs), p0),
        tail_pos(c, k0, imgs) <= chain_data(imgs).len() < tail_pos(c, k0, imgs) + len,
        c.total matches Some(t) ==> {
            &&& p0 + header_len_of(chain_format(imgs)) <= chain_data(imgs).len()
            &&& rec_len(chain_format(imgs), chain_data(imgs), p0) >= 1
            &&& t == rec_len(chain_format(imgs), chain_data(imgs), p0)
            &&& tail_pos(c, k0, imgs) + len <= p0 + t
        },
    ensures
        read_out_chain(c, ids, st, k0, imgs, len),
{
    reveal(read_out_chain);
}

/// A read of the record at `p` of `d` into a buffer of `buf_len` bytes
/// needs bytes past the end of `d`: its data header does not fit in `d`,
/// or the part of its payload that fits the buffer does not.
pub open spec fn reads_past(f: Format, d: Seq<u8>, p: int, buf_len: nat) -> bool {
    let hl = header_len_of(f);
    let n = spec_decode_data_header(f, d.subrange(p, p + hl)).0;
    p + hl > d.len() || p + hl + (if n <= buf_len {
        n as int
    } else {
        buf_len as int
    }) > d.len()
}

/// What a read running out of the chain knows of its cursor.
proof fn lemma_out_chain_facts(c: Cursor, ids: Seq<SegId>, st: &SegmentStore, k0: int, imgs: Seq<Seq<u8>>, len: int)
    requires
        read_out_chain(c, ids, st, k0, imgs, len),
        cursor_ok(c, ids, st),
    ensures
        chain_ctx(ids, st, k0, imgs),
        on_tail(c, k0, imgs),
        forall|k: int| 0 <= k < imgs.len() ==> (#[trigger] imgs[k]).len() >= SEGMENT_FILE_HEADER_LEN,
        0 <= tail_pos(c, k0, imgs),
        tail_pos(c, k0, imgs) + (c.current->0.file_len - c.current->0.file_pos) <= chain_data(imgs).len(),
        tail_pos(c, k0, imgs) + (c.current->0.file_len - c.current->0.file_pos) < tail_pos(c, k0, imgs) + len,
        len > 0,
{
    reveal(read_out_chain);
    lemma_ctx_lens(ids, st, k0, imgs);
    lemma_tail_pos(c, ids, st, k0, imgs);
    lemma_seg_offset(imgs, 0, c.next - 1 - k0);
}

/// Crossing out of an exhausted segment in a read that runs out of the
/// chain: inside the chain the crossing passes the reader's checks; at its
/// end the reader is in the chain's last file.
proof fn lemma_out_cross(c: Cursor, ids: Seq<SegId>, st: &SegmentStore, k0: int, imgs: Seq<Seq<u8>>, len: int)
    requires
        read_out_chain(c, ids, st, k0, imgs, len),
        cursor_ok(c, ids, st),
        c.current->0.file_pos == c.current->0.file_len,
    ensures
        tail_pos(c, k0, imgs) == seg_offset(imgs, c.next - k0),
        c.next < k0 + imgs.len() ==> crossing_ok(c, k0, imgs),
        c.next == k0 + imgs.len() ==> c.current->0.header.sequence@ == image_fields(imgs.last()).5
            && (c.session_id matches Some(x) && x@ == image_fields(imgs[0]).1),
        c.next == k0 + imgs.len() ==> c.consumed > 0 && tail_pos(c, k0, imgs) == chain_data(imgs).len(),
{
    reveal(read_out_chain);
    lemma_tail_pos(c, ids, st, k0, imgs);
    let d = chain_data(imgs);
    let f = chain_format(imgs);
    let p0 = tail_pos(c, k0, imgs) - c.consumed;
    let pos = tail_pos(c, k0, imgs);
    if c.next < k0 + imgs.len() {
        let i = c.next - k0;
        assert(chain_offsets(imgs)[i] == pos);
        assert(chain_rems(imgs)[i] == image_fields(imgs[i]).3);
        if c.consumed == 0 {
            assert(chain_offsets(imgs)[i] == p0);
        } else if c.total is Some {
            let l = rec_len(f, d, p0);
            assert(p0 < chain_offsets(imgs)[i] < p0 + l);
        }
    }
}

/// A read running out of the chain still does after the cursor moved on
/// by `want` bytes, or into the next segment of the chain without moving.
proof fn lemma_out_chain_step(
    c1: Cursor,
    c2: Cursor,
    ids: Seq<SegId>,
    st: &SegmentStore,
    k0: int,
    imgs: Seq<Seq<u8>>,
    len: int,
    want: int,
)
    requires
        read_out_chain(c1, ids, st, k0, imgs, len),
        on_tail(c2, k0, imgs),
        0 <= want < len,
        tail_pos(c2, k0, imgs) == tail_pos(c1, k0, imgs) + want,
        tail_pos(c2, k0, imgs) <= chain_data(imgs).len(),
        c2.consumed == c1.consumed + want,
        c2.total == c1.total,
    ensures
        read_out_chain(c2, ids, st, k0, imgs, len - want),
{
    reveal(read_out_chain);
}

/// A read of the record at `p0` of the stream `d` in format `f`, into a
/// buffer of `old_len` bytes, returned the record: its payload in the
/// buffer with its length and metadata, or, when the payload does not
/// fit, as much of it as fits and `ReadOverflow`.
pub open spec fn record_read_ok(
    r: Result<ReadResult, LogError>,
    f: Format,
    d: Seq<u8>,
    p0: int,
    buf: Seq<u8>,
    old_len: nat,
) -> bool {
    let hl = header_len_of(f);
    let (n, meta) = spec_decode_data_header(f, d.subrange(p0, p0 + hl));
    let payload = d.subrange(p0 + hl, p0 + hl + n);
    if n <= old_len {
        &&& r == Ok::<ReadResult, LogError>(ReadResult { n, meta })
        &&& buf.subrange(0, n as int) == payload
    } else {
        &&& r matches Err(LogError::ReadOverflow(t)) && t == old_len
        &&& buf.subrange(0, old_len as int) == payload.subrange(0, old_len as int)
    }
}

/// `record_read_ok` for the reader's internal outcome.
spec fn chain_record_read(
    r: Result<ReadResult, Fail>,
    f: Format,
    d: Seq<u8>,
    p0: int,
    buf: Seq<u8>,
    old_len: nat,
) -> bool {
    match r {
        Ok(res) => record_read_ok(Ok(res), f, d, p0, buf, old_len),
        Err(Fail::Log(e)) => record_read_ok(Err(e), f, d, p0, buf, old_len),
        Err(Fail::Need(_)) => false,
    }
}

/// The cursor stands at a record boundary of the chain.
spec fn at_record(c: Cursor, ids: Seq<SegId>, st: &SegmentStore, k0: int, imgs: Seq<Seq<u8>>) -> bool {
    &&& chain_ctx(ids, st, k0, imgs)
    &&& on_tail(c, k0, imgs)
    &&& records_cut_ok(
        chain_format(imgs),
        chain_data(imgs),
        chain_offsets(imgs),
        chain_rems(imgs),
        tail_pos(c, k0, imgs),
    )
}

/// Where a resynchronizing reader finds the first record of a segment
/// image: after the tail of a record that its header says it continues.
pub open spec fn resync_pos(img: Seq<u8>) -> int {
    image_fields(img).3 as int
}

/// The reader has no segment open and will resynchronize at listed index
/// `k0`, past the loaded files before it that do not open (or is ending a
/// session there), and the segment files from `k0`
/// on are a chain whose first file starts a record inside its data
/// section, where the chain reads as whole records to its end; the chain
/// is in the reader's session unless the reader has none or is ending it.
spec fn log_start(c: Cursor, ids: Seq<SegId>, st: &SegmentStore, k0: int, imgs: Seq<Seq<u8>>) -> bool {
    &&& chain_ctx(ids, st, k0, imgs)
    &&& c.current is None
    &&& c.next <= k0
    &&& first_stop(ids, st, c.next as int) == k0
    &&& c.resync || c.pending_session_end
    &&& (!c.pending_session_end ==> (c.session_id matches Some(x) ==> x@ == image_fields(imgs[0]).1))
    &&& resync_pos(imgs[0]) + SEGMENT_FILE_HEADER_LEN < image_fields(imgs[0]).2
    &&& resync_pos(imgs[0]) <= image_data(imgs[0]).len()
    &&& records_cut_ok(chain_format(imgs), chain_data(imgs), chain_offsets(imgs), chain_rems(imgs), resync_pos(imgs[0]))
}

/// Where in the chain's stream the next read starts.
spec fn read_start_pos(c: Cursor, ids: Seq<SegId>, st: &SegmentStore, k0: int, imgs: Seq<Seq<u8>>) -> int {
    if log_start(c, ids, st, k0, imgs) {
        resync_pos(imgs[0])
    } else {
        tail_pos(c, k0, imgs)
    }
}

/// The first file of a chain, once loaded, opens, with its whole length.
proof fn lemma_chain_head_usable(ids: Seq<SegId>, st: &SegmentStore, k0: int, imgs: Seq<Seq<u8>>)
    requires
        chain_ctx(ids, st, k0, imgs),
        loaded(st, ids[k0]@) is Some,
    ensures
        usable_at(ids, st, k0),
        listed_image(ids, st, k0) == imgs[0],
        clamp_len(imgs[0].len()) == imgs[0].len(),
        first_stop(ids, st, k0) == k0,
{
    let tids = ids.subrange(k0, ids.len() as int);
    assert(image_fits(tids, imgs, 0));
    assert(tids[0] == ids[k0]);
    assert(match loaded(st, ids[k0]@) {
        None => true,
        Some(x) => x == Some(imgs[k0 - k0]),
    });
}

/// Conditions under which a read stays inside the chain.
proof fn lemma_in_chain_intro(c: Cursor, ids: Seq<SegId>, st: &SegmentStore, k0: int, imgs: Seq<Seq<u8>>, len: int, p0: int)
    requires
        chain_ctx(ids, st, k0, imgs),
        on_tail(c, k0, imgs),
        p0 == tail_pos(c, k0, imgs) - c.consumed,
        records_cut_ok(chain_format(imgs), chain_data(imgs), chain_offsets(imgs), chain_rems(imgs), p0),
        p0 < chain_data(imgs).len() ==> p0 + header_len_of(chain_format(imgs)) <= chain_data(imgs).len() && rec_len(
            chain_format(imgs),
            chain_data(imgs),
            p0,
        ) >= 1 && tail_pos(c, k0, imgs) + len <= chain_data(imgs).len(),
        p0 < chain_data(imgs).len() ==> tail_pos(c, k0, imgs) + len <= p0 + rec_len(
            chain_format(imgs),
            chain_data(imgs),
            p0,
        ),
        p0 < chain_data(imgs).len() ==> (c.total matches Some(t) ==> t == rec_len(
            chain_format(imgs),
            chain_data(imgs),
            p0,
        )),
        p0 >= chain_data(imgs).len() ==> c.consumed == 0 && len > 0,
    ensures
        read_in_chain(c, ids, st, k0, imgs, len),
{
    reveal(read_in_chain);
}

/// What a read inside the chain knows of its cursor.
proof fn lemma_in_chain_facts(c: Cursor, ids: Seq<SegId>, st: &SegmentStore, k0: int, imgs: Seq<Seq<u8>>, len: int)
    requires
        read_in_chain(c, ids, st, k0, imgs, len),
        cursor_ok(c, ids, st),
    ensures
        chain_ctx(ids, st, k0, imgs),
        on_tail(c, k0, imgs),
        forall|k: int| 0 <= k < imgs.len() ==> (#[trigger] imgs[k]).len() >= SEGMENT_FILE_HEADER_LEN,
        0 <= tail_pos(c, k0, imgs),
        tail_pos(c, k0, imgs) + (c.current->0.file_len - c.current->0.file_pos) <= chain_data(imgs).len(),
        tail_pos(c, k0, imgs) - c.consumed >= chain_data(imgs).len() ==> c.consumed == 0
            && c.current->0.file_len == c.current->0.file_pos && len > 0,
        tail_pos(c, k0, imgs) - c.consumed < chain_data(imgs).len() ==> tail_pos(c, k0, imgs) + len
            <= chain_data(imgs).len(),
{
    reveal(read_in_chain);
    lemma_ctx_lens(ids, st, k0, imgs);
    lemma_tail_pos(c, ids, st, k0, imgs);
    lemma_seg_offset(imgs, 0, c.next - 1 - k0);
    let d = chain_data(imgs);
    let f = chain_format(imgs);
    let p0 = tail_pos(c, k0, imgs) - c.consumed;
    if p0 < d.len() {
        assert(records_cut_ok(f, d, chain_offsets(imgs), chain_rems(imgs), p0));
    }
}

/// A read inside the chain is still inside it after the cursor moved on
/// by `want` bytes, or into the next segment without moving.
proof fn lemma_in_chain_step(
    c1: Cursor,
    c2: Cursor,
    ids: Seq<SegId>,
    st: &SegmentStore,
    k0: int,
    imgs: Seq<Seq<u8>>,
    len: int,
    want: int,
)
    requires
        read_in_chain(c1, ids, st, k0, imgs, len),
        on_tail(c2, k0, imgs),
        0 <= want <= len,
        want > 0 || len > 0,
        tail_pos(c2, k0, imgs) == tail_pos(c1, k0, imgs) + want,
        c2.consumed == c1.consumed + want,
        c2.total == c1.total,
        want > 0 ==> tail_pos(c1, k0, imgs) - c1.consumed < chain_data(imgs).len(),
        want == len ==> tail_pos(c1, k0, imgs) - c1.consumed < chain_data(imgs).len(),
    ensures
        want < len ==> read_in_chain(c2, ids, st, k0, imgs, len - want),
{
    reveal(read_in_chain);
}

/// Appending the next `want` stream bytes to a buffer that held the
/// stream from `pos0` keeps it holding the stream from `pos0`.
proof fn lemma_copy_step(d: Seq<u8>, outv: Seq<u8>, before: Seq<u8>, from: int, filled: int, want: int, pos0: int)
    requires
        0 <= from,
        0 <= filled,
        0 <= want,
        0 <= pos0,
        pos0 + filled + want <= d.len(),
        from + filled + want <= before.len(),
        before.subrange(from, from + filled) == d.subrange(pos0, pos0 + filled),
        outv == before.subrange(0, from + filled) + d.subrange(pos0 + filled, pos0 + filled + want)
            + before.subrange(from + filled + want, before.len() as int),
    ensures
        outv.subrange(from, from + filled + want) == d.subrange(pos0, pos0 + filled + want),
        outv.subrange(0, from) == before.subrange(0, from),
{
    assert(outv.subrange(from, from + filled) =~= before.subrange(from, from + filled));
    assert(outv.subrange(from + filled, from + filled + want) =~= d.subrange(
        pos0 + filled,
        pos0 + filled + want,
    ));
    assert(outv.subrange(0, from) =~= before.subrange(0, from));
    assert(outv.subrange(from, from + filled + want) =~= outv.subrange(from, from + filled) + outv.subrange(
        from + filled,
        from + filled + want,
    ));
    assert(d.subrange(pos0, pos0 + filled + want) =~= d.subrange(pos0, pos0 + filled) + d.subrange(
        pos0 + filled,
        pos0 + filled + want,
    ));
}

/// Reads exactly `len` bytes of the record into `out` at `from`, moving
/// across segment boundaries as needed; every crossing is checked.
#[verifier::rlimit(100)]
#[verifier::spinoff_prover]
fn read_exact_spanning(
    c: &mut Cursor,
    ids: &Vec<SegId>,
    st: &SegmentStore,
    opened: &mut Vec<SegmentHeader>,
    collect: bool,
    out: &mut [u8],
    from: usize,
    len: usize,
    Ghost(k0): Ghost<int>,
    Ghost(imgs): Ghost<Seq<Seq<u8>>>,
) -> (r: Result<(), Fail>)
    requires
        cursor_ok(*old(c), ids@, st),
        from + len <= old(out)@.len(),
        old(c).consumed + len <= 0x1_0000_0000_0000,
        old(c).total matches Some(t) ==> old(c).consumed + len <= t,
    ensures
        first_unloaded(ids@, st, final(c).next as int) == first_unloaded(ids@, st, old(c).next as int),
        r matches Err(Fail::Need(id)) ==> needed_first(ids@, st, old(c).next as int, id),
        !collect ==> final(opened)@ == old(opened)@,
        opens_grow(*old(c), *final(c), old(opened)@, final(opened)@, ids@, st, collect),
        read_out_chain(*old(c), ids@, st, k0, imgs, len as int) && bad_after(ids@, st, k0, imgs, owed_at(*old(c), k0, imgs)) ==> (r matches Err(
            Fail::Need(id),
        ) && asks_tail(ids@, k0, imgs, id)) || (r == Err::<(), Fail>(
            Fail::Log(LogError::ReadTruncated(gap_lost(ids@, st, k0, imgs))),
        ) && final(c).next == k0 + imgs.len() && final(c).current is None && (final(c).session_id matches Some(
                x,
            ) && x@ == image_fields(imgs[0]).1)),
        len > 0 && (old(c).current matches Some(s) && s.file_pos == s.file_len) && next_other(*old(c), ids@, st)
            ==> r == Err::<(), Fail>(Fail::Log(LogError::SessionEnd)) && final(c).next == old(c).next,
        r matches Err(Fail::Log(LogError::SessionEnd)) ==> final(c).current is None && final(c).pending_session_end,
        r is Ok && (len > 0 || past_start(*old(c))) ==> past_start(*final(c)),
        cursor_ok(*final(c), ids@, st),
        final(c).fmt == old(c).fmt,
        final(c).total == old(c).total,
        final(out)@.len() == old(out)@.len(),
        r matches Err(Fail::Log(e)) ==> read_error(e),
        r matches Err(Fail::Need(id)) ==> loaded(st, id@) is None,
        span_bytes(st, old(c).spans@).len() <= span_bytes(st, final(c).spans@).len(),
        span_bytes(st, final(c).spans@).subrange(0, span_bytes(st, old(c).spans@).len() as int)
            == span_bytes(st, old(c).spans@),
        r is Ok ==> {
            &&& final(c).consumed == old(c).consumed + len
            &&& span_bytes(st, final(c).spans@) == span_bytes(st, old(c).spans@)
                + final(out)@.subrange(from as int, from + len)
            &&& final(out)@.subrange(0, from as int) == old(out)@.subrange(0, from as int)
        },
        read_in_chain(*old(c), ids@, st, k0, imgs, len as int) ==> {
            let pos = tail_pos(*old(c), k0, imgs);
            &&& pos - old(c).consumed < chain_data(imgs).len() ==> (r matches Err(Fail::Need(id)) && asks_tail(ids@, k0, imgs, id)) || (
            r is Ok && on_tail(*final(c), k0, imgs) && tail_pos(*final(c), k0, imgs) == pos + len
                && final(out)@.subrange(from as int, from + len) == chain_data(imgs).subrange(
                pos,
                pos + len,
            ))
            &&& pos - old(c).consumed >= chain_data(imgs).len() && k0 + imgs.len() == ids@.len() ==> (r matches Err(
                Fail::Need(id),
            ) && asks_tail(ids@, k0, imgs, id)) || (r matches Err(Fail::Log(LogError::Eof)))
        },
{
    let ghost pos0 = tail_pos(*c, k0, imgs);
    let ghost p0 = pos0 - c.consumed;
    let ghost hyp = read_in_chain(*c, ids@, st, k0, imgs, len as int) && (p0 < chain_data(imgs).len() || k0
        + imgs.len() == ids@.len());
    let ghost se = len > 0 && (c.current matches Some(s) && s.file_pos == s.file_len) && next_other(*c, ids@, st);
    let ghost outc = read_out_chain(*c, ids@, st, k0, imgs, len as int) && bad_after(ids@, st, k0, imgs, owed_at(*c, k0, imgs));
    proof {
        if outc {
            lemma_out_chain_facts(*c, ids@, st, k0, imgs, len as int);
        }
    }
    proof {
        if hyp {
            lemma_in_chain_facts(*c, ids@, st, k0, imgs, len as int);
        }
    }
    let mut filled: usize = 0;
    let ghost o = out@;
    let olen = out.len();
    while filled < len
        invariant
            first_unloaded(ids@, st, c.next as int) == first_unloaded(ids@, st, old(c).next as int),
            !collect ==> opened@ == old(opened)@,
            opens_grow(*old(c), *c, old(opened)@, opened@, ids@, st, collect),
            cursor_ok(*c, ids@, st),
            c.fmt == old(c).fmt,
            o == old(out)@,
            olen == o.len(),
            0 <= filled <= len,
            from + len <= o.len(),
            out@.len() == o.len(),
            c.total == old(c).total,
            c.consumed == old(c).consumed + filled,
            old(c).consumed + len <= 0x1_0000_0000_0000,
            old(c).total matches Some(t) ==> old(c).consumed + len <= t,
            span_bytes(st, c.spans@) == span_bytes(st, old(c).spans@) + out@.subrange(
                from as int,
                from + filled,
            ),
            out@.subrange(0, from as int) == o.subrange(0, from as int),
            pos0 == tail_pos(*old(c), k0, imgs),
            p0 == pos0 - old(c).consumed,
            hyp == (read_in_chain(*old(c), ids@, st, k0, imgs, len as int) && (p0 < chain_data(imgs).len() || k0
                + imgs.len() == ids@.len())),
            hyp ==> on_tail(*c, k0, imgs),
            hyp ==> tail_pos(*c, k0, imgs) == pos0 + filled,
            hyp ==> 0 <= pos0,
            hyp && filled < len ==> read_in_chain(*c, ids@, st, k0, imgs, (len - filled) as int),
            hyp ==> out@.subrange(from as int, from + filled) == chain_data(imgs).subrange(
                pos0,
                pos0 + filled,
            ),
            hyp && p0 >= chain_data(imgs).len() ==> filled == 0 && len > 0,
            filled == len && (len > 0 || past_start(*old(c))) ==> past_start(*c),
            se == (len > 0 && (old(c).current matches Some(s) && s.file_pos == s.file_len) && next_other(
                *old(c),
                ids@,
                st,
            )),
            se ==> *c == *old(c) && filled == 0,
            outc == (read_out_chain(*old(c), ids@, st, k0, imgs, len as int) && bad_after(ids@, st, k0, imgs, owed_at(*old(c), k0, imgs))),
            outc ==> filled < len && read_out_chain(*c, ids@, st, k0, imgs, (len - filled) as int),
            outc ==> owed_at(*c, k0, imgs) == owed_at(*old(c), k0, imgs),
        decreases len - filled, (ids@.len() - c.next) * 2 + (if c.current is None { 1int } else { 0int }),
    {
        proof {
            if outc {
                lemma_out_chain_facts(*c, ids@, st, k0, imgs, (len - filled) as int);
            }
        }
        if c.current.is_none() {
            if !open_next_ready_segment(c, ids, st, opened, collect, Ghost(k0), Ghost(imgs))? {
                return Err(Fail::Log(exhausted_mid_record(c)));
            }
        }
        let cur = c.current.unwrap();
        let avail = (cur.file_len - cur.file_pos) as usize;
        if avail == 0 {
            let ghost before = *c;
            proof {
                if hyp {
                    lemma_cross_in_chain(*c, ids@, st, k0, imgs, (len - filled) as int);
                    lemma_in_chain_facts(*c, ids@, st, k0, imgs, (len - filled) as int);
                }
                if outc {
                    lemma_out_cross(*c, ids@, st, k0, imgs, (len - filled) as int);
                    lemma_out_chain_facts(*c, ids@, st, k0, imgs, (len - filled) as int);
                    if c.next == k0 + imgs.len() {
                        assert(next_in_session(*c, ids@, st));
                        assert(next_image(*c, ids@, st) == match loaded(st, ids@[k0 + imgs.len()]@) {
                            Some(Some(b)) => b,
                            _ => Seq::<u8>::empty(),
                        });
                    }
                }
            }
            cross_to_next_in_record(c, ids, st, opened, collect, Ghost(k0), Ghost(imgs))?;
            proof {
                if hyp {
                    lemma_seg_offset(imgs, before.next - 1 - k0, imgs.len() as int);
                    assert(tail_pos(*c, k0, imgs) == tail_pos(before, k0, imgs));
                    lemma_in_chain_step(before, *c, ids@, st, k0, imgs, (len - filled) as int, 0);
                }
                if outc {
                    lemma_seg_offset(imgs, before.next - 1 - k0, imgs.len() as int);
                    assert(tail_pos(*c, k0, imgs) == tail_pos(before, k0, imgs));
                    lemma_out_chain_step(before, *c, ids@, st, k0, imgs, (len - filled) as int, 0);
                }
            }
            continue;
        }
        let want = if len - filled < avail {
            len - filled
        } else {
            avail
        };
        let ghost before_out = out@;
        let ghost before_spans = c.spans@;
        let ghost before_c = *c;
        proof {
            if hyp {
                lemma_in_chain_facts(*c, ids@, st, k0, imgs, (len - filled) as int);
                lemma_copy_in_chain(*c, ids@, st, k0, imgs, want as int);
            }
            if outc {
                lemma_out_chain_facts(*c, ids@, st, k0, imgs, (len - filled) as int);
            }
        }
        copy_from_segment(cur, st, out, from + filled, want);
        c.current = Some(
            OpenSegment {
                header: cur.header,
                file_pos: cur.file_pos + want as u32,
                file_len: cur.file_len,
            },
        );
        proof {
            let id = cur.header.segment_id@;
            let b = match loaded(st, id) {
                Some(Some(b)) => b,
                _ => Seq::empty(),
            };
            let sp = (id, cur.file_pos as int, cur.file_pos + want);
            let ns = before_spans.push(sp);
            assert(ns.drop_last() =~= before_spans);
            assert(span_bytes(st, ns) == span_bytes(st, before_spans) + b.subrange(
                cur.file_pos as int,
                cur.file_pos + want,
            ));
            assert(out@.subrange(from as int, from + filled + want) =~= before_out.subrange(
                from as int,
                from + filled,
            ) + b.subrange(cur.file_pos as int, cur.file_pos + want));
            assert(out@.subrange(0, from as int) =~= before_out.subrange(0, from as int));
            c.spans = Ghost(ns);
        }
        filled = filled + want;
        c.consumed = c.consumed + want as u64;
        proof {
            if hyp {
                lemma_copy_step(
                    chain_data(imgs),
                    out@,
                    before_out,
                    from as int,
                    (filled - want) as int,
                    want as int,
                    pos0,
                );
                lemma_in_chain_step(before_c, *c, ids@, st, k0, imgs, (len - filled + want) as int, want as int);
            }
            if outc {
                lemma_out_chain_step(before_c, *c, ids@, st, k0, imgs, (len - filled + want) as int, want as int);
            }
        }
    }
    Ok(())
}

/// Skips exactly `count` bytes of the record, moving across segment
/// boundaries as needed; crossings are checked as when reading.
fn skip_spanning(
    c: &mut Cursor,
    ids: &Vec<SegId>,
    st: &SegmentStore,
    opened: &mut Vec<SegmentHeader>,
    collect: bool,
    count: u64,
    Ghost(k0): Ghost<int>,
    Ghost(imgs): Ghost<Seq<Seq<u8>>>,
) -> (r: Result<(), Fail>)
    requires
        cursor_ok(*old(c), ids@, st),
        old(c).consumed + count <= 0x1_0000_0000_0000,
        old(c).total matches Some(t) ==> old(c).consumed + count <= t,
    ensures
        first_unloaded(ids@, st, final(c).next as int) == first_unloaded(ids@, st, old(c).next as int),
        r matches Err(Fail::Need(id)) ==> needed_first(ids@, st, old(c).next as int, id),
        !collect ==> final(opened)@ == old(opened)@,
        opens_grow(*old(c), *final(c), old(opened)@, final(opened)@, ids@, st, collect),
        r matches Err(Fail::Log(LogError::SessionEnd)) ==> final(c).current is None && final(c).pending_session_end,
        r is Ok && (count > 0 || past_start(*old(c))) ==> past_start(*final(c)),
        cursor_ok(*final(c), ids@, st),
        final(c).fmt == old(c).fmt,
        final(c).total == old(c).total,
        r matches Err(Fail::Log(e)) ==> read_error(e),
        r matches Err(Fail::Need(id)) ==> loaded(st, id@) is None,
        span_bytes(st, old(c).spans@).len() <= span_bytes(st, final(c).spans@).len(),
        span_bytes(st, final(c).spans@).subrange(0, span_bytes(st, old(c).spans@).len() as int)
            == span_bytes(st, old(c).spans@),
        r is Ok ==> final(c).consumed == old(c).consumed + count && span_bytes(st, final(c).spans@).len()
            == span_bytes(st, old(c).spans@).len() + count && span_bytes(st, old(c).spans@)
            == span_bytes(st, final(c).spans@).subrange(0, span_bytes(st, old(c).spans@).len() as int),
        read_in_chain(*old(c), ids@, st, k0, imgs, count as int) && tail_pos(*old(c), k0, imgs)
            - old(c).consumed < chain_data(imgs).len() ==> (r matches Err(Fail::Need(id)) && asks_tail(ids@, k0, imgs, id)) || (r is Ok
            && on_tail(*final(c), k0, imgs) && tail_pos(*final(c), k0, imgs) == tail_pos(*old(c), k0, imgs)
            + count),
{
    let ghost hyp = read_in_chain(*c, ids@, st, k0, imgs, count as int) && tail_pos(*c, k0, imgs)
        - c.consumed < chain_data(imgs).len();
    let ghost pos0 = tail_pos(*c, k0, imgs);
    proof {
        if hyp {
            lemma_in_chain_facts(*c, ids@, st, k0, imgs, count as int);
        }
    }
    let mut left = count;
    while left > 0
        invariant
            first_unloaded(ids@, st, c.next as int) == first_unloaded(ids@, st, old(c).next as int),
            !collect ==> opened@ == old(opened)@,
            opens_grow(*old(c), *c, old(opened)@, opened@, ids@, st, collect),
            cursor_ok(*c, ids@, st),
            c.fmt == old(c).fmt,
            left <= count,
            c.total == old(c).total,
            c.consumed == old(c).consumed + (count - left),
            hyp == (read_in_chain(*old(c), ids@, st, k0, imgs, count as int) && tail_pos(*old(c), k0, imgs)
                - old(c).consumed < chain_data(imgs).len()),
            pos0 == tail_pos(*old(c), k0, imgs),
            hyp ==> on_tail(*c, k0, imgs),
            hyp ==> tail_pos(*c, k0, imgs) == pos0 + (count - left),
            hyp ==> tail_pos(*c, k0, imgs) - c.consumed < chain_data(imgs).len(),
            hyp && left > 0 ==> read_in_chain(*c, ids@, st, k0, imgs, left as int),
            old(c).consumed + count <= 0x1_0000_0000_0000,
            old(c).total matches Some(t) ==> old(c).consumed + count <= t,
            left == 0 && (count > 0 || past_start(*old(c))) ==> past_start(*c),
            span_bytes(st, c.spans@).len() == span_bytes(st, old(c).spans@).len() + (count - left),
            span_bytes(st, old(c).spans@) == span_bytes(st, c.spans@).subrange(
                0,
                span_bytes(st, old(c).spans@).len() as int,
            ),
        decreases left, (ids@.len() - c.next) * 2 + (if c.current is None { 1int } else { 0int }),
    {
        if c.current.is_none() {
            if !open_next_ready_segment(c, ids, st, opened, collect, Ghost(k0), Ghost(imgs))? {
                return Err(Fail::Log(exhausted_mid_record(c)));
            }
        }
        let cur = c.current.unwrap();
        let avail = (cur.file_len - cur.file_pos) as u64;
        if avail == 0 {
            let ghost before = *c;
            proof {
                if hyp {
                    lemma_cross_in_chain(*c, ids@, st, k0, imgs, left as int);
                    lemma_in_chain_facts(*c, ids@, st, k0, imgs, left as int);
                }
            }
            cross_to_next_in_record(c, ids, st, opened, collect, Ghost(k0), Ghost(imgs))?;
            proof {
                if hyp {
                    lemma_seg_offset(imgs, before.next - 1 - k0, imgs.len() as int);
                    assert(tail_pos(*c, k0, imgs) == tail_pos(before, k0, imgs));
                    lemma_in_chain_step(before, *c, ids@, st, k0, imgs, left as int, 0);
                }
            }
            continue;
        }
        let want = if left < avail {
            left
        } else {
            avail
        };
        let ghost before_c = *c;
        proof {
            if hyp {
                lemma_in_chain_facts(*c, ids@, st, k0, imgs, left as int);
            }
        }
        c.current = Some(
            OpenSegment {
                header: cur.header,
                file_pos: cur.file_pos + want as u32,
                file_len: cur.file_len,
            },
        );
        proof {
            let id = cur.header.segment_id@;
            let b = match loaded(st, id) {
                Some(Some(b)) => b,
                _ => Seq::empty(),
            };
            let before_spans = c.spans@;
            let sp = (id, cur.file_pos as int, cur.file_pos + want);
            let ns = before_spans.push(sp);
            assert(ns.drop_last() =~= before_spans);
            assert(span_bytes(st, ns) == span_bytes(st, before_spans) + b.subrange(
                cur.file_pos as int,
                cur.file_pos + want,
            ));
            assert(b.len() >= cur.file_len);
            assert(span_bytes(st, ns).subrange(0, span_bytes(st, old(c).spans@).len() as int)
                =~= span_bytes(st, before_spans).subrange(
                0,
                span_bytes(st, old(c).spans@).len() as int,
            ));
            c.spans = Ghost(ns);
        }
        left = left - want;
        c.consumed = c.consumed + want;
        proof {
            if hyp {
                lemma_in_chain_step(before_c, *c, ids@, st, k0, imgs, (left + want) as int, want as int);
            }
        }
    }
    Ok(())
}


/// Payload length and metadata carried by a data header of `format`.
pub open spec fn spec_decode_data_header(f: Format, h: Seq<u8>) -> (u32, Meta) {
    match f {
        Format::Fixed(n) => (n, Meta::Fixed),
        Format::VariableSimple => (vstd::bytes::spec_u32_from_le_bytes(h.subrange(0, 4)), Meta::VariableSimple),
        Format::VariableTsRc => (
            vstd::bytes::spec_u32_from_le_bytes(h.subrange(0, 4)),
            Meta::VariableTsRc(
                vstd::bytes::spec_u64_from_le_bytes(h.subrange(4, 12)),
                vstd::bytes::spec_u64_from_le_bytes(h.subrange(12, 20)),
            ),
        ),
    }
}

/// Number of data header bytes of `format`.
pub open spec fn header_len_of(f: Format) -> nat {
    match f {
        Format::Fixed(_) => 0,
        Format::VariableSimple => 4,
        Format::VariableTsRc => 20,
    }
}

/// Reads the data header of the next record and notes the record's total
/// size.
fn read_data_header(
    c: &mut Cursor,
    ids: &Vec<SegId>,
    st: &SegmentStore,
    opened: &mut Vec<SegmentHeader>,
    collect: bool,
    format: Format,
    Ghost(k0): Ghost<int>,
    Ghost(imgs): Ghost<Seq<Seq<u8>>>,
) -> (r: Result<(u32, Meta), Fail>)
    requires
        cursor_ok(*old(c), ids@, st),
        old(c).consumed == 0,
        old(c).total is None,
    ensures
        first_unloaded(ids@, st, final(c).next as int) == first_unloaded(ids@, st, old(c).next as int),
        r matches Err(Fail::Need(id)) ==> needed_first(ids@, st, old(c).next as int, id),
        !collect ==> final(opened)@ == old(opened)@,
        opens_grow(*old(c), *final(c), old(opened)@, final(opened)@, ids@, st, collect),
        format is Fixed ==> r is Ok && final(c).current == old(c).current && final(c).next == old(c).next
            && final(c).session_id == old(c).session_id,
        !(format is Fixed) && (old(c).current matches Some(s) && s.file_pos == s.file_len) && next_other(
            *old(c),
            ids@,
            st,
        ) ==> r == Err::<(u32, Meta), Fail>(Fail::Log(LogError::SessionEnd)) && final(c).next == old(c).next,
        r is Ok && (header_len_of(format) > 0 || past_start(*old(c))) ==> past_start(*final(c)),
        r matches Err(Fail::Log(LogError::SessionEnd)) ==> final(c).current is None && final(c).pending_session_end,
        cursor_ok(*final(c), ids@, st),
        final(c).fmt == old(c).fmt,
        r matches Err(Fail::Log(e)) ==> read_error(e),
        r matches Err(Fail::Need(id)) ==> loaded(st, id@) is None,
        r matches Ok((n, meta)) ==> {
            let h = span_bytes(st, final(c).spans@).subrange(
                span_bytes(st, old(c).spans@).len() as int,
                span_bytes(st, final(c).spans@).len() as int,
            );
            &&& span_bytes(st, final(c).spans@) == span_bytes(st, old(c).spans@) + h
            &&& h.len() == header_len_of(format)
            &&& spec_decode_data_header(format, h) == (n, meta)
            &&& final(c).consumed == header_len_of(format)
            &&& final(c).total == Some((header_len_of(format) + n) as u64)
        },
        at_record(*old(c), ids@, st, k0, imgs) && format == chain_format(imgs) ==> {
            let p0 = tail_pos(*old(c), k0, imgs);
            let d = chain_data(imgs);
            &&& p0 < d.len() && p0 + header_len_of(format) <= d.len() && rec_len(format, d, p0) >= 1 ==> (r matches Err(Fail::Need(id)) && asks_tail(ids@, k0, imgs, id)) || (r matches Ok((n, meta)) && (n, meta)
                == spec_decode_data_header(format, d.subrange(p0, p0 + header_len_of(format))) && on_tail(
                *final(c),
                k0,
                imgs,
            ) && tail_pos(*final(c), k0, imgs) == p0 + header_len_of(format))
            &&& p0 >= d.len() && !(format is Fixed) && k0 + imgs.len() == ids@.len() ==> (r matches Err(Fail::Need(id)) && asks_tail(ids@, k0, imgs, id)) || (r matches Err(
                Fail::Log(LogError::Eof),
            ))
            &&& p0 >= d.len() && format is Fixed ==> r is Ok && on_tail(*final(c), k0, imgs) && tail_pos(
                *final(c),
                k0,
                imgs,
            ) == p0
            &&& p0 < d.len() && p0 + header_len_of(format) > d.len() && gap_after(ids@, st, k0, imgs) ==> (r matches Err(
                Fail::Need(id),
            ) && asks_tail(ids@, k0, imgs, id)) || (r == Err::<(u32, Meta), Fail>(
                Fail::Log(LogError::ReadTruncated(gap_lost(ids@, st, k0, imgs))),
            ) && final(c).next == k0 + imgs.len() && final(c).current is None && (final(c).session_id matches Some(
                x,
            ) && x@ == image_fields(imgs[0]).1))
        },
{
    let ghost s0 = span_bytes(st, c.spans@);
    let ghost hyp = at_record(*c, ids@, st, k0, imgs) && format == chain_format(imgs) && (tail_pos(*c, k0, imgs)
        < chain_data(imgs).len() ==> tail_pos(*c, k0, imgs) + header_len_of(format) <= chain_data(imgs).len()
        && rec_len(format, chain_data(imgs), tail_pos(*c, k0, imgs)) >= 1);
    let ghost cut = at_record(*c, ids@, st, k0, imgs) && format == chain_format(imgs) && tail_pos(*c, k0, imgs)
        < chain_data(imgs).len() && tail_pos(*c, k0, imgs) + header_len_of(format) > chain_data(imgs).len()
        && gap_after(ids@, st, k0, imgs);
    proof {
        if hyp {
            let d = chain_data(imgs);
            let p0 = tail_pos(*c, k0, imgs);
            if p0 < d.len() {
                assert(header_len_of(format) <= rec_len(chain_format(imgs), d, p0));
            }
            if !(format is Fixed) {
                lemma_in_chain_intro(*c, ids@, st, k0, imgs, header_len_of(format) as int, p0);
            }
        }
        if cut {
            let p0 = tail_pos(*c, k0, imgs);
            lemma_tail_pos(*c, ids@, st, k0, imgs);
            lemma_ctx_lens(ids@, st, k0, imgs);
            lemma_seg_offset(imgs, 0, c.next - 1 - k0);
            lemma_out_chain_intro(*c, ids@, st, k0, imgs, header_len_of(format) as int, p0);
        }
    }
    let (payload_len, meta, header_size): (u32, Meta, u64) = match format {
        Format::Fixed(n) => {
            proof {
                assert(span_bytes(st, c.spans@).subrange(s0.len() as int, s0.len() as int) =~= Seq::<u8>::empty());
                assert(s0 + Seq::<u8>::empty() =~= s0);
            }
            (n, Meta::Fixed, 0u64)
        },
        Format::VariableSimple => {
            let mut b = [0u8; 4];
            read_exact_spanning(c, ids, st, opened, collect, &mut b, 0, 4, Ghost(k0), Ghost(imgs))?;
            proof {
                let s1 = span_bytes(st, c.spans@);
                assert(b@.subrange(0, 4) =~= b@);
                assert(s1.subrange(s0.len() as int, s1.len() as int) =~= b@);
            }
            let n = vstd::bytes::u32_from_le_bytes(b.as_slice());
            (n, Meta::VariableSimple, 4u64)
        },
        Format::VariableTsRc => {
            let mut b = [0u8; 20];
            read_exact_spanning(c, ids, st, opened, collect, &mut b, 0, 20, Ghost(k0), Ghost(imgs))?;
            let n = vstd::bytes::u32_from_le_bytes(&b[0..4]);
            let ts = vstd::bytes::u64_from_le_bytes(&b[4..12]);
            let rc = vstd::bytes::u64_from_le_bytes(&b[12..20]);
            proof {
                let s1 = span_bytes(st, c.spans@);
                assert(b@.subrange(0, 20) =~= b@);
                assert(s1.subrange(s0.len() as int, s1.len() as int) =~= b@);
            }
            (n, Meta::VariableTsRc(ts, rc), 20u64)
        },
    };
    c.total = Some(header_size + payload_len as u64);
    Ok((payload_len, meta))
}

/// After opening the first segment of a (re)synchronization, skips the
/// leading `remaining` bytes, which belong to a record that started in an
/// earlier file, and returns the position of the first fresh record;
/// `None` when no record starts in this segment.
fn locate_first_record_offset(c: &mut Cursor, ids: &Vec<SegId>, st: &SegmentStore) -> (r: Option<u32>)
    requires
        cursor_ok(*old(c), ids@, st),
        old(c).current is Some,
    ensures
        final(c).segments_opened == old(c).segments_opened,
        first_unloaded(ids@, st, final(c).next as int) == first_unloaded(ids@, st, old(c).next as int),
        cursor_ok(*final(c), ids@, st),
        final(c).fmt == old(c).fmt,
        final(c).current is Some,
        final(c).next == old(c).next,
        final(c).spans == old(c).spans,
        final(c).consumed == old(c).consumed,
        final(c).total == old(c).total,
        final(c).resync == old(c).resync,
        final(c).session_id == old(c).session_id,
        final(c).pending_session_end == old(c).pending_session_end,
        final(c).current->0.header == old(c).current->0.header,
        final(c).current->0.file_len == old(c).current->0.file_len,
        ({
            let s = old(c).current->0;
            let data_len = if s.header.max_size >= SEGMENT_FILE_HEADER_LEN {
                s.header.max_size - SEGMENT_FILE_HEADER_LEN
            } else {
                0
            };
            if s.header.remaining >= data_len {
                r is None && final(c).current->0.file_pos == s.file_len
            } else {
                let skip = if s.header.remaining < bytes_left(s) {
                    s.header.remaining as int
                } else {
                    bytes_left(s)
                };
                r == Some((s.file_pos + skip) as u32) && final(c).current->0.file_pos == s.file_pos + skip
            }
        }),
{
    let cur = c.current.unwrap();
    let data_len = cur.header.data_capacity() as u64;
    let remaining = cur.header.remaining;
    let available = (cur.file_len - cur.file_pos) as u64;
    if remaining >= data_len {
        c.current = Some(OpenSegment { header: cur.header, file_pos: cur.file_len, file_len: cur.file_len });
        return None;
    }
    let skip = if remaining < available {
        remaining
    } else {
        available
    };
    let pos = cur.file_pos + skip as u32;
    c.current = Some(OpenSegment { header: cur.header, file_pos: pos, file_len: cur.file_len });
    Some(pos)
}


/// What one read produced, in terms of the record bytes `rec` it
/// consumed (data header then payload) and the format `f` of the segment
/// the record started in.
pub open spec fn read_outcome_ok(
    r: Result<ReadResult, LogError>,
    f: Format,
    rec: Seq<u8>,
    buf: Seq<u8>,
    old_len: nat,
) -> bool {
    let h = header_len_of(f);
    match r {
        Ok(res) => {
            &&& rec.len() == h + res.n
            &&& spec_decode_data_header(f, rec.subrange(0, h as int)) == (res.n, res.meta)
            &&& res.n <= old_len
            &&& buf.subrange(0, res.n as int) == rec.subrange(h as int, rec.len() as int)
        },
        Err(LogError::ReadOverflow(take)) => {
            &&& rec.len() >= h + take
            &&& spec_decode_data_header(f, rec.subrange(0, h as int)).0 > take
            &&& take == old_len
            &&& buf.subrange(0, take as int) == rec.subrange(h as int, h + take)
        },
        Err(LogError::Eof) => true,
        Err(LogError::SessionEnd) => true,
        Err(LogError::ReadTruncated(_)) => true,
        Err(_) => false,
    }
}

/// Starts a read: ends a finished session, resynchronizes if needed, and
/// positions the reader at the start of a record.
fn position_at_record(
    c: &mut Cursor,
    ids: &Vec<SegId>,
    st: &SegmentStore,
    opened: &mut Vec<SegmentHeader>,
    collect: bool,
    Ghost(k0): Ghost<int>,
    Ghost(imgs): Ghost<Seq<Seq<u8>>>,
) -> (r: Result<(), Fail>)
    requires
        cursor_ok(*old(c), ids@, st),
    ensures
        old(c).current is None && first_stop(ids@, st, old(c).next as int) == ids@.len() ==> r matches Err(
            Fail::Log(LogError::Eof),
        ),
        first_unloaded(ids@, st, final(c).next as int) == first_unloaded(ids@, st, old(c).next as int),
        r matches Err(Fail::Need(id)) ==> needed_first(ids@, st, old(c).next as int, id),
        !collect ==> final(opened)@ == old(opened)@,
        opens_grow(*old(c), *final(c), old(opened)@, final(opened)@, ids@, st, collect),
        old(c).current is Some && !old(c).resync && !old(c).pending_session_end ==> r is Ok && final(c).current
            == old(c).current && final(c).next == old(c).next && final(c).session_id == old(c).session_id,
        r matches Err(Fail::Log(LogError::SessionEnd)) ==> final(c).current is None && final(c).pending_session_end,
        cursor_ok(*final(c), ids@, st),
        r matches Err(Fail::Log(e)) ==> read_error(e),
        r matches Err(Fail::Need(id)) ==> loaded(st, id@) is None,
        r is Ok ==> {
            &&& final(c).current is Some
            &&& final(c).consumed == 0
            &&& final(c).total is None
            &&& final(c).spans@ == Seq::<(u64, int, int)>::empty()
        },
        at_record(*old(c), ids@, st, k0, imgs) ==> r is Ok && at_record(*final(c), ids@, st, k0, imgs)
            && tail_pos(*final(c), k0, imgs) == tail_pos(*old(c), k0, imgs),
        log_start(*old(c), ids@, st, k0, imgs) ==> (r matches Err(Fail::Need(id)) && asks_tail(ids@, k0, imgs, id)) || (r is Ok && at_record(
            *final(c),
            ids@,
            st,
            k0,
            imgs,
        ) && tail_pos(*final(c), k0, imgs) == resync_pos(imgs[0])),
{
    let ghost ends = c.current is None && first_stop(ids@, st, c.next as int) == ids@.len();
    let ghost init = log_start(*c, ids@, st, k0, imgs);
    proof {
        if init {
            assert(image_fits(ids@.subrange(k0, ids@.len() as int), imgs, 0));
        }
    }
    if c.pending_session_end {
        c.pending_session_end = false;
        c.session_id = None;
        c.resync = true;
    }
    c.consumed = 0;
    c.total = None;
    c.spans = Ghost(Seq::empty());
    if c.resync {
        loop
            invariant_except_break
                ends ==> c.current is None && c.next == old(c).next,
                init ==> c.current is None && c.next <= k0 && first_stop(ids@, st, c.next as int) == k0
                    && (c.session_id matches Some(x) ==> x@ == image_fields(
                    imgs[0],
                ).1) && !c.pending_session_end,
            invariant
                first_unloaded(ids@, st, c.next as int) == first_unloaded(ids@, st, old(c).next as int),
            !collect ==> opened@ == old(opened)@,
            opens_grow(*old(c), *c, old(opened)@, opened@, ids@, st, collect),
                cursor_ok(*c, ids@, st),
                c.consumed == 0,
                c.total is None,
                c.spans@ == Seq::<(u64, int, int)>::empty(),
                ends == (old(c).current is None && first_stop(ids@, st, old(c).next as int) == ids@.len()),
                init == log_start(*old(c), ids@, st, k0, imgs),
                !at_record(*old(c), ids@, st, k0, imgs),
                !(old(c).current is Some && !old(c).resync && !old(c).pending_session_end),
            ensures
                !ends,
                cursor_ok(*c, ids@, st),
                c.consumed == 0,
                c.total is None,
                c.spans@ == Seq::<(u64, int, int)>::empty(),
                c.current is Some,
                init ==> at_record(*c, ids@, st, k0, imgs) && tail_pos(*c, k0, imgs) == resync_pos(imgs[0]),
            decreases (ids@.len() - c.next) * 2 + (if c.current is Some { 1int } else { 0int }),
        {
            if c.current.is_none() {
                proof {
                    if init {
                        lemma_ctx_lens(ids@, st, k0, imgs);
                        if loaded(st, ids@[k0]@) is Some {
                            lemma_chain_head_usable(ids@, st, k0, imgs);
                        } else {
                            assert(k0 <= k0 < k0 + imgs.len() && ids@[k0] == ids@[k0]);
                            assert(asks_tail(ids@, k0, imgs, ids@[k0]));
                        }
                    }
                }
                let opened_one = match open_next_ready_segment(c, ids, st, opened, collect, Ghost(k0), Ghost(imgs)) {
                    Ok(b) => b,
                    Err(e) => {
                        return Err(e);
                    },
                };
                if !opened_one {
                    return Err(Fail::Log(LogError::Eof));
                }
            }
            proof {
                if init {
                    lemma_ctx_lens(ids@, st, k0, imgs);
                    lemma_seg_offset(imgs, 0, 0);
                }
            }
            let ghost opened_c = *c;
            match locate_first_record_offset(c, ids, st) {
                Some(offset) => {
                    let cur = c.current.unwrap();
                    c.current = Some(OpenSegment { header: cur.header, file_pos: offset, file_len: cur.file_len });
                    c.resync = false;
                    proof {
                        if init {
                            assert(opened_at(opened_c, k0, imgs, k0));
                            assert(offset == SEGMENT_FILE_HEADER_LEN + resync_pos(imgs[0]));
                            assert(on_tail(*c, k0, imgs));
                            assert(tail_pos(*c, k0, imgs) == resync_pos(imgs[0]));
                        }
                    }
                    break;
                },
                None => {
                    c.current = None;
                },
            }
        }
    } else if c.current.is_none() {
        let opened_one = match open_next_ready_segment(c, ids, st, opened, collect, Ghost(k0), Ghost(imgs)) {
            Ok(b) => b,
            Err(e) => {
                return Err(e);
            },
        };
        if !opened_one {
            return Err(Fail::Log(LogError::Eof));
        }
    }
    Ok(())
}

/// Reads the record the reader is positioned at: its data header, then
/// as much of its payload as fits in `buf`, skipping the rest.
#[verifier::rlimit(60)]
fn read_record(
    c: &mut Cursor,
    ids: &Vec<SegId>,
    st: &SegmentStore,
    opened: &mut Vec<SegmentHeader>,
    collect: bool,
    buf: &mut [u8],
    Ghost(k0): Ghost<int>,
    Ghost(imgs): Ghost<Seq<Seq<u8>>>,
) -> (r: Result<ReadResult, Fail>)
    requires
        cursor_ok(*old(c), ids@, st),
        old(c).current is Some,
        old(c).consumed == 0,
        old(c).total is None,
        old(c).spans@ == Seq::<(u64, int, int)>::empty(),
    ensures
        first_unloaded(ids@, st, final(c).next as int) == first_unloaded(ids@, st, old(c).next as int),
        r matches Err(Fail::Need(id)) ==> needed_first(ids@, st, old(c).next as int, id),
        !collect ==> final(opened)@ == old(opened)@,
        opens_grow(*old(c), *final(c), old(opened)@, final(opened)@, ids@, st, collect),
        (old(c).current matches Some(s) && s.file_pos == s.file_len && s.header.format != Format::Fixed(0) && (!(
        s.header.format is Fixed) || old(buf)@.len() > 0)) && next_other(*old(c), ids@, st) ==> r
            == Err::<ReadResult, Fail>(Fail::Log(LogError::SessionEnd)) && final(c).next == old(c).next,
        r matches Err(Fail::Log(LogError::SessionEnd)) ==> final(c).current is None && final(c).pending_session_end,
        cursor_ok(*final(c), ids@, st),
        final(buf)@.len() == old(buf)@.len(),
        match r {
            Ok(res) => read_outcome_ok(
                Ok(res),
                final(c).fmt@,
                span_bytes(st, final(c).spans@),
                final(buf)@,
                old(buf)@.len(),
            ),
            Err(Fail::Log(e)) => read_outcome_ok(
                Err(e),
                final(c).fmt@,
                span_bytes(st, final(c).spans@),
                final(buf)@,
                old(buf)@.len(),
            ),
            Err(Fail::Need(id)) => loaded(st, id@) is None,
        },
        at_record(*old(c), ids@, st, k0, imgs) ==> {
            let p0 = tail_pos(*old(c), k0, imgs);
            let d = chain_data(imgs);
            let f = chain_format(imgs);
            &&& whole_at(f, d, p0) ==> (r matches Err(Fail::Need(id)) && asks_tail(ids@, k0, imgs, id)) || (chain_record_read(
                r,
                f,
                d,
                p0,
                final(buf)@,
                old(buf)@.len(),
            ) && on_tail(*final(c), k0, imgs) && tail_pos(*final(c), k0, imgs) == p0 + rec_len(f, d, p0) && past_start(
                *final(c),
            ))
            &&& p0 >= d.len() && (!(f is Fixed) || old(buf)@.len() > 0) && k0 + imgs.len() == ids@.len() ==> (r matches Err(Fail::Need(id)) && asks_tail(ids@, k0, imgs, id))
                || (r matches Err(Fail::Log(LogError::Eof)))
            &&& p0 < d.len() && !whole_at(f, d, p0) && rec_bad_after(ids@, st, k0, imgs, p0) && reads_past(
                f,
                d,
                p0,
                old(buf)@.len(),
            ) ==> (r matches Err(Fail::Need(id)) && asks_tail(ids@, k0, imgs, id)) || (r == Err::<ReadResult, Fail>(
                Fail::Log(LogError::ReadTruncated(gap_lost(ids@, st, k0, imgs))),
            ) && final(c).next == k0 + imgs.len() && final(c).current is None && (final(c).session_id matches Some(
                x,
            ) && x@ == image_fields(imgs[0]).1))
        },
{
    let ghost hyp = at_record(*c, ids@, st, k0, imgs) && (tail_pos(*c, k0, imgs) < chain_data(imgs).len() ==> whole_at(chain_format(imgs), chain_data(imgs), tail_pos(*c, k0, imgs)));
    let ghost p0 = tail_pos(*c, k0, imgs);
    proof {
        if hyp {
            let i = c.next - 1 - k0;
            assert(image_fits(ids@.subrange(k0, ids@.len() as int), imgs, i));
            assert(image_fits(ids@.subrange(k0, ids@.len() as int), imgs, 0));
            lemma_image_format_ok(imgs[i]);
        }
    }
    let ghost cut = at_record(*c, ids@, st, k0, imgs) && p0 < chain_data(imgs).len() && !whole_at(
        chain_format(imgs),
        chain_data(imgs),
        p0,
    ) && rec_bad_after(ids@, st, k0, imgs, p0) && reads_past(chain_format(imgs), chain_data(imgs), p0, buf@.len());
    proof {
        if cut {
            let i = c.next - 1 - k0;
            assert(image_fits(ids@.subrange(k0, ids@.len() as int), imgs, i));
            assert(image_fits(ids@.subrange(k0, ids@.len() as int), imgs, 0));
            lemma_image_format_ok(imgs[i]);
            lemma_tail_pos(*c, ids@, st, k0, imgs);
            lemma_ctx_lens(ids@, st, k0, imgs);
            lemma_seg_offset(imgs, 0, c.next - 1 - k0);
        }
    }
    let format = c.current.unwrap().header.format;
    c.fmt = Ghost(format);
    let (payload_len, meta) = match read_data_header(c, ids, st, opened, collect, format, Ghost(k0), Ghost(imgs)) {
        Ok(x) => x,
        Err(e) => {
            return Err(e);
        },
    };
    let ghost h = span_bytes(st, c.spans@);
    proof {
        assert(span_bytes(st, Seq::<(u64, int, int)>::empty()) =~= Seq::<u8>::empty());
        assert(h.subrange(0, h.len() as int) =~= h);
        assert(h == Seq::<u8>::empty() + h);
    }
    let cap: u32 = if buf.len() > 0xffff_ffffusize {
        0xffff_ffffu32
    } else {
        buf.len() as u32
    };
    let take = if payload_len < cap {
        payload_len
    } else {
        cap
    };
    proof {
        if hyp {
            let d = chain_data(imgs);
            let f = chain_format(imgs);
            if p0 < d.len() {
                lemma_in_chain_intro(*c, ids@, st, k0, imgs, take as int, p0);
            } else if format is Fixed && take > 0 {
                lemma_in_chain_intro(*c, ids@, st, k0, imgs, take as int, p0);
            }
        }
        if cut {
            lemma_out_chain_intro(*c, ids@, st, k0, imgs, take as int, p0);
            assert(owed_at(*c, k0, imgs) == Some(
                p0 + rec_len(chain_format(imgs), chain_data(imgs), p0) - chain_data(imgs).len(),
            ));
            assert(bad_after(ids@, st, k0, imgs, owed_at(*c, k0, imgs)));
        }
    }
    match read_exact_spanning(c, ids, st, opened, collect, buf, 0, take as usize, Ghost(k0), Ghost(imgs)) {
        Ok(()) => {},
        Err(e) => {
            return Err(e);
        },
    }
    let ghost after_payload = span_bytes(st, c.spans@);
    proof {
        assert(after_payload == h + buf@.subrange(0, take as int));
        assert(after_payload.subrange(0, header_len_of(format) as int) =~= h);
        assert(after_payload.subrange(header_len_of(format) as int, header_len_of(format) + take)
            =~= buf@.subrange(0, take as int));
    }
    let ghost buf_after = buf@;
    if payload_len > cap {
        let extra = (payload_len - cap) as u64;
        proof {
            if hyp && p0 < chain_data(imgs).len() {
                lemma_in_chain_intro(*c, ids@, st, k0, imgs, extra as int, p0);
            }
        }
        match skip_spanning(c, ids, st, opened, collect, extra, Ghost(k0), Ghost(imgs)) {
            Err(Fail::Need(id)) => {
                return Err(Fail::Need(id));
            },
            Err(_) => {
                arm_resync(c, ids, st);
            },
            Ok(()) => {},
        }
        proof {
            let fin = span_bytes(st, c.spans@);
            assert(fin.subrange(0, after_payload.len() as int) == after_payload);
            assert(fin.subrange(0, header_len_of(format) as int) =~= h);
            assert(fin.subrange(header_len_of(format) as int, header_len_of(format) + take)
                =~= after_payload.subrange(header_len_of(format) as int, header_len_of(format) + take));
        }
        proof {
            let fin = span_bytes(st, c.spans@);
            assert(fin.len() >= header_len_of(format) + take);
            assert(spec_decode_data_header(format, fin.subrange(0, header_len_of(format) as int)).0 > take);
            assert(buf@ == buf_after);
            if hyp && p0 < chain_data(imgs).len() {
                let d = chain_data(imgs);
                let hl = header_len_of(format);
                assert(take == buf@.len());
                assert(d.subrange(p0 + hl, p0 + hl + payload_len).subrange(0, take as int) =~= d.subrange(
                    p0 + hl,
                    p0 + hl + take,
                ));
            }
        }
        return Err(Fail::Log(LogError::ReadOverflow(take)));
    }
    proof {
        assert(after_payload.subrange(header_len_of(format) as int, after_payload.len() as int)
            =~= buf@.subrange(0, payload_len as int));
    }
    Ok(ReadResult { n: payload_len, meta })
}

fn read_inner(
    c: &mut Cursor,
    ids: &Vec<SegId>,
    st: &SegmentStore,
    opened: &mut Vec<SegmentHeader>,
    collect: bool,
    buf: &mut [u8],
    Ghost(k0): Ghost<int>,
    Ghost(imgs): Ghost<Seq<Seq<u8>>>,
) -> (r: Result<ReadResult, Fail>)
    requires
        cursor_ok(*old(c), ids@, st),
    ensures
        old(c).current is None && first_stop(ids@, st, old(c).next as int) == ids@.len() ==> r matches Err(
            Fail::Log(LogError::Eof),
        ),
        first_unloaded(ids@, st, final(c).next as int) == first_unloaded(ids@, st, old(c).next as int),
        r matches Err(Fail::Need(id)) ==> needed_first(ids@, st, old(c).next as int, id),
        !collect ==> final(opened)@ == old(opened)@,
        opens_grow(*old(c), *final(c), old(opened)@, final(opened)@, ids@, st, collect),
        (old(c).current matches Some(s) && s.file_pos == s.file_len && s.header.format != Format::Fixed(0) && (!(
        s.header.format is Fixed) || old(buf)@.len() > 0)) && !old(c).resync && !old(c).pending_session_end
            && next_other(*old(c), ids@, st) ==> r == Err::<ReadResult, Fail>(Fail::Log(LogError::SessionEnd))
            && final(c).next == old(c).next,
        r matches Err(Fail::Log(LogError::SessionEnd)) ==> final(c).current is None && final(c).pending_session_end,
        cursor_ok(*final(c), ids@, st),
        final(buf)@.len() == old(buf)@.len(),
        match r {
            Ok(res) => read_outcome_ok(
                Ok(res),
                final(c).fmt@,
                span_bytes(st, final(c).spans@),
                final(buf)@,
                old(buf)@.len(),
            ),
            Err(Fail::Log(e)) => read_outcome_ok(
                Err(e),
                final(c).fmt@,
                span_bytes(st, final(c).spans@),
                final(buf)@,
                old(buf)@.len(),
            ),
            Err(Fail::Need(id)) => loaded(st, id@) is None,
        },
        at_record(*old(c), ids@, st, k0, imgs) || log_start(*old(c), ids@, st, k0, imgs) ==> {
            let p0 = read_start_pos(*old(c), ids@, st, k0, imgs);
            let d = chain_data(imgs);
            let f = chain_format(imgs);
            &&& whole_at(f, d, p0) ==> (r matches Err(Fail::Need(id)) && asks_tail(ids@, k0, imgs, id)) || (chain_record_read(
                r,
                f,
                d,
                p0,
                final(buf)@,
                old(buf)@.len(),
            ) && on_tail(*final(c), k0, imgs) && tail_pos(*final(c), k0, imgs) == p0 + rec_len(f, d, p0) && past_start(
                *final(c),
            ))
            &&& p0 >= d.len() && (!(f is Fixed) || old(buf)@.len() > 0) && k0 + imgs.len() == ids@.len() ==> (r matches Err(Fail::Need(id)) && asks_tail(ids@, k0, imgs, id))
                || (r matches Err(Fail::Log(LogError::Eof)))
            &&& p0 < d.len() && !whole_at(f, d, p0) && rec_bad_after(ids@, st, k0, imgs, p0) && reads_past(
                f,
                d,
                p0,
                old(buf)@.len(),
            ) ==> (r matches Err(Fail::Need(id)) && asks_tail(ids@, k0, imgs, id)) || (r == Err::<ReadResult, Fail>(
                Fail::Log(LogError::ReadTruncated(gap_lost(ids@, st, k0, imgs))),
            ) && final(c).next == k0 + imgs.len() && final(c).current is None && (final(c).session_id matches Some(
                x,
            ) && x@ == image_fields(imgs[0]).1))
        },
{
    match position_at_record(c, ids, st, opened, collect, Ghost(k0), Ghost(imgs)) {
        Ok(()) => {},
        Err(e) => {
            return Err(e);
        },
    }
    read_record(c, ids, st, opened, collect, buf, Ghost(k0), Ghost(imgs))
}


/// What a call of `ReadState::read` did.
pub enum ReadStep {
    /// The read finished with this result.
    Done(Result<ReadResult, LogError>),
    /// The contents of this segment file are needed before the read can
    /// go on; supply them and read again. Nothing else changed.
    Need(SegId),
}

proof fn lemma_find_image_push(imgs: Seq<SegmentImage>, x: SegmentImage, id: u64, from: int)
    requires
        0 <= from <= imgs.len(),
    ensures
        find_image(imgs, id, from) < imgs.len() ==> find_image(imgs.push(x), id, from) == find_image(
            imgs,
            id,
            from,
        ),
        find_image(imgs, id, from) >= imgs.len() ==> find_image(imgs.push(x), id, from) == if x.id@
            == id {
            imgs.len() as int
        } else {
            imgs.len() + 1int
        },
    decreases imgs.len() - from,
{
    if from < imgs.len() {
        assert(imgs.push(x)[from] == imgs[from]);
        if imgs[from].id@ != id {
            lemma_find_image_push(imgs, x, id, from + 1);
        }
    } else {
        assert(imgs.push(x)[from] == x);
        if x.id@ != id {
            assert(find_image(imgs.push(x), id, from + 1) == imgs.len() + 1);
        }
    }
}

/// The reader's state: the segment files found when the log was opened,
/// the position in them, and the segment files loaded so far.
pub struct ReadState {
    ids: Vec<SegId>,
    cur: Cursor,
    store: SegmentStore,
    collect: bool,
    opened_headers: Vec<SegmentHeader>,
    last_record: Ghost<Seq<u8>>,
    last_spans: Ghost<Seq<(u64, int, int)>>,
    last_format: Ghost<Format>,
}

impl ReadState {
    /// The reader's bookkeeping is consistent.
    pub closed spec fn wf(&self) -> bool {
        cursor_ok(self.cur, self.ids@, &self.store)
    }

    /// Identifiers of the segment files not read yet, in order.
    pub closed spec fn pending(&self) -> Seq<SegId> {
        self.ids@.subrange(self.cur.next as int, self.ids@.len() as int)
    }

    /// Whether a segment file is currently open.
    pub closed spec fn has_current(&self) -> bool {
        self.cur.current is Some
    }

    /// The loaded contents of a segment file (see `loaded`).
    pub closed spec fn loaded_image(&self, id: u64) -> Option<Option<Seq<u8>>> {
        loaded(&self.store, id)
    }

    /// The bytes of the last record read (data header, then payload).
    pub closed spec fn record_bytes(&self) -> Seq<u8> {
        self.last_record@
    }

    /// Where the bytes of the last record came from: (segment, start,
    /// end) spans of segment files.
    pub closed spec fn record_spans(&self) -> Seq<(u64, int, int)> {
        self.last_spans@
    }

    /// The bytes of `spans` in the loaded segment files.
    pub closed spec fn span_bytes_of(&self, spans: Seq<(u64, int, int)>) -> Seq<u8> {
        span_bytes(&self.store, spans)
    }

    /// Format of the segment the last record started in.
    pub closed spec fn record_format(&self) -> Format {
        self.last_format@
    }

    /// Number of segment files opened so far (each counted once).
    pub closed spec fn spec_segments_opened(&self) -> u64 {
        self.cur.segments_opened
    }

    /// The segment files listed when the reader was opened.
    pub closed spec fn listed(&self) -> Seq<SegId> {
        self.ids@
    }

    /// Nothing has been read yet.
    pub closed spec fn at_start(&self) -> bool {
        &&& self.cur.current is None
        &&& self.cur.next == 0
        &&& self.cur.resync
        &&& !self.cur.pending_session_end
        &&& self.cur.session_id is None
    }

    /// No segment file is open and the next read resynchronizes: it looks
    /// for the first record of the next usable segment file (ending the
    /// session first, when one ended).
    pub closed spec fn awaiting_resync(&self) -> bool {
        &&& self.cur.current is None
        &&& self.cur.resync || self.cur.pending_session_end
    }

    /// The reader accepts a segment file of session `session` next: it is
    /// in no session, in that one, or ending the one it was in.
    pub closed spec fn accepts_session(&self, session: u64) -> bool {
        self.cur.pending_session_end || (self.cur.session_id matches Some(x) ==> x@ == session)
    }

    /// Index in `listed()` of the first segment file the next read looks
    /// at: the open one, or the next to open.
    pub closed spec fn read_index(&self) -> int {
        if self.cur.current is Some {
            self.cur.next - 1
        } else {
            self.cur.next as int
        }
    }

    /// Index in `listed()` of the segment file the next read resumes in:
    /// the open one, or else the first file from the next to open on that
    /// is not loaded yet or opens; the loaded files before it that do not
    /// open (missing, too short, with a damaged header, misnamed or longer
    /// than they declare) are passed over.
    pub closed spec fn resume_index(&self) -> int {
        if self.cur.current is Some {
            self.cur.next - 1
        } else {
            first_stop(self.ids@, &self.store, self.cur.next as int)
        }
    }

    /// The loaded images of the `m` listed segment files from
    /// `resume_index()` on (empty where nothing is loaded).
    pub closed spec fn images_upto(&self, m: int) -> Seq<Seq<u8>> {
        let k0 = self.resume_index();
        Seq::new(
            m as nat,
            |i: int|
                match loaded(&self.store, self.ids@[k0 + i]@) {
                    Some(Some(b)) => b,
                    _ => Seq::empty(),
                },
        )
    }

    /// The `m` listed segment files from `resume_index()` on (other files
    /// may follow them) are loaded and form a chain, and the reader stands
    /// at a record boundary of it: it resynchronizes at its start, or is
    /// in the middle of it.
    pub closed spec fn ready_upto(&self, m: int) -> bool {
        let k0 = self.resume_index();
        let imgs = self.images_upto(m);
        &&& 0 <= k0
        &&& 1 <= m
        &&& k0 + m <= self.ids@.len()
        &&& forall|j: int| k0 <= j < k0 + m ==> (loaded(&self.store, #[trigger] self.ids@[j]@) is Some)
        &&& at_record(self.cur, self.ids@, &self.store, k0, imgs) || log_start(
            self.cur,
            self.ids@,
            &self.store,
            k0,
            imgs,
        )
    }

    /// The listed segment file right after the `m` from `resume_index()` on
    /// is loaded, can be opened, and belongs to another session than the
    /// first of those `m`.
    pub closed spec fn next_in_other_session(&self, m: int) -> bool {
        let j = self.resume_index() + m;
        &&& 0 <= j < self.ids@.len()
        &&& loaded(&self.store, self.ids@[j]@) matches Some(Some(b)) && image_opens(b, self.ids@[j]@)
            && image_fields(b).1 != image_fields(self.images_upto(m)[0]).1
    }

    /// The listed segment file right after the `m` from `resume_index()` on
    /// is loaded, can be opened, is in the session of the first of those
    /// `m`, and either does not follow the last of them in sequence
    /// (segment files between them are missing), or follows it but, the
    /// next record's data header lying in the `m`, declares in `remaining`
    /// another count than what is left of that record at their end.
    pub closed spec fn next_after_gap(&self, m: int) -> bool {
        rec_bad_after(self.ids@, &self.store, self.resume_index(), self.images_upto(m), self.pos_upto(m))
    }

    /// How many segment files are missing after the `m` listed from
    /// `resume_index()` on, by the sequence numbers.
    pub closed spec fn lost_after(&self, m: int) -> u64 {
        gap_lost(self.ids@, &self.store, self.resume_index(), self.images_upto(m))
    }

    /// Where in the stream of `images_upto(m)` the next read starts.
    pub closed spec fn pos_upto(&self, m: int) -> int {
        read_start_pos(self.cur, self.ids@, &self.store, self.resume_index(), self.images_upto(m))
    }

    /// The largest `m` up to `n` for which `ready_upto(m)` holds; zero if
    /// there is none.
    closed spec fn max_ready(&self, n: int) -> int
        decreases n,
    {
        if n <= 0 {
            0
        } else if self.ready_upto(n) {
            n
        } else {
            self.max_ready(n - 1)
        }
    }

    /// The reader stands at position `q`, a record boundary, of the
    /// stream of `imgs`, the images of the listed segment files from index
    /// `k0` on (other files may follow them); what it has loaded of them
    /// agrees with `imgs`.
    pub closed spec fn follows_from(&self, k0: int, imgs: Seq<Seq<u8>>, q: int) -> bool {
        &&& at_record(self.cur, self.ids@, &self.store, k0, imgs)
        &&& tail_pos(self.cur, k0, imgs) == q
    }

    /// Starts reading the segment files `ids` (ascending, as listed in the
    /// log directory).
    pub fn new(ids: Vec<SegId>) -> (r: Result<ReadState, LogError>)
        ensures
            ids@.len() == 0 <==> r matches Err(LogError::NoSegmentFiles),
            r is Err ==> r matches Err(LogError::NoSegmentFiles),
            r matches Ok(s) ==> s.wf() && s.pending() == ids@ && !s.has_current() && s.spec_segments_opened() == 0
                && s.at_start() && s.listed() == ids@ && !s.spec_collecting() && s.spec_opened_headers().len() == 0,
    {
        if ids.len() == 0 {
            return Err(LogError::NoSegmentFiles);
        }
        let cur = Cursor {
            current: None,
            next: 0,
            session_id: None,
            pending_session_end: false,
            resync: true,
            consumed: 0,
            total: None,
            segments_opened: 0,
            last_opened: None,
            spans: Ghost(Seq::empty()),
            fmt: Ghost(Format::VariableSimple),
        };
        let st = ReadState {
            ids,
            cur,
            store: SegmentStore::new(),
            collect: false,
            opened_headers: Vec::new(),
            last_record: Ghost(Seq::empty()),
            last_spans: Ghost(Seq::empty()),
            last_format: Ghost(Format::VariableSimple),
        };
        proof {
            assert(st.pending() =~= st.ids@);
        }
        Ok(st)
    }

    /// Hands in the contents of a segment file that a read asked for
    /// (`None` if it could not be opened). Contents already loaded for
    /// that identifier are kept.
    pub fn supply(&mut self, id: SegId, bytes: Option<Vec<u8>>)
        requires
            old(self).wf(),
        ensures
            final(self).wf(),
            final(self).loaded_image(id@) == if old(self).loaded_image(id@) is None {
                Some(
                    match bytes {
                        Some(v) => Some(v@),
                        None => None,
                    },
                )
            } else {
                old(self).loaded_image(id@)
            },
            forall|other: u64| other != id@ ==> final(self).loaded_image(other) == old(self).loaded_image(other),
            final(self).pending() == old(self).pending(),
            final(self).listed() == old(self).listed(),
            final(self).read_index() == old(self).read_index(),
            old(self).at_start() ==> final(self).at_start(),
            final(self).awaiting_resync() == old(self).awaiting_resync(),
            forall|x: u64| #[trigger] final(self).accepts_session(x) == old(self).accepts_session(x),
            final(self).has_current() == old(self).has_current(),
            final(self).spec_opened_headers() == old(self).spec_opened_headers(),
            final(self).spec_collecting() == old(self).spec_collecting(),
            final(self).spec_segments_opened() == old(self).spec_segments_opened(),
            forall|k0: int, imgs: Seq<Seq<u8>>, q: int|
                #[trigger] old(self).follows_from(k0, imgs, q) && supplies_agree(old(self).listed(), k0, imgs, id, bytes)
                    ==> final(self).follows_from(k0, imgs, q),
    {
        let ghost old_self = *self;
        let ghost imgs = self.store.images@;
        let ghost x = SegmentImage { id, bytes };
        proof {
            lemma_find_image_bounds(imgs, id@, 0);
            lemma_find_image_push(imgs, x, id@, 0);
            if self.cur.current is Some {
                let cid = self.cur.current->0.header.segment_id@;
                lemma_find_image_bounds(imgs, cid, 0);
                lemma_find_image_push(imgs, x, cid, 0);
                assert(imgs.push(x)[find_image(imgs, cid, 0)] == imgs[find_image(imgs, cid, 0)]);
            }
        }
        self.store.insert(id, bytes);
        proof {
            let imgs2 = self.store.images@;
            assert(imgs2 == imgs.push(x));
            assert forall|other: u64| other != id@ implies loaded(&self.store, other) == loaded_in(
                imgs,
                other,
            ) by {
                lemma_find_image_bounds(imgs, other, 0);
                lemma_find_image_push(imgs, x, other, 0);
                let k = find_image(imgs, other, 0);
                if k < imgs.len() {
                    assert(imgs2[k] == imgs[k]);
                }
            }
            let k = find_image(imgs, id@, 0);
            if k < imgs.len() {
                assert(imgs2[k] == imgs[k]);
            } else {
                assert(imgs2[imgs.len() as int] == x);
            }
        }
        proof {
            assert(loaded(&self.store, id@) == if loaded(&old_self.store, id@) is None {
                Some(
                    match bytes {
                        Some(v) => Some(v@),
                        None => None,
                    },
                )
            } else {
                loaded(&old_self.store, id@)
            });
            assert forall|k0: int, imgs2: Seq<Seq<u8>>, q: int|
                #[trigger] old_self.follows_from(k0, imgs2, q) && supplies_agree(old_self.listed(), k0, imgs2, id, bytes)
                    implies self.follows_from(k0, imgs2, q) by {
                assert forall|j: int| k0 <= j < k0 + imgs2.len() implies match loaded(&self.store, #[trigger] self.ids@[j]@) {
                    None => true,
                    Some(x) => x == Some(imgs2[j - k0]),
                } by {
                    assert(match loaded(&old_self.store, old_self.ids@[j]@) {
                        None => true,
                        Some(x) => x == Some(imgs2[j - k0]),
                    });
                    if self.ids@[j]@ == id@ {
                        crate::segid::lemma_segid_view_injective(self.ids@[j], id);
                        assert(self.ids@[j] == id);
                    }
                }
                assert(chain_ctx(self.ids@, &self.store, k0, imgs2));
            }
        }
    }
    /// Enables or disables collecting the headers of segments as they are
    /// opened; disabling drops those collected.
    pub fn collect_opened_headers(&mut self, enable: bool)
        requires
            old(self).wf(),
        ensures
            final(self).wf(),
            !enable ==> final(self).spec_opened_headers().len() == 0,
            enable ==> final(self).spec_opened_headers() == old(self).spec_opened_headers(),
            final(self).spec_collecting() == enable,
    {
        self.collect = enable;
        if !enable {
            self.opened_headers = Vec::new();
        }
    }

    /// Headers collected since the last call.
    pub closed spec fn spec_opened_headers(&self) -> Seq<SegmentHeader> {
        self.opened_headers@
    }

    /// Whether the headers of opened segment files are being collected.
    pub closed spec fn spec_collecting(&self) -> bool {
        self.collect
    }

    /// Removes and returns the headers of the segments opened since the
    /// previous call, in opening order.
    pub fn take_opened_headers(&mut self) -> (r: Vec<SegmentHeader>)
        requires
            old(self).wf(),
        ensures
            final(self).wf(),
            r@ == old(self).spec_opened_headers(),
            final(self).spec_opened_headers().len() == 0,
    {
        let mut out = Vec::new();
        std::mem::swap(&mut out, &mut self.opened_headers);
        out
    }

    /// The number of distinct segment files opened and accepted so far.
    pub fn segments_opened(&self) -> (r: u64)
        ensures
            r == self.spec_segments_opened(),
    {
        self.cur.segments_opened
    }

    /// The header of the segment that supplied the most recent record, if
    /// any.
    pub fn current_header(&self) -> (r: Option<SegmentHeader>)
        ensures
            r is Some == self.has_current(),
            forall|m: int|
                #[trigger] self.ready_upto(m) && self.has_current() ==> (r matches Some(h) && header_fields(h)
                    == image_fields(self.images_upto(m)[0])),
    {
        match self.cur.current {
            Some(s) => Some(s.header),
            None => None,
        }
    }

    /// Reads the next record's payload into `buf`.
    ///
    /// A payload larger than `buf` fills `buf`, the rest is skipped, and
    /// `ReadOverflow` reports how many bytes were kept. After any failure
    /// other than `Eof`, `SessionEnd` or `ReadOverflow`, the reader
    /// resynchronizes on the next call.
    ///
    /// Standing in a chain of supplied segment files (`ready_upto`), it
    /// returns the whole record at its place in the chain's stream and
    /// moves past it; at the stream's end it answers `Eof` when no listed
    /// file follows, and `SessionEnd` when the next one is of another
    /// session. A record cut short at the chain's end by missing segment
    /// files is answered with `ReadTruncated` and the number of files
    /// missing, once the read needs its missing bytes, and the reader then
    /// resynchronizes at the file after the gap. A next file that follows
    /// in sequence but declares in `remaining` another count than what is
    /// left of the record is answered with `ReadTruncated(0)`, and the
    /// reader resynchronizes at that file. With no file open, the
    /// read resumes at `resume_index()`: files marked missing or that do
    /// not open are passed over, and when none is left it answers `Eof`.
    /// When it needs a file, it asks for the first one from
    /// `read_index()` on that is not loaded yet.
    #[verifier::rlimit(40)]
    #[verifier::spinoff_prover]
    pub fn read(&mut self, buf: &mut [u8]) -> (r: ReadStep)
        requires
            old(self).wf(),
        ensures
            final(self).wf(),
            !old(self).has_current() && old(self).resume_index() == old(self).listed().len() ==> r
                == ReadStep::Done(Err(LogError::Eof)),
            final(buf)@.len() == old(buf)@.len(),
            match r {
                ReadStep::Need(id) => old(self).loaded_image(id@) is None && *final(self) == *old(self) && exists|j: int|
                    old(self).read_index() <= j < old(self).listed().len() && #[trigger] old(self).listed()[j] == id
                        && forall|k: int|
                        old(self).read_index() <= k < j ==> old(self).loaded_image(
                            #[trigger] old(self).listed()[k]@,
                        ) is Some,
                ReadStep::Done(res) => {
                    &&& read_outcome_ok(
                        res,
                        final(self).record_format(),
                        final(self).record_bytes(),
                        final(buf)@,
                        old(buf)@.len(),
                    )
                    &&& final(self).record_bytes() == old(self).span_bytes_of(final(self).record_spans())
                },
            },
            r matches ReadStep::Done(Err(e)) && !(e is Eof || e is ReadOverflow) ==> final(self).awaiting_resync(),
            old(self).spec_opened_headers().len() <= final(self).spec_opened_headers().len(),
            final(self).spec_opened_headers().subrange(0, old(self).spec_opened_headers().len() as int)
                == old(self).spec_opened_headers(),
            !old(self).spec_collecting() ==> final(self).spec_opened_headers() == old(self).spec_opened_headers(),
            old(self).spec_segments_opened() <= final(self).spec_segments_opened(),
            old(self).spec_collecting() ==> final(self).spec_opened_headers().len() - old(
                self,
            ).spec_opened_headers().len() == final(self).spec_segments_opened() - old(self).spec_segments_opened(),
            forall|i: int|
                #![trigger final(self).spec_opened_headers()[i]]
                old(self).spec_opened_headers().len() <= i < final(self).spec_opened_headers().len() ==> exists|
                    j: int,
                |
                    0 <= j < old(self).listed().len() && #[trigger] old(self).listed()[j]
                        == final(self).spec_opened_headers()[i].segment_id && (old(self).loaded_image(
                        old(self).listed()[j]@,
                    ) matches Some(Some(b)) && image_header_ok(b) && header_fields(
                        final(self).spec_opened_headers()[i],
                    ) == image_fields(b)),
            forall|m: int|
                #[trigger] old(self).ready_upto(m) ==> ({
                    let imgs = old(self).images_upto(m);
                    let p = old(self).pos_upto(m);
                    let d = chain_data(imgs);
                    let f = chain_format(imgs);
                    &&& whole_at(f, d, p) ==> (r matches ReadStep::Done(res) && record_read_ok(
                        res,
                        f,
                        d,
                        p,
                        final(buf)@,
                        old(buf)@.len(),
                    ) && final(self).follows_from(old(self).resume_index(), imgs, p + rec_len(f, d, p)))
                    &&& p >= d.len() && (!(f is Fixed) || old(buf)@.len() > 0) && old(self).resume_index() + m
                        == old(self).listed().len() ==> (r matches ReadStep::Done(Err(LogError::Eof)))
                    &&& p >= d.len() && (!(f is Fixed) || old(buf)@.len() > 0) && old(self).has_current()
                        && image_data(imgs.last()).len() > 0 && old(self).next_in_other_session(m) ==> r
                        == ReadStep::Done(Err(LogError::SessionEnd)) && final(self).read_index() == old(self).resume_index() + m && (forall|x: u64| #[trigger] final(self).accepts_session(x))
                    &&& p < d.len() && !whole_at(f, d, p) && old(self).next_after_gap(m) && reads_past(
                        f,
                        d,
                        p,
                        old(buf)@.len(),
                    ) ==> r == ReadStep::Done(Err(LogError::ReadTruncated(old(self).lost_after(m))))
                        && final(self).read_index() == old(self).resume_index() + m && final(self).accepts_session(
                        image_fields(imgs[0]).1,
                    )
                }),
    {
        let ghost k0 = self.resume_index();
        let ghost nn = self.ids@.len() - k0;
        let ghost mstar = self.max_ready(nn);
        let ghost imgs = self.images_upto(mstar);
        let ghost old_self = *self;
        proof {
            lemma_max_ready_ok(*self, nn);
        }
        let mut c = self.cur;
        let mut opened: Vec<SegmentHeader> = Vec::new();
        let r = read_inner(&mut c, &self.ids, &self.store, &mut opened, self.collect, buf, Ghost(k0), Ghost(imgs));
        proof {
            if mstar >= 1 {
                match r {
                    Err(Fail::Need(id)) => {
                        if asks_tail(self.ids@, k0, imgs, id) {
                            let j = choose|j: int| k0 <= j < k0 + imgs.len() && self.ids@[j] == id;
                            assert(loaded(&self.store, self.ids@[j]@) is Some);
                        }
                    },
                    _ => {},
                }
            }
        }
        let ghost rec = span_bytes(&self.store, c.spans@);
        let ghost spans = c.spans@;
        let ghost fmt = c.fmt@;
        let res = match r {
            Err(Fail::Need(id)) => {
                proof {
                    assert forall|m: int| #[trigger] old_self.ready_upto(m) implies !whole_at(
                        chain_format(old_self.images_upto(m)),
                        chain_data(old_self.images_upto(m)),
                        old_self.pos_upto(m),
                    ) && !(old_self.pos_upto(m) >= chain_data(old_self.images_upto(m)).len() && (!(chain_format(
                        old_self.images_upto(m),
                    ) is Fixed) || buf@.len() > 0) && k0 + m == old_self.ids@.len()) && !(old_self.pos_upto(m)
                        >= chain_data(old_self.images_upto(m)).len() && (!(chain_format(
                        old_self.images_upto(m),
                    ) is Fixed) || buf@.len() > 0) && old_self.has_current() && image_data(
                        old_self.images_upto(m).last(),
                    ).len() > 0 && old_self.next_in_other_session(m)) && !(old_self.pos_upto(m) < chain_data(
                        old_self.images_upto(m),
                    ).len() && old_self.next_after_gap(m) && reads_past(
                        chain_format(old_self.images_upto(m)),
                        chain_data(old_self.images_upto(m)),
                        old_self.pos_upto(m),
                        buf@.len(),
                    ) && !whole_at(
                        chain_format(old_self.images_upto(m)),
                        chain_data(old_self.images_upto(m)),
                        old_self.pos_upto(m),
                    )) by {
                        if old_self.next_after_gap(m) {
                            lemma_max_ready(old_self, m, nn);
                            lemma_gap_bounds_ready(old_self, m, mstar);
                            assert(old_self.images_upto(m) =~= imgs);
                        }
                        lemma_max_ready(old_self, m, nn);
                        assert(old_self.images_upto(m) =~= imgs.subrange(0, m));
                        lemma_prefix_start(old_self.cur, old_self.ids@, old_self.store, k0, imgs, m);
                        if k0 + m == old_self.ids@.len() {
                            assert(imgs.subrange(0, m) =~= imgs);
                        }
                        let sm = old_self.images_upto(m);
                        if whole_at(chain_format(sm), chain_data(sm), old_self.pos_upto(m)) {
                            lemma_whole_prefix(chain_format(imgs), chain_data(sm), chain_data(imgs), old_self.pos_upto(m));
                        }
                        if old_self.pos_upto(m) >= chain_data(sm).len() && (!(chain_format(sm) is Fixed)
                            || buf@.len() > 0) && old_self.has_current() && image_data(sm.last()).len() > 0
                            && old_self.next_in_other_session(m) {
                            lemma_at_chain_end(old_self.cur, old_self.ids@, old_self.store, k0, sm);
                            assert(next_other(old_self.cur, old_self.ids@, &old_self.store));
                            assert(false);
                        }
                    }
                }
                proof {
                    let c0 = old_self.cur;
                    let ids = old_self.ids@;
                    let st0 = &old_self.store;
                    let ri = old_self.read_index();
                    lemma_first_unloaded(ids, st0, ri);
                    if c0.current is Some {
                        assert(loaded(st0, ids[ri]@) is Some);
                        assert(first_unloaded(ids, st0, ri) == first_unloaded(ids, st0, ri + 1));
                    }
                    let u = first_unloaded(ids, st0, ri);
                    assert(ids[u] == id);
                    assert(old_self.listed()[u] == id);
                    assert forall|k: int| ri <= k < u implies old_self.loaded_image(
                        #[trigger] old_self.listed()[k]@,
                    ) is Some by {
                        assert(loaded(st0, ids[k]@) is Some);
                    }
                }
                return ReadStep::Need(id);
            },
            Err(Fail::Log(e)) => {
                let keep = match e {
                    LogError::Eof => true,
                    LogError::SessionEnd => true,
                    LogError::ReadOverflow(_) => true,
                    _ => false,
                };
                if !keep {
                    arm_resync(&mut c, &self.ids, &self.store);
                }
                Err(e)
            },
            Ok(res) => Ok(res),
        };
        let keep_id = match c.current {
            Some(s) => Some(s.header.segment_id),
            None => None,
        };
        let ghost old_store = self.store;
        self.store.retain_only(keep_id);
        proof {
            if c.current is Some {
                let cid = c.current->0.header.segment_id@;
                assert(loaded(&self.store, cid) == loaded(&old_store, cid));
            }
            assert(cursor_ok(c, self.ids@, &self.store));
        }
        self.cur = c;
        let ghost before_headers = self.opened_headers@;
        let ghost new_headers = opened@;
        self.opened_headers.append(&mut opened);
        proof {
            assert forall|i: int|
                before_headers.len() <= i < self.opened_headers@.len() implies opened_from(
                old_self.ids@,
                &old_self.store,
                #[trigger] self.opened_headers@[i],
            ) by {
                assert(self.opened_headers@[i] == new_headers[i - before_headers.len()]);
            }
        }
        self.last_record = Ghost(rec);
        self.last_spans = Ghost(spans);
        self.last_format = Ghost(fmt);
        proof {
            let ghost pb = read_start_pos(old_self.cur, old_self.ids@, &old_self.store, k0, imgs);
            if mstar >= 1 && whole_at(chain_format(imgs), chain_data(imgs), pb) {
                assert(record_read_ok(res, chain_format(imgs), chain_data(imgs), pb, buf@, old(buf)@.len()));
                assert(at_record(self.cur, self.ids@, &self.store, k0, imgs));
                assert(past_start(self.cur));
            }
            assert forall|m: int| #[trigger] old_self.ready_upto(m) implies ({
                let sm = old_self.images_upto(m);
                let ps = old_self.pos_upto(m);
                let d = chain_data(sm);
                let f = chain_format(sm);
                &&& whole_at(f, d, ps) ==> (record_read_ok(res, f, d, ps, buf@, old(buf)@.len()) && self.follows_from(
                    k0,
                    sm,
                    ps + rec_len(f, d, ps),
                ))
                &&& ps >= d.len() && (!(f is Fixed) || old(buf)@.len() > 0) && k0 + m == old_self.ids@.len()
                    ==> res == Err::<ReadResult, LogError>(LogError::Eof)
                &&& ps >= d.len() && (!(f is Fixed) || old(buf)@.len() > 0) && old_self.has_current() && image_data(
                    sm.last(),
                ).len() > 0 && old_self.next_in_other_session(m) ==> res == Err::<ReadResult, LogError>(
                    LogError::SessionEnd,
                ) && self.read_index() == k0 + m && (forall|x: u64| #[trigger] self.accepts_session(x))
                &&& ps < d.len() && !whole_at(f, d, ps) && old_self.next_after_gap(m) && reads_past(
                    f,
                    d,
                    ps,
                    old(buf)@.len(),
                ) ==> res == Err::<ReadResult, LogError>(LogError::ReadTruncated(old_self.lost_after(m)))
                    && self.read_index() == k0 + m && self.accepts_session(image_fields(sm[0]).1)
            }) by {
                if old_self.next_after_gap(m) {
                    lemma_max_ready(old_self, m, nn);
                    lemma_gap_bounds_ready(old_self, m, mstar);
                    assert(old_self.images_upto(m) =~= imgs);
                }
                lemma_max_ready(old_self, m, nn);
                assert(old_self.images_upto(m) =~= imgs.subrange(0, m));
                lemma_prefix_start(old_self.cur, old_self.ids@, old_self.store, k0, imgs, m);
                let sm = old_self.images_upto(m);
                if old_self.pos_upto(m) >= chain_data(sm).len() && (!(chain_format(sm) is Fixed) || old(
                    buf,
                )@.len() > 0) && old_self.has_current() && image_data(sm.last()).len() > 0
                    && old_self.next_in_other_session(m) {
                    lemma_at_chain_end(old_self.cur, old_self.ids@, old_self.store, k0, sm);
                    assert(next_other(old_self.cur, old_self.ids@, &old_self.store));
                }
                if k0 + m == old_self.ids@.len() {
                    assert(imgs.subrange(0, m) =~= imgs);
                }
                if whole_at(chain_format(old_self.images_upto(m)), chain_data(old_self.images_upto(m)), old_self.pos_upto(m)) {
                    lemma_whole_prefix(
                        chain_format(imgs),
                        chain_data(old_self.images_upto(m)),
                        chain_data(imgs),
                        old_self.pos_upto(m),
                    );
                    lemma_prefix_read(
                        old_self.cur,
                        self.cur,
                        self.ids@,
                        old_self.store,
                        self.store,
                        k0,
                        imgs,
                        m,
                        res,
                        buf@,
                        old(buf)@.len(),
                    );
                }
            }
        }
        ReadStep::Done(res)
    }
}

/// The data sections of the first `m` images, taken on their own, lay
/// down what the whole run lays down up to image `i <= m`.
proof fn lemma_prefix_upto(big: Seq<Seq<u8>>, m: int, i: int)
    requires
        0 <= i <= m <= big.len(),
    ensures
        data_upto(big.subrange(0, m), i) == data_upto(big, i),
    decreases i,
{
    if i > 0 {
        lemma_prefix_upto(big, m, i - 1);
        assert(big.subrange(0, m)[i - 1] == big[i - 1]);
    }
}

/// `max_ready` finds a ready length no smaller than any given one.
proof fn lemma_max_ready(s: ReadState, m: int, n: int)
    requires
        s.ready_upto(m),
        m <= n,
    ensures
        m <= s.max_ready(n),
        s.ready_upto(s.max_ready(n)),
    decreases n,
{
    if !s.ready_upto(n) {
        lemma_max_ready(s, m, n - 1);
    }
}

/// A record that lies whole in a stream lies whole, and the same, in any
/// longer stream that starts with it.
proof fn lemma_whole_prefix(f: Format, ds: Seq<u8>, db: Seq<u8>, p: int)
    requires
        ds.len() <= db.len(),
        db.subrange(0, ds.len() as int) == ds,
        whole_at(f, ds, p),
    ensures
        whole_at(f, db, p),
        rec_len(f, db, p) == rec_len(f, ds, p),
{
    let hl = header_len_of(f);
    assert(ds.subrange(p, p + hl) =~= db.subrange(p, p + hl));
}

/// No chain the reader is ready in reaches past a gap.
proof fn lemma_gap_bounds_ready(s: ReadState, m: int, m2: int)
    requires
        s.wf(),
        s.ready_upto(m),
        s.next_after_gap(m),
        s.ready_upto(m2),
    ensures
        m2 <= m,
{
    if m2 > m {
        let k0 = s.resume_index();
        let ids = s.ids@;
        let big = s.images_upto(m2);
        let small = s.images_upto(m);
        let tids = ids.subrange(k0, ids.len() as int);
        assert(chain_ctx(ids, &s.store, k0, big)) by {
            if log_start(s.cur, ids, &s.store, k0, big) {
            }
        }
        assert(image_fits(tids, big, m));
        assert(image_fits(tids, big, m - 1));
        assert(big[m - 1] == small[m - 1]);
        assert(small.last() == small[m - 1]);
        if !gap_after(ids, &s.store, k0, small) {
            assert(small =~= big.subrange(0, m));
            lemma_prefix_start(s.cur, ids, s.store, k0, big, m);
            let p = s.pos_upto(m);
            let f = chain_format(big);
            let ds = chain_data(small);
            let db = chain_data(big);
            let hl = header_len_of(f);
            assert(read_start_pos(s.cur, ids, &s.store, k0, big) == p);
            assert(records_cut_ok(f, db, chain_offsets(big), chain_rems(big), p)) by {
                if log_start(s.cur, ids, &s.store, k0, big) {
                } else {
                    assert(at_record(s.cur, ids, &s.store, k0, big));
                }
            }
            assert(db.subrange(p, p + hl) =~= ds.subrange(p, p + hl));
            assert(rec_len(f, db, p) == rec_len(f, ds, p));
            lemma_prefix_upto(big, m, m);
            assert(chain_offsets(big)[m] == ds.len());
            assert(chain_rems(big)[m] == image_fields(big[m]).3);
            assert(loaded(&s.store, ids[k0 + m]@) == Some(Some(big[m])));
            assert(false);
        }
    }
}

/// `max_ready(n)` is at most `n`, and ready when it is positive.
proof fn lemma_max_ready_ok(s: ReadState, n: int)
    ensures
        0 <= s.max_ready(n),
        s.max_ready(n) <= n || n <= 0,
        s.max_ready(n) >= 1 ==> s.ready_upto(s.max_ready(n)),
    decreases n,
{
    if n > 0 && !s.ready_upto(n) {
        lemma_max_ready_ok(s, n - 1);
    }
}

/// A reader in a chain that has read the chain's stream to its end, the
/// last data section not being empty, has the chain's last file open and
/// read to its end, in the chain's session.
proof fn lemma_at_chain_end(c: Cursor, ids: Seq<SegId>, st: SegmentStore, k0: int, imgs: Seq<Seq<u8>>)
    requires
        cursor_ok(c, ids, &st),
        at_record(c, ids, &st, k0, imgs),
        tail_pos(c, k0, imgs) >= chain_data(imgs).len(),
        image_data(imgs.last()).len() > 0,
    ensures
        c.next == k0 + imgs.len(),
        c.current matches Some(s) && s.file_pos == s.file_len && s.header.format == chain_format(imgs)
            && s.header.format != Format::Fixed(0),
        c.session_id matches Some(x) && x@ == image_fields(imgs[0]).1,
        !c.resync,
        !c.pending_session_end,
{
    let n = imgs.len() as int;
    let i = c.next - 1 - k0;
    lemma_tail_pos(c, ids, &st, k0, imgs);
    lemma_ctx_lens(ids, &st, k0, imgs);
    lemma_seg_offset(imgs, n - 1, n);
    if i < n - 1 {
        lemma_seg_offset(imgs, i + 1, n - 1);
        assert(false);
    }
    assert(image_fits(ids.subrange(k0, ids.len() as int), imgs, i));
    assert(image_fits(ids.subrange(k0, ids.len() as int), imgs, 0));
    lemma_image_format_ok(imgs[i]);
}

/// A reader ready in a chain and in its first `m` images starts its next
/// read at the same place of both, and the cut chain's stream is a prefix
/// of the whole one's.
proof fn lemma_prefix_start(c0: Cursor, ids: Seq<SegId>, st0: SegmentStore, k0: int, big: Seq<Seq<u8>>, m: int)
    requires
        1 <= m <= big.len(),
        cursor_ok(c0, ids, &st0),
        at_record(c0, ids, &st0, k0, big.subrange(0, m)) || log_start(c0, ids, &st0, k0, big.subrange(0, m)),
        at_record(c0, ids, &st0, k0, big) || log_start(c0, ids, &st0, k0, big),
    ensures
        read_start_pos(c0, ids, &st0, k0, big.subrange(0, m)) == read_start_pos(c0, ids, &st0, k0, big),
        0 <= read_start_pos(c0, ids, &st0, k0, big),
        chain_data(big.subrange(0, m)).len() <= chain_data(big).len(),
        chain_data(big).subrange(0, chain_data(big.subrange(0, m)).len() as int) == chain_data(big.subrange(0, m)),
        chain_format(big.subrange(0, m)) == chain_format(big),
{
    let small = big.subrange(0, m);
    assert(small[0] == big[0]);
    lemma_ctx_lens(ids, &st0, k0, big);
    lemma_prefix_upto(big, m, m);
    lemma_data_upto_prefix(big, m, big.len() as int);
    if c0.current is Some {
        assert(on_tail(c0, k0, small));
        let i0 = c0.next - 1 - k0;
        lemma_prefix_upto(big, m, i0);
        lemma_tail_pos(c0, ids, &st0, k0, big);
        lemma_seg_offset(big, 0, i0);
    }
}

/// A read of a record that lies in the first `m` images of a chain reads
/// the same record, and leaves the reader in the same place, whether the
/// chain is taken whole or cut after those `m` images.
proof fn lemma_prefix_read(
    c0: Cursor,
    c1: Cursor,
    ids: Seq<SegId>,
    st0: SegmentStore,
    st1: SegmentStore,
    k0: int,
    big: Seq<Seq<u8>>,
    m: int,
    r: Result<ReadResult, LogError>,
    buf: Seq<u8>,
    len: nat,
)
    requires
        1 <= m <= big.len(),
        cursor_ok(c0, ids, &st0),
        at_record(c0, ids, &st0, k0, big.subrange(0, m)) || log_start(c0, ids, &st0, k0, big.subrange(0, m)),
        at_record(c0, ids, &st0, k0, big) || log_start(c0, ids, &st0, k0, big),
        whole_at(
            chain_format(big.subrange(0, m)),
            chain_data(big.subrange(0, m)),
            read_start_pos(c0, ids, &st0, k0, big),
        ),
        record_read_ok(
            r,
            chain_format(big),
            chain_data(big),
            read_start_pos(c0, ids, &st0, k0, big),
            buf,
            len,
        ),
        at_record(c1, ids, &st1, k0, big),
        tail_pos(c1, k0, big) == read_start_pos(c0, ids, &st0, k0, big) + rec_len(
            chain_format(big),
            chain_data(big),
            read_start_pos(c0, ids, &st0, k0, big),
        ),
        past_start(c1),
    ensures
        ({
            let small = big.subrange(0, m);
            let p = read_start_pos(c0, ids, &st0, k0, big);
            &&& read_start_pos(c0, ids, &st0, k0, small) == p
            &&& rec_len(chain_format(small), chain_data(small), p) == rec_len(chain_format(big), chain_data(big), p)
            &&& record_read_ok(r, chain_format(small), chain_data(small), p, buf, len)
            &&& at_record(c1, ids, &st1, k0, small)
            &&& tail_pos(c1, k0, small) == tail_pos(c1, k0, big)
        }),
{
    let small = big.subrange(0, m);
    let p = read_start_pos(c0, ids, &st0, k0, big);
    let ds = chain_data(small);
    let db = chain_data(big);
    let f = chain_format(big);
    assert(small[0] == big[0]);
    assert(chain_format(small) == f);
    lemma_ctx_lens(ids, &st0, k0, big);
    lemma_prefix_upto(big, m, m);
    assert(ds == data_upto(big, m));
    lemma_data_upto_prefix(big, m, big.len() as int);
    assert(db.subrange(0, ds.len() as int) == ds);
    // Where the read starts.
    if c0.current is Some {
        assert(on_tail(c0, k0, small));
        let i0 = c0.next - 1 - k0;
        lemma_prefix_upto(big, m, i0);
        assert(read_start_pos(c0, ids, &st0, k0, small) == tail_pos(c0, k0, small));
        assert(read_start_pos(c0, ids, &st0, k0, big) == tail_pos(c0, k0, big));
        lemma_tail_pos(c0, ids, &st0, k0, big);
        lemma_seg_offset(big, 0, i0);
    } else {
        assert(log_start(c0, ids, &st0, k0, small));
        assert(log_start(c0, ids, &st0, k0, big));
    }
    assert(read_start_pos(c0, ids, &st0, k0, small) == p);
    // The record, read in the cut chain.
    let offs = chain_offsets(small);
    let rems = chain_rems(small);
    assert(records_cut_ok(f, ds, offs, rems, p));
    let l = rec_len(f, ds, p);
    let hl = header_len_of(f);
    assert(l >= 1 && p + l <= ds.len() && records_cut_ok(f, ds, offs, rems, p + l));
    assert(hl <= l);
    assert(ds.subrange(p, p + hl) =~= db.subrange(p, p + hl));
    assert(rec_len(f, db, p) == l);
    let n = spec_decode_data_header(f, ds.subrange(p, p + hl)).0;
    assert(ds.subrange(p + hl, p + hl + n) =~= db.subrange(p + hl, p + hl + n));
    // Where the reader is left.
    let i1 = c1.next - 1 - k0;
    assert(on_tail(c1, k0, big));
    lemma_seg_offset(big, 0, i1);
    lemma_seg_offset(big, i1, big.len() as int);
    if i1 >= m {
        lemma_seg_offset(big, m, i1);
        assert(false);
    }
    lemma_prefix_upto(big, m, i1);
    assert(small[i1] == big[i1]);
    assert(tail_pos(c1, k0, small) == tail_pos(c1, k0, big));
    assert(agrees(ids, &st1, k0, small)) by {
        assert forall|j: int| k0 <= j < k0 + small.len() implies match loaded(&st1, #[trigger] ids[j]@) {
            None => true,
            Some(x) => x == Some(small[j - k0]),
        } by {
            assert(small[j - k0] == big[j - k0]);
        }
    }
    assert(chain_ctx(ids, &st1, k0, small));
    assert(on_tail(c1, k0, small));
}

/// A reader that has read nothing, whose first `m` listed segment files
/// are supplied and are the start of a log of one session (other files
/// may follow them; the last record may be cut short where they end), is
/// ready to read that log from its start.
pub proof fn lemma_ready_at_start(s: ReadState, m: int, imgs: Seq<Seq<u8>>)
    requires
        s.wf(),
        s.at_start(),
        1 <= m <= s.listed().len(),
        log_cut_ok(s.listed().subrange(0, m), imgs),
        forall|i: int| 0 <= i < m ==> s.loaded_image(#[trigger] s.listed()[i]@) == Some(Some(imgs[i])),
    ensures
        s.ready_upto(m),
        s.images_upto(m) == imgs,
        s.pos_upto(m) == 0,
{
    let ids = s.ids@;
    let sub = ids.subrange(0, m);
    assert forall|j: int| 0 <= j < 0 + imgs.len() implies match loaded(&s.store, #[trigger] ids[j]@) {
        None => true,
        Some(x) => x == Some(imgs[j - 0]),
    } by {
        assert(s.loaded_image(s.listed()[j]@) == Some(Some(imgs[j])));
    }
    assert forall|j: int| 0 <= j < 0 + m implies (loaded(&s.store, #[trigger] ids[j]@) is Some) by {
        assert(s.loaded_image(s.listed()[j]@) == Some(Some(imgs[j])));
    }
    assert forall|i: int| 0 <= i < imgs.len() implies #[trigger] image_fits(ids.subrange(0, ids.len() as int), imgs, i) by {
        assert(image_fits(sub, imgs, i));
        assert(sub[i] == ids.subrange(0, ids.len() as int)[i]);
        assert(sub[0] == ids.subrange(0, ids.len() as int)[0]);
    }
    assert(chain_ctx(ids, &s.store, 0, imgs));
    lemma_chain_head_usable(ids, &s.store, 0, imgs);
    assert(s.resume_index() == 0);
    assert(s.images_upto(m) =~= imgs) by {
        assert forall|i: int| 0 <= i < m implies s.images_upto(m)[i] == imgs[i] by {
            assert(loaded(&s.store, ids[0 + i]@) == Some(Some(imgs[i])));
        }
    }
    assert(log_start(s.cur, ids, &s.store, 0, imgs));
}

/// Files lost at a jump in sequence numbers: from a file numbered `prev`
/// to one numbered `next`, the count of files reported lost is the count
/// of sequence numbers skipped between them (`next - prev - 1`), and none
/// when `next` follows `prev` or does not come after it.
pub proof fn lemma_seq_lost_counts(prev: u64, next: u64)
    ensures
        prev < next ==> prev + 1 + seq_lost(prev, next) == next,
        next <= prev + 1 ==> seq_lost(prev, next) == 0,
        seq_lost(prev, next) <= next,
{
}

/// The files a read reports lost after a chain (`ReadTruncated` with
/// `lost_after(m)`) are the sequence numbers skipped between the chain's
/// last file and the next listed file: that file's number is the last
/// one's plus one plus the files lost.
pub proof fn lemma_lost_after_counts(s: ReadState, m: int)
    requires
        1 <= m,
        s.next_after_gap(m),
    ensures
        ({
            let last = image_fields(s.images_upto(m).last()).5;
            let j = s.resume_index() + m;
            &&& 0 <= j < s.listed().len()
            &&& s.loaded_image(s.listed()[j]@) matches Some(Some(b)) && (last < image_fields(b).5 ==> last + 1
                + s.lost_after(m) == image_fields(b).5) && (image_fields(b).5 <= last + 1 ==> s.lost_after(m)
                == 0)
        }),
{
}

/// Where the next read resumes: in the open file; or else, from
/// `read_index()` on, past the files that are loaded and do not open
/// (marked missing, shorter than a header, with a header that does not
/// decode or names another segment, or longer than the size they
/// declare), at the first file that is not loaded yet or opens.
pub proof fn lemma_resume_index(s: ReadState)
    requires
        s.wf(),
    ensures
        s.has_current() ==> s.resume_index() == s.read_index(),
        0 <= s.read_index() <= s.resume_index() <= s.listed().len(),
        !s.has_current() ==> forall|k: int|
            s.read_index() <= k < s.resume_index() ==> (s.loaded_image(#[trigger] s.listed()[k]@) matches Some(x)
                && !(x matches Some(b) && image_header_ok(b) && image_fields(b).0 == s.listed()[k]@
                && clamp_len(b.len()) <= image_fields(b).2)),
        !s.has_current() && s.resume_index() < s.listed().len() ==> (s.loaded_image(
            s.listed()[s.resume_index()]@,
        ) is None || (s.loaded_image(s.listed()[s.resume_index()]@) matches Some(Some(b)) && image_header_ok(b)
            && image_fields(b).0 == s.listed()[s.resume_index()]@ && clamp_len(b.len()) <= image_fields(b).2)),
{
    if !s.has_current() {
        lemma_first_stop_bounds(s.ids@, &s.store, s.cur.next as int);
    }
}

/// Recovery: a reader that lost its place (after `ReadTruncated`, or at
/// the end of a session), once the `m` listed segment files from the one
/// it reads next on are supplied and form a chain in a session it
/// accepts, whose first file starts a record inside its data section, is
/// ready to read that chain from that record on (other files may follow
/// the chain; its last record may be cut short). A gap in the log costs
/// the reader no more than the record cut by it.
pub proof fn lemma_ready_resync(s: ReadState, m: int, imgs: Seq<Seq<u8>>)
    requires
        s.wf(),
        s.awaiting_resync(),
        1 <= m,
        s.resume_index() + m <= s.listed().len(),
        tail_cut_ok(s.listed().subrange(s.resume_index(), s.resume_index() + m), imgs, resync_pos(imgs[0])),
        resync_pos(imgs[0]) + SEGMENT_FILE_HEADER_LEN < image_fields(imgs[0]).2,
        s.accepts_session(image_fields(imgs[0]).1),
        forall|i: int|
            0 <= i < m ==> s.loaded_image(#[trigger] s.listed()[s.resume_index() + i]@) == Some(Some(imgs[i])),
    ensures
        s.ready_upto(m),
        s.images_upto(m) == imgs,
        s.pos_upto(m) == resync_pos(imgs[0]),
{
    let ids = s.ids@;
    let k0 = s.resume_index();
    let sub = ids.subrange(k0, k0 + m);
    lemma_first_stop_bounds(ids, &s.store, s.cur.next as int);
    assert(s.images_upto(m) =~= imgs) by {
        assert forall|i: int| 0 <= i < m implies s.images_upto(m)[i] == imgs[i] by {
            assert(loaded(&s.store, ids[k0 + i]@) == Some(Some(imgs[i])));
        }
    }
    assert forall|j: int| k0 <= j < k0 + imgs.len() implies match loaded(&s.store, #[trigger] ids[j]@) {
        None => true,
        Some(x) => x == Some(imgs[j - k0]),
    } by {
        assert(s.loaded_image(s.listed()[k0 + (j - k0)]@) == Some(Some(imgs[j - k0])));
    }
    assert forall|j: int| k0 <= j < k0 + m implies (loaded(&s.store, #[trigger] ids[j]@) is Some) by {
        assert(s.loaded_image(s.listed()[k0 + (j - k0)]@) == Some(Some(imgs[j - k0])));
    }
    assert forall|i: int| 0 <= i < imgs.len() implies #[trigger] image_fits(ids.subrange(k0, ids.len() as int), imgs, i) by {
        assert(image_fits(sub, imgs, i));
        assert(sub[i] == ids.subrange(k0, ids.len() as int)[i]);
        assert(sub[0] == ids.subrange(k0, ids.len() as int)[0]);
    }
    assert(chain_ctx(ids, &s.store, k0, imgs));
    assert(log_start(s.cur, ids, &s.store, k0, imgs));
}

/// A reader standing in a chain of the listed segment files from index
/// `k0` on (other files may follow it), once every file of the chain from
/// the one it reads on is supplied again, is ready to read on: in the
/// images from that file on, at the same place of the stream.
pub proof fn lemma_ready_resume(s: ReadState, k0: int, imgs: Seq<Seq<u8>>, q: int)
    requires
        s.wf(),
        s.follows_from(k0, imgs, q),
        forall|j: int| s.resume_index() <= j < k0 + imgs.len() ==> (s.loaded_image(#[trigger] s.listed()[j]@) is Some),
    ensures
        0 <= s.resume_index() - k0 < imgs.len(),
        s.ready_upto(k0 + imgs.len() - s.resume_index()),
        s.images_upto(k0 + imgs.len() - s.resume_index()) == imgs.subrange(s.resume_index() - k0, imgs.len() as int),
        s.pos_upto(k0 + imgs.len() - s.resume_index()) == q - seg_offset(imgs, s.resume_index() - k0),
{
    let ids = s.ids@;
    let c = s.cur;
    let k1 = s.resume_index();
    let mi = k1 - k0;
    let n = imgs.len();
    let m = k0 + n - k1;
    let tids = ids.subrange(k0, ids.len() as int);
    assert(k1 == c.next - 1);
    let sub = imgs.subrange(mi, n as int);
    assert forall|i: int| 0 <= i < sub.len() implies s.images_upto(m)[i] == sub[i] by {
        assert(s.loaded_image(s.listed()[k1 + i]@) is Some);
        assert(match loaded(&s.store, ids[k1 + i]@) {
            None => true,
            Some(x) => x == Some(imgs[k1 + i - k0]),
        });
    }
    assert(s.images_upto(m) =~= sub);
    lemma_ctx_lens(ids, &s.store, k0, imgs);
    lemma_tail_pos(c, ids, &s.store, k0, imgs);
    lemma_seg_offset(imgs, mi, n as int);
    let cids = tids.subrange(0, n as int);
    assert forall|i: int| 0 <= i < n implies #[trigger] image_fits(cids, imgs, i) by {
        assert(image_fits(tids, imgs, i));
        assert(cids[i] == tids[i]);
        assert(cids[0] == tids[0]);
    }
    lemma_tail_cut_suffix(cids, imgs, q, mi, q);
    assert(tail_cut_ok(cids.subrange(mi, n as int), sub, q - seg_offset(imgs, mi)));
    assert(image_fits(tids, imgs, mi));
    assert forall|j: int| k1 <= j < k1 + sub.len() implies match loaded(&s.store, #[trigger] ids[j]@) {
        None => true,
        Some(x) => x == Some(sub[j - k1]),
    } by {
        assert(match loaded(&s.store, ids[j]@) {
            None => true,
            Some(x) => x == Some(imgs[j - k0]),
        });
    }
    assert forall|i: int| 0 <= i < sub.len() implies #[trigger] image_fits(ids.subrange(k1, ids.len() as int), sub, i) by {
        assert(image_fits(cids.subrange(mi, n as int), sub, i));
        assert(cids.subrange(mi, n as int)[i] == ids.subrange(k1, ids.len() as int)[i]);
        assert(cids.subrange(mi, n as int)[0] == ids.subrange(k1, ids.len() as int)[0]);
    }
    assert(chain_ctx(ids, &s.store, k1, sub));
    assert(on_tail(c, k1, sub));
    lemma_seg_offset(sub, 0, 0);
    assert(tail_pos(c, k1, sub) == q - seg_offset(imgs, mi));
    assert(at_record(c, ids, &s.store, k1, sub));
    assert forall|j: int| k1 <= j < k1 + m implies (loaded(&s.store, #[trigger] ids[j]@) is Some) by {
        assert(s.loaded_image(s.listed()[j]@) is Some);
    }
}

} // verus!

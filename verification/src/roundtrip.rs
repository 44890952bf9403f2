//! Reading back what the writer wrote: each record of the log, read from
//! wherever the reader stands in the chain of segment files, is the
//! message the writer began there.
use crate::chain::{
    chain_data, chain_format, data_upto, image_data, image_fits, lemma_log_cut_of_ok, log_ok, rec_len,
    seg_offset,
};
use crate::error::LogError;
use crate::format::Format;
use crate::header::SEGMENT_FILE_HEADER_LEN;
use crate::read::{header_len_of, lemma_ready_at_start, record_read_ok, ReadResult, ReadState};
use crate::write::{
    flat_recs, lemma_data_header_roundtrip, lemma_flat_prefix, lemma_writer_leaves_log, msg_meta, msg_ok,
    rec_bytes, rec_start, WriteState,
};
use vstd::prelude::*;

verus! {

/// The conditions under which what a writer laid down is a whole log:
/// every record it began was written in full, the header of its last
/// segment file is on disk, and the session has fewer than `u64::MAX`
/// segment files.
pub open spec fn writer_done(w: WriteState) -> bool {
    &&& w.inv()
    &&& w.intact()
    &&& w.spec_record_bytes_left() == 0
    &&& !w.spec_header_pending()
    &&& w.spec_seg_size_max() > SEGMENT_FILE_HEADER_LEN
    &&& w.spec_format() != Format::Fixed(0)
    &&& w.segments().len() < u64::MAX
}

/// The segment files of the writer's log from the `m`-th on.
pub open spec fn images_from(w: WriteState, m: int) -> Seq<Seq<u8>> {
    w.images().subrange(m, w.images().len() as int)
}

/// A reader that has read nothing, whose first listed segment files are
/// the writer's, supplied as the writer laid them down, is ready to read
/// the writer's log from its start (other files may follow it).
pub proof fn lemma_reader_on_writer_log(w: WriteState, s: ReadState)
    requires
        writer_done(w),
        s.wf(),
        s.at_start(),
        w.segments().len() <= s.listed().len(),
        s.listed().subrange(0, w.segments().len() as int) == w.segments(),
        forall|i: int|
            0 <= i < w.segments().len() ==> s.loaded_image(#[trigger] s.listed()[i]@) == Some(
                Some(w.images()[i]),
            ),
    ensures
        s.ready_upto(w.segments().len() as int),
        s.images_upto(w.segments().len() as int) == w.images(),
        s.pos_upto(w.segments().len() as int) == 0,
{
    lemma_writer_leaves_log(w);
    lemma_log_cut_of_ok(w.segments(), w.images());
    lemma_ready_at_start(s, w.segments().len() as int, w.images());
}

/// What a read of message `m` into a buffer of `len` bytes gives back:
/// its length and metadata, or `ReadOverflow` when it does not fit.
pub open spec fn message_read(
    f: Format,
    m: (u32, u64, u64, Seq<u8>),
    r: Result<ReadResult, LogError>,
    buf: Seq<u8>,
    len: nat,
) -> bool {
    if m.0 <= len {
        &&& r == Ok::<ReadResult, LogError>(ReadResult { n: m.0, meta: msg_meta(f, m) })
        &&& buf.subrange(0, m.0 as int) == m.3
    } else {
        &&& r == Err::<ReadResult, LogError>(LogError::ReadOverflow(len as u32))
        &&& buf.subrange(0, len as int) == m.3.subrange(0, len as int)
    }
}

/// Reading back the log a writer left. A reader whose chain is the
/// writer's segment files from the `m`-th on, standing at the start of
/// record `j` (a position inside that first data section), meets the end
/// of the stream when `j` is past the last message; otherwise every
/// outcome the reader's contract allows there is message `j` (payload,
/// length and metadata, or `ReadOverflow` when the buffer is too small),
/// and the next record starts where message `j + 1` does.
pub proof fn lemma_read_back(
    w: WriteState,
    m: int,
    j: int,
    r: Result<ReadResult, LogError>,
    buf: Seq<u8>,
    len: nat,
)
    requires
        writer_done(w),
        0 <= m < w.segments().len(),
        0 <= j <= w.messages().len(),
        seg_offset(w.images(), m) <= rec_start(w.spec_format(), w.messages(), j) <= seg_offset(w.images(), m)
            + image_data(w.images()[m]).len(),
    ensures
        ({
            let f = w.spec_format();
            let msgs = w.messages();
            let sub = images_from(w, m);
            let p = rec_start(f, msgs, j) - seg_offset(w.images(), m);
            &&& chain_format(sub) == f
            &&& j == msgs.len() <==> p >= chain_data(sub).len()
            &&& j < msgs.len() ==> p + rec_len(f, chain_data(sub), p) == rec_start(f, msgs, j + 1) - seg_offset(
                w.images(),
                m,
            )
            &&& j < msgs.len() && record_read_ok(r, f, chain_data(sub), p, buf, len) ==> message_read(
                f,
                msgs[j],
                r,
                buf,
                len,
            )
        }),
{
    let f = w.spec_format();
    let msgs = w.messages();
    let imgs = w.images();
    let ids = w.segments();
    let n = imgs.len();
    let sub = images_from(w, m);
    let base = seg_offset(imgs, m);
    let q = rec_start(f, msgs, j);
    let p = q - base;
    lemma_writer_leaves_log(w);
    let d = chain_data(imgs);
    assert(d == flat_recs(f, msgs));
    assert(log_ok(ids, imgs));
    assert(image_fits(ids, imgs, m));
    assert(image_fits(ids, imgs, 0));
    assert(sub[0] == imgs[m]);
    assert(chain_format(sub) == f);
    crate::chain::lemma_data_suffix(imgs, m, n - m);
    assert(m + (n - m) == n);
    assert(d == data_upto(imgs, m) + chain_data(sub));
    let ds = chain_data(sub);
    assert(ds =~= d.subrange(base, d.len() as int));
    lemma_flat_prefix(f, msgs, j);
    if j < msgs.len() {
        let mj = msgs[j];
        assert(msg_ok(f, mj));
        lemma_data_header_roundtrip(f, mj.0, mj.1, mj.2);
        let hl = header_len_of(f);
        let q1 = rec_start(f, msgs, j + 1);
        lemma_flat_prefix(f, msgs, j + 1);
        let rb = rec_bytes(f, mj);
        assert(d.subrange(q, q1) == rb);
        assert(q1 <= d.len());
        assert(ds.subrange(p, p + hl) =~= d.subrange(q, q + hl));
        assert(d.subrange(q, q + hl) =~= rb.subrange(0, hl as int));
        assert(rb.subrange(0, hl as int) =~= crate::write::spec_data_header_bytes(f, mj.0, mj.1, mj.2));
        assert(rec_len(f, ds, p) == hl + mj.0);
        assert(ds.subrange(p + hl, p + hl + mj.0) =~= d.subrange(q + hl, q1));
        assert(d.subrange(q + hl, q1) =~= rb.subrange(hl as int, rb.len() as int));
        assert(rb.subrange(hl as int, rb.len() as int) =~= mj.3);
        assert(p < ds.len()) by {
            assert(rb.len() >= 1) by {
                match f {
                    Format::Fixed(k) => {
                        assert(mj.3.len() == k);
                    },
                    _ => {},
                }
            }
        }
        if mj.0 > len {
            assert(len < 0x1_0000_0000);
        }
    } else {
        assert(msgs.subrange(0, j) =~= msgs);
    }
}

} // verus!

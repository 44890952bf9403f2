//! The shape of a well-formed log on disk: segment files of one session,
//! in order, whose data sections hold whole records back to back, and
//! whose headers chain by sequence number and record the part of a record
//! each one continues.
use crate::format::Format;
use crate::header::{spec_header_decode, SEGMENT_FILE_HEADER_LEN};
use crate::read::{header_len_of, spec_decode_data_header};
use crate::segid::SegId;
use vstd::prelude::*;

verus! {

/// The decoded header of a segment image: (segment id, session id, max
/// size, remaining, format, sequence).
pub open spec fn image_fields(img: Seq<u8>) -> (u64, u64, u32, u64, Format, u64) {
    spec_header_decode(img.subrange(0, SEGMENT_FILE_HEADER_LEN as int))->Ok_0
}

/// The image is long enough for a header, and the header decodes.
pub open spec fn image_header_ok(img: Seq<u8>) -> bool {
    &&& img.len() >= SEGMENT_FILE_HEADER_LEN
    &&& spec_header_decode(img.subrange(0, SEGMENT_FILE_HEADER_LEN as int)) is Ok
}

/// A reader can open `img` as segment file `id`: its header decodes,
/// names `id`, and the file is no larger than the size it declares.
pub open spec fn image_opens(img: Seq<u8>, id: u64) -> bool {
    &&& image_header_ok(img)
    &&& image_fields(img).0 == id
    &&& img.len() <= image_fields(img).2
}

/// The data section of a segment image: everything after the header.
pub open spec fn image_data(img: Seq<u8>) -> Seq<u8> {
    img.subrange(SEGMENT_FILE_HEADER_LEN as int, img.len() as int)
}

/// The data sections of the first `i` images, back to back.
pub open spec fn data_upto(imgs: Seq<Seq<u8>>, i: int) -> Seq<u8>
    decreases i,
{
    if i <= 0 {
        Seq::empty()
    } else {
        data_upto(imgs, i - 1) + image_data(imgs[i - 1])
    }
}

/// The data sections of all images, back to back: the log's byte stream.
pub open spec fn chain_data(imgs: Seq<Seq<u8>>) -> Seq<u8> {
    data_upto(imgs, imgs.len() as int)
}

/// Where the data section of image `i` starts in the byte stream.
pub open spec fn seg_offset(imgs: Seq<Seq<u8>>, i: int) -> int {
    data_upto(imgs, i).len() as int
}

/// The `remaining` field of each image's header.
pub open spec fn chain_rems(imgs: Seq<Seq<u8>>) -> Seq<u64> {
    Seq::new(imgs.len(), |i: int| image_fields(imgs[i]).3)
}

/// The start of each image's data section in the byte stream.
pub open spec fn chain_offsets(imgs: Seq<Seq<u8>>) -> Seq<int> {
    Seq::new(imgs.len(), |i: int| seg_offset(imgs, i))
}

/// The format of the chain: that of its first image.
pub open spec fn chain_format(imgs: Seq<Seq<u8>>) -> Format {
    image_fields(imgs[0]).4
}

/// Bytes taken by the record starting at `p` of `d`: its data header
/// and the payload length that header gives.
pub open spec fn rec_len(f: Format, d: Seq<u8>, p: int) -> int {
    header_len_of(f) + spec_decode_data_header(f, d.subrange(p, p + header_len_of(f))).0
}

/// From `p` on, `d` holds whole records back to back up to its end, and
/// every data section after the first that starts at or inside one of
/// them says in `remaining` how much of that record is left (zero where
/// the record starts).
pub open spec fn records_ok(f: Format, d: Seq<u8>, offs: Seq<int>, rems: Seq<u64>, p: int) -> bool
    decreases d.len() - p,
{
    if p >= d.len() {
        &&& p == d.len()
        &&& forall|i: int| 1 <= i < offs.len() && offs[i] == p ==> rems[i] == 0
    } else {
        let l = rec_len(f, d, p);
        if l >= 1 && p + l <= d.len() {
            &&& forall|i: int| 1 <= i < offs.len() && offs[i] == p ==> rems[i] == 0
            &&& forall|i: int| 1 <= i < offs.len() && p < offs[i] < p + l ==> rems[i] == p + l - offs[i]
            &&& records_ok(f, d, offs, rems, p + l)
        } else {
            false
        }
    }
}

/// The record starting at `p` of `d` lies whole in `d`: its data header
/// and its payload.
pub open spec fn whole_at(f: Format, d: Seq<u8>, p: int) -> bool {
    &&& 0 <= p
    &&& p + header_len_of(f) <= d.len()
    &&& rec_len(f, d, p) >= 1
    &&& p + rec_len(f, d, p) <= d.len()
}

/// As `records_ok`, except that the last record may be cut short by the
/// end of `d` (its tail lies beyond the run of data sections at hand);
/// once its data header is whole, the data sections that start inside it
/// still mark how much of it is left.
pub open spec fn records_cut_ok(f: Format, d: Seq<u8>, offs: Seq<int>, rems: Seq<u64>, p: int) -> bool
    decreases d.len() - p,
{
    if p >= d.len() {
        &&& p == d.len()
        &&& forall|i: int| 1 <= i < offs.len() && offs[i] == p ==> rems[i] == 0
    } else {
        &&& forall|i: int| 1 <= i < offs.len() && offs[i] == p ==> rems[i] == 0
        &&& p + header_len_of(f) <= d.len() && rec_len(f, d, p) >= 1 ==> forall|i: int|
            1 <= i < offs.len() && p < offs[i] < p + rec_len(f, d, p) ==> rems[i] == p + rec_len(f, d, p)
                - offs[i]
        &&& whole_at(f, d, p) ==> records_cut_ok(f, d, offs, rems, p + rec_len(f, d, p))
    }
}

/// Whole records are, in particular, records of which the last may be cut.
pub proof fn lemma_records_cut_of_ok(f: Format, d: Seq<u8>, offs: Seq<int>, rems: Seq<u64>, p: int)
    requires
        records_ok(f, d, offs, rems, p),
        0 <= p,
    ensures
        records_cut_ok(f, d, offs, rems, p),
        p < d.len() ==> whole_at(f, d, p),
    decreases d.len() - p,
{
    if p < d.len() {
        let l = rec_len(f, d, p);
        assert(header_len_of(f) <= l);
        lemma_records_cut_of_ok(f, d, offs, rems, p + l);
    }
}

/// A run of segment files read from position `q` of its byte stream, as
/// `tail_ok`, except that its last record may be cut short.
pub open spec fn tail_cut_ok(ids: Seq<SegId>, imgs: Seq<Seq<u8>>, q: int) -> bool {
    &&& ids.len() == imgs.len()
    &&& imgs.len() >= 1
    &&& forall|i: int| 0 <= i < imgs.len() ==> #[trigger] image_fits(ids, imgs, i)
    &&& 0 <= q <= image_data(imgs[0]).len()
    &&& records_cut_ok(chain_format(imgs), chain_data(imgs), chain_offsets(imgs), chain_rems(imgs), q)
}

/// The start of a log of one session, as `log_ok`, except that its last
/// record may be cut short (the files that would hold its tail are not at
/// hand).
pub open spec fn log_cut_ok(ids: Seq<SegId>, imgs: Seq<Seq<u8>>) -> bool {
    &&& tail_cut_ok(ids, imgs, 0)
    &&& image_fields(imgs[0]).3 == 0
    &&& image_fields(imgs[0]).2 > SEGMENT_FILE_HEADER_LEN
}

/// A whole log is in particular one whose last record may be cut.
pub proof fn lemma_log_cut_of_ok(ids: Seq<SegId>, imgs: Seq<Seq<u8>>)
    requires
        log_ok(ids, imgs),
    ensures
        log_cut_ok(ids, imgs),
{
    lemma_records_cut_of_ok(chain_format(imgs), chain_data(imgs), chain_offsets(imgs), chain_rems(imgs), 0);
}

/// A chain read as records that may end cut, from a later record boundary,
/// is read the same way from the part of the stream that starts at
/// `base`, with the data sections from `m` on.
pub proof fn lemma_records_cut_shift(
    f: Format,
    d: Seq<u8>,
    offs: Seq<int>,
    rems: Seq<u64>,
    p: int,
    base: int,
    m: int,
    d2: Seq<u8>,
    offs2: Seq<int>,
    rems2: Seq<u64>,
)
    requires
        records_cut_ok(f, d, offs, rems, p),
        0 <= base <= p,
        0 <= m <= offs.len(),
        base <= d.len(),
        d2 == d.subrange(base, d.len() as int),
        offs2.len() == offs.len() - m,
        rems2.len() == offs2.len(),
        forall|i: int| 0 <= i < offs2.len() ==> offs2[i] == offs[m + i] - base && rems2[i] == rems[m + i],
    ensures
        records_cut_ok(f, d2, offs2, rems2, p - base),
    decreases d.len() - p,
{
    assert forall|i: int| 1 <= i < offs2.len() && offs2[i] == p - base implies rems2[i] == 0 by {
        assert(offs[m + i] == p);
    }
    if p < d.len() {
        let h = header_len_of(f);
        if p + h <= d.len() {
            assert(d2.subrange(p - base, p - base + h) =~= d.subrange(p, p + h));
        }
        if p + h <= d.len() {
            let l = rec_len(f, d, p);
            assert(rec_len(f, d2, p - base) == l);
            if l >= 1 {
                assert forall|i: int| 1 <= i < offs2.len() && p - base < offs2[i] < p - base + l implies rems2[i]
                    == p - base + l - offs2[i] by {
                    assert(p < offs[m + i] < p + l);
                }
            }
            if whole_at(f, d, p) {
                lemma_records_cut_shift(f, d, offs, rems, p + l, base, m, d2, offs2, rems2);
                assert(p + l - base == p - base + l);
            }
        }
        assert(whole_at(f, d2, p - base) ==> whole_at(f, d, p));
    }
}

/// Image `i` is a segment of the chain: its header decodes, names the
/// listed identifier, shares session and format with the first image,
/// numbers itself one past its predecessor, and the file fits its
/// declared size.
pub open spec fn image_fits(ids: Seq<SegId>, imgs: Seq<Seq<u8>>, i: int) -> bool {
    let t = image_fields(imgs[i]);
    let t0 = image_fields(imgs[0]);
    &&& image_header_ok(imgs[i])
    &&& t.0 == ids[i]@
    &&& t.1 == t0.1
    &&& t.4 == t0.4
    &&& t.5 == t0.5 + i
    &&& imgs[i].len() <= t.2
}

/// A run of segment files `ids` with images `imgs`, read from position
/// `q` of its byte stream (a record boundary in the first data section):
/// every image fits the chain, and whole, consistently marked records
/// follow `q` to the end.
pub open spec fn tail_ok(ids: Seq<SegId>, imgs: Seq<Seq<u8>>, q: int) -> bool {
    &&& ids.len() == imgs.len()
    &&& imgs.len() >= 1
    &&& forall|i: int| 0 <= i < imgs.len() ==> #[trigger] image_fits(ids, imgs, i)
    &&& 0 <= q <= image_data(imgs[0]).len()
    &&& records_ok(chain_format(imgs), chain_data(imgs), chain_offsets(imgs), chain_rems(imgs), q)
}

/// A whole log of one session as the writer leaves it: a chain read from
/// the start of its first data section, which begins with a record and
/// has room for data.
pub open spec fn log_ok(ids: Seq<SegId>, imgs: Seq<Seq<u8>>) -> bool {
    &&& tail_ok(ids, imgs, 0)
    &&& image_fields(imgs[0]).3 == 0
    &&& image_fields(imgs[0]).2 > SEGMENT_FILE_HEADER_LEN
}

/// Offsets grow with the image index; the last offset is the stream's
/// length; one data section follows the other.
pub proof fn lemma_seg_offset(imgs: Seq<Seq<u8>>, i: int, j: int)
    requires
        0 <= i <= j <= imgs.len(),
        forall|k: int| 0 <= k < imgs.len() ==> (#[trigger] imgs[k]).len() >= SEGMENT_FILE_HEADER_LEN,
    ensures
        seg_offset(imgs, i) <= seg_offset(imgs, j),
        seg_offset(imgs, imgs.len() as int) == chain_data(imgs).len(),
        i < imgs.len() ==> seg_offset(imgs, i + 1) == seg_offset(imgs, i) + image_data(imgs[i]).len(),
        seg_offset(imgs, 0) == 0,
    decreases j - i,
{
    if i < j {
        lemma_seg_offset(imgs, i + 1, j);
    }
}

/// The data section of image `i` sits in the byte stream at its offset.
pub proof fn lemma_chain_data_at(imgs: Seq<Seq<u8>>, i: int, a: int, b: int)
    requires
        0 <= i < imgs.len(),
        0 <= a <= b <= image_data(imgs[i]).len(),
        forall|k: int| 0 <= k < imgs.len() ==> (#[trigger] imgs[k]).len() >= SEGMENT_FILE_HEADER_LEN,
    ensures
        seg_offset(imgs, i) + b <= chain_data(imgs).len(),
        chain_data(imgs).subrange(seg_offset(imgs, i) + a, seg_offset(imgs, i) + b) == image_data(
            imgs[i],
        ).subrange(a, b),
{
    lemma_data_upto_prefix(imgs, i + 1, imgs.len() as int);
    let d = chain_data(imgs);
    let u = data_upto(imgs, i + 1);
    assert(u == data_upto(imgs, i) + image_data(imgs[i]));
    assert(d.subrange(0, u.len() as int) == u);
    assert(d.subrange(seg_offset(imgs, i) + a, seg_offset(imgs, i) + b) =~= u.subrange(
        seg_offset(imgs, i) + a,
        seg_offset(imgs, i) + b,
    ));
    assert(u.subrange(seg_offset(imgs, i) + a, seg_offset(imgs, i) + b) =~= image_data(
        imgs[i],
    ).subrange(a, b));
}

/// A shorter concatenation is a prefix of a longer one.
pub proof fn lemma_data_upto_prefix(imgs: Seq<Seq<u8>>, i: int, j: int)
    requires
        0 <= i <= j <= imgs.len(),
    ensures
        data_upto(imgs, i).len() <= data_upto(imgs, j).len(),
        data_upto(imgs, j).subrange(0, data_upto(imgs, i).len() as int) == data_upto(imgs, i),
    decreases j - i,
{
    if i < j {
        lemma_data_upto_prefix(imgs, i, j - 1);
        let a = data_upto(imgs, i);
        let b = data_upto(imgs, j - 1);
        assert(data_upto(imgs, j) == b + image_data(imgs[j - 1]));
        assert(data_upto(imgs, j).subrange(0, a.len() as int) =~= b.subrange(0, a.len() as int));
    } else {
        assert(data_upto(imgs, j).subrange(0, data_upto(imgs, i).len() as int) =~= data_upto(imgs, i));
    }
}

/// The data sections from image `m` on, back to back, continue the
/// stream of the first `m`.
pub proof fn lemma_data_suffix(imgs: Seq<Seq<u8>>, m: int, i: int)
    requires
        0 <= m <= imgs.len(),
        0 <= i <= imgs.len() - m,
    ensures
        data_upto(imgs, m + i) == data_upto(imgs, m) + data_upto(imgs.subrange(m, imgs.len() as int), i),
    decreases i,
{
    let sub = imgs.subrange(m, imgs.len() as int);
    if i > 0 {
        lemma_data_suffix(imgs, m, i - 1);
        assert(sub[i - 1] == imgs[m + i - 1]);
        assert(data_upto(imgs, m + i) =~= data_upto(imgs, m) + data_upto(sub, i));
    } else {
        assert(data_upto(imgs, m) + data_upto(sub, 0) =~= data_upto(imgs, m));
    }
}

/// As `lemma_tail_cut_suffix`, for chains whose last record may be cut.
pub proof fn lemma_tail_cut_suffix(ids: Seq<SegId>, imgs: Seq<Seq<u8>>, q: int, m: int, p: int)
    requires
        ids.len() == imgs.len(),
        imgs.len() >= 1,
        forall|i: int| 0 <= i < imgs.len() ==> #[trigger] image_fits(ids, imgs, i),
        0 <= m < imgs.len(),
        records_cut_ok(chain_format(imgs), chain_data(imgs), chain_offsets(imgs), chain_rems(imgs), p),
        seg_offset(imgs, m) <= p <= seg_offset(imgs, m) + image_data(imgs[m]).len(),
    ensures
        tail_cut_ok(
            ids.subrange(m, ids.len() as int),
            imgs.subrange(m, imgs.len() as int),
            p - seg_offset(imgs, m),
        ),
        chain_data(imgs.subrange(m, imgs.len() as int)) == chain_data(imgs).subrange(
            seg_offset(imgs, m),
            chain_data(imgs).len() as int,
        ),
        chain_format(imgs.subrange(m, imgs.len() as int)) == chain_format(imgs),
{
    let sub = imgs.subrange(m, imgs.len() as int);
    let sids = ids.subrange(m, ids.len() as int);
    let base = seg_offset(imgs, m);
    let n = imgs.len() - m;
    assert forall|k: int| 0 <= k < imgs.len() implies (#[trigger] imgs[k]).len() >= SEGMENT_FILE_HEADER_LEN by {
        assert(image_fits(ids, imgs, k));
    }
    lemma_data_suffix(imgs, m, n);
    assert(m + n == imgs.len());
    let d = chain_data(imgs);
    assert(d == data_upto(imgs, m) + chain_data(sub));
    assert(chain_data(sub) =~= d.subrange(base, d.len() as int));
    assert(image_fits(ids, imgs, m));
    assert forall|i: int| 0 <= i < sub.len() implies #[trigger] image_fits(sids, sub, i) by {
        assert(image_fits(ids, imgs, m + i));
        assert(sub[i] == imgs[m + i]);
        assert(sids[i] == ids[m + i]);
        assert(sub[0] == imgs[m]);
    }
    let offs2 = chain_offsets(sub);
    let rems2 = chain_rems(sub);
    assert forall|i: int| 0 <= i < offs2.len() implies offs2[i] == chain_offsets(imgs)[m + i] - base
        && rems2[i] == chain_rems(imgs)[m + i] by {
        lemma_data_suffix(imgs, m, i);
        assert(sub[i] == imgs[m + i]);
    }
    assert(sub[0] == imgs[m]);
    assert(chain_format(sub) == chain_format(imgs)) by {
        assert(image_fits(ids, imgs, m));
    }
    lemma_records_cut_shift(
        chain_format(imgs),
        d,
        chain_offsets(imgs),
        chain_rems(imgs),
        p,
        base,
        m,
        chain_data(sub),
        offs2,
        rems2,
    );
    assert(image_data(sub[0]).len() == image_data(imgs[m]).len());
}

/// A header that decodes never declares fixed records of zero bytes.
pub proof fn lemma_image_format_ok(img: Seq<u8>)
    requires
        image_header_ok(img),
    ensures
        image_fields(img).4 != Format::Fixed(0),
{
}

} // verus!

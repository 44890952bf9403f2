//! Text the log dump prints: record payloads as text, the lines around
//! them and segment headers.
use crate::error::LogError;
use crate::format::{record_trailer, trailer_text, Format, Meta};
use crate::read::ReadResult;
use crate::header::SegmentHeader;
use crate::segid::segid_text;
use crate::text::{dec_text, push_char, push_decimal, push_str};
use vstd::prelude::*;
use vstd::slice::slice_subrange;
use vstd::utf8::*;

verus! {

/// Size of the buffer the dump reads record payloads into.
pub const MAX_MESSAGE_SIZE: usize = 256;

/// Each byte taken as the character with that code (Latin-1).
pub open spec fn latin1_text(b: Seq<u8>) -> Seq<char> {
    b.map_values(|x: u8| x as char)
}

/// What `String::from_utf8_lossy` makes of `b`.
pub uninterp spec fn utf8_lossy_text(b: Seq<u8>) -> Seq<char>;

/// `String::from_utf8_lossy`: the bytes decoded as UTF-8, each invalid
/// sequence replaced by U+FFFD. Of valid UTF-8 its documentation says
/// that the text is the decoding; where the replacements fall in invalid
/// input is left to the name `utf8_lossy_text`.
#[verifier::external_body]
fn utf8_lossy(buf: &[u8]) -> (r: String)
    ensures
        r@ == utf8_lossy_text(buf@),
        valid_utf8(buf@) ==> r@ == decode_utf8(buf@),
{
    String::from_utf8_lossy(buf).to_string()
}

/// A payload as printed: decoded as UTF-8 (invalid sequences replaced)
/// in text mode, else byte by byte.
pub open spec fn msg_text(as_text: bool, b: Seq<u8>) -> Seq<char> {
    if as_text {
        utf8_lossy_text(b)
    } else {
        latin1_text(b)
    }
}

/// Renders a payload for printing: as UTF-8 text when `as_text`, else
/// each byte as the character with that code.
pub fn format_msg(as_text: bool, buf: &[u8]) -> (r: String)
    ensures
        r@ == msg_text(as_text, buf@),
        as_text && valid_utf8(buf@) ==> r@ == decode_utf8(buf@),
{
    if as_text {
        utf8_lossy(buf)
    } else {
        let mut text = String::new();
        let mut i: usize = 0;
        while i < buf.len()
            invariant
                0 <= i <= buf@.len(),
                text@ == latin1_text(buf@.subrange(0, i as int)),
            decreases buf@.len() - i,
        {
            push_char(&mut text, buf[i] as char);
            assert(latin1_text(buf@.subrange(0, i + 1)) =~= latin1_text(buf@.subrange(0, i as int)).push(
                buf@[i as int] as char,
            ));
            i = i + 1;
        }
        assert(buf@.subrange(0, buf@.len() as int) =~= buf@);
        text
    }
}

/// The line printed for a whole record: indented payload, then the
/// trailer with its length and metadata.
pub open spec fn record_line_text(as_text: bool, meta: Meta, b: Seq<u8>) -> Seq<char> {
    "    "@ + msg_text(as_text, b) + " "@ + trailer_text(b.len(), meta)
}

/// Builds the line printed for a whole record.
pub fn record_line(as_text: bool, meta: Meta, buf: &[u8]) -> (r: String)
    ensures
        r@ == record_line_text(as_text, meta, buf@),
{
    let mut out = String::new();
    push_str(&mut out, "    ");
    let msg = format_msg(as_text, buf);
    push_str(&mut out, msg.as_str());
    push_str(&mut out, " ");
    let t = record_trailer(buf.len(), meta);
    push_str(&mut out, t.as_str());
    out
}

/// The line printed for the leading bytes of a record too large for the
/// buffer: only what was captured is stated.
pub open spec fn partial_line_text(as_text: bool, b: Seq<u8>) -> Seq<char> {
    "    "@ + msg_text(as_text, b) + " ("@ + dec_text(b.len()) + " bytes captured, record truncated)"@
}

/// Builds the line printed for a record that did not fit the buffer.
pub fn partial_record_line(as_text: bool, buf: &[u8]) -> (r: String)
    ensures
        r@ == partial_line_text(as_text, buf@),
{
    let mut out = String::new();
    push_str(&mut out, "    ");
    let msg = format_msg(as_text, buf);
    push_str(&mut out, msg.as_str());
    push_str(&mut out, " (");
    push_decimal(buf.len() as u64, &mut out);
    push_str(&mut out, " bytes captured, record truncated)");
    out
}

/// Name of a format as its debug form prints it: `Fixed(n)`,
/// `VariableSimple` or `VariableTsRc`.
pub open spec fn format_name(f: Format) -> Seq<char> {
    match f {
        Format::Fixed(n) => "Fixed("@ + dec_text(n as nat) + ")"@,
        Format::VariableSimple => "VariableSimple"@,
        Format::VariableTsRc => "VariableTsRc"@,
    }
}

/// The format line of a header block names the header's own format:
/// distinct formats get distinct names; `VariableSimple` and
/// `VariableTsRc` are named by those words and nothing else is; a fixed
/// format is named `Fixed(` then its record length in decimal digits,
/// which read back as that length, then `)`.
pub proof fn lemma_format_name_names(f: Format, g: Format)
    ensures
        format_name(f) == format_name(g) <==> f == g,
        (f == Format::VariableSimple) <==> format_name(f) == "VariableSimple"@,
        (f == Format::VariableTsRc) <==> format_name(f) == "VariableTsRc"@,
        f matches Format::Fixed(n) ==> ({
            let t = format_name(f);
            &&& t.len() >= 8
            &&& t.subrange(0, 6) == "Fixed("@
            &&& t.last() == ')'
            &&& crate::radix::digits_value(t.subrange(6, t.len() - 1), 10) == Some(n as nat)
        }),
{
    reveal_strlit("VariableSimple");
    reveal_strlit("VariableTsRc");
    reveal_strlit("Fixed(");
    reveal_strlit(")");
    assert forall|n: u32| ({
        let t = #[trigger] format_name(Format::Fixed(n));
        &&& t.len() >= 8
        &&& t.subrange(0, 6) == "Fixed("@
        &&& t.last() == ')'
        &&& t[0] == 'F'
        &&& t.subrange(6, t.len() - 1) == dec_text(n as nat)
        &&& crate::radix::digits_value(t.subrange(6, t.len() - 1), 10) == Some(n as nat)
    }) by {
        crate::gen::lemma_dec_text_reads_back(n as nat);
        let t = format_name(Format::Fixed(n));
        let d = dec_text(n as nat);
        assert(t == "Fixed("@ + d + ")"@);
        assert(t.subrange(0, 6) =~= "Fixed("@);
        assert(t.subrange(6, t.len() - 1) =~= d);
    }
    assert("VariableSimple"@[0] == 'V' && "VariableTsRc"@[0] == 'V');
    assert("VariableSimple"@ != "VariableTsRc"@) by {
        assert("VariableSimple"@.len() != "VariableTsRc"@.len());
    }
    if format_name(f) == format_name(g) {
        match (f, g) {
            (Format::Fixed(a), Format::Fixed(b)) => {
                assert(Some(a as nat) == Some(b as nat));
            },
            (Format::Fixed(_), _) => {
                assert(format_name(f)[0] == 'F');
            },
            (_, Format::Fixed(_)) => {
                assert(format_name(g)[0] == 'F');
            },
            _ => {},
        }
    }
    if f is Fixed {
        assert(format_name(f)[0] == 'F');
    }
}

fn push_format_name(f: Format, out: &mut String)
    ensures
        final(out)@ == old(out)@ + format_name(f),
{
    match f {
        Format::Fixed(n) => {
            push_str(out, "Fixed(");
            push_decimal(n as u64, out);
            push_str(out, ")");
        },
        Format::VariableSimple => push_str(out, "VariableSimple"),
        Format::VariableTsRc => push_str(out, "VariableTsRc"),
    }
}

/// The block printed for a segment header: the file name, then one
/// indented line per field.
pub open spec fn header_block_text(prefix: Seq<char>, suffix: Seq<char>, h: SegmentHeader) -> Seq<char> {
    "=== segment file: "@ + prefix + segid_text(h.segment_id@) + suffix + " ===\n"@
        + "    segment_id: "@ + segid_text(h.segment_id@) + "\n"@
        + "    session_id: "@ + segid_text(h.session_id@) + "\n"@
        + "    max_size:   "@ + dec_text(h.max_size as nat) + "\n"@
        + "    remaining:  "@ + dec_text(h.remaining as nat) + "\n"@
        + "    format:     "@ + format_name(h.format) + "\n"@
        + "    sequence:   "@ + dec_text(h.sequence@ as nat) + "\n"@
}

/// Builds the block printed for a segment header.
pub fn header_block(prefix: &str, suffix: &str, h: &SegmentHeader) -> (r: String)
    ensures
        r@ == header_block_text(prefix@, suffix@, *h),
{
    let seg = h.segment_id.to_string();
    let sess = h.session_id.to_string();
    let seq = h.sequence.to_string();
    let mut out = String::new();
    push_str(&mut out, "=== segment file: ");
    push_str(&mut out, prefix);
    push_str(&mut out, seg.as_str());
    push_str(&mut out, suffix);
    push_str(&mut out, " ===\n");
    push_str(&mut out, "    segment_id: ");
    push_str(&mut out, seg.as_str());
    push_str(&mut out, "\n");
    push_str(&mut out, "    session_id: ");
    push_str(&mut out, sess.as_str());
    push_str(&mut out, "\n");
    push_str(&mut out, "    max_size:   ");
    push_decimal(h.max_size as u64, &mut out);
    push_str(&mut out, "\n");
    push_str(&mut out, "    remaining:  ");
    push_decimal(h.remaining, &mut out);
    push_str(&mut out, "\n");
    push_str(&mut out, "    format:     ");
    push_format_name(h.format, &mut out);
    push_str(&mut out, "\n");
    push_str(&mut out, "    sequence:   ");
    push_str(&mut out, seq.as_str());
    push_str(&mut out, "\n");
    out
}

/// What the dump does after one read.
pub enum DumpStep {
    /// Print this text and read on.
    Print(String),
    /// The log is exhausted: stop reading.
    Stop,
    /// The read failed for a reason the dump does not handle: stop with
    /// that error.
    Fail,
}

/// Running counts of a dump: records shown, segment files lost, and
/// whether a header has been printed yet.
pub struct DumpTally {
    /// Records shown, whole or cut short.
    pub total: u64,
    /// Segment files that sequence gaps account for.
    pub files_lost: u64,
    /// A segment header has been printed.
    pub printed_header: bool,
}

/// The line printed, in verbose mode, for a gap of `lost` files.
pub open spec fn gap_line_text(lost: u64) -> Seq<char> {
    if lost > 0 {
        "    -- "@ + dec_text(lost as nat) + " missing segment file(s); resynchronizing --\n"@
    } else {
        "    -- corrupted or truncated segment file; resynchronizing --\n"@
    }
}

/// The note printed, in verbose mode, after a record cut short.
pub open spec fn overflow_note_text(n: u32) -> Seq<char> {
    "    (payload larger than 256-byte buffer; "@ + dec_text(n as nat)
        + " bytes captured, remainder discarded)\n"@
}

/// The closing summary of a verbose dump.
pub open spec fn summary_text(total: u64, opened: u64, lost: u64) -> Seq<char> {
    "\nread "@ + dec_text(total as nat) + " message(s) across "@ + dec_text(opened as nat)
        + " file(s)\n"@ + if lost > 0 {
        dec_text(lost as nat) + " segment file(s) lost\n"@
    } else {
        Seq::empty()
    }
}

impl DumpTally {
    /// Nothing shown yet.
    pub fn new() -> (r: DumpTally)
        ensures
            r.total == 0,
            r.files_lost == 0,
            !r.printed_header,
    {
        DumpTally { total: 0, files_lost: 0, printed_header: false }
    }

    /// Text for a segment header: the header block, after a blank line
    /// unless it is the first one.
    pub fn header_text(&mut self, prefix: &str, suffix: &str, h: &SegmentHeader) -> (r: String)
        ensures
            r@ == (if old(self).printed_header {
                "\n"@
            } else {
                Seq::empty()
            }) + header_block_text(prefix@, suffix@, *h),
            final(self).printed_header,
            final(self).total == old(self).total,
            final(self).files_lost == old(self).files_lost,
    {
        let mut out = String::new();
        if self.printed_header {
            push_str(&mut out, "\n");
        }
        self.printed_header = true;
        let b = header_block(prefix, suffix, h);
        push_str(&mut out, b.as_str());
        out
    }

    /// What to do with the outcome of a read into `buf`: print a record
    /// (whole, or what was captured of one too large), note a gap or the
    /// end of a session in verbose mode, stop at the end of the log, or
    /// fail on any other error.
    pub fn on_read(
        &mut self,
        res: &Result<ReadResult, LogError>,
        buf: &[u8],
        as_text: bool,
        verbose: bool,
    ) -> (r: DumpStep)
        requires
            match res {
                Ok(rr) => rr.n <= buf@.len() && old(self).total < u64::MAX,
                Err(LogError::ReadOverflow(n)) => n <= buf@.len() && old(self).total < u64::MAX,
                Err(LogError::ReadTruncated(lost)) => old(self).files_lost + *lost <= u64::MAX,
                _ => true,
            },
        ensures
            final(self).printed_header == old(self).printed_header,
            match res {
                Ok(rr) => {
                    &&& final(self).total == old(self).total + 1
                    &&& final(self).files_lost == old(self).files_lost
                    &&& r matches DumpStep::Print(t) && t@ == record_line_text(
                        as_text,
                        rr.meta,
                        buf@.subrange(0, rr.n as int),
                    ) + "\n"@
                },
                Err(LogError::ReadOverflow(n)) => {
                    &&& final(self).total == old(self).total + 1
                    &&& final(self).files_lost == old(self).files_lost
                    &&& r matches DumpStep::Print(t) && t@ == partial_line_text(
                        as_text,
                        buf@.subrange(0, n as int),
                    ) + "\n"@ + if verbose {
                        overflow_note_text(*n)
                    } else {
                        Seq::empty()
                    }
                },
                Err(LogError::ReadTruncated(lost)) => {
                    &&& final(self).total == old(self).total
                    &&& final(self).files_lost == old(self).files_lost + *lost
                    &&& r matches DumpStep::Print(t) && t@ == if verbose {
                        gap_line_text(*lost)
                    } else {
                        Seq::empty()
                    }
                },
                Err(LogError::SessionEnd) => {
                    &&& final(self).total == old(self).total
                    &&& final(self).files_lost == old(self).files_lost
                    &&& r matches DumpStep::Print(t) && t@ == if verbose {
                        "\n--- End of Session---\n"@
                    } else {
                        Seq::empty()
                    }
                },
                Err(LogError::Eof) => {
                    &&& final(self).total == old(self).total
                    &&& final(self).files_lost == old(self).files_lost
                    &&& r is Stop
                },
                Err(_) => {
                    &&& final(self).total == old(self).total
                    &&& final(self).files_lost == old(self).files_lost
                    &&& r is Fail
                },
            },
    {
        match res {
            Ok(rr) => {
                self.total = self.total + 1;
                let part = slice_subrange(buf, 0, rr.n as usize);
                let mut out = record_line(as_text, rr.meta, part);
                push_str(&mut out, "\n");
                DumpStep::Print(out)
            },
            Err(LogError::ReadOverflow(n)) => {
                self.total = self.total + 1;
                let part = slice_subrange(buf, 0, *n as usize);
                let mut out = partial_record_line(as_text, part);
                push_str(&mut out, "\n");
                if verbose {
                    push_str(&mut out, "    (payload larger than 256-byte buffer; ");
                    push_decimal(*n as u64, &mut out);
                    push_str(&mut out, " bytes captured, remainder discarded)\n");
                }
                DumpStep::Print(out)
            },
            Err(LogError::ReadTruncated(lost)) => {
                self.files_lost = self.files_lost + *lost;
                let mut out = String::new();
                if verbose {
                    if *lost > 0 {
                        push_str(&mut out, "    -- ");
                        push_decimal(*lost, &mut out);
                        push_str(&mut out, " missing segment file(s); resynchronizing --\n");
                    } else {
                        push_str(
                            &mut out,
                            "    -- corrupted or truncated segment file; resynchronizing --\n",
                        );
                    }
                }
                DumpStep::Print(out)
            },
            Err(LogError::SessionEnd) => {
                let mut out = String::new();
                if verbose {
                    push_str(&mut out, "\n--- End of Session---\n");
                }
                DumpStep::Print(out)
            },
            Err(LogError::Eof) => DumpStep::Stop,
            Err(_) => DumpStep::Fail,
        }
    }

    /// The closing summary of a verbose dump, given how many segment files
    /// the reader opened.
    pub fn summary(&self, segments_opened: u64) -> (r: String)
        ensures
            r@ == summary_text(self.total, segments_opened, self.files_lost),
    {
        let mut out = String::new();
        push_str(&mut out, "\nread ");
        push_decimal(self.total, &mut out);
        push_str(&mut out, " message(s) across ");
        push_decimal(segments_opened, &mut out);
        push_str(&mut out, " file(s)\n");
        if self.files_lost > 0 {
            push_decimal(self.files_lost, &mut out);
            push_str(&mut out, " segment file(s) lost\n");
        }
        out
    }
}

} // verus!

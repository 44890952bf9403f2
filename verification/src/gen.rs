//! Record-format specifications for generated logs (`KIND:LEN` or
//! `KIND:MIN..MAX`), their text form and parser, and the payloads of
//! generated records.
use crate::format::{pad_dec, pow10, Format, RecSize};
use crate::header::SEGMENT_FILE_HEADER_LEN;
use crate::segid::ascii_bytes;
use crate::radix::{digits_value, radix_digit, spec_radix_value};
use crate::text::{dec_char, dec_fixed, dec_text, push_dec_fixed, push_decimal, push_str};
use vstd::prelude::*;

verus! {

/// User-facing record-format specification: the on-disk [`Format`]
/// together with the payload-size range a generator produces.
#[derive(Copy, Clone, Debug, PartialEq, Eq, Structural)]
pub enum RecordFormatSpec {
    /// Every generated record is exactly `n` bytes long.
    Fixed(RecSize),
    /// `Format::VariableSimple` records whose payload length cycles
    /// through `[min, max]`.
    VariableSimple { min: RecSize, max: RecSize },
    /// `Format::VariableTsRc` records whose payload length cycles
    /// through `[min, max]`.
    VariableTsRc { min: RecSize, max: RecSize },
}

impl RecordFormatSpec {
    /// Smallest payload size the specification allows.
    pub open spec fn spec_min(self) -> RecSize {
        match self {
            RecordFormatSpec::Fixed(n) => n,
            RecordFormatSpec::VariableSimple { min, .. } => min,
            RecordFormatSpec::VariableTsRc { min, .. } => min,
        }
    }

    /// Largest payload size the specification allows.
    pub open spec fn spec_max(self) -> RecSize {
        match self {
            RecordFormatSpec::Fixed(n) => n,
            RecordFormatSpec::VariableSimple { max, .. } => max,
            RecordFormatSpec::VariableTsRc { max, .. } => max,
        }
    }

    /// The on-disk format of the generated records.
    pub open spec fn spec_format(self) -> Format {
        match self {
            RecordFormatSpec::Fixed(n) => Format::Fixed(n),
            RecordFormatSpec::VariableSimple { .. } => Format::VariableSimple,
            RecordFormatSpec::VariableTsRc { .. } => Format::VariableTsRc,
        }
    }

    /// What the parser accepts: a fixed length of at least one, or a
    /// range whose minimum does not exceed its maximum.
    pub open spec fn is_valid(self) -> bool {
        match self {
            RecordFormatSpec::Fixed(n) => n >= 1,
            _ => self.spec_min() <= self.spec_max(),
        }
    }

    /// On-disk `Format` variant.
    pub fn format(self) -> (r: Format)
        ensures
            r == self.spec_format(),
    {
        match self {
            RecordFormatSpec::Fixed(n) => Format::Fixed(n),
            RecordFormatSpec::VariableSimple { .. } => Format::VariableSimple,
            RecordFormatSpec::VariableTsRc { .. } => Format::VariableTsRc,
        }
    }

    /// Minimum payload size the generator will produce.
    pub fn min_size(self) -> (r: RecSize)
        ensures
            r == self.spec_min(),
    {
        match self {
            RecordFormatSpec::Fixed(n) => n,
            RecordFormatSpec::VariableSimple { min, .. } => min,
            RecordFormatSpec::VariableTsRc { min, .. } => min,
        }
    }

    /// Maximum payload size the generator will produce.
    pub fn max_size(self) -> (r: RecSize)
        ensures
            r == self.spec_max(),
    {
        match self {
            RecordFormatSpec::Fixed(n) => n,
            RecordFormatSpec::VariableSimple { max, .. } => max,
            RecordFormatSpec::VariableTsRc { max, .. } => max,
        }
    }

    /// Text form: `fixed:N`, `KIND:N` for a one-value range, else
    /// `KIND:MIN..MAX`.
    pub fn to_string(&self) -> (r: String)
        ensures
            r@ == spec_text(*self),
    {
        let mut out = String::new();
        match *self {
            RecordFormatSpec::Fixed(n) => {
                push_str(&mut out, "fixed:");
                push_decimal(n as u64, &mut out);
            },
            RecordFormatSpec::VariableSimple { min, max } => {
                push_str(&mut out, "variable-simple:");
                push_range(min, max, &mut out);
            },
            RecordFormatSpec::VariableTsRc { min, max } => {
                push_str(&mut out, "variable-ts-rc:");
                push_range(min, max, &mut out);
            },
        }
        out
    }
}

/// `N` when both ends agree, else `MIN..MAX`.
pub open spec fn range_text(min: RecSize, max: RecSize) -> Seq<char> {
    if min == max {
        dec_text(min as nat)
    } else {
        dec_text(min as nat) + ".."@ + dec_text(max as nat)
    }
}

/// The text form of a record-format specification.
pub open spec fn spec_text(f: RecordFormatSpec) -> Seq<char> {
    match f {
        RecordFormatSpec::Fixed(n) => "fixed:"@ + dec_text(n as nat),
        RecordFormatSpec::VariableSimple { min, max } => "variable-simple:"@ + range_text(min, max),
        RecordFormatSpec::VariableTsRc { min, max } => "variable-ts-rc:"@ + range_text(min, max),
    }
}

fn push_range(min: RecSize, max: RecSize, out: &mut String)
    ensures
        final(out)@ == old(out)@ + range_text(min, max),
{
    push_decimal(min as u64, out);
    if min != max {
        push_str(out, "..");
        push_decimal(max as u64, out);
    }
}

/// Error returned when a format string fails to parse or validate; its
/// view is the message.
#[derive(Debug, Clone, PartialEq, Eq)]
pub struct RecordFormatSpecError(String);

impl View for RecordFormatSpecError {
    type V = Seq<char>;

    closed spec fn view(&self) -> Seq<char> {
        self.0@
    }
}

impl RecordFormatSpecError {
    /// An error carrying `msg`.
    pub fn new(msg: String) -> (r: Self)
        ensures
            r@ == msg@,
    {
        RecordFormatSpecError(msg)
    }

    /// The message.
    pub fn to_string(&self) -> (r: String)
        ensures
            r@ == self@,
    {
        self.0.clone()
    }
}

/// What `{:?}` prints for a string: the quoted, escaped text.
pub uninterp spec fn debug_str_text(s: Seq<char>) -> Seq<char>;

/// `<str as Debug>::fmt`, through `format!("{:?}")`: the string in
/// double quotes with quotes, backslashes and unprintable characters
/// escaped. The escaping rules rest on Unicode tables and are left to the
/// name `debug_str_text`, a function of the text alone.
#[verifier::external_body]
fn debug_quoted(s: &str) -> (r: String)
    ensures
        r@ == debug_str_text(s@),
{
    format!("{:?}", s)
}

/// Whether `c` has the Unicode `White_Space` property.
pub open spec fn is_white_space(c: char) -> bool {
    ||| '\u{9}' <= c <= '\u{d}'
    ||| c == ' '
    ||| c == '\u{85}'
    ||| c == '\u{a0}'
    ||| c == '\u{1680}'
    ||| '\u{2000}' <= c <= '\u{200a}'
    ||| c == '\u{2028}'
    ||| c == '\u{2029}'
    ||| c == '\u{202f}'
    ||| c == '\u{205f}'
    ||| c == '\u{3000}'
}

/// `s` without its leading white space.
pub open spec fn trim_start(s: Seq<char>) -> Seq<char>
    decreases s.len(),
{
    if s.len() > 0 && is_white_space(s[0]) {
        trim_start(s.drop_first())
    } else {
        s
    }
}

/// `s` without its trailing white space.
pub open spec fn trim_end(s: Seq<char>) -> Seq<char>
    decreases s.len(),
{
    if s.len() > 0 && is_white_space(s.last()) {
        trim_end(s.drop_last())
    } else {
        s
    }
}

/// `s` without leading and trailing white space (what `str::trim` gives).
pub open spec fn trim_ws(s: Seq<char>) -> Seq<char> {
    trim_end(trim_start(s))
}

proof fn lemma_trim_start_from(s: Seq<char>, i: int)
    requires
        0 <= i <= s.len(),
        forall|k: int| 0 <= k < i ==> is_white_space(#[trigger] s[k]),
    ensures
        trim_start(s) == trim_start(s.subrange(i, s.len() as int)),
    decreases i,
{
    if i > 0 {
        lemma_trim_start_from(s.drop_first(), i - 1);
        assert(s.drop_first().subrange(i - 1, s.drop_first().len() as int) =~= s.subrange(
            i,
            s.len() as int,
        ));
    } else {
        assert(s.subrange(0, s.len() as int) =~= s);
    }
}

proof fn lemma_trim_end_to(s: Seq<char>, j: int)
    requires
        0 <= j <= s.len(),
        forall|k: int| j <= k < s.len() ==> is_white_space(#[trigger] s[k]),
    ensures
        trim_end(s) == trim_end(s.subrange(0, j)),
    decreases s.len() - j,
{
    if j < s.len() {
        lemma_trim_end_to(s.drop_last(), j);
        assert(s.drop_last().subrange(0, j) =~= s.subrange(0, j));
    } else {
        assert(s.subrange(0, j) =~= s);
    }
}

/// `str::trim`, on the characters.
fn trim_str(s: &str) -> (r: &str)
    ensures
        r@ == trim_ws(s@),
{
    let n = s.unicode_len();
    let mut i: usize = 0;
    while i < n && is_white_space_exec(s.get_char(i))
        invariant
            n == s@.len(),
            0 <= i <= n,
            forall|k: int| 0 <= k < i ==> is_white_space(#[trigger] s@[k]),
        decreases n - i,
    {
        i = i + 1;
    }
    let mut j: usize = n;
    while j > i && is_white_space_exec(s.get_char(j - 1))
        invariant
            n == s@.len(),
            0 <= i <= j <= n,
            forall|k: int| j <= k < n ==> is_white_space(#[trigger] s@[k]),
        decreases j,
    {
        j = j - 1;
    }
    proof {
        let t = s@.subrange(i as int, n as int);
        lemma_trim_start_from(s@, i as int);
        assert(trim_start(t) == t) by {
            if t.len() > 0 {
                assert(t[0] == s@[i as int]);
            }
        }
        lemma_trim_end_to(t, j - i);
        assert(t.subrange(0, j - i) =~= s@.subrange(i as int, j as int));
        let u = s@.subrange(i as int, j as int);
        assert(trim_end(u) == u) by {
            if u.len() > 0 {
                assert(u.last() == s@[j - 1]);
            }
        }
    }
    s.substring_char(i, j)
}

fn is_white_space_exec(c: char) -> (r: bool)
    ensures
        r == is_white_space(c),
{
    ('\u{9}' <= c && c <= '\u{d}') || c == ' ' || c == '\u{85}' || c == '\u{a0}' || c == '\u{1680}'
        || ('\u{2000}' <= c && c <= '\u{200a}') || c == '\u{2028}' || c == '\u{2029}' || c
        == '\u{202f}' || c == '\u{205f}' || c == '\u{3000}'
}

/// The number `t` denotes as an unsigned decimal (an optional `+`, then
/// digits), if it fits in 32 bits: what `str::parse::<u32>` accepts.
pub open spec fn spec_parse_u32(t: Seq<char>) -> Option<u32> {
    match spec_radix_value(t, 10) {
        Some(v) => if v <= u32::MAX {
            Some(v as u32)
        } else {
            None
        },
        None => None,
    }
}

proof fn lemma_digits_value_prefix(t: Seq<char>, j: int, k: int)
    requires
        1 <= j <= k <= t.len(),
        digits_value(t.subrange(0, k), 10) is Some,
    ensures
        digits_value(t.subrange(0, j), 10) is Some,
        digits_value(t.subrange(0, j), 10)->0 <= digits_value(t.subrange(0, k), 10)->0,
    decreases k - j,
{
    if j < k {
        assert(t.subrange(0, k).drop_last() =~= t.subrange(0, k - 1));
        lemma_digits_value_prefix(t, j, k - 1);
    }
}

/// Parses an unsigned 32-bit decimal number as `str::parse::<u32>` does.
fn parse_u32(t: &str) -> (r: Option<u32>)
    ensures
        r == spec_parse_u32(t@),
{
    let n = t.unicode_len();
    let start: usize = if n > 0 && t.get_char(0) == '+' {
        1
    } else {
        0
    };
    let ghost d = if start == 1 {
        t@.drop_first()
    } else {
        t@
    };
    assert(d =~= t@.subrange(start as int, n as int));
    assert(spec_radix_value(t@, 10) == digits_value(d, 10));
    if start >= n {
        assert(d.len() == 0);
        return None;
    }
    let mut acc: u32 = 0;
    let mut i: usize = start;
    while i < n
        invariant
            n == t@.len(),
            start < n,
            d == t@.subrange(start as int, n as int),
            spec_radix_value(t@, 10) == digits_value(d, 10),
            start <= i <= n,
            i > start ==> digits_value(d.subrange(0, i - start), 10) == Some(acc as nat),
        decreases n - i,
    {
        let c = t.get_char(i);
        assert(d.subrange(0, i + 1 - start).drop_last() =~= d.subrange(0, i - start));
        assert(d.subrange(0, i + 1 - start).last() == c);
        if c < '0' || c > '9' {
            proof {
                assert(radix_digit(c, 10) is None);
                let p = d.subrange(0, i + 1 - start);
                assert(digits_value(p, 10) is None) by {
                    if p.len() == 1 {
                        assert(p[0] == c);
                    }
                }
                if digits_value(d, 10) is Some {
                    assert(d.subrange(0, d.len() as int) =~= d);
                    lemma_digits_value_prefix(d, i + 1 - start, d.len() as int);
                }
            }
            return None;
        }
        let v = (c as u32) - 48;
        assert(radix_digit(c, 10) == Some(v as nat));
        if i > start && acc > (u32::MAX - v) / 10 {
            proof {
                assert(acc * 10 + v > u32::MAX) by (nonlinear_arith)
                    requires
                        acc > (u32::MAX - v) / 10,
                        v <= 9,
                ;
                let p = d.subrange(0, i + 1 - start);
                assert(digits_value(p, 10) == Some((acc * 10 + v) as nat));
                if digits_value(d, 10) is Some {
                    assert(d.subrange(0, d.len() as int) =~= d);
                    lemma_digits_value_prefix(d, i + 1 - start, d.len() as int);
                }
            }
            return None;
        }
        if i == start {
            acc = v;
        } else {
            assert(acc * 10 + v <= u32::MAX) by (nonlinear_arith)
                requires
                    acc <= (u32::MAX - v) / 10,
                    v <= 9,
            ;
            acc = acc * 10 + v;
        }
        i = i + 1;
    }
    assert(d.subrange(0, n - start) =~= d);
    Some(acc)
}

/// Index of the first `c` in `s` at or after `from`.
pub open spec fn find_char(s: Seq<char>, c: char, from: int) -> Option<int>
    decreases s.len() - from,
{
    if from < 0 || from >= s.len() {
        None
    } else if s[from] == c {
        Some(from)
    } else {
        find_char(s, c, from + 1)
    }
}

/// Index of the first `..` in `s` at or after `from`.
pub open spec fn find_dots(s: Seq<char>, from: int) -> Option<int>
    decreases s.len() - from,
{
    if from < 0 || from + 1 >= s.len() {
        None
    } else if s[from] == '.' && s[from + 1] == '.' {
        Some(from)
    } else {
        find_dots(s, from + 1)
    }
}

fn find_char_exec(s: &str, c: char) -> (r: Option<usize>)
    ensures
        match r {
            Some(i) => find_char(s@, c, 0) == Some(i as int),
            None => find_char(s@, c, 0) is None,
        },
{
    let n = s.unicode_len();
    let mut i: usize = 0;
    while i < n
        invariant
            n == s@.len(),
            0 <= i <= n,
            find_char(s@, c, 0) == find_char(s@, c, i as int),
        decreases n - i,
    {
        if s.get_char(i) == c {
            return Some(i);
        }
        i = i + 1;
    }
    None
}

fn find_dots_exec(s: &str) -> (r: Option<usize>)
    ensures
        match r {
            Some(i) => find_dots(s@, 0) == Some(i as int) && i + 2 <= s@.len(),
            None => find_dots(s@, 0) is None,
        },
{
    let n = s.unicode_len();
    let mut i: usize = 0;
    while n > 0 && i < n - 1
        invariant
            n == s@.len(),
            0 <= i <= n,
            find_dots(s@, 0) == find_dots(s@, i as int),
        decreases n - i,
    {
        if s.get_char(i) == '.' && s.get_char(i + 1) == '.' {
            return Some(i);
        }
        i = i + 1;
    }
    None
}

/// Whether two strings hold the same characters.
fn str_eq(a: &str, b: &str) -> (r: bool)
    ensures
        r == (a@ == b@),
{
    let n = a.unicode_len();
    if n != b.unicode_len() {
        return false;
    }
    let mut i: usize = 0;
    while i < n
        invariant
            n == a@.len(),
            n == b@.len(),
            0 <= i <= n,
            forall|k: int| 0 <= k < i ==> a@[k] == b@[k],
        decreases n - i,
    {
        if a.get_char(i) != b.get_char(i) {
            return false;
        }
        i = i + 1;
    }
    assert(a@ =~= b@);
    true
}

/// Message for a format string without a `:`.
pub open spec fn msg_no_colon(s: Seq<char>) -> Seq<char> {
    "invalid --format value "@ + debug_str_text(s)
        + ": expected 'KIND:LEN' or 'KIND:MIN..MAX' where KIND is one of 'fixed', 'variable-simple', 'variable-ts-rc'"@
}

/// Message for a kind other than the three known ones.
pub open spec fn msg_unknown_kind(s: Seq<char>, kind: Seq<char>) -> Seq<char> {
    "invalid --format value "@ + debug_str_text(s) + ": unknown kind "@ + debug_str_text(kind)
        + "; expected 'fixed', 'variable-simple', or 'variable-ts-rc'"@
}

/// Message for a fixed length of zero.
pub open spec fn msg_fixed_zero() -> Seq<char> {
    "invalid --format value: 'fixed' length must be at least 1"@
}

/// Message for a range given to `fixed`.
pub open spec fn msg_fixed_range() -> Seq<char> {
    "invalid --format value: 'fixed' takes a single length, not a range"@
}

/// Message for an empty length.
pub open spec fn msg_missing(kind: Seq<char>) -> Seq<char> {
    "invalid --format value: "@ + kind + " length is missing"@
}

/// Message for a length that is not an unsigned 32-bit decimal.
pub open spec fn msg_not_len(t: Seq<char>, kind: Seq<char>) -> Seq<char> {
    "invalid --format value: "@ + debug_str_text(t) + " is not a valid "@ + kind
        + " length (expected a non-negative integer up to 4294967295)"@
}

/// Message for a range whose minimum exceeds its maximum.
pub open spec fn msg_min_gt_max(kind: Seq<char>, min: u32, max: u32) -> Seq<char> {
    "invalid --format value: "@ + kind + " min ("@ + dec_text(min as nat)
        + ") must be less than or equal to max ("@ + dec_text(max as nat) + ")"@
}

/// A length: trimmed, non-empty, an unsigned 32-bit decimal.
pub open spec fn spec_parse_len(s: Seq<char>, kind: Seq<char>) -> Result<u32, Seq<char>> {
    let t = trim_ws(s);
    if t.len() == 0 {
        Err(msg_missing(kind))
    } else {
        match spec_parse_u32(t) {
            Some(n) => Ok(n),
            None => Err(msg_not_len(t, kind)),
        }
    }
}

/// A range `MIN..MAX` (split at the first `..`), or one length for both
/// ends.
pub open spec fn spec_parse_range(s: Seq<char>, kind: Seq<char>) -> Result<(u32, u32), Seq<char>> {
    match find_dots(s, 0) {
        Some(j) => match spec_parse_len(s.subrange(0, j), kind) {
            Err(m) => Err(m),
            Ok(min) => match spec_parse_len(s.subrange(j + 2, s.len() as int), kind) {
                Err(m) => Err(m),
                Ok(max) => if min > max {
                    Err(msg_min_gt_max(kind, min, max))
                } else {
                    Ok((min, max))
                },
            },
        },
        None => match spec_parse_len(s, kind) {
            Err(m) => Err(m),
            Ok(n) => Ok((n, n)),
        },
    }
}

/// What parsing a format string gives: the kind before the first `:`,
/// the length or range after it.
pub open spec fn spec_from_str(s: Seq<char>) -> Result<RecordFormatSpec, Seq<char>> {
    match find_char(s, ':', 0) {
        None => Err(msg_no_colon(s)),
        Some(i) => {
            let kind = s.subrange(0, i);
            let rest = s.subrange(i + 1, s.len() as int);
            if kind == "fixed"@ {
                match spec_parse_len(rest, "fixed"@) {
                    Err(m) => Err(m),
                    Ok(n) => if n == 0 {
                        Err(msg_fixed_zero())
                    } else if find_dots(rest, 0) is Some {
                        Err(msg_fixed_range())
                    } else {
                        Ok(RecordFormatSpec::Fixed(n))
                    },
                }
            } else if kind == "variable-simple"@ {
                match spec_parse_range(rest, "variable-simple"@) {
                    Err(m) => Err(m),
                    Ok((min, max)) => Ok(RecordFormatSpec::VariableSimple { min, max }),
                }
            } else if kind == "variable-ts-rc"@ {
                match spec_parse_range(rest, "variable-ts-rc"@) {
                    Err(m) => Err(m),
                    Ok((min, max)) => Ok(RecordFormatSpec::VariableTsRc { min, max }),
                }
            } else {
                Err(msg_unknown_kind(s, kind))
            }
        },
    }
}

/// `r` is the outcome `o`, the error taken by its message.
pub open spec fn same_outcome<T>(r: Result<T, RecordFormatSpecError>, o: Result<T, Seq<char>>) -> bool {
    match r {
        Ok(v) => o == Ok::<T, Seq<char>>(v),
        Err(e) => o == Err::<T, Seq<char>>(e@),
    }
}

fn parse_len(s: &str, kind: &str) -> (r: Result<u32, RecordFormatSpecError>)
    ensures
        same_outcome(r, spec_parse_len(s@, kind@)),
{
    let t = trim_str(s);
    if t.unicode_len() == 0 {
        let mut m = String::new();
        push_str(&mut m, "invalid --format value: ");
        push_str(&mut m, kind);
        push_str(&mut m, " length is missing");
        return Err(RecordFormatSpecError::new(m));
    }
    match parse_u32(t) {
        Some(n) => Ok(n),
        None => {
            let mut m = String::new();
            push_str(&mut m, "invalid --format value: ");
            let q = debug_quoted(t);
            push_str(&mut m, q.as_str());
            push_str(&mut m, " is not a valid ");
            push_str(&mut m, kind);
            push_str(
                &mut m,
                " length (expected a non-negative integer up to 4294967295)",
            );
            Err(RecordFormatSpecError::new(m))
        },
    }
}

fn parse_range(s: &str, kind: &str) -> (r: Result<(u32, u32), RecordFormatSpecError>)
    ensures
        same_outcome(r, spec_parse_range(s@, kind@)),
{
    match find_dots_exec(s) {
        Some(j) => {
            let n = s.unicode_len();
            let min = match parse_len(s.substring_char(0, j), kind) {
                Ok(v) => v,
                Err(e) => return Err(e),
            };
            let max = match parse_len(s.substring_char(j + 2, n), kind) {
                Ok(v) => v,
                Err(e) => return Err(e),
            };
            if min > max {
                let mut m = String::new();
                push_str(&mut m, "invalid --format value: ");
                push_str(&mut m, kind);
                push_str(&mut m, " min (");
                push_decimal(min as u64, &mut m);
                push_str(&mut m, ") must be less than or equal to max (");
                push_decimal(max as u64, &mut m);
                push_str(&mut m, ")");
                return Err(RecordFormatSpecError::new(m));
            }
            Ok((min, max))
        },
        None => match parse_len(s, kind) {
            Ok(n) => Ok((n, n)),
            Err(e) => Err(e),
        },
    }
}

impl RecordFormatSpec {
    /// Parses `KIND:LEN` or `KIND:MIN..MAX`, KIND one of `fixed`,
    /// `variable-simple`, `variable-ts-rc`; `fixed` takes one length of
    /// at least one, the others a length or a range with `MIN <= MAX`.
    /// Lengths may be padded with white space.
    pub fn from_str(s: &str) -> (r: Result<RecordFormatSpec, RecordFormatSpecError>)
        ensures
            same_outcome(r, spec_from_str(s@)),
            r matches Ok(f) ==> f.is_valid(),
    {
        let i = match find_char_exec(s, ':') {
            Some(i) => i,
            None => {
                let mut m = String::new();
                push_str(&mut m, "invalid --format value ");
                let q = debug_quoted(s);
                push_str(&mut m, q.as_str());
                push_str(
                    &mut m,
                    ": expected 'KIND:LEN' or 'KIND:MIN..MAX' where KIND is one of 'fixed', 'variable-simple', 'variable-ts-rc'",
                );
                return Err(RecordFormatSpecError::new(m));
            },
        };
        proof {
            assert(i < s@.len()) by {
                lemma_find_char_in_range(s@, ':', 0);
            }
        }
        let n = s.unicode_len();
        let kind = s.substring_char(0, i);
        let rest = s.substring_char(i + 1, n);
        if str_eq(kind, "fixed") {
            let v = match parse_len(rest, "fixed") {
                Ok(v) => v,
                Err(e) => return Err(e),
            };
            if v == 0 {
                let mut m = String::new();
                push_str(&mut m, "invalid --format value: 'fixed' length must be at least 1");
                return Err(RecordFormatSpecError::new(m));
            }
            if find_dots_exec(rest).is_some() {
                let mut m = String::new();
                push_str(
                    &mut m,
                    "invalid --format value: 'fixed' takes a single length, not a range",
                );
                return Err(RecordFormatSpecError::new(m));
            }
            Ok(RecordFormatSpec::Fixed(v))
        } else if str_eq(kind, "variable-simple") {
            match parse_range(rest, "variable-simple") {
                Ok((min, max)) => Ok(RecordFormatSpec::VariableSimple { min, max }),
                Err(e) => Err(e),
            }
        } else if str_eq(kind, "variable-ts-rc") {
            match parse_range(rest, "variable-ts-rc") {
                Ok((min, max)) => Ok(RecordFormatSpec::VariableTsRc { min, max }),
                Err(e) => Err(e),
            }
        } else {
            let mut m = String::new();
            push_str(&mut m, "invalid --format value ");
            let q = debug_quoted(s);
            push_str(&mut m, q.as_str());
            push_str(&mut m, ": unknown kind ");
            let k = debug_quoted(kind);
            push_str(&mut m, k.as_str());
            push_str(&mut m, "; expected 'fixed', 'variable-simple', or 'variable-ts-rc'");
            Err(RecordFormatSpecError::new(m))
        }
    }
}

proof fn lemma_find_char_in_range(s: Seq<char>, c: char, from: int)
    ensures
        find_char(s, c, from) matches Some(i) ==> from <= i < s.len() && s[i] == c,
    decreases s.len() - from,
{
    if 0 <= from < s.len() && s[from] != c {
        lemma_find_char_in_range(s, c, from + 1);
    }
}

proof fn lemma_find_dots_in_range(s: Seq<char>, from: int)
    ensures
        find_dots(s, from) matches Some(i) ==> from <= i && i + 2 <= s.len() && s[i] == '.' && s[i
            + 1] == '.',
    decreases s.len() - from,
{
    if 0 <= from && from + 1 < s.len() && !(s[from] == '.' && s[from + 1] == '.') {
        lemma_find_dots_in_range(s, from + 1);
    }
}

proof fn lemma_find_char_at(s: Seq<char>, c: char, from: int, j: int)
    requires
        0 <= from <= j < s.len(),
        s[j] == c,
        forall|k: int| from <= k < j ==> s[k] != c,
    ensures
        find_char(s, c, from) == Some(j),
    decreases j - from,
{
    if from < j {
        lemma_find_char_at(s, c, from + 1, j);
    }
}

proof fn lemma_find_dots_at(s: Seq<char>, from: int, j: int)
    requires
        0 <= from <= j,
        j + 1 < s.len(),
        s[j] == '.' && s[j + 1] == '.',
        forall|k: int| from <= k < j ==> s[k] != '.',
    ensures
        find_dots(s, from) == Some(j),
    decreases j - from,
{
    if from < j {
        lemma_find_dots_at(s, from + 1, j);
    }
}

proof fn lemma_find_dots_none(s: Seq<char>, from: int)
    requires
        0 <= from,
        forall|k: int| from <= k < s.len() ==> s[k] != '.',
    ensures
        find_dots(s, from) is None,
    decreases s.len() - from,
{
    if from + 1 < s.len() {
        lemma_find_dots_none(s, from + 1);
    }
}

/// The decimal form of a number is a non-empty run of digits that reads
/// back as the number.
pub(crate) proof fn lemma_dec_text_reads_back(v: nat)
    ensures
        dec_text(v).len() >= 1,
        forall|k: int| 0 <= k < dec_text(v).len() ==> '0' <= #[trigger] dec_text(v)[k] <= '9',
        digits_value(dec_text(v), 10) == Some(v),
    decreases v,
{
    let d = v % 10;
    assert(dec_char(d) as int == d + 48);
    if v >= 10 {
        lemma_dec_text_reads_back(v / 10);
        let s = dec_text(v);
        assert(s.drop_last() =~= dec_text(v / 10));
        assert(s.last() == dec_char(d));
        assert(radix_digit(dec_char(d), 10) == Some(d));
        assert(v == (v / 10) * 10 + d);
    } else {
        assert(radix_digit(dec_char(d), 10) == Some(d));
    }
}

proof fn lemma_parse_len_dec(v: u32, kind: Seq<char>)
    ensures
        spec_parse_len(dec_text(v as nat), kind) == Ok::<u32, Seq<char>>(v),
        forall|k: int| 0 <= k < dec_text(v as nat).len() ==> dec_text(v as nat)[k] != '.',
{
    let s = dec_text(v as nat);
    lemma_dec_text_reads_back(v as nat);
    assert(trim_start(s) == s) by {
        assert('0' <= s[0] <= '9');
    }
    assert(trim_end(s) == s) by {
        assert('0' <= s[s.len() - 1] <= '9');
    }
    assert(s[0] != '+') by {
        assert('0' <= s[0] <= '9');
    }
    assert forall|k: int| 0 <= k < s.len() implies s[k] != '.' by {
        assert('0' <= s[k] <= '9');
    }
}

proof fn lemma_parse_range_text(min: u32, max: u32, kind: Seq<char>)
    requires
        min <= max,
    ensures
        spec_parse_range(range_text(min, max), kind) == Ok::<(u32, u32), Seq<char>>((min, max)),
{
    lemma_parse_len_dec(min, kind);
    lemma_parse_len_dec(max, kind);
    let a = dec_text(min as nat);
    let b = dec_text(max as nat);
    if min == max {
        lemma_find_dots_none(a, 0);
    } else {
        reveal_strlit("..");
        let s = a + ".."@ + b;
        assert(range_text(min, max) == s);
        assert forall|k: int| 0 <= k < a.len() implies s[k] != '.' by {
            assert(s[k] == a[k]);
        }
        lemma_find_dots_at(s, 0, a.len() as int);
        assert(s.subrange(0, a.len() as int) =~= a);
        assert(s.subrange(a.len() + 2int, s.len() as int) =~= b);
    }
}

proof fn lemma_split_at_colon(kind: Seq<char>, rest: Seq<char>)
    requires
        forall|k: int| 0 <= k < kind.len() ==> kind[k] != ':',
    ensures
        ({
            let s = kind + seq![':'] + rest;
            &&& find_char(s, ':', 0) == Some(kind.len() as int)
            &&& s.subrange(0, kind.len() as int) == kind
            &&& s.subrange(kind.len() + 1int, s.len() as int) == rest
        }),
{
    let s = kind + seq![':'] + rest;
    assert forall|k: int| 0 <= k < kind.len() implies s[k] != ':' by {
        assert(s[k] == kind[k]);
    }
    lemma_find_char_at(s, ':', 0, kind.len() as int);
    assert(s.subrange(0, kind.len() as int) =~= kind);
    assert(s.subrange(kind.len() + 1int, s.len() as int) =~= rest);
}

proof fn lemma_fixed_text_parses(n: u32)
    requires
        n >= 1,
    ensures
        spec_from_str(spec_text(RecordFormatSpec::Fixed(n))) == Ok::<RecordFormatSpec, Seq<char>>(
            RecordFormatSpec::Fixed(n),
        ),
{
    reveal_strlit("fixed:");
    reveal_strlit("fixed");
    let t = dec_text(n as nat);
    assert("fixed:"@ + t =~= "fixed"@ + seq![':'] + t);
    lemma_split_at_colon("fixed"@, t);
    lemma_parse_len_dec(n, "fixed"@);
    lemma_find_dots_none(t, 0);
}

proof fn lemma_simple_text_parses(min: u32, max: u32)
    requires
        min <= max,
    ensures
        spec_from_str(spec_text(RecordFormatSpec::VariableSimple { min, max })) == Ok::<
            RecordFormatSpec,
            Seq<char>,
        >(RecordFormatSpec::VariableSimple { min, max }),
{
    reveal_strlit("variable-simple:");
    reveal_strlit("variable-simple");
    reveal_strlit("fixed");
    let t = range_text(min, max);
    assert("variable-simple:"@ + t =~= "variable-simple"@ + seq![':'] + t);
    lemma_split_at_colon("variable-simple"@, t);
    assert("variable-simple"@ != "fixed"@) by {
        assert("variable-simple"@.len() != "fixed"@.len());
    }
    lemma_parse_range_text(min, max, "variable-simple"@);
}

proof fn lemma_ts_rc_text_parses(min: u32, max: u32)
    requires
        min <= max,
    ensures
        spec_from_str(spec_text(RecordFormatSpec::VariableTsRc { min, max })) == Ok::<
            RecordFormatSpec,
            Seq<char>,
        >(RecordFormatSpec::VariableTsRc { min, max }),
{
    reveal_strlit("variable-ts-rc:");
    reveal_strlit("variable-ts-rc");
    reveal_strlit("variable-simple");
    reveal_strlit("fixed");
    let t = range_text(min, max);
    assert("variable-ts-rc:"@ + t =~= "variable-ts-rc"@ + seq![':'] + t);
    lemma_split_at_colon("variable-ts-rc"@, t);
    assert("variable-ts-rc"@ != "fixed"@) by {
        assert("variable-ts-rc"@.len() != "fixed"@.len());
    }
    assert("variable-ts-rc"@ != "variable-simple"@) by {
        assert("variable-ts-rc"@.len() != "variable-simple"@.len());
    }
    lemma_parse_range_text(min, max, "variable-ts-rc"@);
}

/// The text form of a valid record-format specification parses back to
/// the same specification.
pub proof fn lemma_text_parses(f: RecordFormatSpec)
    requires
        f.is_valid(),
    ensures
        spec_from_str(spec_text(f)) == Ok::<RecordFormatSpec, Seq<char>>(f),
{
    match f {
        RecordFormatSpec::Fixed(n) => lemma_fixed_text_parses(n),
        RecordFormatSpec::VariableSimple { min, max } => lemma_simple_text_parses(min, max),
        RecordFormatSpec::VariableTsRc { min, max } => lemma_ts_rc_text_parses(min, max),
    }
}

/// Text of a generated message: the time it was made and its number,
/// `time=<secs>.<nanos, nine digits>s message=<number>`.
pub open spec fn message_text(secs: u64, nanos: u32, number: nat) -> Seq<char> {
    "time="@ + dec_text(secs as nat) + "."@ + pad_dec(nanos as nat, 9) + "s message="@ + dec_text(
        number,
    )
}

/// The text of the message numbered `index + 1`, made at `secs.nanos`
/// seconds after the UNIX epoch.
pub fn sample_message(secs: u64, nanos: u32, index: u64) -> (r: String)
    requires
        index < u64::MAX,
    ensures
        r@ == message_text(secs, nanos, (index + 1) as nat),
{
    let mut out = String::new();
    push_str(&mut out, "time=");
    push_decimal(secs, &mut out);
    push_str(&mut out, ".");
    proof {
        reveal_with_fuel(pow10, 10);
        assert(pow10(9) == 1_000_000_000);
    }
    if nanos < 1_000_000_000 {
        push_dec_fixed(nanos as u64, 9, &mut out);
    } else {
        push_decimal(nanos as u64, &mut out);
    }
    push_str(&mut out, "s message=");
    push_decimal(index + 1, &mut out);
    out
}

/// Length of the payload of the record numbered `index` (from zero):
/// the one size of the specification, or sizes cycling from its minimum
/// through its maximum.
pub open spec fn payload_target(f: RecordFormatSpec, index: u64) -> nat {
    if f.spec_min() == f.spec_max() {
        f.spec_min() as nat
    } else {
        (f.spec_min() + (index as int) % ((f.spec_max() - f.spec_min()) + 1)) as nat
    }
}

/// `b` cut to `n` bytes, or padded to `n` bytes with `.`.
pub open spec fn fit_len(b: Seq<u8>, n: nat) -> Seq<u8> {
    if b.len() > n {
        b.subrange(0, n as int)
    } else {
        b + Seq::new((n - b.len()) as nat, |_i: int| 46u8)
    }
}

/// The bytes of the characters of `s`, each taken as its low byte.
fn ascii_vec(s: &str) -> (r: Vec<u8>)
    ensures
        r@ == ascii_bytes(s@),
{
    let n = s.unicode_len();
    let mut v: Vec<u8> = Vec::new();
    let mut i: usize = 0;
    while i < n
        invariant
            n == s@.len(),
            0 <= i <= n,
            v@ == ascii_bytes(s@.subrange(0, i as int)),
        decreases n - i,
    {
        let c = s.get_char(i);
        v.push(c as u8);
        assert(ascii_bytes(s@.subrange(0, i + 1)) =~= ascii_bytes(s@.subrange(0, i as int)).push(
            c as u8,
        ));
        i = i + 1;
    }
    assert(s@.subrange(0, n as int) =~= s@);
    v
}

/// Payload of the generated record numbered `index` (from zero), made at
/// `secs.nanos` seconds after the UNIX epoch: its message text cut or
/// padded with `.` to the length the specification gives that record.
pub fn build_payload(spec: RecordFormatSpec, index: u64, secs: u64, nanos: u32) -> (r: Vec<u8>)
    requires
        spec.spec_min() <= spec.spec_max(),
        index < u64::MAX,
    ensures
        r@ == fit_len(ascii_bytes(message_text(secs, nanos, (index + 1) as nat)), payload_target(spec, index)),
{
    let min = spec.min_size();
    let max = spec.max_size();
    let target: u32 = if min == max {
        min
    } else {
        let span: u64 = (max - min) as u64 + 1;
        let off = index % span;
        assert(off <= (max - min) as u64);
        min + off as u32
    };
    let text = sample_message(secs, nanos, index);
    let mut buf = ascii_vec(text.as_str());
    let t = target as usize;
    if buf.len() > t {
        buf.truncate(t);
    } else {
        let ghost before = buf@;
        buf.resize(t, 46u8);
        proof {
            assert forall|i: int| before.len() <= i < t implies buf@[i] == 46u8 by {
                assert(cloned::<u8>(46u8, buf@[i]));
            }
            assert(buf@ =~= before + Seq::new((t - before.len()) as nat, |_i: int| 46u8)) by {
                assert(buf@.subrange(0, before.len() as int) == before);
            }
        }
    }
    buf
}

/// Size limit of the segment files of a generated log whose data
/// sections hold `data_size` bytes: the header length plus `data_size`,
/// saturating at `u32::MAX`.
pub fn segment_size_for(data_size: u32) -> (r: u32)
    ensures
        r == if SEGMENT_FILE_HEADER_LEN + data_size <= u32::MAX {
            (SEGMENT_FILE_HEADER_LEN + data_size) as u32
        } else {
            u32::MAX
        },
{
    SEGMENT_FILE_HEADER_LEN.saturating_add(data_size)
}

/// Summary of a created log chain.
pub struct LogInfo {
    /// Base name of the first (root) segment file in the chain.
    pub root_file: String,
    /// Total number of records written across the chain.
    pub message_count: u64,
}

} // verus!

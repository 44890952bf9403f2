//! Segment file identifiers and their fixed-width dashed hex form.
use crate::text::{hex_char, hex_char_exec, hex_digit_value, push_char};
use vstd::prelude::*;
use vstd::string::*;
use vstd::utf8::*;
use vstd::arithmetic::div_mod::*;

verus! {

/// Parses the bytes of a dashed hex identifier.
pub(crate) fn parse_segid_bytes(bytes: &[u8]) -> (r: Option<u64>)
    ensures
        r == spec_parse_segid(bytes@),
{
    if bytes.len() != 19 {
        return None;
    }
    if bytes[4] != 45u8 || bytes[9] != 45u8 || bytes[14] != 45u8 {
        return None;
    }
    let ghost b = bytes@;
    let ghost digits = segid_digits(b);
    let mut v: u64 = 0;
    let mut i: usize = 0;
    let mut n: usize = 0;
    while i < 19
        invariant
            b == bytes@,
            b.len() == 19,
            b[4] == 45 && b[9] == 45 && b[14] == 45,
            digits == segid_digits(b),
            0 <= i <= 19,
            n == i - (if i > 14 { 3int } else if i > 9 { 2int } else if i > 4 { 1int } else { 0int }),
            v == hex_value(digits.subrange(0, n as int)),
            forall|k: int|
                0 <= k < i && !is_dash_pos(k) ==> hex_digit_value(#[trigger] b[k]) is Some,
        decreases 19 - i,
    {
        if i == 4 || i == 9 || i == 14 {
            i = i + 1;
            continue;
        }
        let c = bytes[i];
        let d: u64 = if 48 <= c && c <= 57 {
            (c - 48) as u64
        } else if 97 <= c && c <= 102 {
            (c - 87) as u64
        } else {
            proof {
                assert(hex_digit_value(b[i as int]) is None);
                assert(!is_dash_pos(i as int));
                assert(!segid_str_ok(b));
            }
            return None;
        };
        proof {
            assert(digits[n as int] == b[i as int]);
            assert(digits.subrange(0, n + 1).drop_last() =~= digits.subrange(0, n as int));
            lemma_hex_value_bound(digits.subrange(0, n as int));
            assert(pow16(n as nat) <= pow16(15)) by {
                lemma_pow16_mono(n as nat, 15);
            }
            lemma_pow16_16();
            reveal_with_fuel(pow16, 2);
            assert(pow16(16) == 16 * pow16(15));
        }
        v = v * 16 + d;
        i = i + 1;
        n = n + 1;
    }
    proof {
        assert(segid_str_ok(b));
        assert(digits.subrange(0, 16) =~= digits);
    }
    Some(v)
}


/// `16^n`.
pub open spec fn pow16(n: nat) -> nat
    decreases n,
{
    if n == 0 {
        1
    } else {
        16 * pow16((n - 1) as nat)
    }
}

/// Value of a run of lower-case hex digit bytes, most significant first.
/// A byte that is not such a digit counts as zero.
pub open spec fn hex_value(d: Seq<u8>) -> nat
    decreases d.len(),
{
    if d.len() == 0 {
        0
    } else {
        hex_value(d.drop_last()) * 16 + match hex_digit_value(d.last()) {
            Some(v) => v,
            None => 0,
        }
    }
}

/// The `n` lower-case hex digits of `v mod 16^n`, most significant first.
pub open spec fn hex_digits(v: nat, n: nat) -> Seq<char>
    decreases n,
{
    if n == 0 {
        Seq::empty()
    } else {
        hex_digits(v / 16, (n - 1) as nat).push(hex_char(v % 16))
    }
}

/// Positions of the three dashes in the string form.
pub open spec fn is_dash_pos(i: int) -> bool {
    i == 4 || i == 9 || i == 14
}

/// `xxxx-xxxx-xxxx-xxxx`: nineteen bytes, dashes at positions 4, 9 and 14,
/// lower-case hex digits everywhere else.
pub open spec fn segid_str_ok(b: Seq<u8>) -> bool {
    &&& b.len() == 19
    &&& forall|i: int|
        0 <= i < 19 ==> if is_dash_pos(i) {
            #[trigger] b[i] == 45
        } else {
            hex_digit_value(b[i]) is Some
        }
}

/// The sixteen digit bytes of a dashed string, dashes removed.
pub open spec fn segid_digits(b: Seq<u8>) -> Seq<u8> {
    b.subrange(0, 4) + b.subrange(5, 9) + b.subrange(10, 14) + b.subrange(15, 19)
}

/// What [`SegId::parse`] returns for the bytes of its argument.
pub open spec fn spec_parse_segid(b: Seq<u8>) -> Option<u64> {
    if segid_str_ok(b) {
        Some(hex_value(segid_digits(b)) as u64)
    } else {
        None
    }
}

/// The dashed string form of `v`: its four 16-bit groups, most
/// significant first, each as four hex digits.
pub open spec fn segid_text(v: u64) -> Seq<char> {
    hex_digits(v as nat / 0x1_0000_0000_0000, 4) + seq!['-'] + hex_digits(v as nat / 0x1_0000_0000, 4)
        + seq!['-'] + hex_digits(v as nat / 0x1_0000, 4) + seq!['-'] + hex_digits(v as nat, 4)
}

pub proof fn lemma_pow16_16()
    ensures
        pow16(16) == 0x1_0000_0000_0000_0000,
{
    reveal_with_fuel(pow16, 17);
}

pub proof fn lemma_hex_value_bound(d: Seq<u8>)
    ensures
        hex_value(d) < pow16(d.len()),
    decreases d.len(),
{
    if d.len() > 0 {
        lemma_hex_value_bound(d.drop_last());
        let p = pow16((d.len() - 1) as nat);
        let h = hex_value(d.drop_last());
        let x = match hex_digit_value(d.last()) {
            Some(v) => v,
            None => 0,
        };
        assert(x < 16);
        assert(h * 16 + x < p * 16) by (nonlinear_arith)
            requires
                h < p,
                x < 16,
        ;
    }
}

/// Identifier of a segment file: a 64-bit value rendered on disk as four
/// groups of four lower-case hex digits separated by dashes.
#[derive(Copy, Clone, Debug, PartialEq, Eq, Structural, PartialOrd, Ord, Hash)]
pub struct SegId(u64);

impl View for SegId {
    type V = u64;

    closed spec fn view(&self) -> u64 {
        self.0
    }
}

/// Two identifiers are equal exactly when their values are.
pub broadcast proof fn lemma_segid_view_injective(a: SegId, b: SegId)
    ensures
        #![trigger a@, b@]
        (a@ == b@) <==> a == b,
{
}

impl SegId {
    /// The number of ASCII characters in the string form.
    pub const STR_LEN: usize = 19;

    /// The largest representable identifier.
    pub fn max_id() -> (r: SegId)
        ensures
            r@ == u64::MAX,
    {
        SegId(0xffff_ffff_ffff_ffff)
    }

    /// Wraps a raw value.
    pub fn from_u64(v: u64) -> (r: SegId)
        ensures
            r@ == v,
    {
        SegId(v)
    }

    /// The identifier of a segment file created `ns` nanoseconds after
    /// the UNIX epoch: the time, saturated to 64 bits.
    pub fn from_time_ns(ns: u128) -> (r: SegId)
        ensures
            r@ == if ns > u64::MAX {
                u64::MAX
            } else {
                ns as u64
            },
    {
        if ns > 0xffff_ffff_ffff_ffffu128 {
            SegId(0xffff_ffff_ffff_ffff)
        } else {
            SegId(ns as u64)
        }
    }

    /// The underlying value.
    pub fn as_u64(self) -> (r: u64)
        ensures
            r == self@,
    {
        self.0
    }

    /// Parses the dashed hex form `xxxx-xxxx-xxxx-xxxx` (lower-case hex
    /// digits only).
    pub fn parse(s: &str) -> (r: Option<SegId>)
        ensures
            r matches Some(id) ==> spec_parse_segid(s.spec_bytes()) == Some(id@),
            r is None ==> spec_parse_segid(s.spec_bytes()) is None,
            r matches Some(id) ==> s@ == segid_text(id@),
            (exists|v: u64| s@ == #[trigger] segid_text(v)) ==> r is Some,
    {
        proof {
            if exists|v: u64| s@ == #[trigger] segid_text(v) {
                let v = choose|v: u64| s@ == #[trigger] segid_text(v);
                lemma_segid_text_parses(v);
            }
        }
        match parse_segid_bytes(s.as_bytes()) {
            Some(v) => {
                proof {
                    lemma_segid_parse_text(s.spec_bytes());
                    encode_utf8_decode_utf8(s@);
                    encode_utf8_decode_utf8(segid_text(v));
                }
                Some(SegId(v))
            },
            None => None,
        }
    }

    /// Little-endian byte encoding of the underlying value.
    pub fn to_le_bytes(self) -> (r: [u8; 8])
        ensures
            r@ == vstd::bytes::spec_u64_to_le_bytes(self@),
    {
        crate::le::u64_to_le_array(self.0)
    }

    /// Builds an identifier from its little-endian byte encoding.
    pub fn from_le_bytes(bytes: [u8; 8]) -> (r: SegId)
        ensures
            r@ == vstd::bytes::spec_u64_from_le_bytes(bytes@),
    {
        SegId(crate::le::u64_from_le_array(bytes))
    }

    /// The dashed hex string form, for example `1234-abcd-5678-efab`.
    pub fn to_string(&self) -> (r: String)
        ensures
            r@ == segid_text(self@),
    {
        let v = self.0;
        let mut out = String::new();
        push_hex_digits(v / 0x1_0000_0000_0000, 4, &mut out);
        push_char(&mut out, '-');
        push_hex_digits(v / 0x1_0000_0000, 4, &mut out);
        push_char(&mut out, '-');
        push_hex_digits(v / 0x1_0000, 4, &mut out);
        push_char(&mut out, '-');
        push_hex_digits(v, 4, &mut out);
        proof {
            assert(out@ =~= segid_text(self@));
        }
        out
    }
}

pub proof fn lemma_hex_digits_len(v: nat, n: nat)
    ensures
        hex_digits(v, n).len() == n,
    decreases n,
{
    if n > 0 {
        lemma_hex_digits_len(v / 16, (n - 1) as nat);
    }
}

pub proof fn lemma_pow16_pos(n: nat)
    ensures
        pow16(n) > 0,
    decreases n,
{
    if n > 0 {
        lemma_pow16_pos((n - 1) as nat);
    }
}

pub proof fn lemma_pow16_mono(a: nat, b: nat)
    requires
        a <= b,
    ensures
        pow16(a) <= pow16(b),
    decreases b,
{
    if a < b {
        lemma_pow16_mono(a, (b - 1) as nat);
    }
}

/// Appends the `n` hex digits of `v mod 16^n` to `out`.
fn push_hex_digits(v: u64, n: usize, out: &mut String)
    ensures
        final(out)@ == old(out)@ + hex_digits(v as nat, n as nat),
    decreases n,
{
    if n > 0 {
        push_hex_digits(v / 16, n - 1, out);
        let c = hex_char_exec(v % 16);
        push_char(out, c);
    }
}

/// Number of lower-case hex digits of `v` without leading zeros (one for
/// zero).
pub open spec fn hex_len(v: nat) -> nat
    decreases v,
{
    if v < 16 {
        1
    } else {
        1 + hex_len(v / 16)
    }
}

/// `v` in lower-case hex, zero-padded on the left to at least `w` digits
/// (`format!("{:0w$x}", v)`).
pub open spec fn hex_padded(v: nat, w: nat) -> Seq<char> {
    hex_digits(v, if hex_len(v) > w { hex_len(v) } else { w })
}

proof fn lemma_hex_len_bound(v: nat, k: nat)
    requires
        v < pow16(k),
        k >= 1,
    ensures
        hex_len(v) <= k,
    decreases k,
{
    if v >= 16 {
        lemma_pow16_pos((k - 1) as nat);
        assert(pow16(k) == 16 * pow16((k - 1) as nat));
        if k == 1 {
            assert(pow16(1) == 16) by {
                reveal_with_fuel(pow16, 2);
            }
        } else {
            assert(v / 16 < pow16((k - 1) as nat)) by (nonlinear_arith)
                requires
                    v < 16 * pow16((k - 1) as nat),
            ;
            lemma_hex_len_bound(v / 16, (k - 1) as nat);
        }
    }
}

fn hex_len_exec(v: u64) -> (r: u64)
    ensures
        r == hex_len(v as nat),
        r <= 16,
    decreases v,
{
    proof {
        lemma_pow16_16();
        lemma_hex_len_bound(v as nat, 16);
    }
    if v < 16 {
        1
    } else {
        1 + hex_len_exec(v / 16)
    }
}

/// Appends `v` in lower-case hex, zero-padded to at least `w` digits.
pub(crate) fn push_hex_padded(v: u64, w: u64, out: &mut String)
    requires
        w <= 16,
    ensures
        final(out)@ == old(out)@ + hex_padded(v as nat, w as nat),
{
    let n = hex_len_exec(v);
    let width = if n > w {
        n
    } else {
        w
    };
    push_hex_digits(v, width as usize, out);
}

/// The bytes of ASCII characters.
pub open spec fn ascii_bytes(c: Seq<char>) -> Seq<u8> {
    c.map_values(|ch: char| ch as u8)
}

pub proof fn lemma_hex_digits_ascii(x: nat, n: nat)
    ensures
        is_ascii_chars(hex_digits(x, n)),
        hex_digits(x, n).len() == n,
        forall|i: int| 0 <= i < n ==> hex_digit_value(#[trigger] hex_digits(x, n)[i] as u8) is Some,
        hex_value(ascii_bytes(hex_digits(x, n))) == x % pow16(n),
    decreases n,
{
    if n > 0 {
        let prev = hex_digits(x / 16, (n - 1) as nat);
        lemma_hex_digits_ascii(x / 16, (n - 1) as nat);
        let c = hex_char(x % 16);
        let d = hex_digits(x, n);
        assert(d == prev.push(c));
        assert(ascii_bytes(d).drop_last() =~= ascii_bytes(prev));
        assert(hex_digit_value(c as u8) == Some(x % 16));
        assert(ascii_bytes(d).last() == c as u8);
        assert forall|i: int| 0 <= i < n implies hex_digit_value(#[trigger] d[i] as u8) is Some by {
            if i < n - 1 {
                assert(d[i] == prev[i]);
            }
        }
        let p = pow16((n - 1) as nat);
        assert(pow16(n) == 16 * p);
        lemma_pow16_pos((n - 1) as nat);
        lemma_mod_breakdown(x as int, 16, p as int);
        assert(x % (16 * p) == 16 * ((x / 16) % p) + x % 16);
    }
}

pub proof fn lemma_hex_value_concat(a: Seq<u8>, b: Seq<u8>)
    ensures
        hex_value(a + b) == hex_value(a) * pow16(b.len()) + hex_value(b),
    decreases b.len(),
{
    if b.len() == 0 {
        assert(a + b =~= a);
        assert(pow16(0) == 1);
        assert(hex_value(b) == 0);
        assert(hex_value(a) * 1 == hex_value(a));
    } else {
        lemma_hex_value_concat(a, b.drop_last());
        assert((a + b).drop_last() =~= a + b.drop_last());
        assert((a + b).last() == b.last());
        let p = pow16((b.len() - 1) as nat);
        assert(pow16(b.len()) == 16 * p);
        let ha = hex_value(a);
        let hb = hex_value(b.drop_last());
        let dv = match hex_digit_value(b.last()) {
            Some(v) => v,
            None => 0,
        };
        assert(hex_value(b) == hb * 16 + dv);
        assert(hex_value(a + b) == hex_value(a + b.drop_last()) * 16 + dv);
        assert(hex_value(a + b.drop_last()) == ha * p + hb);
        assert((ha * p + hb) * 16 == ha * (16 * p) + hb * 16) by (nonlinear_arith);
        assert(hex_value(a + b) == ha * pow16(b.len()) + hex_value(b));
    }
}

/// Reading back the string form of an identifier gives the identifier.
pub proof fn lemma_segid_text_parses(v: u64)
    ensures
        segid_text(v).len() == 19,
        is_ascii_chars(segid_text(v)),
        spec_parse_segid(encode_utf8(segid_text(v))) == Some(v),
{
    let x = v as nat;
    let g3 = x / 0x1_0000_0000_0000;
    let g2 = x / 0x1_0000_0000;
    let g1 = x / 0x1_0000;
    lemma_hex_digits_ascii(g3, 4);
    lemma_hex_digits_ascii(g2, 4);
    lemma_hex_digits_ascii(g1, 4);
    lemma_hex_digits_ascii(x, 4);
    let d3 = hex_digits(g3, 4);
    let d2 = hex_digits(g2, 4);
    let d1 = hex_digits(g1, 4);
    let d0 = hex_digits(x, 4);
    let t = segid_text(v);
    let dash = seq!['-'];
    assert(t == d3 + dash + d2 + dash + d1 + dash + d0);
    assert(t.len() == 19);
    assert(is_ascii_chars(t)) by {
        assert forall|i: int| 0 <= i < t.len() implies '\0' <= #[trigger] t[i] <= '\u{7f}' by {
            if i < 4 {
                assert(t[i] == d3[i]);
            } else if i == 4 {
            } else if i < 9 {
                assert(t[i] == d2[i - 5]);
            } else if i == 9 {
            } else if i < 14 {
                assert(t[i] == d1[i - 10]);
            } else if i == 14 {
            } else {
                assert(t[i] == d0[i - 15]);
            }
        }
    }
    is_ascii_chars_encode_utf8(t);
    let b = encode_utf8(t);
    assert(b =~= ascii_bytes(t));
    assert(segid_str_ok(b)) by {
        assert forall|i: int| 0 <= i < 19 implies if is_dash_pos(i) {
            #[trigger] b[i] == 45
        } else {
            hex_digit_value(b[i]) is Some
        } by {
            assert(b[i] == t[i] as u8);
            if i < 4 {
                assert(t[i] == d3[i]);
            } else if i < 9 && i > 4 {
                assert(t[i] == d2[i - 5]);
            } else if i < 14 && i > 9 {
                assert(t[i] == d1[i - 10]);
            } else if i > 14 {
                assert(t[i] == d0[i - 15]);
            }
        }
    }
    let digits = segid_digits(b);
    let b3 = ascii_bytes(d3);
    let b2 = ascii_bytes(d2);
    let b1 = ascii_bytes(d1);
    let b0 = ascii_bytes(d0);
    assert(digits =~= b3 + b2 + b1 + b0);
    lemma_hex_value_concat(b3, b2);
    lemma_hex_value_concat(b3 + b2, b1);
    lemma_hex_value_concat(b3 + b2 + b1, b0);
    reveal_with_fuel(pow16, 5);
    assert(pow16(4) == 0x10000);
    let m = 0x10000nat;
    assert(x < 0x1_0000_0000_0000_0000);
    // regroup the four 16-bit groups into the value
    assert(g3 < m);
    assert(g3 % m == g3);
    assert(g2 == g1 / m) by {
        lemma_div_denominator(x as int, 0x10000, 0x10000);
    }
    assert(g3 == g2 / m) by {
        lemma_div_denominator(x as int, 0x1_0000_0000, 0x10000);
    }
    assert(g1 == x / m);
    lemma_fundamental_div_mod(g2 as int, m as int);
    lemma_fundamental_div_mod(g1 as int, m as int);
    lemma_fundamental_div_mod(x as int, m as int);
    assert(hex_value(digits) == ((g3 * m + g2 % m) * m + g1 % m) * m + x % m);
    assert(g3 * m + g2 % m == g2) by (nonlinear_arith)
        requires
            g2 == m * (g2 / m) + g2 % m,
            g3 == g2 / m,
    ;
    assert(g2 * m + g1 % m == g1) by (nonlinear_arith)
        requires
            g1 == m * (g1 / m) + g1 % m,
            g2 == g1 / m,
    ;
    assert(g1 * m + x % m == x) by (nonlinear_arith)
        requires
            x == m * (x / m) + x % m,
            g1 == x / m,
    ;
}

proof fn lemma_hex_char_of_digit(c: u8)
    requires
        hex_digit_value(c) is Some,
    ensures
        hex_digit_value(c)->0 < 16,
        hex_char(hex_digit_value(c)->0) as u8 == c,
{
}

/// Rendering the value of a run of hex digit bytes gives those bytes back.
proof fn lemma_hex_digits_of_value(d: Seq<u8>)
    requires
        forall|i: int| 0 <= i < d.len() ==> hex_digit_value(#[trigger] d[i]) is Some,
    ensures
        ascii_bytes(hex_digits(hex_value(d), d.len())) == d,
    decreases d.len(),
{
    if d.len() > 0 {
        let rest = d.drop_last();
        assert forall|i: int| 0 <= i < rest.len() implies hex_digit_value(#[trigger] rest[i]) is Some by {
            assert(rest[i] == d[i]);
        }
        lemma_hex_digits_of_value(rest);
        let h = hex_value(rest);
        let c = d.last();
        assert(hex_digit_value(c) is Some);
        lemma_hex_char_of_digit(c);
        let dv = hex_digit_value(c)->0;
        assert(hex_value(d) == h * 16 + dv);
        lemma_fundamental_div_mod_converse((h * 16 + dv) as int, 16, h as int, dv as int);
        let prev = hex_digits(h, (d.len() - 1) as nat);
        assert(hex_digits(hex_value(d), d.len()) == prev.push(hex_char(dv)));
        assert(ascii_bytes(prev.push(hex_char(dv))) =~= ascii_bytes(prev).push(c));
        assert(rest.push(c) =~= d);
    }
}

/// The `n` hex digits of a value ignore multiples of `16^n`.
proof fn lemma_hex_digits_shift(x: nat, q: nat, n: nat)
    ensures
        hex_digits(x + q * pow16(n), n) == hex_digits(x, n),
    decreases n,
{
    if n > 0 {
        let p = pow16((n - 1) as nat);
        assert(pow16(n) == 16 * p);
        lemma_fundamental_div_mod(x as int, 16);
        let y = x + q * pow16(n);
        assert(y == 16 * (x / 16 + q * p) + x % 16) by (nonlinear_arith)
            requires
                y == x + q * (16 * p),
                x == 16 * (x / 16) + x % 16,
        ;
        lemma_fundamental_div_mod_converse(y as int, 16, (x / 16 + q * p) as int, (x % 16) as int);
        lemma_hex_digits_shift(x / 16, q, (n - 1) as nat);
    }
}

/// Every string `SegId::parse` accepts is the string form of the
/// identifier it yields.
pub proof fn lemma_segid_parse_text(b: Seq<u8>)
    requires
        spec_parse_segid(b) is Some,
    ensures
        b == encode_utf8(segid_text(spec_parse_segid(b)->0)),
{
    let g3 = b.subrange(0, 4);
    let g2 = b.subrange(5, 9);
    let g1 = b.subrange(10, 14);
    let g0 = b.subrange(15, 19);
    assert forall|i: int| 0 <= i < 4 implies {
        &&& hex_digit_value(#[trigger] g3[i]) is Some
        &&& hex_digit_value(g2[i]) is Some
        &&& hex_digit_value(g1[i]) is Some
        &&& hex_digit_value(g0[i]) is Some
    } by {
        assert(!is_dash_pos(i) && hex_digit_value(b[i]) is Some);
        assert(!is_dash_pos(i + 5) && hex_digit_value(b[i + 5]) is Some);
        assert(!is_dash_pos(i + 10) && hex_digit_value(b[i + 10]) is Some);
        assert(!is_dash_pos(i + 15) && hex_digit_value(b[i + 15]) is Some);
    }
    assert forall|i: int| 0 <= i < g2.len() implies hex_digit_value(#[trigger] g2[i]) is Some by {
        assert(hex_digit_value(g3[i]) is Some);
    }
    assert forall|i: int| 0 <= i < g1.len() implies hex_digit_value(#[trigger] g1[i]) is Some by {
        assert(hex_digit_value(g3[i]) is Some);
    }
    assert forall|i: int| 0 <= i < g0.len() implies hex_digit_value(#[trigger] g0[i]) is Some by {
        assert(hex_digit_value(g3[i]) is Some);
    }
    lemma_hex_digits_of_value(g3);
    lemma_hex_digits_of_value(g2);
    lemma_hex_digits_of_value(g1);
    lemma_hex_digits_of_value(g0);
    let h3 = hex_value(g3);
    let h2 = hex_value(g2);
    let h1 = hex_value(g1);
    let h0 = hex_value(g0);
    reveal_with_fuel(pow16, 5);
    let m = 0x10000nat;
    assert(pow16(4) == m);
    lemma_hex_value_bound(g3);
    lemma_hex_value_bound(g2);
    lemma_hex_value_bound(g1);
    lemma_hex_value_bound(g0);
    let digits = segid_digits(b);
    assert(digits =~= g3 + g2 + g1 + g0);
    lemma_hex_value_concat(g3, g2);
    lemma_hex_value_concat(g3 + g2, g1);
    lemma_hex_value_concat(g3 + g2 + g1, g0);
    let a = h3 * m + h2;
    let c = a * m + h1;
    let x = c * m + h0;
    assert(hex_value(digits) == x);
    assert(x < 0x1_0000_0000_0000_0000) by (nonlinear_arith)
        requires
            h3 < m,
            h2 < m,
            h1 < m,
            h0 < m,
            m == 0x10000,
            a == h3 * m + h2,
            c == a * m + h1,
            x == c * m + h0,
    ;
    let v = spec_parse_segid(b)->0;
    assert(v as nat == x);
    // the four groups of the value
    assert(x == h3 * 0x1_0000_0000_0000 + (h2 * 0x1_0000_0000 + h1 * m + h0)
        && h2 * 0x1_0000_0000 + h1 * m + h0 < 0x1_0000_0000_0000
        && x == a * 0x1_0000_0000 + (h1 * m + h0)
        && h1 * m + h0 < 0x1_0000_0000) by (nonlinear_arith)
        requires
            h2 < m,
            h1 < m,
            h0 < m,
            m == 0x10000,
            a == h3 * m + h2,
            c == a * m + h1,
            x == c * m + h0,
    ;
    lemma_fundamental_div_mod_converse(
        x as int,
        0x1_0000_0000_0000,
        h3 as int,
        (h2 * 0x1_0000_0000 + h1 * m + h0) as int,
    );
    lemma_fundamental_div_mod_converse(x as int, 0x1_0000_0000, a as int, (h1 * m + h0) as int);
    lemma_fundamental_div_mod_converse(x as int, 0x10000, c as int, h0 as int);
    lemma_hex_digits_shift(h2, h3, 4);
    lemma_hex_digits_shift(h1, a, 4);
    lemma_hex_digits_shift(h0, c, 4);
    assert(h2 + h3 * pow16(4) == a);
    assert(h1 + a * pow16(4) == c);
    assert(h0 + c * pow16(4) == x);
    let d3 = hex_digits(x / 0x1_0000_0000_0000, 4);
    let d2 = hex_digits(x / 0x1_0000_0000, 4);
    let d1 = hex_digits(x / 0x1_0000, 4);
    let d0 = hex_digits(x, 4);
    assert(ascii_bytes(d3) == g3);
    assert(ascii_bytes(d2) == g2);
    assert(ascii_bytes(d1) == g1);
    assert(ascii_bytes(d0) == g0);
    lemma_segid_text_parses(v);
    lemma_hex_digits_len(x / 0x1_0000_0000_0000, 4);
    lemma_hex_digits_len(x / 0x1_0000_0000, 4);
    lemma_hex_digits_len(x / 0x1_0000, 4);
    lemma_hex_digits_len(x, 4);
    let t = segid_text(v);
    let dash = seq!['-'];
    assert(t == d3 + dash + d2 + dash + d1 + dash + d0);
    is_ascii_chars_encode_utf8(t);
    let e = encode_utf8(t);
    assert(e =~= ascii_bytes(t));
    assert forall|i: int| 0 <= i < 19 implies #[trigger] e[i] == b[i] by {
        assert(e[i] == t[i] as u8);
        if i < 4 {
            assert(t[i] == d3[i]);
            assert(ascii_bytes(d3)[i] == g3[i]);
        } else if i < 9 && i > 4 {
            assert(t[i] == d2[i - 5]);
            assert(ascii_bytes(d2)[i - 5] == g2[i - 5]);
        } else if i < 14 && i > 9 {
            assert(t[i] == d1[i - 10]);
            assert(ascii_bytes(d1)[i - 10] == g1[i - 10]);
        } else if i > 14 {
            assert(t[i] == d0[i - 15]);
            assert(ascii_bytes(d0)[i - 15] == g0[i - 15]);
        } else {
            assert(is_dash_pos(i));
            assert(b[i] == 45);
        }
    }
    assert(e =~= b);
}

/// `SegId::parse` accepts exactly the string forms of identifiers: it
/// yields `v` for a string if and only if that string is `v`'s form.
pub proof fn lemma_segid_parse_exact(b: Seq<u8>, v: u64)
    ensures
        spec_parse_segid(b) == Some(v) <==> b == encode_utf8(segid_text(v)),
{
    lemma_segid_text_parses(v);
    if spec_parse_segid(b) == Some(v) {
        lemma_segid_parse_text(b);
    }
}

} // verus!

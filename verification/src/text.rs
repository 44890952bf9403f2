//! Character-level helpers shared by the string renderers and parsers.
use vstd::prelude::*;

verus! {

/// Appends `c` to `s` (`String::push`).
#[verifier::external_body]
pub(crate) fn push_char(s: &mut String, c: char)
    ensures
        final(s)@ == old(s)@.push(c),
{
    s.push(c);
}

/// Lower-case hexadecimal digit for a value below sixteen.
pub open spec fn hex_char(d: nat) -> char {
    if d < 10 {
        ((d + 48) as u8) as char
    } else {
        ((d + 87) as u8) as char
    }
}

/// Value of an ASCII lower-case hexadecimal digit, if `b` is one.
pub open spec fn hex_digit_value(b: u8) -> Option<nat> {
    if 48 <= b <= 57 {
        Some((b - 48) as nat)
    } else if 97 <= b <= 102 {
        Some((b - 87) as nat)
    } else {
        None
    }
}

pub(crate) fn hex_char_exec(d: u64) -> (c: char)
    requires
        d < 16,
    ensures
        c == hex_char(d as nat),
{
    if d < 10 {
        ((d + 48) as u8) as char
    } else {
        ((d + 87) as u8) as char
    }
}

/// Decimal digit character for a value below ten.
pub open spec fn dec_char(d: nat) -> char {
    ((d + 48) as u8) as char
}

/// Decimal form of `v` without leading zeros (`"0"` for zero).
pub open spec fn dec_text(v: nat) -> Seq<char>
    decreases v,
{
    if v < 10 {
        seq![dec_char(v)]
    } else {
        dec_text(v / 10).push(dec_char(v % 10))
    }
}

/// The `n` decimal digits of `v mod 10^n`, most significant first
/// (zero-padded on the left).
pub open spec fn dec_fixed(v: nat, n: nat) -> Seq<char>
    decreases n,
{
    if n == 0 {
        Seq::empty()
    } else {
        dec_fixed(v / 10, (n - 1) as nat).push(dec_char(v % 10))
    }
}

/// Appends the decimal form of `v` to `out`.
pub(crate) fn push_decimal(v: u64, out: &mut String)
    ensures
        final(out)@ == old(out)@ + dec_text(v as nat),
    decreases v,
{
    if v >= 10 {
        push_decimal(v / 10, out);
    }
    push_char(out, ((v % 10) as u8 + 48) as char);
    proof {
        assert(dec_char((v % 10) as nat) == ((v % 10) as u8 + 48) as char);
    }
}

/// Appends the `n` zero-padded decimal digits of `v mod 10^n` to `out`.
pub(crate) fn push_dec_fixed(v: u64, n: usize, out: &mut String)
    ensures
        final(out)@ == old(out)@ + dec_fixed(v as nat, n as nat),
    decreases n,
{
    if n > 0 {
        push_dec_fixed(v / 10, n - 1, out);
        push_char(out, ((v % 10) as u8 + 48) as char);
    }
}

/// Appends every character of `t` to `out`.
pub(crate) fn push_str(out: &mut String, t: &str)
    ensures
        final(out)@ == old(out)@ + t@,
{
    out.append(t);
}

} // verus!

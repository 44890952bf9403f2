//! Integer parsing in a given radix, as `u128::from_str_radix` does it.
use vstd::prelude::*;

verus! {

/// `std::num::ParseIntError`, carried through unchanged.
#[verifier::external_type_specification]
#[verifier::external_body]
pub struct ExParseIntError(std::num::ParseIntError);

/// Value of a digit character in `radix`: `0`-`9`, then `a`-`z` or
/// `A`-`Z` for ten and up, if below the radix.
pub open spec fn radix_digit(c: char, radix: u32) -> Option<nat> {
    let v: int = if '0' <= c <= '9' {
        c as int - 48
    } else if 'a' <= c <= 'z' {
        c as int - 87
    } else if 'A' <= c <= 'Z' {
        c as int - 55
    } else {
        99
    };
    if v < radix {
        Some(v as nat)
    } else {
        None
    }
}

/// Value of a non-empty run of digits, most significant first.
pub open spec fn digits_value(cs: Seq<char>, radix: u32) -> Option<nat>
    decreases cs.len(),
{
    if cs.len() == 0 {
        None
    } else if cs.len() == 1 {
        radix_digit(cs[0], radix)
    } else {
        match (digits_value(cs.drop_last(), radix), radix_digit(cs.last(), radix)) {
            (Some(h), Some(d)) => Some(h * (radix as nat) + d),
            _ => None,
        }
    }
}

/// The number a string denotes in `radix`: an optional `+` followed by
/// one or more digits, nothing else.
pub open spec fn spec_radix_value(cs: Seq<char>, radix: u32) -> Option<nat> {
    if cs.len() > 0 && cs[0] == '+' {
        digits_value(cs.drop_first(), radix)
    } else {
        digits_value(cs, radix)
    }
}

/// `u128::from_str_radix`: parses `src` in `radix` (2 to 36). Its
/// documentation gives the grammar restated by `spec_radix_value` and
/// says that values above `u128::MAX` are errors; what the error value
/// holds is not stated.
#[verifier::external_body]
pub(crate) fn u128_from_str_radix(src: &str, radix: u32) -> (r: Result<u128, std::num::ParseIntError>)
    requires
        2 <= radix <= 36,
    ensures
        r is Ok <==> (spec_radix_value(src@, radix) matches Some(n) && n <= u128::MAX),
        r matches Ok(v) ==> spec_radix_value(src@, radix) == Some(v as nat),
{
    u128::from_str_radix(src, radix)
}

} // verus!

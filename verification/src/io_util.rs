//! File-name validation and pattern matching against the log's
//! `<prefix><id><suffix>` convention, with the length of the identifier
//! checked up front.
use crate::error::LogError;
use crate::segid::{parse_segid_bytes, spec_parse_segid, SegId};
use crate::util::{ends_with, starts_with, str_contains};
use vstd::prelude::*;
use vstd::string::*;

verus! {

/// Number of characters in the string form of a segment identifier.
pub const SEG_ID_STR_LEN: usize = 19;

/// The platform's main path separator (`std::path::MAIN_SEPARATOR`).
/// Nothing is stated of its value, which differs between platforms.
#[verifier::external_body]
fn main_separator() -> char {
    std::path::MAIN_SEPARATOR
}

/// Whether a prefix or suffix holds `/` or the separator `sep`.
pub open spec fn has_delimiter(s: Seq<char>, sep: char) -> bool {
    s.contains('/') || s.contains(sep)
}

/// Rejects a prefix or suffix that holds `/` or the separator `sep`.
pub fn validate_prefix_suffix_with(prefix: &str, suffix: &str, sep: char) -> (r: Result<(), LogError>)
    ensures
        r is Ok <==> !has_delimiter(prefix@, sep) && !has_delimiter(suffix@, sep),
        r is Err ==> r matches Err(LogError::HasDelimiter),
{
    if str_contains(prefix, '/') || str_contains(prefix, sep) {
        return Err(LogError::HasDelimiter);
    }
    if str_contains(suffix, '/') || str_contains(suffix, sep) {
        return Err(LogError::HasDelimiter);
    }
    Ok(())
}

/// Rejects prefixes and suffixes that contain a path delimiter: `/`, or
/// the platform's own separator (`\` on Windows).
pub fn validate_prefix_suffix(prefix: &str, suffix: &str) -> (r: Result<(), LogError>)
    ensures
        prefix@.contains('/') || suffix@.contains('/') ==> r matches Err(LogError::HasDelimiter),
        r is Ok ==> !prefix@.contains('/') && !suffix@.contains('/'),
        r is Err ==> r matches Err(LogError::HasDelimiter),
{
    validate_prefix_suffix_with(prefix, suffix, main_separator())
}

/// Names of exactly `<prefix><19 chars><suffix>` whose middle parses as a
/// segment identifier (byte strings).
pub open spec fn spec_segment_name_id(n: Seq<u8>, p: Seq<u8>, s: Seq<u8>) -> Option<u64> {
    if n.len() != p.len() + SEG_ID_STR_LEN + s.len() || !starts_with(n, p) || !ends_with(n, s) {
        None
    } else {
        spec_parse_segid(n.subrange(p.len() as int, n.len() - s.len()))
    }
}

fn segment_name_id(name: &str, prefix: &str, suffix: &str) -> (r: Option<u64>)
    ensures
        r == spec_segment_name_id(name.spec_bytes(), prefix.spec_bytes(), suffix.spec_bytes()),
{
    let n = name.as_bytes();
    let p = prefix.as_bytes();
    let s = suffix.as_bytes();
    if p.len() >= n.len() || s.len() > n.len() - p.len() || n.len() - p.len() - s.len()
        != SEG_ID_STR_LEN {
        return None;
    }
    let mut i: usize = 0;
    while i < p.len()
        invariant
            n@ == name.spec_bytes(),
            p@ == prefix.spec_bytes(),
            s@ == suffix.spec_bytes(),
            n@.len() == p@.len() + SEG_ID_STR_LEN + s@.len(),
            p@.len() < n@.len(),
            0 <= i <= p@.len(),
            forall|k: int| 0 <= k < i ==> n@[k] == p@[k],
        decreases p.len() - i,
    {
        if n[i] != p[i] {
            proof {
                assert(n@.subrange(0, p@.len() as int)[i as int] != p@[i as int]);
            }
            return None;
        }
        i = i + 1;
    }
    proof {
        assert(n@.subrange(0, p@.len() as int) =~= p@);
    }
    let off = n.len() - s.len();
    let mut j: usize = 0;
    while j < s.len()
        invariant
            n@ == name.spec_bytes(),
            p@ == prefix.spec_bytes(),
            s@ == suffix.spec_bytes(),
            n@.len() == p@.len() + SEG_ID_STR_LEN + s@.len(),
            starts_with(n@, p@),
            s@.len() <= n@.len(),
            n@.len() == n.len(),
            off == n@.len() - s@.len(),
            0 <= j <= s@.len(),
            forall|k: int| 0 <= k < j ==> n@[off + k] == s@[k],
        decreases s.len() - j,
    {
        if n[off + j] != s[j] {
            proof {
                assert(n@.subrange(off as int, n@.len() as int)[j as int] != s@[j as int]);
            }
            return None;
        }
        j = j + 1;
    }
    proof {
        assert(n@.subrange(0, p@.len() as int) =~= p@);
        assert(n@.subrange(off as int, n@.len() as int) =~= s@);
    }
    parse_segid_bytes(&n[p.len()..off])
}

/// True when `name` is `<prefix><id><suffix>` with a middle that parses
/// as a segment identifier.
pub fn is_segment_name(name: &str, prefix: &str, suffix: &str) -> (r: bool)
    ensures
        r == spec_segment_name_id(name.spec_bytes(), prefix.spec_bytes(), suffix.spec_bytes()) is Some,
{
    segment_name_id(name, prefix, suffix).is_some()
}

/// The segment identifier of a name that `is_segment_name` accepts.
pub fn parse_segment_name(name: &str, prefix: &str, suffix: &str) -> (r: Option<SegId>)
    ensures
        r matches Some(id) ==> spec_segment_name_id(
            name.spec_bytes(),
            prefix.spec_bytes(),
            suffix.spec_bytes(),
        ) == Some(id@),
        r is None ==> spec_segment_name_id(name.spec_bytes(), prefix.spec_bytes(), suffix.spec_bytes())
            is None,
{
    match segment_name_id(name, prefix, suffix) {
        Some(v) => Some(SegId::from_u64(v)),
        None => None,
    }
}

} // verus!

//! Segment file naming: delimiter checks, building and parsing
//! `<prefix><id><suffix>` names, and picking the segment files of a log
//! out of a directory listing.
use crate::error::LogError;
use crate::segid::{
    lemma_segid_parse_text, lemma_segid_text_parses, parse_segid_bytes, segid_text,
    spec_parse_segid, SegId,
};
use crate::text::push_str;
use vstd::prelude::*;
use vstd::string::*;
use vstd::utf8::*;

verus! {

/// Whether a prefix or suffix holds a path separator (`/` or `\`).
pub open spec fn has_path_delim(s: Seq<char>) -> bool {
    s.contains('/') || s.contains('\\')
}

/// Whether `s` contains the character `c`.
pub(crate) fn str_contains(s: &str, c: char) -> (r: bool)
    ensures
        r == s@.contains(c),
{
    let n = s.unicode_len();
    let mut i: usize = 0;
    while i < n
        invariant
            n == s@.len(),
            0 <= i <= n,
            forall|k: int| 0 <= k < i ==> s@[k] != c,
        decreases n - i,
    {
        if s.get_char(i) == c {
            return true;
        }
        i = i + 1;
    }
    false
}

/// Rejects prefixes and suffixes that contain path separators.
pub fn check_no_path_delim(s: &str) -> (r: Result<(), LogError>)
    ensures
        r is Ok <==> !has_path_delim(s@),
        r is Err ==> r matches Err(LogError::PathDelimiterNotAllowed),
{
    if str_contains(s, '/') || str_contains(s, '\\') {
        Err(LogError::PathDelimiterNotAllowed)
    } else {
        Ok(())
    }
}

/// The on-disk name of a segment file.
pub open spec fn spec_segment_file_name(prefix: Seq<char>, id: u64, suffix: Seq<char>) -> Seq<char> {
    prefix + segid_text(id) + suffix
}

/// Assembles the on-disk name of a segment file.
pub fn segment_file_name(prefix: &str, seg_id: SegId, suffix: &str) -> (r: String)
    ensures
        r@ == spec_segment_file_name(prefix@, seg_id@, suffix@),
{
    let mut out = String::new();
    push_str(&mut out, prefix);
    let id = seg_id.to_string();
    push_str(&mut out, id.as_str());
    push_str(&mut out, suffix);
    out
}

/// `p` is a prefix of `n`.
pub open spec fn starts_with(n: Seq<u8>, p: Seq<u8>) -> bool {
    p.len() <= n.len() && n.subrange(0, p.len() as int) == p
}

/// `s` is a suffix of `n`.
pub open spec fn ends_with(n: Seq<u8>, s: Seq<u8>) -> bool {
    s.len() <= n.len() && n.subrange(n.len() - s.len(), n.len() as int) == s
}

/// The identifier a file name carries between prefix and suffix (byte
/// strings), if the name has that shape; a name on which prefix and
/// suffix overlap has none.
pub open spec fn spec_parse_segment_file_name(n: Seq<u8>, p: Seq<u8>, s: Seq<u8>) -> Option<u64> {
    if !starts_with(n, p) || !ends_with(n, s) || n.len() < p.len() + s.len() {
        None
    } else {
        spec_parse_segid(n.subrange(p.len() as int, n.len() - s.len()))
    }
}

fn bytes_start_with(n: &[u8], p: &[u8]) -> (r: bool)
    ensures
        r == starts_with(n@, p@),
{
    if p.len() > n.len() {
        return false;
    }
    let mut i: usize = 0;
    while i < p.len()
        invariant
            p@.len() <= n@.len(),
            0 <= i <= p@.len(),
            forall|k: int| 0 <= k < i ==> n@[k] == p@[k],
        decreases p.len() - i,
    {
        if n[i] != p[i] {
            proof {
                assert(n@.subrange(0, p@.len() as int)[i as int] != p@[i as int]);
            }
            return false;
        }
        i = i + 1;
    }
    proof {
        assert(n@.subrange(0, p@.len() as int) =~= p@);
    }
    true
}

fn bytes_end_with(n: &[u8], s: &[u8]) -> (r: bool)
    ensures
        r == ends_with(n@, s@),
{
    if s.len() > n.len() {
        return false;
    }
    let off = n.len() - s.len();
    let mut i: usize = 0;
    while i < s.len()
        invariant
            s@.len() <= n@.len(),
            off == n@.len() - s@.len(),
            n@.len() == n.len(),
            0 <= i <= s@.len(),
            forall|k: int| 0 <= k < i ==> n@[off + k] == s@[k],
        decreases s.len() - i,
    {
        if n[off + i] != s[i] {
            proof {
                assert(n@.subrange(off as int, n@.len() as int)[i as int] != s@[i as int]);
            }
            return false;
        }
        i = i + 1;
    }
    proof {
        assert(n@.subrange(off as int, n@.len() as int) =~= s@);
    }
    true
}

/// Extracts the identifier embedded in a file name, or `None` if the name
/// is not `<prefix><SegId::STR_LEN chars><suffix>`.
pub fn parse_segment_file_name(name: &str, prefix: &str, suffix: &str) -> (r: Option<SegId>)
    ensures
        r matches Some(id) ==> spec_parse_segment_file_name(
            name.spec_bytes(),
            prefix.spec_bytes(),
            suffix.spec_bytes(),
        ) == Some(id@),
        r is None ==> spec_parse_segment_file_name(
            name.spec_bytes(),
            prefix.spec_bytes(),
            suffix.spec_bytes(),
        ) is None,
        r matches Some(id) ==> name@ == spec_segment_file_name(prefix@, id@, suffix@),
        forall|v: u64|
            #[trigger] spec_segment_file_name(prefix@, v, suffix@) == name@ ==> (r matches Some(id)
                && id@ == v),
{
    proof {
        assert forall|v: u64| #[trigger]
            spec_segment_file_name(prefix@, v, suffix@) == name@ implies spec_parse_segment_file_name(
            name.spec_bytes(),
            prefix.spec_bytes(),
            suffix.spec_bytes(),
        ) == Some(v) by {
            lemma_segment_file_name_parses(prefix@, v, suffix@);
        }
    }
    let n = name.as_bytes();
    let p = prefix.as_bytes();
    let s = suffix.as_bytes();
    if !bytes_start_with(n, p) || !bytes_end_with(n, s) || n.len() - p.len() < s.len() {
        return None;
    }
    let inner = &n[p.len()..n.len() - s.len()];
    match parse_segid_bytes(inner) {
        Some(v) => {
            proof {
                let pb = p@;
                let sb = s@;
                let nb = n@;
                lemma_segid_parse_text(inner@);
                let t = segid_text(v);
                assert(nb =~= pb + inner@ + sb);
                lemma_encode_utf8_concat(prefix@, t);
                lemma_encode_utf8_concat(prefix@ + t, suffix@);
                assert(encode_utf8(spec_segment_file_name(prefix@, v, suffix@)) == nb);
                encode_utf8_decode_utf8(name@);
                encode_utf8_decode_utf8(spec_segment_file_name(prefix@, v, suffix@));
            }
            Some(SegId::from_u64(v))
        },
        None => None,
    }
}

/// UTF-8 encoding distributes over concatenation.
pub proof fn lemma_encode_utf8_concat(a: Seq<char>, b: Seq<char>)
    ensures
        encode_utf8(a + b) == encode_utf8(a) + encode_utf8(b),
    decreases a.len(),
{
    if a.len() == 0 {
        assert(a + b =~= b);
    } else {
        assert((a + b).drop_first() =~= a.drop_first() + b);
        assert((a + b)[0] == a[0]);
        lemma_encode_utf8_concat(a.drop_first(), b);
    }
}

/// The name built for an identifier parses back to that identifier.
pub proof fn lemma_segment_file_name_parses(prefix: Seq<char>, id: u64, suffix: Seq<char>)
    ensures
        spec_parse_segment_file_name(
            encode_utf8(spec_segment_file_name(prefix, id, suffix)),
            encode_utf8(prefix),
            encode_utf8(suffix),
        ) == Some(id),
{
    let t = segid_text(id);
    lemma_encode_utf8_concat(prefix, t);
    lemma_encode_utf8_concat(prefix + t, suffix);
    lemma_segid_text_parses(id);
    is_ascii_chars_encode_utf8(t);
    let pb = encode_utf8(prefix);
    let tb = encode_utf8(t);
    let sb = encode_utf8(suffix);
    let n = encode_utf8(spec_segment_file_name(prefix, id, suffix));
    assert(n == pb + tb + sb);
    assert(n.subrange(0, pb.len() as int) =~= pb);
    assert(n.subrange(n.len() - sb.len(), n.len() as int) =~= sb);
    assert(n.subrange(pb.len() as int, n.len() - sb.len()) =~= tb);
}

/// The values of a sequence of identifiers.
pub open spec fn ids_view(v: Seq<SegId>) -> Seq<u64> {
    v.map_values(|x: SegId| x@)
}

/// Ascending order.
pub open spec fn sorted_ids(s: Seq<u64>) -> bool {
    forall|i: int, j: int| 0 <= i <= j < s.len() ==> s[i] <= s[j]
}

/// The identifiers carried by the names that have the segment file shape,
/// in listing order.
pub open spec fn parsed_ids(names: Seq<Seq<char>>, p: Seq<u8>, s: Seq<u8>) -> Seq<u64>
    decreases names.len(),
{
    if names.len() == 0 {
        Seq::empty()
    } else {
        let rest = parsed_ids(names.drop_last(), p, s);
        match spec_parse_segment_file_name(encode_utf8(names.last()), p, s) {
            Some(v) => rest.push(v),
            None => rest,
        }
    }
}

/// The character views of a list of names.
pub open spec fn names_view(names: Seq<String>) -> Seq<Seq<char>> {
    names.map_values(|n: String| n@)
}

/// Picks the segment files of a log out of a directory listing: the
/// identifiers of the names matching `<prefix><id><suffix>`, sorted
/// ascending.
pub fn select_segment_ids(names: &Vec<String>, prefix: &str, suffix: &str) -> (r: Vec<SegId>)
    ensures
        sorted_ids(ids_view(r@)),
        ids_view(r@).to_multiset() == parsed_ids(
            names_view(names@),
            prefix.spec_bytes(),
            suffix.spec_bytes(),
        ).to_multiset(),
{
    broadcast use vstd::seq_lib::group_to_multiset_ensures;

    let ghost p = prefix.spec_bytes();
    let ghost sb = suffix.spec_bytes();
    let ghost nv = names_view(names@);
    let mut ids: Vec<SegId> = Vec::new();
    proof {
        assert(ids_view(ids@) =~= Seq::<u64>::empty());
        assert(nv.subrange(0, 0) =~= Seq::<Seq<char>>::empty());
    }
    let mut i: usize = 0;
    while i < names.len()
        invariant
            nv == names_view(names@),
            p == prefix.spec_bytes(),
            sb == suffix.spec_bytes(),
            0 <= i <= names@.len(),
            sorted_ids(ids_view(ids@)),
            ids_view(ids@).to_multiset() == parsed_ids(nv.subrange(0, i as int), p, sb).to_multiset(),
        decreases names.len() - i,
    {
        let name = names[i].as_str();
        let parsed = parse_segment_file_name(name, prefix, suffix);
        let ghost prev = parsed_ids(nv.subrange(0, i as int), p, sb);
        proof {
            assert(nv.subrange(0, i + 1).drop_last() =~= nv.subrange(0, i as int));
            assert(nv.subrange(0, i + 1).last() == names@[i as int]@);
            assert(name.spec_bytes() == encode_utf8(names@[i as int]@));
            assert(parsed_ids(nv.subrange(0, i + 1), p, sb) == match spec_parse_segment_file_name(
                encode_utf8(names@[i as int]@),
                p,
                sb,
            ) {
                Some(v) => prev.push(v),
                None => prev,
            });
        }
        match parsed {
            Some(id) => {
                let mut k: usize = 0;
                while k < ids.len() && ids[k].as_u64() <= id.as_u64()
                    invariant
                        0 <= k <= ids@.len(),
                        forall|j: int| 0 <= j < k ==> (#[trigger] ids@[j])@ <= id@,
                    decreases ids.len() - k,
                {
                    k = k + 1;
                }
                let ghost before = ids_view(ids@);
                ids.insert(k, id);
                proof {
                    assert(ids_view(ids@) =~= before.insert(k as int, id@));
                    vstd::seq_lib::to_multiset_insert(before, k as int, id@);
                    vstd::seq_lib::to_multiset_build(prev, id@);
                    assert(before.to_multiset() == prev.to_multiset());
                    assert(ids_view(ids@).to_multiset() == prev.push(id@).to_multiset());
                    assert(sorted_ids(ids_view(ids@))) by {
                        let s2 = ids_view(ids@);
                        assert forall|a: int, b: int| 0 <= a <= b < s2.len() implies s2[a] <= s2[b] by {
                            if a < k && b > k {
                                assert(s2[a] == before[a]);
                                assert(s2[b] == before[b - 1]);
                            } else if a < k && b == k {
                                assert(s2[a] == ids@[a]@);
                            } else if a == k && b > k {
                                assert(s2[b] == before[b - 1]);
                                if k < before.len() {
                                    assert(before[k as int] > id@);
                                }
                            } else if a > k {
                                assert(s2[a] == before[a - 1]);
                                assert(s2[b] == before[b - 1]);
                            } else if b < k {
                                assert(s2[a] == before[a]);
                                assert(s2[b] == before[b]);
                            }
                        }
                    }
                }
            },
            None => {},
        }
        i = i + 1;
    }
    proof {
        assert(nv.subrange(0, names@.len() as int) =~= nv);
    }
    ids
}

} // verus!

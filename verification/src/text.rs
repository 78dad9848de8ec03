//! Byte-level access to string slices.
//!
//! The grammar is stated over the UTF-8 bytes of the input, while the parsed
//! values are string slices borrowed from it. This module cuts slices at byte
//! offsets and proves that the offsets used by the grammar, which always sit
//! next to an ASCII byte, fall on character boundaries.

use vstd::prelude::*;
use vstd::string::StringSliceAdditionalSpecFns;
use vstd::utf8::*;

verus! {

/// The UTF-8 bytes of an optional string slice.
pub open spec fn opt_bytes(text: Option<&str>) -> Option<Seq<u8>> {
    match text {
        Some(t) => Some(t.spec_bytes()),
        None => None,
    }
}

/// The UTF-8 bytes of each string slice of a sequence.
pub open spec fn seq_bytes(texts: Seq<&str>) -> Seq<Seq<u8>> {
    texts.map_values(|t: &str| t.spec_bytes())
}

/// The byte `b` is an ASCII character on its own.
pub open spec fn is_ascii_byte(b: u8) -> bool {
    b < 0x80
}

/// In well-formed UTF-8 the position of an ASCII byte and the position right
/// after it are both character boundaries.
pub proof fn lemma_boundary_around_ascii(bytes: Seq<u8>, i: int)
    requires
        valid_utf8(bytes),
        0 <= i < bytes.len(),
        is_ascii_byte(bytes[i]),
    ensures
        is_char_boundary(bytes, i),
        is_char_boundary(bytes, i + 1),
{
    is_char_boundary_iff_not_is_continuation_byte(bytes, i);
    valid_utf8_split(bytes, i);
    let tail = bytes.subrange(i, bytes.len() as int);
    assert(tail[0] == bytes[i]);
    assert(length_of_first_scalar(tail) == 1);
    if i + 1 < bytes.len() {
        assert(pop_first_scalar(tail) =~= bytes.subrange(i + 1, bytes.len() as int));
        let rest = pop_first_scalar(tail);
        assert(valid_utf8(rest));
        assert(valid_first_scalar(rest));
        assert(rest[0] == bytes[i + 1]);
        assert(!is_continuation_byte(bytes[i + 1]));
        is_char_boundary_iff_not_is_continuation_byte(bytes, i + 1);
    } else {
        is_char_boundary_start_end_of_seq(bytes);
    }
}

/// Where well-formed UTF-8 begins with another well-formed sequence, the end of
/// that sequence is a character boundary.
pub proof fn lemma_boundary_after_prefix(bytes: Seq<u8>, prefix: Seq<u8>)
    requires
        valid_utf8(bytes),
        valid_utf8(prefix),
        prefix.is_prefix_of(bytes),
    ensures
        is_char_boundary(bytes, prefix.len() as int),
    decreases prefix.len(),
{
    if prefix.len() > 0 {
        let k = length_of_first_scalar(prefix);
        assert(forall|i: int| 0 <= i < prefix.len() ==> prefix[i] == bytes[i]);
        assert(length_of_first_scalar(bytes) == k);
        let prefix_rest = pop_first_scalar(prefix);
        let bytes_rest = pop_first_scalar(bytes);
        assert(prefix_rest =~= bytes_rest.subrange(0, prefix_rest.len() as int));
        lemma_boundary_after_prefix(bytes_rest, prefix_rest);
    }
}

/// The ASCII upper-case letters mapped to lower case, every other byte left
/// alone.
pub open spec fn ascii_lower(b: u8) -> u8 {
    if 0x41 <= b <= 0x5a {
        (b + 0x20) as u8
    } else {
        b
    }
}

/// `s` with its ASCII letters in lower case.
pub open spec fn fold_case(s: Seq<u8>) -> Seq<u8> {
    s.map_values(|b: u8| ascii_lower(b))
}

/// Where well-formed UTF-8 begins, letter case aside, with another well-formed
/// sequence, the end of that sequence is a character boundary: changing the
/// case of ASCII letters changes the length of no character.
pub proof fn lemma_boundary_after_folded_prefix(bytes: Seq<u8>, prefix: Seq<u8>)
    requires
        valid_utf8(bytes),
        valid_utf8(prefix),
        fold_case(prefix).is_prefix_of(fold_case(bytes)),
    ensures
        is_char_boundary(bytes, prefix.len() as int),
    decreases prefix.len(),
{
    if prefix.len() > 0 {
        let k = length_of_first_scalar(prefix);
        assert forall|i: int| 0 <= i < prefix.len() implies ascii_lower(prefix[i]) == ascii_lower(
            bytes[i],
        ) by {
            assert(fold_case(bytes).subrange(0, prefix.len() as int)[i] == fold_case(prefix)[i]);
        }
        assert(ascii_lower(prefix[0]) == ascii_lower(bytes[0]));
        assert(length_of_first_scalar(bytes) == k);
        let prefix_rest = pop_first_scalar(prefix);
        let bytes_rest = pop_first_scalar(bytes);
        assert(fold_case(prefix_rest) =~= fold_case(bytes_rest).subrange(
            0,
            prefix_rest.len() as int,
        )) by {
            assert forall|i: int| 0 <= i < prefix_rest.len() implies fold_case(prefix_rest)[i]
                == fold_case(bytes_rest)[i] by {
                assert(prefix_rest[i] == prefix[i + k]);
                assert(bytes_rest[i] == bytes[i + k]);
            }
        }
        lemma_boundary_after_folded_prefix(bytes_rest, prefix_rest);
    }
}

/// A position of well-formed UTF-8 is a character boundary when it is the end
/// of the input or holds a byte that does not continue a character.
pub proof fn lemma_boundary_at_start_of_char(bytes: Seq<u8>, i: int)
    requires
        valid_utf8(bytes),
        0 <= i <= bytes.len(),
        i < bytes.len() ==> !is_continuation_byte(bytes[i]),
    ensures
        is_char_boundary(bytes, i),
{
    if i < bytes.len() {
        is_char_boundary_iff_not_is_continuation_byte(bytes, i);
    } else {
        is_char_boundary_start_end_of_seq(bytes);
    }
}

/// Cuts `s` in two at byte offset `mid`.
pub fn split_at_byte<'a>(s: &'a str, mid: usize) -> (r: (&'a str, &'a str))
    requires
        is_char_boundary(s.spec_bytes(), mid as int),
    ensures
        r.0.spec_bytes() == s.spec_bytes().take(mid as int),
        r.1.spec_bytes() == s.spec_bytes().skip(mid as int),
{
    s.split_at(mid)
}

} // verus!

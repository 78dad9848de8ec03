//! The `TAGS: ` line of the metadata section: a comma-separated list of tags,
//! each either enclosed in double quotes or a bare run of characters.

use crate::error::ParseError;
use crate::parser::utils::{
    is_rest_of, lemma_rest_of_rest, lemma_scan_len_is, lemma_scan_len_props, lemma_str_bytes_valid,
    parse_literal, scan_len, spec_literal, yields_text, yields_view, LINE_ENDING, NEWLINE,
};
use crate::parser::{MetaDataField, MetaDataFieldView};
use crate::text::{
    lemma_boundary_around_ascii, lemma_boundary_at_start_of_char, seq_bytes, split_at_byte,
};
use vstd::prelude::*;
use vstd::string::StringSliceAdditionalSpecFns;
use vstd::utf8::*;

verus! {

/// The key that begins the line, with the colon and the space after it.
pub const TAGS_KEY: &'static str = "TAGS: ";

/// The double quote.
pub const QUOTE: u8 = 0x22;

/// The comma.
pub const COMMA: u8 = 0x2c;

/// The remaining input begins with a white-space character: one of U+0009 to
/// U+000D, U+0020, U+0085, U+00A0, U+1680, U+2000 to U+200A, U+2028, U+2029,
/// U+202F, U+205F and U+3000, in its UTF-8 encoding.
pub open spec fn at_whitespace(r: Seq<u8>) -> bool {
    r.len() > 0 && {
        ||| 0x09 <= r[0] <= 0x0d
        ||| r[0] == 0x20
        ||| r.len() > 1 && r[0] == 0xc2 && (r[1] == 0x85 || r[1] == 0xa0)
        ||| r.len() > 2 && r[0] == 0xe1 && r[1] == 0x9a && r[2] == 0x80
        ||| r.len() > 2 && r[0] == 0xe2 && r[1] == 0x80 && (0x80 <= r[2] <= 0x8a || r[2] == 0xa8
            || r[2] == 0xa9 || r[2] == 0xaf)
        ||| r.len() > 2 && r[0] == 0xe2 && r[1] == 0x81 && r[2] == 0x9f
        ||| r.len() > 2 && r[0] == 0xe3 && r[1] == 0x80 && r[2] == 0x80
    }
}

/// The characters that count as white space: those with the Unicode property
/// White_Space.
pub open spec fn is_white_space(c: char) -> bool {
    let u = c as u32;
    ||| 0x09 <= u <= 0x0d
    ||| u == 0x20
    ||| u == 0x85
    ||| u == 0xa0
    ||| u == 0x1680
    ||| 0x2000 <= u <= 0x200a
    ||| u == 0x2028
    ||| u == 0x2029
    ||| u == 0x202f
    ||| u == 0x205f
    ||| u == 0x3000
}

/// The first character of well-formed UTF-8 is a Unicode scalar value.
pub proof fn lemma_first_scalar_range(s: Seq<u8>)
    requires
        valid_utf8(s),
        s.len() > 0,
    ensures
        decode_first_scalar(s) <= 0x10ffff,
        !(0xd800 <= decode_first_scalar(s) <= 0xdfff),
{
    let b0 = s[0];
    if is_leading_byte_width_1(b0) {
        assert(((b0 & 0x7f) as u32) <= 0x7f) by (bit_vector);
    } else if is_leading_byte_width_2(b0) {
        let b1 = s[1];
        assert(((((b0 & 0x1f) as u32) << 6) | ((b1 & 0x3f) as u32)) <= 0x7ff) by (bit_vector);
    } else if is_leading_byte_width_3(b0) {
        let b1 = s[1];
        let b2 = s[2];
        assert(((((b0 & 0x0f) as u32) << 12) | (((b1 & 0x3f) as u32) << 6) | ((b2 & 0x3f) as u32))
            <= 0xffff) by (bit_vector);
    }
}

/// In well-formed UTF-8, [`at_whitespace`] holds exactly where the first
/// character is white space.
pub proof fn lemma_whitespace_is_of_characters(s: Seq<u8>)
    requires
        valid_utf8(s),
        s.len() > 0,
    ensures
        at_whitespace(s) == is_white_space(decode_utf8(s)[0]),
{
    let c = decode_first_scalar(s);
    assert(decode_utf8(s)[0] == c as char);
    assert(c <= 0x10ffff && !(0xd800 <= c <= 0xdfff)) by {
        lemma_first_scalar_range(s);
    }
    assert((c as char) as u32 == c);
    let b0 = s[0];
    if is_leading_byte_width_1(b0) {
        assert(b0 & 0x7f == b0) by (bit_vector)
            requires
                b0 <= 0x7f,
        ;
    } else if is_leading_byte_width_2(b0) {
        let b1 = s[1];
        assert(c == (((b0 & 0x1f) as u32) << 6) | ((b1 & 0x3f) as u32));
        assert({
            &&& c <= 0x7ff
            &&& (c == 0x85 <==> b0 == 0xc2 && b1 == 0x85)
            &&& (c == 0xa0 <==> b0 == 0xc2 && b1 == 0xa0)
            &&& !(0x09 <= c <= 0x0d) && c != 0x20
        }) by (bit_vector)
            requires
                c == (((b0 & 0x1f) as u32) << 6) | ((b1 & 0x3f) as u32),
                0xc0 <= b0 <= 0xdf,
                0x80 <= b1 <= 0xbf,
                0x80 <= c,
        ;
    } else if is_leading_byte_width_3(b0) {
        let b1 = s[1];
        let b2 = s[2];
        assert(c == (((b0 & 0x0f) as u32) << 12) | (((b1 & 0x3f) as u32) << 6) | ((b2
            & 0x3f) as u32));
        assert({
            &&& (c == 0x1680 <==> b0 == 0xe1 && b1 == 0x9a && b2 == 0x80)
            &&& (0x2000 <= c <= 0x200a <==> b0 == 0xe2 && b1 == 0x80 && 0x80 <= b2 <= 0x8a)
            &&& (c == 0x2028 <==> b0 == 0xe2 && b1 == 0x80 && b2 == 0xa8)
            &&& (c == 0x2029 <==> b0 == 0xe2 && b1 == 0x80 && b2 == 0xa9)
            &&& (c == 0x202f <==> b0 == 0xe2 && b1 == 0x80 && b2 == 0xaf)
            &&& (c == 0x205f <==> b0 == 0xe2 && b1 == 0x81 && b2 == 0x9f)
            &&& (c == 0x3000 <==> b0 == 0xe3 && b1 == 0x80 && b2 == 0x80)
        }) by (bit_vector)
            requires
                c == (((b0 & 0x0f) as u32) << 12) | (((b1 & 0x3f) as u32) << 6) | ((b2
                    & 0x3f) as u32),
                0xe0 <= b0 <= 0xef,
                0x80 <= b1 <= 0xbf,
                0x80 <= b2 <= 0xbf,
        ;
    } else {
        assert(0x10000 <= c);
    }
}

/// The remaining input begins with what ends a quoted tag's contents: the
/// closing quote, or the end of the line.
pub open spec fn at_quoted_end(r: Seq<u8>) -> bool {
    r.len() > 0 && (r[0] == QUOTE || r[0] == NEWLINE)
}

/// The remaining input begins with what a bare tag cannot hold: a comma, the
/// end of the line, or white space.
pub open spec fn at_bare_end(r: Seq<u8>) -> bool {
    (r.len() > 0 && (r[0] == COMMA || r[0] == NEWLINE)) || at_whitespace(r)
}

/// [`at_quoted_end`] as the condition at which a scan stops.
pub open spec fn quoted_stop() -> spec_fn(Seq<u8>) -> bool {
    |r: Seq<u8>| at_quoted_end(r)
}

/// [`at_bare_end`] as the condition at which a scan stops.
pub open spec fn bare_stop() -> spec_fn(Seq<u8>) -> bool {
    |r: Seq<u8>| at_bare_end(r)
}

/// A tag in double quotes: the characters between the quotes, which may be
/// none and may include white space and commas, but no quote and no line
/// terminator.
pub open spec fn spec_quoted_tag_entry(s: Seq<u8>) -> Result<(Seq<u8>, nat), ParseError> {
    if s.len() == 0 {
        Err(ParseError::IncompleteInput)
    } else if s[0] != QUOTE {
        Err(ParseError::GrammarMismatch)
    } else {
        let contents = s.skip(1);
        let n = scan_len(contents, quoted_stop());
        if n >= contents.len() {
            Err(ParseError::IncompleteInput)
        } else if contents[n as int] != QUOTE {
            Err(ParseError::GrammarMismatch)
        } else {
            Ok((contents.take(n as int), n + 2))
        }
    }
}

/// A bare tag: one or more characters up to the next comma, white space or
/// line terminator.
pub open spec fn spec_non_quoted_tag_entry(s: Seq<u8>) -> Result<(Seq<u8>, nat), ParseError> {
    let n = scan_len(s, bare_stop());
    if n > 0 {
        Ok((s.take(n as int), n))
    } else if s.len() == 0 {
        Err(ParseError::IncompleteInput)
    } else {
        Err(ParseError::GrammarMismatch)
    }
}

/// One tag: quoted if it can be read as such, bare otherwise.
pub open spec fn spec_tag_entry(s: Seq<u8>) -> Result<(Seq<u8>, nat), ParseError> {
    match spec_quoted_tag_entry(s) {
        Ok(tag) => Ok(tag),
        Err(_) => match spec_non_quoted_tag_entry(s) {
            Ok(tag) => Ok(tag),
            Err(_) => Err(ParseError::GrammarMismatch),
        },
    }
}

/// A tag that was read took at least one byte and no more than there are.
pub proof fn lemma_tag_entry_bounds(s: Seq<u8>)
    ensures
        spec_tag_entry(s) matches Ok((_, n)) ==> 0 < n <= s.len(),
{
    if s.len() > 0 {
        lemma_scan_len_props(s.skip(1), quoted_stop());
    }
    lemma_scan_len_props(s, bare_stop());
}

/// What follows a tag: zero or more times a comma and a tag. A comma that no
/// tag follows is left unread.
pub open spec fn spec_tag_tail(s: Seq<u8>) -> (Seq<Seq<u8>>, nat)
    decreases s.len(),
{
    if s.len() > 0 && s[0] == COMMA {
        match spec_tag_entry(s.skip(1)) {
            Err(_) => (Seq::empty(), 0),
            Ok((tag, n)) => {
                proof {
                    lemma_tag_entry_bounds(s.skip(1));
                }
                let (tags, m) = spec_tag_tail(s.skip((1 + n) as int));
                (seq![tag] + tags, 1 + n + m)
            },
        }
    } else {
        (Seq::empty(), 0)
    }
}

/// A list of tags separated by commas; no tags at all where the input begins
/// with none.
pub open spec fn spec_tag_list(s: Seq<u8>) -> (Seq<Seq<u8>>, nat) {
    match spec_tag_entry(s) {
        Err(_) => (Seq::empty(), 0),
        Ok((tag, n)) => {
            let (tags, m) = spec_tag_tail(s.skip(n as int));
            (seq![tag] + tags, n + m)
        },
    }
}

/// `TAGS: `, a list of tags, and the line terminator.
pub open spec fn spec_tags_data(s: Seq<u8>) -> Result<(MetaDataFieldView, nat), ParseError> {
    match spec_literal(s, TAGS_KEY.spec_bytes()) {
        Err(e) => Err(e),
        Ok(k) => {
            let (tags, n) = spec_tag_list(s.skip(k as int));
            match spec_literal(s.skip((k + n) as int), LINE_ENDING.spec_bytes()) {
                Err(e) => Err(e),
                Ok(m) => Ok((MetaDataFieldView::Tags(tags), k + n + m)),
            }
        },
    }
}

/// Reads a tag enclosed in double quotes and returns what stands between them.
pub fn parse_quoted_tag_entry<'a>(input: &'a str) -> (r: Result<(&'a str, &'a str), ParseError>)
    ensures
        yields_text(r, input, spec_quoted_tag_entry(input.spec_bytes())),
{
    let bytes = input.as_bytes();
    if bytes.len() == 0 {
        return Err(ParseError::IncompleteInput);
    }
    if bytes[0] != QUOTE {
        return Err(ParseError::GrammarMismatch);
    }
    let ghost contents = bytes@.skip(1);
    let mut i: usize = 1;
    while i < bytes.len() && bytes[i] != QUOTE && bytes[i] != NEWLINE
        invariant
            1 <= i <= bytes.len(),
            contents == bytes@.skip(1),
            forall|j: int| 0 <= j < i - 1 ==> !#[trigger] quoted_stop()(contents.skip(j)),
        decreases bytes.len() - i,
    {
        assert(contents.skip(i - 1)[0] == bytes@[i as int]);
        i += 1;
    }
    proof {
        if i < bytes.len() {
            assert(contents.skip(i - 1)[0] == bytes@[i as int]);
        }
        lemma_scan_len_is(contents, quoted_stop(), (i - 1) as nat);
    }
    if i >= bytes.len() {
        return Err(ParseError::IncompleteInput);
    }
    if bytes[i] != QUOTE {
        return Err(ParseError::GrammarMismatch);
    }
    proof {
        lemma_str_bytes_valid(input);
        lemma_boundary_around_ascii(bytes@, 0);
        lemma_boundary_around_ascii(bytes@, i as int);
    }
    let (_, rest) = split_at_byte(input, i + 1);
    let (head, _) = split_at_byte(input, i);
    proof {
        lemma_str_bytes_valid(head);
        assert(head.spec_bytes()[0] == bytes@[0]);
        lemma_boundary_around_ascii(head.spec_bytes(), 0);
    }
    let (_, tag) = split_at_byte(head, 1);
    assert(tag.spec_bytes() =~= contents.take(i - 1));
    Ok((rest, tag))
}

/// Whether a white-space character begins at position `at`.
fn whitespace_at(bytes: &[u8], at: usize) -> (r: bool)
    requires
        at < bytes.len(),
    ensures
        r == at_whitespace(bytes@.skip(at as int)),
{
    let ghost tail = bytes@.skip(at as int);
    let b0 = bytes[at];
    assert(tail[0] == b0);
    if (0x09 <= b0 && b0 <= 0x0d) || b0 == 0x20 {
        return true;
    }
    if bytes.len() - at < 2 {
        return false;
    }
    let b1 = bytes[at + 1];
    assert(tail[1] == b1);
    if b0 == 0xc2 {
        return b1 == 0x85 || b1 == 0xa0;
    }
    if bytes.len() - at < 3 {
        return false;
    }
    let b2 = bytes[at + 2];
    assert(tail[2] == b2);
    if b0 == 0xe1 {
        b1 == 0x9a && b2 == 0x80
    } else if b0 == 0xe2 {
        (b1 == 0x80 && ((0x80 <= b2 && b2 <= 0x8a) || b2 == 0xa8 || b2 == 0xa9 || b2 == 0xaf)) || (
        b1 == 0x81 && b2 == 0x9f)
    } else if b0 == 0xe3 {
        b1 == 0x80 && b2 == 0x80
    } else {
        false
    }
}

/// Reads a bare tag.
pub fn parse_non_quoted_tag_entry<'a>(input: &'a str) -> (r: Result<
    (&'a str, &'a str),
    ParseError,
>)
    ensures
        yields_text(r, input, spec_non_quoted_tag_entry(input.spec_bytes())),
{
    let bytes = input.as_bytes();
    let mut i: usize = 0;
    while i < bytes.len() && bytes[i] != COMMA && bytes[i] != NEWLINE && !whitespace_at(bytes, i)
        invariant
            i <= bytes.len(),
            forall|j: int| 0 <= j < i ==> !#[trigger] bare_stop()(bytes@.skip(j)),
        decreases bytes.len() - i,
    {
        assert(bytes@.skip(i as int)[0] == bytes@[i as int]);
        i += 1;
    }
    proof {
        if i < bytes.len() {
            assert(bytes@.skip(i as int)[0] == bytes@[i as int]);
        }
        lemma_scan_len_is(bytes@, bare_stop(), i as nat);
    }
    if i == 0 {
        if bytes.len() == 0 {
            return Err(ParseError::IncompleteInput);
        }
        return Err(ParseError::GrammarMismatch);
    }
    proof {
        lemma_str_bytes_valid(input);
        lemma_boundary_at_start_of_char(bytes@, i as int);
    }
    let (tag, rest) = split_at_byte(input, i);
    Ok((rest, tag))
}

/// Reads one tag, quoted or bare.
pub fn parse_tag_entry<'a>(input: &'a str) -> (r: Result<(&'a str, &'a str), ParseError>)
    ensures
        yields_text(r, input, spec_tag_entry(input.spec_bytes())),
{
    match parse_quoted_tag_entry(input) {
        Ok(tag) => Ok(tag),
        Err(_) => match parse_non_quoted_tag_entry(input) {
            Ok(tag) => Ok(tag),
            Err(_) => Err(ParseError::GrammarMismatch),
        },
    }
}

/// Reads a comma-separated list of tags, which may be empty.
pub fn parse_tag_list<'a>(input: &'a str) -> (r: (&'a str, Vec<&'a str>))
    ensures
        seq_bytes(r.1@) == spec_tag_list(input.spec_bytes()).0,
        is_rest_of(r.0, input, spec_tag_list(input.spec_bytes()).1),
{
    let ghost s = input.spec_bytes();
    let mut tags: Vec<&'a str> = Vec::new();
    assert(s.skip(0) =~= s);
    let (first_rest, first) = match parse_tag_entry(input) {
        Ok(found) => found,
        Err(_) => {
            assert(seq_bytes(tags@) =~= Seq::<Seq<u8>>::empty());
            return (input, tags);
        },
    };
    tags.push(first);
    let mut rest = first_rest;
    let ghost mut at: nat = spec_tag_entry(s)->Ok_0.1;
    assert(seq_bytes(tags@) =~= seq![first.spec_bytes()]);
    loop
        invariant
            s == input.spec_bytes(),
            is_rest_of(rest, input, at),
            spec_tag_list(s).0 == seq_bytes(tags@) + spec_tag_tail(s.skip(at as int)).0,
            spec_tag_list(s).1 == at + spec_tag_tail(s.skip(at as int)).1,
        decreases rest.spec_bytes().len(),
    {
        let bytes = rest.as_bytes();
        if bytes.len() == 0 || bytes[0] != COMMA {
            return (rest, tags);
        }
        proof {
            lemma_str_bytes_valid(rest);
            lemma_boundary_around_ascii(bytes@, 0);
        }
        let (_, after) = split_at_byte(rest, 1);
        match parse_tag_entry(after) {
            Err(_) => {
                return (rest, tags);
            },
            Ok((next, tag)) => {
                proof {
                    let n = spec_tag_entry(after.spec_bytes())->Ok_0.1;
                    lemma_tag_entry_bounds(after.spec_bytes());
                    lemma_rest_of_rest(rest, after, next, 1, n);
                    lemma_rest_of_rest(input, rest, next, at, 1 + n);
                    assert(s.skip(at as int).skip((1 + n) as int) =~= s.skip((at + 1 + n) as int));
                    assert(seq_bytes(tags@.push(tag)) =~= seq_bytes(tags@).push(tag.spec_bytes()));
                    let tail = spec_tag_tail(s.skip((at + 1 + n) as int));
                    assert(seq_bytes(tags@) + (seq![tag.spec_bytes()] + tail.0) =~= seq_bytes(
                        tags@,
                    ).push(tag.spec_bytes()) + tail.0);
                    at = at + 1 + n;
                }
                tags.push(tag);
                rest = next;
            },
        }
    }
}

/// Reads a `TAGS: ` line.
pub fn parse_tags_data<'a>(input: &'a str) -> (r: Result<(&'a str, MetaDataField<'a>), ParseError>)
    ensures
        yields_view(r, input, spec_tags_data(input.spec_bytes())),
{
    let value = parse_literal(input, TAGS_KEY)?;
    let (after, tags) = parse_tag_list(value);
    let rest = parse_literal(after, LINE_ENDING)?;
    proof {
        let s = input.spec_bytes();
        let k = TAGS_KEY.spec_bytes().len();
        let n = spec_tag_list(value.spec_bytes()).1;
        let m = LINE_ENDING.spec_bytes().len();
        assert(s.skip(k as int).skip(n as int) =~= s.skip((k + n) as int));
        lemma_rest_of_rest(value, after, rest, n, m);
        lemma_rest_of_rest(input, value, rest, k, n + m);
    }
    Ok((rest, MetaDataField::Tags(tags)))
}

} // verus!

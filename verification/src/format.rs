//! How a metadata line is written, and the proof that a line so written is
//! read back as the field it was written from.
//!
//! The functions of this module are specifications: they say which bytes
//! stand for a field. [`lemma_field_round_trip`] ties them to the grammar.

use crate::datetime::DateTime;
use crate::error::ParseError;
use crate::model::{ConvertBreaks, Status};
use crate::parser::allow_comments::{spec_allow_comments_data, ALLOW_COMMENTS_KEY};
use crate::parser::allow_pings::{spec_allow_pings_data, ALLOW_PINGS_KEY};
use crate::parser::author::{spec_author_data, AUTHOR_KEY};
use crate::parser::basename::{spec_basename_data, BASENAME_KEY};
use crate::parser::category::{spec_category_data, CATEGORY_KEY};
use crate::parser::convert_breaks::{
    spec_convert_breaks_data, spec_convert_breaks_name, CONVERT_BREAKS_KEY, MARKDOWN,
    MARKDOWN_WITH_SMARTYPANTS, OFF, ON, RICHTEXT, TEXTILE_2,
};
use crate::parser::date::{spec_date_data, spec_date_line, DATE_KEY};
use crate::parser::image::{spec_image_data, IMAGE_KEY};
use crate::parser::no_entry::{spec_no_entry_data, NO_ENTRY_LINE};
use crate::parser::primary_category::{spec_primary_category_data, PRIMARY_CATEGORY_KEY};
use crate::parser::status::{spec_status_data, spec_status_name, DRAFT, FUTURE, PUBLISH, STATUS_KEY};
use crate::parser::tags::{
    bare_stop, quoted_stop, spec_quoted_tag_entry, spec_tag_entry, spec_tag_list, spec_tag_tail,
    spec_tags_data, COMMA, QUOTE, TAGS_KEY,
};
use crate::parser::title::{spec_title_data, TITLE_KEY};
use crate::parser::utils::{
    is_mismatch, lemma_ascii_literal, lemma_line_len_is, lemma_literal_mismatch_at,
    lemma_scan_len_is, spec_date_numbers, spec_date_value, spec_digits, spec_keyed_line,
    spec_literal, spec_literal_no_case, spec_meridiem, spec_num_bool_flag, then_digits,
    then_literal, AM_SUFFIX, COLON, LINE_ENDING, NEWLINE, PM_SUFFIX, SLASH, SPACE,
};
use crate::parser::{spec_metadata_field, MetaDataFieldView};
use crate::text::fold_case;
use vstd::prelude::*;
use vstd::string::StringSliceAdditionalSpecFns;

verus! {

// ---------------------------------------------------------------------------
// What is written
// ---------------------------------------------------------------------------
/// The text has no line terminator in it, so it fits on one line.
pub open spec fn is_one_line(text: Seq<u8>) -> bool {
    forall|i: int| 0 <= i < text.len() ==> #[trigger] text[i] != NEWLINE
}

/// The tag can stand between double quotes: it has neither a double quote nor
/// a line terminator in it.
pub open spec fn is_quotable(tag: Seq<u8>) -> bool {
    forall|i: int| 0 <= i < tag.len() ==> #[trigger] tag[i] != QUOTE && tag[i] != NEWLINE
}

/// The field can be written on a metadata line: its text fits on one line,
/// its tags can be quoted, its date exists and is of no year before zero.
pub open spec fn is_writable(field: MetaDataFieldView) -> bool {
    match field {
        MetaDataFieldView::Author(t) => is_one_line(t),
        MetaDataFieldView::Title(t) => is_one_line(t),
        MetaDataFieldView::BaseName(t) => is_one_line(t),
        MetaDataFieldView::Category(t) => is_one_line(t),
        MetaDataFieldView::PrimaryCategory(t) => is_one_line(t),
        MetaDataFieldView::Image(t) => is_one_line(t),
        MetaDataFieldView::Tags(tags) => forall|i: int|
            0 <= i < tags.len() ==> is_quotable(#[trigger] tags[i]),
        MetaDataFieldView::Date(date) => date.is_valid() && date.year >= 0,
        _ => true,
    }
}

/// A line: the key, the value, the line terminator.
pub open spec fn spec_format_line(key: Seq<u8>, value: Seq<u8>) -> Seq<u8> {
    key + value + seq![NEWLINE]
}

/// The name of a status.
pub open spec fn spec_format_status(status: Status) -> Seq<u8> {
    match status {
        Status::Draft => DRAFT.spec_bytes(),
        Status::Publish => PUBLISH.spec_bytes(),
        Status::Future => FUTURE.spec_bytes(),
    }
}

/// The name of a rendering of line breaks.
pub open spec fn spec_format_convert_breaks(mode: ConvertBreaks) -> Seq<u8> {
    match mode {
        ConvertBreaks::NoConversion => OFF.spec_bytes(),
        ConvertBreaks::Convert => ON.spec_bytes(),
        ConvertBreaks::Markdown => MARKDOWN.spec_bytes(),
        ConvertBreaks::MarkdownWithSmartypants => MARKDOWN_WITH_SMARTYPANTS.spec_bytes(),
        ConvertBreaks::RichText => RICHTEXT.spec_bytes(),
        ConvertBreaks::Textile2 => TEXTILE_2.spec_bytes(),
    }
}

/// A flag: `1` for true, `0` for false.
pub open spec fn spec_format_flag(flag: bool) -> Seq<u8> {
    seq![
        if flag {
            0x31u8
        } else {
            0x30u8
        },
    ]
}

/// The ASCII digit for a number below ten.
pub open spec fn digit(v: int) -> u8 {
    (0x30 + v) as u8
}

/// A date and time as `MM/DD/YYYY HH:MM:SS`, on the 24-hour clock and without
/// a suffix.
pub open spec fn spec_format_date(date: DateTime) -> Seq<u8> {
    seq![
        digit(date.month as int / 10),
        digit(date.month as int % 10),
        0x2fu8,
        digit(date.day as int / 10),
        digit(date.day as int % 10),
        0x2fu8,
        digit(date.year as int / 1000),
        digit(date.year as int / 100 % 10),
        digit(date.year as int / 10 % 10),
        digit(date.year as int % 10),
        0x20u8,
        digit(date.hour as int / 10),
        digit(date.hour as int % 10),
        0x3au8,
        digit(date.minute as int / 10),
        digit(date.minute as int % 10),
        0x3au8,
        digit(date.second as int / 10),
        digit(date.second as int % 10),
    ]
}

/// A tag between double quotes.
pub open spec fn spec_format_tag(tag: Seq<u8>) -> Seq<u8> {
    seq![QUOTE] + tag + seq![QUOTE]
}

/// The tags after the first: each after a comma.
pub open spec fn spec_format_more_tags(tags: Seq<Seq<u8>>) -> Seq<u8>
    decreases tags.len(),
{
    if tags.len() == 0 {
        Seq::empty()
    } else {
        seq![COMMA] + spec_format_tag(tags[0]) + spec_format_more_tags(tags.drop_first())
    }
}

/// A list of tags, each quoted, with commas between them.
pub open spec fn spec_format_tags(tags: Seq<Seq<u8>>) -> Seq<u8> {
    if tags.len() == 0 {
        Seq::empty()
    } else {
        spec_format_tag(tags[0]) + spec_format_more_tags(tags.drop_first())
    }
}

/// The metadata line that stands for a field.
pub open spec fn spec_format_field(field: MetaDataFieldView) -> Seq<u8> {
    match field {
        MetaDataFieldView::Author(t) => spec_format_line(AUTHOR_KEY.spec_bytes(), t),
        MetaDataFieldView::Title(t) => spec_format_line(TITLE_KEY.spec_bytes(), t),
        MetaDataFieldView::BaseName(t) => spec_format_line(BASENAME_KEY.spec_bytes(), t),
        MetaDataFieldView::Status(s) => spec_format_line(
            STATUS_KEY.spec_bytes(),
            spec_format_status(s),
        ),
        MetaDataFieldView::AllowComments(b) => spec_format_line(
            ALLOW_COMMENTS_KEY.spec_bytes(),
            spec_format_flag(b),
        ),
        MetaDataFieldView::AllowPings(b) => spec_format_line(
            ALLOW_PINGS_KEY.spec_bytes(),
            spec_format_flag(b),
        ),
        MetaDataFieldView::ConvertBreaks(c) => spec_format_line(
            CONVERT_BREAKS_KEY.spec_bytes(),
            spec_format_convert_breaks(c),
        ),
        MetaDataFieldView::Category(t) => spec_format_line(CATEGORY_KEY.spec_bytes(), t),
        MetaDataFieldView::PrimaryCategory(t) => spec_format_line(
            PRIMARY_CATEGORY_KEY.spec_bytes(),
            t,
        ),
        MetaDataFieldView::Tags(tags) => spec_format_line(
            TAGS_KEY.spec_bytes(),
            spec_format_tags(tags),
        ),
        MetaDataFieldView::Date(d) => spec_format_line(DATE_KEY.spec_bytes(), spec_format_date(d)),
        MetaDataFieldView::NoEntry => NO_ENTRY_LINE.spec_bytes(),
        MetaDataFieldView::Image(t) => spec_format_line(IMAGE_KEY.spec_bytes(), t),
    }
}

// ---------------------------------------------------------------------------
// Keys
// ---------------------------------------------------------------------------
/// `key` is one of the thirteen literals that begin a metadata line.
pub open spec fn is_metadata_key(key: Seq<u8>) -> bool {
    ||| key == AUTHOR_KEY.spec_bytes()
    ||| key == TITLE_KEY.spec_bytes()
    ||| key == BASENAME_KEY.spec_bytes()
    ||| key == STATUS_KEY.spec_bytes()
    ||| key == ALLOW_COMMENTS_KEY.spec_bytes()
    ||| key == ALLOW_PINGS_KEY.spec_bytes()
    ||| key == CONVERT_BREAKS_KEY.spec_bytes()
    ||| key == PRIMARY_CATEGORY_KEY.spec_bytes()
    ||| key == CATEGORY_KEY.spec_bytes()
    ||| key == DATE_KEY.spec_bytes()
    ||| key == TAGS_KEY.spec_bytes()
    ||| key == NO_ENTRY_LINE.spec_bytes()
    ||| key == IMAGE_KEY.spec_bytes()
}

/// Where two different keys differ: at the first byte, else at the second,
/// else at the seventh.
pub open spec fn keys_differ(a: Seq<u8>, b: Seq<u8>) -> bool {
    a.len() >= 6 && b.len() >= 6 && (a[0] != b[0] || a[1] != b[1] || (a.len() > 6 && b.len() > 6
        && a[6] != b[6]))
}

/// The letters by which the thirteen keys are told apart.
pub proof fn lemma_key_bytes()
    ensures
        AUTHOR_KEY.spec_bytes().len() == 8 && AUTHOR_KEY.spec_bytes()[0] == 0x41
            && AUTHOR_KEY.spec_bytes()[1] == 0x55,
        TITLE_KEY.spec_bytes().len() == 7 && TITLE_KEY.spec_bytes()[0] == 0x54
            && TITLE_KEY.spec_bytes()[1] == 0x49,
        BASENAME_KEY.spec_bytes().len() == 10 && BASENAME_KEY.spec_bytes()[0] == 0x42,
        STATUS_KEY.spec_bytes().len() == 8 && STATUS_KEY.spec_bytes()[0] == 0x53,
        ALLOW_COMMENTS_KEY.spec_bytes().len() == 16 && ALLOW_COMMENTS_KEY.spec_bytes()[0] == 0x41
            && ALLOW_COMMENTS_KEY.spec_bytes()[1] == 0x4c && ALLOW_COMMENTS_KEY.spec_bytes()[6]
            == 0x43,
        ALLOW_PINGS_KEY.spec_bytes().len() == 13 && ALLOW_PINGS_KEY.spec_bytes()[0] == 0x41
            && ALLOW_PINGS_KEY.spec_bytes()[1] == 0x4c && ALLOW_PINGS_KEY.spec_bytes()[6] == 0x50,
        CONVERT_BREAKS_KEY.spec_bytes().len() == 16 && CONVERT_BREAKS_KEY.spec_bytes()[0] == 0x43
            && CONVERT_BREAKS_KEY.spec_bytes()[1] == 0x4f,
        PRIMARY_CATEGORY_KEY.spec_bytes().len() == 18 && PRIMARY_CATEGORY_KEY.spec_bytes()[0]
            == 0x50,
        CATEGORY_KEY.spec_bytes().len() == 10 && CATEGORY_KEY.spec_bytes()[0] == 0x43
            && CATEGORY_KEY.spec_bytes()[1] == 0x41,
        DATE_KEY.spec_bytes().len() == 6 && DATE_KEY.spec_bytes()[0] == 0x44,
        TAGS_KEY.spec_bytes().len() == 6 && TAGS_KEY.spec_bytes()[0] == 0x54
            && TAGS_KEY.spec_bytes()[1] == 0x41,
        NO_ENTRY_LINE.spec_bytes().len() == 12 && NO_ENTRY_LINE.spec_bytes()[0] == 0x4e,
        IMAGE_KEY.spec_bytes().len() == 7 && IMAGE_KEY.spec_bytes()[0] == 0x49,
{
    reveal_strlit("AUTHOR: ");
    reveal_strlit("TITLE: ");
    reveal_strlit("BASENAME: ");
    reveal_strlit("STATUS: ");
    reveal_strlit("ALLOW COMMENTS: ");
    reveal_strlit("ALLOW PINGS: ");
    reveal_strlit("CONVERT BREAKS: ");
    reveal_strlit("PRIMARY CATEGORY: ");
    reveal_strlit("CATEGORY: ");
    reveal_strlit("DATE: ");
    reveal_strlit("TAGS: ");
    reveal_strlit("NO ENTRY: 1\n");
    reveal_strlit("IMAGE: ");
    lemma_ascii_literal("AUTHOR: ");
    lemma_ascii_literal("TITLE: ");
    lemma_ascii_literal("BASENAME: ");
    lemma_ascii_literal("STATUS: ");
    lemma_ascii_literal("ALLOW COMMENTS: ");
    lemma_ascii_literal("ALLOW PINGS: ");
    lemma_ascii_literal("CONVERT BREAKS: ");
    lemma_ascii_literal("PRIMARY CATEGORY: ");
    lemma_ascii_literal("CATEGORY: ");
    lemma_ascii_literal("DATE: ");
    lemma_ascii_literal("TAGS: ");
    lemma_ascii_literal("NO ENTRY: 1\n");
    lemma_ascii_literal("IMAGE: ");
}

/// Any two different keys differ where [`keys_differ`] looks.
pub proof fn lemma_keys_differ(a: Seq<u8>, b: Seq<u8>)
    requires
        is_metadata_key(a),
        is_metadata_key(b),
        a != b,
    ensures
        keys_differ(a, b),
{
    lemma_key_bytes();
}

/// Input that begins with a key matches no other key: no key is the beginning
/// of another.
pub proof fn lemma_keys_exclusive(s: Seq<u8>, key: Seq<u8>, other: Seq<u8>)
    requires
        is_metadata_key(key),
        is_metadata_key(other),
        key != other,
        key.is_prefix_of(s),
    ensures
        spec_literal(s, other) == Err::<nat, ParseError>(ParseError::GrammarMismatch),
{
    lemma_keys_differ(key, other);
    let d: int = if key[0] != other[0] {
        0
    } else if key[1] != other[1] {
        1
    } else {
        6
    };
    assert(s.subrange(0, key.len() as int)[d] == key[d]);
    lemma_literal_mismatch_at(s, other, d);
}

/// Input that begins with a key matches none of the other twelve.
pub proof fn lemma_only_key(s: Seq<u8>, key: Seq<u8>)
    requires
        is_metadata_key(key),
        key.is_prefix_of(s),
    ensures
        key == AUTHOR_KEY.spec_bytes() || is_mismatch(spec_literal(s, AUTHOR_KEY.spec_bytes())),
        key == BASENAME_KEY.spec_bytes() || is_mismatch(spec_literal(s, BASENAME_KEY.spec_bytes())),
        key == ALLOW_COMMENTS_KEY.spec_bytes() || is_mismatch(
            spec_literal(s, ALLOW_COMMENTS_KEY.spec_bytes()),
        ),
        key == CONVERT_BREAKS_KEY.spec_bytes() || is_mismatch(
            spec_literal(s, CONVERT_BREAKS_KEY.spec_bytes()),
        ),
        key == CATEGORY_KEY.spec_bytes() || is_mismatch(spec_literal(s, CATEGORY_KEY.spec_bytes())),
        key == TAGS_KEY.spec_bytes() || is_mismatch(spec_literal(s, TAGS_KEY.spec_bytes())),
        key == IMAGE_KEY.spec_bytes() || is_mismatch(spec_literal(s, IMAGE_KEY.spec_bytes())),
{
    if key != AUTHOR_KEY.spec_bytes() {
        lemma_keys_exclusive(s, key, AUTHOR_KEY.spec_bytes());
    }
    if key != TITLE_KEY.spec_bytes() {
        lemma_keys_exclusive(s, key, TITLE_KEY.spec_bytes());
    }
    if key != BASENAME_KEY.spec_bytes() {
        lemma_keys_exclusive(s, key, BASENAME_KEY.spec_bytes());
    }
    if key != STATUS_KEY.spec_bytes() {
        lemma_keys_exclusive(s, key, STATUS_KEY.spec_bytes());
    }
    if key != ALLOW_COMMENTS_KEY.spec_bytes() {
        lemma_keys_exclusive(s, key, ALLOW_COMMENTS_KEY.spec_bytes());
    }
    if key != ALLOW_PINGS_KEY.spec_bytes() {
        lemma_keys_exclusive(s, key, ALLOW_PINGS_KEY.spec_bytes());
    }
    if key != CONVERT_BREAKS_KEY.spec_bytes() {
        lemma_keys_exclusive(s, key, CONVERT_BREAKS_KEY.spec_bytes());
    }
    if key != PRIMARY_CATEGORY_KEY.spec_bytes() {
        lemma_keys_exclusive(s, key, PRIMARY_CATEGORY_KEY.spec_bytes());
    }
    if key != CATEGORY_KEY.spec_bytes() {
        lemma_keys_exclusive(s, key, CATEGORY_KEY.spec_bytes());
    }
    if key != DATE_KEY.spec_bytes() {
        lemma_keys_exclusive(s, key, DATE_KEY.spec_bytes());
    }
    if key != TAGS_KEY.spec_bytes() {
        lemma_keys_exclusive(s, key, TAGS_KEY.spec_bytes());
    }
    if key != NO_ENTRY_LINE.spec_bytes() {
        lemma_keys_exclusive(s, key, NO_ENTRY_LINE.spec_bytes());
    }
    if key != IMAGE_KEY.spec_bytes() {
        lemma_keys_exclusive(s, key, IMAGE_KEY.spec_bytes());
    }
}

// ---------------------------------------------------------------------------
// Values
// ---------------------------------------------------------------------------
/// A key written before a value is read as that key, and the value is what
/// follows.
pub proof fn lemma_key_is_read(key: Seq<u8>, value: Seq<u8>)
    ensures
        key.is_prefix_of(key + value),
        spec_literal(key + value, key) == Ok::<nat, ParseError>(key.len()),
        (key + value).skip(key.len() as int) == value,
{
    let s = key + value;
    assert(s.subrange(0, key.len() as int) =~= key);
    assert(s.skip(key.len() as int) =~= value);
}

/// The line terminator is the single byte [`NEWLINE`].
pub proof fn lemma_line_ending_bytes()
    ensures
        LINE_ENDING.spec_bytes() =~= seq![NEWLINE],
{
    reveal_strlit("\n");
    lemma_ascii_literal("\n");
}

/// A text of one line, written after its key, is read back.
pub proof fn lemma_keyed_line_round_trip(key: Seq<u8>, text: Seq<u8>)
    requires
        is_one_line(text),
    ensures
        spec_keyed_line(spec_format_line(key, text), key) == Ok::<(Seq<u8>, nat), ParseError>(
            (text, spec_format_line(key, text).len()),
        ),
{
    let value = text + seq![NEWLINE];
    assert(spec_format_line(key, text) =~= key + value);
    lemma_key_is_read(key, value);
    lemma_line_len_is(value, text.len());
    assert(value.take(text.len() as int) =~= text);
}

/// A flag that is written is read back.
pub proof fn lemma_flag_round_trip(flag: bool)
    ensures
        spec_num_bool_flag(spec_format_flag(flag) + seq![NEWLINE]) == Ok::<
            (bool, nat),
            ParseError,
        >((flag, 2)),
{
    let s = spec_format_flag(flag) + seq![NEWLINE];
    lemma_line_ending_bytes();
    assert(s.skip(1) =~= seq![NEWLINE]);
    assert(s.skip(1).subrange(0, 1) =~= seq![NEWLINE]);
}

/// The first letters of the three status names.
pub proof fn lemma_status_name_bytes()
    ensures
        DRAFT.spec_bytes().len() == 5 && DRAFT.spec_bytes()[0] == 0x44,
        PUBLISH.spec_bytes().len() == 7 && PUBLISH.spec_bytes()[0] == 0x50,
        FUTURE.spec_bytes().len() == 6 && FUTURE.spec_bytes()[0] == 0x46,
{
    reveal_strlit("Draft");
    reveal_strlit("Publish");
    reveal_strlit("Future");
    lemma_ascii_literal("Draft");
    lemma_ascii_literal("Publish");
    lemma_ascii_literal("Future");
}

/// A name written before anything is read as that name, whatever the case of
/// its letters in the grammar.
pub proof fn lemma_name_is_read(name: Seq<u8>, rest: Seq<u8>)
    ensures
        spec_literal_no_case(name + rest, name) == Ok::<nat, ParseError>(name.len()),
{
    let s = name + rest;
    assert(fold_case(s).subrange(0, name.len() as int) =~= fold_case(name));
}

/// Input is not read as a name from which it differs, letter case aside, at
/// some position.
pub proof fn lemma_name_mismatch_at(s: Seq<u8>, name: Seq<u8>, d: int)
    requires
        0 <= d < s.len(),
        d < name.len(),
        fold_case(s)[d] != fold_case(name)[d],
    ensures
        spec_literal_no_case(s, name) is Err,
{
    lemma_literal_mismatch_at(fold_case(s), fold_case(name), d);
}

/// A status name that is written is read back.
pub proof fn lemma_status_round_trip(status: Status, rest: Seq<u8>)
    ensures
        spec_status_name(spec_format_status(status) + rest) == Ok::<(Status, nat), ParseError>(
            (status, spec_format_status(status).len()),
        ),
{
    let name = spec_format_status(status);
    let s = name + rest;
    lemma_status_name_bytes();
    lemma_name_is_read(name, rest);
    assert(s[0] == name[0]);
    match status {
        Status::Draft => {},
        Status::Publish => {
            lemma_name_mismatch_at(s, DRAFT.spec_bytes(), 0);
        },
        Status::Future => {
            lemma_name_mismatch_at(s, DRAFT.spec_bytes(), 0);
            lemma_name_mismatch_at(s, PUBLISH.spec_bytes(), 0);
        },
    }
}

/// The letters by which the six names of a rendering are told apart.
pub proof fn lemma_convert_breaks_name_bytes()
    ensures
        OFF.spec_bytes().len() == 1 && OFF.spec_bytes()[0] == 0x30,
        ON.spec_bytes().len() == 1 && ON.spec_bytes()[0] == 0x31,
        MARKDOWN_WITH_SMARTYPANTS.spec_bytes().len() == 25
            && MARKDOWN_WITH_SMARTYPANTS.spec_bytes()[0] == 0x6d
            && MARKDOWN_WITH_SMARTYPANTS.spec_bytes()[8] == 0x5f,
        MARKDOWN.spec_bytes().len() == 8 && MARKDOWN.spec_bytes()[0] == 0x6d,
        RICHTEXT.spec_bytes().len() == 8 && RICHTEXT.spec_bytes()[0] == 0x72,
        TEXTILE_2.spec_bytes().len() == 9 && TEXTILE_2.spec_bytes()[0] == 0x74,
{
    reveal_strlit("0");
    reveal_strlit("1");
    reveal_strlit("markdown_with_smartypants");
    reveal_strlit("markdown");
    reveal_strlit("richtext");
    reveal_strlit("textile_2");
    lemma_ascii_literal("0");
    lemma_ascii_literal("1");
    lemma_ascii_literal("markdown_with_smartypants");
    lemma_ascii_literal("markdown");
    lemma_ascii_literal("richtext");
    lemma_ascii_literal("textile_2");
}

/// The name of a rendering that is written and followed by the end of the
/// line is read back.
pub proof fn lemma_convert_breaks_round_trip(mode: ConvertBreaks)
    ensures
        spec_convert_breaks_name(spec_format_convert_breaks(mode) + seq![NEWLINE]) == Ok::<
            (ConvertBreaks, nat),
            ParseError,
        >((mode, spec_format_convert_breaks(mode).len())),
{
    let name = spec_format_convert_breaks(mode);
    let rest = seq![NEWLINE];
    let s = name + rest;
    lemma_convert_breaks_name_bytes();
    lemma_name_is_read(name, rest);
    assert(s[0] == name[0]);
    match mode {
        ConvertBreaks::NoConversion => {},
        ConvertBreaks::Convert => {
            lemma_name_mismatch_at(s, OFF.spec_bytes(), 0);
        },
        ConvertBreaks::MarkdownWithSmartypants => {
            lemma_name_mismatch_at(s, OFF.spec_bytes(), 0);
            lemma_name_mismatch_at(s, ON.spec_bytes(), 0);
        },
        ConvertBreaks::Markdown => {
            lemma_name_mismatch_at(s, OFF.spec_bytes(), 0);
            lemma_name_mismatch_at(s, ON.spec_bytes(), 0);
            assert(s[8] == NEWLINE);
            lemma_name_mismatch_at(s, MARKDOWN_WITH_SMARTYPANTS.spec_bytes(), 8);
        },
        ConvertBreaks::RichText => {
            lemma_name_mismatch_at(s, OFF.spec_bytes(), 0);
            lemma_name_mismatch_at(s, ON.spec_bytes(), 0);
            lemma_name_mismatch_at(s, MARKDOWN_WITH_SMARTYPANTS.spec_bytes(), 0);
            lemma_name_mismatch_at(s, MARKDOWN.spec_bytes(), 0);
        },
        ConvertBreaks::Textile2 => {
            lemma_name_mismatch_at(s, OFF.spec_bytes(), 0);
            lemma_name_mismatch_at(s, ON.spec_bytes(), 0);
            lemma_name_mismatch_at(s, MARKDOWN_WITH_SMARTYPANTS.spec_bytes(), 0);
            lemma_name_mismatch_at(s, MARKDOWN.spec_bytes(), 0);
            lemma_name_mismatch_at(s, RICHTEXT.spec_bytes(), 0);
        },
    }
}

// ---------------------------------------------------------------------------
// Dates
// ---------------------------------------------------------------------------
/// Two digits written for a number below a hundred are read as that number.
pub proof fn lemma_two_digits(s: Seq<u8>, at: int, v: int)
    requires
        0 <= at,
        at + 2 <= s.len(),
        0 <= v < 100,
        s[at] == digit(v / 10),
        s[at + 1] == digit(v % 10),
    ensures
        spec_digits(s.skip(at), 2) == Ok::<(nat, nat), ParseError>((v as nat, 2)),
{
    reveal_with_fuel(spec_digits, 3);
    let t = s.skip(at);
    assert(t[0] == s[at]);
    assert(t[1] == s[at + 1]);
}

/// Four digits written for a number below ten thousand are read as that
/// number.
pub proof fn lemma_four_digits(s: Seq<u8>, at: int, v: int)
    requires
        0 <= at,
        at + 4 <= s.len(),
        0 <= v < 10000,
        s[at] == digit(v / 1000),
        s[at + 1] == digit(v / 100 % 10),
        s[at + 2] == digit(v / 10 % 10),
        s[at + 3] == digit(v % 10),
    ensures
        spec_digits(s.skip(at), 4) == Ok::<(nat, nat), ParseError>((v as nat, 4)),
{
    reveal_with_fuel(spec_digits, 5);
    let t = s.skip(at);
    assert(t[0] == s[at]);
    assert(t[1] == s[at + 1]);
    assert(t[2] == s[at + 2]);
    assert(t[3] == s[at + 3]);
}

/// A mark of one byte is read where that byte stands.
pub proof fn lemma_mark(s: Seq<u8>, at: int, mark: Seq<u8>)
    requires
        mark.len() == 1,
        0 <= at < s.len(),
        s[at] == mark[0],
    ensures
        spec_literal(s.skip(at), mark) == Ok::<nat, ParseError>(1),
{
    assert(s.skip(at).subrange(0, 1) =~= mark);
}

/// The bytes of the marks of a date, and the first byte of its suffixes.
pub proof fn lemma_date_mark_bytes()
    ensures
        SLASH.spec_bytes() =~= seq![0x2fu8],
        SPACE.spec_bytes() =~= seq![0x20u8],
        COLON.spec_bytes() =~= seq![0x3au8],
        AM_SUFFIX.spec_bytes().len() == 3 && AM_SUFFIX.spec_bytes()[0] == 0x20,
        PM_SUFFIX.spec_bytes().len() == 3 && PM_SUFFIX.spec_bytes()[0] == 0x20,
{
    reveal_strlit("/");
    reveal_strlit(" ");
    reveal_strlit(":");
    reveal_strlit(" AM");
    reveal_strlit(" PM");
    lemma_ascii_literal("/");
    lemma_ascii_literal(" ");
    lemma_ascii_literal(":");
    lemma_ascii_literal(" AM");
    lemma_ascii_literal(" PM");
}

/// The six numbers of a date that is written are read back.
pub proof fn lemma_date_numbers_round_trip(date: DateTime, rest: Seq<u8>)
    requires
        date.is_valid(),
        date.year >= 0,
    ensures
        spec_date_numbers(spec_format_date(date) + rest) == Ok::<(Seq<nat>, nat), ParseError>(
            (
                seq![
                    date.month as nat,
                    date.day as nat,
                    date.year as nat,
                    date.hour as nat,
                    date.minute as nat,
                    date.second as nat,
                ],
                19,
            ),
        ),
{
    let written = spec_format_date(date);
    let s = written + rest;
    lemma_date_mark_bytes();
    assert forall|i: int| 0 <= i < 19 implies s[i] == written[i] by {}
    let none = Seq::<nat>::empty();
    let start = Ok::<(Seq<nat>, nat), ParseError>((none, 0nat));
    lemma_two_digits(s, 0, date.month as int);
    let m = none.push(date.month as nat);
    let st = then_digits(start, s, 2);
    assert(st == Ok::<(Seq<nat>, nat), ParseError>((m, 2)));
    lemma_mark(s, 2, SLASH.spec_bytes());
    let st = then_literal(st, s, SLASH.spec_bytes());
    assert(st == Ok::<(Seq<nat>, nat), ParseError>((m, 3)));
    lemma_two_digits(s, 3, date.day as int);
    let d = m.push(date.day as nat);
    let st = then_digits(st, s, 2);
    assert(st == Ok::<(Seq<nat>, nat), ParseError>((d, 5)));
    lemma_mark(s, 5, SLASH.spec_bytes());
    let st = then_literal(st, s, SLASH.spec_bytes());
    assert(st == Ok::<(Seq<nat>, nat), ParseError>((d, 6)));
    lemma_four_digits(s, 6, date.year as int);
    let y = d.push(date.year as nat);
    let st = then_digits(st, s, 4);
    assert(st == Ok::<(Seq<nat>, nat), ParseError>((y, 10)));
    lemma_mark(s, 10, SPACE.spec_bytes());
    let st = then_literal(st, s, SPACE.spec_bytes());
    assert(st == Ok::<(Seq<nat>, nat), ParseError>((y, 11)));
    lemma_two_digits(s, 11, date.hour as int);
    let h = y.push(date.hour as nat);
    let st = then_digits(st, s, 2);
    assert(st == Ok::<(Seq<nat>, nat), ParseError>((h, 13)));
    lemma_mark(s, 13, COLON.spec_bytes());
    let st = then_literal(st, s, COLON.spec_bytes());
    assert(st == Ok::<(Seq<nat>, nat), ParseError>((h, 14)));
    lemma_two_digits(s, 14, date.minute as int);
    let mi = h.push(date.minute as nat);
    let st = then_digits(st, s, 2);
    assert(st == Ok::<(Seq<nat>, nat), ParseError>((mi, 16)));
    lemma_mark(s, 16, COLON.spec_bytes());
    let st = then_literal(st, s, COLON.spec_bytes());
    assert(st == Ok::<(Seq<nat>, nat), ParseError>((mi, 17)));
    lemma_two_digits(s, 17, date.second as int);
    let all = mi.push(date.second as nat);
    let st = then_digits(st, s, 2);
    assert(st == Ok::<(Seq<nat>, nat), ParseError>((all, 19)));
    assert(all =~= seq![
        date.month as nat,
        date.day as nat,
        date.year as nat,
        date.hour as nat,
        date.minute as nat,
        date.second as nat,
    ]);
    assert(st == spec_date_numbers(s));
}

/// A date that is written, and is not followed by a space, is read back.
pub proof fn lemma_date_round_trip(date: DateTime, rest: Seq<u8>)
    requires
        date.is_valid(),
        date.year >= 0,
        rest.len() == 0 || rest[0] != 0x20,
    ensures
        spec_date_value(spec_format_date(date) + rest) == Ok::<(DateTime, nat), ParseError>(
            (date, 19),
        ),
{
    let s = spec_format_date(date) + rest;
    lemma_date_numbers_round_trip(date, rest);
    lemma_date_mark_bytes();
    assert(s.skip(19) =~= rest);
    if rest.len() > 0 {
        lemma_literal_mismatch_at(rest, AM_SUFFIX.spec_bytes(), 0);
        lemma_literal_mismatch_at(rest, PM_SUFFIX.spec_bytes(), 0);
    }
    assert(spec_meridiem(rest) == (false, 0nat));
}

/// A date that is written with ` AM` after it is read as the date written;
/// with ` PM` after it, as the same day twelve hours later on the clock. The
/// hour 12 is no exception: `12:00:00 AM` is read as noon, and `12:00:00 PM`
/// as the midnight at which the same day began.
pub proof fn lemma_date_with_suffix(date: DateTime, pm: bool, rest: Seq<u8>)
    requires
        date.is_valid(),
        date.year >= 0,
    ensures
        spec_date_value(
            spec_format_date(date) + (if pm {
                PM_SUFFIX.spec_bytes()
            } else {
                AM_SUFFIX.spec_bytes()
            }) + rest,
        ) == Ok::<(DateTime, nat), ParseError>(
            (
                if pm {
                    date.spec_plus_hours(12)
                } else {
                    date
                },
                22,
            ),
        ),
{
    let suffix = if pm {
        PM_SUFFIX.spec_bytes()
    } else {
        AM_SUFFIX.spec_bytes()
    };
    let s = spec_format_date(date) + suffix + rest;
    assert(s =~= spec_format_date(date) + (suffix + rest));
    lemma_date_numbers_round_trip(date, suffix + rest);
    reveal_strlit(" AM");
    reveal_strlit(" PM");
    lemma_ascii_literal(" AM");
    lemma_ascii_literal(" PM");
    let after = s.skip(19);
    assert(after =~= suffix + rest);
    assert(after.subrange(0, 3) =~= suffix);
    if pm {
        lemma_literal_mismatch_at(after, AM_SUFFIX.spec_bytes(), 1);
    }
    assert(spec_meridiem(after) == (pm, 3nat));
}

// ---------------------------------------------------------------------------
// Tags
// ---------------------------------------------------------------------------
/// A tag that is written between quotes is read back without them.
pub proof fn lemma_tag_round_trip(tag: Seq<u8>, rest: Seq<u8>)
    requires
        is_quotable(tag),
    ensures
        spec_tag_entry(spec_format_tag(tag) + rest) == Ok::<(Seq<u8>, nat), ParseError>(
            (tag, tag.len() + 2),
        ),
{
    let s = spec_format_tag(tag) + rest;
    assert(s[0] == QUOTE);
    let contents = s.skip(1);
    assert(contents =~= tag + seq![QUOTE] + rest);
    assert forall|j: int| 0 <= j < tag.len() implies !#[trigger] quoted_stop()(
        contents.skip(j),
    ) by {
        assert(contents.skip(j)[0] == tag[j]);
    }
    assert(contents.skip(tag.len() as int)[0] == QUOTE);
    lemma_scan_len_is(contents, quoted_stop(), tag.len());
    assert(contents.take(tag.len() as int) =~= tag);
    assert(spec_quoted_tag_entry(s) == Ok::<(Seq<u8>, nat), ParseError>((tag, tag.len() + 2)));
}

/// The tags that are written after the first are read back.
pub proof fn lemma_more_tags_round_trip(tags: Seq<Seq<u8>>, rest: Seq<u8>)
    requires
        forall|i: int| 0 <= i < tags.len() ==> is_quotable(#[trigger] tags[i]),
        rest.len() == 0 || rest[0] != COMMA,
    ensures
        spec_tag_tail(spec_format_more_tags(tags) + rest) == (
            tags,
            spec_format_more_tags(tags).len(),
        ),
    decreases tags.len(),
{
    let s = spec_format_more_tags(tags) + rest;
    if tags.len() == 0 {
        assert(s =~= rest);
        assert(tags =~= Seq::<Seq<u8>>::empty());
    } else {
        let first = tags[0];
        let more = tags.drop_first();
        let after = spec_format_more_tags(more) + rest;
        assert(s[0] == COMMA);
        assert(s.skip(1) =~= spec_format_tag(first) + after);
        lemma_tag_round_trip(first, after);
        let n = first.len() + 2;
        assert(s.skip((1 + n) as int) =~= after);
        assert forall|i: int| 0 <= i < more.len() implies is_quotable(#[trigger] more[i]) by {
            assert(more[i] == tags[i + 1]);
        }
        lemma_more_tags_round_trip(more, rest);
        assert(seq![first] + more =~= tags);
    }
}

/// A list of tags that is written and followed by the end of the line is read
/// back.
pub proof fn lemma_tags_round_trip(tags: Seq<Seq<u8>>)
    requires
        forall|i: int| 0 <= i < tags.len() ==> is_quotable(#[trigger] tags[i]),
    ensures
        spec_tag_list(spec_format_tags(tags) + seq![NEWLINE]) == (
            tags,
            spec_format_tags(tags).len(),
        ),
{
    let rest = seq![NEWLINE];
    let s = spec_format_tags(tags) + rest;
    if tags.len() == 0 {
        assert(s =~= rest);
        assert(bare_stop()(s));
        assert(spec_tag_entry(s) is Err);
        assert(tags =~= Seq::<Seq<u8>>::empty());
    } else {
        let first = tags[0];
        let more = tags.drop_first();
        let after = spec_format_more_tags(more) + rest;
        assert(s =~= spec_format_tag(first) + after);
        lemma_tag_round_trip(first, after);
        let n = first.len() + 2;
        assert(s.skip(n as int) =~= after);
        assert forall|i: int| 0 <= i < more.len() implies is_quotable(#[trigger] more[i]) by {
            assert(more[i] == tags[i + 1]);
        }
        lemma_more_tags_round_trip(more, rest);
        assert(seq![first] + more =~= tags);
    }
}

// ---------------------------------------------------------------------------
// Lines
// ---------------------------------------------------------------------------
/// A value written after a key and before the line terminator follows the key
/// in the line, and the line begins with the key.
pub proof fn lemma_line_parts(key: Seq<u8>, value: Seq<u8>)
    ensures
        key.is_prefix_of(spec_format_line(key, value)),
        spec_literal(spec_format_line(key, value), key) == Ok::<nat, ParseError>(key.len()),
        spec_format_line(key, value).skip(key.len() as int) == value + seq![NEWLINE],
        spec_format_line(key, value).skip((key.len() + value.len()) as int) == seq![NEWLINE],
        spec_literal(seq![NEWLINE], LINE_ENDING.spec_bytes()) == Ok::<nat, ParseError>(1),
{
    let s = spec_format_line(key, value);
    assert(s =~= key + (value + seq![NEWLINE]));
    lemma_key_is_read(key, value + seq![NEWLINE]);
    assert(s.skip((key.len() + value.len()) as int) =~= seq![NEWLINE]);
    lemma_line_ending_bytes();
    assert(seq![NEWLINE].subrange(0, 1) =~= seq![NEWLINE]);
}

/// A status line that is written is read back by the parser of status lines.
pub proof fn lemma_status_line_round_trip(status: Status)
    ensures
        spec_status_data(spec_format_field(MetaDataFieldView::Status(status))) == Ok::<
            (MetaDataFieldView, nat),
            ParseError,
        >(
            (
                MetaDataFieldView::Status(status),
                spec_format_field(MetaDataFieldView::Status(status)).len(),
            ),
        ),
{
    let key = STATUS_KEY.spec_bytes();
    let name = spec_format_status(status);
    lemma_line_parts(key, name);
    lemma_status_round_trip(status, seq![NEWLINE]);
    let value = name + seq![NEWLINE];
    assert(value.skip(name.len() as int) =~= seq![NEWLINE]);
}

/// A line that names a rendering of line breaks and is written is read back
/// by the parser of such lines.
pub proof fn lemma_convert_breaks_line_round_trip(mode: ConvertBreaks)
    ensures
        spec_convert_breaks_data(spec_format_field(MetaDataFieldView::ConvertBreaks(mode))) == Ok::<
            (MetaDataFieldView, nat),
            ParseError,
        >(
            (
                MetaDataFieldView::ConvertBreaks(mode),
                spec_format_field(MetaDataFieldView::ConvertBreaks(mode)).len(),
            ),
        ),
{
    let key = CONVERT_BREAKS_KEY.spec_bytes();
    let name = spec_format_convert_breaks(mode);
    lemma_line_parts(key, name);
    lemma_convert_breaks_round_trip(mode);
    let value = name + seq![NEWLINE];
    assert(value.skip(name.len() as int) =~= seq![NEWLINE]);
}

/// A date line that is written is read back by the parser of date lines.
pub proof fn lemma_date_line_round_trip(date: DateTime)
    requires
        date.is_valid(),
        date.year >= 0,
    ensures
        spec_date_data(spec_format_field(MetaDataFieldView::Date(date))) == Ok::<
            (MetaDataFieldView, nat),
            ParseError,
        >((MetaDataFieldView::Date(date), spec_format_field(MetaDataFieldView::Date(date)).len())),
{
    let key = DATE_KEY.spec_bytes();
    let written = spec_format_date(date);
    lemma_line_parts(key, written);
    lemma_date_round_trip(date, seq![NEWLINE]);
    let value = written + seq![NEWLINE];
    assert(value.skip(19) =~= seq![NEWLINE]);
    assert(spec_date_line(value) == Ok::<(DateTime, nat), ParseError>((date, 20)));
}

/// A line of tags that is written is read back by the parser of such lines.
pub proof fn lemma_tags_line_round_trip(tags: Seq<Seq<u8>>)
    requires
        forall|i: int| 0 <= i < tags.len() ==> is_quotable(#[trigger] tags[i]),
    ensures
        spec_tags_data(spec_format_field(MetaDataFieldView::Tags(tags))) == Ok::<
            (MetaDataFieldView, nat),
            ParseError,
        >((MetaDataFieldView::Tags(tags), spec_format_field(MetaDataFieldView::Tags(tags)).len())),
{
    let key = TAGS_KEY.spec_bytes();
    let written = spec_format_tags(tags);
    lemma_line_parts(key, written);
    lemma_tags_round_trip(tags);
}

/// A flag line that is written is read back by the parser of its key.
pub proof fn lemma_flag_line_round_trip(key: Seq<u8>, flag: bool)
    ensures
        spec_literal(spec_format_line(key, spec_format_flag(flag)), key) == Ok::<nat, ParseError>(
            key.len(),
        ),
        spec_num_bool_flag(
            spec_format_line(key, spec_format_flag(flag)).skip(key.len() as int),
        ) == Ok::<(bool, nat), ParseError>((flag, 2)),
        spec_format_line(key, spec_format_flag(flag)).len() == key.len() + 2,
{
    lemma_line_parts(key, spec_format_flag(flag));
    lemma_flag_round_trip(flag);
}

/// The outcome of the parser of the key `key` on `s`.
pub open spec fn spec_field_of_key(s: Seq<u8>, key: Seq<u8>) -> Result<
    (MetaDataFieldView, nat),
    ParseError,
> {
    if key == AUTHOR_KEY.spec_bytes() {
        spec_author_data(s)
    } else if key == TITLE_KEY.spec_bytes() {
        spec_title_data(s)
    } else if key == BASENAME_KEY.spec_bytes() {
        spec_basename_data(s)
    } else if key == STATUS_KEY.spec_bytes() {
        spec_status_data(s)
    } else if key == ALLOW_COMMENTS_KEY.spec_bytes() {
        spec_allow_comments_data(s)
    } else if key == ALLOW_PINGS_KEY.spec_bytes() {
        spec_allow_pings_data(s)
    } else if key == CONVERT_BREAKS_KEY.spec_bytes() {
        spec_convert_breaks_data(s)
    } else if key == PRIMARY_CATEGORY_KEY.spec_bytes() {
        spec_primary_category_data(s)
    } else if key == CATEGORY_KEY.spec_bytes() {
        spec_category_data(s)
    } else if key == DATE_KEY.spec_bytes() {
        spec_date_data(s)
    } else if key == TAGS_KEY.spec_bytes() {
        spec_tags_data(s)
    } else if key == NO_ENTRY_LINE.spec_bytes() {
        spec_no_entry_data(s)
    } else {
        spec_image_data(s)
    }
}

/// Of a line that begins with a key, the parsers of the other twelve keys make
/// nothing.
pub proof fn lemma_other_parsers_fail(s: Seq<u8>, key: Seq<u8>)
    requires
        is_metadata_key(key),
        key.is_prefix_of(s),
    ensures
        key == AUTHOR_KEY.spec_bytes() || is_mismatch(spec_author_data(s)),
        key == BASENAME_KEY.spec_bytes() || is_mismatch(spec_basename_data(s)),
        key == ALLOW_COMMENTS_KEY.spec_bytes() || is_mismatch(spec_allow_comments_data(s)),
        key == CONVERT_BREAKS_KEY.spec_bytes() || is_mismatch(spec_convert_breaks_data(s)),
        key == CATEGORY_KEY.spec_bytes() || is_mismatch(spec_category_data(s)),
        key == TAGS_KEY.spec_bytes() || is_mismatch(spec_tags_data(s)),
        key == IMAGE_KEY.spec_bytes() || is_mismatch(spec_image_data(s)),
{
    lemma_only_key(s, key);
}

/// A line that begins with a key is read by the parser of that key or not at
/// all: what that parser makes of it is what the choice among all parsers
/// makes of it, except that the choice reports every failure to match as a
/// mismatch.
pub proof fn lemma_field_is_read_by_its_key(s: Seq<u8>, key: Seq<u8>)
    requires
        is_metadata_key(key),
        key.is_prefix_of(s),
    ensures
        spec_metadata_field(s) == match spec_field_of_key(s, key) {
            Ok(found) => Ok(found),
            Err(e) => if e.is_recoverable() {
                Err(ParseError::GrammarMismatch)
            } else {
                Err(e)
            },
        },
{
    lemma_other_parsers_fail(s, key);
    lemma_key_bytes();
    reveal(spec_metadata_field);
}

/// The line is read as the field, and read to its end.
pub open spec fn is_read_back(field: MetaDataFieldView, line: Seq<u8>) -> bool {
    spec_metadata_field(line) == Ok::<(MetaDataFieldView, nat), ParseError>((field, line.len()))
}

/// `field` is one of the six kinds of field that hold a text, it holds
/// `text`, and `key` is its key.
pub open spec fn is_text_field(key: Seq<u8>, text: Seq<u8>, field: MetaDataFieldView) -> bool {
    ||| key == AUTHOR_KEY.spec_bytes() && field == MetaDataFieldView::Author(text)
    ||| key == TITLE_KEY.spec_bytes() && field == MetaDataFieldView::Title(text)
    ||| key == BASENAME_KEY.spec_bytes() && field == MetaDataFieldView::BaseName(text)
    ||| key == CATEGORY_KEY.spec_bytes() && field == MetaDataFieldView::Category(text)
    ||| key == PRIMARY_CATEGORY_KEY.spec_bytes() && field == MetaDataFieldView::PrimaryCategory(
        text,
    )
    ||| key == IMAGE_KEY.spec_bytes() && field == MetaDataFieldView::Image(text)
}

/// A text of one line that is written after its key is read back.
pub proof fn lemma_text_field_round_trip(key: Seq<u8>, text: Seq<u8>, field: MetaDataFieldView)
    requires
        is_one_line(text),
        is_text_field(key, text, field),
    ensures
        is_read_back(field, spec_format_line(key, text)),
{
    let s = spec_format_line(key, text);
    lemma_keyed_line_round_trip(key, text);
    lemma_line_parts(key, text);
    lemma_key_bytes();
    lemma_field_is_read_by_its_key(s, key);
}

/// A status that is written is read back.
pub proof fn lemma_status_field_round_trip(status: Status)
    ensures
        is_read_back(
            MetaDataFieldView::Status(status),
            spec_format_field(MetaDataFieldView::Status(status)),
        ),
{
    let key = STATUS_KEY.spec_bytes();
    let s = spec_format_field(MetaDataFieldView::Status(status));
    lemma_status_line_round_trip(status);
    lemma_line_parts(key, spec_format_status(status));
    lemma_key_bytes();
    lemma_field_is_read_by_its_key(s, key);
}

/// A flag that is written after `ALLOW COMMENTS: ` is read back.
pub proof fn lemma_allow_comments_field_round_trip(flag: bool)
    ensures
        is_read_back(
            MetaDataFieldView::AllowComments(flag),
            spec_format_field(MetaDataFieldView::AllowComments(flag)),
        ),
{
    let key = ALLOW_COMMENTS_KEY.spec_bytes();
    let s = spec_format_field(MetaDataFieldView::AllowComments(flag));
    lemma_flag_line_round_trip(key, flag);
    lemma_line_parts(key, spec_format_flag(flag));
    lemma_key_bytes();
    lemma_field_is_read_by_its_key(s, key);
}

/// A flag that is written after `ALLOW PINGS: ` is read back.
pub proof fn lemma_allow_pings_field_round_trip(flag: bool)
    ensures
        is_read_back(
            MetaDataFieldView::AllowPings(flag),
            spec_format_field(MetaDataFieldView::AllowPings(flag)),
        ),
{
    let key = ALLOW_PINGS_KEY.spec_bytes();
    let s = spec_format_field(MetaDataFieldView::AllowPings(flag));
    lemma_flag_line_round_trip(key, flag);
    lemma_line_parts(key, spec_format_flag(flag));
    lemma_key_bytes();
    lemma_field_is_read_by_its_key(s, key);
}

/// A rendering of line breaks that is written is read back.
pub proof fn lemma_convert_breaks_field_round_trip(mode: ConvertBreaks)
    ensures
        is_read_back(
            MetaDataFieldView::ConvertBreaks(mode),
            spec_format_field(MetaDataFieldView::ConvertBreaks(mode)),
        ),
{
    let key = CONVERT_BREAKS_KEY.spec_bytes();
    let s = spec_format_field(MetaDataFieldView::ConvertBreaks(mode));
    lemma_convert_breaks_line_round_trip(mode);
    lemma_line_parts(key, spec_format_convert_breaks(mode));
    lemma_key_bytes();
    lemma_field_is_read_by_its_key(s, key);
}

/// A list of tags that is written is read back.
pub proof fn lemma_tags_field_round_trip(tags: Seq<Seq<u8>>)
    requires
        forall|i: int| 0 <= i < tags.len() ==> is_quotable(#[trigger] tags[i]),
    ensures
        is_read_back(
            MetaDataFieldView::Tags(tags),
            spec_format_field(MetaDataFieldView::Tags(tags)),
        ),
{
    let key = TAGS_KEY.spec_bytes();
    let s = spec_format_field(MetaDataFieldView::Tags(tags));
    lemma_tags_line_round_trip(tags);
    lemma_line_parts(key, spec_format_tags(tags));
    lemma_key_bytes();
    lemma_field_is_read_by_its_key(s, key);
}

/// A date that is written is read back.
pub proof fn lemma_date_field_round_trip(date: DateTime)
    requires
        date.is_valid(),
        date.year >= 0,
    ensures
        is_read_back(
            MetaDataFieldView::Date(date),
            spec_format_field(MetaDataFieldView::Date(date)),
        ),
{
    let key = DATE_KEY.spec_bytes();
    let s = spec_format_field(MetaDataFieldView::Date(date));
    lemma_date_line_round_trip(date);
    lemma_line_parts(key, spec_format_date(date));
    lemma_key_bytes();
    lemma_field_is_read_by_its_key(s, key);
}

/// The line `NO ENTRY: 1` is read back as what it stands for.
pub proof fn lemma_no_entry_field_round_trip()
    ensures
        is_read_back(MetaDataFieldView::NoEntry, spec_format_field(MetaDataFieldView::NoEntry)),
{
    let key = NO_ENTRY_LINE.spec_bytes();
    let s = spec_format_field(MetaDataFieldView::NoEntry);
    assert(s.subrange(0, s.len() as int) =~= s);
    lemma_key_bytes();
    lemma_field_is_read_by_its_key(s, key);
}

/// Writing a field and reading the line gives the field back, and the whole
/// line is consumed. This holds of each of the thirteen kinds of field.
pub proof fn lemma_field_round_trip(field: MetaDataFieldView)
    requires
        is_writable(field),
    ensures
        spec_metadata_field(spec_format_field(field)) == Ok::<
            (MetaDataFieldView, nat),
            ParseError,
        >((field, spec_format_field(field).len())),
{
    match field {
        MetaDataFieldView::Author(t) => {
            lemma_text_field_round_trip(AUTHOR_KEY.spec_bytes(), t, field);
        },
        MetaDataFieldView::Title(t) => {
            lemma_text_field_round_trip(TITLE_KEY.spec_bytes(), t, field);
        },
        MetaDataFieldView::BaseName(t) => {
            lemma_text_field_round_trip(BASENAME_KEY.spec_bytes(), t, field);
        },
        MetaDataFieldView::Category(t) => {
            lemma_text_field_round_trip(CATEGORY_KEY.spec_bytes(), t, field);
        },
        MetaDataFieldView::PrimaryCategory(t) => {
            lemma_text_field_round_trip(PRIMARY_CATEGORY_KEY.spec_bytes(), t, field);
        },
        MetaDataFieldView::Image(t) => {
            lemma_text_field_round_trip(IMAGE_KEY.spec_bytes(), t, field);
        },
        MetaDataFieldView::Status(status) => {
            lemma_status_field_round_trip(status);
        },
        MetaDataFieldView::AllowComments(flag) => {
            lemma_allow_comments_field_round_trip(flag);
        },
        MetaDataFieldView::AllowPings(flag) => {
            lemma_allow_pings_field_round_trip(flag);
        },
        MetaDataFieldView::ConvertBreaks(mode) => {
            lemma_convert_breaks_field_round_trip(mode);
        },
        MetaDataFieldView::Tags(tags) => {
            lemma_tags_field_round_trip(tags);
        },
        MetaDataFieldView::Date(date) => {
            lemma_date_field_round_trip(date);
        },
        MetaDataFieldView::NoEntry => {
            lemma_no_entry_field_round_trip();
        },
    }
}

} // verus!

//! The grammar of the export format: fields, sections, entries, documents.

pub mod allow_comments;
pub mod allow_pings;
pub mod author;
pub mod basename;
pub mod body;
pub mod category;
pub mod comment;
pub mod convert_breaks;
pub mod date;
pub mod excerpt;
pub mod extended_body;
pub mod image;
pub mod keywords;
pub mod no_entry;
pub mod ping;
pub mod primary_category;
pub mod status;
pub mod tags;
pub mod title;
pub mod utils;

use crate::datetime::DateTime;
use crate::error::ParseError;
use crate::model::{CommentView, ConvertBreaks, PingView, Status};
use crate::parser::allow_comments::{parse_allow_comments_data, spec_allow_comments_data};
use crate::parser::allow_pings::{parse_allow_pings_data, spec_allow_pings_data};
use crate::parser::author::{parse_author_data, spec_author_data};
use crate::parser::basename::{parse_basename_data, spec_basename_data};
use crate::parser::body::{parse_body_data, spec_body_data, BODY_HEADER};
use crate::parser::category::{parse_category_data, spec_category_data};
use crate::parser::comment::{
    lemma_comment_data_wf, parse_comment_data, spec_comment_data, COMMENT_HEADER,
};
use crate::parser::convert_breaks::{parse_convert_breaks_data, spec_convert_breaks_data};
use crate::parser::date::{parse_date_data, spec_date_data, DATE_KEY};
use crate::parser::excerpt::{parse_excerpt_data, spec_excerpt_data, EXCERPT_HEADER};
use crate::parser::extended_body::{
    parse_extended_body_data, spec_extended_body_data, EXTENDED_BODY_HEADER,
};
use crate::parser::image::{parse_image_data, spec_image_data};
use crate::parser::keywords::{parse_keywords_data, spec_keywords_data, KEYWORDS_HEADER};
use crate::parser::no_entry::{parse_no_entry_data, spec_no_entry_data};
use crate::parser::ping::{lemma_ping_data_wf, parse_ping_data, spec_ping_data, PING_HEADER};
use crate::parser::primary_category::{parse_primary_category_data, spec_primary_category_data};
use crate::parser::status::{parse_status_data, spec_status_data};
use crate::parser::tags::{parse_tags_data, spec_tags_data};
use crate::parser::title::{parse_title_data, spec_title_data};
use crate::parser::utils::{
    is_rest_of, lemma_ascii_literal, lemma_date_value_valid, lemma_literal_mismatch_at,
    lemma_many0_all, lemma_many0_bounds, lemma_many0_step, lemma_many0_stop, lemma_rest_of_rest,
    lemma_str_bytes_valid, no_alternative, or_else, parse_literal, resumed, spec_literal,
    spec_many0, then_expect, yields_view, NEWLINE,
};
use crate::text::{lemma_boundary_around_ascii, opt_bytes, seq_bytes, split_at_byte};
use vstd::prelude::*;
use vstd::string::StringSliceAdditionalSpecFns;

verus! {

/// One line of an entry's metadata section, as read.
#[derive(Debug, PartialEq, Eq)]
pub enum MetaDataField<'a> {
    Author(&'a str),
    Title(&'a str),
    BaseName(&'a str),
    Status(Status),
    AllowComments(bool),
    AllowPings(bool),
    ConvertBreaks(ConvertBreaks),
    Category(&'a str),
    PrimaryCategory(&'a str),
    Tags(Vec<&'a str>),
    Date(DateTime),
    NoEntry,
    Image(&'a str),
}

/// [`MetaDataField`] with each text as its bytes.
pub enum MetaDataFieldView {
    Author(Seq<u8>),
    Title(Seq<u8>),
    BaseName(Seq<u8>),
    Status(Status),
    AllowComments(bool),
    AllowPings(bool),
    ConvertBreaks(ConvertBreaks),
    Category(Seq<u8>),
    PrimaryCategory(Seq<u8>),
    Tags(Seq<Seq<u8>>),
    Date(DateTime),
    NoEntry,
    Image(Seq<u8>),
}

impl<'a> View for MetaDataField<'a> {
    type V = MetaDataFieldView;

    open spec fn view(&self) -> MetaDataFieldView {
        match *self {
            MetaDataField::Author(t) => MetaDataFieldView::Author(t.spec_bytes()),
            MetaDataField::Title(t) => MetaDataFieldView::Title(t.spec_bytes()),
            MetaDataField::BaseName(t) => MetaDataFieldView::BaseName(t.spec_bytes()),
            MetaDataField::Status(s) => MetaDataFieldView::Status(s),
            MetaDataField::AllowComments(b) => MetaDataFieldView::AllowComments(b),
            MetaDataField::AllowPings(b) => MetaDataFieldView::AllowPings(b),
            MetaDataField::ConvertBreaks(c) => MetaDataFieldView::ConvertBreaks(c),
            MetaDataField::Category(t) => MetaDataFieldView::Category(t.spec_bytes()),
            MetaDataField::PrimaryCategory(t) => MetaDataFieldView::PrimaryCategory(
                t.spec_bytes(),
            ),
            MetaDataField::Tags(ts) => MetaDataFieldView::Tags(seq_bytes(ts@)),
            MetaDataField::Date(d) => MetaDataFieldView::Date(d),
            MetaDataField::NoEntry => MetaDataFieldView::NoEntry,
            MetaDataField::Image(t) => MetaDataFieldView::Image(t.spec_bytes()),
        }
    }
}

impl MetaDataFieldView {
    /// The author, if this line gives it.
    pub open spec fn as_author(self) -> Option<Seq<u8>> {
        match self {
            MetaDataFieldView::Author(t) => Some(t),
            _ => None,
        }
    }

    /// The title, if this line gives it.
    pub open spec fn as_title(self) -> Option<Seq<u8>> {
        match self {
            MetaDataFieldView::Title(t) => Some(t),
            _ => None,
        }
    }

    /// The base name, if this line gives it.
    pub open spec fn as_basename(self) -> Option<Seq<u8>> {
        match self {
            MetaDataFieldView::BaseName(t) => Some(t),
            _ => None,
        }
    }

    /// The status, if this line gives it.
    pub open spec fn as_status(self) -> Option<Status> {
        match self {
            MetaDataFieldView::Status(v) => Some(v),
            _ => None,
        }
    }

    /// Whether comments are allowed, if this line gives it.
    pub open spec fn as_allow_comments(self) -> Option<bool> {
        match self {
            MetaDataFieldView::AllowComments(v) => Some(v),
            _ => None,
        }
    }

    /// Whether pings are allowed, if this line gives it.
    pub open spec fn as_allow_pings(self) -> Option<bool> {
        match self {
            MetaDataFieldView::AllowPings(v) => Some(v),
            _ => None,
        }
    }

    /// The rendering of line breaks, if this line gives it.
    pub open spec fn as_convert_breaks(self) -> Option<ConvertBreaks> {
        match self {
            MetaDataFieldView::ConvertBreaks(v) => Some(v),
            _ => None,
        }
    }

    /// A category, if this line gives it.
    pub open spec fn as_category(self) -> Option<Seq<u8>> {
        match self {
            MetaDataFieldView::Category(t) => Some(t),
            _ => None,
        }
    }

    /// The main category, if this line gives it.
    pub open spec fn as_primary_category(self) -> Option<Seq<u8>> {
        match self {
            MetaDataFieldView::PrimaryCategory(t) => Some(t),
            _ => None,
        }
    }

    /// The list of tags, if this line gives it.
    pub open spec fn as_tags(self) -> Option<Seq<Seq<u8>>> {
        match self {
            MetaDataFieldView::Tags(v) => Some(v),
            _ => None,
        }
    }

    /// The date, if this line gives it.
    pub open spec fn as_date(self) -> Option<DateTime> {
        match self {
            MetaDataFieldView::Date(v) => Some(v),
            _ => None,
        }
    }

    /// The image, if this line gives it.
    pub open spec fn as_image(self) -> Option<Seq<u8>> {
        match self {
            MetaDataFieldView::Image(t) => Some(t),
            _ => None,
        }
    }

    /// A date that this line gives exists.
    pub open spec fn wf(self) -> bool {
        self matches MetaDataFieldView::Date(d) ==> d.is_valid()
    }
}

/// One section of an entry's multi-line part, as read.
#[derive(Debug, PartialEq, Eq)]
pub enum MultiLineField<'a> {
    Body(&'a str),
    ExtendedBody(&'a str),
    Excerpt(&'a str),
    Keywords(&'a str),
    Comment {
        author: Option<&'a str>,
        email: Option<&'a str>,
        url: Option<&'a str>,
        ip: Option<&'a str>,
        date: Option<DateTime>,
        text: &'a str,
    },
    Ping {
        title: Option<&'a str>,
        url: Option<&'a str>,
        ip: Option<&'a str>,
        date: Option<DateTime>,
        blog_name: Option<&'a str>,
        text: &'a str,
    },
}

/// [`MultiLineField`] with each text as its bytes.
pub enum MultiLineFieldView {
    Body(Seq<u8>),
    ExtendedBody(Seq<u8>),
    Excerpt(Seq<u8>),
    Keywords(Seq<u8>),
    Comment(CommentView),
    Ping(PingView),
}

impl<'a> View for MultiLineField<'a> {
    type V = MultiLineFieldView;

    open spec fn view(&self) -> MultiLineFieldView {
        match *self {
            MultiLineField::Body(t) => MultiLineFieldView::Body(t.spec_bytes()),
            MultiLineField::ExtendedBody(t) => MultiLineFieldView::ExtendedBody(t.spec_bytes()),
            MultiLineField::Excerpt(t) => MultiLineFieldView::Excerpt(t.spec_bytes()),
            MultiLineField::Keywords(t) => MultiLineFieldView::Keywords(t.spec_bytes()),
            MultiLineField::Comment { author, email, url, ip, date, text } => {
                MultiLineFieldView::Comment(
                    CommentView {
                        author: opt_bytes(author),
                        email: opt_bytes(email),
                        url: opt_bytes(url),
                        ip: opt_bytes(ip),
                        date,
                        text: text.spec_bytes(),
                    },
                )
            },
            MultiLineField::Ping { title, url, ip, date, blog_name, text } => {
                MultiLineFieldView::Ping(
                    PingView {
                        title: opt_bytes(title),
                        url: opt_bytes(url),
                        ip: opt_bytes(ip),
                        date,
                        blog_name: opt_bytes(blog_name),
                        text: text.spec_bytes(),
                    },
                )
            },
        }
    }
}

impl MultiLineFieldView {
    /// The text of the body, if this section is one.
    pub open spec fn as_body(self) -> Option<Seq<u8>> {
        match self {
            MultiLineFieldView::Body(t) => Some(t),
            _ => None,
        }
    }

    /// The text of the extended body, if this section is one.
    pub open spec fn as_extended_body(self) -> Option<Seq<u8>> {
        match self {
            MultiLineFieldView::ExtendedBody(t) => Some(t),
            _ => None,
        }
    }

    /// The text of the excerpt, if this section is one.
    pub open spec fn as_excerpt(self) -> Option<Seq<u8>> {
        match self {
            MultiLineFieldView::Excerpt(t) => Some(t),
            _ => None,
        }
    }

    /// The text of the keywords, if this section is one.
    pub open spec fn as_keywords(self) -> Option<Seq<u8>> {
        match self {
            MultiLineFieldView::Keywords(t) => Some(t),
            _ => None,
        }
    }

    /// The comment, if this section is one.
    pub open spec fn as_comment(self) -> Option<CommentView> {
        match self {
            MultiLineFieldView::Comment(c) => Some(c),
            _ => None,
        }
    }

    /// The ping, if this section is one.
    pub open spec fn as_ping(self) -> Option<PingView> {
        match self {
            MultiLineFieldView::Ping(p) => Some(p),
            _ => None,
        }
    }

    /// The date of this comment or ping, if it has one, exists.
    pub open spec fn wf(self) -> bool {
        match self {
            MultiLineFieldView::Comment(c) => c.date matches Some(d) ==> d.is_valid(),
            MultiLineFieldView::Ping(p) => p.date matches Some(d) ==> d.is_valid(),
            _ => true,
        }
    }
}

/// An entry as read: its metadata lines and its multi-line sections, each in
/// the order of the source, with nothing merged or checked.
#[derive(Debug, PartialEq, Eq)]
pub struct MTIFEntry<'a> {
    pub metadata: Vec<MetaDataField<'a>>,
    pub multiline_data: Vec<MultiLineField<'a>>,
}

/// The raw [`MTIFEntry`] with each text as its bytes.
pub struct RawMTIFEntryView {
    pub metadata: Seq<MetaDataFieldView>,
    pub multiline_data: Seq<MultiLineFieldView>,
}

impl RawMTIFEntryView {
    /// Every date among the lines and sections exists.
    pub open spec fn wf(self) -> bool {
        &&& forall|i: int| 0 <= i < self.metadata.len() ==> (#[trigger] self.metadata[i]).wf()
        &&& forall|i: int|
            0 <= i < self.multiline_data.len() ==> (#[trigger] self.multiline_data[i]).wf()
    }
}

/// The views of a sequence of metadata lines.
pub open spec fn metadata_view(fields: Seq<MetaDataField>) -> Seq<MetaDataFieldView> {
    fields.map_values(|f: MetaDataField| f@)
}

/// The views of a sequence of multi-line sections.
pub open spec fn multiline_view(fields: Seq<MultiLineField>) -> Seq<MultiLineFieldView> {
    fields.map_values(|f: MultiLineField| f@)
}

/// The views of a sequence of raw entries.
pub open spec fn entries_view(entries: Seq<MTIFEntry>) -> Seq<RawMTIFEntryView> {
    entries.map_values(|e: MTIFEntry| e@)
}

impl<'a> View for MTIFEntry<'a> {
    type V = RawMTIFEntryView;

    open spec fn view(&self) -> RawMTIFEntryView {
        RawMTIFEntryView {
            metadata: metadata_view(self.metadata@),
            multiline_data: multiline_view(self.multiline_data@),
        }
    }
}

/// The line that ends the metadata section.
pub const METADATA_END: &'static str = "-----\n";

/// The marker that ends an entry.
pub const ENTRY_END: &'static str = "--------";

// ---------------------------------------------------------------------------
// Metadata section
// ---------------------------------------------------------------------------
/// Any one metadata line. The keys are tried in the order `AUTHOR`, `TITLE`,
/// `BASENAME`, `STATUS`, `ALLOW COMMENTS`, `ALLOW PINGS`, `CONVERT BREAKS`,
/// `PRIMARY CATEGORY`, `CATEGORY`, `DATE`, `TAGS`, `NO ENTRY`, `IMAGE`. No key
/// is the beginning of another, so the order decides nothing: a line is read
/// by the parser of its key or by none. A line that begins with a key but does
/// not read as that key's line is a mismatch, except that a date of the right
/// shape that does not exist is a `ValueError`.
#[verifier::opaque]
pub open spec fn spec_metadata_field(s: Seq<u8>) -> Result<(MetaDataFieldView, nat), ParseError> {
    or_else(
        spec_author_data(s),
        or_else(
            spec_title_data(s),
            or_else(
                spec_basename_data(s),
                or_else(
                    spec_status_data(s),
                    or_else(
                        spec_allow_comments_data(s),
                        or_else(
                            spec_allow_pings_data(s),
                            or_else(
                                spec_convert_breaks_data(s),
                                or_else(
                                    spec_primary_category_data(s),
                                    or_else(
                                        spec_category_data(s),
                                        or_else(
                                            spec_date_data(s),
                                            or_else(
                                                spec_tags_data(s),
                                                or_else(
                                                    spec_no_entry_data(s),
                                                    or_else(spec_image_data(s), no_alternative()),
                                                ),
                                            ),
                                        ),
                                    ),
                                ),
                            ),
                        ),
                    ),
                ),
            ),
        ),
    )
}

/// A date that was read on a metadata line exists.
pub proof fn lemma_metadata_field_wf(s: Seq<u8>)
    ensures
        spec_metadata_field(s) matches Ok((f, _)) ==> f.wf(),
{
    reveal(spec_metadata_field);
    match spec_literal(s, DATE_KEY.spec_bytes()) {
        Ok(k) => {
            lemma_date_value_valid(s.skip(k as int));
        },
        Err(_) => {},
    }
}

/// The metadata lines of an entry: as many as can be read.
pub open spec fn spec_metadata_fields(s: Seq<u8>) -> Result<
    (Seq<MetaDataFieldView>, nat),
    ParseError,
> {
    spec_many0(s, |r: Seq<u8>| spec_metadata_field(r))
}

/// The metadata section: zero or more metadata lines and the five-dash line
/// that ends them.
pub open spec fn spec_metadata_section(s: Seq<u8>) -> Result<
    (Seq<MetaDataFieldView>, nat),
    ParseError,
> {
    then_expect(s, spec_metadata_fields(s), METADATA_END.spec_bytes())
}

/// Reads any one metadata line.
pub fn parse_metadata_field<'a>(input: &'a str) -> (r: Result<
    (&'a str, MetaDataField<'a>),
    ParseError,
>)
    ensures
        yields_view(r, input, spec_metadata_field(input.spec_bytes())),
{
    proof {
        reveal(spec_metadata_field);
    }
    match parse_author_data(input) {
        Ok(found) => return Ok(found),
        Err(e) => if !e.recoverable() {
            return Err(e);
        },
    }
    match parse_title_data(input) {
        Ok(found) => return Ok(found),
        Err(e) => if !e.recoverable() {
            return Err(e);
        },
    }
    match parse_basename_data(input) {
        Ok(found) => return Ok(found),
        Err(e) => if !e.recoverable() {
            return Err(e);
        },
    }
    match parse_status_data(input) {
        Ok(found) => return Ok(found),
        Err(e) => if !e.recoverable() {
            return Err(e);
        },
    }
    match parse_allow_comments_data(input) {
        Ok(found) => return Ok(found),
        Err(e) => if !e.recoverable() {
            return Err(e);
        },
    }
    match parse_allow_pings_data(input) {
        Ok(found) => return Ok(found),
        Err(e) => if !e.recoverable() {
            return Err(e);
        },
    }
    match parse_convert_breaks_data(input) {
        Ok(found) => return Ok(found),
        Err(e) => if !e.recoverable() {
            return Err(e);
        },
    }
    match parse_primary_category_data(input) {
        Ok(found) => return Ok(found),
        Err(e) => if !e.recoverable() {
            return Err(e);
        },
    }
    match parse_category_data(input) {
        Ok(found) => return Ok(found),
        Err(e) => if !e.recoverable() {
            return Err(e);
        },
    }
    match parse_date_data(input) {
        Ok(found) => return Ok(found),
        Err(e) => if !e.recoverable() {
            return Err(e);
        },
    }
    match parse_tags_data(input) {
        Ok(found) => return Ok(found),
        Err(e) => if !e.recoverable() {
            return Err(e);
        },
    }
    match parse_no_entry_data(input) {
        Ok(found) => return Ok(found),
        Err(e) => if !e.recoverable() {
            return Err(e);
        },
    }
    match parse_image_data(input) {
        Ok(found) => return Ok(found),
        Err(e) => if !e.recoverable() {
            return Err(e);
        },
    }
    Err(ParseError::GrammarMismatch)
}

/// Reads the metadata lines of an entry.
pub fn parse_metadata_fields<'a>(input: &'a str) -> (r: Result<
    (&'a str, Vec<MetaDataField<'a>>),
    ParseError,
>)
    ensures
        match spec_metadata_fields(input.spec_bytes()) {
            Ok((fields, n)) => r matches Ok((rest, v)) && metadata_view(v@) == fields
                && is_rest_of(rest, input, n),
            Err(e) => r matches Err(f) && f == e,
        },
{
    let ghost s = input.spec_bytes();
    let ghost element = |r: Seq<u8>| spec_metadata_field(r);
    let mut fields: Vec<MetaDataField<'a>> = Vec::new();
    let mut rest = input;
    let ghost mut at: nat = 0;
    proof {
        assert(s.skip(0) =~= s);
        assert(metadata_view(fields@) =~= Seq::<MetaDataFieldView>::empty());
        match spec_many0(s, element) {
            Ok((vs, _)) => {
                assert(Seq::<MetaDataFieldView>::empty() + vs =~= vs);
            },
            Err(_) => {},
        }
    }
    loop
        invariant
            s == input.spec_bytes(),
            element == |r: Seq<u8>| spec_metadata_field(r),
            is_rest_of(rest, input, at),
            spec_metadata_fields(s) == resumed(
                metadata_view(fields@),
                at,
                spec_many0(s.skip(at as int), element),
            ),
        decreases rest.spec_bytes().len(),
    {
        match parse_metadata_field(rest) {
            Ok((next, field)) => {
                if next.as_bytes().len() >= rest.as_bytes().len() {
                    proof {
                        lemma_many0_stop(s, element, metadata_view(fields@), at);
                    }
                    return Ok((rest, fields));
                }
                proof {
                    let n = spec_metadata_field(rest.spec_bytes())->Ok_0.1;
                    lemma_many0_step(s, element, metadata_view(fields@), at, field@, n);
                    lemma_rest_of_rest(input, rest, next, at, n);
                    assert(metadata_view(fields@.push(field)) =~= metadata_view(fields@).push(
                        field@,
                    ));
                    at = at + n;
                }
                fields.push(field);
                rest = next;
            },
            Err(e) => {
                if e.recoverable() {
                    proof {
                        lemma_many0_stop(s, element, metadata_view(fields@), at);
                    }
                    return Ok((rest, fields));
                }
                return Err(e);
            },
        }
    }
}

/// Reads the metadata section of an entry.
pub fn parse_metadata_section<'a>(input: &'a str) -> (r: Result<
    (&'a str, Vec<MetaDataField<'a>>),
    ParseError,
>)
    ensures
        match spec_metadata_section(input.spec_bytes()) {
            Ok((fields, n)) => r matches Ok((rest, v)) && metadata_view(v@) == fields
                && is_rest_of(rest, input, n),
            Err(e) => r matches Err(f) && f == e,
        },
{
    let (end, fields) = parse_metadata_fields(input)?;
    let rest = parse_literal(end, METADATA_END)?;
    proof {
        let n = spec_metadata_fields(input.spec_bytes())->Ok_0.1;
        lemma_rest_of_rest(input, end, rest, n, METADATA_END.spec_bytes().len());
    }
    Ok((rest, fields))
}

// ---------------------------------------------------------------------------
// Multi-line section
// ---------------------------------------------------------------------------
/// Any one multi-line section. The headers are tried in the order `BODY:`,
/// `EXTENDED BODY:`, `EXCERPT:`, `KEYWORDS:`, `COMMENT:`, `PING:`; no header
/// is the beginning of another.
#[verifier::opaque]
pub open spec fn spec_multiline_field(s: Seq<u8>) -> Result<(MultiLineFieldView, nat), ParseError> {
    or_else(
        spec_body_data(s),
        or_else(
            spec_extended_body_data(s),
            or_else(
                spec_excerpt_data(s),
                or_else(
                    spec_keywords_data(s),
                    or_else(
                        spec_comment_data(s),
                        or_else(spec_ping_data(s), no_alternative()),
                    ),
                ),
            ),
        ),
    )
}

/// The date of a comment or a ping that was read, if it has one, exists.
pub proof fn lemma_multiline_field_wf(s: Seq<u8>)
    ensures
        spec_multiline_field(s) matches Ok((m, _)) ==> m.wf(),
{
    reveal(spec_multiline_field);
    lemma_comment_data_wf(s);
    lemma_ping_data_wf(s);
}

/// The dash.
pub const DASH: u8 = 0x2d;

/// Input that begins with a dash is no multi-line section: every header
/// begins with a letter.
pub proof fn lemma_dash_is_no_section(s: Seq<u8>)
    requires
        s.len() > 0,
        s[0] == DASH,
    ensures
        spec_multiline_field(s) == Err::<(MultiLineFieldView, nat), ParseError>(
            ParseError::GrammarMismatch,
        ),
{
    reveal(spec_multiline_field);
    reveal_strlit("BODY:\n");
    reveal_strlit("EXTENDED BODY:\n");
    reveal_strlit("EXCERPT:\n");
    reveal_strlit("KEYWORDS:\n");
    reveal_strlit("COMMENT:\n");
    reveal_strlit("PING:\n");
    lemma_ascii_literal("BODY:\n");
    lemma_ascii_literal("EXTENDED BODY:\n");
    lemma_ascii_literal("EXCERPT:\n");
    lemma_ascii_literal("KEYWORDS:\n");
    lemma_ascii_literal("COMMENT:\n");
    lemma_ascii_literal("PING:\n");
    lemma_literal_mismatch_at(s, BODY_HEADER.spec_bytes(), 0);
    lemma_literal_mismatch_at(s, EXTENDED_BODY_HEADER.spec_bytes(), 0);
    lemma_literal_mismatch_at(s, EXCERPT_HEADER.spec_bytes(), 0);
    lemma_literal_mismatch_at(s, KEYWORDS_HEADER.spec_bytes(), 0);
    lemma_literal_mismatch_at(s, COMMENT_HEADER.spec_bytes(), 0);
    lemma_literal_mismatch_at(s, PING_HEADER.spec_bytes(), 0);
}

/// The bytes of the marker that ends an entry: eight dashes.
pub proof fn lemma_entry_end_bytes()
    ensures
        ENTRY_END.spec_bytes() =~= seq![DASH, DASH, DASH, DASH, DASH, DASH, DASH, DASH],
{
    reveal_strlit("--------");
    lemma_ascii_literal("--------");
}

/// The multi-line part of an entry: as many sections as can be read.
pub open spec fn spec_multiline_data_section(s: Seq<u8>) -> Result<
    (Seq<MultiLineFieldView>, nat),
    ParseError,
> {
    spec_many0(s, |r: Seq<u8>| spec_multiline_field(r))
}

/// Reads any one multi-line section.
pub fn parse_multiline_field<'a>(input: &'a str) -> (r: Result<
    (&'a str, MultiLineField<'a>),
    ParseError,
>)
    ensures
        yields_view(r, input, spec_multiline_field(input.spec_bytes())),
{
    proof {
        reveal(spec_multiline_field);
    }
    match parse_body_data(input) {
        Ok(found) => return Ok(found),
        Err(e) => if !e.recoverable() {
            return Err(e);
        },
    }
    match parse_extended_body_data(input) {
        Ok(found) => return Ok(found),
        Err(e) => if !e.recoverable() {
            return Err(e);
        },
    }
    match parse_excerpt_data(input) {
        Ok(found) => return Ok(found),
        Err(e) => if !e.recoverable() {
            return Err(e);
        },
    }
    match parse_keywords_data(input) {
        Ok(found) => return Ok(found),
        Err(e) => if !e.recoverable() {
            return Err(e);
        },
    }
    match parse_comment_data(input) {
        Ok(found) => return Ok(found),
        Err(e) => if !e.recoverable() {
            return Err(e);
        },
    }
    match parse_ping_data(input) {
        Ok(found) => return Ok(found),
        Err(e) => if !e.recoverable() {
            return Err(e);
        },
    }
    Err(ParseError::GrammarMismatch)
}

/// Reads the multi-line part of an entry.
pub fn parse_multiline_data_section<'a>(input: &'a str) -> (r: Result<
    (&'a str, Vec<MultiLineField<'a>>),
    ParseError,
>)
    ensures
        match spec_multiline_data_section(input.spec_bytes()) {
            Ok((fields, n)) => r matches Ok((rest, v)) && multiline_view(v@) == fields
                && is_rest_of(rest, input, n),
            Err(e) => r matches Err(f) && f == e,
        },
{
    let ghost s = input.spec_bytes();
    let ghost element = |r: Seq<u8>| spec_multiline_field(r);
    let mut fields: Vec<MultiLineField<'a>> = Vec::new();
    let mut rest = input;
    let ghost mut at: nat = 0;
    proof {
        assert(s.skip(0) =~= s);
        assert(multiline_view(fields@) =~= Seq::<MultiLineFieldView>::empty());
        match spec_many0(s, element) {
            Ok((vs, _)) => {
                assert(Seq::<MultiLineFieldView>::empty() + vs =~= vs);
            },
            Err(_) => {},
        }
    }
    loop
        invariant
            s == input.spec_bytes(),
            element == |r: Seq<u8>| spec_multiline_field(r),
            is_rest_of(rest, input, at),
            spec_multiline_data_section(s) == resumed(
                multiline_view(fields@),
                at,
                spec_many0(s.skip(at as int), element),
            ),
        decreases rest.spec_bytes().len(),
    {
        match parse_multiline_field(rest) {
            Ok((next, field)) => {
                if next.as_bytes().len() >= rest.as_bytes().len() {
                    proof {
                        lemma_many0_stop(s, element, multiline_view(fields@), at);
                    }
                    return Ok((rest, fields));
                }
                proof {
                    let n = spec_multiline_field(rest.spec_bytes())->Ok_0.1;
                    lemma_many0_step(s, element, multiline_view(fields@), at, field@, n);
                    lemma_rest_of_rest(input, rest, next, at, n);
                    assert(multiline_view(fields@.push(field)) =~= multiline_view(fields@).push(
                        field@,
                    ));
                    at = at + n;
                }
                fields.push(field);
                rest = next;
            },
            Err(e) => {
                if e.recoverable() {
                    proof {
                        lemma_many0_stop(s, element, multiline_view(fields@), at);
                    }
                    return Ok((rest, fields));
                }
                return Err(e);
            },
        }
    }
}

// ---------------------------------------------------------------------------
// Entries and documents
// ---------------------------------------------------------------------------
/// One entry: the metadata section, the multi-line part, and the eight-dash
/// marker that ends the entry.
pub open spec fn spec_mtif_entry(s: Seq<u8>) -> Result<(RawMTIFEntryView, nat), ParseError> {
    match spec_metadata_section(s) {
        Err(e) => Err(e),
        Ok((metadata, a)) => match spec_multiline_data_section(s.skip(a as int)) {
            Err(e) => Err(e),
            Ok((multiline_data, b)) => match spec_literal(
                s.skip((a + b) as int),
                ENTRY_END.spec_bytes(),
            ) {
                Err(e) => Err(e),
                Ok(c) => Ok((RawMTIFEntryView { metadata, multiline_data }, a + b + c)),
            },
        },
    }
}

/// An entry consumes no more than there is.
pub proof fn lemma_mtif_entry_bounds(s: Seq<u8>)
    ensures
        spec_mtif_entry(s) matches Ok((_, n)) ==> n <= s.len(),
{
    lemma_many0_bounds(s, |r: Seq<u8>| spec_metadata_field(r));
    match spec_metadata_section(s) {
        Ok((_, a)) => {
            lemma_many0_bounds(s.skip(a as int), |r: Seq<u8>| spec_multiline_field(r));
        },
        Err(_) => {},
    }
}

/// Every date of an entry that was read exists.
pub proof fn lemma_mtif_entry_wf(s: Seq<u8>)
    ensures
        spec_mtif_entry(s) matches Ok((raw, _)) ==> raw.wf(),
{
    let line = |r: Seq<u8>| spec_metadata_field(r);
    let good_line = |f: MetaDataFieldView| f.wf();
    assert forall|r: Seq<u8>| (#[trigger] line(r)) matches Ok((v, _)) ==> good_line(v) by {
        lemma_metadata_field_wf(r);
    }
    lemma_many0_all(s, line, good_line);
    match spec_metadata_section(s) {
        Ok((_, a)) => {
            let section = |r: Seq<u8>| spec_multiline_field(r);
            let good_section = |m: MultiLineFieldView| m.wf();
            assert forall|r: Seq<u8>| (#[trigger] section(r)) matches Ok((v, _)) ==> good_section(
                v,
            ) by {
                lemma_multiline_field_wf(r);
            }
            lemma_many0_all(s.skip(a as int), section, good_section);
        },
        Err(_) => {},
    }
}

/// What may follow an entry of a document: nothing, or a line terminator and
/// an entry, and so on to the end of the input.
pub open spec fn spec_more_entries(s: Seq<u8>) -> Result<Seq<RawMTIFEntryView>, ParseError>
    decreases s.len(),
{
    if s.len() == 0 {
        Ok(Seq::empty())
    } else if s[0] != NEWLINE {
        Err(ParseError::GrammarMismatch)
    } else {
        match spec_mtif_entry(s.skip(1)) {
            Err(e) => Err(e),
            Ok((entry, n)) => {
                proof {
                    lemma_mtif_entry_bounds(s.skip(1));
                }
                match spec_more_entries(s.skip((1 + n) as int)) {
                    Err(e) => Err(e),
                    Ok(entries) => Ok(seq![entry] + entries),
                }
            },
        }
    }
}

/// A document: nothing at all, or entries separated by one line terminator
/// each, the last of them ending where the input ends. The failure of a
/// document is the failure of the first entry that cannot be read; input that
/// follows an entry and does not begin with a line terminator is a mismatch.
/// A line terminator after the last entry announces an entry that is not
/// there, and so the document is refused as cut short.
pub open spec fn spec_mtif(s: Seq<u8>) -> Result<Seq<RawMTIFEntryView>, ParseError> {
    if s.len() == 0 {
        Ok(Seq::empty())
    } else {
        match spec_mtif_entry(s) {
            Err(e) => Err(e),
            Ok((entry, n)) => match spec_more_entries(s.skip(n as int)) {
                Err(e) => Err(e),
                Ok(entries) => Ok(seq![entry] + entries),
            },
        }
    }
}

/// Every date of the entries that follow an entry exists.
pub proof fn lemma_more_entries_wf(s: Seq<u8>)
    ensures
        spec_more_entries(s) matches Ok(raws) ==> forall|i: int|
            0 <= i < raws.len() ==> (#[trigger] raws[i]).wf(),
    decreases s.len(),
{
    if s.len() > 0 && s[0] == NEWLINE {
        lemma_mtif_entry_wf(s.skip(1));
        lemma_mtif_entry_bounds(s.skip(1));
        match spec_mtif_entry(s.skip(1)) {
            Ok((_, n)) => {
                lemma_more_entries_wf(s.skip((1 + n) as int));
            },
            Err(_) => {},
        }
    }
}

/// Every date of a document that was read exists.
pub proof fn lemma_mtif_wf(s: Seq<u8>)
    ensures
        spec_mtif(s) matches Ok(raws) ==> forall|i: int|
            0 <= i < raws.len() ==> (#[trigger] raws[i]).wf(),
{
    lemma_mtif_entry_wf(s);
    match spec_mtif_entry(s) {
        Ok((_, n)) => {
            lemma_more_entries_wf(s.skip(n as int));
        },
        Err(_) => {},
    }
}

/// The outcome `r` of reading the entries that follow the entries `done`.
pub open spec fn after_entries(
    done: Seq<RawMTIFEntryView>,
    r: Result<Seq<RawMTIFEntryView>, ParseError>,
) -> Result<Seq<RawMTIFEntryView>, ParseError> {
    match r {
        Ok(entries) => Ok(done + entries),
        Err(e) => Err(e),
    }
}

/// Reads one entry.
pub fn parse_mtif_entry<'a>(input: &'a str) -> (r: Result<(&'a str, MTIFEntry<'a>), ParseError>)
    ensures
        yields_view(r, input, spec_mtif_entry(input.spec_bytes())),
{
    let ghost s = input.spec_bytes();
    let (sections, metadata) = parse_metadata_section(input)?;
    let ghost a = spec_metadata_section(s)->Ok_0.1;
    let (end, multiline_data) = parse_multiline_data_section(sections)?;
    let ghost b = spec_multiline_data_section(s.skip(a as int))->Ok_0.1;
    proof {
        lemma_rest_of_rest(input, sections, end, a, b);
    }
    let rest = parse_literal(end, ENTRY_END)?;
    proof {
        lemma_rest_of_rest(input, end, rest, a + b, ENTRY_END.spec_bytes().len());
    }
    Ok((rest, MTIFEntry { metadata, multiline_data }))
}

/// Reads a whole document. The input that is returned with the entries is
/// always empty.
pub fn parse_mtif<'a>(input: &'a str) -> (r: Result<(&'a str, Vec<MTIFEntry<'a>>), ParseError>)
    ensures
        match spec_mtif(input.spec_bytes()) {
            Ok(entries) => r matches Ok((rest, v)) && entries_view(v@) == entries
                && rest.spec_bytes().len() == 0,
            Err(e) => r matches Err(f) && f == e,
        },
{
    let ghost s = input.spec_bytes();
    let mut entries: Vec<MTIFEntry<'a>> = Vec::new();
    if input.as_bytes().len() == 0 {
        assert(entries_view(entries@) =~= Seq::<RawMTIFEntryView>::empty());
        return Ok((input, entries));
    }
    let (first_rest, first) = parse_mtif_entry(input)?;
    let ghost mut at: nat = spec_mtif_entry(s)->Ok_0.1;
    let mut rest = first_rest;
    proof {
        assert(entries_view(entries@.push(first)) =~= seq![first@]);
    }
    entries.push(first);
    loop
        invariant
            s == input.spec_bytes(),
            is_rest_of(rest, input, at),
            spec_mtif(s) == after_entries(
                entries_view(entries@),
                spec_more_entries(s.skip(at as int)),
            ),
        decreases rest.spec_bytes().len(),
    {
        let bytes = rest.as_bytes();
        if bytes.len() == 0 {
            assert(entries_view(entries@) + Seq::<RawMTIFEntryView>::empty() =~= entries_view(
                entries@,
            ));
            return Ok((rest, entries));
        }
        if bytes[0] != NEWLINE {
            return Err(ParseError::GrammarMismatch);
        }
        proof {
            lemma_str_bytes_valid(rest);
            lemma_boundary_around_ascii(bytes@, 0);
        }
        let (_, start) = split_at_byte(rest, 1);
        let (next, entry) = parse_mtif_entry(start)?;
        proof {
            let n = spec_mtif_entry(start.spec_bytes())->Ok_0.1;
            lemma_rest_of_rest(rest, start, next, 1, n);
            lemma_rest_of_rest(input, rest, next, at, 1 + n);
            assert(s.skip(at as int).skip((1 + n) as int) =~= s.skip((at + 1 + n) as int));
            assert(entries_view(entries@.push(entry)) =~= entries_view(entries@).push(entry@));
            match spec_more_entries(s.skip((at + 1 + n) as int)) {
                Ok(more) => {
                    assert(entries_view(entries@) + (seq![entry@] + more) =~= entries_view(
                        entries@,
                    ).push(entry@) + more);
                },
                Err(_) => {},
            }
            at = at + 1 + n;
        }
        entries.push(entry);
        rest = next;
    }
}

} // verus!

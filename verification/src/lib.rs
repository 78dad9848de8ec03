//! Parser for the Movable Type Import Format: a plain-text export of blog
//! entries, each a block of `KEY: value` metadata lines followed by
//! multi-line sections (body, excerpt, comments, pings).
//!
//! Parsing has two phases. The grammar in [`parser`] turns the text into raw
//! entries, which keep every line and section in the order of the source. The
//! assembler in this module merges the lines of a raw entry into a
//! [`MTIFEntry`]: the first of the lines with a key counts, categories,
//! comments and pings are all kept, and an entry without a date is refused.
//!
//! Every grammar rule is stated as a specification over the UTF-8 bytes of the
//! input, and each function is proved to compute exactly its specification.

pub mod datetime;
pub mod error;
pub mod format;
pub mod merge;
pub mod model;
pub mod parser;
pub mod text;

use crate::datetime::DateTime;
use crate::error::ParseError;
use crate::merge::{
    all_of, first_of, lemma_all_of_found, lemma_all_of_step, lemma_first_of_found,
    lemma_first_of_step,
};
pub use crate::model::MTIFEntry;
use crate::model::{
    Comment, CommentView, ConvertBreaks, MTIFEntryView, MetaData, MetaDataView, Ping, PingView,
    Status,
};
use crate::parser::{
    entries_view, lemma_dash_is_no_section, lemma_entry_end_bytes, lemma_mtif_wf, metadata_view,
    multiline_view, parse_mtif, spec_metadata_field, spec_metadata_section, spec_mtif,
    spec_mtif_entry, spec_multiline_data_section, MetaDataField, MetaDataFieldView,
    MultiLineField, MultiLineFieldView, RawMTIFEntryView, ENTRY_END,
};
use crate::parser::utils::lemma_many0_bounds;
use crate::text::{opt_bytes, seq_bytes};
use vstd::prelude::*;
use vstd::string::StringSliceAdditionalSpecFns;

verus! {

/// The tags of an entry: those of its first `TAGS` line, none where it has no
/// such line.
pub open spec fn tags_of(fields: Seq<MetaDataFieldView>) -> Seq<Seq<u8>> {
    match first_of(fields, |f: MetaDataFieldView| f.as_tags()) {
        Some(tags) => tags,
        None => Seq::empty(),
    }
}

/// Whether a `NO ENTRY` line is among the lines.
pub open spec fn has_no_entry(fields: Seq<MetaDataFieldView>) -> bool {
    exists|i: int| 0 <= i < fields.len() && #[trigger] fields[i] is NoEntry
}

/// The metadata that the lines of one entry make up. Of the lines with a key
/// that is meant to occur once, the first counts and the others are dropped;
/// all `CATEGORY` lines are kept, in order. Lines without a `DATE` line among
/// them make up nothing.
pub open spec fn spec_build_metadata(fields: Seq<MetaDataFieldView>) -> Result<
    MetaDataView,
    ParseError,
> {
    match first_of(fields, |f: MetaDataFieldView| f.as_date()) {
        None => Err(ParseError::MissingRequiredField),
        Some(date) => Ok(
            MetaDataView {
                author: first_of(fields, |f: MetaDataFieldView| f.as_author()),
                title: first_of(fields, |f: MetaDataFieldView| f.as_title()),
                basename: first_of(fields, |f: MetaDataFieldView| f.as_basename()),
                status: first_of(fields, |f: MetaDataFieldView| f.as_status()),
                allow_comments: first_of(fields, |f: MetaDataFieldView| f.as_allow_comments()),
                allow_pings: first_of(fields, |f: MetaDataFieldView| f.as_allow_pings()),
                convert_breaks: first_of(fields, |f: MetaDataFieldView| f.as_convert_breaks()),
                primary_category: first_of(
                    fields,
                    |f: MetaDataFieldView| f.as_primary_category(),
                ),
                category: all_of(fields, |f: MetaDataFieldView| f.as_category()),
                date,
                no_entry: has_no_entry(fields),
                tags: tags_of(fields),
                image: first_of(fields, |f: MetaDataFieldView| f.as_image()),
            },
        ),
    }
}

/// The entry that a raw entry makes up: its metadata, the first of its
/// sections of each plain kind, and all its comments and pings, in order.
/// A raw entry without a `DATE` line makes up nothing.
pub open spec fn spec_build_entry(raw: RawMTIFEntryView) -> Result<MTIFEntryView, ParseError> {
    match spec_build_metadata(raw.metadata) {
        Err(e) => Err(e),
        Ok(metadata) => Ok(
            MTIFEntryView {
                metadata,
                body: first_of(raw.multiline_data, |m: MultiLineFieldView| m.as_body()),
                extended_body: first_of(
                    raw.multiline_data,
                    |m: MultiLineFieldView| m.as_extended_body(),
                ),
                excerpt: first_of(raw.multiline_data, |m: MultiLineFieldView| m.as_excerpt()),
                keywords: first_of(raw.multiline_data, |m: MultiLineFieldView| m.as_keywords()),
                comments: all_of(raw.multiline_data, |m: MultiLineFieldView| m.as_comment()),
                pings: all_of(raw.multiline_data, |m: MultiLineFieldView| m.as_ping()),
            },
        ),
    }
}

/// The entries that raw entries make up, or the failure of the first that
/// makes up nothing.
pub open spec fn spec_build_all(raws: Seq<RawMTIFEntryView>) -> Result<
    Seq<MTIFEntryView>,
    ParseError,
>
    decreases raws.len(),
{
    if raws.len() == 0 {
        Ok(Seq::empty())
    } else {
        match spec_build_entry(raws[0]) {
            Err(e) => Err(e),
            Ok(entry) => match spec_build_all(raws.drop_first()) {
                Err(e) => Err(e),
                Ok(entries) => Ok(seq![entry] + entries),
            },
        }
    }
}

/// The entries of a document: what the grammar reads, assembled. Nothing is
/// returned of a document of which any part fails.
pub open spec fn spec_parse(s: Seq<u8>) -> Result<Seq<MTIFEntryView>, ParseError> {
    match spec_mtif(s) {
        Err(e) => Err(e),
        Ok(raws) => spec_build_all(raws),
    }
}

/// `r` is what [`MTIFParser::parse`] returns for `input`: the entries that
/// [`spec_parse`] gives for its bytes, or its failure.
pub open spec fn is_parse_of(r: Result<Vec<MTIFEntry>, ParseError>, input: &str) -> bool {
    match spec_parse(input.spec_bytes()) {
        Ok(entries) => r matches Ok(v) && parsed_view(v@) == entries,
        Err(e) => r matches Err(f) && f == e,
    }
}

/// The views of a sequence of entries.
pub open spec fn parsed_view(entries: Seq<MTIFEntry>) -> Seq<MTIFEntryView> {
    entries.map_values(|e: MTIFEntry| e@)
}

/// The views of a sequence of comments.
pub open spec fn comments_view(comments: Seq<Comment>) -> Seq<CommentView> {
    comments.map_values(|c: Comment| c@)
}

/// The views of a sequence of pings.
pub open spec fn pings_view(pings: Seq<Ping>) -> Seq<PingView> {
    pings.map_values(|p: Ping| p@)
}

/// The bytes of the texts of an optional list.
pub open spec fn opt_seq_bytes(texts: Option<Vec<&str>>) -> Option<Seq<Seq<u8>>> {
    match texts {
        Some(v) => Some(seq_bytes(v@)),
        None => None,
    }
}

/// Copies a list of borrowed texts.
fn copy_texts<'a>(texts: &Vec<&'a str>) -> (r: Vec<&'a str>)
    ensures
        r@ == texts@,
{
    let mut copy: Vec<&'a str> = Vec::new();
    let mut i: usize = 0;
    while i < texts.len()
        invariant
            i <= texts.len(),
            copy@ == texts@.take(i as int),
        decreases texts.len() - i,
    {
        copy.push(texts[i]);
        assert(copy@ =~= texts@.take(i + 1));
        i += 1;
    }
    assert(texts@.take(i as int) =~= texts@);
    copy
}

/// The parser of export documents.
pub struct MTIFParser {}

impl MTIFParser {
    /// A parser. It holds nothing: two parsers, and two runs of one, do the
    /// same.
    pub fn new() -> (r: Self) {
        MTIFParser {  }
    }

    /// Parses a whole document into its entries.
    pub fn parse<'a>(&self, input: &'a str) -> (r: Result<Vec<MTIFEntry<'a>>, ParseError>)
        ensures
            is_parse_of(r, input),
            r matches Ok(v) ==> forall|i: int| 0 <= i < v.len() ==> (#[trigger] v[i])@.wf(),
    {
        proof {
            lemma_parsed_entries_wf(input.spec_bytes());
        }
        let (_, raws) = parse_mtif(input)?;
        let ghost views = entries_view(raws@);
        let mut entries: Vec<MTIFEntry<'a>> = Vec::new();
        let mut i: usize = 0;
        proof {
            assert(views.skip(0) =~= views);
            assert(parsed_view(entries@) =~= Seq::<MTIFEntryView>::empty());
            match spec_build_all(views) {
                Ok(all) => {
                    assert(Seq::<MTIFEntryView>::empty() + all =~= all);
                },
                Err(_) => {},
            }
        }
        while i < raws.len()
            invariant
                i <= raws.len(),
                views == entries_view(raws@),
                spec_mtif(input.spec_bytes()) == Ok::<Seq<RawMTIFEntryView>, ParseError>(views),
                spec_build_all(views) == match spec_build_all(views.skip(i as int)) {
                    Ok(more) => Ok(parsed_view(entries@) + more),
                    Err(e) => Err(e),
                },
            decreases raws.len() - i,
        {
            assert(views.skip(i as int)[0] == raws@[i as int]@);
            assert(views.skip(i as int).drop_first() =~= views.skip(i + 1));
            let entry = self.build_mtif_entry_from_raw_mtif_entry(&raws[i])?;
            proof {
                assert(parsed_view(entries@.push(entry)) =~= parsed_view(entries@).push(entry@));
                match spec_build_all(views.skip(i + 1)) {
                    Ok(more) => {
                        assert(parsed_view(entries@) + (seq![entry@] + more) =~= parsed_view(
                            entries@,
                        ).push(entry@) + more);
                    },
                    Err(_) => {},
                }
            }
            entries.push(entry);
            i += 1;
        }
        assert(parsed_view(entries@) + Seq::<MTIFEntryView>::empty() =~= parsed_view(entries@));
        assert forall|k: int| 0 <= k < entries.len() implies (#[trigger] entries[k])@.wf() by {
            assert(parsed_view(entries@)[k] == entries[k]@);
        }
        Ok(entries)
    }

    /// Assembles one raw entry: merges its metadata lines and sorts its
    /// sections.
    pub fn build_mtif_entry_from_raw_mtif_entry<'a>(
        &self,
        raw_mtif_entry: &crate::parser::MTIFEntry<'a>,
    ) -> (r: Result<MTIFEntry<'a>, ParseError>)
        ensures
            match spec_build_entry(raw_mtif_entry@) {
                Ok(entry) => r matches Ok(e) && e@ == entry,
                Err(e) => r matches Err(f) && f == e,
            },
            raw_mtif_entry@.wf() ==> (r matches Ok(e) ==> e@.wf()),
    {
        proof {
            if raw_mtif_entry@.wf() {
                lemma_build_entry_wf(raw_mtif_entry@);
            }
        }
        let metadata = self.build_metadata_from_raw_entry(raw_mtif_entry)?;
        let sections = &raw_mtif_entry.multiline_data;
        let ghost views = multiline_view(sections@);
        let mut body: Option<&'a str> = None;
        let mut extended_body: Option<&'a str> = None;
        let mut excerpt: Option<&'a str> = None;
        let mut keywords: Option<&'a str> = None;
        let mut comments: Vec<Comment<'a>> = Vec::new();
        let mut pings: Vec<Ping<'a>> = Vec::new();
        let mut i: usize = 0;
        assert(comments_view(comments@) =~= Seq::<CommentView>::empty());
        assert(pings_view(pings@) =~= Seq::<PingView>::empty());
        while i < sections.len()
            invariant
                i <= sections.len(),
                views == multiline_view(sections@),
                opt_bytes(body) == first_of(
                    views.take(i as int),
                    |m: MultiLineFieldView| m.as_body(),
                ),
                opt_bytes(extended_body) == first_of(
                    views.take(i as int),
                    |m: MultiLineFieldView| m.as_extended_body(),
                ),
                opt_bytes(excerpt) == first_of(
                    views.take(i as int),
                    |m: MultiLineFieldView| m.as_excerpt(),
                ),
                opt_bytes(keywords) == first_of(
                    views.take(i as int),
                    |m: MultiLineFieldView| m.as_keywords(),
                ),
                comments_view(comments@) == all_of(
                    views.take(i as int),
                    |m: MultiLineFieldView| m.as_comment(),
                ),
                pings_view(pings@) == all_of(
                    views.take(i as int),
                    |m: MultiLineFieldView| m.as_ping(),
                ),
            decreases sections.len() - i,
        {
            proof {
                lemma_first_of_step(views, |m: MultiLineFieldView| m.as_body(), i as int);
                lemma_first_of_step(views, |m: MultiLineFieldView| m.as_extended_body(), i as int);
                lemma_first_of_step(views, |m: MultiLineFieldView| m.as_excerpt(), i as int);
                lemma_first_of_step(views, |m: MultiLineFieldView| m.as_keywords(), i as int);
                lemma_all_of_step(views, |m: MultiLineFieldView| m.as_comment(), i as int);
                lemma_all_of_step(views, |m: MultiLineFieldView| m.as_ping(), i as int);
            }
            match &sections[i] {
                MultiLineField::Body(t) => {
                    if body.is_none() {
                        body = Some(*t);
                    }
                },
                MultiLineField::ExtendedBody(t) => {
                    if extended_body.is_none() {
                        extended_body = Some(*t);
                    }
                },
                MultiLineField::Excerpt(t) => {
                    if excerpt.is_none() {
                        excerpt = Some(*t);
                    }
                },
                MultiLineField::Keywords(t) => {
                    if keywords.is_none() {
                        keywords = Some(*t);
                    }
                },
                MultiLineField::Comment { author, email, url, ip, date, text } => {
                    let comment = Comment {
                        author: *author,
                        email: *email,
                        url: *url,
                        ip: *ip,
                        date: *date,
                        text: *text,
                    };
                    assert(comments_view(comments@.push(comment)) =~= comments_view(
                        comments@,
                    ).push(comment@));
                    comments.push(comment);
                },
                MultiLineField::Ping { title, url, ip, date, blog_name, text } => {
                    let ping = Ping {
                        title: *title,
                        url: *url,
                        ip: *ip,
                        date: *date,
                        blog_name: *blog_name,
                        text: *text,
                    };
                    assert(pings_view(pings@.push(ping)) =~= pings_view(pings@).push(ping@));
                    pings.push(ping);
                },
            }
            i += 1;
        }
        assert(views.take(i as int) =~= views);
        Ok(MTIFEntry { metadata, body, extended_body, excerpt, keywords, comments, pings })
    }

    /// Merges the metadata lines of one raw entry.
    pub fn build_metadata_from_raw_entry<'a>(
        &self,
        raw_mtif_entry: &crate::parser::MTIFEntry<'a>,
    ) -> (r: Result<MetaData<'a>, ParseError>)
        ensures
            match spec_build_metadata(raw_mtif_entry@.metadata) {
                Ok(metadata) => r matches Ok(m) && m@ == metadata,
                Err(e) => r matches Err(f) && f == e,
            },
    {
        let lines = &raw_mtif_entry.metadata;
        let ghost views = metadata_view(lines@);
        let mut author: Option<&'a str> = None;
        let mut title: Option<&'a str> = None;
        let mut basename: Option<&'a str> = None;
        let mut status: Option<Status> = None;
        let mut allow_comments: Option<bool> = None;
        let mut allow_pings: Option<bool> = None;
        let mut convert_breaks: Option<ConvertBreaks> = None;
        let mut primary_category: Option<&'a str> = None;
        let mut category: Vec<&'a str> = Vec::new();
        let mut date: Option<DateTime> = None;
        let mut no_entry: bool = false;
        let mut tags: Option<Vec<&'a str>> = None;
        let mut image: Option<&'a str> = None;
        let mut i: usize = 0;
        assert(seq_bytes(category@) =~= Seq::<Seq<u8>>::empty());
        while i < lines.len()
            invariant
                i <= lines.len(),
                views == metadata_view(lines@),
                opt_bytes(author) == first_of(
                    views.take(i as int),
                    |f: MetaDataFieldView| f.as_author(),
                ),
                opt_bytes(title) == first_of(
                    views.take(i as int),
                    |f: MetaDataFieldView| f.as_title(),
                ),
                opt_bytes(basename) == first_of(
                    views.take(i as int),
                    |f: MetaDataFieldView| f.as_basename(),
                ),
                status == first_of(views.take(i as int), |f: MetaDataFieldView| f.as_status()),
                allow_comments == first_of(
                    views.take(i as int),
                    |f: MetaDataFieldView| f.as_allow_comments(),
                ),
                allow_pings == first_of(
                    views.take(i as int),
                    |f: MetaDataFieldView| f.as_allow_pings(),
                ),
                convert_breaks == first_of(
                    views.take(i as int),
                    |f: MetaDataFieldView| f.as_convert_breaks(),
                ),
                opt_bytes(primary_category) == first_of(
                    views.take(i as int),
                    |f: MetaDataFieldView| f.as_primary_category(),
                ),
                seq_bytes(category@) == all_of(
                    views.take(i as int),
                    |f: MetaDataFieldView| f.as_category(),
                ),
                date == first_of(views.take(i as int), |f: MetaDataFieldView| f.as_date()),
                no_entry == has_no_entry(views.take(i as int)),
                opt_seq_bytes(tags) == first_of(
                    views.take(i as int),
                    |f: MetaDataFieldView| f.as_tags(),
                ),
                opt_bytes(image) == first_of(
                    views.take(i as int),
                    |f: MetaDataFieldView| f.as_image(),
                ),
            decreases lines.len() - i,
        {
            proof {
                let k = i as int;
                lemma_first_of_step(views, |f: MetaDataFieldView| f.as_author(), k);
                lemma_first_of_step(views, |f: MetaDataFieldView| f.as_title(), k);
                lemma_first_of_step(views, |f: MetaDataFieldView| f.as_basename(), k);
                lemma_first_of_step(views, |f: MetaDataFieldView| f.as_status(), k);
                lemma_first_of_step(views, |f: MetaDataFieldView| f.as_allow_comments(), k);
                lemma_first_of_step(views, |f: MetaDataFieldView| f.as_allow_pings(), k);
                lemma_first_of_step(views, |f: MetaDataFieldView| f.as_convert_breaks(), k);
                lemma_first_of_step(views, |f: MetaDataFieldView| f.as_primary_category(), k);
                lemma_all_of_step(views, |f: MetaDataFieldView| f.as_category(), k);
                lemma_first_of_step(views, |f: MetaDataFieldView| f.as_date(), k);
                lemma_first_of_step(views, |f: MetaDataFieldView| f.as_tags(), k);
                lemma_first_of_step(views, |f: MetaDataFieldView| f.as_image(), k);
                lemma_has_no_entry_step(views, k);
            }
            match &lines[i] {
                MetaDataField::Author(t) => {
                    if author.is_none() {
                        author = Some(*t);
                    }
                },
                MetaDataField::Title(t) => {
                    if title.is_none() {
                        title = Some(*t);
                    }
                },
                MetaDataField::BaseName(t) => {
                    if basename.is_none() {
                        basename = Some(*t);
                    }
                },
                MetaDataField::Status(v) => {
                    if status.is_none() {
                        status = Some(*v);
                    }
                },
                MetaDataField::AllowComments(v) => {
                    if allow_comments.is_none() {
                        allow_comments = Some(*v);
                    }
                },
                MetaDataField::AllowPings(v) => {
                    if allow_pings.is_none() {
                        allow_pings = Some(*v);
                    }
                },
                MetaDataField::ConvertBreaks(v) => {
                    if convert_breaks.is_none() {
                        convert_breaks = Some(*v);
                    }
                },
                MetaDataField::Category(t) => {
                    assert(seq_bytes(category@.push(*t)) =~= seq_bytes(category@).push(
                        t.spec_bytes(),
                    ));
                    category.push(*t);
                },
                MetaDataField::PrimaryCategory(t) => {
                    if primary_category.is_none() {
                        primary_category = Some(*t);
                    }
                },
                MetaDataField::Tags(ts) => {
                    if tags.is_none() {
                        tags = Some(copy_texts(ts));
                    }
                },
                MetaDataField::Date(d) => {
                    if date.is_none() {
                        date = Some(*d);
                    }
                },
                MetaDataField::NoEntry => {
                    no_entry = true;
                },
                MetaDataField::Image(t) => {
                    if image.is_none() {
                        image = Some(*t);
                    }
                },
            }
            i += 1;
        }
        assert(views.take(i as int) =~= views);
        let date = match date {
            Some(d) => d,
            None => {
                return Err(ParseError::MissingRequiredField);
            },
        };
        let tags = match tags {
            Some(ts) => ts,
            None => {
                let none: Vec<&'a str> = Vec::new();
                assert(seq_bytes(none@) =~= Seq::<Seq<u8>>::empty());
                none
            },
        };
        Ok(
            MetaData {
                author,
                title,
                basename,
                status,
                allow_comments,
                allow_pings,
                convert_breaks,
                primary_category,
                category,
                date,
                no_entry,
                tags,
                image,
            },
        )
    }
}

/// An entry made up of a raw entry of which every date exists has a date that
/// exists, and so has each of its comments and pings that has one.
pub proof fn lemma_build_entry_wf(raw: RawMTIFEntryView)
    requires
        raw.wf(),
    ensures
        spec_build_entry(raw) matches Ok(entry) ==> entry.wf(),
{
    lemma_first_of_found(raw.metadata, |f: MetaDataFieldView| f.as_date());
    lemma_all_of_found(raw.multiline_data, |m: MultiLineFieldView| m.as_comment());
    lemma_all_of_found(raw.multiline_data, |m: MultiLineFieldView| m.as_ping());
}

/// [`lemma_build_entry_wf`] of each entry of a sequence.
pub proof fn lemma_build_all_wf(raws: Seq<RawMTIFEntryView>)
    requires
        forall|i: int| 0 <= i < raws.len() ==> (#[trigger] raws[i]).wf(),
    ensures
        spec_build_all(raws) matches Ok(entries) ==> forall|i: int|
            0 <= i < entries.len() ==> (#[trigger] entries[i]).wf(),
    decreases raws.len(),
{
    if raws.len() > 0 {
        lemma_build_entry_wf(raws[0]);
        let rest = raws.drop_first();
        assert forall|i: int| 0 <= i < rest.len() implies (#[trigger] rest[i]).wf() by {
            assert(rest[i] == raws[i + 1]);
        }
        lemma_build_all_wf(rest);
    }
}

/// Every entry of a parsed document has a date that exists, and so has each
/// of its comments and pings that has one: whatever the input, no entry is
/// returned without a real date.
pub proof fn lemma_parsed_entries_wf(s: Seq<u8>)
    ensures
        spec_parse(s) matches Ok(entries) ==> forall|i: int|
            0 <= i < entries.len() ==> (#[trigger] entries[i]).wf(),
{
    lemma_mtif_wf(s);
    match spec_mtif(s) {
        Ok(raws) => {
            lemma_build_all_wf(raws);
        },
        Err(_) => {},
    }
}

/// Assembly fails exactly for the raw entries without a `DATE` line, and then
/// with [`ParseError::MissingRequiredField`] and no entry, whole or in part.
/// An entry that is assembled has the date of the first `DATE` line.
pub proof fn lemma_entry_needs_date(raw: RawMTIFEntryView)
    ensures
        match spec_build_entry(raw) {
            Err(e) => e == ParseError::MissingRequiredField && forall|i: int|
                0 <= i < raw.metadata.len() ==> !(#[trigger] raw.metadata[i] is Date),
            Ok(entry) => exists|i: int|
                0 <= i < raw.metadata.len() && #[trigger] raw.metadata[i]
                    == MetaDataFieldView::Date(entry.metadata.date) && forall|j: int|
                    0 <= j < i ==> !(#[trigger] raw.metadata[j] is Date),
        },
{
    let pick = |f: MetaDataFieldView| f.as_date();
    lemma_first_of_found(raw.metadata, pick);
    match first_of(raw.metadata, pick) {
        Some(date) => {
            let i = choose|i: int|
                0 <= i < raw.metadata.len() && #[trigger] pick(raw.metadata[i]) == Some(date)
                    && forall|j: int| 0 <= j < i ==> #[trigger] pick(raw.metadata[j]) is None;
            assert(raw.metadata[i] == MetaDataFieldView::Date(date));
            assert forall|j: int| 0 <= j < i implies !(#[trigger] raw.metadata[j] is Date) by {
                assert(pick(raw.metadata[j]) is None);
            }
        },
        None => {
            assert forall|i: int| 0 <= i < raw.metadata.len() implies !(
            #[trigger] raw.metadata[i] is Date) by {
                assert(pick(raw.metadata[i]) is None);
            }
        },
    }
}

/// A document that is one metadata section followed at once by the marker
/// that ends an entry holds one entry, provided the section has a `DATE`
/// line: the entry has the metadata of the section, no body, extended body,
/// excerpt or keywords, and neither comments nor pings. Without a `DATE` line
/// the document is refused for want of it.
pub proof fn lemma_document_of_metadata_only(s: Seq<u8>)
    requires
        spec_metadata_section(s) matches Ok((_, n)) && s.skip(n as int) == ENTRY_END.spec_bytes(),
    ensures
        match spec_build_metadata(spec_metadata_section(s)->Ok_0.0) {
            Err(e) => spec_parse(s) == Err::<Seq<MTIFEntryView>, ParseError>(e),
            Ok(metadata) => spec_parse(s) == Ok::<Seq<MTIFEntryView>, ParseError>(
                seq![
                    MTIFEntryView {
                        metadata,
                        body: None,
                        extended_body: None,
                        excerpt: None,
                        keywords: None,
                        comments: Seq::empty(),
                        pings: Seq::empty(),
                    },
                ],
            ),
        },
{
    let (fields, n) = spec_metadata_section(s)->Ok_0;
    let end = s.skip(n as int);
    lemma_entry_end_bytes();
    lemma_many0_bounds(s, |r: Seq<u8>| spec_metadata_field(r));
    assert(end[0] == crate::parser::DASH);
    lemma_dash_is_no_section(end);
    assert(spec_multiline_data_section(end) == Ok::<(Seq<MultiLineFieldView>, nat), ParseError>(
        (Seq::empty(), 0),
    ));
    assert(s.skip((n + 0) as int) == end);
    assert(ENTRY_END.spec_bytes().is_prefix_of(end)) by {
        assert(end.subrange(0, end.len() as int) =~= end);
    }
    let raw = RawMTIFEntryView { metadata: fields, multiline_data: Seq::empty() };
    assert(spec_mtif_entry(s) == Ok::<(RawMTIFEntryView, nat), ParseError>((raw, n + 0 + 8)));
    assert(s.len() == n + 8);
    assert(s.skip((n + 0 + 8) as int).len() == 0);
    assert(spec_mtif(s) == Ok::<Seq<RawMTIFEntryView>, ParseError>(seq![raw])) by {
        assert(seq![raw] + Seq::<RawMTIFEntryView>::empty() =~= seq![raw]);
    }
    let raws = seq![raw];
    assert(raws.drop_first() =~= Seq::<RawMTIFEntryView>::empty());
    assert(raws[0] == raw);
    assert(spec_build_all(raws.drop_first()) == Ok::<Seq<MTIFEntryView>, ParseError>(
        Seq::empty(),
    ));
    assert(spec_parse(s) == spec_build_all(raws));
    match spec_build_entry(raw) {
        Ok(entry) => {
            assert(seq![entry] + Seq::<MTIFEntryView>::empty() =~= seq![entry]);
            assert(spec_build_all(raws) == Ok::<Seq<MTIFEntryView>, ParseError>(seq![entry]));
            assert(entry.body is None);
            assert(entry.comments =~= Seq::<CommentView>::empty());
            assert(entry.pings =~= Seq::<PingView>::empty());
        },
        Err(e) => {
            assert(spec_build_all(raws) == Err::<Seq<MTIFEntryView>, ParseError>(e));
        },
    }
}

/// Parsing keeps no state: two runs on the same text, by the same parser or
/// by two, end alike, with the same failure or with entries that are equal
/// field by field.
pub proof fn lemma_parse_is_repeatable(
    first_input: &str,
    second_input: &str,
    first: Result<Vec<MTIFEntry>, ParseError>,
    second: Result<Vec<MTIFEntry>, ParseError>,
)
    requires
        first_input@ == second_input@,
        is_parse_of(first, first_input),
        is_parse_of(second, second_input),
    ensures
        match first {
            Ok(entries) => second matches Ok(again) && parsed_view(again@) == parsed_view(
                entries@,
            ),
            Err(e) => second matches Err(f) && f == e,
        },
{
}

/// One more line changes whether a `NO ENTRY` line is among the lines only if
/// it is one.
pub proof fn lemma_has_no_entry_step(fields: Seq<MetaDataFieldView>, i: int)
    requires
        0 <= i < fields.len(),
    ensures
        has_no_entry(fields.take(i + 1)) == (has_no_entry(fields.take(i)) || fields[i] is NoEntry),
{
    let before = fields.take(i);
    let after = fields.take(i + 1);
    if has_no_entry(before) {
        let j = choose|j: int| 0 <= j < before.len() && #[trigger] before[j] is NoEntry;
        assert(after[j] is NoEntry);
    }
    if fields[i] is NoEntry {
        assert(after[i] is NoEntry);
    }
    if has_no_entry(after) {
        let j = choose|j: int| 0 <= j < after.len() && #[trigger] after[j] is NoEntry;
        if j < i {
            assert(before[j] is NoEntry);
        }
    }
}

} // verus!

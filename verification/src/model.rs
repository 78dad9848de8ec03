//! The assembled entry: what a consumer of the parser receives.
//!
//! Text fields are string slices borrowed from the parsed input. Each type has
//! a view in which a text is the sequence of its UTF-8 bytes.

use crate::datetime::DateTime;
use crate::text::{opt_bytes, seq_bytes};
use vstd::prelude::*;
use vstd::string::StringSliceAdditionalSpecFns;

verus! {

/// Publication state of an entry.
#[derive(Debug, PartialEq, Eq, Clone, Copy, Structural)]
pub enum Status {
    Draft,
    Publish,
    Future,
}

/// How line breaks of an entry's text are to be rendered.
#[derive(Debug, PartialEq, Eq, Clone, Copy, Structural)]
pub enum ConvertBreaks {
    NoConversion,
    Convert,
    Markdown,
    MarkdownWithSmartypants,
    RichText,
    Textile2,
}

/// The metadata of an entry after the merge of its fields.
#[derive(Debug, PartialEq, Eq)]
pub struct MetaData<'a> {
    pub author: Option<&'a str>,
    pub title: Option<&'a str>,
    pub basename: Option<&'a str>,
    pub status: Option<Status>,
    pub allow_comments: Option<bool>,
    pub allow_pings: Option<bool>,
    pub convert_breaks: Option<ConvertBreaks>,
    pub primary_category: Option<&'a str>,
    pub category: Vec<&'a str>,
    pub date: DateTime,
    pub no_entry: bool,
    pub tags: Vec<&'a str>,
    pub image: Option<&'a str>,
}

/// [`MetaData`] with each text as its bytes.
pub struct MetaDataView {
    pub author: Option<Seq<u8>>,
    pub title: Option<Seq<u8>>,
    pub basename: Option<Seq<u8>>,
    pub status: Option<Status>,
    pub allow_comments: Option<bool>,
    pub allow_pings: Option<bool>,
    pub convert_breaks: Option<ConvertBreaks>,
    pub primary_category: Option<Seq<u8>>,
    pub category: Seq<Seq<u8>>,
    pub date: DateTime,
    pub no_entry: bool,
    pub tags: Seq<Seq<u8>>,
    pub image: Option<Seq<u8>>,
}

impl<'a> View for MetaData<'a> {
    type V = MetaDataView;

    open spec fn view(&self) -> MetaDataView {
        MetaDataView {
            author: opt_bytes(self.author),
            title: opt_bytes(self.title),
            basename: opt_bytes(self.basename),
            status: self.status,
            allow_comments: self.allow_comments,
            allow_pings: self.allow_pings,
            convert_breaks: self.convert_breaks,
            primary_category: opt_bytes(self.primary_category),
            category: seq_bytes(self.category@),
            date: self.date,
            no_entry: self.no_entry,
            tags: seq_bytes(self.tags@),
            image: opt_bytes(self.image),
        }
    }
}

/// A reader's comment on an entry.
#[derive(Debug, PartialEq, Eq)]
pub struct Comment<'a> {
    pub author: Option<&'a str>,
    pub email: Option<&'a str>,
    pub url: Option<&'a str>,
    pub ip: Option<&'a str>,
    pub date: Option<DateTime>,
    pub text: &'a str,
}

/// [`Comment`] with each text as its bytes.
pub struct CommentView {
    pub author: Option<Seq<u8>>,
    pub email: Option<Seq<u8>>,
    pub url: Option<Seq<u8>>,
    pub ip: Option<Seq<u8>>,
    pub date: Option<DateTime>,
    pub text: Seq<u8>,
}

impl<'a> View for Comment<'a> {
    type V = CommentView;

    open spec fn view(&self) -> CommentView {
        CommentView {
            author: opt_bytes(self.author),
            email: opt_bytes(self.email),
            url: opt_bytes(self.url),
            ip: opt_bytes(self.ip),
            date: self.date,
            text: self.text.spec_bytes(),
        }
    }
}

/// A trackback ping received by an entry.
#[derive(Debug, PartialEq, Eq)]
pub struct Ping<'a> {
    pub title: Option<&'a str>,
    pub url: Option<&'a str>,
    pub ip: Option<&'a str>,
    pub date: Option<DateTime>,
    pub blog_name: Option<&'a str>,
    pub text: &'a str,
}

/// [`Ping`] with each text as its bytes.
pub struct PingView {
    pub title: Option<Seq<u8>>,
    pub url: Option<Seq<u8>>,
    pub ip: Option<Seq<u8>>,
    pub date: Option<DateTime>,
    pub blog_name: Option<Seq<u8>>,
    pub text: Seq<u8>,
}

impl<'a> View for Ping<'a> {
    type V = PingView;

    open spec fn view(&self) -> PingView {
        PingView {
            title: opt_bytes(self.title),
            url: opt_bytes(self.url),
            ip: opt_bytes(self.ip),
            date: self.date,
            blog_name: opt_bytes(self.blog_name),
            text: self.text.spec_bytes(),
        }
    }
}

/// One entry of the export: its metadata, its text blocks, and the comments
/// and pings it received, in the order of the source.
#[derive(Debug, PartialEq, Eq)]
pub struct MTIFEntry<'a> {
    pub metadata: MetaData<'a>,
    pub body: Option<&'a str>,
    pub extended_body: Option<&'a str>,
    pub excerpt: Option<&'a str>,
    pub keywords: Option<&'a str>,
    pub comments: Vec<Comment<'a>>,
    pub pings: Vec<Ping<'a>>,
}

/// [`MTIFEntry`] with each text as its bytes.
pub struct MTIFEntryView {
    pub metadata: MetaDataView,
    pub body: Option<Seq<u8>>,
    pub extended_body: Option<Seq<u8>>,
    pub excerpt: Option<Seq<u8>>,
    pub keywords: Option<Seq<u8>>,
    pub comments: Seq<CommentView>,
    pub pings: Seq<PingView>,
}

impl<'a> View for MTIFEntry<'a> {
    type V = MTIFEntryView;

    open spec fn view(&self) -> MTIFEntryView {
        MTIFEntryView {
            metadata: self.metadata@,
            body: opt_bytes(self.body),
            extended_body: opt_bytes(self.extended_body),
            excerpt: opt_bytes(self.excerpt),
            keywords: opt_bytes(self.keywords),
            comments: self.comments@.map_values(|c: Comment<'a>| c@),
            pings: self.pings@.map_values(|p: Ping<'a>| p@),
        }
    }
}

impl MTIFEntryView {
    /// The entry's date exists, and so does the date of each comment and ping
    /// that has one.
    pub open spec fn wf(self) -> bool {
        &&& self.metadata.date.is_valid()
        &&& forall|i: int|
            0 <= i < self.comments.len() ==> (#[trigger] self.comments[i].date matches Some(d)
                ==> d.is_valid())
        &&& forall|i: int|
            0 <= i < self.pings.len() ==> (#[trigger] self.pings[i].date matches Some(d)
                ==> d.is_valid())
    }
}

} // verus!

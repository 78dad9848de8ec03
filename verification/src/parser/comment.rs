//! The `COMMENT:` section: optional `KEY: value` lines in any order, then the
//! text of the comment.

use crate::datetime::DateTime;
use crate::error::ParseError;
use crate::merge::{first_of, lemma_first_of_found, lemma_first_of_step};
use crate::model::CommentView;
use crate::parser::date::{parse_date_line, spec_date_line, DATE_KEY};
use crate::parser::utils::{
    is_rest_of, lemma_date_value_valid, lemma_many0_all, lemma_many0_step, lemma_many0_stop,
    lemma_rest_of_rest, no_alternative, or_else, parse_keyed_line, parse_literal,
    parse_multiline_text, resumed, shifted, spec_keyed_line, spec_literal, spec_many0,
    spec_multiline_text, yields_view,
};
use crate::parser::{MultiLineField, MultiLineFieldView};
use crate::text::opt_bytes;
use vstd::prelude::*;
use vstd::string::StringSliceAdditionalSpecFns;

verus! {

/// The header line that begins the section.
pub const COMMENT_HEADER: &'static str = "COMMENT:\n";

/// The key of the line that gives the commenter's e-mail address.
pub const EMAIL_KEY: &'static str = "EMAIL: ";

/// The key of the line that gives the commenter's web address.
pub const URL_KEY: &'static str = "URL: ";

/// The key of the line that gives the commenter's name.
pub const AUTHOR_KEY: &'static str = "AUTHOR: ";

/// The key of the line that gives the commenter's network address.
pub const IP_KEY: &'static str = "IP: ";

/// One of the optional lines that precede the text of a comment.
#[derive(Debug, PartialEq, Eq)]
pub enum CommentField<'a> {
    Email(&'a str),
    Url(&'a str),
    Author(&'a str),
    Ip(&'a str),
    Date(DateTime),
}

/// [`CommentField`] with each text as its bytes.
pub enum CommentFieldView {
    Email(Seq<u8>),
    Url(Seq<u8>),
    Author(Seq<u8>),
    Ip(Seq<u8>),
    Date(DateTime),
}

impl<'a> View for CommentField<'a> {
    type V = CommentFieldView;

    open spec fn view(&self) -> CommentFieldView {
        match *self {
            CommentField::Email(t) => CommentFieldView::Email(t.spec_bytes()),
            CommentField::Url(t) => CommentFieldView::Url(t.spec_bytes()),
            CommentField::Author(t) => CommentFieldView::Author(t.spec_bytes()),
            CommentField::Ip(t) => CommentFieldView::Ip(t.spec_bytes()),
            CommentField::Date(d) => CommentFieldView::Date(d),
        }
    }
}

impl CommentFieldView {
    /// The commenter's e-mail address, if this line gives it.
    pub open spec fn as_email(self) -> Option<Seq<u8>> {
        match self {
            CommentFieldView::Email(t) => Some(t),
            _ => None,
        }
    }

    /// The commenter's web address, if this line gives it.
    pub open spec fn as_url(self) -> Option<Seq<u8>> {
        match self {
            CommentFieldView::Url(t) => Some(t),
            _ => None,
        }
    }

    /// The commenter's name, if this line gives it.
    pub open spec fn as_author(self) -> Option<Seq<u8>> {
        match self {
            CommentFieldView::Author(t) => Some(t),
            _ => None,
        }
    }

    /// The commenter's network address, if this line gives it.
    pub open spec fn as_ip(self) -> Option<Seq<u8>> {
        match self {
            CommentFieldView::Ip(t) => Some(t),
            _ => None,
        }
    }

    /// The date, if this line gives it.
    pub open spec fn as_date(self) -> Option<DateTime> {
        match self {
            CommentFieldView::Date(d) => Some(d),
            _ => None,
        }
    }

    /// A date that this line gives exists.
    pub open spec fn wf(self) -> bool {
        self matches CommentFieldView::Date(d) ==> d.is_valid()
    }
}

/// The views of a sequence of lines.
pub open spec fn comment_fields_view(fields: Seq<CommentField>) -> Seq<CommentFieldView> {
    fields.map_values(|f: CommentField| f@)
}

/// `EMAIL: `, the commenter's e-mail address, and the line terminator.
pub open spec fn spec_email_field(s: Seq<u8>) -> Result<(CommentFieldView, nat), ParseError> {
    match spec_keyed_line(s, EMAIL_KEY.spec_bytes()) {
        Ok((text, n)) => Ok((CommentFieldView::Email(text), n)),
        Err(e) => Err(e),
    }
}

/// `URL: `, the commenter's web address, and the line terminator.
pub open spec fn spec_url_field(s: Seq<u8>) -> Result<(CommentFieldView, nat), ParseError> {
    match spec_keyed_line(s, URL_KEY.spec_bytes()) {
        Ok((text, n)) => Ok((CommentFieldView::Url(text), n)),
        Err(e) => Err(e),
    }
}

/// `AUTHOR: `, the commenter's name, and the line terminator.
pub open spec fn spec_author_field(s: Seq<u8>) -> Result<(CommentFieldView, nat), ParseError> {
    match spec_keyed_line(s, AUTHOR_KEY.spec_bytes()) {
        Ok((text, n)) => Ok((CommentFieldView::Author(text), n)),
        Err(e) => Err(e),
    }
}

/// `IP: `, the commenter's network address, and the line terminator.
pub open spec fn spec_ip_field(s: Seq<u8>) -> Result<(CommentFieldView, nat), ParseError> {
    match spec_keyed_line(s, IP_KEY.spec_bytes()) {
        Ok((text, n)) => Ok((CommentFieldView::Ip(text), n)),
        Err(e) => Err(e),
    }
}

/// `DATE: `, a date and time, and the line terminator.
pub open spec fn spec_date_field(s: Seq<u8>) -> Result<(CommentFieldView, nat), ParseError> {
    match spec_literal(s, DATE_KEY.spec_bytes()) {
        Err(e) => Err(e),
        Ok(k) => match shifted(k, spec_date_line(s.skip(k as int))) {
            Ok((date, n)) => Ok((CommentFieldView::Date(date), n)),
            Err(e) => Err(e),
        },
    }
}

/// Any one of the optional lines. The keys are tried in the order
/// `EMAIL: `, `URL: `, `AUTHOR: `, `IP: `, `DATE: `; no key is the
/// beginning of another, so the order decides nothing.
#[verifier::opaque]
pub open spec fn spec_comment_field(s: Seq<u8>) -> Result<(CommentFieldView, nat), ParseError> {
    or_else(
        spec_email_field(s),
        or_else(
            spec_url_field(s),
            or_else(
                spec_author_field(s),
                or_else(
                    spec_ip_field(s),
                    or_else(spec_date_field(s), no_alternative()),
                ),
            ),
        ),
    )
}

/// The optional lines of a comment: as many as can be read. A line that begins
/// with a key but does not read as that key's line is where the text begins,
/// except that a date of the right shape that does not exist is an error.
pub open spec fn spec_comment_fields(s: Seq<u8>) -> Result<
    (Seq<CommentFieldView>, nat),
    ParseError,
> {
    spec_many0(s, |r: Seq<u8>| spec_comment_field(r))
}

/// The comment that the optional lines and the text make up: of a key that
/// occurs more than once, the first line counts.
pub open spec fn comment_of(fields: Seq<CommentFieldView>, text: Seq<u8>) -> CommentView {
    CommentView {
        author: first_of(fields, |f: CommentFieldView| f.as_author()),
        email: first_of(fields, |f: CommentFieldView| f.as_email()),
        url: first_of(fields, |f: CommentFieldView| f.as_url()),
        ip: first_of(fields, |f: CommentFieldView| f.as_ip()),
        date: first_of(fields, |f: CommentFieldView| f.as_date()),
        text,
    }
}

/// The header line `COMMENT:`, the optional lines, and the text up to the
/// separator line. The terminator of the text's last line is not part of the
/// text.
pub open spec fn spec_comment_data(s: Seq<u8>) -> Result<(MultiLineFieldView, nat), ParseError> {
    match spec_literal(s, COMMENT_HEADER.spec_bytes()) {
        Err(e) => Err(e),
        Ok(k) => match spec_comment_fields(s.skip(k as int)) {
            Err(e) => Err(e),
            Ok((fields, n)) => match spec_multiline_text(s.skip((k + n) as int)) {
                Err(e) => Err(e),
                Ok((text, m)) => Ok(
                    (MultiLineFieldView::Comment(comment_of(fields, text)), k + n + m),
                ),
            },
        },
    }
}

/// A date that was read on one of the optional lines exists.
pub proof fn lemma_comment_field_wf(s: Seq<u8>)
    ensures
        spec_comment_field(s) matches Ok((f, _)) ==> f.wf(),
{
    reveal(spec_comment_field);
    match spec_literal(s, DATE_KEY.spec_bytes()) {
        Ok(k) => {
            lemma_date_value_valid(s.skip(k as int));
        },
        Err(_) => {},
    }
}

/// The date of a comment that was read, if it has one, exists.
pub proof fn lemma_comment_data_wf(s: Seq<u8>)
    ensures
        spec_comment_data(s) matches Ok((m, _)) ==> m.wf(),
{
    match spec_literal(s, COMMENT_HEADER.spec_bytes()) {
        Ok(k) => {
            let lines = s.skip(k as int);
            let element = |r: Seq<u8>| spec_comment_field(r);
            let good = |f: CommentFieldView| f.wf();
            assert forall|r: Seq<u8>| (#[trigger] element(r)) matches Ok((v, _)) ==> good(v) by {
                lemma_comment_field_wf(r);
            }
            lemma_many0_all(lines, element, good);
            match spec_comment_fields(lines) {
                Ok((fields, _)) => {
                    lemma_first_of_found(fields, |f: CommentFieldView| f.as_date());
                },
                Err(_) => {},
            }
        },
        Err(_) => {},
    }
}

/// Reads an `EMAIL: ` line.
pub fn parse_email_field<'a>(input: &'a str) -> (r: Result<(&'a str, CommentField<'a>), ParseError>)
    ensures
        yields_view(r, input, spec_email_field(input.spec_bytes())),
{
    let (rest, text) = parse_keyed_line(input, EMAIL_KEY)?;
    Ok((rest, CommentField::Email(text)))
}

/// Reads an `URL: ` line.
pub fn parse_url_field<'a>(input: &'a str) -> (r: Result<(&'a str, CommentField<'a>), ParseError>)
    ensures
        yields_view(r, input, spec_url_field(input.spec_bytes())),
{
    let (rest, text) = parse_keyed_line(input, URL_KEY)?;
    Ok((rest, CommentField::Url(text)))
}

/// Reads an `AUTHOR: ` line.
pub fn parse_author_field<'a>(input: &'a str) -> (r: Result<
    (&'a str, CommentField<'a>),
    ParseError,
>)
    ensures
        yields_view(r, input, spec_author_field(input.spec_bytes())),
{
    let (rest, text) = parse_keyed_line(input, AUTHOR_KEY)?;
    Ok((rest, CommentField::Author(text)))
}

/// Reads an `IP: ` line.
pub fn parse_ip_field<'a>(input: &'a str) -> (r: Result<(&'a str, CommentField<'a>), ParseError>)
    ensures
        yields_view(r, input, spec_ip_field(input.spec_bytes())),
{
    let (rest, text) = parse_keyed_line(input, IP_KEY)?;
    Ok((rest, CommentField::Ip(text)))
}

/// Reads a `DATE: ` line.
pub fn parse_date_field<'a>(input: &'a str) -> (r: Result<(&'a str, CommentField<'a>), ParseError>)
    ensures
        yields_view(r, input, spec_date_field(input.spec_bytes())),
{
    let value = parse_literal(input, DATE_KEY)?;
    let (rest, date) = parse_date_line(value)?;
    proof {
        let k = DATE_KEY.spec_bytes().len();
        let n = spec_date_line(value.spec_bytes())->Ok_0.1;
        lemma_rest_of_rest(input, value, rest, k, n);
    }
    Ok((rest, CommentField::Date(date)))
}

/// Reads any one of the optional lines.
pub fn parse_comment_field<'a>(input: &'a str) -> (r: Result<
    (&'a str, CommentField<'a>),
    ParseError,
>)
    ensures
        yields_view(r, input, spec_comment_field(input.spec_bytes())),
{
    proof {
        reveal(spec_comment_field);
    }
    match parse_email_field(input) {
        Ok(found) => return Ok(found),
        Err(e) => if !e.recoverable() {
            return Err(e);
        },
    }
    match parse_url_field(input) {
        Ok(found) => return Ok(found),
        Err(e) => if !e.recoverable() {
            return Err(e);
        },
    }
    match parse_author_field(input) {
        Ok(found) => return Ok(found),
        Err(e) => if !e.recoverable() {
            return Err(e);
        },
    }
    match parse_ip_field(input) {
        Ok(found) => return Ok(found),
        Err(e) => if !e.recoverable() {
            return Err(e);
        },
    }
    match parse_date_field(input) {
        Ok(found) => return Ok(found),
        Err(e) => if !e.recoverable() {
            return Err(e);
        },
    }
    Err(ParseError::GrammarMismatch)
}

/// Reads the optional lines of a comment.
pub fn parse_comment_fields<'a>(input: &'a str) -> (r: Result<
    (&'a str, Vec<CommentField<'a>>),
    ParseError,
>)
    ensures
        match spec_comment_fields(input.spec_bytes()) {
            Ok((fields, n)) => r matches Ok((rest, v)) && comment_fields_view(v@) == fields
                && is_rest_of(rest, input, n),
            Err(e) => r matches Err(f) && f == e,
        },
{
    let ghost s = input.spec_bytes();
    let ghost element = |r: Seq<u8>| spec_comment_field(r);
    let mut fields: Vec<CommentField<'a>> = Vec::new();
    let mut rest = input;
    let ghost mut at: nat = 0;
    proof {
        assert(s.skip(0) =~= s);
        assert(comment_fields_view(fields@) =~= Seq::<CommentFieldView>::empty());
        match spec_many0(s, element) {
            Ok((vs, _)) => {
                assert(Seq::<CommentFieldView>::empty() + vs =~= vs);
            },
            Err(_) => {},
        }
    }
    loop
        invariant
            s == input.spec_bytes(),
            element == |r: Seq<u8>| spec_comment_field(r),
            is_rest_of(rest, input, at),
            spec_comment_fields(s) == resumed(
                comment_fields_view(fields@),
                at,
                spec_many0(s.skip(at as int), element),
            ),
        decreases rest.spec_bytes().len(),
    {
        match parse_comment_field(rest) {
            Ok((next, field)) => {
                if next.as_bytes().len() >= rest.as_bytes().len() {
                    proof {
                        lemma_many0_stop(s, element, comment_fields_view(fields@), at);
                    }
                    return Ok((rest, fields));
                }
                proof {
                    let n = spec_comment_field(rest.spec_bytes())->Ok_0.1;
                    lemma_many0_step(s, element, comment_fields_view(fields@), at, field@, n);
                    lemma_rest_of_rest(input, rest, next, at, n);
                    assert(comment_fields_view(fields@.push(field)) =~= comment_fields_view(
                        fields@,
                    ).push(field@));
                    at = at + n;
                }
                fields.push(field);
                rest = next;
            },
            Err(e) => {
                if e.recoverable() {
                    proof {
                        lemma_many0_stop(s, element, comment_fields_view(fields@), at);
                    }
                    return Ok((rest, fields));
                }
                return Err(e);
            },
        }
    }
}

/// Puts the optional lines and the text together.
pub fn build_comment<'a>(fields: &Vec<CommentField<'a>>, text: &'a str) -> (r: MultiLineField<'a>)
    ensures
        r@ == MultiLineFieldView::Comment(
            comment_of(comment_fields_view(fields@), text.spec_bytes()),
        ),
{
    let ghost views = comment_fields_view(fields@);
    let mut email: Option<&'a str> = None;
    let mut url: Option<&'a str> = None;
    let mut author: Option<&'a str> = None;
    let mut ip: Option<&'a str> = None;
    let mut date: Option<DateTime> = None;
    let mut i: usize = 0;
    while i < fields.len()
        invariant
            i <= fields.len(),
            views == comment_fields_view(fields@),
            opt_bytes(email) == first_of(
                views.take(i as int),
                |f: CommentFieldView| f.as_email(),
            ),
            opt_bytes(url) == first_of(
                views.take(i as int),
                |f: CommentFieldView| f.as_url(),
            ),
            opt_bytes(author) == first_of(
                views.take(i as int),
                |f: CommentFieldView| f.as_author(),
            ),
            opt_bytes(ip) == first_of(
                views.take(i as int),
                |f: CommentFieldView| f.as_ip(),
            ),
            date == first_of(views.take(i as int), |f: CommentFieldView| f.as_date()),
        decreases fields.len() - i,
    {
        proof {
            lemma_first_of_step(views, |f: CommentFieldView| f.as_email(), i as int);
            lemma_first_of_step(views, |f: CommentFieldView| f.as_url(), i as int);
            lemma_first_of_step(views, |f: CommentFieldView| f.as_author(), i as int);
            lemma_first_of_step(views, |f: CommentFieldView| f.as_ip(), i as int);
            lemma_first_of_step(views, |f: CommentFieldView| f.as_date(), i as int);
        }
        match &fields[i] {
            CommentField::Email(t) => {
                if email.is_none() {
                    email = Some(*t);
                }
            },
            CommentField::Url(t) => {
                if url.is_none() {
                    url = Some(*t);
                }
            },
            CommentField::Author(t) => {
                if author.is_none() {
                    author = Some(*t);
                }
            },
            CommentField::Ip(t) => {
                if ip.is_none() {
                    ip = Some(*t);
                }
            },
            CommentField::Date(d) => {
                if date.is_none() {
                    date = Some(*d);
                }
            },
        }
        i += 1;
    }
    assert(views.take(i as int) =~= views);
    MultiLineField::Comment { author, email, url, ip, date, text }
}

/// Reads a `COMMENT:` section.
pub fn parse_comment_data<'a>(input: &'a str) -> (r: Result<
    (&'a str, MultiLineField<'a>),
    ParseError,
>)
    ensures
        yields_view(r, input, spec_comment_data(input.spec_bytes())),
{
    let lines = parse_literal(input, COMMENT_HEADER)?;
    let (body, fields) = parse_comment_fields(lines)?;
    let ghost s = input.spec_bytes();
    let ghost k = COMMENT_HEADER.spec_bytes().len();
    let ghost n = spec_comment_fields(lines.spec_bytes())->Ok_0.1;
    assert(s.skip(k as int).skip(n as int) =~= s.skip((k + n) as int));
    let (rest, text) = parse_multiline_text(body)?;
    proof {
        let m = spec_multiline_text(body.spec_bytes())->Ok_0.1;
        lemma_rest_of_rest(lines, body, rest, n, m);
        lemma_rest_of_rest(input, lines, rest, k, n + m);
    }
    Ok((rest, build_comment(&fields, text)))
}

} // verus!

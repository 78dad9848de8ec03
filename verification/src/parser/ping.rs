//! The `PING:` section: optional `KEY: value` lines in any order, then the
//! text of the ping.

use crate::datetime::DateTime;
use crate::error::ParseError;
use crate::merge::{first_of, lemma_first_of_found, lemma_first_of_step};
use crate::model::PingView;
use crate::parser::date::{parse_date_line, spec_date_line, DATE_KEY};
use crate::parser::utils::{
    is_rest_of, lemma_date_value_valid, lemma_many0_all, lemma_many0_step, lemma_many0_stop,
    lemma_rest_of_rest, no_alternative, or_else, parse_keyed_line, parse_literal,
    parse_multiline_text, resumed, shifted, spec_keyed_line, spec_literal, spec_many0,
    spec_multiline_text, yields_view,
};
use crate::parser::{MultiLineField, MultiLineFieldView};
use crate::text::opt_bytes;
use vstd::prelude::*;
use vstd::string::StringSliceAdditionalSpecFns;

verus! {

/// The header line that begins the section.
pub const PING_HEADER: &'static str = "PING:\n";

/// The key of the line that gives the title of the pinging entry.
pub const TITLE_KEY: &'static str = "TITLE: ";

/// The key of the line that gives the address of the pinging entry.
pub const URL_KEY: &'static str = "URL: ";

/// The key of the line that gives the network address of the pinging site.
pub const IP_KEY: &'static str = "IP: ";

/// The key of the line that gives the name of the pinging site.
pub const BLOG_NAME_KEY: &'static str = "BLOG NAME: ";

/// One of the optional lines that precede the text of a ping.
#[derive(Debug, PartialEq, Eq)]
pub enum PingField<'a> {
    Title(&'a str),
    Url(&'a str),
    Ip(&'a str),
    BlogName(&'a str),
    Date(DateTime),
}

/// [`PingField`] with each text as its bytes.
pub enum PingFieldView {
    Title(Seq<u8>),
    Url(Seq<u8>),
    Ip(Seq<u8>),
    BlogName(Seq<u8>),
    Date(DateTime),
}

impl<'a> View for PingField<'a> {
    type V = PingFieldView;

    open spec fn view(&self) -> PingFieldView {
        match *self {
            PingField::Title(t) => PingFieldView::Title(t.spec_bytes()),
            PingField::Url(t) => PingFieldView::Url(t.spec_bytes()),
            PingField::Ip(t) => PingFieldView::Ip(t.spec_bytes()),
            PingField::BlogName(t) => PingFieldView::BlogName(t.spec_bytes()),
            PingField::Date(d) => PingFieldView::Date(d),
        }
    }
}

impl PingFieldView {
    /// The title of the pinging entry, if this line gives it.
    pub open spec fn as_title(self) -> Option<Seq<u8>> {
        match self {
            PingFieldView::Title(t) => Some(t),
            _ => None,
        }
    }

    /// The address of the pinging entry, if this line gives it.
    pub open spec fn as_url(self) -> Option<Seq<u8>> {
        match self {
            PingFieldView::Url(t) => Some(t),
            _ => None,
        }
    }

    /// The network address of the pinging site, if this line gives it.
    pub open spec fn as_ip(self) -> Option<Seq<u8>> {
        match self {
            PingFieldView::Ip(t) => Some(t),
            _ => None,
        }
    }

    /// The name of the pinging site, if this line gives it.
    pub open spec fn as_blog_name(self) -> Option<Seq<u8>> {
        match self {
            PingFieldView::BlogName(t) => Some(t),
            _ => None,
        }
    }

    /// The date, if this line gives it.
    pub open spec fn as_date(self) -> Option<DateTime> {
        match self {
            PingFieldView::Date(d) => Some(d),
            _ => None,
        }
    }

    /// A date that this line gives exists.
    pub open spec fn wf(self) -> bool {
        self matches PingFieldView::Date(d) ==> d.is_valid()
    }
}

/// The views of a sequence of lines.
pub open spec fn ping_fields_view(fields: Seq<PingField>) -> Seq<PingFieldView> {
    fields.map_values(|f: PingField| f@)
}

/// `TITLE: `, the title of the pinging entry, and the line terminator.
pub open spec fn spec_title_field(s: Seq<u8>) -> Result<(PingFieldView, nat), ParseError> {
    match spec_keyed_line(s, TITLE_KEY.spec_bytes()) {
        Ok((text, n)) => Ok((PingFieldView::Title(text), n)),
        Err(e) => Err(e),
    }
}

/// `URL: `, the address of the pinging entry, and the line terminator.
pub open spec fn spec_url_field(s: Seq<u8>) -> Result<(PingFieldView, nat), ParseError> {
    match spec_keyed_line(s, URL_KEY.spec_bytes()) {
        Ok((text, n)) => Ok((PingFieldView::Url(text), n)),
        Err(e) => Err(e),
    }
}

/// `IP: `, the network address of the pinging site, and the line terminator.
pub open spec fn spec_ip_field(s: Seq<u8>) -> Result<(PingFieldView, nat), ParseError> {
    match spec_keyed_line(s, IP_KEY.spec_bytes()) {
        Ok((text, n)) => Ok((PingFieldView::Ip(text), n)),
        Err(e) => Err(e),
    }
}

/// `BLOG NAME: `, the name of the pinging site, and the line terminator.
pub open spec fn spec_blog_name_field(s: Seq<u8>) -> Result<(PingFieldView, nat), ParseError> {
    match spec_keyed_line(s, BLOG_NAME_KEY.spec_bytes()) {
        Ok((text, n)) => Ok((PingFieldView::BlogName(text), n)),
        Err(e) => Err(e),
    }
}

/// `DATE: `, a date and time, and the line terminator.
pub open spec fn spec_date_field(s: Seq<u8>) -> Result<(PingFieldView, nat), ParseError> {
    match spec_literal(s, DATE_KEY.spec_bytes()) {
        Err(e) => Err(e),
        Ok(k) => match shifted(k, spec_date_line(s.skip(k as int))) {
            Ok((date, n)) => Ok((PingFieldView::Date(date), n)),
            Err(e) => Err(e),
        },
    }
}

/// Any one of the optional lines. The keys are tried in the order
/// `TITLE: `, `URL: `, `IP: `, `BLOG NAME: `, `DATE: `; no key is the
/// beginning of another, so the order decides nothing.
#[verifier::opaque]
pub open spec fn spec_ping_field(s: Seq<u8>) -> Result<(PingFieldView, nat), ParseError> {
    or_else(
        spec_title_field(s),
        or_else(
            spec_url_field(s),
            or_else(
                spec_ip_field(s),
                or_else(
                    spec_blog_name_field(s),
                    or_else(spec_date_field(s), no_alternative()),
                ),
            ),
        ),
    )
}

/// The optional lines of a ping: as many as can be read. A line that begins
/// with a key but does not read as that key's line is where the text begins,
/// except that a date of the right shape that does not exist is an error.
pub open spec fn spec_ping_fields(s: Seq<u8>) -> Result<
    (Seq<PingFieldView>, nat),
    ParseError,
> {
    spec_many0(s, |r: Seq<u8>| spec_ping_field(r))
}

/// The ping that the optional lines and the text make up: of a key that
/// occurs more than once, the first line counts.
pub open spec fn ping_of(fields: Seq<PingFieldView>, text: Seq<u8>) -> PingView {
    PingView {
        title: first_of(fields, |f: PingFieldView| f.as_title()),
        url: first_of(fields, |f: PingFieldView| f.as_url()),
        ip: first_of(fields, |f: PingFieldView| f.as_ip()),
        date: first_of(fields, |f: PingFieldView| f.as_date()),
        blog_name: first_of(fields, |f: PingFieldView| f.as_blog_name()),
        text,
    }
}

/// The header line `PING:`, the optional lines, and the text up to the
/// separator line. The terminator of the text's last line is not part of the
/// text.
pub open spec fn spec_ping_data(s: Seq<u8>) -> Result<(MultiLineFieldView, nat), ParseError> {
    match spec_literal(s, PING_HEADER.spec_bytes()) {
        Err(e) => Err(e),
        Ok(k) => match spec_ping_fields(s.skip(k as int)) {
            Err(e) => Err(e),
            Ok((fields, n)) => match spec_multiline_text(s.skip((k + n) as int)) {
                Err(e) => Err(e),
                Ok((text, m)) => Ok(
                    (MultiLineFieldView::Ping(ping_of(fields, text)), k + n + m),
                ),
            },
        },
    }
}

/// A date that was read on one of the optional lines exists.
pub proof fn lemma_ping_field_wf(s: Seq<u8>)
    ensures
        spec_ping_field(s) matches Ok((f, _)) ==> f.wf(),
{
    reveal(spec_ping_field);
    match spec_literal(s, DATE_KEY.spec_bytes()) {
        Ok(k) => {
            lemma_date_value_valid(s.skip(k as int));
        },
        Err(_) => {},
    }
}

/// The date of a ping that was read, if it has one, exists.
pub proof fn lemma_ping_data_wf(s: Seq<u8>)
    ensures
        spec_ping_data(s) matches Ok((m, _)) ==> m.wf(),
{
    match spec_literal(s, PING_HEADER.spec_bytes()) {
        Ok(k) => {
            let lines = s.skip(k as int);
            let element = |r: Seq<u8>| spec_ping_field(r);
            let good = |f: PingFieldView| f.wf();
            assert forall|r: Seq<u8>| (#[trigger] element(r)) matches Ok((v, _)) ==> good(v) by {
                lemma_ping_field_wf(r);
            }
            lemma_many0_all(lines, element, good);
            match spec_ping_fields(lines) {
                Ok((fields, _)) => {
                    lemma_first_of_found(fields, |f: PingFieldView| f.as_date());
                },
                Err(_) => {},
            }
        },
        Err(_) => {},
    }
}

/// Reads a `TITLE: ` line.
pub fn parse_title_field<'a>(input: &'a str) -> (r: Result<(&'a str, PingField<'a>), ParseError>)
    ensures
        yields_view(r, input, spec_title_field(input.spec_bytes())),
{
    let (rest, text) = parse_keyed_line(input, TITLE_KEY)?;
    Ok((rest, PingField::Title(text)))
}

/// Reads an `URL: ` line.
pub fn parse_url_field<'a>(input: &'a str) -> (r: Result<(&'a str, PingField<'a>), ParseError>)
    ensures
        yields_view(r, input, spec_url_field(input.spec_bytes())),
{
    let (rest, text) = parse_keyed_line(input, URL_KEY)?;
    Ok((rest, PingField::Url(text)))
}

/// Reads an `IP: ` line.
pub fn parse_ip_field<'a>(input: &'a str) -> (r: Result<(&'a str, PingField<'a>), ParseError>)
    ensures
        yields_view(r, input, spec_ip_field(input.spec_bytes())),
{
    let (rest, text) = parse_keyed_line(input, IP_KEY)?;
    Ok((rest, PingField::Ip(text)))
}

/// Reads a `BLOG NAME: ` line.
pub fn parse_blog_name_field<'a>(input: &'a str) -> (r: Result<
    (&'a str, PingField<'a>),
    ParseError,
>)
    ensures
        yields_view(r, input, spec_blog_name_field(input.spec_bytes())),
{
    let (rest, text) = parse_keyed_line(input, BLOG_NAME_KEY)?;
    Ok((rest, PingField::BlogName(text)))
}

/// Reads a `DATE: ` line.
pub fn parse_date_field<'a>(input: &'a str) -> (r: Result<(&'a str, PingField<'a>), ParseError>)
    ensures
        yields_view(r, input, spec_date_field(input.spec_bytes())),
{
    let value = parse_literal(input, DATE_KEY)?;
    let (rest, date) = parse_date_line(value)?;
    proof {
        let k = DATE_KEY.spec_bytes().len();
        let n = spec_date_line(value.spec_bytes())->Ok_0.1;
        lemma_rest_of_rest(input, value, rest, k, n);
    }
    Ok((rest, PingField::Date(date)))
}

/// Reads any one of the optional lines.
pub fn parse_ping_field<'a>(input: &'a str) -> (r: Result<(&'a str, PingField<'a>), ParseError>)
    ensures
        yields_view(r, input, spec_ping_field(input.spec_bytes())),
{
    proof {
        reveal(spec_ping_field);
    }
    match parse_title_field(input) {
        Ok(found) => return Ok(found),
        Err(e) => if !e.recoverable() {
            return Err(e);
        },
    }
    match parse_url_field(input) {
        Ok(found) => return Ok(found),
        Err(e) => if !e.recoverable() {
            return Err(e);
        },
    }
    match parse_ip_field(input) {
        Ok(found) => return Ok(found),
        Err(e) => if !e.recoverable() {
            return Err(e);
        },
    }
    match parse_blog_name_field(input) {
        Ok(found) => return Ok(found),
        Err(e) => if !e.recoverable() {
            return Err(e);
        },
    }
    match parse_date_field(input) {
        Ok(found) => return Ok(found),
        Err(e) => if !e.recoverable() {
            return Err(e);
        },
    }
    Err(ParseError::GrammarMismatch)
}

/// Reads the optional lines of a ping.
pub fn parse_ping_fields<'a>(input: &'a str) -> (r: Result<
    (&'a str, Vec<PingField<'a>>),
    ParseError,
>)
    ensures
        match spec_ping_fields(input.spec_bytes()) {
            Ok((fields, n)) => r matches Ok((rest, v)) && ping_fields_view(v@) == fields
                && is_rest_of(rest, input, n),
            Err(e) => r matches Err(f) && f == e,
        },
{
    let ghost s = input.spec_bytes();
    let ghost element = |r: Seq<u8>| spec_ping_field(r);
    let mut fields: Vec<PingField<'a>> = Vec::new();
    let mut rest = input;
    let ghost mut at: nat = 0;
    proof {
        assert(s.skip(0) =~= s);
        assert(ping_fields_view(fields@) =~= Seq::<PingFieldView>::empty());
        match spec_many0(s, element) {
            Ok((vs, _)) => {
                assert(Seq::<PingFieldView>::empty() + vs =~= vs);
            },
            Err(_) => {},
        }
    }
    loop
        invariant
            s == input.spec_bytes(),
            element == |r: Seq<u8>| spec_ping_field(r),
            is_rest_of(rest, input, at),
            spec_ping_fields(s) == resumed(
                ping_fields_view(fields@),
                at,
                spec_many0(s.skip(at as int), element),
            ),
        decreases rest.spec_bytes().len(),
    {
        match parse_ping_field(rest) {
            Ok((next, field)) => {
                if next.as_bytes().len() >= rest.as_bytes().len() {
                    proof {
                        lemma_many0_stop(s, element, ping_fields_view(fields@), at);
                    }
                    return Ok((rest, fields));
                }
                proof {
                    let n = spec_ping_field(rest.spec_bytes())->Ok_0.1;
                    lemma_many0_step(s, element, ping_fields_view(fields@), at, field@, n);
                    lemma_rest_of_rest(input, rest, next, at, n);
                    assert(ping_fields_view(fields@.push(field)) =~= ping_fields_view(
                        fields@,
                    ).push(field@));
                    at = at + n;
                }
                fields.push(field);
                rest = next;
            },
            Err(e) => {
                if e.recoverable() {
                    proof {
                        lemma_many0_stop(s, element, ping_fields_view(fields@), at);
                    }
                    return Ok((rest, fields));
                }
                return Err(e);
            },
        }
    }
}

/// Puts the optional lines and the text together.
pub fn build_ping<'a>(fields: &Vec<PingField<'a>>, text: &'a str) -> (r: MultiLineField<'a>)
    ensures
        r@ == MultiLineFieldView::Ping(
            ping_of(ping_fields_view(fields@), text.spec_bytes()),
        ),
{
    let ghost views = ping_fields_view(fields@);
    let mut title: Option<&'a str> = None;
    let mut url: Option<&'a str> = None;
    let mut ip: Option<&'a str> = None;
    let mut blog_name: Option<&'a str> = None;
    let mut date: Option<DateTime> = None;
    let mut i: usize = 0;
    while i < fields.len()
        invariant
            i <= fields.len(),
            views == ping_fields_view(fields@),
            opt_bytes(title) == first_of(
                views.take(i as int),
                |f: PingFieldView| f.as_title(),
            ),
            opt_bytes(url) == first_of(
                views.take(i as int),
                |f: PingFieldView| f.as_url(),
            ),
            opt_bytes(ip) == first_of(
                views.take(i as int),
                |f: PingFieldView| f.as_ip(),
            ),
            opt_bytes(blog_name) == first_of(
                views.take(i as int),
                |f: PingFieldView| f.as_blog_name(),
            ),
            date == first_of(views.take(i as int), |f: PingFieldView| f.as_date()),
        decreases fields.len() - i,
    {
        proof {
            lemma_first_of_step(views, |f: PingFieldView| f.as_title(), i as int);
            lemma_first_of_step(views, |f: PingFieldView| f.as_url(), i as int);
            lemma_first_of_step(views, |f: PingFieldView| f.as_ip(), i as int);
            lemma_first_of_step(views, |f: PingFieldView| f.as_blog_name(), i as int);
            lemma_first_of_step(views, |f: PingFieldView| f.as_date(), i as int);
        }
        match &fields[i] {
            PingField::Title(t) => {
                if title.is_none() {
                    title = Some(*t);
                }
            },
            PingField::Url(t) => {
                if url.is_none() {
                    url = Some(*t);
                }
            },
            PingField::Ip(t) => {
                if ip.is_none() {
                    ip = Some(*t);
                }
            },
            PingField::BlogName(t) => {
                if blog_name.is_none() {
                    blog_name = Some(*t);
                }
            },
            PingField::Date(d) => {
                if date.is_none() {
                    date = Some(*d);
                }
            },
        }
        i += 1;
    }
    assert(views.take(i as int) =~= views);
    MultiLineField::Ping { title, url, ip, date, blog_name, text }
}

/// Reads a `PING:` section.
pub fn parse_ping_data<'a>(input: &'a str) -> (r: Result<
    (&'a str, MultiLineField<'a>),
    ParseError,
>)
    ensures
        yields_view(r, input, spec_ping_data(input.spec_bytes())),
{
    let lines = parse_literal(input, PING_HEADER)?;
    let (body, fields) = parse_ping_fields(lines)?;
    let ghost s = input.spec_bytes();
    let ghost k = PING_HEADER.spec_bytes().len();
    let ghost n = spec_ping_fields(lines.spec_bytes())->Ok_0.1;
    assert(s.skip(k as int).skip(n as int) =~= s.skip((k + n) as int));
    let (rest, text) = parse_multiline_text(body)?;
    proof {
        let m = spec_multiline_text(body.spec_bytes())->Ok_0.1;
        lemma_rest_of_rest(lines, body, rest, n, m);
        lemma_rest_of_rest(input, lines, rest, k, n + m);
    }
    Ok((rest, build_ping(&fields, text)))
}

} // verus!

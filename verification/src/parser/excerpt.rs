//! The `EXCERPT:` section.

use crate::error::ParseError;
use crate::parser::utils::{parse_headed_block, spec_headed_block, yields_view};
use crate::parser::{MultiLineField, MultiLineFieldView};
use vstd::prelude::*;
use vstd::string::StringSliceAdditionalSpecFns;

verus! {

/// The header line that begins the section.
pub const EXCERPT_HEADER: &'static str = "EXCERPT:\n";

/// The header line `EXCERPT:` and the entry's summary, up to the separator
/// line. The text keeps the terminator of its last line.
pub open spec fn spec_excerpt_data(s: Seq<u8>) -> Result<(MultiLineFieldView, nat), ParseError> {
    match spec_headed_block(s, EXCERPT_HEADER.spec_bytes()) {
        Ok((text, n)) => Ok((MultiLineFieldView::Excerpt(text), n)),
        Err(e) => Err(e),
    }
}

/// Reads a `EXCERPT:` section.
pub fn parse_excerpt_data<'a>(input: &'a str) -> (r: Result<
    (&'a str, MultiLineField<'a>),
    ParseError,
>)
    ensures
        yields_view(r, input, spec_excerpt_data(input.spec_bytes())),
{
    let (rest, text) = parse_headed_block(input, EXCERPT_HEADER)?;
    Ok((rest, MultiLineField::Excerpt(text)))
}

} // verus!

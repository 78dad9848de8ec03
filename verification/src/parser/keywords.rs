//! The `KEYWORDS:` section.

use crate::error::ParseError;
use crate::parser::utils::{parse_headed_block, spec_headed_block, yields_view};
use crate::parser::{MultiLineField, MultiLineFieldView};
use vstd::prelude::*;
use vstd::string::StringSliceAdditionalSpecFns;

verus! {

/// The header line that begins the section.
pub const KEYWORDS_HEADER: &'static str = "KEYWORDS:\n";

/// The header line `KEYWORDS:` and the entry's keywords, up to the separator
/// line. The text keeps the terminator of its last line.
pub open spec fn spec_keywords_data(s: Seq<u8>) -> Result<(MultiLineFieldView, nat), ParseError> {
    match spec_headed_block(s, KEYWORDS_HEADER.spec_bytes()) {
        Ok((text, n)) => Ok((MultiLineFieldView::Keywords(text), n)),
        Err(e) => Err(e),
    }
}

/// Reads a `KEYWORDS:` section.
pub fn parse_keywords_data<'a>(input: &'a str) -> (r: Result<
    (&'a str, MultiLineField<'a>),
    ParseError,
>)
    ensures
        yields_view(r, input, spec_keywords_data(input.spec_bytes())),
{
    let (rest, text) = parse_headed_block(input, KEYWORDS_HEADER)?;
    Ok((rest, MultiLineField::Keywords(text)))
}

} // verus!

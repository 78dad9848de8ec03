//! The `BODY:` section.

use crate::error::ParseError;
use crate::parser::utils::{parse_headed_block, spec_headed_block, yields_view};
use crate::parser::{MultiLineField, MultiLineFieldView};
use vstd::prelude::*;
use vstd::string::StringSliceAdditionalSpecFns;

verus! {

/// The header line that begins the section.
pub const BODY_HEADER: &'static str = "BODY:\n";

/// The header line `BODY:` and the entry's text, up to the separator
/// line. The text keeps the terminator of its last line.
pub open spec fn spec_body_data(s: Seq<u8>) -> Result<(MultiLineFieldView, nat), ParseError> {
    match spec_headed_block(s, BODY_HEADER.spec_bytes()) {
        Ok((text, n)) => Ok((MultiLineFieldView::Body(text), n)),
        Err(e) => Err(e),
    }
}

/// Reads a `BODY:` section.
pub fn parse_body_data<'a>(input: &'a str) -> (r: Result<(&'a str, MultiLineField<'a>), ParseError>)
    ensures
        yields_view(r, input, spec_body_data(input.spec_bytes())),
{
    let (rest, text) = parse_headed_block(input, BODY_HEADER)?;
    Ok((rest, MultiLineField::Body(text)))
}

} // verus!

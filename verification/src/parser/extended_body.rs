//! The `EXTENDED BODY:` section.

use crate::error::ParseError;
use crate::parser::utils::{parse_headed_block, spec_headed_block, yields_view};
use crate::parser::{MultiLineField, MultiLineFieldView};
use vstd::prelude::*;
use vstd::string::StringSliceAdditionalSpecFns;

verus! {

/// The header line that begins the section.
pub const EXTENDED_BODY_HEADER: &'static str = "EXTENDED BODY:\n";

/// The header line `EXTENDED BODY:` and the continuation of the entry's text, up to the separator
/// line. The text keeps the terminator of its last line.
pub open spec fn spec_extended_body_data(s: Seq<u8>) -> Result<
    (MultiLineFieldView, nat),
    ParseError,
> {
    match spec_headed_block(s, EXTENDED_BODY_HEADER.spec_bytes()) {
        Ok((text, n)) => Ok((MultiLineFieldView::ExtendedBody(text), n)),
        Err(e) => Err(e),
    }
}

/// Reads a `EXTENDED BODY:` section.
pub fn parse_extended_body_data<'a>(input: &'a str) -> (r: Result<
    (&'a str, MultiLineField<'a>),
    ParseError,
>)
    ensures
        yields_view(r, input, spec_extended_body_data(input.spec_bytes())),
{
    let (rest, text) = parse_headed_block(input, EXTENDED_BODY_HEADER)?;
    Ok((rest, MultiLineField::ExtendedBody(text)))
}

} // verus!

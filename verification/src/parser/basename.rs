//! The `BASENAME: ` line of the metadata section.

use crate::error::ParseError;
use crate::parser::utils::{parse_keyed_line, spec_keyed_line, yields_view};
use crate::parser::{MetaDataField, MetaDataFieldView};
use vstd::prelude::*;
use vstd::string::StringSliceAdditionalSpecFns;

verus! {

/// The key that begins the line, with the colon and the space after it.
pub const BASENAME_KEY: &'static str = "BASENAME: ";

/// `BASENAME: `, the name of the entry's file, and the line terminator.
pub open spec fn spec_basename_data(s: Seq<u8>) -> Result<(MetaDataFieldView, nat), ParseError> {
    match spec_keyed_line(s, BASENAME_KEY.spec_bytes()) {
        Ok((text, n)) => Ok((MetaDataFieldView::BaseName(text), n)),
        Err(e) => Err(e),
    }
}

/// Reads a `BASENAME: ` line.
pub fn parse_basename_data<'a>(input: &'a str) -> (r: Result<
    (&'a str, MetaDataField<'a>),
    ParseError,
>)
    ensures
        yields_view(r, input, spec_basename_data(input.spec_bytes())),
{
    let (rest, text) = parse_keyed_line(input, BASENAME_KEY)?;
    Ok((rest, MetaDataField::BaseName(text)))
}

} // verus!

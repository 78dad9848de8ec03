//! The `AUTHOR: ` line of the metadata section.

use crate::error::ParseError;
use crate::parser::utils::{parse_keyed_line, spec_keyed_line, yields_view};
use crate::parser::{MetaDataField, MetaDataFieldView};
use vstd::prelude::*;
use vstd::string::StringSliceAdditionalSpecFns;

verus! {

/// The key that begins the line, with the colon and the space after it.
pub const AUTHOR_KEY: &'static str = "AUTHOR: ";

/// `AUTHOR: `, the author's name, and the line terminator.
pub open spec fn spec_author_data(s: Seq<u8>) -> Result<(MetaDataFieldView, nat), ParseError> {
    match spec_keyed_line(s, AUTHOR_KEY.spec_bytes()) {
        Ok((text, n)) => Ok((MetaDataFieldView::Author(text), n)),
        Err(e) => Err(e),
    }
}

/// Reads a `AUTHOR: ` line.
pub fn parse_author_data<'a>(input: &'a str) -> (r: Result<
    (&'a str, MetaDataField<'a>),
    ParseError,
>)
    ensures
        yields_view(r, input, spec_author_data(input.spec_bytes())),
{
    let (rest, text) = parse_keyed_line(input, AUTHOR_KEY)?;
    Ok((rest, MetaDataField::Author(text)))
}

} // verus!

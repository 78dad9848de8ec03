//! The `TITLE: ` line of the metadata section.

use crate::error::ParseError;
use crate::parser::utils::{parse_keyed_line, spec_keyed_line, yields_view};
use crate::parser::{MetaDataField, MetaDataFieldView};
use vstd::prelude::*;
use vstd::string::StringSliceAdditionalSpecFns;

verus! {

/// The key that begins the line, with the colon and the space after it.
pub const TITLE_KEY: &'static str = "TITLE: ";

/// `TITLE: `, the entry's title, and the line terminator.
pub open spec fn spec_title_data(s: Seq<u8>) -> Result<(MetaDataFieldView, nat), ParseError> {
    match spec_keyed_line(s, TITLE_KEY.spec_bytes()) {
        Ok((text, n)) => Ok((MetaDataFieldView::Title(text), n)),
        Err(e) => Err(e),
    }
}

/// Reads a `TITLE: ` line.
pub fn parse_title_data<'a>(input: &'a str) -> (r: Result<(&'a str, MetaDataField<'a>), ParseError>)
    ensures
        yields_view(r, input, spec_title_data(input.spec_bytes())),
{
    let (rest, text) = parse_keyed_line(input, TITLE_KEY)?;
    Ok((rest, MetaDataField::Title(text)))
}

} // verus!

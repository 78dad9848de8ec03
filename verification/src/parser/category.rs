//! The `CATEGORY: ` line of the metadata section.

use crate::error::ParseError;
use crate::parser::utils::{parse_keyed_line, spec_keyed_line, yields_view};
use crate::parser::{MetaDataField, MetaDataFieldView};
use vstd::prelude::*;
use vstd::string::StringSliceAdditionalSpecFns;

verus! {

/// The key that begins the line, with the colon and the space after it.
pub const CATEGORY_KEY: &'static str = "CATEGORY: ";

/// `CATEGORY: `, the name of a category, and the line terminator.
pub open spec fn spec_category_data(s: Seq<u8>) -> Result<(MetaDataFieldView, nat), ParseError> {
    match spec_keyed_line(s, CATEGORY_KEY.spec_bytes()) {
        Ok((text, n)) => Ok((MetaDataFieldView::Category(text), n)),
        Err(e) => Err(e),
    }
}

/// Reads a `CATEGORY: ` line.
pub fn parse_category_data<'a>(input: &'a str) -> (r: Result<
    (&'a str, MetaDataField<'a>),
    ParseError,
>)
    ensures
        yields_view(r, input, spec_category_data(input.spec_bytes())),
{
    let (rest, text) = parse_keyed_line(input, CATEGORY_KEY)?;
    Ok((rest, MetaDataField::Category(text)))
}

} // verus!

//! The `PRIMARY CATEGORY: ` line of the metadata section.

use crate::error::ParseError;
use crate::parser::utils::{parse_keyed_line, spec_keyed_line, yields_view};
use crate::parser::{MetaDataField, MetaDataFieldView};
use vstd::prelude::*;
use vstd::string::StringSliceAdditionalSpecFns;

verus! {

/// The key that begins the line, with the colon and the space after it.
pub const PRIMARY_CATEGORY_KEY: &'static str = "PRIMARY CATEGORY: ";

/// `PRIMARY CATEGORY: `, the name of the entry's main category, and the line terminator.
pub open spec fn spec_primary_category_data(s: Seq<u8>) -> Result<
    (MetaDataFieldView, nat),
    ParseError,
> {
    match spec_keyed_line(s, PRIMARY_CATEGORY_KEY.spec_bytes()) {
        Ok((text, n)) => Ok((MetaDataFieldView::PrimaryCategory(text), n)),
        Err(e) => Err(e),
    }
}

/// Reads a `PRIMARY CATEGORY: ` line.
pub fn parse_primary_category_data<'a>(input: &'a str) -> (r: Result<
    (&'a str, MetaDataField<'a>),
    ParseError,
>)
    ensures
        yields_view(r, input, spec_primary_category_data(input.spec_bytes())),
{
    let (rest, text) = parse_keyed_line(input, PRIMARY_CATEGORY_KEY)?;
    Ok((rest, MetaDataField::PrimaryCategory(text)))
}

} // verus!

//! The `IMAGE: ` line of the metadata section.

use crate::error::ParseError;
use crate::parser::utils::{parse_keyed_line, spec_keyed_line, yields_view};
use crate::parser::{MetaDataField, MetaDataFieldView};
use vstd::prelude::*;
use vstd::string::StringSliceAdditionalSpecFns;

verus! {

/// The key that begins the line, with the colon and the space after it.
pub const IMAGE_KEY: &'static str = "IMAGE: ";

/// `IMAGE: `, the address of the entry's image, and the line terminator.
pub open spec fn spec_image_data(s: Seq<u8>) -> Result<(MetaDataFieldView, nat), ParseError> {
    match spec_keyed_line(s, IMAGE_KEY.spec_bytes()) {
        Ok((text, n)) => Ok((MetaDataFieldView::Image(text), n)),
        Err(e) => Err(e),
    }
}

/// Reads a `IMAGE: ` line.
pub fn parse_image_data<'a>(input: &'a str) -> (r: Result<(&'a str, MetaDataField<'a>), ParseError>)
    ensures
        yields_view(r, input, spec_image_data(input.spec_bytes())),
{
    let (rest, text) = parse_keyed_line(input, IMAGE_KEY)?;
    Ok((rest, MetaDataField::Image(text)))
}

} // verus!

//! The `NO ENTRY: 1` line of the metadata section.

use crate::error::ParseError;
use crate::parser::utils::{parse_literal, spec_literal, yields_view};
use crate::parser::{MetaDataField, MetaDataFieldView};
use vstd::prelude::*;
use vstd::string::StringSliceAdditionalSpecFns;

verus! {

/// The whole line, terminator included.
pub const NO_ENTRY_LINE: &'static str = "NO ENTRY: 1\n";

/// The whole line `NO ENTRY: 1`, which carries no value: that it is there is
/// all it says.
pub open spec fn spec_no_entry_data(s: Seq<u8>) -> Result<(MetaDataFieldView, nat), ParseError> {
    match spec_literal(s, NO_ENTRY_LINE.spec_bytes()) {
        Ok(n) => Ok((MetaDataFieldView::NoEntry, n)),
        Err(e) => Err(e),
    }
}

/// Reads a `NO ENTRY: 1` line.
pub fn parse_no_entry_data<'a>(input: &'a str) -> (r: Result<
    (&'a str, MetaDataField<'a>),
    ParseError,
>)
    ensures
        yields_view(r, input, spec_no_entry_data(input.spec_bytes())),
{
    let rest = parse_literal(input, NO_ENTRY_LINE)?;
    Ok((rest, MetaDataField::NoEntry))
}

} // verus!

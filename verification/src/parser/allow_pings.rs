//! The `ALLOW PINGS: ` line of the metadata section.

use crate::error::ParseError;
use crate::parser::utils::{
    lemma_rest_of_rest, parse_literal, parse_num_bool_flag, shifted, spec_literal,
    spec_num_bool_flag, yields_view,
};
use crate::parser::{MetaDataField, MetaDataFieldView};
use vstd::prelude::*;
use vstd::string::StringSliceAdditionalSpecFns;

verus! {

/// The key that begins the line, with the colon and the space after it.
pub const ALLOW_PINGS_KEY: &'static str = "ALLOW PINGS: ";

/// `ALLOW PINGS: `, then `0` or `1`, and the line terminator.
pub open spec fn spec_allow_pings_data(s: Seq<u8>) -> Result<(MetaDataFieldView, nat), ParseError> {
    match spec_literal(s, ALLOW_PINGS_KEY.spec_bytes()) {
        Err(e) => Err(e),
        Ok(k) => match shifted(k, spec_num_bool_flag(s.skip(k as int))) {
            Ok((flag, n)) => Ok((MetaDataFieldView::AllowPings(flag), n)),
            Err(e) => Err(e),
        },
    }
}

/// Reads a `ALLOW PINGS: ` line.
pub fn parse_allow_pings_data<'a>(input: &'a str) -> (r: Result<
    (&'a str, MetaDataField<'a>),
    ParseError,
>)
    ensures
        yields_view(r, input, spec_allow_pings_data(input.spec_bytes())),
{
    let value = parse_literal(input, ALLOW_PINGS_KEY)?;
    let (rest, flag) = parse_num_bool_flag(value)?;
    proof {
        let k = ALLOW_PINGS_KEY.spec_bytes().len();
        let n = spec_num_bool_flag(value.spec_bytes())->Ok_0.1;
        lemma_rest_of_rest(input, value, rest, k, n);
    }
    Ok((rest, MetaDataField::AllowPings(flag)))
}

} // verus!

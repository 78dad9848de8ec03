//! The `DATE: ` line of the metadata section.

use crate::datetime::DateTime;
use crate::error::ParseError;
use crate::parser::utils::{
    lemma_rest_of_rest, parse_date_value, parse_literal, shifted, spec_date_value, spec_literal,
    then_expect, yields_value, yields_view, LINE_ENDING,
};
use crate::parser::{MetaDataField, MetaDataFieldView};
use vstd::prelude::*;
use vstd::string::StringSliceAdditionalSpecFns;

verus! {

/// The key that begins the line, with the colon and the space after it.
pub const DATE_KEY: &'static str = "DATE: ";

/// A date and time followed by the line terminator.
pub open spec fn spec_date_line(s: Seq<u8>) -> Result<(DateTime, nat), ParseError> {
    then_expect(s, spec_date_value(s), LINE_ENDING.spec_bytes())
}

/// `DATE: `, a date and time, and the line terminator.
pub open spec fn spec_date_data(s: Seq<u8>) -> Result<(MetaDataFieldView, nat), ParseError> {
    match spec_literal(s, DATE_KEY.spec_bytes()) {
        Err(e) => Err(e),
        Ok(k) => match shifted(k, spec_date_line(s.skip(k as int))) {
            Ok((date, n)) => Ok((MetaDataFieldView::Date(date), n)),
            Err(e) => Err(e),
        },
    }
}

/// Reads a date and time that fill the rest of the line.
pub fn parse_date_line<'a>(input: &'a str) -> (r: Result<(&'a str, DateTime), ParseError>)
    ensures
        yields_value(r, input, spec_date_line(input.spec_bytes())),
{
    let (after, date) = parse_date_value(input)?;
    let rest = parse_literal(after, LINE_ENDING)?;
    proof {
        let n = spec_date_value(input.spec_bytes())->Ok_0.1;
        lemma_rest_of_rest(input, after, rest, n, LINE_ENDING.spec_bytes().len());
    }
    Ok((rest, date))
}

/// Reads a `DATE: ` line.
pub fn parse_date_data<'a>(input: &'a str) -> (r: Result<(&'a str, MetaDataField<'a>), ParseError>)
    ensures
        yields_view(r, input, spec_date_data(input.spec_bytes())),
{
    let value = parse_literal(input, DATE_KEY)?;
    let (rest, date) = parse_date_line(value)?;
    proof {
        let k = DATE_KEY.spec_bytes().len();
        let n = spec_date_line(value.spec_bytes())->Ok_0.1;
        lemma_rest_of_rest(input, value, rest, k, n);
    }
    Ok((rest, MetaDataField::Date(date)))
}

} // verus!

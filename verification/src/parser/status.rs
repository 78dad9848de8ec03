//! The `STATUS: ` line of the metadata section.

use crate::error::ParseError;
use crate::model::Status;
use crate::parser::utils::{
    lemma_rest_of_rest, parse_literal, parse_literal_no_case, shifted, spec_literal,
    spec_literal_no_case, then_expect, yields_value, yields_view, LINE_ENDING,
};
use crate::parser::{MetaDataField, MetaDataFieldView};
use vstd::prelude::*;
use vstd::string::StringSliceAdditionalSpecFns;

verus! {

/// The key that begins the line, with the colon and the space after it.
pub const STATUS_KEY: &'static str = "STATUS: ";

/// The name of [`Status::Draft`].
pub const DRAFT: &'static str = "Draft";

/// The name of [`Status::Publish`].
pub const PUBLISH: &'static str = "Publish";

/// The name of [`Status::Future`].
pub const FUTURE: &'static str = "Future";

/// One of the three status names, in any mix of upper and lower case. The
/// names are tried in the order `Draft`, `Publish`, `Future`.
pub open spec fn spec_status_name(s: Seq<u8>) -> Result<(Status, nat), ParseError> {
    if spec_literal_no_case(s, DRAFT.spec_bytes()) is Ok {
        Ok((Status::Draft, DRAFT.spec_bytes().len()))
    } else if spec_literal_no_case(s, PUBLISH.spec_bytes()) is Ok {
        Ok((Status::Publish, PUBLISH.spec_bytes().len()))
    } else if spec_literal_no_case(s, FUTURE.spec_bytes()) is Ok {
        Ok((Status::Future, FUTURE.spec_bytes().len()))
    } else {
        Err(ParseError::GrammarMismatch)
    }
}

/// `STATUS: `, a status name, and the line terminator.
pub open spec fn spec_status_data(s: Seq<u8>) -> Result<(MetaDataFieldView, nat), ParseError> {
    match spec_literal(s, STATUS_KEY.spec_bytes()) {
        Err(e) => Err(e),
        Ok(k) => {
            let value = s.skip(k as int);
            match shifted(
                k,
                then_expect(value, spec_status_name(value), LINE_ENDING.spec_bytes()),
            ) {
                Ok((status, n)) => Ok((MetaDataFieldView::Status(status), n)),
                Err(e) => Err(e),
            }
        },
    }
}

/// Reads a status name.
pub fn parse_status_name<'a>(input: &'a str) -> (r: Result<(&'a str, Status), ParseError>)
    ensures
        yields_value(r, input, spec_status_name(input.spec_bytes())),
{
    match parse_literal_no_case(input, DRAFT) {
        Ok(rest) => Ok((rest, Status::Draft)),
        Err(_) => match parse_literal_no_case(input, PUBLISH) {
            Ok(rest) => Ok((rest, Status::Publish)),
            Err(_) => match parse_literal_no_case(input, FUTURE) {
                Ok(rest) => Ok((rest, Status::Future)),
                Err(_) => Err(ParseError::GrammarMismatch),
            },
        },
    }
}

/// Reads a `STATUS: ` line.
pub fn parse_status_data<'a>(input: &'a str) -> (r: Result<
    (&'a str, MetaDataField<'a>),
    ParseError,
>)
    ensures
        yields_view(r, input, spec_status_data(input.spec_bytes())),
{
    let value = parse_literal(input, STATUS_KEY)?;
    let (after, status) = parse_status_name(value)?;
    let rest = parse_literal(after, LINE_ENDING)?;
    proof {
        let k = STATUS_KEY.spec_bytes().len();
        let n = spec_status_name(value.spec_bytes())->Ok_0.1;
        let m = LINE_ENDING.spec_bytes().len();
        lemma_rest_of_rest(value, after, rest, n, m);
        lemma_rest_of_rest(input, value, rest, k, n + m);
    }
    Ok((rest, MetaDataField::Status(status)))
}

} // verus!

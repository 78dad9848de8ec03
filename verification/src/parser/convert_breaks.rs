//! The `CONVERT BREAKS: ` line of the metadata section.

use crate::error::ParseError;
use crate::model::ConvertBreaks;
use crate::parser::utils::{
    lemma_rest_of_rest, parse_literal, parse_literal_no_case, shifted, spec_literal,
    spec_literal_no_case, then_expect, yields_value, yields_view, LINE_ENDING,
};
use crate::parser::{MetaDataField, MetaDataFieldView};
use vstd::prelude::*;
use vstd::string::StringSliceAdditionalSpecFns;

verus! {

/// The key that begins the line, with the colon and the space after it.
pub const CONVERT_BREAKS_KEY: &'static str = "CONVERT BREAKS: ";

/// The name of [`ConvertBreaks::NoConversion`].
pub const OFF: &'static str = "0";

/// The name of [`ConvertBreaks::Convert`].
pub const ON: &'static str = "1";

/// The name of [`ConvertBreaks::MarkdownWithSmartypants`].
pub const MARKDOWN_WITH_SMARTYPANTS: &'static str = "markdown_with_smartypants";

/// The name of [`ConvertBreaks::Markdown`].
pub const MARKDOWN: &'static str = "markdown";

/// The name of [`ConvertBreaks::RichText`].
pub const RICHTEXT: &'static str = "richtext";

/// The name of [`ConvertBreaks::Textile2`].
pub const TEXTILE_2: &'static str = "textile_2";

/// One of the six names of a rendering, in any mix of upper and lower case.
/// The names are tried in the order `0`, `1`, `markdown_with_smartypants`,
/// `markdown`, `richtext`, `textile_2`, so that the longer of the two names
/// that begin alike is found before the shorter one can take its place.
pub open spec fn spec_convert_breaks_name(s: Seq<u8>) -> Result<(ConvertBreaks, nat), ParseError> {
    if spec_literal_no_case(s, OFF.spec_bytes()) is Ok {
        Ok((ConvertBreaks::NoConversion, OFF.spec_bytes().len()))
    } else if spec_literal_no_case(s, ON.spec_bytes()) is Ok {
        Ok((ConvertBreaks::Convert, ON.spec_bytes().len()))
    } else if spec_literal_no_case(s, MARKDOWN_WITH_SMARTYPANTS.spec_bytes()) is Ok {
        Ok((ConvertBreaks::MarkdownWithSmartypants, MARKDOWN_WITH_SMARTYPANTS.spec_bytes().len()))
    } else if spec_literal_no_case(s, MARKDOWN.spec_bytes()) is Ok {
        Ok((ConvertBreaks::Markdown, MARKDOWN.spec_bytes().len()))
    } else if spec_literal_no_case(s, RICHTEXT.spec_bytes()) is Ok {
        Ok((ConvertBreaks::RichText, RICHTEXT.spec_bytes().len()))
    } else if spec_literal_no_case(s, TEXTILE_2.spec_bytes()) is Ok {
        Ok((ConvertBreaks::Textile2, TEXTILE_2.spec_bytes().len()))
    } else {
        Err(ParseError::GrammarMismatch)
    }
}

/// `CONVERT BREAKS: `, the name of a rendering, and the line terminator.
pub open spec fn spec_convert_breaks_data(s: Seq<u8>) -> Result<
    (MetaDataFieldView, nat),
    ParseError,
> {
    match spec_literal(s, CONVERT_BREAKS_KEY.spec_bytes()) {
        Err(e) => Err(e),
        Ok(k) => {
            let value = s.skip(k as int);
            match shifted(
                k,
                then_expect(value, spec_convert_breaks_name(value), LINE_ENDING.spec_bytes()),
            ) {
                Ok((mode, n)) => Ok((MetaDataFieldView::ConvertBreaks(mode), n)),
                Err(e) => Err(e),
            }
        },
    }
}

/// Reads the name of a rendering.
pub fn parse_convert_breaks_name<'a>(input: &'a str) -> (r: Result<
    (&'a str, ConvertBreaks),
    ParseError,
>)
    ensures
        yields_value(r, input, spec_convert_breaks_name(input.spec_bytes())),
{
    if let Ok(rest) = parse_literal_no_case(input, OFF) {
        return Ok((rest, ConvertBreaks::NoConversion));
    }
    if let Ok(rest) = parse_literal_no_case(input, ON) {
        return Ok((rest, ConvertBreaks::Convert));
    }
    if let Ok(rest) = parse_literal_no_case(input, MARKDOWN_WITH_SMARTYPANTS) {
        return Ok((rest, ConvertBreaks::MarkdownWithSmartypants));
    }
    if let Ok(rest) = parse_literal_no_case(input, MARKDOWN) {
        return Ok((rest, ConvertBreaks::Markdown));
    }
    if let Ok(rest) = parse_literal_no_case(input, RICHTEXT) {
        return Ok((rest, ConvertBreaks::RichText));
    }
    if let Ok(rest) = parse_literal_no_case(input, TEXTILE_2) {
        return Ok((rest, ConvertBreaks::Textile2));
    }
    Err(ParseError::GrammarMismatch)
}

/// Reads a `CONVERT BREAKS: ` line.
pub fn parse_convert_breaks_data<'a>(input: &'a str) -> (r: Result<
    (&'a str, MetaDataField<'a>),
    ParseError,
>)
    ensures
        yields_view(r, input, spec_convert_breaks_data(input.spec_bytes())),
{
    let value = parse_literal(input, CONVERT_BREAKS_KEY)?;
    let (after, mode) = parse_convert_breaks_name(value)?;
    let rest = parse_literal(after, LINE_ENDING)?;
    proof {
        let k = CONVERT_BREAKS_KEY.spec_bytes().len();
        let n = spec_convert_breaks_name(value.spec_bytes())->Ok_0.1;
        let m = LINE_ENDING.spec_bytes().len();
        lemma_rest_of_rest(value, after, rest, n, m);
        lemma_rest_of_rest(input, value, rest, k, n + m);
    }
    Ok((rest, MetaDataField::ConvertBreaks(mode)))
}

} // verus!

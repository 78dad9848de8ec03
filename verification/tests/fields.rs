use mtif::datetime::DateTime;
use mtif::error::ParseError;
use mtif::model::{ConvertBreaks, Status};
use mtif::parser::allow_comments::parse_allow_comments_data;
use mtif::parser::allow_pings::parse_allow_pings_data;
use mtif::parser::author::parse_author_data;
use mtif::parser::basename::parse_basename_data;
use mtif::parser::category::parse_category_data;
use mtif::parser::convert_breaks::parse_convert_breaks_data;
use mtif::parser::date::parse_date_data;
use mtif::parser::image::parse_image_data;
use mtif::parser::no_entry::parse_no_entry_data;
use mtif::parser::primary_category::parse_primary_category_data;
use mtif::parser::status::parse_status_data;
use mtif::parser::title::parse_title_data;
use mtif::parser::{parse_metadata_field, MetaDataField};

fn at(year: i32, month: u8, day: u8, hour: u8, minute: u8, second: u8) -> DateTime {
    DateTime { year, month, day, hour, minute, second }
}

#[test]
fn test_parse_allow_comments_data() {
    assert_eq!(
        parse_allow_comments_data("ALLOW COMMENTS: 0\n"),
        Ok(("", MetaDataField::AllowComments(false)))
    );
    assert_eq!(
        parse_allow_comments_data("ALLOW COMMENTS: 1\n"),
        Ok(("", MetaDataField::AllowComments(true)))
    );
}

#[test]
fn test_parse_allow_pings_data() {
    assert_eq!(
        parse_allow_pings_data("ALLOW PINGS: 0\n"),
        Ok(("", MetaDataField::AllowPings(false)))
    );
    assert_eq!(
        parse_allow_pings_data("ALLOW PINGS: 1\n"),
        Ok(("", MetaDataField::AllowPings(true)))
    );
}

#[test]
fn author_test_parse_author_data() {
    assert_eq!(
        parse_author_data("AUTHOR: Foo Bar\n"),
        Ok(("", MetaDataField::Author("Foo Bar")))
    );
}

#[test]
fn test_parse_basename_data() {
    assert_eq!(
        parse_basename_data("BASENAME: filename\n"),
        Ok(("", MetaDataField::BaseName("filename")))
    );
}

#[test]
fn test_parse_category_data() {
    assert_eq!(
        parse_category_data("CATEGORY: Foo Bar\n"),
        Ok(("", MetaDataField::Category("Foo Bar")))
    );
}

#[test]
fn test_parse_convert_breaks_data() {
    assert_eq!(
        parse_convert_breaks_data("CONVERT BREAKS: 0\n"),
        Ok(("", MetaDataField::ConvertBreaks(ConvertBreaks::NoConversion)))
    );
    assert_eq!(
        parse_convert_breaks_data("CONVERT BREAKS: 1\n"),
        Ok(("", MetaDataField::ConvertBreaks(ConvertBreaks::Convert)))
    );
    assert_eq!(
        parse_convert_breaks_data("CONVERT BREAKS: markdown\n"),
        Ok(("", MetaDataField::ConvertBreaks(ConvertBreaks::Markdown)))
    );
    assert_eq!(
        parse_convert_breaks_data("CONVERT BREAKS: markdown_with_smartypants\n"),
        Ok((
            "",
            MetaDataField::ConvertBreaks(ConvertBreaks::MarkdownWithSmartypants)
        ))
    );
    assert_eq!(
        parse_convert_breaks_data("CONVERT BREAKS: richtext\n"),
        Ok(("", MetaDataField::ConvertBreaks(ConvertBreaks::RichText)))
    );
    assert_eq!(
        parse_convert_breaks_data("CONVERT BREAKS: textile_2\n"),
        Ok(("", MetaDataField::ConvertBreaks(ConvertBreaks::Textile2)))
    );
}

#[test]
fn test_parse_date_data() {
    assert_eq!(
        parse_date_data("DATE: 12/31/2012 12:34:56\n"),
        Ok(("", MetaDataField::Date(at(2012, 12, 31, 12, 34, 56))))
    );
    assert_eq!(
        parse_date_data("DATE: 12/31/2012 12:34:56 AM\n"),
        Ok(("", MetaDataField::Date(at(2012, 12, 31, 12, 34, 56))))
    );
    assert_eq!(
        parse_date_data("DATE: 12/31/2012 01:34:56 PM\n"),
        Ok(("", MetaDataField::Date(at(2012, 12, 31, 13, 34, 56))))
    );
    assert_eq!(
        parse_date_data("DATE: 12/31/2012 13:34:56\n"),
        Ok(("", MetaDataField::Date(at(2012, 12, 31, 13, 34, 56))))
    );
}

#[test]
fn image_test_parse_author_data() {
    assert_eq!(
        parse_image_data("IMAGE: Foo Bar\n"),
        Ok(("", MetaDataField::Image("Foo Bar")))
    );
}

#[test]
fn test_parse_no_entry_data() {
    assert_eq!(
        parse_no_entry_data("NO ENTRY: 1\n"),
        Ok(("", MetaDataField::NoEntry))
    );
}

#[test]
fn test_parse_primary_category_data() {
    assert_eq!(
        parse_primary_category_data("PRIMARY CATEGORY: Foo Bar\n"),
        Ok(("", MetaDataField::PrimaryCategory("Foo Bar")))
    );
}

#[test]
fn test_parse_status_data() {
    assert_eq!(
        parse_status_data("STATUS: dRaFT\n"),
        Ok(("", MetaDataField::Status(Status::Draft)))
    );
    assert_eq!(
        parse_status_data("STATUS: PuBLiSh\n"),
        Ok(("", MetaDataField::Status(Status::Publish)))
    );
    assert_eq!(
        parse_status_data("STATUS: FUTURE\n"),
        Ok(("", MetaDataField::Status(Status::Future)))
    );
}

#[test]
fn test_parse_title_data() {
    assert_eq!(
        parse_title_data("TITLE: A dummy title\n"),
        Ok(("", MetaDataField::Title("A dummy title")))
    );
}

#[test]
fn line_field_leaves_the_following_lines() {
    assert_eq!(
        parse_author_data("AUTHOR: Foo\nTITLE: Bar\n"),
        Ok(("TITLE: Bar\n", MetaDataField::Author("Foo")))
    );
}

#[test]
fn line_field_may_be_empty() {
    assert_eq!(parse_title_data("TITLE: \n"), Ok(("", MetaDataField::Title(""))));
}

#[test]
fn line_field_keeps_non_ascii_text() {
    assert_eq!(
        parse_title_data("TITLE: 日本語のタイトル\nrest"),
        Ok(("rest", MetaDataField::Title("日本語のタイトル")))
    );
}

#[test]
fn line_field_without_terminator_is_incomplete() {
    assert_eq!(parse_author_data("AUTHOR: Foo Bar"), Err(ParseError::IncompleteInput));
}

#[test]
fn truncated_key_is_incomplete() {
    assert_eq!(parse_author_data("AUTH"), Err(ParseError::IncompleteInput));
    assert_eq!(parse_author_data(""), Err(ParseError::IncompleteInput));
}

#[test]
fn other_key_is_a_mismatch() {
    assert_eq!(parse_author_data("TITLE: Foo\n"), Err(ParseError::GrammarMismatch));
    assert_eq!(parse_author_data("author: Foo\n"), Err(ParseError::GrammarMismatch));
}

#[test]
fn flag_other_than_zero_or_one_is_a_mismatch() {
    assert_eq!(parse_allow_pings_data("ALLOW PINGS: 2\n"), Err(ParseError::GrammarMismatch));
    assert_eq!(parse_allow_pings_data("ALLOW PINGS: 10\n"), Err(ParseError::GrammarMismatch));
    assert_eq!(parse_allow_pings_data("ALLOW PINGS: 1"), Err(ParseError::IncompleteInput));
}

#[test]
fn status_name_must_be_known_and_end_the_line() {
    assert_eq!(parse_status_data("STATUS: Review\n"), Err(ParseError::GrammarMismatch));
    assert_eq!(parse_status_data("STATUS: Drafted\n"), Err(ParseError::GrammarMismatch));
    assert_eq!(parse_status_data("STATUS: Draft"), Err(ParseError::IncompleteInput));
}

#[test]
fn convert_breaks_names_ignore_case() {
    assert_eq!(
        parse_convert_breaks_data("CONVERT BREAKS: MarkDown\n"),
        Ok(("", MetaDataField::ConvertBreaks(ConvertBreaks::Markdown)))
    );
    assert_eq!(
        parse_convert_breaks_data("CONVERT BREAKS: MARKDOWN_WITH_SMARTYPANTS\n"),
        Ok(("", MetaDataField::ConvertBreaks(ConvertBreaks::MarkdownWithSmartypants)))
    );
    assert_eq!(
        parse_convert_breaks_data("CONVERT BREAKS: RichText\n"),
        Ok(("", MetaDataField::ConvertBreaks(ConvertBreaks::RichText)))
    );
}

#[test]
fn convert_breaks_longer_name_wins_over_its_beginning() {
    assert_eq!(
        parse_convert_breaks_data("CONVERT BREAKS: markdown_with\n"),
        Err(ParseError::GrammarMismatch)
    );
    assert_eq!(
        parse_convert_breaks_data("CONVERT BREAKS: textile\n"),
        Err(ParseError::GrammarMismatch)
    );
}

#[test]
fn no_entry_needs_the_whole_line() {
    assert_eq!(parse_no_entry_data("NO ENTRY: 0\n"), Err(ParseError::GrammarMismatch));
    assert_eq!(parse_no_entry_data("NO ENTRY: 1"), Err(ParseError::IncompleteInput));
}

#[test]
fn date_line_needs_its_terminator() {
    assert_eq!(parse_date_data("DATE: 12/31/2012 12:34:56"), Err(ParseError::IncompleteInput));
    assert_eq!(
        parse_date_data("DATE: 12/31/2012 12:34:56 XM\n"),
        Err(ParseError::GrammarMismatch)
    );
}

#[test]
fn date_that_does_not_exist_is_a_value_error() {
    assert_eq!(parse_date_data("DATE: 02/30/2012 12:34:56\n"), Err(ParseError::ValueError));
    assert_eq!(parse_date_data("DATE: 13/01/2012 12:34:56\n"), Err(ParseError::ValueError));
    assert_eq!(parse_date_data("DATE: 12/31/2012 24:00:00\n"), Err(ParseError::ValueError));
}

#[test]
fn any_field_is_read_by_the_parser_of_its_key() {
    assert_eq!(
        parse_metadata_field("AUTHOR: Foo Bar\n"),
        Ok(("", MetaDataField::Author("Foo Bar")))
    );
    assert_eq!(
        parse_metadata_field("TITLE: A dummy title\n"),
        Ok(("", MetaDataField::Title("A dummy title")))
    );
    assert_eq!(
        parse_metadata_field("BASENAME: filename\n"),
        Ok(("", MetaDataField::BaseName("filename")))
    );
    assert_eq!(
        parse_metadata_field("STATUS: publish\n"),
        Ok(("", MetaDataField::Status(Status::Publish)))
    );
    assert_eq!(
        parse_metadata_field("ALLOW COMMENTS: 1\n"),
        Ok(("", MetaDataField::AllowComments(true)))
    );
    assert_eq!(
        parse_metadata_field("ALLOW PINGS: 0\n"),
        Ok(("", MetaDataField::AllowPings(false)))
    );
    assert_eq!(
        parse_metadata_field("CONVERT BREAKS: textile_2\n"),
        Ok(("", MetaDataField::ConvertBreaks(ConvertBreaks::Textile2)))
    );
    assert_eq!(
        parse_metadata_field("PRIMARY CATEGORY: Media\n"),
        Ok(("", MetaDataField::PrimaryCategory("Media")))
    );
    assert_eq!(
        parse_metadata_field("CATEGORY: News\n"),
        Ok(("", MetaDataField::Category("News")))
    );
    assert_eq!(
        parse_metadata_field("DATE: 01/31/2002 03:31:05 PM\n"),
        Ok(("", MetaDataField::Date(at(2002, 1, 31, 15, 31, 5))))
    );
    assert_eq!(
        parse_metadata_field("TAGS: foo,bar\n"),
        Ok(("", MetaDataField::Tags(vec!["foo", "bar"])))
    );
    assert_eq!(parse_metadata_field("NO ENTRY: 1\n"), Ok(("", MetaDataField::NoEntry)));
    assert_eq!(
        parse_metadata_field("IMAGE: http://example.com/a.png\n"),
        Ok(("", MetaDataField::Image("http://example.com/a.png")))
    );
}

#[test]
fn any_field_fails_on_what_is_no_field() {
    assert_eq!(parse_metadata_field("-----\n"), Err(ParseError::GrammarMismatch));
    assert_eq!(parse_metadata_field("AUTHOR: Foo"), Err(ParseError::GrammarMismatch));
    assert_eq!(
        parse_metadata_field("DATE: 02/30/2012 12:34:56\n"),
        Err(ParseError::ValueError)
    );
}

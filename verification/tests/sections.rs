use mtif::datetime::DateTime;
use mtif::error::ParseError;
use mtif::parser::body::parse_body_data;
use mtif::parser::comment::{parse_comment_data, parse_comment_field, parse_comment_fields, CommentField};
use mtif::parser::excerpt::parse_excerpt_data;
use mtif::parser::extended_body::parse_extended_body_data;
use mtif::parser::keywords::parse_keywords_data;
use mtif::parser::ping::{parse_ping_data, parse_ping_fields, PingField};
use mtif::parser::{
    parse_metadata_section, parse_multiline_data_section, parse_multiline_field, MetaDataField,
    MultiLineField,
};

fn at(year: i32, month: u8, day: u8, hour: u8, minute: u8, second: u8) -> DateTime {
    DateTime { year, month, day, hour, minute, second }
}

#[test]
fn test_parse_metadata_section() {
    assert_eq!(
        parse_metadata_section("AUTHOR: Foo Bar\nTITLE: Baz Qux\n-----\n"),
        Ok((
            "",
            vec![
                MetaDataField::Author("Foo Bar"),
                MetaDataField::Title("Baz Qux")
            ]
        ))
    );
}

#[test]
fn test_parse_body_data() {
    assert_eq!(
        parse_body_data("BODY:\nFoo Bar\nBaz Qux\n\n-----\n"),
        Ok(("", MultiLineField::Body("Foo Bar\nBaz Qux\n\n")))
    );
}

#[test]
fn test_parse_excerpt_data() {
    assert_eq!(
        parse_excerpt_data("EXCERPT:\nFoo Bar\nBaz Qux\n\n-----\n"),
        Ok(("", MultiLineField::Excerpt("Foo Bar\nBaz Qux\n\n")))
    );
}

#[test]
fn test_parse_extended_body_data() {
    assert_eq!(
        parse_extended_body_data("EXTENDED BODY:\nFoo Bar\nBaz Qux\n\n-----\n"),
        Ok((
            "",
            MultiLineField::ExtendedBody("Foo Bar\nBaz Qux\n\n")
        ))
    );
}

#[test]
fn test_parse_keywords_data() {
    assert_eq!(
        parse_keywords_data("KEYWORDS:\nFoo Bar\nBaz Qux\n\n-----\n"),
        Ok((
            "",
            MultiLineField::Keywords("Foo Bar\nBaz Qux\n\n")
        ))
    );
}

#[test]
fn test_parse_comment_without_field_data() {
    let target_text = "COMMENT:\nAUTHOR: author\nEMAIL: sample@example.com\nURL: https://example.com/\nIP: 192.0.2.0\nDATE: 12/31/2023 01:34:56 PM\nFoo Bar\nBaz Qux\n\n-----\n";
    let (rest, result) = parse_comment_data(target_text).unwrap();
    if rest != "" {
        panic!("rest is not empty: {}", rest);
    }
    if let MultiLineField::Comment {
        author,
        email,
        url,
        ip,
        date,
        text,
    } = result
    {
        assert_eq!(author, Some("author"));
        assert_eq!(email, Some("sample@example.com"));
        assert_eq!(url, Some("https://example.com/"));
        assert_eq!(ip, Some("192.0.2.0"));
        assert_eq!(date, Some(at(2023, 12, 31, 13, 34, 56)));
        assert_eq!(text, "Foo Bar\nBaz Qux\n");
    } else {
        panic!("no comment was read");
    }
}

#[test]
fn test_parse_ping_without_field_data() {
    let target_text = "PING:\nTITLE: sample title\nURL: https://example.com/\nIP: 192.0.2.0\nBLOG NAME: sample blog name\nDATE: 12/31/2023 01:34:56 PM\nFoo Bar\nBaz Qux\n\n-----\n";
    let (rest, result) = parse_ping_data(target_text).unwrap();
    if rest != "" {
        panic!("rest is not empty: {}", rest);
    }
    if let MultiLineField::Ping {
        title,
        url,
        ip,
        blog_name,
        date,
        text,
    } = result
    {
        assert_eq!(title, Some("sample title"));
        assert_eq!(url, Some("https://example.com/"));
        assert_eq!(ip, Some("192.0.2.0"));
        assert_eq!(blog_name, Some("sample blog name"));
        assert_eq!(date, Some(at(2023, 12, 31, 13, 34, 56)));
        assert_eq!(text, "Foo Bar\nBaz Qux\n");
    } else {
        panic!("no ping was read");
    }
}

#[test]
fn metadata_section_may_be_empty() {
    assert_eq!(parse_metadata_section("-----\nBODY:\n"), Ok(("BODY:\n", vec![])));
}

#[test]
fn metadata_section_keeps_repeated_keys_in_order() {
    assert_eq!(
        parse_metadata_section("CATEGORY: a\nAUTHOR: x\nCATEGORY: b\nAUTHOR: y\n-----\n"),
        Ok((
            "",
            vec![
                MetaDataField::Category("a"),
                MetaDataField::Author("x"),
                MetaDataField::Category("b"),
                MetaDataField::Author("y"),
            ]
        ))
    );
}

#[test]
fn metadata_section_reads_every_kind_of_line() {
    let (rest, fields) = parse_metadata_section(
        "TITLE: t\nIMAGE: i\nNO ENTRY: 1\nTAGS: a,\"b c\"\nALLOW PINGS: 1\nSTATUS: Future\n-----\n",
    )
    .unwrap();
    assert_eq!(rest, "");
    assert_eq!(fields.len(), 6);
    assert_eq!(fields[1], MetaDataField::Image("i"));
    assert_eq!(fields[2], MetaDataField::NoEntry);
    assert_eq!(fields[3], MetaDataField::Tags(vec!["a", "b c"]));
}

#[test]
fn metadata_section_needs_its_separator() {
    assert_eq!(parse_metadata_section("AUTHOR: Foo\n"), Err(ParseError::IncompleteInput));
    assert_eq!(parse_metadata_section("AUTHOR: Foo\n---"), Err(ParseError::IncompleteInput));
    assert_eq!(parse_metadata_section("AUTHOR: Foo\n----\n"), Err(ParseError::GrammarMismatch));
    assert_eq!(parse_metadata_section(""), Err(ParseError::IncompleteInput));
}

#[test]
fn metadata_section_stops_at_a_line_it_cannot_read() {
    assert_eq!(
        parse_metadata_section("AUTHOR: Foo\nUNKNOWN: x\n-----\n"),
        Err(ParseError::GrammarMismatch)
    );
    assert_eq!(
        parse_metadata_section("AUTHOR: Foo\nSTATUS: bogus\n-----\n"),
        Err(ParseError::GrammarMismatch)
    );
    assert_eq!(
        parse_metadata_section("AUTHOR: Foo\nTITLE: no end"),
        Err(ParseError::GrammarMismatch)
    );
}

#[test]
fn metadata_section_reports_a_date_that_does_not_exist() {
    assert_eq!(
        parse_metadata_section("AUTHOR: Foo\nDATE: 02/30/2002 03:31:05 PM\n-----\n"),
        Err(ParseError::ValueError)
    );
}

#[test]
fn plain_section_needs_header_and_separator() {
    assert_eq!(parse_body_data("BODY:\ntext\n"), Err(ParseError::IncompleteInput));
    assert_eq!(parse_body_data("BODY:\n-----\n"), Err(ParseError::IncompleteInput));
    assert_eq!(parse_body_data("BODY: text\n-----\n"), Err(ParseError::GrammarMismatch));
    assert_eq!(parse_body_data("EXCERPT:\ntext\n-----\n"), Err(ParseError::GrammarMismatch));
    assert_eq!(parse_body_data("BOD"), Err(ParseError::IncompleteInput));
}

#[test]
fn plain_section_with_an_empty_line_only() {
    assert_eq!(parse_body_data("BODY:\n\n-----\n"), Ok(("", MultiLineField::Body("\n"))));
    assert_eq!(parse_keywords_data("KEYWORDS:\n\n-----\nx"), Ok(("x", MultiLineField::Keywords("\n"))));
}

#[test]
fn comment_without_optional_lines() {
    assert_eq!(
        parse_comment_data("COMMENT:\nJust text.\n-----\n"),
        Ok((
            "",
            MultiLineField::Comment {
                author: None,
                email: None,
                url: None,
                ip: None,
                date: None,
                text: "Just text.",
            }
        ))
    );
}

#[test]
fn comment_takes_the_first_of_repeated_lines() {
    assert_eq!(
        parse_comment_data("COMMENT:\nAUTHOR: a\nIP: 1\nAUTHOR: b\nIP: 2\ntext\n-----\n"),
        Ok((
            "",
            MultiLineField::Comment {
                author: Some("a"),
                email: None,
                url: None,
                ip: Some("1"),
                date: None,
                text: "text",
            }
        ))
    );
}

#[test]
fn comment_lines_may_come_in_any_order() {
    assert_eq!(
        parse_comment_fields("DATE: 01/31/2002 03:47:06 PM\nIP: 1.2.3.4\nURL: u\nEMAIL: e\nAUTHOR: a\ntext"),
        Ok((
            "text",
            vec![
                CommentField::Date(at(2002, 1, 31, 15, 47, 6)),
                CommentField::Ip("1.2.3.4"),
                CommentField::Url("u"),
                CommentField::Email("e"),
                CommentField::Author("a"),
            ]
        ))
    );
}

#[test]
fn comment_text_begins_where_no_optional_line_is_read() {
    assert_eq!(
        parse_comment_data("COMMENT:\nAUTHOR: a\nDATE: tomorrow\nAUTHOR: b\n-----\n"),
        Ok((
            "",
            MultiLineField::Comment {
                author: Some("a"),
                email: None,
                url: None,
                ip: None,
                date: None,
                text: "DATE: tomorrow\nAUTHOR: b",
            }
        ))
    );
    assert_eq!(
        parse_comment_data("COMMENT:\nTITLE: not a comment key\n-----\n"),
        Ok((
            "",
            MultiLineField::Comment {
                author: None,
                email: None,
                url: None,
                ip: None,
                date: None,
                text: "TITLE: not a comment key",
            }
        ))
    );
}

#[test]
fn comment_with_a_date_that_does_not_exist_is_a_value_error() {
    assert_eq!(
        parse_comment_data("COMMENT:\nDATE: 13/31/2002 03:47:06 PM\ntext\n-----\n"),
        Err(ParseError::ValueError)
    );
    assert_eq!(
        parse_comment_field("DATE: 06/31/2002 03:47:06\n"),
        Err(ParseError::ValueError)
    );
}

#[test]
fn comment_needs_its_text_and_separator() {
    assert_eq!(parse_comment_data("COMMENT:\nAUTHOR: a\n"), Err(ParseError::IncompleteInput));
    assert_eq!(parse_comment_data("COMMENT:\nAUTHOR: a\n-----\n"), Err(ParseError::IncompleteInput));
    assert_eq!(parse_comment_data("PING:\ntext\n-----\n"), Err(ParseError::GrammarMismatch));
}

#[test]
fn comment_with_empty_text() {
    assert_eq!(
        parse_comment_data("COMMENT:\nAUTHOR: a\n\n-----\n"),
        Ok((
            "",
            MultiLineField::Comment {
                author: Some("a"),
                email: None,
                url: None,
                ip: None,
                date: None,
                text: "",
            }
        ))
    );
}

#[test]
fn ping_takes_the_first_of_repeated_lines() {
    assert_eq!(
        parse_ping_data("PING:\nBLOG NAME: one\nTITLE: t\nBLOG NAME: two\nexcerpt\n-----\n"),
        Ok((
            "",
            MultiLineField::Ping {
                title: Some("t"),
                url: None,
                ip: None,
                date: None,
                blog_name: Some("one"),
                text: "excerpt",
            }
        ))
    );
}

#[test]
fn ping_lines_do_not_include_the_lines_of_a_comment() {
    assert_eq!(
        parse_ping_fields("URL: u\nEMAIL: e\n"),
        Ok(("EMAIL: e\n", vec![PingField::Url("u")]))
    );
}

#[test]
fn any_section_is_read_by_the_parser_of_its_header() {
    assert_eq!(
        parse_multiline_field("BODY:\nb\n-----\n"),
        Ok(("", MultiLineField::Body("b\n")))
    );
    assert_eq!(
        parse_multiline_field("EXTENDED BODY:\ne\n-----\n"),
        Ok(("", MultiLineField::ExtendedBody("e\n")))
    );
    assert_eq!(
        parse_multiline_field("EXCERPT:\nx\n-----\n"),
        Ok(("", MultiLineField::Excerpt("x\n")))
    );
    assert_eq!(
        parse_multiline_field("KEYWORDS:\nk\n-----\n"),
        Ok(("", MultiLineField::Keywords("k\n")))
    );
    assert_eq!(parse_multiline_field("--------"), Err(ParseError::GrammarMismatch));
    assert_eq!(parse_multiline_field("BODY:\nb"), Err(ParseError::GrammarMismatch));
    assert_eq!(
        parse_multiline_field("PING:\nDATE: 02/30/2002 03:47:06 PM\nt\n-----\n"),
        Err(ParseError::ValueError)
    );
}

#[test]
fn multiline_part_reads_sections_until_something_else() {
    let (rest, sections) =
        parse_multiline_data_section("BODY:\nb\n-----\nCOMMENT:\nc\n-----\nBODY:\nb2\n-----\n--------")
            .unwrap();
    assert_eq!(rest, "--------");
    assert_eq!(sections.len(), 3);
    assert_eq!(sections[0], MultiLineField::Body("b\n"));
    assert_eq!(sections[2], MultiLineField::Body("b2\n"));
    assert_eq!(parse_multiline_data_section("--------"), Ok(("--------", vec![])));
    assert_eq!(parse_multiline_data_section(""), Ok(("", vec![])));
}

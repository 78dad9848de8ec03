use mtif::error::ParseError;
use mtif::parser::tags::{
    parse_non_quoted_tag_entry, parse_quoted_tag_entry, parse_tag_entry, parse_tag_list,
    parse_tags_data,
};
use mtif::parser::MetaDataField;

#[test]
fn test_parse_quoted_tag_entry() {
    assert_eq!(parse_quoted_tag_entry(r#""foo bar""#), Ok(("", "foo bar")));
}

#[test]
fn test_parse_tags_data() {
    assert_eq!(
        parse_tags_data("TAGS: \"Movable Type\",foo,bar\n"),
        Ok((
            "",
            MetaDataField::Tags(vec!["Movable Type", "foo", "bar"])
        ))
    );
}

#[test]
fn quoted_tag_may_be_empty_and_may_hold_commas() {
    assert_eq!(parse_quoted_tag_entry("\"\",x"), Ok((",x", "")));
    assert_eq!(parse_quoted_tag_entry("\"a,b c\"\n"), Ok(("\n", "a,b c")));
}

#[test]
fn quoted_tag_without_closing_quote_fails() {
    assert_eq!(parse_quoted_tag_entry("\"foo bar"), Err(ParseError::IncompleteInput));
    assert_eq!(parse_quoted_tag_entry("\""), Err(ParseError::IncompleteInput));
    assert_eq!(parse_quoted_tag_entry("\"foo\nbar\""), Err(ParseError::GrammarMismatch));
    assert_eq!(parse_quoted_tag_entry("foo"), Err(ParseError::GrammarMismatch));
    assert_eq!(parse_quoted_tag_entry(""), Err(ParseError::IncompleteInput));
}

#[test]
fn bare_tag_ends_at_comma_space_or_line_end() {
    assert_eq!(parse_non_quoted_tag_entry("foo,bar"), Ok((",bar", "foo")));
    assert_eq!(parse_non_quoted_tag_entry("foo bar"), Ok((" bar", "foo")));
    assert_eq!(parse_non_quoted_tag_entry("foo\tbar"), Ok(("\tbar", "foo")));
    assert_eq!(parse_non_quoted_tag_entry("foo\nbar"), Ok(("\nbar", "foo")));
    assert_eq!(parse_non_quoted_tag_entry("foo"), Ok(("", "foo")));
}

#[test]
fn bare_tag_ends_at_white_space_beyond_ascii() {
    assert_eq!(parse_non_quoted_tag_entry("foo\u{3000}bar"), Ok(("\u{3000}bar", "foo")));
    assert_eq!(parse_non_quoted_tag_entry("foo\u{a0}bar"), Ok(("\u{a0}bar", "foo")));
    assert_eq!(parse_non_quoted_tag_entry("foo\u{85}bar"), Ok(("\u{85}bar", "foo")));
    assert_eq!(parse_non_quoted_tag_entry("foo\u{1680}bar"), Ok(("\u{1680}bar", "foo")));
    assert_eq!(parse_non_quoted_tag_entry("foo\u{2000}bar"), Ok(("\u{2000}bar", "foo")));
    assert_eq!(parse_non_quoted_tag_entry("foo\u{200a}bar"), Ok(("\u{200a}bar", "foo")));
    assert_eq!(parse_non_quoted_tag_entry("foo\u{2028}bar"), Ok(("\u{2028}bar", "foo")));
    assert_eq!(parse_non_quoted_tag_entry("foo\u{2029}bar"), Ok(("\u{2029}bar", "foo")));
    assert_eq!(parse_non_quoted_tag_entry("foo\u{202f}bar"), Ok(("\u{202f}bar", "foo")));
    assert_eq!(parse_non_quoted_tag_entry("foo\u{205f}bar"), Ok(("\u{205f}bar", "foo")));
}

#[test]
fn bare_tag_keeps_characters_that_are_no_white_space() {
    assert_eq!(parse_non_quoted_tag_entry("タグ,next"), Ok((",next", "タグ")));
    assert_eq!(parse_non_quoted_tag_entry("a\u{200b}b,c"), Ok((",c", "a\u{200b}b")));
    assert_eq!(parse_non_quoted_tag_entry("a\u{2010}b c"), Ok((" c", "a\u{2010}b")));
    assert_eq!(parse_non_quoted_tag_entry("caf\u{e9}\n"), Ok(("\n", "caf\u{e9}")));
}

#[test]
fn bare_tag_has_at_least_one_character() {
    assert_eq!(parse_non_quoted_tag_entry(",foo"), Err(ParseError::GrammarMismatch));
    assert_eq!(parse_non_quoted_tag_entry("\n"), Err(ParseError::GrammarMismatch));
    assert_eq!(parse_non_quoted_tag_entry(" foo"), Err(ParseError::GrammarMismatch));
    assert_eq!(parse_non_quoted_tag_entry(""), Err(ParseError::IncompleteInput));
}

#[test]
fn tag_with_unclosed_quote_is_read_as_bare() {
    assert_eq!(parse_tag_entry("\"foo,bar"), Ok((",bar", "\"foo")));
    assert_eq!(parse_tag_entry("\"foo\""), Ok(("", "foo")));
    assert_eq!(parse_tag_entry(","), Err(ParseError::GrammarMismatch));
}

#[test]
fn tag_list_may_be_empty() {
    assert_eq!(parse_tag_list("\n"), ("\n", Vec::<&str>::new()));
    assert_eq!(parse_tag_list(""), ("", Vec::<&str>::new()));
}

#[test]
fn tag_list_keeps_order_and_duplicates() {
    assert_eq!(parse_tag_list("b,a,b\n"), ("\n", vec!["b", "a", "b"]));
    assert_eq!(parse_tag_list("\"x y\",\"\",z"), ("", vec!["x y", "", "z"]));
}

#[test]
fn tag_list_leaves_a_comma_that_no_tag_follows() {
    assert_eq!(parse_tag_list("a,\n"), (",\n", vec!["a"]));
    assert_eq!(parse_tag_list("a,,b\n"), (",,b\n", vec!["a"]));
    assert_eq!(parse_tag_list("a, b\n"), (", b\n", vec!["a"]));
}

#[test]
fn tags_line_without_tags_is_an_empty_list() {
    assert_eq!(parse_tags_data("TAGS: \n"), Ok(("", MetaDataField::Tags(vec![]))));
}

#[test]
fn tags_line_with_trailing_comma_or_space_is_a_mismatch() {
    assert_eq!(parse_tags_data("TAGS: foo,\n"), Err(ParseError::GrammarMismatch));
    assert_eq!(parse_tags_data("TAGS: foo bar\n"), Err(ParseError::GrammarMismatch));
    assert_eq!(parse_tags_data("TAGS: foo, bar\n"), Err(ParseError::GrammarMismatch));
    assert_eq!(parse_tags_data("TAGS: \"foo\"bar\n"), Err(ParseError::GrammarMismatch));
    assert_eq!(parse_tags_data("TAGS: foo\u{3000}bar\n"), Err(ParseError::GrammarMismatch));
}

#[test]
fn tags_line_without_terminator_is_incomplete() {
    assert_eq!(parse_tags_data("TAGS: foo,bar"), Err(ParseError::IncompleteInput));
    assert_eq!(parse_tags_data("TAGS: "), Err(ParseError::IncompleteInput));
}

#[test]
fn bare_tag_ends_exactly_at_the_white_space_of_the_standard_library() {
    let mut text = String::new();
    for code in 0..=0x10ffffu32 {
        let c = match char::from_u32(code) {
            Some(c) => c,
            None => continue,
        };
        text.clear();
        text.push('a');
        text.push(c);
        text.push('b');
        let ends = c.is_whitespace() || c == ',' || c == '\n';
        let (rest, tag) = parse_non_quoted_tag_entry(&text).unwrap();
        if ends {
            assert_eq!(tag, "a", "U+{:04X}", code);
            assert_eq!(rest, &text[1..], "U+{:04X}", code);
        } else {
            assert_eq!(tag, text.as_str(), "U+{:04X}", code);
            assert_eq!(rest, "", "U+{:04X}", code);
        }
    }
}

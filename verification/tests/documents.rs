use mtif::datetime::DateTime;
use mtif::error::ParseError;
use mtif::model::{Comment, ConvertBreaks, MetaData, Ping, Status};
use mtif::parser::{
    parse_metadata_field, parse_mtif, parse_mtif_entry, MetaDataField, MultiLineField,
};
use mtif::{MTIFEntry, MTIFParser};

const EXAMPLE: &str = "AUTHOR: Foo Bar
TITLE: A dummy title
BASENAME: a-dummy-title
DATE: 01/31/2002 03:31:05 PM
PRIMARY CATEGORY: Media
CATEGORY: News
-----
BODY:
This is the body.

Another paragraph here.

Another paragraph here.
-----
EXTENDED BODY:
Here is some more text.

Another paragraph here.

Another paragraph here.
-----
COMMENT:
AUTHOR: Foo
DATE: 01/31/2002 03:47:06 PM
This is
the body of this comment.
-----
COMMENT:
AUTHOR: Bar
DATE: 02/01/2002 04:02:07 AM
IP: 205.66.1.32
EMAIL: me@bar.com
This is the body of
another comment. It goes
up to here.
-----
PING:
TITLE: My Entry
URL: http://www.foo.com/old/2002/08/
IP: 206.22.1.53
BLOG NAME: My Weblog
DATE: 08/05/2002 04:09:12 PM
This is the start of my
entry, and here it...
-----
--------
AUTHOR: Baz Quux
TITLE: Here is a new entry
BASENAME: here-is-a-new-entry
DATE: 01/31/2002 03:31:05 AM
CATEGORY: Politics
-----
BODY:
This is the body of the second entry. It can
consist of multiple lines.
-----
EXCERPT:
See, this entry does not have an extended piece; but
it does have an excerpt. It is special.
-----
COMMENT:
AUTHOR: Quux
URL: http://www.quux.com/
DATE: 01/31/2002 04:23:01 PM
Here is the first comment on this entry.
-----
--------";

fn at(year: i32, month: u8, day: u8, hour: u8, minute: u8, second: u8) -> DateTime {
    DateTime { year, month, day, hour, minute, second }
}

fn raw<'a>(
    metadata: Vec<MetaDataField<'a>>,
    multiline_data: Vec<MultiLineField<'a>>,
) -> mtif::parser::MTIFEntry<'a> {
    mtif::parser::MTIFEntry { metadata, multiline_data }
}

fn is_comment(section: &MultiLineField) -> bool {
    matches!(section, MultiLineField::Comment { .. })
}

fn is_ping(section: &MultiLineField) -> bool {
    matches!(section, MultiLineField::Ping { .. })
}

#[test]
fn parser_test_parse_mtif() {
    let (rest, entries) = parse_mtif(EXAMPLE).unwrap();
    assert_eq!(rest, "");
    assert_eq!(entries.len(), 2);
    assert_eq!(entries[0].metadata.len(), 6);
    assert_eq!(entries[0].multiline_data.len(), 5);
    assert_eq!(entries[1].metadata.len(), 5);
    assert_eq!(entries[1].multiline_data.len(), 3);
}

#[test]
fn example_document_has_the_expected_comments_and_pings() {
    let (_, entries) = parse_mtif(EXAMPLE).unwrap();
    assert_eq!(entries[0].multiline_data.iter().filter(|s| is_comment(s)).count(), 2);
    assert_eq!(entries[0].multiline_data.iter().filter(|s| is_ping(s)).count(), 1);
    assert_eq!(entries[1].multiline_data.iter().filter(|s| is_comment(s)).count(), 1);
    assert_eq!(entries[1].multiline_data.iter().filter(|s| is_ping(s)).count(), 0);
}

#[test]
fn lib_test_parse_mtif() {
    let parser = MTIFParser::new();
    let entries = parser.parse(EXAMPLE).unwrap();
    assert_eq!(
        entries,
        vec![
            MTIFEntry {
                metadata: MetaData {
                    author: Some("Foo Bar"),
                    title: Some("A dummy title"),
                    basename: Some("a-dummy-title"),
                    status: None,
                    allow_comments: None,
                    allow_pings: None,
                    convert_breaks: None,
                    primary_category: Some("Media"),
                    category: vec!["News"],
                    date: at(2002, 1, 31, 15, 31, 5),
                    no_entry: false,
                    tags: vec![],
                    image: None,
                },
                body: Some(
                    "This is the body.\n\nAnother paragraph here.\n\nAnother paragraph here.\n"
                ),
                extended_body: Some(
                    "Here is some more text.\n\nAnother paragraph here.\n\nAnother paragraph here.\n"
                ),
                excerpt: None,
                keywords: None,
                comments: vec![
                    Comment {
                        author: Some("Foo"),
                        email: None,
                        url: None,
                        ip: None,
                        date: Some(at(2002, 1, 31, 15, 47, 6)),
                        text: "This is\nthe body of this comment.",
                    },
                    Comment {
                        author: Some("Bar"),
                        email: Some("me@bar.com"),
                        url: None,
                        ip: Some("205.66.1.32"),
                        date: Some(at(2002, 2, 1, 4, 2, 7)),
                        text: "This is the body of\nanother comment. It goes\nup to here.",
                    },
                ],
                pings: vec![Ping {
                    title: Some("My Entry"),
                    url: Some("http://www.foo.com/old/2002/08/"),
                    ip: Some("206.22.1.53"),
                    date: Some(at(2002, 8, 5, 16, 9, 12)),
                    blog_name: Some("My Weblog"),
                    text: "This is the start of my\nentry, and here it...",
                }],
            },
            MTIFEntry {
                metadata: MetaData {
                    author: Some("Baz Quux"),
                    title: Some("Here is a new entry"),
                    basename: Some("here-is-a-new-entry"),
                    status: None,
                    allow_comments: None,
                    allow_pings: None,
                    convert_breaks: None,
                    primary_category: None,
                    category: vec!["Politics"],
                    date: at(2002, 1, 31, 3, 31, 5),
                    no_entry: false,
                    tags: vec![],
                    image: None,
                },
                body: Some(
                    "This is the body of the second entry. It can\nconsist of multiple lines.\n"
                ),
                extended_body: None,
                excerpt: Some(
                    "See, this entry does not have an extended piece; but\nit does have an excerpt. It is special.\n"
                ),
                keywords: None,
                comments: vec![Comment {
                    author: Some("Quux"),
                    email: None,
                    url: Some("http://www.quux.com/"),
                    ip: None,
                    date: Some(at(2002, 1, 31, 16, 23, 1)),
                    text: "Here is the first comment on this entry.",
                }],
                pings: vec![],
            },
        ]
    );
}

#[test]
fn empty_document_has_no_entries() {
    assert_eq!(parse_mtif(""), Ok(("", vec![])));
    assert_eq!(MTIFParser::new().parse(""), Ok(vec![]));
}

#[test]
fn entry_is_metadata_sections_and_end_marker() {
    assert_eq!(
        parse_mtif_entry("AUTHOR: a\n-----\nBODY:\nb\n-----\n--------\nnext"),
        Ok((
            "\nnext",
            raw(vec![MetaDataField::Author("a")], vec![MultiLineField::Body("b\n")])
        ))
    );
    assert_eq!(parse_mtif_entry("-----\n--------"), Ok(("", raw(vec![], vec![]))));
}

#[test]
fn entry_without_end_marker_fails() {
    assert_eq!(parse_mtif_entry("AUTHOR: a\n-----\n"), Err(ParseError::IncompleteInput));
    assert_eq!(parse_mtif_entry("AUTHOR: a\n-----\n------"), Err(ParseError::IncompleteInput));
    assert_eq!(parse_mtif_entry("AUTHOR: a\n-----\nBODY:\nb\n"), Err(ParseError::GrammarMismatch));
    assert_eq!(parse_mtif_entry("AUTHOR: a\n-----\n---x----"), Err(ParseError::GrammarMismatch));
}

#[test]
fn document_with_metadata_only() {
    let entries = MTIFParser::new()
        .parse("TITLE: t\nDATE: 01/31/2002 03:31:05 PM\n-----\n--------")
        .unwrap();
    assert_eq!(entries.len(), 1);
    assert_eq!(entries[0].metadata.title, Some("t"));
    assert_eq!(entries[0].metadata.date, at(2002, 1, 31, 15, 31, 5));
    assert_eq!(entries[0].body, None);
    assert_eq!(entries[0].extended_body, None);
    assert_eq!(entries[0].excerpt, None);
    assert_eq!(entries[0].keywords, None);
    assert!(entries[0].comments.is_empty());
    assert!(entries[0].pings.is_empty());
}

#[test]
fn document_entries_are_separated_by_one_line_terminator() {
    let one = "DATE: 01/31/2002 03:31:05 PM\n-----\n--------";
    let two = format!("{}\n{}", one, one);
    assert_eq!(MTIFParser::new().parse(&two).unwrap().len(), 2);
    let three = format!("{}\n{}\n{}", one, one, one);
    assert_eq!(MTIFParser::new().parse(&three).unwrap().len(), 3);
    let blank_between = format!("{}\n\n{}", one, one);
    assert_eq!(MTIFParser::new().parse(&blank_between), Err(ParseError::GrammarMismatch));
    let none_between = format!("{}{}", one, one);
    assert_eq!(MTIFParser::new().parse(&none_between), Err(ParseError::GrammarMismatch));
}

#[test]
fn document_must_end_with_its_last_entry() {
    let one = "DATE: 01/31/2002 03:31:05 PM\n-----\n--------";
    let trailing_newline = format!("{}\n", one);
    assert_eq!(MTIFParser::new().parse(&trailing_newline), Err(ParseError::IncompleteInput));
    let trailing_text = format!("{} ", one);
    assert_eq!(MTIFParser::new().parse(&trailing_text), Err(ParseError::GrammarMismatch));
}

#[test]
fn document_fails_as_a_whole() {
    let good = "DATE: 01/31/2002 03:31:05 PM\n-----\n--------";
    let bad_date = format!("{}\nDATE: 02/30/2002 03:31:05 PM\n-----\n--------", good);
    assert_eq!(MTIFParser::new().parse(&bad_date), Err(ParseError::ValueError));
    let no_date = format!("{}\nTITLE: t\n-----\n--------", good);
    assert_eq!(MTIFParser::new().parse(&no_date), Err(ParseError::MissingRequiredField));
    let cut = format!("{}\nTITLE: t\n-----\n", good);
    assert_eq!(MTIFParser::new().parse(&cut), Err(ParseError::IncompleteInput));
    let garbage = format!("{}\nnonsense", good);
    assert_eq!(MTIFParser::new().parse(&garbage), Err(ParseError::GrammarMismatch));
    assert_eq!(MTIFParser::new().parse("nonsense"), Err(ParseError::GrammarMismatch));
}

#[test]
fn document_parsed_twice_gives_equal_entries() {
    let first = MTIFParser::new().parse(EXAMPLE);
    let second = MTIFParser::new().parse(EXAMPLE);
    assert_eq!(first, second);
    let parser = MTIFParser::new();
    assert_eq!(parser.parse(EXAMPLE), parser.parse(EXAMPLE));
    assert_eq!(parser.parse("nonsense"), parser.parse("nonsense"));
}

#[test]
fn entry_without_date_is_refused() {
    let parser = MTIFParser::new();
    let entry = raw(
        vec![MetaDataField::Author("a"), MetaDataField::Title("t")],
        vec![MultiLineField::Body("b\n")],
    );
    assert_eq!(
        parser.build_mtif_entry_from_raw_mtif_entry(&entry),
        Err(ParseError::MissingRequiredField)
    );
    assert_eq!(
        parser.build_metadata_from_raw_entry(&entry),
        Err(ParseError::MissingRequiredField)
    );
    assert_eq!(
        parser.build_metadata_from_raw_entry(&raw(vec![], vec![])),
        Err(ParseError::MissingRequiredField)
    );
}

#[test]
fn metadata_takes_the_first_of_repeated_lines() {
    let parser = MTIFParser::new();
    let entry = raw(
        vec![
            MetaDataField::Author("first"),
            MetaDataField::Date(at(2002, 1, 31, 15, 31, 5)),
            MetaDataField::Author("second"),
            MetaDataField::Date(at(2003, 1, 1, 0, 0, 0)),
            MetaDataField::Status(Status::Draft),
            MetaDataField::Status(Status::Publish),
            MetaDataField::AllowComments(false),
            MetaDataField::AllowComments(true),
            MetaDataField::AllowPings(true),
            MetaDataField::AllowPings(false),
            MetaDataField::ConvertBreaks(ConvertBreaks::RichText),
            MetaDataField::ConvertBreaks(ConvertBreaks::Markdown),
            MetaDataField::Tags(vec!["a", "b"]),
            MetaDataField::Tags(vec!["c"]),
            MetaDataField::Title("t1"),
            MetaDataField::Title("t2"),
            MetaDataField::BaseName("b1"),
            MetaDataField::BaseName("b2"),
            MetaDataField::PrimaryCategory("main"),
            MetaDataField::PrimaryCategory("other"),
            MetaDataField::Image("i1"),
            MetaDataField::Image("i2"),
        ],
        vec![],
    );
    assert_eq!(
        parser.build_metadata_from_raw_entry(&entry),
        Ok(MetaData {
            author: Some("first"),
            title: Some("t1"),
            basename: Some("b1"),
            status: Some(Status::Draft),
            allow_comments: Some(false),
            allow_pings: Some(true),
            convert_breaks: Some(ConvertBreaks::RichText),
            primary_category: Some("main"),
            category: vec![],
            date: at(2002, 1, 31, 15, 31, 5),
            no_entry: false,
            tags: vec!["a", "b"],
            image: Some("i1"),
        })
    );
}

#[test]
fn metadata_keeps_all_categories_and_notes_no_entry() {
    let parser = MTIFParser::new();
    let entry = raw(
        vec![
            MetaDataField::Category("News"),
            MetaDataField::NoEntry,
            MetaDataField::Category("Media"),
            MetaDataField::Date(at(2002, 1, 31, 15, 31, 5)),
            MetaDataField::Category("News"),
        ],
        vec![],
    );
    let metadata = parser.build_metadata_from_raw_entry(&entry).unwrap();
    assert_eq!(metadata.category, vec!["News", "Media", "News"]);
    assert!(metadata.no_entry);
    assert_eq!(metadata.tags, Vec::<&str>::new());
    assert_eq!(metadata.author, None);
}

#[test]
fn entry_takes_the_first_plain_section_of_a_kind_and_all_comments() {
    let parser = MTIFParser::new();
    let comment = |text| MultiLineField::Comment {
        author: None,
        email: None,
        url: None,
        ip: None,
        date: None,
        text,
    };
    let ping = |text| MultiLineField::Ping {
        title: None,
        url: None,
        ip: None,
        date: None,
        blog_name: None,
        text,
    };
    let entry = raw(
        vec![MetaDataField::Date(at(2002, 1, 31, 15, 31, 5))],
        vec![
            comment("c1"),
            MultiLineField::Keywords("k1"),
            MultiLineField::Body("b1"),
            ping("first ping"),
            MultiLineField::Body("b2"),
            MultiLineField::Excerpt("x1"),
            comment("c2"),
            MultiLineField::ExtendedBody("e1"),
            MultiLineField::Keywords("k2"),
            MultiLineField::ExtendedBody("e2"),
            ping("second ping"),
            MultiLineField::Excerpt("x2"),
        ],
    );
    let built = parser.build_mtif_entry_from_raw_mtif_entry(&entry).unwrap();
    assert_eq!(built.body, Some("b1"));
    assert_eq!(built.extended_body, Some("e1"));
    assert_eq!(built.excerpt, Some("x1"));
    assert_eq!(built.keywords, Some("k1"));
    assert_eq!(built.comments.len(), 2);
    assert_eq!(built.comments[0].text, "c1");
    assert_eq!(built.comments[1].text, "c2");
    assert_eq!(built.pings.len(), 2);
    assert_eq!(built.pings[0].text, "first ping");
    assert_eq!(built.pings[1].text, "second ping");
}

#[test]
fn written_lines_are_read_back() {
    assert_eq!(
        parse_metadata_field("DATE: 02/29/2004 23:05:09\n"),
        Ok(("", MetaDataField::Date(at(2004, 2, 29, 23, 5, 9))))
    );
    assert_eq!(
        parse_metadata_field("TAGS: \"a b\",\"\",\"c,d\"\n"),
        Ok(("", MetaDataField::Tags(vec!["a b", "", "c,d"])))
    );
    assert_eq!(
        parse_metadata_field("CONVERT BREAKS: markdown_with_smartypants\n"),
        Ok(("", MetaDataField::ConvertBreaks(ConvertBreaks::MarkdownWithSmartypants)))
    );
    assert_eq!(
        parse_metadata_field("STATUS: Publish\n"),
        Ok(("", MetaDataField::Status(Status::Publish)))
    );
    assert_eq!(
        parse_metadata_field("PRIMARY CATEGORY: \n"),
        Ok(("", MetaDataField::PrimaryCategory("")))
    );
}

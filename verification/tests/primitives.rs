use mtif::datetime::DateTime;
use mtif::error::ParseError;
use mtif::parser::utils::{
    parse_date_value, parse_literal, parse_literal_no_case, parse_multiline_block,
    parse_multiline_text, parse_num_bool_flag, parse_until_line_ending, take_n_digits,
};

fn at(year: i32, month: u8, day: u8, hour: u8, minute: u8, second: u8) -> DateTime {
    DateTime { year, month, day, hour, minute, second }
}

#[test]
fn test_parse_until_line_ending() {
    assert_eq!(
        parse_until_line_ending("Foo Bar\nBaz Qux"),
        Ok(("Baz Qux", "Foo Bar"))
    )
}

#[test]
fn test_take_n_digits() {
    assert_eq!(take_n_digits(2, "12"), Ok(("", 12)));
    assert_eq!(take_n_digits(2, "12/31"), Ok(("/31", 12)));
    assert_eq!(take_n_digits(4, "2004"), Ok(("", 2004)));
}

#[test]
fn test_num_bool_flag() {
    assert_eq!(parse_num_bool_flag("0\n"), Ok(("", false)));
    assert_eq!(parse_num_bool_flag("1\n"), Ok(("", true)));
}

#[test]
fn line_without_terminator_is_incomplete() {
    assert_eq!(parse_until_line_ending("Foo Bar"), Err(ParseError::IncompleteInput));
    assert_eq!(parse_until_line_ending(""), Err(ParseError::IncompleteInput));
}

#[test]
fn empty_line_is_read_as_empty_text() {
    assert_eq!(parse_until_line_ending("\nnext"), Ok(("next", "")));
}

#[test]
fn digits_fail_on_short_input_and_on_other_characters() {
    assert_eq!(take_n_digits(2, "1"), Err(ParseError::IncompleteInput));
    assert_eq!(take_n_digits(2, ""), Err(ParseError::IncompleteInput));
    assert_eq!(take_n_digits(2, "1a"), Err(ParseError::GrammarMismatch));
    assert_eq!(take_n_digits(2, "a1"), Err(ParseError::GrammarMismatch));
    assert_eq!(take_n_digits(4, "12/3"), Err(ParseError::GrammarMismatch));
}

#[test]
fn digits_take_no_more_than_asked() {
    assert_eq!(take_n_digits(1, "987"), Ok(("87", 9)));
    assert_eq!(take_n_digits(9, "9999999990"), Ok(("0", 999_999_999)));
    assert_eq!(take_n_digits(3, "007"), Ok(("", 7)));
}

#[test]
fn digits_too_many_for_32_bits_are_a_value_error() {
    assert_eq!(take_n_digits(10, "4294967295"), Ok(("", 4_294_967_295)));
    assert_eq!(take_n_digits(10, "4294967296"), Err(ParseError::ValueError));
    assert_eq!(take_n_digits(10, "0000000001"), Ok(("", 1)));
    assert_eq!(take_n_digits(12, "999999999999"), Err(ParseError::ValueError));
    assert_eq!(take_n_digits(12, "99999999999x"), Err(ParseError::GrammarMismatch));
    assert_eq!(take_n_digits(12, "99999999999"), Err(ParseError::IncompleteInput));
}

#[test]
fn no_digits_are_the_number_zero() {
    assert_eq!(take_n_digits(0, "abc"), Ok(("abc", 0)));
    assert_eq!(take_n_digits(0, ""), Ok(("", 0)));
}

#[test]
fn flag_fails_on_anything_else() {
    assert_eq!(parse_num_bool_flag(""), Err(ParseError::IncompleteInput));
    assert_eq!(parse_num_bool_flag("1"), Err(ParseError::IncompleteInput));
    assert_eq!(parse_num_bool_flag("2\n"), Err(ParseError::GrammarMismatch));
    assert_eq!(parse_num_bool_flag("01\n"), Err(ParseError::GrammarMismatch));
    assert_eq!(parse_num_bool_flag("true\n"), Err(ParseError::GrammarMismatch));
}

#[test]
fn literal_is_there_or_cut_short_or_different() {
    assert_eq!(parse_literal("-----\nBODY:", "-----\n"), Ok("BODY:"));
    assert_eq!(parse_literal("---", "-----\n"), Err(ParseError::IncompleteInput));
    assert_eq!(parse_literal("", "-----\n"), Err(ParseError::IncompleteInput));
    assert_eq!(parse_literal("----x", "-----\n"), Err(ParseError::GrammarMismatch));
    assert_eq!(parse_literal("anything", ""), Ok("anything"));
}

#[test]
fn literal_without_case_accepts_both_cases() {
    assert_eq!(parse_literal_no_case("dRaFt\n", "Draft"), Ok("\n"));
    assert_eq!(parse_literal_no_case("DRA", "Draft"), Err(ParseError::IncompleteInput));
    assert_eq!(parse_literal_no_case("Drift", "Draft"), Err(ParseError::GrammarMismatch));
    assert_eq!(parse_literal_no_case("textile_2", "TEXTILE_2"), Ok(""));
    assert_eq!(parse_literal_no_case("textile-2", "textile_2"), Err(ParseError::GrammarMismatch));
}

#[test]
fn literal_without_case_folds_ascii_letters_only() {
    assert_eq!(parse_literal_no_case("CAFÉ au lait", "café"), Err(ParseError::GrammarMismatch));
    assert_eq!(parse_literal_no_case("CAFé au lait", "café"), Ok(" au lait"));
    assert_eq!(parse_literal_no_case("\u{212a}elvin", "kelvin"), Err(ParseError::GrammarMismatch));
    assert_eq!(parse_literal_no_case("[x]", "{x}"), Err(ParseError::GrammarMismatch));
    assert_eq!(parse_literal_no_case("@a", "`A"), Err(ParseError::GrammarMismatch));
}

#[test]
fn date_value_without_suffix_is_taken_as_written() {
    assert_eq!(
        parse_date_value("12/31/2012 12:34:56"),
        Ok(("", at(2012, 12, 31, 12, 34, 56)))
    );
    assert_eq!(
        parse_date_value("12/31/2012 13:34:56"),
        Ok(("", at(2012, 12, 31, 13, 34, 56)))
    );
    assert_eq!(parse_date_value("01/01/0000 00:00:00"), Ok(("", at(0, 1, 1, 0, 0, 0))));
}

#[test]
fn date_value_with_am_keeps_the_hour() {
    assert_eq!(
        parse_date_value("12/31/2012 12:34:56 AM"),
        Ok(("", at(2012, 12, 31, 12, 34, 56)))
    );
    assert_eq!(parse_date_value("02/01/2002 04:02:07 AM\n"), Ok(("\n", at(2002, 2, 1, 4, 2, 7))));
}

#[test]
fn date_value_with_pm_is_twelve_hours_later() {
    assert_eq!(
        parse_date_value("12/31/2012 01:34:56 PM"),
        Ok(("", at(2012, 12, 31, 13, 34, 56)))
    );
    assert_eq!(
        parse_date_value("08/05/2002 11:59:59 PM"),
        Ok(("", at(2002, 8, 5, 23, 59, 59)))
    );
}

#[test]
fn date_value_with_pm_wraps_at_midnight_on_the_same_day() {
    assert_eq!(
        parse_date_value("12/31/2012 12:34:56 PM"),
        Ok(("", at(2012, 12, 31, 0, 34, 56)))
    );
    assert_eq!(
        parse_date_value("12/31/2012 23:00:01 PM"),
        Ok(("", at(2012, 12, 31, 11, 0, 1)))
    );
}

#[test]
fn date_value_leaves_what_is_no_suffix() {
    assert_eq!(
        parse_date_value("12/31/2012 12:34:56 XM"),
        Ok((" XM", at(2012, 12, 31, 12, 34, 56)))
    );
    assert_eq!(
        parse_date_value("12/31/2012 12:34:56 pm"),
        Ok((" pm", at(2012, 12, 31, 12, 34, 56)))
    );
    assert_eq!(
        parse_date_value("12/31/2012 12:34:56PM"),
        Ok(("PM", at(2012, 12, 31, 12, 34, 56)))
    );
}

#[test]
fn date_value_of_the_wrong_shape_is_a_mismatch() {
    assert_eq!(parse_date_value("2012-12-31 12:34:56"), Err(ParseError::GrammarMismatch));
    assert_eq!(parse_date_value("12/31/12 12:34:56"), Err(ParseError::GrammarMismatch));
    assert_eq!(parse_date_value("1/31/2012 12:34:56"), Err(ParseError::GrammarMismatch));
    assert_eq!(parse_date_value("12/31/2012T12:34:56"), Err(ParseError::GrammarMismatch));
    assert_eq!(parse_date_value("12/31/2012 12:34"), Err(ParseError::IncompleteInput));
    assert_eq!(parse_date_value("12/31/2012 12:34:5"), Err(ParseError::IncompleteInput));
    assert_eq!(parse_date_value(""), Err(ParseError::IncompleteInput));
}

#[test]
fn date_value_follows_the_calendar() {
    assert_eq!(parse_date_value("02/29/2012 00:00:00"), Ok(("", at(2012, 2, 29, 0, 0, 0))));
    assert_eq!(parse_date_value("02/29/2000 00:00:00"), Ok(("", at(2000, 2, 29, 0, 0, 0))));
    assert_eq!(parse_date_value("02/29/1900 00:00:00"), Err(ParseError::ValueError));
    assert_eq!(parse_date_value("02/29/2013 00:00:00"), Err(ParseError::ValueError));
    assert_eq!(parse_date_value("04/31/2013 00:00:00"), Err(ParseError::ValueError));
    assert_eq!(parse_date_value("04/30/2013 00:00:00"), Ok(("", at(2013, 4, 30, 0, 0, 0))));
    assert_eq!(parse_date_value("00/10/2013 00:00:00"), Err(ParseError::ValueError));
    assert_eq!(parse_date_value("13/10/2013 00:00:00"), Err(ParseError::ValueError));
    assert_eq!(parse_date_value("01/00/2013 00:00:00"), Err(ParseError::ValueError));
    assert_eq!(parse_date_value("01/32/2013 00:00:00"), Err(ParseError::ValueError));
}

#[test]
fn date_value_follows_the_clock() {
    assert_eq!(parse_date_value("01/01/2013 23:59:59"), Ok(("", at(2013, 1, 1, 23, 59, 59))));
    assert_eq!(parse_date_value("01/01/2013 24:00:00"), Err(ParseError::ValueError));
    assert_eq!(parse_date_value("01/01/2013 00:60:00"), Err(ParseError::ValueError));
    assert_eq!(parse_date_value("01/01/2013 00:00:60"), Err(ParseError::ValueError));
    assert_eq!(parse_date_value("01/01/2013 24:00:00 PM"), Err(ParseError::ValueError));
}

#[test]
fn free_text_ends_before_the_separator() {
    assert_eq!(
        parse_multiline_text("Foo Bar\nBaz Qux\n\n-----\nnext"),
        Ok(("next", "Foo Bar\nBaz Qux\n"))
    );
    assert_eq!(parse_multiline_text("one line\n-----\n"), Ok(("", "one line")));
    assert_eq!(parse_multiline_text("\n-----\n"), Ok(("", "")));
}

#[test]
fn free_text_stops_at_the_first_separator() {
    assert_eq!(
        parse_multiline_text("a\n-----\nb\n-----\n"),
        Ok(("b\n-----\n", "a"))
    );
}

#[test]
fn free_text_without_separator_is_incomplete() {
    assert_eq!(parse_multiline_text("Foo Bar\n-----"), Err(ParseError::IncompleteInput));
    assert_eq!(parse_multiline_text("-----\n"), Err(ParseError::IncompleteInput));
    assert_eq!(parse_multiline_text(""), Err(ParseError::IncompleteInput));
}

#[test]
fn block_text_keeps_the_terminator_of_its_last_line() {
    assert_eq!(
        parse_multiline_block("Foo Bar\nBaz Qux\n\n-----\nnext"),
        Ok(("next", "Foo Bar\nBaz Qux\n\n"))
    );
    assert_eq!(parse_multiline_block("one line\n-----\n"), Ok(("", "one line\n")));
    assert_eq!(parse_multiline_block("\n-----\n"), Ok(("", "\n")));
    assert_eq!(parse_multiline_block("text"), Err(ParseError::IncompleteInput));
}

#[test]
fn free_text_may_hold_non_ascii_characters() {
    assert_eq!(
        parse_multiline_text("これは本文です。\n二行目\n-----\n"),
        Ok(("", "これは本文です。\n二行目"))
    );
}

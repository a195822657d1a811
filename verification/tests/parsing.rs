use bankstat::amount::parse_amount;
use bankstat::amount::strip_nbsp;
use bankstat::amount::Amount;
use bankstat::date::parse_date;
use bankstat::date::Date;
use bankstat::record::parse_line;
use bankstat::record::process_lines;
use bankstat::record::ParseErrorKind;

fn amt(negative: bool, scaled: u128) -> Amount {
    Amount { negative, scaled }
}

#[test]
fn unquoted_line_extracts_positional_fields() {
    let line = "a;b;c;2023-05-15;Lunch place;x;1 234,56;y;Mat";
    let item = parse_line(line).unwrap();
    assert_eq!(item.date, Date { year: 2023, month: 5, day: 15 });
    assert_eq!(item.description, "Lunch place");
    assert_eq!(item.amount, amt(false, 1_234_560_000_000_000));
    assert_eq!(item.category, "Mat");
}

#[test]
fn quoted_line_shifts_fields_and_unescapes() {
    let line = "h;x;2023-05-15;\"Food &amp; Drink\";a;b;-7,5;c;Mat";
    let item = parse_line(line).unwrap();
    assert_eq!(item.date, Date { year: 2023, month: 5, day: 15 });
    assert_eq!(item.description, "\"Food & Drink\"");
    assert_eq!(item.amount, amt(true, 7_500_000_000_000));
    assert_eq!(item.category, "Mat");
}

#[test]
fn unescaping_happens_before_splitting() {
    // The entity's own semicolon must not count as a field delimiter.
    let line = "\";&amp;x;2023-01-02;desc;a;b;5,0;c;Kat";
    let item = parse_line(line).unwrap();
    assert_eq!(item.date, Date { year: 2023, month: 1, day: 2 });
    assert_eq!(item.description, "desc");
    assert_eq!(item.category, "Kat");
}

#[test]
fn amount_with_nbsp_padding() {
    let line = "a;b;c;2023-01-02;D;x;1\u{a0}234,56;y;K";
    let item = parse_line(line).unwrap();
    assert_eq!(item.amount, amt(false, 1_234_560_000_000_000));
}

#[test]
fn strip_nbsp_is_idempotent() {
    let once = strip_nbsp("1\u{a0}2\u{a0}\u{a0}3");
    let twice = strip_nbsp(&once);
    assert_eq!(once, "123");
    assert_eq!(once, twice);
}

#[test]
fn five_fields_is_malformed() {
    assert_eq!(parse_line("a;b;c;d;e"), Err(ParseErrorKind::MalformedRecord));
    assert_eq!(
        parse_line("2023-01-01;desc;1,0;cat;x"),
        Err(ParseErrorKind::MalformedRecord)
    );
}

#[test]
fn month_out_of_range_is_invalid_date() {
    let line = "a;b;c;2023-13-01;D;x;1 234,56;y;K";
    assert_eq!(parse_line(line), Err(ParseErrorKind::InvalidDate));
}

#[test]
fn bad_amount_is_reported_before_bad_date() {
    let both_bad = "a;b;c;2023-13-01;D;x;not a number;y;K";
    assert_eq!(parse_line(both_bad), Err(ParseErrorKind::InvalidAmount));
    let two_commas = "a;b;c;2023-05-01;D;x;1,2,3;y;K";
    assert_eq!(parse_line(two_commas), Err(ParseErrorKind::InvalidAmount));
}

#[test]
fn date_format_is_strict() {
    assert_eq!(parse_date("2024-02-29"), Some(Date { year: 2024, month: 2, day: 29 }));
    assert_eq!(parse_date("2023-02-29"), None);
    assert_eq!(parse_date("2023-5-01"), None);
    assert_eq!(parse_date("2023/05/01"), None);
    assert_eq!(parse_date("23-05-01"), None);
    assert_eq!(parse_date("2023-05-015"), None);
    assert_eq!(parse_date("2023-00-10"), None);
    assert_eq!(parse_date("2023-04-31"), None);
    assert_eq!(parse_date("0000-01-01"), Some(Date { year: 0, month: 1, day: 1 }));
}

#[test]
fn amount_grammar() {
    assert_eq!(parse_amount("1 234,56"), Some(amt(false, 1_234_560_000_000_000)));
    assert_eq!(parse_amount("+5"), Some(amt(false, 5_000_000_000_000)));
    assert_eq!(parse_amount("-0,5"), Some(amt(true, 500_000_000_000)));
    assert_eq!(parse_amount("12,"), Some(amt(false, 12_000_000_000_000)));
    assert_eq!(parse_amount(",5"), Some(amt(false, 500_000_000_000)));
    assert_eq!(parse_amount("1 2 3"), Some(amt(false, 123_000_000_000_000)));
    assert_eq!(parse_amount(""), None);
    assert_eq!(parse_amount(","), None);
    assert_eq!(parse_amount("-"), None);
    assert_eq!(parse_amount("1,2,3"), None);
    assert_eq!(parse_amount("12.5"), None);
    assert_eq!(parse_amount("1e3"), None);
    // More fraction digits than an Amount stores.
    assert_eq!(parse_amount("0,0000000000001"), None);
}

#[test]
fn process_lines_parses_every_line_in_order() {
    let data = "a;b;c;2023-05-15;One;x;1,0;y;Mat\na;b;c;2023-06-16;Two;x;-2,5;y;Bil\n";
    let items = process_lines(data).unwrap();
    assert_eq!(items.len(), 2);
    assert_eq!(items[0].description, "One");
    assert_eq!(items[0].amount, amt(false, 1_000_000_000_000));
    assert_eq!(items[1].description, "Two");
    assert_eq!(items[1].amount, amt(true, 2_500_000_000_000));
}

#[test]
fn process_lines_handles_crlf_endings() {
    let data = "a;b;c;2023-05-15;One;x;1,0;y;Mat\r\na;b;c;2023-06-16;Two;x;2,0;y;Bil";
    let items = process_lines(data).unwrap();
    assert_eq!(items.len(), 2);
    assert_eq!(items[0].category, "Mat");
    assert_eq!(items[1].category, "Bil");
}

#[test]
fn process_lines_empty_input_gives_no_records() {
    let items = process_lines("").unwrap();
    assert_eq!(items.len(), 0);
}

#[test]
fn process_lines_fails_fast_on_first_bad_line() {
    let data = "a;b;c;2023-05-15;One;x;1,0;y;Mat\nshort;line\na;b;c;2023-06-16;Two;x;2,0;y;Bil";
    let err = process_lines(data).unwrap_err();
    assert_eq!(err.line, 1);
    assert_eq!(err.kind, ParseErrorKind::MalformedRecord);

    let first_bad = "bad\na;b;c;2023-05-15;One;x;1,0;y;Mat";
    let err = process_lines(first_bad).unwrap_err();
    assert_eq!(err.line, 0);
    assert_eq!(err.kind, ParseErrorKind::MalformedRecord);
}

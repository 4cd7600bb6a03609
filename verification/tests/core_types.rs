use ledger::category::Category;
use ledger::category::ParseError as CategoryParseError;
use ledger::cents::Cents;
use ledger::date::Date;
use ledger::date::ParseError as DateParseError;
use ledger::datepart::Datepart;
use ledger::interval::Interval;
use ledger::interval::ParseError as IntervalParseError;

fn today() -> Date {
    Date::from_ymd(2015, 3, 30).unwrap()
}

fn d(s: &str) -> Date {
    Date::parse(s, today()).unwrap()
}

fn iv(s: &str) -> Interval {
    Interval::parse(s, today()).unwrap()
}

#[test]
fn cents_to_string() {
    let cases: Vec<(i64, &str)> = vec![
        (0, "0.00"),
        (10, "0.10"),
        (-123, "(1.23)"),
        (123456789, "1,234,567.89"),
        (-10, "(0.10)"),
        (-123456789, "(1,234,567.89)"),
        (i64::MIN + 1, "(92,233,720,368,547,758.07)"),
    ];
    for (v, want) in cases {
        let got = Cents(v).render();
        assert_eq!(got, want);
        assert_eq!(Cents(v).charlen(), got.len());
    }
}

#[test]
fn cents_from_str() {
    let cases: Vec<(&str, i64)> = vec![
        ("0", 0),
        ("0.", 0),
        (".0", 0),
        ("0.0", 0),
        ("-0", 0),
        ("1", 100),
        ("+1.", 100),
        ("-.1", -10),
        ("123456", 12345600),
        ("-123456", -12345600),
        ("1234.56", 123456),
        ("1,234.56", 123456),
        ("0001,234.56789", 123456),
        ("-,,1,23,,4.5,,,6,7", -123456),
    ];
    for (s, want) in cases {
        assert_eq!(Cents::parse(s).unwrap(), Cents(want));
    }
}

#[test]
fn cents_from_str_failing() {
    for s in ["", "+", "-", ".", "+.", "-.", "+a.", "+.a", "+-0.", "--0."] {
        assert!(Cents::parse(s).is_none());
    }
}

#[test]
fn cents_round_trip() {
    // format(parse(s)) is a normal form: parsing it back gives the value again
    for v in [0i64, 1, 99, 100, 12345600, 123456, 987654321012345] {
        let text = Cents(v).render();
        assert_eq!(Cents::parse(&text).unwrap(), Cents(v));
        assert_eq!(Cents::parse(&Cents::parse(&text).unwrap().render()).unwrap(), Cents(v));
    }
    // a parenthesized negative rendering is not an accepted input
    assert!(Cents::parse(&Cents(-123).render()).is_none());
}

#[test]
fn test_min_max_consts() {
    assert_eq!(Date::min_value(), Date::from_ymd(0, 1, 1).unwrap());
    assert_eq!(Date::max_value(), Date::from_ymd(9999, 12, 31).unwrap());
}

#[test]
fn date_iso_conv() {
    for (s, y, m, dd) in [("2015-03-30", 2015, 3, 30), ("0000-01-01", 0, 1, 1), (
        "9999-12-31",
        9999,
        12,
        31,
    )] {
        let dt = Date::from_ymd(y, m, dd).unwrap();
        assert_eq!(d(s), dt);
        assert_eq!(dt.render(), s);
    }
}

#[test]
fn date_first_of() {
    assert_eq!(d("2015-03-30").first_of(Datepart::Year), d("2015-01-01"));
    assert_eq!(d("2015-03-30").first_of(Datepart::Month), d("2015-03-01"));
    assert_eq!(d("2015-03-30").first_of(Datepart::Day), d("2015-03-30"));
}

#[test]
fn date_last_of() {
    let cases = [
        ("2015-03-30", Datepart::Year, "2015-12-31"),
        ("2015-03-30", Datepart::Month, "2015-03-31"),
        ("2015-03-30", Datepart::Day, "2015-03-30"),
        ("1700-02-15", Datepart::Month, "1700-02-28"),
        ("1704-02-15", Datepart::Month, "1704-02-29"),
        ("2000-02-15", Datepart::Month, "2000-02-29"),
        ("2001-02-15", Datepart::Month, "2001-02-28"),
        ("3000-04-15", Datepart::Month, "3000-04-30"),
        ("3000-12-15", Datepart::Month, "3000-12-31"),
    ];
    for (from, part, want) in cases {
        assert_eq!(d(from).last_of(part), d(want));
    }
}

#[test]
fn date_shift() {
    // month shifting clamps the day to the target month's last day
    assert_eq!(d("2015-03-30").shift(Datepart::Month, 1), Some(d("2015-04-30")));
    assert_eq!(d("2015-01-31").shift(Datepart::Month, 1), Some(d("2015-02-28")));
    assert_eq!(d("2016-01-31").shift(Datepart::Month, 1), Some(d("2016-02-29")));
    let cases = [
        ("2015-03-30", Datepart::Year, 0, Some("2015-03-30")),
        ("2015-03-30", Datepart::Year, 1, Some("2016-03-30")),
        ("2015-03-30", Datepart::Year, -1, Some("2014-03-30")),
        ("2015-03-30", Datepart::Year, 30, Some("2045-03-30")),
        ("2015-03-30", Datepart::Month, -1, Some("2015-02-28")),
        ("2015-03-30", Datepart::Month, 27, Some("2017-06-30")),
        ("2015-03-30", Datepart::Month, -27, Some("2012-12-30")),
        ("2015-03-30", Datepart::Day, 1, Some("2015-03-31")),
        ("2015-03-30", Datepart::Day, -1, Some("2015-03-29")),
        ("2015-03-30", Datepart::Day, 100, Some("2015-07-08")),
        ("2015-03-30", Datepart::Day, -100, Some("2014-12-20")),
        ("0000-01-01", Datepart::Day, -1, None),
        ("0002-01-01", Datepart::Month, -27, None),
        ("0002-01-01", Datepart::Year, -4, None),
        ("9999-12-31", Datepart::Day, 1, None),
    ];
    for (from, part, off, want) in cases {
        assert_eq!(d(from).shift(part, off), want.map(|w| d(w)));
    }
    assert_eq!(d("2015-03-30").shift(Datepart::Year, i32::MAX), None);
}

#[test]
fn date_from_str() {
    let t = today();
    assert_eq!(Date::parse("2015-03-30", t).ok(), Date::from_ymd(2015, 3, 30));
    assert_eq!(Date::parse("y", t).ok(), Some(t.first_of(Datepart::Year)));
    assert_eq!(Date::parse("Y", t).ok(), Some(t.last_of(Datepart::Year)));
    assert_eq!(Date::parse("y+0", t).ok(), Some(t.first_of(Datepart::Year)));
    assert_eq!(Date::parse("y100", t).ok(), t.shift(Datepart::Year, 100).map(|x| x.first_of(
        Datepart::Year,
    )));
    assert_eq!(Date::parse("m", t).ok(), Some(t.first_of(Datepart::Month)));
    assert_eq!(Date::parse("M", t).ok(), Some(t.last_of(Datepart::Month)));
    assert_eq!(Date::parse("d", t).ok(), Some(t));
    assert_eq!(Date::parse("d100", t).ok(), t.shift(Datepart::Day, 100));
    for bad in ["", "0000-00-01", "10000-01-01", "015-03-30", "2015-3-30", "2015-03-3", "y+9999",
        "yy", "a", "a123", "\u{251c}123"] {
        assert!(Date::parse(bad, t).is_err(), "{}", bad);
    }
}

#[test]
fn date_parse_error_variants() {
    let t = today();
    assert_eq!(Date::parse("", t).unwrap_err(), DateParseError::Empty);
    assert_eq!(Date::parse("2015-3-30", t).unwrap_err(), DateParseError::BadFormat);
    assert_eq!(Date::parse("a123", t).unwrap_err(), DateParseError::InvalidFirstChar);
    assert_eq!(Date::parse("y+9999", t).unwrap_err(), DateParseError::InvalidFirstChar);
    assert_eq!(
        Date::parse("d10000000000000000000000000000000000000000000000000000000000000", t)
            .unwrap_err(),
        DateParseError::InvalidOffset,
    );
    assert_eq!(Date::parse("yy", t).unwrap_err(), DateParseError::InvalidOffset);
}

#[test]
fn interval_from_str() {
    let cases = [
        ("2015-03-30:2015-03-30", "2015-03-30", "2015-03-30"),
        ("2015-03-30:2020-03-30", "2015-03-30", "2020-03-30"),
        ("2015-03-30", "2015-03-30", "2015-03-30"),
        ("Y:m-1", "2015-12-31", "2015-02-01"),
        ("y-4:3000-01-01", "2011-01-01", "3000-01-01"),
        (":d4", "0000-01-01", "2015-04-03"),
        (":", "0000-01-01", "9999-12-31"),
        ("D-10:", "2015-03-20", "9999-12-31"),
    ];
    for (s, start, end) in cases {
        let got = iv(s);
        assert_eq!((got.start, got.end), (d(start), d(end)), "{}", s);
    }
    for bad in ["", ":a", "a", "a:d", "12345-01-01", "12345-01-01:"] {
        assert!(Interval::parse(bad, today()).is_err(), "{}", bad);
    }
}

#[test]
fn interval_error_variants() {
    let t = today();
    assert!(matches!(Interval::parse("a", t).unwrap_err(), IntervalParseError::Date(_)));
    assert!(matches!(Interval::parse("a:d", t).unwrap_err(), IntervalParseError::Left(_)));
    assert!(matches!(Interval::parse(":a", t).unwrap_err(), IntervalParseError::Right(_)));
}

#[test]
fn interval_intersection() {
    assert!(iv(":").intersection(iv("M:m")).is_empty());
    assert!(iv("m6:M7").intersection(iv("m-4:M-3")).is_empty());
    assert_eq!(iv("m-1:M+10").intersection(iv("m-4:M+7")), iv("m-1:M+7"));
    assert_eq!(iv("d-1:d").intersection(iv("d:d1")), iv("d"));
}

#[test]
fn interval_iter() {
    // the subintervals partition the interval along calendar boundaries
    let cases: Vec<(&str, Datepart, Vec<&str>)> = vec![
        ("d1:d-1", Datepart::Day, vec![]),
        ("2015-03-30", Datepart::Year, vec!["2015-03-30:2015-03-30"]),
        (
            "2015-03-30:2017-06-29",
            Datepart::Year,
            vec!["2015-03-30:2015-12-31", "2016-01-01:2016-12-31", "2017-01-01:2017-06-29"],
        ),
        (
            "2015-03-30:2015-05-29",
            Datepart::Month,
            vec!["2015-03-30:2015-03-31", "2015-04-01:2015-04-30", "2015-05-01:2015-05-29"],
        ),
        (
            "2015-03-30:2015-04-01",
            Datepart::Day,
            vec!["2015-03-30:2015-03-30", "2015-03-31:2015-03-31", "2015-04-01:2015-04-01"],
        ),
    ];
    for (bounds, part, want) in cases {
        let got = iv(bounds).iter(part);
        let want: Vec<Interval> = want.into_iter().map(iv).collect();
        assert_eq!(got, want, "{}", bounds);
    }
}

#[test]
fn category_from_str() {
    for (s, ok) in [("", false), ("/", false), ("//", false), ("/asdf", false), ("asdf/", false), (
        "as//df",
        false,
    ), ("asdf", true), ("as/df", true), ("a/sd/f", true), ("a", true)] {
        assert_eq!(Category::parse(s).is_ok(), ok, "{}", s);
    }
}

#[test]
fn category_error_variants() {
    assert_eq!(Category::parse("").unwrap_err(), CategoryParseError::Empty);
    assert_eq!(Category::parse("/a").unwrap_err(), CategoryParseError::TerminalSeparator);
    assert_eq!(Category::parse("a/").unwrap_err(), CategoryParseError::TerminalSeparator);
    assert_eq!(Category::parse("a//b").unwrap_err(), CategoryParseError::ConsecutiveSeparators);
}

#[test]
fn category_level() {
    let cases = [
        ("a", 0usize, "All"),
        ("a", 1, "a"),
        ("a", 2, "a"),
        ("a/b/c/d", 0, "All"),
        ("a/b/c/d", 1, "a"),
        ("a/b/c/d", 2, "a/b"),
        ("a/b/c/d", 3, "a/b/c"),
        ("a/b/c/d", 4, "a/b/c/d"),
        ("a/b/c/d", 5, "a/b/c/d"),
        ("a/b/c/d", 100, "a/b/c/d"),
    ];
    for (cat, level, want) in cases {
        let c = Category::parse(cat).unwrap();
        assert_eq!(c.level(level), want);
    }
}

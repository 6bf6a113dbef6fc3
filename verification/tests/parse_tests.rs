use kdo::date::Date;
use kdo::parse::{ParseTaskError, TaskParser};
use kdo::task::Task;
use std::str::FromStr;

fn parse(line: &str) -> Option<Task> {
    TaskParser::new().parse_line(line)
}

#[test]
fn it_works() {
    assert_eq!(4, 4);
}

#[test]
fn parse_full_line() {
    let t = parse("x (A) 2024-01-02 2024-01-01 Buy milk @store +errands").unwrap();
    assert_eq!(t.completed, true);
    assert_eq!(t.priority, Some('A'));
    // the first leading date is read as the completion date, the
    // second as the creation date
    assert_eq!(t.date_completed, Some(Date { year: 2024, month: 1, day: 2 }));
    assert_eq!(t.date_created, Some(Date { year: 2024, month: 1, day: 1 }));
    assert_eq!(t.description(), "Buy milk @store +errands");
    assert_eq!(t.contexts(), &vec!["store".to_string()]);
    assert_eq!(t.projects(), &vec!["errands".to_string()]);
}

#[test]
fn parse_priority_only() {
    let t = parse("(B) Call mom").unwrap();
    assert_eq!(t.completed, false);
    assert_eq!(t.priority, Some('B'));
    assert_eq!(t.date_completed, None);
    assert_eq!(t.date_created, None);
    assert_eq!(t.description(), "Call mom");
    assert!(t.contexts().is_empty());
    assert!(t.projects().is_empty());
}

#[test]
fn parse_empty_line_fails() {
    assert_eq!(parse(""), None);
    assert_eq!(parse("   "), None);
    assert_eq!(Task::from_str(""), Err(ParseTaskError));
    assert_eq!(Task::from_str("\t  \t"), Err(ParseTaskError));
}

#[test]
fn parse_single_date_is_creation() {
    let t = parse("2024-03-05 Water plants").unwrap();
    assert_eq!(t.date_created, Some(Date { year: 2024, month: 3, day: 5 }));
    assert_eq!(t.date_completed, None);
    assert_eq!(t.description(), "Water plants");
}

#[test]
fn parse_two_dates_without_marker() {
    // the parser does not require the completion marker before two
    // dates; the first still becomes the completion date
    let t = parse("2024-01-02 2024-01-01 odd").unwrap();
    assert_eq!(t.completed, false);
    assert_eq!(t.date_completed, Some(Date { year: 2024, month: 1, day: 2 }));
    assert_eq!(t.date_created, Some(Date { year: 2024, month: 1, day: 1 }));
}

#[test]
fn parse_invalid_dates_are_words() {
    let t = parse("2024-13-01 bad month").unwrap();
    assert_eq!(t.date_created, None);
    assert_eq!(t.description(), "2024-13-01 bad month");
    let t = parse("2024-02-30 bad day").unwrap();
    assert_eq!(t.date_created, None);
    let t = parse("2024-1-2 unpadded").unwrap();
    assert_eq!(t.date_created, None);
}

#[test]
fn parse_leap_year_dates() {
    let t = parse("2024-02-29 leap").unwrap();
    assert_eq!(t.date_created, Some(Date { year: 2024, month: 2, day: 29 }));
    let t = parse("2023-02-29 not leap").unwrap();
    assert_eq!(t.date_created, None);
    let t = parse("2000-02-29 century leap").unwrap();
    assert_eq!(t.date_created, Some(Date { year: 2000, month: 2, day: 29 }));
    let t = parse("1900-02-29 century not leap").unwrap();
    assert_eq!(t.date_created, None);
}

#[test]
fn parse_bad_priorities_are_words() {
    let t = parse("(a) lower").unwrap();
    assert_eq!(t.priority, None);
    assert_eq!(t.description(), "(a) lower");
    let t = parse("(AB) wide").unwrap();
    assert_eq!(t.priority, None);
    let t = parse("A bare").unwrap();
    assert_eq!(t.priority, None);
}

#[test]
fn parse_marker_only_midline_is_word() {
    // "x" after the priority does not mark completion
    let t = parse("(A) x marks the spot").unwrap();
    assert_eq!(t.completed, false);
    assert_eq!(t.description(), "x marks the spot");
}

#[test]
fn parse_duplicate_tags_kept_in_order() {
    let t = parse("call @home then @home again +a +b +a").unwrap();
    assert_eq!(
        t.contexts(),
        &vec!["home".to_string(), "home".to_string()]
    );
    assert_eq!(
        t.projects(),
        &vec!["a".to_string(), "b".to_string(), "a".to_string()]
    );
}

#[test]
fn render_parse_roundtrip_date_free() {
    // the canonical rendering of a date-free parse reproduces the line
    for line in ["(B) Call mom", "x (C) done thing @here", "plain words only", "x done"] {
        let t = parse(line).unwrap();
        assert_eq!(t.render(), line);
    }
}

#[test]
fn render_normalizes_whitespace() {
    let t = parse("  (B)   Call   mom  ").unwrap();
    assert_eq!(t.render(), "(B) Call mom");
}

#[test]
fn parse_render_roundtrip_with_dates() {
    let line = "x (A) 2024-01-02 2024-01-01 Buy milk @store +errands";
    let t = parse(line).unwrap();
    let rendered = t.render();
    assert_eq!(rendered, line);
    let t2 = parse(&rendered).unwrap();
    assert_eq!(t, t2);
}

#[test]
fn render_empty_description() {
    let t = parse("x 2024-05-06 2024-05-05").unwrap();
    assert_eq!(t.description(), "");
    // each present field is followed by one space, the (empty)
    // description comes verbatim after
    assert_eq!(t.render(), "x 2024-05-06 2024-05-05 ");
    let t2 = parse(&t.render()).unwrap();
    assert_eq!(t, t2);
}

#[test]
fn render_pads_small_years() {
    let line = "0042-01-01 ancient note";
    let t = parse(line).unwrap();
    assert_eq!(t.date_created, Some(Date { year: 42, month: 1, day: 1 }));
    assert_eq!(t.render(), line);
}

#[test]
fn set_description_derives_tags() {
    let mut t = Task::empty();
    t.set_description("see @a and +b now");
    assert_eq!(t.description(), "see @a and +b now");
    assert_eq!(t.contexts(), &vec!["a".to_string()]);
    assert_eq!(t.projects(), &vec!["b".to_string()]);
}

#[test]
fn date_from_ymd_checks_calendar() {
    assert!(Date::from_ymd(2024, 2, 29).is_some());
    assert!(Date::from_ymd(2023, 2, 29).is_none());
    assert!(Date::from_ymd(2024, 0, 1).is_none());
    assert!(Date::from_ymd(2024, 12, 31).is_some());
    assert!(Date::from_ymd(-5, 1, 1).is_none());
    assert!(Date::from_ymd(10000, 1, 1).is_none());
}

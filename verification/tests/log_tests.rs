use people::log::{parse_log_file_content, Day, Entry, Log, ParseError};
use people::text::find_first_non_space;
use people::Date;

fn d(s: &str) -> Date {
    Date::parse(s).expect("valid date")
}

fn owned(items: &[&str]) -> Vec<String> {
    items.iter().map(|s| s.to_string()).collect()
}

#[test]
fn test_find_first_non_space_character_when_string_is_not_indented() {
    assert_eq!(find_first_non_space("foo"), 0);
}

#[test]
fn test_find_first_non_space_character_when_string_is_indented() {
    assert_eq!(find_first_non_space("  foo"), 2);
}

#[test]
fn test_parse_log_file() {
    let content = "# 2000-01-01\n\n- #JohnDoe :\n  - stuff: blah\n\n# 2000-01-02\n\n- #JohnDoe :\n  - stuff: blah\n  - other: bleh #Bleh\n- #JaneDoe, #Abu :\n  - meet at foo\n    - nested stuff\n";

    let expected = Log {
        days: vec![
            Day {
                date: d("2000-01-01"),
                entries: vec![Entry {
                    main: owned(&["JohnDoe"]),
                    related: owned(&["JohnDoe"]),
                    content: "- #JohnDoe :\n  - stuff: blah".to_string(),
                }],
            },
            Day {
                date: d("2000-01-02"),
                entries: vec![
                    Entry {
                        main: owned(&["JohnDoe"]),
                        related: owned(&["JohnDoe", "Bleh"]),
                        content: "- #JohnDoe :\n  - stuff: blah\n  - other: bleh #Bleh"
                            .to_string(),
                    },
                    Entry {
                        main: owned(&["JaneDoe", "Abu"]),
                        related: owned(&["JaneDoe", "Abu"]),
                        content: "- #JaneDoe, #Abu :\n  - meet at foo\n    - nested stuff"
                            .to_string(),
                    },
                ],
            },
        ],
    };

    assert_eq!(parse_log_file_content(content).unwrap(), expected);
}

#[test]
fn test_support_special_characters() {
    let content = "# 2000-01-01\n\n- #Luc\u{ed}a:\n  - stuff: blah\n";

    let expected = Log {
        days: vec![Day {
            date: d("2000-01-01"),
            entries: vec![Entry {
                main: owned(&["Luc\u{ed}a"]),
                related: owned(&["Luc\u{ed}a"]),
                content: "- #Luc\u{ed}a:\n  - stuff: blah".to_string(),
            }],
        }],
    };

    assert_eq!(parse_log_file_content(content).unwrap(), expected);
}

#[test]
fn test_replace_tabs_with_two_spaces() {
    // NOTE: there is a tab immediately before `- stuff: blah`
    let content = "# 2000-01-01\n\n- #Luc\u{ed}a:\n\t- stuff: blah\n";

    let expected = Log {
        days: vec![Day {
            date: d("2000-01-01"),
            entries: vec![Entry {
                main: owned(&["Luc\u{ed}a"]),
                related: owned(&["Luc\u{ed}a"]),
                content: "- #Luc\u{ed}a:\n  - stuff: blah".to_string(),
            }],
        }],
    };

    assert_eq!(parse_log_file_content(content).unwrap(), expected);
}

#[test]
fn test_display_log() {
    let content = "# 2000-01-01\n\n- #JohnDoe :\n  - stuff: blah\n\n# 2000-01-02\n\n- #JohnDoe :\n  - stuff: blah\n  - other: bleh #Bleh\n- #JaneDoe, #Abu :\n  - meet at foo\n    - nested stuff\n";

    let log = parse_log_file_content(content).unwrap();
    let formatted = log.render();
    println!("\n{content:#?}");
    println!("\n{formatted:#?}");

    assert_eq!(formatted, content);
}

#[test]
fn test_record_before_any_date_is_a_structural_error() {
    let content = "- #JohnDoe :\n  - stuff: blah\n";
    assert_eq!(
        parse_log_file_content(content),
        Err(ParseError::RecordBeforeDate)
    );
}

#[test]
fn test_heading_that_is_not_a_date_stays_content() {
    let content = "# 2000-01-01\n\n# not a date\n  - stuff: blah\n";
    let log = parse_log_file_content(content).unwrap();
    assert_eq!(log.days.len(), 1);
    assert_eq!(log.days[0].entries.len(), 1);
    assert_eq!(
        log.days[0].entries[0].content,
        "# not a date\n  - stuff: blah"
    );
}

#[test]
fn test_empty_content_parses_to_empty_log() {
    let log = parse_log_file_content("").unwrap();
    assert_eq!(log, Log { days: vec![] });
}

#[test]
fn test_duplicate_mentions_collapse() {
    let content = "# 2000-01-01\n\n- #Abu and #Abu again\n";
    let log = parse_log_file_content(content).unwrap();
    assert_eq!(log.days[0].entries[0].main, owned(&["Abu"]));
    assert_eq!(log.days[0].entries[0].related, owned(&["Abu"]));
}

#[test]
fn test_main_is_contained_in_related() {
    let content = "# 2000-01-01\n\n- #JohnDoe with #JaneDoe :\n  - met #Abu\n";
    let log = parse_log_file_content(content).unwrap();
    let entry = &log.days[0].entries[0];
    for name in &entry.main {
        assert!(entry.related.contains(name));
    }
    assert_eq!(entry.related, owned(&["JohnDoe", "JaneDoe", "Abu"]));
}

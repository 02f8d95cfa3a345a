use people::config::Config;
use people::summary::{discard_ignored, Spacer};
use people::use_cases::{current_date, LastInteraction};
use people::Date;

fn d(s: &str) -> Date {
    Date::parse(s).expect("valid date")
}

#[test]
fn test_date_parse_accepts_only_calendar_dates() {
    assert_eq!(
        Date::parse("2000-02-29"),
        Some(Date {
            year: 2000,
            month: 2,
            day: 29
        })
    );
    assert_eq!(Date::parse("2001-02-29"), None);
    assert_eq!(Date::parse("2000-13-01"), None);
    assert_eq!(Date::parse("2000-00-10"), None);
    assert_eq!(Date::parse("2000-1-1"), None);
    assert_eq!(Date::parse("2000-01-01 "), None);
    assert_eq!(Date::parse("not-a-date"), None);
}

#[test]
fn test_date_to_text_round_trip() {
    let date = d("1987-06-05");
    assert_eq!(date.to_text(), "1987-06-05");
    assert_eq!(Date::parse(&date.to_text()), Some(date));
}

#[test]
fn test_day_numbers_count_days() {
    let jan1 = d("2000-01-01");
    let apr10 = d("2000-04-10");
    // 2000 is a leap year: 31 + 29 + 31 + 9 days lie between
    assert_eq!(apr10.to_day_number() - jan1.to_day_number(), 100);
}

#[test]
fn test_ago_counts_days_between_dates() {
    let li = LastInteraction {
        person: "JohnDoe".to_string(),
        last: d("2000-01-01"),
        days_beyond_reachout_threshold: None,
    };
    assert_eq!(li.ago(d("2000-01-11")), 10);
}

#[test]
fn test_current_date_is_well_formed() {
    let today = current_date();
    assert!(1 <= today.month && today.month <= 12);
    assert!(1 <= today.day && today.day <= 31);
}

#[test]
fn test_get_per_person_dir() {
    let config = Config {
        people_dir: "~/people".to_string(),
        ignore: vec![],
        people: vec![],
    };
    assert_eq!(config.get_per_person_dir(), "~/people/per-person-logs");
}

#[test]
fn test_discard_ignored_drops_ignored_persons() {
    let config = Config {
        people_dir: "~/people".to_string(),
        ignore: vec!["JaneDoe".to_string()],
        people: vec![],
    };
    let interactions = vec![
        LastInteraction {
            person: "JohnDoe".to_string(),
            last: d("2000-01-01"),
            days_beyond_reachout_threshold: None,
        },
        LastInteraction {
            person: "JaneDoe".to_string(),
            last: d("2000-01-02"),
            days_beyond_reachout_threshold: None,
        },
    ];
    let kept = discard_ignored(interactions, &config);
    assert_eq!(kept.len(), 1);
    assert_eq!(kept[0].person, "JohnDoe");
}

#[test]
fn test_spacer_shows_one_space_per_boundary() {
    let mut spacer = Spacer::new(vec![7, 14, 28]);
    assert!(!spacer.should_show_space(3));
    assert!(spacer.should_show_space(8));
    assert!(!spacer.should_show_space(9));
    assert!(spacer.should_show_space(30));
    assert!(spacer.should_show_space(40));
    assert!(!spacer.should_show_space(100));
}

#[test]
fn test_spacer_without_boundaries_never_spaces() {
    let mut spacer = Spacer::new(vec![]);
    assert!(!spacer.should_show_space(1000));
}

use people::config::{Config, Person};
use people::log::{parse_log_file_content, Log};
use people::use_cases::{
    get_last_interactions, identify_reachouts_at, infer_log_path, merge_logs, parse_duration_text,
    parse_logs, split_log_per_person, DurationError, LastInteraction, PersonLog,
};
use people::Date;

fn d(s: &str) -> Date {
    Date::parse(s).expect("valid date")
}

fn sort_to_compare(summary: Vec<LastInteraction>) -> Vec<LastInteraction> {
    let mut copy = summary.clone();
    copy.sort_by_key(|interaction| {
        (
            (
                interaction.last.year,
                interaction.last.month,
                interaction.last.day,
            ),
            interaction.person.clone(),
        )
    });
    copy
}

fn config_with(ignore: &[&str], people: Vec<Person>) -> Config {
    Config {
        people_dir: "~/people".to_string(),
        ignore: ignore.iter().map(|s| s.to_string()).collect(),
        people,
    }
}

#[test]
fn test_get_last_interactions() {
    let log = parse_log_file_content(
        "# 2000-01-01\n\n- #JohnDoe :\n  - stuff: blah\n\n# 2000-01-02\n\n- #JohnDoe :\n  - stuff: blah\n  - other: bleh #Bleh\n- #JaneDoe, #Abu :\n  - meet at foo\n    - nested stuff\n",
    )
    .unwrap();

    let summary = get_last_interactions(&log);

    let expected = vec![
        LastInteraction {
            person: "JohnDoe".to_string(),
            last: d("2000-01-02"),
            days_beyond_reachout_threshold: None,
        },
        LastInteraction {
            person: "JaneDoe".to_string(),
            last: d("2000-01-02"),
            days_beyond_reachout_threshold: None,
        },
        LastInteraction {
            person: "Abu".to_string(),
            last: d("2000-01-02"),
            days_beyond_reachout_threshold: None,
        },
    ];

    assert_eq!(sort_to_compare(summary), sort_to_compare(expected));
}

#[test]
fn test_only_main_mentions_count_as_interactions() {
    let log = parse_log_file_content("# 2000-01-01\n\n- #JohnDoe :\n  - met #Bleh\n").unwrap();
    let summary = get_last_interactions(&log);
    assert_eq!(summary.len(), 1);
    assert_eq!(summary[0].person, "JohnDoe");
    assert_eq!(summary[0].last, d("2000-01-01"));
}

#[test]
fn test_parse_duration_text_units() {
    assert_eq!(parse_duration_text("3 months"), Ok(90));
    assert_eq!(parse_duration_text("1 month"), Ok(30));
    assert_eq!(parse_duration_text("2 weeks"), Ok(14));
    assert_eq!(parse_duration_text("1 week"), Ok(7));
    assert_eq!(parse_duration_text("5 days"), Ok(5));
    assert_eq!(parse_duration_text("1 day"), Ok(1));
}

#[test]
fn test_parse_duration_text_errors() {
    assert_eq!(parse_duration_text(""), Err(DurationError::MissingAmount));
    assert_eq!(
        parse_duration_text("soon months"),
        Err(DurationError::BadAmount)
    );
    assert_eq!(parse_duration_text("3"), Err(DurationError::MissingUnit));
    assert_eq!(
        parse_duration_text("3 fortnights"),
        Err(DurationError::BadUnit)
    );
}

#[test]
fn test_reminder_threshold_ten_days_overdue() {
    // last interaction 2000-01-01, "3 months" = 90 days, so the
    // threshold is 2000-03-31; on 2000-04-10 the reachout is 10 days
    // overdue
    let li = LastInteraction {
        person: "FooBar".to_string(),
        last: d("2000-01-01"),
        days_beyond_reachout_threshold: None,
    };
    let days = parse_duration_text("3 months").unwrap();
    let assessed = li.assess_reminder_at(days, d("2000-04-10"));
    assert_eq!(assessed.days_beyond_reachout_threshold, Some(10));

    let not_due = li.assess_reminder_at(days, d("2000-03-31"));
    assert_eq!(not_due.days_beyond_reachout_threshold, None);
}

#[test]
fn test_identify_reachouts_at_assesses_configured_people() {
    let log = parse_log_file_content("# 2000-01-01\n\n- #FooBar :\n- #JohnDoe :\n").unwrap();
    let summary = get_last_interactions(&log);
    let config = config_with(
        &[],
        vec![Person {
            name: "FooBar".to_string(),
            location: "Here".to_string(),
            themes: vec!["painting".to_string(), "uni".to_string()],
            remind_after: Some("3 months".to_string()),
        }],
    );
    let assessed = identify_reachouts_at(summary, &config, d("2000-04-10")).unwrap();
    let foobar = assessed.iter().find(|i| i.person == "FooBar").unwrap();
    assert_eq!(foobar.days_beyond_reachout_threshold, Some(10));
    let johndoe = assessed.iter().find(|i| i.person == "JohnDoe").unwrap();
    assert_eq!(johndoe.days_beyond_reachout_threshold, None);
}

#[test]
fn test_identify_reachouts_at_surfaces_bad_durations() {
    let config = config_with(
        &[],
        vec![Person {
            name: "FooBar".to_string(),
            location: "Here".to_string(),
            themes: vec![],
            remind_after: Some("3 fortnights".to_string()),
        }],
    );
    assert_eq!(
        identify_reachouts_at(vec![], &config, d("2000-04-10")),
        Err(DurationError::BadUnit)
    );
}

#[test]
fn test_merge_logs_concatenates_shared_dates() {
    let previous = parse_log_file_content("# 2000-01-01\n\n- first\n").unwrap();
    let new = parse_log_file_content("# 2000-01-01\n\n- second\n").unwrap();
    let merged = merge_logs(previous, new);
    assert_eq!(merged.days.len(), 1);
    assert_eq!(merged.days[0].date, d("2000-01-01"));
    let contents: Vec<&str> = merged.days[0]
        .entries
        .iter()
        .map(|e| e.content.as_str())
        .collect();
    assert_eq!(contents, vec!["- first", "- second"]);
}

#[test]
fn test_merge_logs_sorts_disjoint_dates() {
    let previous = parse_log_file_content("# 2000-01-03\n\n- later\n").unwrap();
    let new = parse_log_file_content("# 2000-01-02\n\n- earlier\n").unwrap();
    let merged = merge_logs(previous, new);
    let dates: Vec<Date> = merged.days.iter().map(|day| day.date).collect();
    assert_eq!(dates, vec![d("2000-01-02"), d("2000-01-03")]);
}

#[test]
fn test_merge_logs_with_empty_log_is_identity() {
    let log = parse_log_file_content("# 2000-01-01\n\n- something\n").unwrap();
    let copy = parse_log_file_content("# 2000-01-01\n\n- something\n").unwrap();
    let merged = merge_logs(log, Log { days: vec![] });
    assert_eq!(merged, copy);
}

#[test]
fn test_merge_is_associative_by_date() {
    let a = "# 2000-01-01\n\n- alpha\n";
    let b = "# 2000-01-01\n\n- beta\n\n# 2000-01-02\n\n- gamma\n";
    let c = "# 2000-01-02\n\n- delta\n";
    let parse = |s: &str| parse_log_file_content(s).unwrap();
    let left = merge_logs(merge_logs(parse(a), parse(b)), parse(c));
    let right = merge_logs(parse(a), merge_logs(parse(b), parse(c)));
    assert_eq!(left, right);
}

#[test]
fn test_parse_logs_merges_files_in_order() {
    let contents = vec![
        "# 2000-01-02\n\n- from the first file\n".to_string(),
        "# 2000-01-01\n\n- older day\n\n# 2000-01-02\n\n- from the second file\n".to_string(),
    ];
    let log = parse_logs(&contents).unwrap();
    let dates: Vec<Date> = log.days.iter().map(|day| day.date).collect();
    assert_eq!(dates, vec![d("2000-01-01"), d("2000-01-02")]);
    let contents_jan2: Vec<&str> = log.days[1]
        .entries
        .iter()
        .map(|e| e.content.as_str())
        .collect();
    assert_eq!(
        contents_jan2,
        vec!["- from the first file", "- from the second file"]
    );
}

#[test]
fn test_split_log_per_person_projects_and_ignores() {
    let log = parse_log_file_content(
        "# 2000-01-01\n\n- #JohnDoe :\n  - stuff: blah\n\n# 2000-01-02\n\n- #JohnDoe :\n  - stuff: blah\n  - other: bleh #Bleh\n- #JaneDoe, #Abu :\n  - meet at foo\n    - nested stuff\n",
    )
    .unwrap();
    let config = config_with(&["JaneDoe"], vec![]);

    let per_person: Vec<PersonLog> = split_log_per_person(log, &config);

    let find = |name: &str| per_person.iter().find(|pl| pl.person == name).unwrap();

    // the ignored person always gets the deletion marker, even though
    // she is mentioned in an entry
    assert_eq!(find("JaneDoe").log, None);

    let john = find("JohnDoe").log.as_ref().unwrap();
    assert_eq!(john.days.len(), 2);
    assert_eq!(john.days[0].date, d("2000-01-01"));
    assert_eq!(john.days[1].date, d("2000-01-02"));
    assert_eq!(john.days[1].entries.len(), 1);

    let bleh = find("Bleh").log.as_ref().unwrap();
    assert_eq!(bleh.days.len(), 1);
    assert_eq!(bleh.days[0].date, d("2000-01-02"));
    assert_eq!(
        bleh.days[0].entries[0].content,
        "- #JohnDoe :\n  - stuff: blah\n  - other: bleh #Bleh"
    );

    let abu = find("Abu").log.as_ref().unwrap();
    assert_eq!(abu.days.len(), 1);
    assert_eq!(
        abu.days[0].entries[0].content,
        "- #JaneDoe, #Abu :\n  - meet at foo\n    - nested stuff"
    );
}

#[test]
fn test_infer_log_path() {
    assert_eq!(
        infer_log_path("JohnDoe", "/tmp/people/per-person-logs"),
        "/tmp/people/per-person-logs/JohnDoe.md"
    );
}

use birthday_reminders::date::Date;
use birthday_reminders::evaluate::{evaluate, BirthdayEntry, EvaluatedBirthday};
use birthday_reminders::loader::{load, parse_date};
use birthday_reminders::present::{build_message, format_date};

fn date(year: i32, month: u32, day: u32) -> Date {
    Date { year, month, day }
}

fn entry(name: &str, year: i32, month: u32, day: u32) -> BirthdayEntry {
    BirthdayEntry { name: name.to_string(), birth_date: date(year, month, day) }
}

#[test]
fn load_preserves_valid_rows_in_order() {
    let (entries, skipped) = load("Alice;15.03.1990\nBob;01.01.2000\n");
    assert_eq!(entries.len(), 2);
    assert_eq!(skipped.len(), 0);
    assert_eq!(entries[0].name, "Alice");
    assert_eq!(entries[0].birth_date, date(1990, 3, 15));
    assert_eq!(entries[1].name, "Bob");
    assert_eq!(entries[1].birth_date, date(2000, 1, 1));
}

#[test]
fn load_skips_bad_date_with_diagnostic() {
    let (entries, skipped) = load("Dave;31/02/2000\nEve;05.05.1999\n");
    assert_eq!(entries.len(), 1);
    assert_eq!(entries[0].name, "Eve");
    assert_eq!(skipped.len(), 1);
    assert_eq!(skipped[0].name, "Dave");
    assert_eq!(skipped[0].date_text, "31/02/2000");
}

#[test]
fn load_skips_short_rows_silently() {
    let (entries, skipped) = load("justonename\n\nAlice;15.03.1990\n");
    assert_eq!(entries.len(), 1);
    assert_eq!(entries[0].name, "Alice");
    assert_eq!(skipped.len(), 0);
}

#[test]
fn load_accepts_empty_text() {
    let (entries, skipped) = load("");
    assert_eq!(entries.len(), 0);
    assert_eq!(skipped.len(), 0);
}

#[test]
fn load_handles_crlf_and_extra_fields() {
    let (entries, skipped) = load("Alice;15.03.1990;extra\r\nBob;01.01.2000");
    assert_eq!(entries.len(), 2);
    assert_eq!(entries[0].name, "Alice");
    assert_eq!(entries[1].name, "Bob");
    assert_eq!(skipped.len(), 0);
}

#[test]
fn parse_date_fixed_pattern() {
    assert_eq!(parse_date("15.03.1990"), Some(date(1990, 3, 15)));
    assert_eq!(parse_date("29.02.2000"), Some(date(2000, 2, 29)));
    assert_eq!(parse_date("29.02.2001"), None);
    assert_eq!(parse_date("31.04.2000"), None);
    assert_eq!(parse_date("1.3.1990"), None);
    assert_eq!(parse_date("15.03.90"), None);
    assert_eq!(parse_date("aa.bb.cccc"), None);
    assert_eq!(parse_date("00.01.2000"), None);
    assert_eq!(parse_date("01.13.2000"), None);
}

#[test]
fn scenario_upcoming_birthday() {
    let (entries, _) = load("Alice;15.03.1990\nBob;01.01.2000\n");
    let today = date(2024, 3, 10);
    let results = evaluate(&entries, today, 30, 5);
    assert_eq!(results.len(), 1);
    assert_eq!(results[0].name, "Alice");
    assert_eq!(results[0].occurrence_date, date(2024, 3, 15));
    assert_eq!(results[0].days_offset, 5);
    let message = build_message(&results);
    assert_eq!(message, "Birthdays:\n\nAlice: 15.03.2024 (in 5 days)\n\n");
}

#[test]
fn scenario_birthday_today() {
    let entries = vec![entry("Carol", 1985, 3, 10)];
    let today = date(2024, 3, 10);
    let results = evaluate(&entries, today, 30, 5);
    assert_eq!(results.len(), 1);
    assert_eq!(results[0].days_offset, 0);
    let message = build_message(&results);
    assert_eq!(message, "Birthdays:\n\nCarol: 10.03.2024 (TODAY - HAPPY BIRTHDAY!!!!)\n\n");
}

#[test]
fn scenario_nothing_in_window() {
    let entries = vec![entry("Bob", 2000, 1, 1)];
    let today = date(2024, 3, 10);
    let results = evaluate(&entries, today, 30, 5);
    assert!(results.is_empty());
}

#[test]
fn rollover_to_next_year() {
    let b = date(2000, 1, 1);
    let today = date(2024, 3, 10);
    assert_eq!(b.occurrence(today), date(2025, 1, 1));
    assert_eq!(b.days_offset(today), 297);
}

#[test]
fn leap_day_on_non_leap_year_celebrated_feb_28() {
    let b = date(2000, 2, 29);
    let today = date(2023, 2, 20);
    assert_eq!(b.occurrence(today), date(2023, 2, 28));
    assert_eq!(b.days_offset(today), 8);
}

#[test]
fn leap_day_on_leap_year_kept() {
    let b = date(2000, 2, 29);
    let today = date(2024, 2, 20);
    assert_eq!(b.occurrence(today), date(2024, 2, 29));
    assert_eq!(b.days_offset(today), 9);
}

#[test]
fn window_boundary_inclusive_and_one_past_excluded() {
    // Offset is exactly 30 days from today.
    let entries = vec![entry("Frank", 1990, 4, 9)];
    let today = date(2024, 3, 10);
    assert_eq!(entries[0].birth_date.days_offset(today), 30);
    assert_eq!(evaluate(&entries, today, 30, 5).len(), 1);
    assert_eq!(evaluate(&entries, today, 29, 5).len(), 0);
}

#[test]
fn window_zero_offset_included_with_empty_window() {
    let entries = vec![entry("Grace", 1990, 3, 10)];
    let today = date(2024, 3, 10);
    assert_eq!(evaluate(&entries, today, 0, 0).len(), 1);
}

#[test]
fn results_sorted_today_first_then_upcoming_ascending() {
    let entries = vec![
        entry("Far", 1990, 3, 20),
        entry("Today", 1990, 3, 10),
        entry("Near", 1990, 3, 13),
    ];
    let today = date(2024, 3, 10);
    let results = evaluate(&entries, today, 30, 5);
    let names: Vec<&str> = results.iter().map(|r| r.name.as_str()).collect();
    assert_eq!(names, vec!["Today", "Near", "Far"]);
    let offsets: Vec<i64> = results.iter().map(|r| r.days_offset).collect();
    assert_eq!(offsets, vec![0, 3, 10]);
}

#[test]
fn sort_is_stable_for_equal_offsets() {
    let entries = vec![
        entry("First", 1980, 3, 15),
        entry("Second", 1975, 3, 15),
    ];
    let today = date(2024, 3, 10);
    let results = evaluate(&entries, today, 30, 5);
    assert_eq!(results.len(), 2);
    assert_eq!(results[0].name, "First");
    assert_eq!(results[1].name, "Second");
}

#[test]
fn evaluate_twice_gives_identical_output() {
    let (entries, _) = load("Alice;15.03.1990\nCarol;10.03.1985\nBob;01.01.2000\n");
    let today = date(2024, 3, 10);
    let first = evaluate(&entries, today, 30, 5);
    let second = evaluate(&entries, today, 30, 5);
    assert_eq!(first, second);
}

#[test]
fn message_for_past_offset_built_directly() {
    let results = vec![EvaluatedBirthday {
        name: "Heidi".to_string(),
        birth_date: date(1990, 3, 7),
        occurrence_date: date(2024, 3, 7),
        days_offset: -3,
    }];
    let message = build_message(&results);
    assert_eq!(
        message,
        "Birthdays:\n\nHeidi: 07.03.2024 (3 days ago - Birthday is in the past)\n\n"
    );
}

#[test]
fn message_lists_results_in_order() {
    let results = vec![
        EvaluatedBirthday {
            name: "A".to_string(),
            birth_date: date(1990, 3, 10),
            occurrence_date: date(2024, 3, 10),
            days_offset: 0,
        },
        EvaluatedBirthday {
            name: "B".to_string(),
            birth_date: date(1990, 3, 12),
            occurrence_date: date(2024, 3, 12),
            days_offset: 2,
        },
    ];
    let message = build_message(&results);
    assert_eq!(
        message,
        "Birthdays:\n\nA: 10.03.2024 (TODAY - HAPPY BIRTHDAY!!!!)\n\nB: 12.03.2024 (in 2 days)\n\n"
    );
}

#[test]
fn date_formatting_pads_day_month_and_year() {
    assert_eq!(format_date(date(800, 6, 5)), "05.06.0800");
    assert_eq!(format_date(date(2024, 12, 31)), "31.12.2024");
    assert_eq!(format_date(date(5, 1, 1)), "01.01.0005");
}

#[test]
fn message_for_no_results_is_heading_only() {
    // The caller shows no dialog at all for an empty result set; the
    // builder itself yields just the heading.
    let message = build_message(&Vec::new());
    assert_eq!(message, "Birthdays:\n\n");
}

#[test]
fn leap_year_rule() {
    assert!(Date::is_leap_year(2000));
    assert!(Date::is_leap_year(2024));
    assert!(!Date::is_leap_year(1900));
    assert!(!Date::is_leap_year(2023));
}

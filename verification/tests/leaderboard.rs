use tui_mines::leaderboard::{reading_seconds, Leaderboard, Score, MAX_SCORES, STAMP_FIRST, STAMP_LAST};
use chrono::{DateTime, TimeDelta};

fn score(date: &str, seconds: u64) -> Score {
    Score { date: date.to_string(), seconds, difficulty: "10x10".to_string() }
}

fn seconds(l: &Leaderboard) -> Vec<u64> {
    l.scores.iter().map(|s| s.seconds).collect()
}

fn dates(l: &Leaderboard) -> Vec<String> {
    l.scores.iter().map(|s| s.date.clone()).collect()
}

#[test]
fn first_score_enters_an_empty_table() {
    let mut l = Leaderboard { scores: Vec::new() };
    l.record_score("2026-04-10 14:30".to_string(), 45, "10x10".to_string());
    assert_eq!(l.scores.len(), 1);
    assert_eq!(l.scores[0].date, "2026-04-10 14:30");
    assert_eq!(l.scores[0].seconds, 45);
    assert_eq!(l.scores[0].difficulty, "10x10");
}

#[test]
fn scores_are_ranked_fastest_first() {
    let mut l = Leaderboard { scores: vec![score("a", 30), score("b", 10)] };
    l.record_score("c".to_string(), 20, "16x16".to_string());
    assert_eq!(seconds(&l), vec![10, 20, 30]);
    assert_eq!(dates(&l), vec!["b", "c", "a"]);
    assert_eq!(l.scores[1].difficulty, "16x16");
}

#[test]
fn equal_times_keep_their_order() {
    let mut l = Leaderboard { scores: vec![score("a", 5), score("b", 5)] };
    l.record_score("c".to_string(), 5, "x".to_string());
    assert_eq!(dates(&l), vec!["a", "b", "c"]);
}

#[test]
fn an_unsorted_table_is_sorted_on_entry() {
    let mut l = Leaderboard { scores: vec![score("a", 9), score("b", 3), score("c", 9), score("d", 1)] };
    l.record_score("e".to_string(), 4, "x".to_string());
    assert_eq!(seconds(&l), vec![1, 3, 4, 9, 9]);
    assert_eq!(dates(&l), vec!["d", "b", "e", "a", "c"]);
}

#[test]
fn only_the_ten_fastest_stay() {
    let mut l = Leaderboard { scores: Vec::new() };
    for i in 0..10u64 {
        l.record_score(format!("d{}", i), 100 + i, "x".to_string());
    }
    assert_eq!(l.scores.len(), MAX_SCORES);
    l.record_score("slow".to_string(), 500, "x".to_string());
    assert_eq!(l.scores.len(), 10);
    assert!(l.scores.iter().all(|s| s.date != "slow"));
    l.record_score("fast".to_string(), 1, "x".to_string());
    assert_eq!(l.scores.len(), 10);
    assert_eq!(l.scores[0].date, "fast");
    assert_eq!(l.scores[9].seconds, 108);
}

#[test]
fn a_tie_with_the_slowest_kept_stays_out() {
    let mut l = Leaderboard { scores: (0..10u64).map(|i| score(&format!("d{}", i), 10 + i)).collect() };
    l.record_score("tie".to_string(), 19, "x".to_string());
    assert_eq!(l.scores[9].date, "d9");
}

#[test]
fn add_score_dates_the_entry() {
    let mut l = Leaderboard { scores: vec![score("old", 50)] };
    l.add_score(12, "16x16".to_string());
    assert_eq!(seconds(&l), vec![12, 50]);
    assert_eq!(l.scores[0].difficulty, "16x16");
    // The stamp reads "%Y-%m-%d %H:%M".
    let date = &l.scores[0].date;
    assert_eq!(date.len(), 16);
    assert_eq!(&date[4..5], "-");
    assert_eq!(&date[10..11], " ");
    assert_eq!(&date[13..14], ":");
}

#[test]
fn the_default_table_is_empty() {
    let l = Leaderboard::default();
    assert!(l.scores.is_empty());
}

#[test]
fn clock_readings_to_whole_seconds() {
    assert_eq!(reading_seconds(false, 1_700_000_000, 5), Some(1_700_000_000));
    assert_eq!(reading_seconds(false, 0, 999_999_999), Some(0));
    assert_eq!(reading_seconds(true, 60, 0), Some(-60));
    assert_eq!(reading_seconds(true, 60, 1), Some(-61));
    assert_eq!(reading_seconds(true, 0, 500), Some(-1));
    assert_eq!(reading_seconds(false, STAMP_LAST as u64, 999_999_999), Some(STAMP_LAST));
    assert_eq!(reading_seconds(false, STAMP_LAST as u64 + 1, 0), None);
    assert_eq!(reading_seconds(true, STAMP_FIRST.unsigned_abs(), 0), Some(STAMP_FIRST));
    assert_eq!(reading_seconds(true, STAMP_FIRST.unsigned_abs() - 1, 1), Some(STAMP_FIRST));
    assert_eq!(reading_seconds(true, STAMP_FIRST.unsigned_abs(), 1), None);
    assert_eq!(reading_seconds(true, STAMP_FIRST.unsigned_abs() + 1, 0), None);
    assert_eq!(reading_seconds(true, u64::MAX, 0), None);
}

#[test]
fn a_new_score_is_dated_to_the_minute() {
    let mut l = Leaderboard { scores: Vec::new() };
    l.add_score(12, "9x9".to_string());
    assert_eq!(l.scores.len(), 1);
    assert_eq!(l.scores[0].seconds, 12);
    assert_eq!(l.scores[0].difficulty, "9x9");
    let date: Vec<char> = l.scores[0].date.chars().collect();
    assert_eq!(date.len(), 16);
    for (i, c) in date.iter().enumerate() {
        match i {
            4 | 7 => assert_eq!(*c, '-'),
            10 => assert_eq!(*c, ' '),
            13 => assert_eq!(*c, ':'),
            _ => assert!(c.is_ascii_digit()),
        }
    }
}

#[test]
fn the_datable_seconds_are_chronos_own() {
    assert!(DateTime::from_timestamp(STAMP_LAST, 999_999_999).is_some());
    assert!(DateTime::from_timestamp(STAMP_LAST + 1, 0).is_none());
    assert!(DateTime::from_timestamp(STAMP_FIRST, 0).is_some());
    assert!(DateTime::from_timestamp(STAMP_FIRST - 1, 999_999_999).is_none());
    assert!(DateTime::UNIX_EPOCH.checked_add_signed(TimeDelta::seconds(STAMP_LAST)).is_some());
    assert!(DateTime::UNIX_EPOCH.checked_add_signed(TimeDelta::seconds(STAMP_FIRST)).is_some());
    assert_eq!(DateTime::<chrono::Utc>::MAX_UTC.timestamp(), STAMP_LAST);
    assert_eq!(DateTime::<chrono::Utc>::MIN_UTC.timestamp(), STAMP_FIRST);
}

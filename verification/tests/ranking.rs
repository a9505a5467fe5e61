use snek::highscores::{
    beats_exec, best, best_index, date_after_exec, top_n, HighScore, ScoreDate,
};

fn record(name: &str, year: u32, month: u32, day: u32, points: u64, seconds: u64) -> HighScore {
    HighScore {
        name: String::from(name),
        date: ScoreDate { year, month, day },
        points,
        seconds,
    }
}

#[test]
fn test_best_highest_points_wins() {
    let records = vec![
        record("AAA", 2020, 1, 1, 100, 50),
        record("BBB", 2021, 1, 1, 100, 30),
        record("CCC", 2021, 6, 1, 150, 40),
    ];
    let winner = best(&records).unwrap();
    assert_eq!(winner.name, "CCC");
    assert_eq!(winner.points, 150);
}

#[test]
fn test_best_tied_points_lower_time_wins() {
    let records = vec![
        record("AAA", 2020, 1, 1, 100, 50),
        record("BBB", 2021, 1, 1, 100, 30),
    ];
    let winner = best(&records).unwrap();
    assert_eq!(winner.name, "BBB");
}

#[test]
fn test_best_triple_tie_most_recent_date_wins() {
    let records = vec![
        record("AAA", 2020, 1, 1, 100, 50),
        record("BBB", 2020, 6, 1, 100, 50),
    ];
    let winner = best(&records).unwrap();
    assert_eq!(winner.name, "BBB");
}

#[test]
fn test_best_full_tie_keeps_first_encountered() {
    let records = vec![
        record("AAA", 2020, 1, 1, 100, 50),
        record("BBB", 2020, 1, 1, 100, 50),
    ];
    let winner = best(&records).unwrap();
    assert_eq!(winner.name, "AAA");
}

#[test]
fn test_best_of_nothing_is_none() {
    let records: Vec<HighScore> = Vec::new();
    assert!(best(&records).is_none());
    assert!(best_index(&records).is_none());
}

#[test]
fn test_best_index_points_at_winner() {
    let records = vec![
        record("AAA", 2020, 1, 1, 100, 50),
        record("BBB", 2021, 1, 1, 100, 30),
        record("CCC", 2021, 6, 1, 150, 40),
    ];
    assert_eq!(best_index(&records), Some(2));
}

#[test]
fn test_top_n_sorts_best_to_worst() {
    let records = vec![
        record("AAA", 2020, 1, 1, 100, 50),
        record("BBB", 2021, 1, 1, 100, 30),
        record("CCC", 2021, 6, 1, 150, 40),
    ];
    let ranked = top_n(&records, 10);
    let names: Vec<&str> = ranked.iter().map(|r| r.name.as_str()).collect();
    assert_eq!(names, vec!["CCC", "BBB", "AAA"]);
}

#[test]
fn test_top_n_caps_the_count() {
    let records = vec![
        record("AAA", 2020, 1, 1, 100, 50),
        record("BBB", 2021, 1, 1, 100, 30),
        record("CCC", 2021, 6, 1, 150, 40),
    ];
    let ranked = top_n(&records, 2);
    let names: Vec<&str> = ranked.iter().map(|r| r.name.as_str()).collect();
    assert_eq!(names, vec!["CCC", "BBB"]);
    assert!(top_n(&records, 0).is_empty());
    let nothing: Vec<HighScore> = Vec::new();
    assert!(top_n(&nothing, 5).is_empty());
}

#[test]
fn test_top_n_keeps_full_ties_in_input_order() {
    let records = vec![
        record("AAA", 2020, 1, 1, 100, 50),
        record("BBB", 2020, 1, 1, 100, 50),
        record("CCC", 2020, 1, 1, 100, 50),
    ];
    let ranked = top_n(&records, 3);
    let names: Vec<&str> = ranked.iter().map(|r| r.name.as_str()).collect();
    assert_eq!(names, vec!["AAA", "BBB", "CCC"]);
}

#[test]
fn test_beats_cascade() {
    let more_points = record("AAA", 2020, 1, 1, 200, 90);
    let fewer_points = record("BBB", 2024, 1, 1, 100, 10);
    assert!(beats_exec(&more_points, &fewer_points));
    assert!(!beats_exec(&fewer_points, &more_points));

    let faster = record("CCC", 2020, 1, 1, 100, 10);
    let slower = record("DDD", 2024, 1, 1, 100, 20);
    assert!(beats_exec(&faster, &slower));
    assert!(!beats_exec(&slower, &faster));

    let newer = record("EEE", 2021, 2, 3, 100, 10);
    let older = record("FFF", 2021, 2, 2, 100, 10);
    assert!(beats_exec(&newer, &older));
    assert!(!beats_exec(&older, &newer));

    let tie = record("GGG", 2021, 2, 3, 100, 10);
    assert!(!beats_exec(&newer, &tie));
    assert!(!beats_exec(&tie, &newer));
}

#[test]
fn test_date_after() {
    let d = |year, month, day| ScoreDate { year, month, day };
    assert!(date_after_exec(&d(2021, 1, 1), &d(2020, 12, 31)));
    assert!(date_after_exec(&d(2020, 2, 1), &d(2020, 1, 31)));
    assert!(date_after_exec(&d(2020, 1, 2), &d(2020, 1, 1)));
    assert!(!date_after_exec(&d(2020, 1, 1), &d(2020, 1, 1)));
    assert!(!date_after_exec(&d(2019, 12, 31), &d(2020, 1, 1)));
}

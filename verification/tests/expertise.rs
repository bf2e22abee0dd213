use repo_insight::error::AnalysisError;
use repo_insight::vcs::file_history_arguments;
use repo_insight::who_knows::{analyze_file_expertise, rank_contributors, ContributorStats};

fn record(id: &str, author: &str, time: i64) -> String {
    format!("{}\t{}\t{}\n", id, author, time)
}

#[test]
fn commits_under_both_names_are_counted() {
    let mut history = String::new();
    history.push_str(&record("c5", "Ann", 500));
    history.push_str(&record("c4", "Ann", 400));
    history.push_str(&record("c3", "Ann", 300));
    history.push_str(&record("c2", "Ann", 200));
    history.push_str(&record("c1", "Ann", 100));
    let report = analyze_file_expertise(true, true, &history).unwrap();
    assert_eq!(report.len(), 1);
    assert_eq!(report[0].name, "Ann");
    assert_eq!(report[0].commit_count, 5);
    assert_eq!(report[0].first_commit, 100);
    assert_eq!(report[0].last_commit, 500);
}

#[test]
fn contributors_are_ranked_by_commits() {
    let mut history = String::new();
    history.push_str(&record("c6", "Cy", 600));
    history.push_str(&record("c5", "Bob", 500));
    history.push_str(&record("c4", "Ann", 400));
    history.push_str(&record("c3", "Bob", 300));
    history.push_str(&record("c2", "Dee", 200));
    history.push_str(&record("c1", "Bob", 100));
    history.push_str(&record("c0", "Ann", 50));
    let report = analyze_file_expertise(true, true, &history).unwrap();
    let shown: Vec<(&str, u64, i64, i64)> = report
        .iter()
        .map(|s| (s.name.as_str(), s.commit_count, s.first_commit, s.last_commit))
        .collect();
    assert_eq!(
        shown,
        vec![("Bob", 3, 100, 500), ("Ann", 2, 50, 400), ("Cy", 1, 600, 600), ("Dee", 1, 200, 200)]
    );
    for stats in &report {
        assert!(stats.first_commit <= stats.last_commit);
        assert!(stats.commit_count >= 1);
    }
    let again = analyze_file_expertise(true, true, &history).unwrap();
    assert_eq!(format!("{:?}", report), format!("{:?}", again));
}

#[test]
fn failures_come_in_order() {
    let history = record("c1", "Ann", 100);
    assert_eq!(
        analyze_file_expertise(false, false, &history).err(),
        Some(AnalysisError::PathNotFound)
    );
    assert_eq!(
        analyze_file_expertise(false, true, &history).err(),
        Some(AnalysisError::PathNotFound)
    );
    assert_eq!(
        analyze_file_expertise(true, false, &history).err(),
        Some(AnalysisError::NotUnderVersionControl)
    );
    assert_eq!(analyze_file_expertise(true, true, "").err(), Some(AnalysisError::NoHistory));
    assert_eq!(analyze_file_expertise(true, true, " \n\n").err(), Some(AnalysisError::NoHistory));
    assert_eq!(
        analyze_file_expertise(true, true, "no tabs here\n").err(),
        Some(AnalysisError::NoHistory)
    );
}

#[test]
fn blank_history_is_no_history_whatever_its_lines_hold() {
    assert_eq!(analyze_file_expertise(true, true, "\t\t").err(), Some(AnalysisError::NoHistory));
    assert_eq!(
        analyze_file_expertise(true, true, " \n\t\t\n  \t \t \n").err(),
        Some(AnalysisError::NoHistory)
    );
    assert_eq!(
        analyze_file_expertise(true, true, "c1\t\t").err(),
        Some(AnalysisError::MalformedTimestamp)
    );
}

#[test]
fn damaged_records_fail() {
    assert_eq!(
        analyze_file_expertise(true, true, "c1\tAnn\tyesterday\n").err(),
        Some(AnalysisError::MalformedTimestamp)
    );
    assert_eq!(
        analyze_file_expertise(true, true, "c1\tAnn\t 12\n").err(),
        Some(AnalysisError::MalformedTimestamp)
    );
    assert_eq!(
        analyze_file_expertise(true, true, "c1\tAnn\t9000000000000\n").err(),
        Some(AnalysisError::TimestampOutOfRange)
    );
    assert_eq!(
        analyze_file_expertise(true, true, "c2\tBob\t5\nc1\tAnn\t99999999999999999999\n").err(),
        Some(AnalysisError::MalformedTimestamp)
    );
    let skipped = analyze_file_expertise(true, true, "two\tfields\nc1\tAnn\t-7\n").unwrap();
    assert_eq!(skipped.len(), 1);
    assert_eq!(skipped[0].first_commit, -7);
}

#[test]
fn span_never_shrinks() {
    let mut stats = ContributorStats::new("Ann".to_string(), 1000);
    assert_eq!((stats.commit_count, stats.first_commit, stats.last_commit), (1, 1000, 1000));
    stats.update(500);
    assert_eq!((stats.commit_count, stats.first_commit, stats.last_commit), (2, 500, 1000));
    stats.update(700);
    assert_eq!((stats.commit_count, stats.first_commit, stats.last_commit), (3, 500, 1000));
    stats.update(2000);
    assert_eq!((stats.commit_count, stats.first_commit, stats.last_commit), (4, 500, 2000));
}

fn spanning(days: i64) -> ContributorStats {
    let mut stats = ContributorStats::new("Ann".to_string(), 86400 * 10);
    stats.update(86400 * (10 + days) + 86399);
    stats
}

#[test]
fn duration_is_told_in_years_months_or_days() {
    assert_eq!(ContributorStats::new("Ann".to_string(), 5).contribution_duration(), "0 days");
    assert_eq!(spanning(29).contribution_duration(), "29 days");
    assert_eq!(spanning(30).contribution_duration(), "1 months");
    assert_eq!(spanning(364).contribution_duration(), "12 months");
    assert_eq!(spanning(365).contribution_duration(), "1 years");
    assert_eq!(spanning(365 + 29).contribution_duration(), "1 years");
    assert_eq!(spanning(365 + 30).contribution_duration(), "1 years, 1 months");
    assert_eq!(spanning(3 * 365 + 75).contribution_duration(), "3 years, 2 months");
    let backwards =
        ContributorStats { name: "Ann".to_string(), commit_count: 2, first_commit: 86400 * 400, last_commit: 0 };
    assert_eq!(backwards.contribution_duration(), "-400 days");
}

#[test]
fn last_touch_is_told_in_buckets() {
    let day: i64 = 86400;
    let stats = ContributorStats::new("Ann".to_string(), 1000 * day);
    assert_eq!(stats.format_last_touched(1000 * day), "today");
    assert_eq!(stats.format_last_touched(1001 * day - 1), "today");
    assert_eq!(stats.format_last_touched(1001 * day), "1 days ago");
    assert_eq!(stats.format_last_touched(1006 * day), "6 days ago");
    assert_eq!(stats.format_last_touched(1007 * day), "1 weeks ago");
    assert_eq!(stats.format_last_touched(1029 * day), "4 weeks ago");
    assert_eq!(stats.format_last_touched(1030 * day), "1 months ago");
    assert_eq!(stats.format_last_touched(1364 * day), "12 months ago");
    assert_eq!(stats.format_last_touched(1365 * day), "1 years ago");
    assert_eq!(stats.format_last_touched(1000 * day + 800 * day), "2 years ago");
    assert_eq!(stats.format_last_touched(997 * day), "-3 days ago");
    assert_eq!(stats.format_last_touched(1000 * day - 1), "today");
}

#[test]
fn ranking_keeps_ties_in_order() {
    let make = |name: &str, count: u64| ContributorStats {
        name: name.to_string(),
        commit_count: count,
        first_commit: 0,
        last_commit: 0,
    };
    let ranked = rank_contributors(&vec![make("a", 1), make("b", 3), make("c", 1), make("d", 3)]);
    let names: Vec<&str> = ranked.iter().map(|s| s.name.as_str()).collect();
    assert_eq!(names, vec!["b", "d", "a", "c"]);
}

#[test]
fn history_of_a_file_follows_renames() {
    assert_eq!(
        file_history_arguments("src/lib.rs"),
        vec!["log", "--follow", "--format=%H%x09%an%x09%at", "--", "src/lib.rs"]
    );
}

use repo_insight::error::AnalysisError;
use repo_insight::history::parse_history;
use repo_insight::hotspots::{
    classify, listed_files, rank_hotspots, report_entries, FileHotspot, HotspotAnalyzer, Suggestion,
};
use repo_insight::source::{has_source_ending, is_source_file};
use repo_insight::vcs::{
    attribution_arguments, count_arguments, history_arguments, listing_arguments,
    parse_commit_count, tracking_arguments,
};

fn header(id: char, time: i64, author: &str) -> String {
    let hash: String = std::iter::repeat(id).take(40).collect();
    format!("{}\n{}\n{}\0\n\n", hash, time, author)
}

fn change(added: u32, deleted: u32, path: &str) -> String {
    format!("{}\t{}\t{}\n", added, deleted, path)
}

fn analyzer() -> HotspotAnalyzer {
    HotspotAnalyzer::new("/repo/", None)
}

#[test]
fn history_is_read_into_events() {
    let mut text = header('a', 1700000000, "Ann");
    text.push_str(&change(3, 1, "src/a.rs"));
    text.push_str(&change(0, 7, "b.txt"));
    text.push_str("\n");
    text.push_str(&header('b', 1600000000, "Bob"));
    text.push_str("-\t-\timage.png\n");
    let events = parse_history(&text).unwrap();
    assert_eq!(events.len(), 3);
    assert_eq!(events[0].commit_id, "a".repeat(40));
    assert_eq!(events[0].author, "Ann");
    assert_eq!(events[0].timestamp, 1700000000);
    assert_eq!(events[0].file_path, "src/a.rs");
    assert_eq!(events[0].lines_added, 3);
    assert_eq!(events[0].lines_deleted, 1);
    assert_eq!(events[1].file_path, "b.txt");
    assert_eq!(events[1].lines_deleted, 7);
    assert_eq!(events[2].commit_id, "b".repeat(40));
    assert_eq!(events[2].author, "Bob");
    assert_eq!(events[2].timestamp, 1600000000);
    assert_eq!(events[2].lines_added, 0);
    assert_eq!(events[2].lines_deleted, 0);
}

#[test]
fn lines_that_are_no_record_are_passed_over() {
    let mut text = header('a', 5, "Ann");
    text.push_str("1\t2\tpath with spaces.rs\n");
    text.push_str("just words\n");
    text.push_str("   \n");
    text.push_str(&change(1, 2, "kept.rs"));
    let events = parse_history(&text).unwrap();
    assert_eq!(events.len(), 1);
    assert_eq!(events[0].file_path, "kept.rs");
}

#[test]
fn empty_history_has_no_events() {
    assert!(parse_history("").unwrap().is_empty());
    assert!(parse_history("\n\n").unwrap().is_empty());
}

#[test]
fn malformed_timestamp_is_fatal() {
    let text = format!("{}\nsoon\nAnn\0\n\n1\t1\ta.rs\n", "a".repeat(40));
    assert_eq!(parse_history(&text).err(), Some(AnalysisError::MalformedTimestamp));
    let text = format!("{}\n\nAnn\0\n", "a".repeat(40));
    assert_eq!(parse_history(&text).err(), Some(AnalysisError::MalformedTimestamp));
}

#[test]
fn timestamp_must_be_a_date() {
    let at = |time: i64| parse_history(&header('a', time, "Ann")).map(|events| events.len());
    assert_eq!(at(8210266876799), Ok(0));
    assert_eq!(at(8210266876800).err(), Some(AnalysisError::TimestampOutOfRange));
    assert_eq!(at(-8334601228800), Ok(0));
    assert_eq!(at(-8334601228801).err(), Some(AnalysisError::TimestampOutOfRange));
    assert_eq!(at(i64::MAX).err(), Some(AnalysisError::TimestampOutOfRange));
    assert_eq!(at(i64::MIN).err(), Some(AnalysisError::TimestampOutOfRange));
    assert_eq!(at(0), Ok(0));
}

#[test]
fn truncated_header_is_fatal() {
    let text = format!("{}\n", "a".repeat(40));
    assert_eq!(parse_history(&text).err(), Some(AnalysisError::TruncatedHeader));
    let text = format!("{}\n12\n", "a".repeat(40));
    assert_eq!(parse_history(&text).err(), Some(AnalysisError::TruncatedHeader));
}

#[test]
fn busier_file_ranks_first() {
    let mut history = String::new();
    history.push_str(&header('a', 300, "Ann"));
    history.push_str(&change(1, 0, "a.txt"));
    history.push_str(&change(1, 0, "b.txt"));
    history.push_str(&header('b', 200, "Bob"));
    history.push_str(&change(2, 0, "a.txt"));
    history.push_str(&header('c', 100, "Ann"));
    history.push_str(&change(3, 0, "a.txt"));
    let report = analyzer().analyze("a.txt\nb.txt\n", &history).unwrap();
    assert_eq!(report.len(), 2);
    assert_eq!(report[0].path, "a.txt");
    assert_eq!(report[0].commit_count, 3);
    assert_eq!(report[0].contributor_count, 2);
    assert_eq!(report[0].contributors.len(), 2);
    assert_eq!(report[0].contributors.get("Ann"), 2);
    assert_eq!(report[0].contributors.get("Bob"), 1);
    assert_eq!(report[0].last_modified, 300);
    assert_eq!(report[1].path, "b.txt");
    assert_eq!(report[1].commit_count, 1);
    assert_eq!(report[1].contributor_count, 1);
    assert_eq!(report[1].last_modified, 300);
}

#[test]
fn deleted_file_is_not_reported() {
    let mut history = String::new();
    for i in 0..10 {
        history.push_str(&header('d', 1000 + i, "Ann"));
        history.push_str(&change(1, 1, "deleted.txt"));
    }
    history.push_str(&header('e', 5000, "Bob"));
    history.push_str(&change(1, 1, "kept.txt"));
    let report = analyzer().analyze("kept.txt\nother.txt\n", &history).unwrap();
    assert_eq!(report.len(), 1);
    assert_eq!(report[0].path, "kept.txt");
    assert!(report.iter().all(|spot| spot.path != "deleted.txt"));
}

#[test]
fn untracked_filter_gives_an_empty_report() {
    let damaged = format!("{}\nnot-a-number\n", "a".repeat(40));
    let filtered = HotspotAnalyzer::new("/repo/", Some("gone".to_string()));
    assert!(filtered.analyze("", &damaged).unwrap().is_empty());
    assert!(filtered.analyze("\n  \n", &damaged).unwrap().is_empty());
    assert_eq!(
        filtered.analyze("a.txt\n", &damaged).err(),
        Some(AnalysisError::MalformedTimestamp)
    );
}

#[test]
fn damaged_history_is_fatal_without_a_filter() {
    let damaged = format!("{}\nnot-a-number\n", "a".repeat(40));
    assert_eq!(analyzer().analyze("", &damaged).err(), Some(AnalysisError::MalformedTimestamp));
    assert_eq!(
        analyzer().analyze("\n  \n", &damaged).err(),
        Some(AnalysisError::MalformedTimestamp)
    );
    assert_eq!(
        analyzer().analyze("a.txt\n", &damaged).err(),
        Some(AnalysisError::MalformedTimestamp)
    );
    let sound = format!("{}1\t1\ta.txt\n", header('a', 7, "Ann"));
    assert!(analyzer().analyze("", &sound).unwrap().is_empty());
}

#[test]
fn change_record_of_forty_bytes_is_no_commit_id() {
    let long_path = "p".repeat(36);
    let record = format!("1\t1\t{}", long_path);
    assert_eq!(record.len(), 40);
    let mut history = header('a', 100, "Ann");
    history.push_str(&record);
    history.push_str("\n");
    history.push_str(&change(2, 0, "b.rs"));
    let events = parse_history(&history).unwrap();
    assert_eq!(events.len(), 2);
    assert_eq!(events[0].file_path, long_path);
    assert_eq!(events[1].file_path, "b.rs");
    assert_eq!(events[1].author, "Ann");
    let shouting = format!("{}\n12\nAnn\0\n", "A".repeat(40));
    assert!(parse_history(&shouting).unwrap().is_empty());
    let wide = format!("{}\n", "é".repeat(20));
    assert!(parse_history(&wide).unwrap().is_empty());
}

#[test]
fn files_with_equal_counts_keep_their_order() {
    let mut history = String::new();
    history.push_str(&header('a', 1, "Ann"));
    history.push_str(&change(1, 0, "z.rs"));
    history.push_str(&change(1, 0, "m.rs"));
    history.push_str(&change(1, 0, "a.rs"));
    history.push_str(&header('b', 2, "Ann"));
    history.push_str(&change(1, 0, "m.rs"));
    let report = analyzer().analyze("a.rs\nm.rs\nz.rs\n", &history).unwrap();
    let paths: Vec<&str> = report.iter().map(|spot| spot.path.as_str()).collect();
    assert_eq!(paths, vec!["m.rs", "z.rs", "a.rs"]);
}

#[test]
fn analysis_gives_the_same_hotspots_twice() {
    let mut history = String::new();
    history.push_str(&header('a', 10, "Ann"));
    history.push_str(&change(1, 0, "x.rs"));
    history.push_str(&change(1, 0, "y.rs"));
    history.push_str(&header('b', 20, "Bob"));
    history.push_str(&change(1, 0, "y.rs"));
    let show = |report: Vec<FileHotspot>| -> Vec<(String, usize, usize, i64)> {
        report
            .iter()
            .map(|s| (s.path.clone(), s.commit_count, s.contributor_count, s.last_modified))
            .collect()
    };
    let first = show(analyzer().analyze("x.rs\ny.rs\n", &history).unwrap());
    let second = show(analyzer().analyze("x.rs\ny.rs\n", &history).unwrap());
    assert_eq!(first, second);
    assert_eq!(first[0], ("y.rs".to_string(), 2, 2, 20));
}

#[test]
fn contributor_count_follows_every_commit() {
    let mut spot = FileHotspot::first("a.rs", "Ann", 50);
    assert_eq!((spot.commit_count, spot.contributor_count, spot.last_modified), (1, 1, 50));
    assert_eq!(spot.contributor_count, spot.contributors.len());
    spot.record("Bob", 40);
    assert_eq!((spot.commit_count, spot.contributor_count, spot.last_modified), (2, 2, 50));
    assert_eq!(spot.contributor_count, spot.contributors.len());
    spot.record("Ann", 60);
    assert_eq!((spot.commit_count, spot.contributor_count, spot.last_modified), (3, 2, 60));
    assert_eq!(spot.contributor_count, spot.contributors.len());
    assert_eq!(spot.contributors.get("Ann"), 2);
    assert_eq!(spot.contributors.name_at(1), "Bob");
}

#[test]
fn listing_names_each_path_once() {
    let listed = listed_files("src/a.rs\n\nsrc/b.rs\nsrc/a.rs\n   \n");
    assert_eq!(listed.len(), 2);
}

#[test]
fn suggestions_follow_the_counts() {
    assert_eq!(classify(21, 5), Some(Suggestion::RefactorCandidate));
    assert_eq!(classify(20, 5), Some(Suggestion::TechnicalDebtReview));
    assert_eq!(classify(21, 4), Some(Suggestion::TechnicalDebtReview));
    assert_eq!(classify(10, 7), Some(Suggestion::NeedsCodeOwner));
    assert_eq!(classify(16, 1), Some(Suggestion::TechnicalDebtReview));
    assert_eq!(classify(15, 6), None);
    assert_eq!(classify(0, 0), None);
}

#[test]
fn report_shows_the_first_ten() {
    let mut spots: Vec<FileHotspot> = Vec::new();
    for i in 0..12 {
        let mut spot = FileHotspot::first(&format!("f{}.rs", i), "Ann", 1);
        for _ in 0..(30 - i) {
            spot.record("Ann", 2);
        }
        spots.push(spot);
    }
    let ranked = rank_hotspots(&spots);
    let entries = report_entries(&ranked);
    assert_eq!(entries.len(), 10);
    assert_eq!(entries[0].position, 1);
    assert_eq!(entries[0].path, "f0.rs");
    assert_eq!(entries[0].commit_count, 31);
    assert_eq!(entries[0].contributor_count, 1);
    assert_eq!(entries[0].suggestion, Some(Suggestion::TechnicalDebtReview));
    assert_eq!(entries[9].position, 10);
    assert_eq!(entries[9].path, "f9.rs");
    assert_eq!(report_entries(&Vec::new()).len(), 0);
}

#[test]
fn filter_is_normalized_against_the_root() {
    let relative = HotspotAnalyzer::new("/repo/", Some("src\\core".to_string()));
    assert_eq!(relative.effective_path_filter("/repo"), Some("src/core".to_string()));
    assert_eq!(relative.effective_path_filter("/repo/src"), Some("src/core".to_string()));
    assert_eq!(relative.effective_path_filter("/repo/docs"), Some("docs/src/core".to_string()));
    assert_eq!(relative.effective_path_filter("/elsewhere"), Some("src/core".to_string()));
    let absolute = HotspotAnalyzer::new("/repo/", Some("/repo/src/lib.rs".to_string()));
    assert_eq!(absolute.effective_path_filter("/repo/"), Some("src/lib.rs".to_string()));
    let outside = HotspotAnalyzer::new("/repo/", Some("/other/place".to_string()));
    assert_eq!(outside.effective_path_filter("/repo/"), Some("/other/place".to_string()));
    let dotted = HotspotAnalyzer::new("/repo", Some("./src//x/".to_string()));
    assert_eq!(dotted.effective_path_filter("/repo"), Some("src/x".to_string()));
    assert_eq!(HotspotAnalyzer::new("/repo", None).effective_path_filter("/repo"), None);
}

#[test]
fn arguments_name_the_history_wanted() {
    let all = history_arguments("all", &None);
    assert_eq!(
        all,
        vec![
            "log",
            "--no-merges",
            "--format=%H%n%at%n%aN%x00",
            "--numstat",
            "--no-renames",
            "--full-history",
            "--all"
        ]
    );
    let recent = history_arguments("2 weeks ago", &Some("src".to_string()));
    assert_eq!(recent[7..], ["--since=2 weeks ago", "--", "src/**"]);
    let one = history_arguments("all", &Some("src/lib.rs".to_string()));
    assert_eq!(one[7..], ["--", "src/lib.rs"]);
    assert_eq!(listing_arguments(&None), vec!["ls-files"]);
    assert_eq!(
        listing_arguments(&Some("src".to_string())),
        vec!["ls-files", "src"]
    );
    assert_eq!(
        tracking_arguments("src"),
        vec!["ls-files", "--error-unmatch", "src"]
    );
    assert_eq!(
        count_arguments("1 day ago", &Some("src".to_string())),
        vec!["rev-list", "--count", "HEAD", "--since=1 day ago", "--", "src"]
    );
    assert_eq!(count_arguments("all", &None), vec!["rev-list", "--count", "HEAD"]);
    assert_eq!(attribution_arguments("src/a.rs"), vec!["blame", "--line-porcelain", "src/a.rs"]);
}

#[test]
fn commit_count_is_read_or_zero() {
    assert_eq!(parse_commit_count("42\n"), 42);
    assert_eq!(parse_commit_count("  7  "), 7);
    assert_eq!(parse_commit_count(""), 0);
    assert_eq!(parse_commit_count("fatal: bad revision"), 0);
    assert_eq!(parse_commit_count("18446744073709551615"), u64::MAX);
    assert_eq!(parse_commit_count("18446744073709551616"), 0);
}

#[test]
fn source_files_are_told_by_their_ending() {
    assert!(is_source_file("src/main.rs"));
    assert!(is_source_file("lib/parser.py"));
    assert!(!is_source_file("README.md"));
    assert!(!is_source_file("README.MD"));
    assert!(!is_source_file("Cargo.lock"));
    assert!(!is_source_file("web/app.min.js"));
    assert!(!is_source_file("Makefile"));
    assert!(!is_source_file("main.go"));
    assert!(!is_source_file(".gitignore"));
    assert!(is_source_file("src/.hidden.rs"));
    assert!(!is_source_file("a/.DS_Stores"));
    assert!(is_source_file("a/x.DS_Store"));
    assert!(!is_source_file("lib/parser.java"));
    assert!(has_source_ending("src/main.rs", "src/main.rs"));
    assert!(!has_source_ending("notes.txt", "src/main.rs"));
    assert!(!has_source_ending("src/main", "src/main"));
}

#[test]
fn source_test_agrees_on_typical_paths() {
    for (path, expected) in [
        ("src/lib.rs", true),
        ("src/app.tsx", true),
        ("include/header.h", true),
        ("script.sh", true),
        ("docs/guide.markdown", false),
        ("data/table.CSV", false),
        ("config/settings.yaml", false),
        ("src/config", false),
        ("src/module.mod", false),
        ("photo.jpeg", false),
        ("src/", false),
        ("..", false),
        ("", false),
    ] {
        assert_eq!(is_source_file(path), expected, "{:?}", path);
    }
}

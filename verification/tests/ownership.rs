use repo_insight::attribution::parse_attribution;
use repo_insight::bus_factor::{
    rank_results, walk_action, BusFactorAnalyzer, BusFactorResult, EntryKind, FileAttribution,
    WalkAction,
};
use repo_insight::error::AnalysisError;
use repo_insight::threshold::{reaches_threshold, Threshold};

fn attributed(lines: &[(&str, &str)]) -> String {
    let mut text = String::new();
    for (author, code) in lines {
        text.push_str("0123456789abcdef0123456789abcdef01234567 1 1 1\n");
        text.push_str(&format!("author {}\n", author));
        text.push_str("author-mail <someone@example.com>\n");
        text.push_str("summary a change\n");
        text.push_str(&format!("\t{}\n", code));
    }
    text
}

fn ninety_ten() -> String {
    let mut lines: Vec<(&str, &str)> = Vec::new();
    for _ in 0..90 {
        lines.push(("X", "let a = 1;"));
    }
    for _ in 0..10 {
        lines.push(("Y", "let b = 2;"));
    }
    attributed(&lines)
}

fn whole(percent: i64) -> Threshold {
    Threshold::percent(percent)
}

fn written(percent: &str) -> Threshold {
    Threshold::parse(percent).unwrap()
}

fn file(path: &str, text: Option<String>) -> FileAttribution {
    FileAttribution { path: path.to_string(), attribution: text }
}

fn result(path: &str, dominant: usize, total: usize) -> BusFactorResult {
    BusFactorResult {
        path: path.to_string(),
        dominant_author: "someone".to_string(),
        dominant_lines: dominant,
        total_lines: total,
    }
}

#[test]
fn dominant_author_above_threshold_is_reported() {
    let analyzer = BusFactorAnalyzer::new("/repo", whole(80));
    let report = analyzer.analyze_path(&vec![file("src/a.rs", Some(ninety_ten()))]);
    assert_eq!(report.len(), 1);
    assert_eq!(report[0].path, "src/a.rs");
    assert_eq!(report[0].dominant_author, "X");
    assert_eq!(report[0].dominant_lines, 90);
    assert_eq!(report[0].total_lines, 100);
    assert_eq!(report[0].ownership_basis_points(), 9000);
}

#[test]
fn dominant_author_below_threshold_is_left_out() {
    let analyzer = BusFactorAnalyzer::new("/repo", whole(95));
    let report = analyzer.analyze_path(&vec![file("src/a.rs", Some(ninety_ten()))]);
    assert!(report.is_empty());
}

#[test]
fn share_equal_to_threshold_is_reported() {
    let analyzer = BusFactorAnalyzer::new("/repo", whole(90));
    let report = analyzer.analyze_path(&vec![file("src/a.rs", Some(ninety_ten()))]);
    assert_eq!(report.len(), 1);
}

#[test]
fn thresholds_outside_the_range_give_all_or_nothing() {
    let files = vec![file("a.rs", Some(ninety_ten()))];
    let kept = |threshold: Threshold| BusFactorAnalyzer::new("/repo", threshold).analyze_path(&files).len();
    assert_eq!(kept(whole(-5)), 1);
    assert_eq!(kept(whole(0)), 1);
    assert_eq!(kept(whole(100)), 0);
    assert_eq!(kept(whole(101)), 0);
    assert_eq!(kept(whole(i64::MAX)), 0);
    assert_eq!(kept(whole(i64::MIN)), 1);
    assert_eq!(kept(written("1e300")), 0);
    assert_eq!(kept(written("-1e300")), 1);
    assert_eq!(kept(written("5e-324")), 1);
    assert_eq!(kept(written("90")), 1);
    assert_eq!(kept(written("90.0000001")), 0);
    assert_eq!(kept(Threshold { mantissa: 1, exponent: i32::MAX }), 0);
    assert_eq!(kept(Threshold { mantissa: 1, exponent: i32::MIN }), 1);
    assert_eq!(kept(Threshold { mantissa: -1, exponent: i32::MAX }), 1);
}

#[test]
fn share_is_rounded_down_and_within_the_whole() {
    assert_eq!(result("a", 1, 3).ownership_basis_points(), 3333);
    assert_eq!(result("a", 2, 3).ownership_basis_points(), 6666);
    assert_eq!(result("a", 3, 3).ownership_basis_points(), 10000);
    assert_eq!(result("a", usize::MAX, usize::MAX).ownership_basis_points(), 10000);
}

#[test]
fn threshold_test_is_exact() {
    assert!(result("a", 2, 3).meets(written("66.666")));
    assert!(!result("a", 2, 3).meets(written("66.667")));
    assert!(result("a", 2, 3).meets(written("66.66666666666666")));
    assert!(!result("a", 2, 3).meets(written("66.66666666666667")));
    assert!(result("a", 4, 5).meets(written("80.0")));
    assert!(result("a", 4, 5).meets(whole(80)));
    assert!(!result("a", 4, 5).meets(written("80.00000000000001")));
    assert!(!result("a", 4, 5).meets(whole(81)));
    assert!(result("a", 1, 1000).meets(written("0.1")));
    assert!(!result("a", 1, 1000).meets(written("0.10000000000000002")));
    assert!(result("a", 57, 100).meets(written("57")));
    assert!(result("a", 667, 1000).meets(written("66.7")));
    assert!(!result("a", 667, 1000).meets(written("66.70001")));
    assert!(result("a", 1, 8).meets(written("12.5")));
    assert!(result("a", 1, 8).meets(written("1.25e1")));
    assert!(!result("a", 1, 8).meets(written("12.6")));
}

#[test]
fn thresholds_are_read_as_written() {
    let at = |mantissa: i64, exponent: i32| Some(Threshold { mantissa, exponent });
    assert_eq!(Threshold::parse("80"), at(80, 0));
    assert_eq!(Threshold::parse("80.0"), at(800, -1));
    assert_eq!(Threshold::parse("66.666"), at(66666, -3));
    assert_eq!(Threshold::parse("+7.5"), at(75, -1));
    assert_eq!(Threshold::parse("-7.5"), at(-75, -1));
    assert_eq!(Threshold::parse(".5"), at(5, -1));
    assert_eq!(Threshold::parse("5."), at(5, 0));
    assert_eq!(Threshold::parse("1.5e1"), at(15, 0));
    assert_eq!(Threshold::parse("1.5e+3"), at(15, 2));
    assert_eq!(Threshold::parse("15e-1"), at(15, -1));
    assert_eq!(Threshold::parse("007"), at(7, 0));
    assert_eq!(Threshold::parse("0"), at(0, 0));
    assert_eq!(Threshold::parse("-0"), at(0, 0));
    assert_eq!(Threshold::parse("9223372036854775807"), at(i64::MAX, 0));
    assert_eq!(Threshold::parse("-9223372036854775807"), at(-i64::MAX, 0));
    assert_eq!(Threshold::parse("9223372036854775808"), None);
    assert_eq!(Threshold::parse("1e2147483647"), at(1, i32::MAX));
    assert_eq!(Threshold::parse("1e2147483648"), None);
    assert_eq!(Threshold::parse("1e-2147483648"), at(1, i32::MIN));
    assert_eq!(Threshold::parse("0.1e-2147483648"), None);
    for text in ["", "+", "-", ".", "e", "e5", "1e", "1e+", "1.2.3", "1e2e3", "1 ", " 1", "abc", "inf", "NaN", "1E2", "--1", "1,5"] {
        assert_eq!(Threshold::parse(text), None, "{:?}", text);
    }
    assert_eq!(Threshold::percent(80), Threshold { mantissa: 80, exponent: 0 });
}

#[test]
fn shares_are_compared_in_whole_numbers() {
    let at = |mantissa: i64, exponent: i32| Threshold { mantissa, exponent };
    assert!(reaches_threshold(1, 1, at(1, 2)));
    assert!(!reaches_threshold(1, 1, at(11, 1)));
    assert!(reaches_threshold(usize::MAX, usize::MAX, at(100, 0)));
    assert!(!reaches_threshold(usize::MAX - 1, usize::MAX, at(100, 0)));
    assert!(reaches_threshold(usize::MAX, 1, at(1, 21)));
    assert!(!reaches_threshold(usize::MAX, 1, at(1, 22)));
    assert!(!reaches_threshold(usize::MAX, 1, at(1, i32::MAX)));
    assert!(reaches_threshold(usize::MAX, 1, at(i64::MAX, 2)));
    assert!(!reaches_threshold(usize::MAX, 1, at(i64::MAX, 3)));
    assert!(reaches_threshold(1, usize::MAX, at(i64::MAX, -37)));
    assert!(reaches_threshold(1, usize::MAX, at(i64::MAX, -38)));
    assert!(reaches_threshold(1, usize::MAX, at(i64::MAX, -39)));
    assert!(!reaches_threshold(1, usize::MAX, at(i64::MAX, -36)));
    assert!(!reaches_threshold(0, usize::MAX, at(1, -39)));
    assert!(!reaches_threshold(0, 1, at(1, i32::MIN)));
    assert!(reaches_threshold(1, 1, at(1, i32::MIN)));
    assert!(reaches_threshold(0, 0, at(1, 0)));
    assert!(reaches_threshold(0, 5, at(0, 0)));
    assert!(reaches_threshold(0, 5, at(-1, 30)));
    assert!(reaches_threshold(3, 1000, at(3, -1)));
    assert!(!reaches_threshold(3, 1000, at(31, -2)));
}

#[test]
fn blank_and_comment_lines_are_not_counted() {
    let text = attributed(&[
        ("A", "fn main() {"),
        ("A", ""),
        ("A", "   "),
        ("B", "// a remark"),
        ("B", "/* a block"),
        ("B", " * inside"),
        ("B", "let hidden = 1;"),
        ("B", "the end */"),
        ("B", "let shown = 2;"),
        ("A", "}"),
    ]);
    let found = parse_attribution(&text).unwrap();
    assert_eq!(found.total_lines, 3);
    assert_eq!(found.authors.len(), 2);
    assert_eq!(found.authors.get("A"), 2);
    assert_eq!(found.authors.get("B"), 1);
    assert_eq!(found.authors.get("C"), 0);
}

#[test]
fn star_and_closing_mark_outside_a_block_are_counted() {
    let text = attributed(&[("A", "*pointer = 5;"), ("A", "call(); /* done */")]);
    let found = parse_attribution(&text).unwrap();
    assert_eq!(found.total_lines, 2);
}

#[test]
fn block_opened_and_closed_on_one_line_stays_open() {
    let text = attributed(&[("A", "/* one line */"), ("A", "let a = 1;"), ("A", "*/"), ("A", "b")]);
    let found = parse_attribution(&text).unwrap();
    assert_eq!(found.total_lines, 1);
}

#[test]
fn file_without_counted_lines_is_unanalyzable() {
    assert_eq!(parse_attribution("").err(), Some(AnalysisError::UnanalyzableFile));
    let only_comments = attributed(&[("A", "// nothing"), ("A", "")]);
    assert_eq!(parse_attribution(&only_comments).err(), Some(AnalysisError::UnanalyzableFile));
    let analyzer = BusFactorAnalyzer::new("/repo", whole(0));
    assert_eq!(
        analyzer.analyze_file("a.rs", &only_comments).err(),
        Some(AnalysisError::UnanalyzableFile)
    );
}

#[test]
fn first_author_wins_a_tie() {
    let text = attributed(&[("Late", "a"), ("Early", "b"), ("Early", "c"), ("Late", "d")]);
    let analyzer = BusFactorAnalyzer::new("/repo", whole(0));
    let found = analyzer.analyze_file("tie.rs", &text).unwrap();
    assert_eq!(found.dominant_author, "Late");
    assert_eq!(found.dominant_lines, 2);
    assert_eq!(found.total_lines, 4);
}

#[test]
fn crlf_line_endings_are_read() {
    let text = "author A\r\n\tlet a = 1;\r\nauthor B\r\n\t\r\n";
    let found = parse_attribution(text).unwrap();
    assert_eq!(found.total_lines, 1);
    assert_eq!(found.authors.name_at(0), "A");
    assert_eq!(found.authors.count_at(0), 1);
}

#[test]
fn failing_files_are_left_out_of_the_walk() {
    let analyzer = BusFactorAnalyzer::new("/repo", whole(50));
    let files = vec![
        file("missing.rs", None),
        file("empty.rs", Some(String::new())),
        file("good.rs", Some(attributed(&[("A", "x"), ("A", "y"), ("B", "z")]))),
    ];
    let report = analyzer.analyze_path(&files);
    assert_eq!(report.len(), 1);
    assert_eq!(report[0].path, "good.rs");
    assert_eq!(report[0].dominant_author, "A");
}

#[test]
fn report_is_ranked_by_share_then_by_lines() {
    let ranked = rank_results(&vec![
        result("half", 1, 2),
        result("small-full", 3, 3),
        result("two-thirds", 2, 3),
        result("big-full", 10, 10),
        result("other-half", 5, 10),
        result("same-half", 1, 2),
    ]);
    let paths: Vec<&str> = ranked.iter().map(|r| r.path.as_str()).collect();
    assert_eq!(paths, vec!["big-full", "small-full", "two-thirds", "other-half", "half", "same-half"]);
}

#[test]
fn report_of_a_walk_is_ranked() {
    let analyzer = BusFactorAnalyzer::new("/repo", whole(0));
    let files = vec![
        file("mixed.rs", Some(attributed(&[("A", "x"), ("B", "y")]))),
        file("single.rs", Some(attributed(&[("A", "x")]))),
        file("large.rs", Some(attributed(&[("C", "x"), ("C", "y"), ("C", "z")]))),
    ];
    let report = analyzer.analyze_path(&files);
    let paths: Vec<&str> = report.iter().map(|r| r.path.as_str()).collect();
    assert_eq!(paths, vec!["large.rs", "single.rs", "mixed.rs"]);
}

#[test]
fn analysis_gives_the_same_report_twice() {
    let analyzer = BusFactorAnalyzer::new("/repo", whole(10));
    let files = vec![
        file("a.rs", Some(ninety_ten())),
        file("b.rs", Some(attributed(&[("A", "x"), ("B", "y")]))),
    ];
    let first = analyzer.analyze_path(&files);
    let second = analyzer.analyze_path(&files);
    assert_eq!(format!("{:?}", first), format!("{:?}", second));
}

#[test]
fn walk_skips_hidden_and_binary_entries() {
    assert_eq!(walk_action(".git", EntryKind::Directory), WalkAction::Skip);
    assert_eq!(walk_action(".hidden.rs", EntryKind::File), WalkAction::Skip);
    assert_eq!(walk_action("photo.png", EntryKind::File), WalkAction::Skip);
    assert_eq!(walk_action("tool.exe", EntryKind::File), WalkAction::Skip);
    assert_eq!(walk_action("paper.pdf", EntryKind::File), WalkAction::Skip);
    assert_eq!(walk_action("lib.dylib", EntryKind::File), WalkAction::Skip);
    assert_eq!(walk_action("photo.PNG", EntryKind::File), WalkAction::Analyze);
    assert_eq!(walk_action("main.rs", EntryKind::File), WalkAction::Analyze);
    assert_eq!(walk_action("Makefile", EntryKind::File), WalkAction::Analyze);
    assert_eq!(walk_action("archive.tar.gz", EntryKind::File), WalkAction::Analyze);
    assert_eq!(walk_action("src", EntryKind::Directory), WalkAction::Descend);
    assert_eq!(walk_action("pipe", EntryKind::Other), WalkAction::Skip);
}

#[test]
fn paths_are_resolved_against_the_root() {
    let analyzer = BusFactorAnalyzer::new("/home/me/repo", whole(80));
    assert_eq!(analyzer.least_share(), whole(80));
    assert_eq!(analyzer.target_path("src/lib.rs"), "/home/me/repo/src/lib.rs");
    assert_eq!(analyzer.target_path("/elsewhere/x"), "/elsewhere/x");
    assert_eq!(analyzer.relative_path("/home/me/repo/src/lib.rs").unwrap(), "src/lib.rs");
    assert_eq!(
        analyzer.relative_path("/home/me/other/lib.rs").err(),
        Some(AnalysisError::OutsideRepository)
    );
}

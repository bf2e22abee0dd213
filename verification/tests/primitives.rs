use repo_insight::index::TextIndex;
use repo_insight::path::{extension, is_absolute, normalize_filter, resolve, strip_prefix};
use repo_insight::rank::{rank, ranks_above, RankKey};
use repo_insight::tally::Tally;
use repo_insight::text::{
    chars_of, parse_i32, parse_i64, parse_u32, parse_u64, split_at_char, split_lines,
    split_words, string_of, trimmed, whitespace,
};
use repo_insight::time::whole_days;
use std::path::Path;

fn chars(s: &str) -> Vec<char> {
    s.chars().collect()
}

fn strings(pieces: Vec<Vec<char>>) -> Vec<String> {
    pieces.iter().map(|p| p.iter().collect()).collect()
}

#[test]
fn strings_and_characters_convert() {
    assert_eq!(chars_of("héllo"), chars("héllo"));
    assert_eq!(string_of(&chars("héllo")), "héllo");
    assert_eq!(chars_of(""), Vec::<char>::new());
}

#[test]
fn lines_end_at_line_feeds() {
    assert_eq!(strings(split_lines(&chars("a\nb\r\nc"))), vec!["a", "b", "c"]);
    assert_eq!(strings(split_lines(&chars("a\n\nb\n"))), vec!["a", "", "b"]);
    assert_eq!(strings(split_lines(&chars("a\r"))), vec!["a\r"]);
    assert_eq!(strings(split_lines(&chars("\n"))), vec![""]);
    assert_eq!(strings(split_lines(&chars(""))), Vec::<String>::new());
    assert_eq!(strings(split_lines(&chars("x\ry\n"))), vec!["x\ry"]);
    for text in ["a\nb\r\nc", "a\n\nb\n", "a\r", "\n", "", "\r\n\r\n", "one\r\r\ntwo"] {
        let expected: Vec<String> = text.lines().map(|l| l.to_string()).collect();
        assert_eq!(strings(split_lines(&chars(text))), expected);
    }
}

#[test]
fn trimming_and_words_follow_white_space() {
    for text in ["  a b  ", "\t\u{a0}x\u{3000}\n", "", "   ", "no-space", " a\u{2003}b\u{85}c "] {
        assert_eq!(string_of(&trimmed(&chars(text))), text.trim());
        let expected: Vec<String> = text.split_whitespace().map(|w| w.to_string()).collect();
        assert_eq!(strings(split_words(&chars(text))), expected);
    }
    assert_eq!(strings(split_words(&chars(" 3\t1  src/a.rs "))), vec!["3", "1", "src/a.rs"]);
}

#[test]
fn splitting_keeps_empty_pieces() {
    for text in ["a\tb\tc", "\t", "", "a\t\tb", "abc", "\ta", "a\t"] {
        let expected: Vec<String> = text.split('\t').map(|w| w.to_string()).collect();
        assert_eq!(strings(split_at_char(&chars(text), '\t')), expected);
    }
}

#[test]
fn numbers_parse_as_the_standard_library_does() {
    let samples = [
        "0",
        "7",
        "-7",
        "+7",
        "007",
        "-0",
        "+",
        "-",
        "",
        " 1",
        "1 ",
        "1a",
        "٣",
        "--1",
        "+-1",
        "2147483647",
        "2147483648",
        "-2147483648",
        "-2147483649",
        "4294967295",
        "4294967296",
        "9223372036854775807",
        "9223372036854775808",
        "-9223372036854775808",
        "-9223372036854775809",
        "18446744073709551615",
        "18446744073709551616",
        "000000000000000000000000000000000012",
        "99999999999999999999999999999999999999999",
    ];
    for s in samples {
        assert_eq!(parse_i64(&chars(s)), s.parse::<i64>().ok(), "i64 {:?}", s);
        assert_eq!(parse_i32(&chars(s)), s.parse::<i32>().ok(), "i32 {:?}", s);
        assert_eq!(parse_u64(&chars(s)), s.parse::<u64>().ok(), "u64 {:?}", s);
        assert_eq!(parse_u32(&chars(s)), s.parse::<u32>().ok(), "u32 {:?}", s);
    }
}

#[test]
fn prefixes_are_stripped_by_components() {
    assert_eq!(strip_prefix("/a/b/c", "/a/b"), Some("c".to_string()));
    assert_eq!(strip_prefix("/a/b/c", "/a/b/"), Some("c".to_string()));
    assert_eq!(strip_prefix("/a/b/c/d", "/a"), Some("b/c/d".to_string()));
    assert_eq!(strip_prefix("/a/b", "/a/b"), Some(String::new()));
    assert_eq!(strip_prefix("/a/bc", "/a/b"), None);
    assert_eq!(strip_prefix("a/b", "/a"), None);
    assert_eq!(strip_prefix("/a/b", "a"), None);
    assert_eq!(strip_prefix("a/./b//c/", "a"), Some("b/c".to_string()));
    assert_eq!(strip_prefix("./a/b", "."), Some("a/b".to_string()));
    assert_eq!(strip_prefix("/a/b", ""), Some("/a/b".to_string()));
    assert_eq!(strip_prefix("a/../b", "a"), Some("../b".to_string()));
}

#[test]
fn paths_resolve_like_joins() {
    assert_eq!(resolve("/repo", "src"), "/repo/src");
    assert_eq!(resolve("/repo/", "src"), "/repo/src");
    assert_eq!(resolve("/repo", "/abs"), "/abs");
    assert_eq!(resolve("", "src"), "src");
    assert_eq!(resolve("/repo", ""), "/repo/");
    assert!(is_absolute("/x"));
    assert!(!is_absolute("x/"));
    assert!(!is_absolute(""));
}

#[test]
fn filters_become_relative_to_the_root() {
    assert_eq!(normalize_filter("/repo/", "src/core"), "src/core");
    assert_eq!(normalize_filter("/repo/", "/src/core"), "/src/core");
    assert_eq!(normalize_filter("/repo", "/repo/src\\core\\"), "src/core");
    assert_eq!(normalize_filter("/repo/", ""), "");
    assert_eq!(normalize_filter("/repo/", "///x"), "///x");
}

#[test]
fn extensions_follow_the_last_dot() {
    assert_eq!(extension("a.rs"), Some("rs".to_string()));
    assert_eq!(extension("a.tar.gz"), Some("gz".to_string()));
    assert_eq!(extension("a."), Some(String::new()));
    assert_eq!(extension(".hidden"), None);
    assert_eq!(extension(".hidden.rs"), Some("rs".to_string()));
    assert_eq!(extension("plain"), None);
    assert_eq!(extension(""), None);
}

#[test]
fn tally_counts_in_order_of_arrival() {
    let mut tally = Tally::new();
    assert_eq!(tally.len(), 0);
    assert_eq!(tally.leader(), None);
    for name in ["b", "a", "b", "c", "a", "a", "b"] {
        tally.add(name);
    }
    assert_eq!(tally.len(), 3);
    assert_eq!((tally.name_at(0), tally.count_at(0)), ("b".to_string(), 3));
    assert_eq!((tally.name_at(1), tally.count_at(1)), ("a".to_string(), 3));
    assert_eq!((tally.name_at(2), tally.count_at(2)), ("c".to_string(), 1));
    assert_eq!(tally.get("a"), 3);
    assert_eq!(tally.get("z"), 0);
    assert_eq!(tally.leader(), Some(0));
    tally.add("a");
    assert_eq!(tally.leader(), Some(1));
    let copy = tally.duplicate();
    assert_eq!(copy.get("a"), 4);
    assert_eq!(copy.len(), 3);
}

#[test]
fn index_finds_what_was_added() {
    let mut index = TextIndex::new();
    assert_eq!(index.find(&chars("a")), None);
    for i in 0..5000 {
        let key = chars(&format!("path/{}.rs", i));
        assert_eq!(index.find(&key), None);
        assert_eq!(index.insert(key), i);
    }
    assert_eq!(index.len(), 5000);
    assert_eq!(index.find(&chars("path/0.rs")), Some(0));
    assert_eq!(index.find(&chars("path/4999.rs")), Some(4999));
    assert_eq!(index.find(&chars("path/5000.rs")), None);
    assert_eq!(index.key_at(17), &chars("path/17.rs"));
}

#[test]
fn ranking_orders_fractions_exactly() {
    let key = |num: u64, den: u64, tie: u64| RankKey { num, den, tie };
    assert!(ranks_above(key(2, 3, 0), key(3, 5, 9)));
    assert!(!ranks_above(key(1, 2, 5), key(2, 4, 5)));
    assert!(ranks_above(key(1, 2, 6), key(2, 4, 5)));
    assert!(ranks_above(key(u64::MAX, u64::MAX - 1, 0), key(u64::MAX - 1, u64::MAX - 1, 0)));
    let keys = vec![key(1, 2, 0), key(3, 4, 0), key(2, 4, 0), key(3, 4, 1), key(0, 1, 0)];
    assert_eq!(rank(&keys), vec![3, 1, 0, 2, 4]);
    assert_eq!(rank(&Vec::new()), Vec::<usize>::new());
    assert_eq!(RankKey::of_count(4).num, 4);
}

#[test]
fn days_round_towards_zero() {
    assert_eq!(whole_days(0, 86399), 0);
    assert_eq!(whole_days(0, 86400), 1);
    assert_eq!(whole_days(86399, 0), 0);
    assert_eq!(whole_days(86400, 0), -1);
    assert_eq!(whole_days(i64::MIN, i64::MAX), 213503982334601);
    assert_eq!(whole_days(i64::MAX, i64::MIN), -213503982334601);
}

#[test]
fn paths_agree_with_the_standard_library() {
    let paths = ["/a/b/c", "/a/b", "a/b", "/a", "/", "", "a", "./a/b", ".", "a/b/c.rs", "/a/bc", "../x", "a/.."];
    let bases = ["/a/b", "/a/b/", "/a", "/", "", "a", ".", "/a//b", "/a/./b", "./a", "a/b/", "..", "a/.."];
    for path in paths {
        for base in bases {
            let expected = Path::new(path)
                .strip_prefix(Path::new(base))
                .ok()
                .map(|rest| rest.to_string_lossy().into_owned());
            assert_eq!(strip_prefix(path, base), expected, "{:?} behind {:?}", path, base);
            let joined = Path::new(base).join(path).to_string_lossy().into_owned();
            assert_eq!(resolve(base, path), joined, "{:?} from {:?}", path, base);
        }
        assert_eq!(is_absolute(path), Path::new(path).is_absolute());
    }
    for name in ["a.rs", "a.tar.gz", "a.", ".hidden", ".hidden.rs", "plain", "", "a..b", "...", ".a."] {
        let expected = Path::new(name).extension().map(|e| e.to_string_lossy().into_owned());
        assert_eq!(extension(name), expected, "{:?}", name);
    }
}

#[test]
fn white_space_agrees_for_every_character() {
    for code in 0..=0x10FFFFu32 {
        if let Some(c) = char::from_u32(code) {
            assert_eq!(whitespace(c), c.is_whitespace(), "U+{:04X}", code);
        }
    }
}

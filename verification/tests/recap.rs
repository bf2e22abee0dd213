use repo_insight::error::AnalysisError;
use repo_insight::git::{
    commit_from_groups, get_commits, get_stats, parse_commit_line, validate_repo, GitStats,
};
use repo_insight::vcs::{commit_log_arguments, stats_arguments};
use repo_insight::music::{
    commit_to_note, generate_midi, notes_from_numstat, CommitNote, MidiEvent, MidiMessage,
    MusicConfig,
};

#[test]
fn commit_line_is_taken_apart() {
    let commit = parse_commit_line("1a2b3c4 - Fix the parser [3 hours ago by Ann Lee]").unwrap();
    assert_eq!(commit.hash, "1a2b3c4");
    assert_eq!(commit.message, "Fix the parser");
    assert_eq!(commit.relative_time, "3 hours ago");
    assert_eq!(commit.author, "Ann Lee");
}

#[test]
fn commit_line_takes_the_first_bracket_that_fits() {
    let commit = parse_commit_line("abc - Add [x] support [2 days ago by Bob by Design]").unwrap();
    assert_eq!(commit.hash, "abc");
    assert_eq!(commit.message, "Add");
    assert_eq!(commit.relative_time, "x] support [2 days ago");
    assert_eq!(commit.author, "Bob by Design");
}

#[test]
fn other_lines_are_no_commits() {
    assert!(parse_commit_line("").is_none());
    assert!(parse_commit_line("xyz - not hexadecimal [now by Ann]").is_none());
    assert!(parse_commit_line("abc - no brackets").is_none());
    assert!(parse_commit_line("abc - trailing [now by Ann] ").is_none());
}

#[test]
fn groups_make_a_commit_only_when_complete() {
    let text = |s: &str| Some(s.to_string());
    let full = Some(vec![text("all"), text("h"), text("m"), text("t"), text("a")]);
    let commit = commit_from_groups(&full).unwrap();
    assert_eq!((commit.hash.as_str(), commit.author.as_str()), ("h", "a"));
    assert!(commit_from_groups(&None).is_none());
    assert!(commit_from_groups(&Some(vec![text("all"), text("h"), text("m"), text("t")])).is_none());
    assert!(commit_from_groups(&Some(vec![text("all"), text("h"), None, text("t"), text("a")]))
        .is_none());
}

#[test]
fn commit_list_is_read_line_by_line() {
    let commits = get_commits("aa1 - One [1 day ago by Ann]\n\nnoise\nbb2 - Two [2 days ago by Bob]");
    assert_eq!(commits.len(), 2);
    assert_eq!(commits[0].hash, "aa1");
    assert_eq!(commits[1].message, "Two");
    assert!(get_commits("").is_empty());
}

#[test]
fn changes_are_summed() {
    let text = "COMMIT\n\n3\t1\ta.rs\n10\t0\tb.rs\nCOMMIT\n-\t-\timage.png\n 2 5 c.rs extra \nshort line\n";
    assert_eq!(
        get_stats(text),
        Some(GitStats { commits_count: 2, total_additions: 15, total_deletions: 6 })
    );
    assert_eq!(
        get_stats(""),
        Some(GitStats { commits_count: 0, total_additions: 0, total_deletions: 0 })
    );
    assert_eq!(
        get_stats("-4\t+6\tx\n"),
        Some(GitStats { commits_count: 0, total_additions: -4, total_deletions: 6 })
    );
}

#[test]
fn sums_that_do_not_fit_give_nothing() {
    assert_eq!(get_stats("2147483647\t0\ta\n1\t0\tb\n"), None);
    assert_eq!(
        get_stats("2147483647\t0\ta\n1\t0\tb\n-1\t0\tc\n"),
        Some(GitStats { commits_count: 0, total_additions: 2147483647, total_deletions: 0 })
    );
    assert_eq!(
        get_stats("2147483648\t7\ta\n"),
        Some(GitStats { commits_count: 0, total_additions: 0, total_deletions: 7 })
    );
}

#[test]
fn repository_is_validated() {
    assert_eq!(validate_repo(true, true, "true\n"), Ok(()));
    assert_eq!(validate_repo(false, true, "true\n"), Err(AnalysisError::NotADirectory));
    assert_eq!(validate_repo(true, false, "true\n"), Err(AnalysisError::NotUnderVersionControl));
    assert_eq!(validate_repo(true, true, "false\n"), Err(AnalysisError::NotUnderVersionControl));
    assert_eq!(validate_repo(true, true, ""), Err(AnalysisError::NotUnderVersionControl));
}

#[test]
fn every_failure_has_a_message() {
    let all = [
        AnalysisError::PathNotFound,
        AnalysisError::NotADirectory,
        AnalysisError::NotUnderVersionControl,
        AnalysisError::NoHistory,
        AnalysisError::OutsideRepository,
        AnalysisError::UnanalyzableFile,
        AnalysisError::MalformedTimestamp,
        AnalysisError::TimestampOutOfRange,
        AnalysisError::TruncatedHeader,
    ];
    for e in all {
        let message = e.message();
        assert!(!message.is_empty());
        assert!(!message.contains('\n'));
    }
    assert_eq!(AnalysisError::NoHistory.message(), "no git history found");
}

#[test]
fn recap_arguments_name_author_and_time() {
    assert_eq!(
        commit_log_arguments("/repo", "Ann", "1 week ago", false),
        vec![
            "-C",
            "/repo",
            "--no-pager",
            "log",
            "--all",
            "--author=Ann",
            "--since=1 week ago",
            "--pretty=format:%h - %s [%cr by %an]"
        ]
    );
    assert_eq!(
        commit_log_arguments("/repo", "Ann", "1 week ago", true)[7],
        "--pretty=format:%h - %s [%cr by %an]%n"
    );
    assert_eq!(
        stats_arguments(".", "Bob", "yesterday"),
        vec![
            "-C",
            ".",
            "log",
            "--all",
            "--author=Bob",
            "--since=yesterday",
            "--pretty=tformat:COMMIT",
            "--numstat"
        ]
    );
}

fn note(additions: i32, deletions: i32, file_type: &str) -> CommitNote {
    commit_to_note(additions, deletions, file_type, &MusicConfig::default())
}

#[test]
fn default_config_is_middle_c() {
    let config = MusicConfig::default();
    assert_eq!((config.base_note, config.velocity, config.tempo), (60, 100, 120));
}

#[test]
fn channel_follows_the_file_type() {
    assert_eq!(note(1, 0, "rs").channel, 0);
    assert_eq!(note(1, 0, "js").channel, 1);
    assert_eq!(note(1, 0, "ts").channel, 1);
    assert_eq!(note(1, 0, "py").channel, 2);
    assert_eq!(note(1, 0, "md").channel, 3);
    assert_eq!(note(1, 0, "").channel, 3);
    assert_eq!(note(1, 0, "rss").channel, 3);
    assert_eq!(note(1, 0, "unknown").channel, 3);
}

#[test]
fn pitch_follows_the_logarithm_of_the_change() {
    assert_eq!(note(1, 0, "rs").note, 60);
    assert_eq!(note(2, 0, "rs").note, 61);
    assert_eq!(note(3, 0, "rs").note, 62);
    assert_eq!(note(4, 0, "rs").note, 62);
    assert_eq!(note(5, 0, "rs").note, 63);
    assert_eq!(note(1024, 0, "rs").note, 70);
    assert_eq!(note(1025, 0, "rs").note, 71);
    assert_eq!(note(i32::MAX, 0, "rs").note, 91);
    assert_eq!(note(0, 1, "rs").note, 60);
    assert_eq!(note(0, 8, "rs").note, 57);
    assert_eq!(note(8, 8, "rs").note, 57);
    assert_eq!(note(0, 9, "rs").note, 56);
    assert_eq!(note(0, 0, "rs").note, 127);
    assert_eq!(note(0, -1, "rs").note, 0);
    assert_eq!(note(-2, -1, "rs").note, 60);
    assert_eq!(note(-5, -9, "rs").note, 60);
}

#[test]
fn pitch_stays_in_the_midi_range() {
    let high = MusicConfig { base_note: 120, velocity: 7, tempo: 120 };
    assert_eq!(commit_to_note(1 << 20, 0, "rs", &high).note, 127);
    assert_eq!(commit_to_note(1 << 20, 0, "rs", &high).velocity, 7);
    let low = MusicConfig { base_note: 5, velocity: 1, tempo: 120 };
    assert_eq!(commit_to_note(0, 1 << 20, "rs", &low).note, 0);
}

#[test]
fn length_follows_the_size_of_the_change() {
    assert_eq!(note(0, 0, "rs").duration_ms, 200);
    assert_eq!(note(1, 0, "rs").duration_ms, 200);
    assert_eq!(note(1, 1, "rs").duration_ms, 500);
    assert_eq!(note(2, 1, "rs").duration_ms, 792);
    assert_eq!(note(2, 2, "rs").duration_ms, 1000);
    assert_eq!(note(7, 0, "rs").duration_ms, 1403);
    assert_eq!(note(8, 2, "rs").duration_ms, 1660);
    assert_eq!(note(15, 0, "rs").duration_ms, 1953);
    assert_eq!(note(16, 0, "rs").duration_ms, 2000);
    assert_eq!(note(i32::MAX, i32::MAX, "rs").duration_ms, 2000);
    assert_eq!(note(-3, 1, "rs").duration_ms, 200);
}

#[test]
fn track_plays_each_note_after_the_opening() {
    let notes = vec![
        CommitNote { note: 62, duration_ms: 792, velocity: 100, channel: 0 },
        CommitNote { note: 50, duration_ms: 200, velocity: 100, channel: 2 },
        CommitNote { note: 70, duration_ms: 5000, velocity: 100, channel: 3 },
    ];
    let track = generate_midi(&notes, &MusicConfig::default());
    assert_eq!(track.ticks_per_beat, 480);
    assert_eq!(track.events.len(), 12);
    assert_eq!(
        track.events[0],
        MidiEvent { delta: 0, message: MidiMessage::Tempo { microseconds_per_beat: 600000 } }
    );
    assert_eq!(
        track.events[2],
        MidiEvent { delta: 0, message: MidiMessage::ProgramChange { channel: 1, program: 25 } }
    );
    assert_eq!(
        track.events[5],
        MidiEvent {
            delta: 60,
            message: MidiMessage::NoteOn { channel: 0, key: 62, velocity: 100 }
        }
    );
    assert_eq!(
        track.events[6],
        MidiEvent { delta: 380, message: MidiMessage::NoteOff { channel: 0, key: 62, velocity: 0 } }
    );
    assert_eq!(track.events[8].delta, 240);
    assert_eq!(track.events[10].delta, 960);
    assert_eq!(track.events[11], MidiEvent { delta: 480, message: MidiMessage::EndOfTrack });
    let silent = generate_midi(&Vec::new(), &MusicConfig::default());
    assert_eq!(silent.events.len(), 6);
}

#[test]
fn notes_are_made_of_a_change_list() {
    let text = "commit 1a2b\n\n8\t2\tsrc/main.rs\n1\t1\tweb/app.ts\n-\t-\tlogo.png\n4\t0\tMakefile\n";
    let notes = notes_from_numstat(text, &MusicConfig::default());
    assert_eq!(notes.len(), 3);
    assert_eq!(notes[0], CommitNote { note: 63, duration_ms: 1660, velocity: 100, channel: 0 });
    assert_eq!(notes[1], CommitNote { note: 60, duration_ms: 500, velocity: 100, channel: 1 });
    assert_eq!(notes[2], CommitNote { note: 62, duration_ms: 1000, velocity: 100, channel: 3 });
}

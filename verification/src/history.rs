//! The bulk history stream: one header per commit, each followed by the
//! change records of the files that the commit touched.
//!
//! A header is three lines: the commit id, which is a line of forty
//! hexadecimal digits,
//! the author's time in seconds since the epoch, and the author's name, which
//! a NUL character ends. A change record is a line of three words: lines
//! added, lines deleted, and the path. Blank lines separate the two.

use crate::error::AnalysisError;
use crate::text::{
    chars_of, copy_range, is_blank, lines_of, parse_i64, parse_i64_spec, parse_u32,
    parse_u32_spec, split_lines, split_words, string_of, trimmed, views, words_of,
};
use crate::time::{is_date, timestamp_is_date};
use vstd::prelude::*;

verus! {

/// The number of hexadecimal digits in a commit id.
pub const COMMIT_ID_DIGITS: usize = 40;

/// Whether a character is a hexadecimal digit as commit ids are written:
/// `0` to `9` or `a` to `f`.
pub open spec fn is_hex_digit(c: char) -> bool {
    '0' <= c <= '9' || 'a' <= c <= 'f'
}

/// Whether a line is a commit id: forty hexadecimal digits and nothing else.
pub open spec fn is_commit_id(line: Seq<char>) -> bool {
    &&& line.len() == COMMIT_ID_DIGITS
    &&& forall|i: int| 0 <= i < line.len() ==> is_hex_digit(#[trigger] line[i])
}

/// One changed file of one commit, as a mathematical value.
pub struct EventView {
    pub commit_id: Seq<char>,
    pub author: Seq<char>,
    pub timestamp: int,
    pub file_path: Seq<char>,
    pub lines_added: nat,
    pub lines_deleted: nat,
}

/// One changed file of one commit.
#[derive(Debug)]
pub struct CommitChangeEvent {
    pub commit_id: String,
    pub author: String,
    pub timestamp: i64,
    pub file_path: String,
    pub lines_added: u32,
    pub lines_deleted: u32,
}

impl View for CommitChangeEvent {
    type V = EventView;

    open spec fn view(&self) -> EventView {
        EventView {
            commit_id: self.commit_id@,
            author: self.author@,
            timestamp: self.timestamp as int,
            file_path: self.file_path@,
            lines_added: self.lines_added as nat,
            lines_deleted: self.lines_deleted as nat,
        }
    }
}

/// The views of a sequence of events.
pub open spec fn event_views(events: Seq<CommitChangeEvent>) -> Seq<EventView> {
    Seq::new(events.len(), |i: int| events[i]@)
}

/// What the next line of the stream is taken for.
#[derive(Debug, Clone, Copy, PartialEq, Eq, Structural)]
pub enum Expecting {
    /// A commit id, a change record or a blank line.
    Record,
    /// The time of the commit whose id came last.
    Time,
    /// The author of the commit whose id came last.
    Author,
}

/// Where a reading of the stream stands.
pub struct StreamState {
    pub expecting: Expecting,
    pub commit_id: Seq<char>,
    pub timestamp: int,
    pub author: Seq<char>,
    pub events: Seq<EventView>,
    pub failure: Option<AnalysisError>,
}

/// The reading before any line: no commit yet, no author, the epoch as time.
pub open spec fn stream_start() -> StreamState {
    StreamState {
        expecting: Expecting::Record,
        commit_id: Seq::empty(),
        timestamp: 0,
        author: Seq::empty(),
        events: Seq::empty(),
        failure: None,
    }
}

/// A name without the NUL character that ends it, if one does.
pub open spec fn strip_nul(line: Seq<char>) -> Seq<char> {
    if line.len() > 0 && line.last() == '\0' {
        line.drop_last()
    } else {
        line
    }
}

/// A count of lines as written in a change record; what is no number in the
/// range of 32 bits counts as zero.
pub open spec fn line_count(word: Seq<char>) -> nat {
    match parse_u32_spec(word) {
        Some(n) => n as nat,
        None => 0,
    }
}

/// The change record that a line holds: path, lines added, lines deleted.
/// `None` where the line has not exactly three words.
pub open spec fn stat_record(line: Seq<char>) -> Option<(Seq<char>, nat, nat)> {
    let words = words_of(line);
    if words.len() == 3 {
        Some((words[2], line_count(words[0]), line_count(words[1])))
    } else {
        None
    }
}

/// The reading after one more line.
///
/// After a failure nothing changes. A line that is waited for as a time must
/// be a decimal number of seconds that is a date; the line after it is the
/// author. Otherwise a blank line is passed over, a line of forty
/// hexadecimal digits is a commit id, a line of three words is a change
/// record of the current commit, and any other line is passed over.
pub open spec fn stream_step(s: StreamState, line: Seq<char>) -> StreamState {
    if s.failure is Some {
        s
    } else {
        match s.expecting {
            Expecting::Time => match parse_i64_spec(line) {
                Some(t) => if is_date(t as int) {
                    StreamState { timestamp: t as int, expecting: Expecting::Author, ..s }
                } else {
                    StreamState { failure: Some(AnalysisError::TimestampOutOfRange), ..s }
                },
                None => StreamState { failure: Some(AnalysisError::MalformedTimestamp), ..s },
            },
            Expecting::Author => StreamState {
                author: strip_nul(line),
                expecting: Expecting::Record,
                ..s
            },
            Expecting::Record => if is_blank(line) {
                s
            } else if is_commit_id(line) {
                StreamState { commit_id: line, expecting: Expecting::Time, ..s }
            } else {
                match stat_record(line) {
                    Some((path, added, deleted)) => StreamState {
                        events: s.events.push(
                            EventView {
                                commit_id: s.commit_id,
                                author: s.author,
                                timestamp: s.timestamp,
                                file_path: path,
                                lines_added: added,
                                lines_deleted: deleted,
                            },
                        ),
                        ..s
                    },
                    None => s,
                }
            },
        }
    }
}

/// The reading after all the given lines.
pub open spec fn stream_after(lines: Seq<Seq<char>>) -> StreamState
    decreases lines.len(),
{
    if lines.len() == 0 {
        stream_start()
    } else {
        stream_step(stream_after(lines.drop_last()), lines.last())
    }
}

/// What a reading comes to at the end of the stream: its failure if it has
/// one, a failure if a header is left unfinished, else its events.
pub open spec fn stream_outcome(s: StreamState) -> Result<Seq<EventView>, AnalysisError> {
    match s.failure {
        Some(e) => Err(e),
        None => if s.expecting == Expecting::Record {
            Ok(s.events)
        } else {
            Err(AnalysisError::TruncatedHeader)
        },
    }
}

/// The events that a bulk history text holds, or why it cannot be read.
pub open spec fn parsed_history(text: Seq<char>) -> Result<Seq<EventView>, AnalysisError> {
    stream_outcome(stream_after(lines_of(text)))
}

/// A failure stays: once a reading has failed, more lines do not change it.
pub proof fn lemma_failure_stays(lines: Seq<Seq<char>>, k: int)
    requires
        0 <= k <= lines.len(),
        stream_after(lines.take(k)).failure is Some,
    ensures
        stream_after(lines) == stream_after(lines.take(k)),
    decreases lines.len() - k,
{
    if k < lines.len() {
        assert(lines.take(k + 1).drop_last() =~= lines.take(k));
        lemma_failure_stays(lines, k + 1);
    } else {
        assert(lines.take(k) =~= lines);
    }
}

/// Every event of a reading has a time that is a date, or the time of the
/// start.
pub proof fn lemma_event_times(lines: Seq<Seq<char>>)
    ensures
        is_date(stream_after(lines).timestamp),
        forall|i: int|
            0 <= i < stream_after(lines).events.len() ==> is_date(
                (#[trigger] stream_after(lines).events[i]).timestamp,
            ),
    decreases lines.len(),
{
    if lines.len() > 0 {
        lemma_event_times(lines.drop_last());
    }
}

/// Tests a line for a commit id.
fn commit_id_line(line: &Vec<char>) -> (yes: bool)
    ensures
        yes == is_commit_id(line@),
{
    if line.len() != COMMIT_ID_DIGITS {
        return false;
    }
    let mut i: usize = 0;
    while i < line.len()
        invariant
            i <= line.len(),
            line.len() == COMMIT_ID_DIGITS,
            forall|k: int| 0 <= k < i ==> is_hex_digit(#[trigger] line@[k]),
        decreases line.len() - i,
    {
        let c = line[i];
        if !(('0' <= c && c <= '9') || ('a' <= c && c <= 'f')) {
            return false;
        }
        i = i + 1;
    }
    true
}

/// Reads a count of lines from a word of a change record.
fn read_line_count(word: &Vec<char>) -> (n: u32)
    ensures
        n == line_count(word@),
{
    match parse_u32(word) {
        Some(n) => n,
        None => 0,
    }
}

/// Reads a bulk history text into the events that it holds, in order.
///
/// Fails where a time is no number or no date, and where the text ends
/// within a header.
#[verifier::rlimit(50)]
pub fn parse_history(text: &str) -> (result: Result<Vec<CommitChangeEvent>, AnalysisError>)
    ensures
        match result {
            Ok(events) => parsed_history(text@) == Ok::<Seq<EventView>, AnalysisError>(
                event_views(events@),
            ),
            Err(e) => parsed_history(text@) == Err::<Seq<EventView>, AnalysisError>(e),
        },
{
    let chars = chars_of(text);
    let lines = split_lines(&chars);
    let mut events: Vec<CommitChangeEvent> = Vec::new();
    let mut expecting = Expecting::Record;
    let mut commit_id: Vec<char> = Vec::new();
    let mut timestamp: i64 = 0;
    let mut author: Vec<char> = Vec::new();
    let mut i: usize = 0;
    proof {
        assert(views(lines@).take(0) =~= Seq::empty());
        assert(event_views(events@) =~= Seq::empty());
    }
    while i < lines.len()
        invariant
            i <= lines.len(),
            views(lines@) == lines_of(text@),
            stream_after(views(lines@).take(i as int)) == (StreamState {
                expecting,
                commit_id: commit_id@,
                timestamp: timestamp as int,
                author: author@,
                events: event_views(events@),
                failure: None,
            }),
        decreases lines.len() - i,
    {
        let line = &lines[i];
        proof {
            let all = views(lines@);
            assert(all.take(i + 1).drop_last() =~= all.take(i as int));
            assert(all.take(i + 1).last() == line@);
        }
        match expecting {
            Expecting::Time => {
                match parse_i64(line) {
                    Some(t) => {
                        if timestamp_is_date(t) {
                            timestamp = t;
                            expecting = Expecting::Author;
                        } else {
                            proof {
                                lemma_failure_stays(views(lines@), i + 1);
                            }
                            return Err(AnalysisError::TimestampOutOfRange);
                        }
                    },
                    None => {
                        proof {
                            lemma_failure_stays(views(lines@), i + 1);
                        }
                        return Err(AnalysisError::MalformedTimestamp);
                    },
                }
            },
            Expecting::Author => {
                let end: usize = if line.len() > 0 && line[line.len() - 1] == '\0' {
                    line.len() - 1
                } else {
                    line.len()
                };
                author = copy_range(line, 0, end);
                proof {
                    assert(author@ =~= strip_nul(line@));
                }
                expecting = Expecting::Record;
            },
            Expecting::Record => {
                let body = trimmed(line);
                if body.len() == 0 {
                } else if commit_id_line(line) {
                    commit_id = copy_range(line, 0, line.len());
                    proof {
                        assert(commit_id@ =~= line@);
                    }
                    expecting = Expecting::Time;
                } else {
                    let words = split_words(line);
                    if words.len() == 3 {
                        proof {
                            assert(views(words@)[0] == words@[0]@);
                            assert(views(words@)[1] == words@[1]@);
                            assert(views(words@)[2] == words@[2]@);
                        }
                        let event = CommitChangeEvent {
                            commit_id: string_of(&commit_id),
                            author: string_of(&author),
                            timestamp,
                            file_path: string_of(&words[2]),
                            lines_added: read_line_count(&words[0]),
                            lines_deleted: read_line_count(&words[1]),
                        };
                        proof {
                            assert(event_views(events@.push(event)) =~= event_views(events@).push(
                                event@,
                            ));
                        }
                        events.push(event);
                    }
                }
            },
        }
        i = i + 1;
    }
    proof {
        assert(views(lines@).take(lines.len() as int) =~= views(lines@));
    }
    match expecting {
        Expecting::Record => Ok(events),
        _ => Err(AnalysisError::TruncatedHeader),
    }
}

} // verus!

//! The recap of recent commits: the commits of one author as the
//! version-control tool lists them, and the sum of their changes.

use crate::error::AnalysisError;
use crate::text::{
    chars_of, lines_of, parse_i32, parse_i32_spec, same_chars, split_lines, split_words,
    string_of, trim, trimmed, views, words_of,
};
use vstd::prelude::*;

verus! {

/// One commit of a recap, as a mathematical value.
pub struct CommitView {
    pub hash: Seq<char>,
    pub message: Seq<char>,
    pub relative_time: Seq<char>,
    pub author: Seq<char>,
}

/// One commit of a recap: abbreviated hash, subject, age in words, author.
#[derive(Debug)]
pub struct GitCommit {
    pub hash: String,
    pub message: String,
    pub relative_time: String,
    pub author: String,
}

impl View for GitCommit {
    type V = CommitView;

    open spec fn view(&self) -> CommitView {
        CommitView {
            hash: self.hash@,
            message: self.message@,
            relative_time: self.relative_time@,
            author: self.author@,
        }
    }
}

/// The sums of a recap: commits, lines added, lines deleted.
#[derive(Debug, Clone, Copy, PartialEq, Eq, Structural)]
pub struct GitStats {
    pub commits_count: i32,
    pub total_additions: i32,
    pub total_deletions: i32,
}

/// The pattern of a line of the commit list: a hexadecimal hash, the
/// subject, and in square brackets the age and the author.
pub open spec fn commit_line_pattern() -> Seq<char> {
    "^([0-9a-f]+) - (.*?) \\[(.*?) by (.*?)\\]$"@
}

/// What the regular expression `pattern` captures in `line`: for each group,
/// the whole match first, the text that it matched, or `None` where the
/// group took no part. `None` for the whole where the pattern is no regular
/// expression or does not match.
pub uninterp spec fn regex_groups(pattern: Seq<char>, line: Seq<char>) -> Option<
    Seq<Option<Seq<char>>>,
>;

/// The views of a sequence of optional strings.
pub open spec fn group_views(groups: Seq<Option<String>>) -> Seq<Option<Seq<char>>> {
    Seq::new(
        groups.len(),
        |i: int|
            match groups[i] {
                Some(text) => Some(text@),
                None => None,
            },
    )
}

/// Compiles `pattern` with `regex::Regex::new` and searches `line` with
/// `Regex::captures`. The result is what the name `regex_groups` stands for:
/// the groups of the leftmost match as `Captures::iter` yields them, each as
/// the text of its match.
#[verifier::external_body]
pub(crate) fn capture_groups(pattern: &str, line: &str) -> (groups: Option<Vec<Option<String>>>)
    ensures
        match groups {
            Some(found) => regex_groups(pattern@, line@) == Some(group_views(found@)),
            None => regex_groups(pattern@, line@) is None,
        },
{
    let expression = regex::Regex::new(pattern).ok()?;
    let captures = expression.captures(line)?;
    Some(captures.iter().map(|group| group.map(|found| found.as_str().to_string())).collect())
}

/// The commit that the captured groups of a line make; `None` where the line
/// did not match or a group is missing.
pub open spec fn commit_of_groups(groups: Option<Seq<Option<Seq<char>>>>) -> Option<CommitView> {
    match groups {
        Some(g) => if g.len() == 5 && g[1] is Some && g[2] is Some && g[3] is Some && g[4] is Some {
            Some(
                CommitView {
                    hash: g[1]->0,
                    message: g[2]->0,
                    relative_time: g[3]->0,
                    author: g[4]->0,
                },
            )
        } else {
            None
        },
        None => None,
    }
}

/// The commit that a line of the commit list names.
pub open spec fn commit_of_line(line: Seq<char>) -> Option<CommitView> {
    commit_of_groups(regex_groups(commit_line_pattern(), line))
}

/// The view of an optional commit.
pub open spec fn optional_commit_view(commit: Option<GitCommit>) -> Option<CommitView> {
    match commit {
        Some(c) => Some(c@),
        None => None,
    }
}

/// Makes a commit of the captured groups of a line: the four groups behind
/// the whole match, in order.
pub fn commit_from_groups(groups: &Option<Vec<Option<String>>>) -> (commit: Option<GitCommit>)
    ensures
        optional_commit_view(commit) == commit_of_groups(
            match *groups {
                Some(g) => Some(group_views(g@)),
                None => None,
            },
        ),
{
    match groups {
        Some(g) => {
            if g.len() != 5 {
                return None;
            }
            match (&g[1], &g[2], &g[3], &g[4]) {
                (Some(hash), Some(message), Some(relative_time), Some(author)) => Some(
                    GitCommit {
                        hash: hash.clone(),
                        message: message.clone(),
                        relative_time: relative_time.clone(),
                        author: author.clone(),
                    },
                ),
                _ => None,
            }
        },
        None => None,
    }
}

/// Reads one line of the commit list.
pub fn parse_commit_line(line: &str) -> (commit: Option<GitCommit>)
    ensures
        optional_commit_view(commit) == commit_of_line(line@),
{
    let groups = capture_groups("^([0-9a-f]+) - (.*?) \\[(.*?) by (.*?)\\]$", line);
    commit_from_groups(&groups)
}

/// The commits that the lines name, in order; lines that name none are
/// passed over.
pub open spec fn commits_of(lines: Seq<Seq<char>>) -> Seq<CommitView>
    decreases lines.len(),
{
    if lines.len() == 0 {
        Seq::empty()
    } else {
        match commit_of_line(lines.last()) {
            Some(c) => commits_of(lines.drop_last()).push(c),
            None => commits_of(lines.drop_last()),
        }
    }
}

/// The views of a sequence of commits.
pub open spec fn commit_views(commits: Seq<GitCommit>) -> Seq<CommitView> {
    Seq::new(commits.len(), |i: int| commits[i]@)
}

/// Reads the commit list that the version-control tool printed.
pub fn get_commits(log_output: &str) -> (commits: Vec<GitCommit>)
    ensures
        commit_views(commits@) == commits_of(lines_of(log_output@)),
{
    let chars = chars_of(log_output);
    let lines = split_lines(&chars);
    let mut commits: Vec<GitCommit> = Vec::new();
    let mut i: usize = 0;
    let ghost all = views(lines@);
    proof {
        assert(all.take(0) =~= Seq::empty());
        assert(commit_views(commits@) =~= Seq::empty());
    }
    while i < lines.len()
        invariant
            i <= lines.len(),
            all == views(lines@),
            commit_views(commits@) == commits_of(all.take(i as int)),
        decreases lines.len() - i,
    {
        let line = string_of(&lines[i]);
        proof {
            assert(all.take(i + 1).drop_last() =~= all.take(i as int));
            assert(all.take(i + 1).last() == line@);
        }
        match parse_commit_line(line.as_str()) {
            Some(commit) => {
                proof {
                    assert(commit_views(commits@.push(commit)) =~= commit_views(commits@).push(
                        commit@,
                    ));
                }
                commits.push(commit);
            },
            None => {},
        }
        i = i + 1;
    }
    proof {
        assert(all.take(lines.len() as int) =~= all);
    }
    commits
}

/// The sums of a recap as mathematical integers.
pub struct Totals {
    pub commits: int,
    pub additions: int,
    pub deletions: int,
}

/// The mark that stands for one commit in the change list.
pub open spec fn commit_mark() -> Seq<char> {
    "COMMIT"@
}

/// A count of lines as written in the change list; what is no number in the
/// range of 32 bits counts as zero.
pub open spec fn signed_count(word: Seq<char>) -> int {
    match parse_i32_spec(word) {
        Some(n) => n as int,
        None => 0,
    }
}

/// The sums after one more line: the commit mark counts a commit, and a
/// line of three words or more adds its first two words to the lines added
/// and deleted.
pub open spec fn totals_step(t: Totals, line: Seq<char>) -> Totals {
    let body = trim(line);
    if body == commit_mark() {
        Totals { commits: t.commits + 1, ..t }
    } else {
        let words = words_of(body);
        if words.len() >= 3 {
            Totals {
                additions: t.additions + signed_count(words[0]),
                deletions: t.deletions + signed_count(words[1]),
                ..t
            }
        } else {
            t
        }
    }
}

/// The sums of all the given lines.
pub open spec fn totals_of(lines: Seq<Seq<char>>) -> Totals
    decreases lines.len(),
{
    if lines.len() == 0 {
        Totals { commits: 0, additions: 0, deletions: 0 }
    } else {
        totals_step(totals_of(lines.drop_last()), lines.last())
    }
}

/// Whether an integer fits in 32 bits.
pub open spec fn fits_i32(n: int) -> bool {
    i32::MIN <= n <= i32::MAX
}

/// The sums of a change list, where each of them fits in 32 bits.
pub open spec fn stats_of(text: Seq<char>) -> Option<GitStats> {
    let t = totals_of(lines_of(text));
    if fits_i32(t.commits) && fits_i32(t.additions) && fits_i32(t.deletions) {
        Some(
            GitStats {
                commits_count: t.commits as i32,
                total_additions: t.additions as i32,
                total_deletions: t.deletions as i32,
            },
        )
    } else {
        None
    }
}

/// Reads a count of lines from a word of the change list.
fn read_signed_count(word: &Vec<char>) -> (n: i32)
    ensures
        n == signed_count(word@),
{
    match parse_i32(word) {
        Some(n) => n,
        None => 0,
    }
}

/// A sum as a 32-bit number, where it fits.
fn narrow(n: i128) -> (small: Option<i32>)
    ensures
        match small {
            Some(s) => s == n,
            None => !fits_i32(n as int),
        },
{
    if -0x8000_0000 <= n && n <= 0x7fff_ffff {
        Some(n as i32)
    } else {
        None
    }
}

/// Reads the change list that the version-control tool printed and sums it
/// up. `None` where a sum does not fit in 32 bits.
pub fn get_stats(log_output: &str) -> (stats: Option<GitStats>)
    ensures
        stats == stats_of(log_output@),
{
    let chars = chars_of(log_output);
    let lines = split_lines(&chars);
    let mark = chars_of("COMMIT");
    let mut commits: i128 = 0;
    let mut additions: i128 = 0;
    let mut deletions: i128 = 0;
    let mut i: usize = 0;
    let ghost all = views(lines@);
    proof {
        assert(all.take(0) =~= Seq::empty());
    }
    while i < lines.len()
        invariant
            i <= lines.len(),
            all == views(lines@),
            mark@ == commit_mark(),
            totals_of(all.take(i as int)) == (Totals {
                commits: commits as int,
                additions: additions as int,
                deletions: deletions as int,
            }),
            0 <= commits <= i,
            -0x8000_0000 * i <= additions <= 0x8000_0000 * i,
            -0x8000_0000 * i <= deletions <= 0x8000_0000 * i,
        decreases lines.len() - i,
    {
        proof {
            assert(all.take(i + 1).drop_last() =~= all.take(i as int));
            assert(all.take(i + 1).last() == lines@[i as int]@);
        }
        let body = trimmed(&lines[i]);
        if same_chars(&body, &mark) {
            commits = commits + 1;
        } else {
            let words = split_words(&body);
            if words.len() >= 3 {
                proof {
                    assert(views(words@)[0] == words@[0]@);
                    assert(views(words@)[1] == words@[1]@);
                }
                additions = additions + read_signed_count(&words[0]) as i128;
                deletions = deletions + read_signed_count(&words[1]) as i128;
            }
        }
        i = i + 1;
    }
    proof {
        assert(all.take(lines.len() as int) =~= all);
    }
    match (narrow(commits), narrow(additions), narrow(deletions)) {
        (Some(c), Some(a), Some(d)) => Some(
            GitStats { commits_count: c, total_additions: a, total_deletions: d },
        ),
        _ => None,
    }
}

/// Whether a path holds a repository, from what a probe of it found: it
/// must be a directory, and the version-control tool must have succeeded
/// and answered `true`.
pub open spec fn repo_verdict(is_directory: bool, succeeded: bool, answer: Seq<char>) -> Result<
    (),
    AnalysisError,
> {
    if !is_directory {
        Err(AnalysisError::NotADirectory)
    } else if !succeeded || trim(answer) != "true"@ {
        Err(AnalysisError::NotUnderVersionControl)
    } else {
        Ok(())
    }
}

/// Decides whether a path holds a repository. `is_directory` says whether
/// the path is a directory, `succeeded` whether the version-control tool
/// ran to a good end when asked if the path lies in a working tree, and
/// `answer` is what it printed.
pub fn validate_repo(is_directory: bool, succeeded: bool, answer: &str) -> (verdict: Result<
    (),
    AnalysisError,
>)
    ensures
        verdict == repo_verdict(is_directory, succeeded, answer@),
{
    if !is_directory {
        return Err(AnalysisError::NotADirectory);
    }
    let body = trimmed(&chars_of(answer));
    if !succeeded || !same_chars(&body, &chars_of("true")) {
        Err(AnalysisError::NotUnderVersionControl)
    } else {
        Ok(())
    }
}

} // verus!

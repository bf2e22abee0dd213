//! What is asked of the version-control tool: the arguments of each request
//! whose answer the analyses read.

use crate::path::push_all;
use crate::text::{
    chars_of, contains_char, optional_view, owned, parse_u64, parse_u64_spec, same_text,
    string_of, string_views, trim, trimmed,
};
use vstd::prelude::*;

verus! {

/// The word that asks for the whole history.
pub open spec fn all_history() -> Seq<char> {
    "all"@
}

/// The argument that bounds the history in time: none for the whole
/// history.
pub open spec fn since_arguments_of(since: Seq<char>) -> Seq<Seq<char>> {
    if since == all_history() {
        Seq::empty()
    } else {
        seq!["--since="@ + since]
    }
}

/// The pattern that selects the history of a path: the path itself where it
/// holds a dot, else everything below it.
pub open spec fn pathspec_of(path: Seq<char>) -> Seq<char> {
    if path.contains('.') {
        path
    } else {
        path + "/**"@
    }
}

/// The arguments that ask the version-control tool for the bulk history.
pub open spec fn history_arguments_of(since: Seq<char>, filter: Option<Seq<char>>) -> Seq<
    Seq<char>,
> {
    seq![
        "log"@,
        "--no-merges"@,
        "--format=%H%n%at%n%aN%x00"@,
        "--numstat"@,
        "--no-renames"@,
        "--full-history"@,
        "--all"@,
    ] + since_arguments_of(since) + match filter {
        Some(path) => seq!["--"@, pathspec_of(path)],
        None => Seq::empty(),
    }
}

/// The arguments that ask the version-control tool for the listing of the
/// working tree.
pub open spec fn listing_arguments_of(filter: Option<Seq<char>>) -> Seq<Seq<char>> {
    seq!["ls-files"@] + match filter {
        Some(path) => seq![path],
        None => Seq::empty(),
    }
}

/// The arguments that ask the version-control tool whether it tracks a path.
pub open spec fn tracking_arguments_of(path: Seq<char>) -> Seq<Seq<char>> {
    seq!["ls-files"@, "--error-unmatch"@, path]
}

/// The arguments that ask the version-control tool for the number of
/// commits.
pub open spec fn count_arguments_of(since: Seq<char>, filter: Option<Seq<char>>) -> Seq<Seq<char>> {
    seq!["rev-list"@, "--count"@, "HEAD"@] + since_arguments_of(since) + match filter {
        Some(path) => seq!["--"@, path],
        None => Seq::empty(),
    }
}

/// The number of commits that the version-control tool printed; zero where
/// it printed no number.
pub open spec fn commit_count_of(text: Seq<char>) -> u64 {
    match parse_u64_spec(trim(text)) {
        Some(n) => n,
        None => 0,
    }
}

/// Reads the number of commits that the version-control tool printed.
pub fn parse_commit_count(text: &str) -> (count: u64)
    ensures
        count == commit_count_of(text@),
{
    match parse_u64(&trimmed(&chars_of(text))) {
        Some(n) => n,
        None => 0,
    }
}

/// Appends an argument to a list of arguments.
fn push_argument(arguments: &mut Vec<String>, argument: String)
    ensures
        string_views(final(arguments)@) == string_views(old(arguments)@).push(argument@),
{
    proof {
        assert(string_views(arguments@.push(argument)) =~= string_views(arguments@).push(argument@));
    }
    arguments.push(argument);
}

/// Appends the argument that bounds the history in time.
fn push_since(arguments: &mut Vec<String>, since: &str)
    ensures
        string_views(final(arguments)@) == string_views(old(arguments)@) + since_arguments_of(since@),
{
    if same_text(since, "all") {
        proof {
            assert(string_views(arguments@) + Seq::<Seq<char>>::empty() =~= string_views(arguments@));
        }
    } else {
        let argument = flag_with("--since=", since);
        let ghost before = string_views(arguments@);
        push_argument(arguments, argument);
        proof {
            assert(before.push(argument@) =~= before + seq!["--since="@ + since@]);
        }
    }
}

/// The arguments that ask for the listing of the working tree.
pub fn listing_arguments(filter: &Option<String>) -> (arguments: Vec<String>)
    ensures
        string_views(arguments@) == listing_arguments_of(optional_view(*filter)),
{
    let mut arguments: Vec<String> = Vec::new();
    proof {
        assert(string_views(arguments@) =~= Seq::empty());
    }
    push_argument(&mut arguments, owned("ls-files"));
    proof {
        assert(string_views(arguments@) =~= seq!["ls-files"@]);
    }
    match filter {
        Some(path) => {
            push_argument(&mut arguments, path.clone());
            proof {
                assert(string_views(arguments@) =~= seq!["ls-files"@] + seq![path@]);
            }
        },
        None => {
            proof {
                assert(string_views(arguments@) =~= seq!["ls-files"@] + Seq::<
                    Seq<char>,
                >::empty());
            }
        },
    }
    arguments
}

/// The arguments that ask whether the working tree tracks a path.
pub fn tracking_arguments(path: &str) -> (arguments: Vec<String>)
    ensures
        string_views(arguments@) == tracking_arguments_of(path@),
{
    let mut arguments: Vec<String> = Vec::new();
    proof {
        assert(string_views(arguments@) =~= Seq::empty());
    }
    push_argument(&mut arguments, owned("ls-files"));
    push_argument(&mut arguments, owned("--error-unmatch"));
    push_argument(&mut arguments, owned(path));
    proof {
        assert(string_views(arguments@) =~= tracking_arguments_of(path@));
    }
    arguments
}

/// The arguments that ask for the number of commits.
pub fn count_arguments(since: &str, filter: &Option<String>) -> (arguments: Vec<String>)
    ensures
        string_views(arguments@) == count_arguments_of(since@, optional_view(*filter)),
{
    let mut arguments: Vec<String> = Vec::new();
    proof {
        assert(string_views(arguments@) =~= Seq::empty());
    }
    push_argument(&mut arguments, owned("rev-list"));
    push_argument(&mut arguments, owned("--count"));
    push_argument(&mut arguments, owned("HEAD"));
    proof {
        assert(string_views(arguments@) =~= seq!["rev-list"@, "--count"@, "HEAD"@]);
    }
    push_since(&mut arguments, since);
    let ghost head = string_views(arguments@);
    match filter {
        Some(path) => {
            push_argument(&mut arguments, owned("--"));
            push_argument(&mut arguments, path.clone());
            proof {
                assert(string_views(arguments@) =~= head + seq!["--"@, path@]);
            }
        },
        None => {
            proof {
                assert(head =~= head + Seq::<Seq<char>>::empty());
            }
        },
    }
    arguments
}

/// The arguments that ask for the bulk history: no merges, no renames
/// followed, one header per commit and the changed files with their
/// line counts.
pub fn history_arguments(since: &str, filter: &Option<String>) -> (arguments: Vec<String>)
    ensures
        string_views(arguments@) == history_arguments_of(since@, optional_view(*filter)),
{
    let mut arguments: Vec<String> = Vec::new();
    proof {
        assert(string_views(arguments@) =~= Seq::empty());
    }
    push_argument(&mut arguments, owned("log"));
    push_argument(&mut arguments, owned("--no-merges"));
    push_argument(&mut arguments, owned("--format=%H%n%at%n%aN%x00"));
    push_argument(&mut arguments, owned("--numstat"));
    push_argument(&mut arguments, owned("--no-renames"));
    push_argument(&mut arguments, owned("--full-history"));
    push_argument(&mut arguments, owned("--all"));
    proof {
        assert(string_views(arguments@) =~= seq![
            "log"@,
            "--no-merges"@,
            "--format=%H%n%at%n%aN%x00"@,
            "--numstat"@,
            "--no-renames"@,
            "--full-history"@,
            "--all"@,
        ]);
    }
    push_since(&mut arguments, since);
    let ghost head = string_views(arguments@);
    match filter {
        Some(path) => {
            let chars = chars_of(path.as_str());
            let spec_chars: Vec<char> = if contains_char(&chars, '.') {
                chars
            } else {
                let mut below = chars;
                push_all(&mut below, &chars_of("/**"));
                below
            };
            push_argument(&mut arguments, owned("--"));
            push_argument(&mut arguments, string_of(&spec_chars));
            proof {
                assert(spec_chars@ == pathspec_of(path@));
                assert(string_views(arguments@) =~= head + seq!["--"@, pathspec_of(path@)]);
            }
        },
        None => {
            proof {
                assert(head =~= head + Seq::<Seq<char>>::empty());
            }
        },
    }
    arguments
}

/// The arguments that ask the version-control tool for the history of one
/// file, renames followed.
pub open spec fn file_history_arguments_of(path: Seq<char>) -> Seq<Seq<char>> {
    seq!["log"@, "--follow"@, "--format=%H%x09%an%x09%at"@, "--"@, path]
}

/// The arguments that ask for the history of one file, renames followed.
pub fn file_history_arguments(path: &str) -> (arguments: Vec<String>)
    ensures
        string_views(arguments@) == file_history_arguments_of(path@),
{
    let mut arguments: Vec<String> = Vec::new();
    proof {
        assert(string_views(arguments@) =~= Seq::empty());
    }
    push_argument(&mut arguments, owned("log"));
    push_argument(&mut arguments, owned("--follow"));
    push_argument(&mut arguments, owned("--format=%H%x09%an%x09%at"));
    push_argument(&mut arguments, owned("--"));
    push_argument(&mut arguments, owned(path));
    proof {
        assert(string_views(arguments@) =~= file_history_arguments_of(path@));
    }
    arguments
}

/// A flag with its value behind it.
fn flag_with(flag: &str, value: &str) -> (argument: String)
    ensures
        argument@ == flag@ + value@,
{
    let mut chars = chars_of(flag);
    push_all(&mut chars, &chars_of(value));
    string_of(&chars)
}

/// The format of the commit list; with the changes shown, each commit is
/// followed by an empty line.
pub open spec fn commit_format_of(show_diff: bool) -> Seq<char> {
    if show_diff {
        "--pretty=format:%h - %s [%cr by %an]%n"@
    } else {
        "--pretty=format:%h - %s [%cr by %an]"@
    }
}

/// The arguments that ask the version-control tool for the commit list of
/// one author since a given time.
pub open spec fn commit_log_arguments_of(
    repo_path: Seq<char>,
    author: Seq<char>,
    since: Seq<char>,
    show_diff: bool,
) -> Seq<Seq<char>> {
    seq![
        "-C"@,
        repo_path,
        "--no-pager"@,
        "log"@,
        "--all"@,
        "--author="@ + author,
        "--since="@ + since,
        commit_format_of(show_diff),
    ]
}

/// The arguments that ask for the commit list of one author since a given
/// time.
pub fn commit_log_arguments(repo_path: &str, author: &str, since: &str, show_diff: bool) -> (arguments:
    Vec<String>)
    ensures
        string_views(arguments@) == commit_log_arguments_of(repo_path@, author@, since@, show_diff),
{
    let mut arguments: Vec<String> = Vec::new();
    proof {
        assert(string_views(arguments@) =~= Seq::empty());
    }
    push_argument(&mut arguments, owned("-C"));
    push_argument(&mut arguments, owned(repo_path));
    push_argument(&mut arguments, owned("--no-pager"));
    push_argument(&mut arguments, owned("log"));
    push_argument(&mut arguments, owned("--all"));
    push_argument(&mut arguments, flag_with("--author=", author));
    push_argument(&mut arguments, flag_with("--since=", since));
    if show_diff {
        push_argument(&mut arguments, owned("--pretty=format:%h - %s [%cr by %an]%n"));
    } else {
        push_argument(&mut arguments, owned("--pretty=format:%h - %s [%cr by %an]"));
    }
    proof {
        assert(string_views(arguments@) =~= commit_log_arguments_of(
            repo_path@,
            author@,
            since@,
            show_diff,
        ));
    }
    arguments
}

/// The arguments that ask the version-control tool for the change list of
/// one author since a given time.
pub open spec fn stats_arguments_of(repo_path: Seq<char>, author: Seq<char>, since: Seq<char>) -> Seq<
    Seq<char>,
> {
    seq![
        "-C"@,
        repo_path,
        "log"@,
        "--all"@,
        "--author="@ + author,
        "--since="@ + since,
        "--pretty=tformat:COMMIT"@,
        "--numstat"@,
    ]
}

/// The arguments that ask for the change list of one author since a given
/// time.
pub fn stats_arguments(repo_path: &str, author: &str, since: &str) -> (arguments: Vec<String>)
    ensures
        string_views(arguments@) == stats_arguments_of(repo_path@, author@, since@),
{
    let mut arguments: Vec<String> = Vec::new();
    proof {
        assert(string_views(arguments@) =~= Seq::empty());
    }
    push_argument(&mut arguments, owned("-C"));
    push_argument(&mut arguments, owned(repo_path));
    push_argument(&mut arguments, owned("log"));
    push_argument(&mut arguments, owned("--all"));
    push_argument(&mut arguments, flag_with("--author=", author));
    push_argument(&mut arguments, flag_with("--since=", since));
    push_argument(&mut arguments, owned("--pretty=tformat:COMMIT"));
    push_argument(&mut arguments, owned("--numstat"));
    proof {
        assert(string_views(arguments@) =~= stats_arguments_of(repo_path@, author@, since@));
    }
    arguments
}

/// The arguments that ask the version-control tool for the line attribution
/// of one file.
pub open spec fn attribution_arguments_of(path: Seq<char>) -> Seq<Seq<char>> {
    seq!["blame"@, "--line-porcelain"@, path]
}

/// The arguments that ask for the line attribution of one file, with the
/// author of each line named in full.
pub fn attribution_arguments(path: &str) -> (arguments: Vec<String>)
    ensures
        string_views(arguments@) == attribution_arguments_of(path@),
{
    let mut arguments: Vec<String> = Vec::new();
    proof {
        assert(string_views(arguments@) =~= Seq::empty());
    }
    push_argument(&mut arguments, owned("blame"));
    push_argument(&mut arguments, owned("--line-porcelain"));
    push_argument(&mut arguments, owned(path));
    proof {
        assert(string_views(arguments@) =~= attribution_arguments_of(path@));
    }
    arguments
}

} // verus!

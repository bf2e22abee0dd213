//! Line attribution: who wrote which lines of a file.
//!
//! The input is the per-line attribution text of one file. Each record names
//! the author of a line in a line that begins with `author `, and gives the
//! line itself behind a tab. Blank lines and comment lines are not counted.

use crate::error::AnalysisError;
use crate::tally::{tally_of, total, Tally};
use crate::text::{
    chars_of, copy_range, ends_with, lines_of, split_lines, starts_with, trim, trimmed,
    views,
};
use vstd::prelude::*;

verus! {

/// The tag before an author's name.
pub open spec fn author_tag() -> Seq<char> {
    seq!['a', 'u', 't', 'h', 'o', 'r', ' ']
}

/// What opens a block comment.
pub open spec fn block_open() -> Seq<char> {
    seq!['/', '*']
}

/// What closes a block comment.
pub open spec fn block_close() -> Seq<char> {
    seq!['*', '/']
}

/// What begins a line comment.
pub open spec fn line_comment() -> Seq<char> {
    seq!['/', '/']
}

/// Where a reading of attribution text stands: the author named last, whether
/// a block comment is open, and the author of each line counted so far.
pub struct Reading {
    pub author: Seq<char>,
    pub in_block: bool,
    pub credited: Seq<Seq<char>>,
}

/// The reading before any line.
pub open spec fn reading_start() -> Reading {
    Reading { author: Seq::empty(), in_block: false, credited: Seq::empty() }
}

/// The reading after one more line.
///
/// A line that begins with the author tag names the author of what follows.
/// A line that begins with a tab is a line of the file: it is counted for
/// the author unless it is blank, opens a block comment, lies within one, or
/// is a line comment. A block comment ends with the line that ends in its
/// closing mark.
pub open spec fn read_line(r: Reading, line: Seq<char>) -> Reading {
    if author_tag().is_prefix_of(line) {
        Reading { author: line.skip(7), ..r }
    } else if line.len() > 0 && line[0] == '\t' {
        let code = trim(line.skip(1));
        if code.len() == 0 {
            r
        } else if block_open().is_prefix_of(code) {
            Reading { in_block: true, ..r }
        } else if r.in_block {
            Reading { in_block: !block_close().is_suffix_of(code), ..r }
        } else if line_comment().is_prefix_of(code) {
            r
        } else {
            Reading { credited: r.credited.push(r.author), ..r }
        }
    } else {
        r
    }
}

/// The reading after all the given lines.
pub open spec fn read_lines(lines: Seq<Seq<char>>) -> Reading
    decreases lines.len(),
{
    if lines.len() == 0 {
        reading_start()
    } else {
        read_line(read_lines(lines.drop_last()), lines.last())
    }
}

/// The author of each counted line of an attribution text, in order.
pub open spec fn credited_authors(text: Seq<char>) -> Seq<Seq<char>> {
    read_lines(lines_of(text)).credited
}

/// The counted lines of one file: how many there are, and how many each
/// author wrote.
#[derive(Debug)]
pub struct Attribution {
    pub authors: Tally,
    pub total_lines: usize,
}

impl Attribution {
    /// The tally is sound and its counts add up to the total.
    pub open spec fn wf(&self) -> bool {
        &&& self.authors.wf()
        &&& total(self.authors@) == self.total_lines
    }
}

/// Reads the attribution text of one file.
///
/// Gives the number of counted lines and the lines per author, in the order
/// in which the authors first appear. Fails where no line is counted.
pub fn parse_attribution(text: &str) -> (result: Result<Attribution, AnalysisError>)
    ensures
        match result {
            Ok(found) => {
                &&& found.wf()
                &&& found.authors@ == tally_of(credited_authors(text@))
                &&& found.total_lines == credited_authors(text@).len()
                &&& found.total_lines > 0
            },
            Err(e) => e == AnalysisError::UnanalyzableFile && credited_authors(text@).len() == 0,
        },
{
    let chars = chars_of(text);
    let lines = split_lines(&chars);
    let tag: Vec<char> = vec!['a', 'u', 't', 'h', 'o', 'r', ' '];
    let open: Vec<char> = vec!['/', '*'];
    let close: Vec<char> = vec!['*', '/'];
    let slashes: Vec<char> = vec!['/', '/'];
    proof {
        assert(tag@ =~= author_tag());
        assert(open@ =~= block_open());
        assert(close@ =~= block_close());
        assert(slashes@ =~= line_comment());
    }
    let mut authors = Tally::new();
    let mut author: Vec<char> = Vec::new();
    let mut in_block = false;
    let mut counted: usize = 0;
    let mut i: usize = 0;
    proof {
        assert(views(lines@).take(0) =~= Seq::empty());
    }
    while i < lines.len()
        invariant
            i <= lines.len(),
            tag@ == author_tag(),
            open@ == block_open(),
            close@ == block_close(),
            slashes@ == line_comment(),
            authors.wf(),
            author@ == read_lines(views(lines@).take(i as int)).author,
            in_block == read_lines(views(lines@).take(i as int)).in_block,
            authors@ == tally_of(read_lines(views(lines@).take(i as int)).credited),
            counted == read_lines(views(lines@).take(i as int)).credited.len(),
            counted == total(authors@),
            counted <= i,
        decreases lines.len() - i,
    {
        let line = &lines[i];
        proof {
            let all = views(lines@);
            assert(all.take(i + 1).drop_last() =~= all.take(i as int));
            assert(all.take(i + 1).last() == line@);
            assert(author@.len() >= 0);
        }
        if starts_with(line, &tag) {
            author = copy_range(line, 7, line.len());
        } else if line.len() > 0 && line[0] == '\t' {
            let rest = copy_range(line, 1, line.len());
            let code = trimmed(&rest);
            if code.len() == 0 {
            } else if starts_with(&code, &open) {
                in_block = true;
            } else if in_block {
                in_block = !ends_with(&code, &close);
            } else if starts_with(&code, &slashes) {
            } else {
                let name = copy_range(&author, 0, author.len());
                proof {
                    assert(author@.subrange(0, author@.len() as int) =~= author@);
                    let before = read_lines(views(lines@).take(i as int)).credited;
                    assert(before.push(author@).drop_last() =~= before);
                }
                authors.add_chars(name);
                counted = counted + 1;
            }
        }
        i = i + 1;
    }
    proof {
        assert(views(lines@).take(lines.len() as int) =~= views(lines@));
    }
    if counted == 0 {
        Err(AnalysisError::UnanalyzableFile)
    } else {
        Ok(Attribution { authors, total_lines: counted })
    }
}

} // verus!

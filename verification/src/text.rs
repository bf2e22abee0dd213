//! Text primitives shared by the parsers: conversion between strings and
//! character sequences, line splitting, trimming, word splitting and decimal
//! numbers.

use vstd::prelude::*;

verus! {

/// `String::push` appends one character to the end of the string.
pub assume_specification[ String::push ](s: &mut String, c: char)
    ensures
        final(s)@ == old(s)@.push(c),
;

/// The characters of a string, in order.
pub fn chars_of(s: &str) -> (chars: Vec<char>)
    ensures
        chars@ == s@,
{
    let mut chars: Vec<char> = Vec::new();
    for c in it: s.chars()
        invariant
            it.seq() == s@,
            chars@ == it.seq().take(it.index() as int),
    {
        chars.push(c);
        proof {
            assert(it.seq().take(it.index() + 1) =~= it.seq().take(it.index() as int).push(c));
        }
    }
    proof {
        assert(s@.take(s@.len() as int) =~= s@);
    }
    chars
}

/// The string made of the given characters.
pub fn string_of(chars: &Vec<char>) -> (s: String)
    ensures
        s@ == chars@,
{
    let mut s = String::new();
    let mut i: usize = 0;
    while i < chars.len()
        invariant
            i <= chars.len(),
            s@ == chars@.take(i as int),
        decreases chars.len() - i,
    {
        s.push(chars[i]);
        i = i + 1;
        proof {
            assert(chars@.take(i as int) =~= chars@.take(i - 1).push(chars@[i - 1]));
        }
    }
    proof {
        assert(chars@.take(chars.len() as int) =~= chars@);
    }
    s
}

/// The views of a vector of character vectors, piece by piece.
pub open spec fn views(pieces: Seq<Vec<char>>) -> Seq<Seq<char>> {
    Seq::new(pieces.len(), |i: int| pieces[i]@)
}

/// Pushing a piece extends the views by that piece's view.
pub proof fn lemma_views_push(pieces: Seq<Vec<char>>, piece: Vec<char>)
    ensures
        views(pieces.push(piece)) == views(pieces).push(piece@),
{
    assert(views(pieces.push(piece)) =~= views(pieces).push(piece@));
}

/// A copy of the characters at positions `from..to`.
pub fn copy_range(chars: &Vec<char>, from: usize, to: usize) -> (piece: Vec<char>)
    requires
        from <= to <= chars.len(),
    ensures
        piece@ == chars@.subrange(from as int, to as int),
{
    let mut piece: Vec<char> = Vec::new();
    let mut i: usize = from;
    while i < to
        invariant
            from <= i <= to <= chars.len(),
            piece@ == chars@.subrange(from as int, i as int),
        decreases to - i,
    {
        piece.push(chars[i]);
        i = i + 1;
        proof {
            assert(chars@.subrange(from as int, i as int) =~= chars@.subrange(
                from as int,
                i - 1,
            ).push(chars@[i - 1]));
        }
    }
    piece
}

/// Whether two character vectors hold the same characters.
pub fn same_chars(a: &Vec<char>, b: &Vec<char>) -> (same: bool)
    ensures
        same == (a@ == b@),
{
    if a.len() != b.len() {
        return false;
    }
    let mut i: usize = 0;
    while i < a.len()
        invariant
            i <= a.len(),
            a.len() == b.len(),
            a@.take(i as int) == b@.take(i as int),
        decreases a.len() - i,
    {
        if a[i] != b[i] {
            return false;
        }
        i = i + 1;
        proof {
            assert(a@.take(i as int) =~= a@.take(i - 1).push(a@[i - 1]));
            assert(b@.take(i as int) =~= b@.take(i - 1).push(b@[i - 1]));
        }
    }
    proof {
        assert(a@.take(a.len() as int) =~= a@);
        assert(b@.take(b.len() as int) =~= b@);
    }
    true
}

/// Whether `text` begins with `prefix`.
pub fn starts_with(text: &Vec<char>, prefix: &Vec<char>) -> (found: bool)
    ensures
        found == prefix@.is_prefix_of(text@),
{
    if prefix.len() > text.len() {
        return false;
    }
    let mut i: usize = 0;
    while i < prefix.len()
        invariant
            i <= prefix.len() <= text.len(),
            text@.take(i as int) == prefix@.take(i as int),
        decreases prefix.len() - i,
    {
        if text[i] != prefix[i] {
            proof {
                if prefix@.is_prefix_of(text@) {
                    assert(text@.subrange(0, prefix@.len() as int)[i as int] == prefix@[i as int]);
                }
            }
            return false;
        }
        i = i + 1;
        proof {
            assert(text@.take(i as int) =~= text@.take(i - 1).push(text@[i - 1]));
            assert(prefix@.take(i as int) =~= prefix@.take(i - 1).push(prefix@[i - 1]));
        }
    }
    proof {
        assert(prefix@.take(prefix.len() as int) =~= prefix@);
        assert(text@.take(prefix.len() as int) =~= text@.subrange(0, prefix@.len() as int));
    }
    true
}

/// Whether `text` ends with `suffix`.
pub fn ends_with(text: &Vec<char>, suffix: &Vec<char>) -> (found: bool)
    ensures
        found == suffix@.is_suffix_of(text@),
{
    if suffix.len() > text.len() {
        return false;
    }
    let offset: usize = text.len() - suffix.len();
    let mut i: usize = 0;
    while i < suffix.len()
        invariant
            i <= suffix.len() <= text.len(),
            offset == text.len() - suffix.len(),
            forall|k: int| 0 <= k < i ==> text@[offset + k] == suffix@[k],
        decreases suffix.len() - i,
    {
        if text[offset + i] != suffix[i] {
            proof {
                if suffix@.is_suffix_of(text@) {
                    assert(text@.subrange(text@.len() - suffix@.len(), text@.len() as int)[i as int]
                        == suffix@[i as int]);
                }
            }
            return false;
        }
        i = i + 1;
    }
    proof {
        assert(text@.subrange(text@.len() - suffix@.len(), text@.len() as int) =~= suffix@);
    }
    true
}

/// Whether a character is white space (the Unicode property `White_Space`).
pub open spec fn is_whitespace(c: char) -> bool {
    ||| '\u{9}' <= c <= '\u{d}'
    ||| c == ' '
    ||| c == '\u{85}'
    ||| c == '\u{a0}'
    ||| c == '\u{1680}'
    ||| '\u{2000}' <= c <= '\u{200a}'
    ||| c == '\u{2028}'
    ||| c == '\u{2029}'
    ||| c == '\u{202f}'
    ||| c == '\u{205f}'
    ||| c == '\u{3000}'
}

/// Tests a character for white space.
pub fn whitespace(c: char) -> (yes: bool)
    ensures
        yes == is_whitespace(c),
{
    ('\u{9}' <= c && c <= '\u{d}') || c == ' ' || c == '\u{85}' || c == '\u{a0}' || c == '\u{1680}'
        || ('\u{2000}' <= c && c <= '\u{200a}') || c == '\u{2028}' || c == '\u{2029}' || c
        == '\u{202f}' || c == '\u{205f}' || c == '\u{3000}'
}

/// The text without its leading white space.
pub open spec fn trim_start(s: Seq<char>) -> Seq<char>
    decreases s.len(),
{
    if s.len() > 0 && is_whitespace(s[0]) {
        trim_start(s.drop_first())
    } else {
        s
    }
}

/// The text without its trailing white space.
pub open spec fn trim_end(s: Seq<char>) -> Seq<char>
    decreases s.len(),
{
    if s.len() > 0 && is_whitespace(s.last()) {
        trim_end(s.drop_last())
    } else {
        s
    }
}

/// The text without leading and trailing white space.
pub open spec fn trim(s: Seq<char>) -> Seq<char> {
    trim_end(trim_start(s))
}

/// Whether the text holds white space only.
pub open spec fn is_blank(s: Seq<char>) -> bool {
    trim(s).len() == 0
}

/// A text is blank exactly when each of its characters is white space.
pub proof fn lemma_blank_iff_all_whitespace(s: Seq<char>)
    ensures
        is_blank(s) <==> (forall|i: int| 0 <= i < s.len() ==> is_whitespace(#[trigger] s[i])),
    decreases s.len(),
{
    if s.len() > 0 && is_whitespace(s[0]) {
        lemma_blank_iff_all_whitespace(s.drop_first());
        let t = s.drop_first();
        if forall|i: int| 0 <= i < t.len() ==> is_whitespace(#[trigger] t[i]) {
            assert forall|i: int| 0 <= i < s.len() implies is_whitespace(#[trigger] s[i]) by {
                if i > 0 {
                    assert(s[i] == t[i - 1]);
                }
            }
        }
        if forall|i: int| 0 <= i < s.len() ==> is_whitespace(#[trigger] s[i]) {
            assert forall|i: int| 0 <= i < t.len() implies is_whitespace(#[trigger] t[i]) by {
                assert(t[i] == s[i + 1]);
            }
        }
    } else if s.len() > 0 {
        lemma_trim_end_keeps_first(s);
    }
}

/// Trailing white space is never trimmed past a first character that is none.
pub proof fn lemma_trim_end_keeps_first(s: Seq<char>)
    requires
        s.len() > 0,
        !is_whitespace(s[0]),
    ensures
        trim_end(s).len() > 0,
        trim_end(s)[0] == s[0],
    decreases s.len(),
{
    if is_whitespace(s.last()) {
        lemma_trim_end_keeps_first(s.drop_last());
    }
}

/// The text without leading and trailing white space.
pub fn trimmed(text: &Vec<char>) -> (out: Vec<char>)
    ensures
        out@ == trim(text@),
{
    let n = text.len();
    let mut a: usize = 0;
    proof {
        assert(text@.skip(0) =~= text@);
    }
    while a < n && whitespace(text[a])
        invariant
            a <= n == text.len(),
            trim_start(text@) == trim_start(text@.skip(a as int)),
        decreases n - a,
    {
        proof {
            assert(text@.skip(a as int).drop_first() =~= text@.skip(a + 1));
        }
        a = a + 1;
    }
    proof {
        assert(trim_start(text@) == text@.skip(a as int));
        assert(text@.skip(a as int) =~= text@.subrange(a as int, n as int));
    }
    let mut b: usize = n;
    while b > a && whitespace(text[b - 1])
        invariant
            a <= b <= n == text.len(),
            trim(text@) == trim_end(text@.subrange(a as int, b as int)),
        decreases b,
    {
        proof {
            assert(text@.subrange(a as int, b as int).drop_last() =~= text@.subrange(
                a as int,
                b - 1,
            ));
        }
        b = b - 1;
    }
    copy_range(text, a, b)
}

/// Position of the first `c` in `s`, or the length of `s` where there is none.
pub open spec fn first_index(s: Seq<char>, c: char) -> int
    decreases s.len(),
{
    if s.len() == 0 || s[0] == c {
        0
    } else {
        1 + first_index(s.drop_first(), c)
    }
}

/// `first_index` lies within the text, points at `c` where it is inside, and
/// passes over no `c`.
pub proof fn lemma_first_index_bounds(s: Seq<char>, c: char)
    ensures
        0 <= first_index(s, c) <= s.len(),
        first_index(s, c) < s.len() ==> s[first_index(s, c)] == c,
        forall|k: int| 0 <= k < first_index(s, c) ==> s[k] != c,
    decreases s.len(),
{
    if s.len() == 0 || s[0] == c {
    } else {
        let t = s.drop_first();
        lemma_first_index_bounds(t, c);
        assert forall|k: int| 0 <= k < first_index(s, c) implies s[k] != c by {
            if k > 0 {
                assert(s[k] == t[k - 1]);
            }
        }
    }
}

/// A position that has no `c` before it and holds `c`, or is the end, is the
/// first index of `c`.
pub proof fn lemma_first_index_is(s: Seq<char>, c: char, j: int)
    requires
        0 <= j <= s.len(),
        forall|k: int| 0 <= k < j ==> s[k] != c,
        j < s.len() ==> s[j] == c,
    ensures
        first_index(s, c) == j,
    decreases s.len(),
{
    if s.len() == 0 || s[0] == c {
    } else {
        let t = s.drop_first();
        assert forall|k: int| 0 <= k < j - 1 implies t[k] != c by {
            assert(t[k] == s[k + 1]);
        }
        lemma_first_index_is(t, c, j - 1);
    }
}

/// The pieces of `s` between occurrences of `c`: one more than there are
/// occurrences.
pub open spec fn split_on(s: Seq<char>, c: char) -> Seq<Seq<char>>
    decreases s.len(),
{
    let i = first_index(s, c);
    if 0 <= i < s.len() {
        seq![s.take(i)] + split_on(s.skip(i + 1), c)
    } else {
        seq![s]
    }
}

/// A line without the carriage return that ends it, if one does.
pub open spec fn strip_cr(line: Seq<char>) -> Seq<char> {
    if line.len() > 0 && line.last() == '\r' {
        line.drop_last()
    } else {
        line
    }
}

/// The lines of a text. A line ends at a line feed, or at a carriage return
/// directly followed by one; the last line may go without an ending.
pub open spec fn lines_of(s: Seq<char>) -> Seq<Seq<char>>
    decreases s.len(),
{
    if s.len() == 0 {
        Seq::empty()
    } else {
        let i = first_index(s, '\n');
        if 0 <= i < s.len() {
            seq![strip_cr(s.take(i))] + lines_of(s.skip(i + 1))
        } else {
            seq![s]
        }
    }
}

/// Splits a text at each occurrence of `c`.
pub fn split_at_char(text: &Vec<char>, c: char) -> (pieces: Vec<Vec<char>>)
    ensures
        views(pieces@) == split_on(text@, c),
{
    let n = text.len();
    let mut pieces: Vec<Vec<char>> = Vec::new();
    let mut start: usize = 0;
    let mut i: usize = 0;
    proof {
        assert(text@.skip(0) =~= text@);
        assert(views(pieces@) + split_on(text@, c) =~= split_on(text@, c));
    }
    while i < n
        invariant
            start <= i <= n == text.len(),
            forall|k: int| start <= k < i ==> text@[k] != c,
            views(pieces@) + split_on(text@.skip(start as int), c) == split_on(text@, c),
        decreases n - i,
    {
        if text[i] == c {
            let piece = copy_range(text, start, i);
            proof {
                let rest = text@.skip(start as int);
                lemma_first_index_is(rest, c, i - start);
                assert(rest.take(i - start) =~= text@.subrange(start as int, i as int));
                assert(rest.skip(i - start + 1) =~= text@.skip(i + 1));
                lemma_views_push(pieces@, piece);
                assert(views(pieces@).push(piece@) + split_on(text@.skip(i + 1), c) =~= views(
                    pieces@,
                ) + (seq![piece@] + split_on(text@.skip(i + 1), c)));
            }
            pieces.push(piece);
            start = i + 1;
        }
        i = i + 1;
    }
    let piece = copy_range(text, start, n);
    proof {
        let rest = text@.skip(start as int);
        lemma_first_index_is(rest, c, n - start);
        assert(rest =~= text@.subrange(start as int, n as int));
        lemma_views_push(pieces@, piece);
        assert(views(pieces@).push(piece@) =~= views(pieces@) + seq![piece@]);
    }
    pieces.push(piece);
    pieces
}

/// Splits a text into its lines.
pub fn split_lines(text: &Vec<char>) -> (lines: Vec<Vec<char>>)
    ensures
        views(lines@) == lines_of(text@),
{
    let n = text.len();
    let mut lines: Vec<Vec<char>> = Vec::new();
    let mut start: usize = 0;
    let mut i: usize = 0;
    proof {
        assert(text@.skip(0) =~= text@);
        assert(views(lines@) + lines_of(text@) =~= lines_of(text@));
    }
    while i < n
        invariant
            start <= i <= n == text.len(),
            forall|k: int| start <= k < i ==> text@[k] != '\n',
            views(lines@) + lines_of(text@.skip(start as int)) == lines_of(text@),
        decreases n - i,
    {
        if text[i] == '\n' {
            let end: usize = if i > start && text[i - 1] == '\r' {
                i - 1
            } else {
                i
            };
            let line = copy_range(text, start, end);
            proof {
                let rest = text@.skip(start as int);
                lemma_first_index_is(rest, '\n', i - start);
                assert(rest.take(i - start) =~= text@.subrange(start as int, i as int));
                assert(rest.skip(i - start + 1) =~= text@.skip(i + 1));
                assert(strip_cr(text@.subrange(start as int, i as int)) =~= line@);
                lemma_views_push(lines@, line);
                assert(views(lines@).push(line@) + lines_of(text@.skip(i + 1)) =~= views(lines@)
                    + (seq![line@] + lines_of(text@.skip(i + 1))));
            }
            lines.push(line);
            start = i + 1;
        }
        i = i + 1;
    }
    if start < n {
        let line = copy_range(text, start, n);
        proof {
            let rest = text@.skip(start as int);
            lemma_first_index_is(rest, '\n', n - start);
            assert(rest =~= text@.subrange(start as int, n as int));
            lemma_views_push(lines@, line);
            assert(views(lines@).push(line@) =~= views(lines@) + seq![line@]);
        }
        lines.push(line);
    } else {
        proof {
            assert(views(lines@) + Seq::<Seq<char>>::empty() =~= views(lines@));
        }
    }
    lines
}

/// Length of the run of characters other than white space that `s` begins with.
pub open spec fn word_len(s: Seq<char>) -> int
    decreases s.len(),
{
    if s.len() == 0 || is_whitespace(s[0]) {
        0
    } else {
        1 + word_len(s.drop_first())
    }
}

/// The words of a text: its maximal runs of characters other than white space.
pub open spec fn words_of(s: Seq<char>) -> Seq<Seq<char>>
    decreases s.len(),
{
    if s.len() == 0 {
        Seq::empty()
    } else if is_whitespace(s[0]) {
        words_of(s.drop_first())
    } else {
        let n = word_len(s);
        if 0 < n <= s.len() {
            seq![s.take(n)] + words_of(s.skip(n))
        } else {
            Seq::empty()
        }
    }
}

/// A run of `j` characters without white space, followed by white space or
/// the end, is the leading word.
pub proof fn lemma_word_len_is(s: Seq<char>, j: int)
    requires
        0 <= j <= s.len(),
        forall|k: int| 0 <= k < j ==> !is_whitespace(#[trigger] s[k]),
        j < s.len() ==> is_whitespace(s[j]),
    ensures
        word_len(s) == j,
    decreases s.len(),
{
    if s.len() == 0 || is_whitespace(s[0]) {
        if j > 0 {
            assert(!is_whitespace(s[0]));
        }
    } else {
        let t = s.drop_first();
        assert forall|k: int| 0 <= k < j - 1 implies !is_whitespace(#[trigger] t[k]) by {
            assert(t[k] == s[k + 1]);
        }
        lemma_word_len_is(t, j - 1);
    }
}

/// Splits a text into its words.
pub fn split_words(text: &Vec<char>) -> (words: Vec<Vec<char>>)
    ensures
        views(words@) == words_of(text@),
{
    let n = text.len();
    let mut words: Vec<Vec<char>> = Vec::new();
    let mut p: usize = 0;
    proof {
        assert(text@.skip(0) =~= text@);
        assert(views(words@) + words_of(text@) =~= words_of(text@));
    }
    while p < n
        invariant
            p <= n == text.len(),
            views(words@) + words_of(text@.skip(p as int)) == words_of(text@),
        decreases n - p,
    {
        if whitespace(text[p]) {
            proof {
                assert(text@.skip(p as int).drop_first() =~= text@.skip(p + 1));
            }
            p = p + 1;
        } else {
            let mut q: usize = p + 1;
            while q < n && !whitespace(text[q])
                invariant
                    p < q <= n == text.len(),
                    forall|k: int| p <= k < q ==> !is_whitespace(#[trigger] text@[k]),
                decreases n - q,
            {
                q = q + 1;
            }
            let word = copy_range(text, p, q);
            proof {
                let rest = text@.skip(p as int);
                assert forall|k: int| 0 <= k < q - p implies !is_whitespace(#[trigger] rest[k]) by {
                    assert(rest[k] == text@[p + k]);
                }
                lemma_word_len_is(rest, q - p);
                assert(rest.take(q - p) =~= text@.subrange(p as int, q as int));
                assert(rest.skip(q - p) =~= text@.skip(q as int));
                lemma_views_push(words@, word);
                assert(views(words@).push(word@) + words_of(text@.skip(q as int)) =~= views(
                    words@,
                ) + (seq![word@] + words_of(text@.skip(q as int))));
            }
            words.push(word);
            p = q;
        }
    }
    proof {
        assert(views(words@) + Seq::<Seq<char>>::empty() =~= views(words@));
    }
    words
}

/// Whether a character is one of the decimal digits `0` to `9`.
pub open spec fn is_digit(c: char) -> bool {
    '0' <= c <= '9'
}

/// The value of a decimal digit.
pub open spec fn digit_value(c: char) -> int {
    c as int - '0' as int
}

/// Whether the text is made of decimal digits only.
pub open spec fn all_digits(s: Seq<char>) -> bool {
    forall|i: int| 0 <= i < s.len() ==> is_digit(#[trigger] s[i])
}

/// The number that a sequence of decimal digits writes.
pub open spec fn decimal_value(s: Seq<char>) -> int
    decreases s.len(),
{
    if s.len() == 0 {
        0
    } else {
        decimal_value(s.drop_last()) * 10 + digit_value(s.last())
    }
}

/// The integer that a text writes: decimal digits, at least one, after an
/// optional sign. `None` for any other text.
pub open spec fn signed_decimal(s: Seq<char>) -> Option<int> {
    if s.len() == 0 {
        None
    } else if s[0] == '-' {
        if s.len() > 1 && all_digits(s.skip(1)) {
            Some(-decimal_value(s.skip(1)))
        } else {
            None
        }
    } else if s[0] == '+' {
        if s.len() > 1 && all_digits(s.skip(1)) {
            Some(decimal_value(s.skip(1)))
        } else {
            None
        }
    } else if all_digits(s) {
        Some(decimal_value(s))
    } else {
        None
    }
}

/// The natural number that a text writes: decimal digits, at least one,
/// after an optional plus sign. `None` for any other text.
pub open spec fn unsigned_decimal(s: Seq<char>) -> Option<int> {
    if s.len() == 0 || s[0] == '-' {
        None
    } else {
        signed_decimal(s)
    }
}

/// What parsing a text as a 64-bit signed integer gives.
pub open spec fn parse_i64_spec(s: Seq<char>) -> Option<i64> {
    match signed_decimal(s) {
        Some(v) => if i64::MIN <= v <= i64::MAX {
            Some(v as i64)
        } else {
            None
        },
        None => None,
    }
}

/// What parsing a text as a 32-bit signed integer gives.
pub open spec fn parse_i32_spec(s: Seq<char>) -> Option<i32> {
    match signed_decimal(s) {
        Some(v) => if i32::MIN <= v <= i32::MAX {
            Some(v as i32)
        } else {
            None
        },
        None => None,
    }
}

/// What parsing a text as a 64-bit unsigned integer gives.
pub open spec fn parse_u64_spec(s: Seq<char>) -> Option<u64> {
    match unsigned_decimal(s) {
        Some(v) => if 0 <= v <= u64::MAX {
            Some(v as u64)
        } else {
            None
        },
        None => None,
    }
}

/// What parsing a text as a 32-bit unsigned integer gives.
pub open spec fn parse_u32_spec(s: Seq<char>) -> Option<u32> {
    match unsigned_decimal(s) {
        Some(v) => if 0 <= v <= u32::MAX {
            Some(v as u32)
        } else {
            None
        },
        None => None,
    }
}

/// The value of a digit sequence is never negative and grows with each
/// digit appended.
pub proof fn lemma_decimal_value_monotone(s: Seq<char>, k: int)
    requires
        all_digits(s),
        0 <= k <= s.len(),
    ensures
        0 <= decimal_value(s.take(k)) <= decimal_value(s),
    decreases s.len() - k,
{
    lemma_decimal_value_nonnegative(s.take(k));
    if k < s.len() {
        lemma_decimal_value_monotone(s, k + 1);
        assert(s.take(k + 1).drop_last() =~= s.take(k));
        assert(is_digit(s[k]));
        assert(s.take(k + 1).last() == s[k]);
    } else {
        assert(s.take(k) =~= s);
    }
}

/// The value of a digit sequence is never negative.
pub proof fn lemma_decimal_value_nonnegative(s: Seq<char>)
    requires
        all_digits(s),
    ensures
        0 <= decimal_value(s),
    decreases s.len(),
{
    if s.len() > 0 {
        assert(is_digit(s.last()));
        lemma_decimal_value_nonnegative(s.drop_last());
    }
}

/// Value of the digits at `from..`, where they are digits throughout and the
/// value is at most `limit`.
fn digits_up_to(text: &Vec<char>, from: usize, limit: u64) -> (value: Option<u64>)
    requires
        from <= text.len(),
    ensures
        value is Some <==> all_digits(text@.skip(from as int)) && decimal_value(
            text@.skip(from as int),
        ) <= limit,
        value is Some ==> value->0 == decimal_value(text@.skip(from as int)),
{
    let n = text.len();
    let ghost digits = text@.skip(from as int);
    let mut acc: u64 = 0;
    let mut i: usize = from;
    proof {
        assert(digits.take(0) =~= Seq::<char>::empty());
    }
    while i < n
        invariant
            from <= i <= n == text.len(),
            digits == text@.skip(from as int),
            all_digits(digits.take(i - from)),
            acc == decimal_value(digits.take(i - from)),
            acc <= limit,
        decreases n - i,
    {
        let c = text[i];
        proof {
            assert(digits[i - from] == c);
            assert(digits.take(i - from + 1).drop_last() =~= digits.take(i - from));
            assert(digits.take(i - from + 1).last() == c);
        }
        if !('0' <= c && c <= '9') {
            proof {
                if all_digits(digits) {
                    assert(is_digit(digits[i - from]));
                }
            }
            return None;
        }
        let d: u64 = (c as u32 - '0' as u32) as u64;
        proof {
            assert forall|k: int| 0 <= k < i - from + 1 implies is_digit(
                #[trigger] digits.take(i - from + 1)[k],
            ) by {
                if k < i - from {
                    assert(digits.take(i - from + 1)[k] == digits.take(i - from)[k]);
                }
            }
        }
        if limit < d || acc > (limit - d) / 10 {
            proof {
                if all_digits(digits) {
                    lemma_decimal_value_monotone(digits, i - from + 1);
                }
            }
            return None;
        }
        acc = acc * 10 + d;
        i = i + 1;
    }
    proof {
        assert(digits.take(n - from) =~= digits);
    }
    Some(acc)
}

/// The value of a text of decimal digits, where it is made of digits only
/// and its value is at most `limit`.
pub fn digits_value(text: &Vec<char>, limit: u64) -> (value: Option<u64>)
    ensures
        value is Some <==> all_digits(text@) && decimal_value(text@) <= limit,
        value is Some ==> value->0 == decimal_value(text@),
{
    proof {
        assert(text@.skip(0) =~= text@);
    }
    digits_up_to(text, 0, limit)
}

/// The position of the first `c` in the text, or its length where there is
/// none.
pub fn find_char(text: &Vec<char>, c: char) -> (at: usize)
    ensures
        at == first_index(text@, c),
        at <= text@.len(),
{
    let mut i: usize = 0;
    while i < text.len() && text[i] != c
        invariant
            i <= text.len(),
            forall|k: int| 0 <= k < i ==> text@[k] != c,
        decreases text.len() - i,
    {
        i = i + 1;
    }
    proof {
        lemma_first_index_is(text@, c, i as int);
    }
    i
}

/// Parses a decimal integer in the range of `i64`.
pub fn parse_i64(text: &Vec<char>) -> (value: Option<i64>)
    ensures
        value == parse_i64_spec(text@),
{
    if text.len() == 0 {
        return None;
    }
    if text[0] == '-' {
        if text.len() == 1 {
            return None;
        }
        match digits_up_to(text, 1, 0x8000_0000_0000_0000) {
            Some(v) => {
                if v == 0x8000_0000_0000_0000 {
                    Some(i64::MIN)
                } else {
                    Some(-(v as i64))
                }
            },
            None => {
                proof {
                    if all_digits(text@.skip(1)) {
                        lemma_decimal_value_nonnegative(text@.skip(1));
                    }
                }
                None
            },
        }
    } else {
        let from: usize = if text[0] == '+' {
            1
        } else {
            0
        };
        if text.len() == from {
            return None;
        }
        proof {
            assert(text@.skip(0) =~= text@);
            if all_digits(text@.skip(from as int)) {
                lemma_decimal_value_nonnegative(text@.skip(from as int));
            }
        }
        match digits_up_to(text, from, 0x7fff_ffff_ffff_ffff) {
            Some(v) => Some(v as i64),
            None => None,
        }
    }
}

/// Parses a decimal integer in the range of `i32`.
pub fn parse_i32(text: &Vec<char>) -> (value: Option<i32>)
    ensures
        value == parse_i32_spec(text@),
{
    match parse_i64(text) {
        Some(v) => if -0x8000_0000 <= v && v <= 0x7fff_ffff {
            Some(v as i32)
        } else {
            None
        },
        None => {
            proof {
                lemma_signed_decimal_defined(text@);
            }
            None
        },
    }
}

/// Where a text writes no 64-bit integer, it writes none of 32 bits either.
proof fn lemma_signed_decimal_defined(s: Seq<char>)
    requires
        parse_i64_spec(s) is None,
    ensures
        parse_i32_spec(s) is None,
{
}

/// Where a text writes no 64-bit natural number, it writes none of 32 bits
/// either.
proof fn lemma_unsigned_decimal_defined(s: Seq<char>)
    requires
        parse_u64_spec(s) is None,
    ensures
        parse_u32_spec(s) is None,
{
}

/// Parses a decimal natural number in the range of `u64`.
pub fn parse_u64(text: &Vec<char>) -> (value: Option<u64>)
    ensures
        value == parse_u64_spec(text@),
{
    if text.len() == 0 || text[0] == '-' {
        return None;
    }
    let from: usize = if text[0] == '+' {
        1
    } else {
        0
    };
    if text.len() == from {
        return None;
    }
    proof {
        assert(text@.skip(0) =~= text@);
        if all_digits(text@.skip(from as int)) {
            lemma_decimal_value_nonnegative(text@.skip(from as int));
        }
    }
    digits_up_to(text, from, 0xffff_ffff_ffff_ffff)
}

/// Parses a decimal natural number in the range of `u32`.
pub fn parse_u32(text: &Vec<char>) -> (value: Option<u32>)
    ensures
        value == parse_u32_spec(text@),
{
    match parse_u64(text) {
        Some(v) => {
            if v <= 0xffff_ffff {
                Some(v as u32)
            } else {
                None
            }
        },
        None => {
            proof {
                lemma_unsigned_decimal_defined(text@);
            }
            None
        },
    }
}

/// Whether two strings hold the same characters.
pub fn same_text(a: &str, b: &str) -> (same: bool)
    ensures
        same == (a@ == b@),
{
    let x = chars_of(a);
    let y = chars_of(b);
    same_chars(&x, &y)
}

/// An owned copy of a string.
pub fn owned(s: &str) -> (copy: String)
    ensures
        copy@ == s@,
{
    s.to_owned()
}

/// Whether the text holds the character.
pub fn contains_char(text: &Vec<char>, c: char) -> (yes: bool)
    ensures
        yes == text@.contains(c),
{
    let mut i: usize = 0;
    while i < text.len()
        invariant
            i <= text.len(),
            forall|k: int| 0 <= k < i ==> text@[k] != c,
        decreases text.len() - i,
    {
        if text[i] == c {
            return true;
        }
        i = i + 1;
    }
    false
}

/// The character that writes a digit value.
pub open spec fn digit_char(d: int) -> char {
    if d == 0 {
        '0'
    } else if d == 1 {
        '1'
    } else if d == 2 {
        '2'
    } else if d == 3 {
        '3'
    } else if d == 4 {
        '4'
    } else if d == 5 {
        '5'
    } else if d == 6 {
        '6'
    } else if d == 7 {
        '7'
    } else if d == 8 {
        '8'
    } else {
        '9'
    }
}

/// The decimal digits of a natural number, without leading zeros.
pub open spec fn decimal_digits(n: nat) -> Seq<char>
    decreases n,
{
    if n < 10 {
        seq![digit_char(n as int)]
    } else {
        decimal_digits(n / 10).push(digit_char((n % 10) as int))
    }
}

/// An integer written in decimal, with a minus sign where it is negative.
pub open spec fn decimal_text(n: int) -> Seq<char> {
    if n < 0 {
        seq!['-'] + decimal_digits((-n) as nat)
    } else {
        decimal_digits(n as nat)
    }
}

/// The digits of a number are digits and write that number.
pub proof fn lemma_decimal_digits_value(n: nat)
    ensures
        decimal_digits(n).len() >= 1,
        all_digits(decimal_digits(n)),
        decimal_value(decimal_digits(n)) == n,
    decreases n,
{
    if n < 10 {
        let s = decimal_digits(n);
        assert(s.drop_last() =~= Seq::<char>::empty());
        assert(decimal_value(s.drop_last()) == 0);
    } else {
        lemma_decimal_digits_value(n / 10);
        let s = decimal_digits(n);
        assert(s.drop_last() =~= decimal_digits(n / 10));
        assert forall|i: int| 0 <= i < s.len() implies is_digit(#[trigger] s[i]) by {
            if i < s.len() - 1 {
                assert(s[i] == decimal_digits(n / 10)[i]);
            }
        }
    }
}

/// Reading back what was written gives the number.
pub proof fn lemma_decimal_round_trip(n: int)
    ensures
        signed_decimal(decimal_text(n)) == Some(n),
{
    if n < 0 {
        let digits = decimal_digits((-n) as nat);
        lemma_decimal_digits_value((-n) as nat);
        assert(decimal_text(n).skip(1) =~= digits);
    } else {
        lemma_decimal_digits_value(n as nat);
        let s = decimal_digits(n as nat);
        assert(is_digit(s[0]));
    }
}

/// The character of a digit value.
fn digit_of(d: u64) -> (c: char)
    requires
        d < 10,
    ensures
        c == digit_char(d as int),
{
    if d == 0 {
        '0'
    } else if d == 1 {
        '1'
    } else if d == 2 {
        '2'
    } else if d == 3 {
        '3'
    } else if d == 4 {
        '4'
    } else if d == 5 {
        '5'
    } else if d == 6 {
        '6'
    } else if d == 7 {
        '7'
    } else if d == 8 {
        '8'
    } else {
        '9'
    }
}

/// Appends the decimal digits of `n` to `out`.
pub fn push_digits(out: &mut Vec<char>, n: u64)
    ensures
        final(out)@ == old(out)@ + decimal_digits(n as nat),
    decreases n,
{
    if n < 10 {
        out.push(digit_of(n));
        proof {
            assert(out@ =~= old(out)@ + decimal_digits(n as nat));
        }
    } else {
        push_digits(out, n / 10);
        out.push(digit_of(n % 10));
        proof {
            assert(out@ =~= old(out)@ + decimal_digits(n as nat));
        }
    }
}

/// Appends `n` in decimal to `out`.
pub fn push_decimal(out: &mut Vec<char>, n: i64)
    ensures
        final(out)@ == old(out)@ + decimal_text(n as int),
{
    if n < 0 {
        out.push('-');
        let magnitude: u64 = if n == i64::MIN {
            0x8000_0000_0000_0000
        } else {
            (-n) as u64
        };
        push_digits(out, magnitude);
        proof {
            assert(out@ =~= old(out)@ + (seq!['-'] + decimal_digits((-n) as nat)));
        }
    } else {
        push_digits(out, n as u64);
    }
}

/// Appends the characters of a string to `out`.
pub fn push_str(out: &mut Vec<char>, more: &str)
    ensures
        final(out)@ == old(out)@ + more@,
{
    let chars = chars_of(more);
    let mut i: usize = 0;
    proof {
        assert(out@ =~= old(out)@ + chars@.take(0));
    }
    while i < chars.len()
        invariant
            i <= chars.len(),
            out@ == old(out)@ + chars@.take(i as int),
        decreases chars.len() - i,
    {
        out.push(chars[i]);
        i = i + 1;
        proof {
            assert(chars@.take(i as int) =~= chars@.take(i - 1).push(chars@[i - 1]));
            assert(out@ =~= old(out)@ + chars@.take(i as int));
        }
    }
    proof {
        assert(chars@.take(chars.len() as int) =~= chars@);
    }
}

/// The view of an optional text.
pub open spec fn optional_view(text: Option<String>) -> Option<Seq<char>> {
    match text {
        Some(t) => Some(t@),
        None => None,
    }
}

/// The views of a sequence of strings.
pub open spec fn string_views(texts: Seq<String>) -> Seq<Seq<char>> {
    Seq::new(texts.len(), |i: int| texts[i]@)
}

/// A sequence with one more item holds what it held before, and that item.
pub proof fn lemma_push_contains(s: Seq<Seq<char>>, x: Seq<char>, p: Seq<char>)
    ensures
        s.push(x).contains(p) <==> s.contains(p) || p == x,
{
    let t = s.push(x);
    if s.contains(p) {
        let k = choose|k: int| 0 <= k < s.len() && s[k] == p;
        assert(t[k] == p);
    }
    if p == x {
        assert(t[s.len() as int] == p);
    }
    if t.contains(p) {
        let k = choose|k: int| 0 <= k < t.len() && t[k] == p;
        if k < s.len() {
            assert(s[k] == p);
        }
    }
}

} // verus!

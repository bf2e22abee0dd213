//! Paths relative to the repository root.
//!
//! Paths are texts whose components are separated by `/`. Empty components
//! and `.` components do not count, except for a `.` that a path begins
//! with; a leading `/` makes a path absolute.

use crate::text::{
    chars_of, copy_range, first_index, same_chars, split_at_char, split_on, starts_with, string_of,
    views, lemma_first_index_bounds, lemma_views_push,
};
use vstd::prelude::*;

verus! {

/// Whether a path starts at the root of the file system.
pub open spec fn is_rooted(s: Seq<char>) -> bool {
    s.len() > 0 && s[0] == '/'
}

/// The component that stands for the current directory.
pub open spec fn dot() -> Seq<char> {
    seq!['.']
}

/// The component that stands for the root of the file system.
pub open spec fn root_mark() -> Seq<char> {
    seq!['/']
}

/// Whether a piece between separators names something: it is neither empty
/// nor `.`.
pub open spec fn is_name(piece: Seq<char>) -> bool {
    piece.len() > 0 && piece != dot()
}

/// The pieces that name something, in order.
pub open spec fn names_in(pieces: Seq<Seq<char>>) -> Seq<Seq<char>>
    decreases pieces.len(),
{
    if pieces.len() == 0 {
        Seq::empty()
    } else if is_name(pieces.last()) {
        names_in(pieces.drop_last()).push(pieces.last())
    } else {
        names_in(pieces.drop_last())
    }
}

/// What a path begins with besides names: the root mark for an absolute
/// path, `.` for a path that begins with that component, else nothing.
pub open spec fn lead_of(s: Seq<char>) -> Seq<Seq<char>> {
    if is_rooted(s) {
        seq![root_mark()]
    } else if split_on(s, '/')[0] == dot() {
        seq![dot()]
    } else {
        Seq::empty()
    }
}

/// The components of a path.
pub open spec fn components_of(s: Seq<char>) -> Seq<Seq<char>> {
    lead_of(s) + names_in(split_on(s, '/'))
}

/// The components written with one separator between each two.
pub open spec fn joined(parts: Seq<Seq<char>>) -> Seq<char>
    decreases parts.len(),
{
    if parts.len() == 0 {
        Seq::empty()
    } else if parts.len() == 1 {
        parts[0]
    } else {
        joined(parts.drop_last()) + seq!['/'] + parts.last()
    }
}

/// The path with the given components.
pub open spec fn rendered(parts: Seq<Seq<char>>) -> Seq<char> {
    if parts.len() > 0 && parts[0] == root_mark() {
        root_mark() + joined(parts.skip(1))
    } else {
        joined(parts)
    }
}

/// The rest of `path` behind `base`, where the components of `base` are the
/// first components of `path`; `None` where they are not.
pub open spec fn strip_prefix_of(path: Seq<char>, base: Seq<char>) -> Option<Seq<char>> {
    let p = components_of(path);
    let b = components_of(base);
    if b.is_prefix_of(p) {
        Some(rendered(p.skip(b.len() as int)))
    } else {
        None
    }
}

/// The text with every backslash turned into a slash.
pub open spec fn forward_slashes_of(s: Seq<char>) -> Seq<char> {
    Seq::new(s.len(), |i: int| if s[i] == '\\' { '/' } else { s[i] })
}

/// The text without the slashes that it begins with.
pub open spec fn without_leading_slashes(s: Seq<char>) -> Seq<char>
    decreases s.len(),
{
    if s.len() > 0 && s[0] == '/' {
        without_leading_slashes(s.drop_first())
    } else {
        s
    }
}

/// The text without the slashes that it ends with.
pub open spec fn without_trailing_slashes(s: Seq<char>) -> Seq<char>
    decreases s.len(),
{
    if s.len() > 0 && s.last() == '/' {
        without_trailing_slashes(s.drop_last())
    } else {
        s
    }
}

/// `path` seen from `base`: `path` itself where it is absolute or `base` is
/// empty, else `base`, a separator unless `base` ends with one, and `path`.
pub open spec fn resolved(base: Seq<char>, path: Seq<char>) -> Seq<char> {
    if is_rooted(path) || base.len() == 0 {
        path
    } else if base.last() == '/' {
        base + path
    } else {
        base + seq!['/'] + path
    }
}

/// A path filter as the repository sees it. Backslashes count as slashes. A
/// relative filter is taken from the root. Where the result lies under the
/// root, it is given relative to the root; where not, it stays as it is.
pub open spec fn normalized_filter(root: Seq<char>, filter: Seq<char>) -> Seq<char> {
    let p = forward_slashes_of(filter);
    let candidate = if is_rooted(p) {
        p
    } else {
        without_trailing_slashes(root) + seq!['/'] + without_leading_slashes(p)
    };
    match strip_prefix_of(candidate, root) {
        Some(relative) => forward_slashes_of(relative),
        None => p,
    }
}

/// A normalized filter as it holds from the current directory: where that
/// directory lies under the root and the filter does not already begin with
/// its path from the root, that path is put before the filter.
pub open spec fn effective_filter_of(root: Seq<char>, current_dir: Seq<char>, filter: Seq<char>) -> Seq<
    char,
> {
    match strip_prefix_of(current_dir, root) {
        Some(relative) => {
            let here = forward_slashes_of(relative);
            if here.is_prefix_of(filter) {
                filter
            } else {
                here + seq!['/'] + filter
            }
        },
        None => filter,
    }
}

/// Splitting gives at least one piece.
pub proof fn lemma_split_on_nonempty(s: Seq<char>, c: char)
    ensures
        split_on(s, c).len() >= 1,
        first_index(s, c) >= s.len() ==> split_on(s, c)[0] == s,
        first_index(s, c) < s.len() ==> split_on(s, c)[0] == s.take(first_index(s, c)),
    decreases s.len(),
{
    lemma_first_index_bounds(s, c);
}

/// Appends the characters of `more` to `text`.
pub fn push_all(text: &mut Vec<char>, more: &Vec<char>)
    ensures
        final(text)@ == old(text)@ + more@,
{
    let mut i: usize = 0;
    proof {
        assert(text@ =~= old(text)@ + more@.take(0));
    }
    while i < more.len()
        invariant
            i <= more.len(),
            text@ == old(text)@ + more@.take(i as int),
        decreases more.len() - i,
    {
        text.push(more[i]);
        i = i + 1;
        proof {
            assert(more@.take(i as int) =~= more@.take(i - 1).push(more@[i - 1]));
            assert(text@ =~= old(text)@ + more@.take(i as int));
        }
    }
    proof {
        assert(more@.take(more.len() as int) =~= more@);
    }
}

/// Splits a path into its components.
pub fn components(path: &Vec<char>) -> (parts: Vec<Vec<char>>)
    ensures
        views(parts@) == components_of(path@),
{
    let pieces = split_at_char(path, '/');
    proof {
        lemma_split_on_nonempty(path@, '/');
    }
    let mut parts: Vec<Vec<char>> = Vec::new();
    let single_dot: Vec<char> = vec!['.'];
    proof {
        assert(single_dot@ =~= dot());
        assert(views(pieces@)[0] == pieces@[0]@);
    }
    if path.len() > 0 && path[0] == '/' {
        let mark: Vec<char> = vec!['/'];
        proof {
            assert(mark@ =~= root_mark());
            lemma_views_push(parts@, mark);
            assert(views(parts@).push(mark@) =~= lead_of(path@));
        }
        parts.push(mark);
    } else if same_chars(&pieces[0], &single_dot) {
        let first: Vec<char> = vec!['.'];
        proof {
            assert(first@ =~= dot());
            lemma_views_push(parts@, first);
            assert(views(parts@).push(first@) =~= lead_of(path@));
        }
        parts.push(first);
    } else {
        proof {
            assert(views(parts@) =~= lead_of(path@));
        }
    }
    let mut i: usize = 0;
    proof {
        assert(views(pieces@).take(0) =~= Seq::empty());
        assert(views(parts@) =~= lead_of(path@) + names_in(views(pieces@).take(0)));
    }
    while i < pieces.len()
        invariant
            i <= pieces.len(),
            single_dot@ == dot(),
            views(parts@) == lead_of(path@) + names_in(views(pieces@).take(i as int)),
        decreases pieces.len() - i,
    {
        let piece = &pieces[i];
        proof {
            let all = views(pieces@);
            assert(all.take(i + 1).drop_last() =~= all.take(i as int));
            assert(all.take(i + 1).last() == piece@);
        }
        if piece.len() > 0 && !same_chars(piece, &single_dot) {
            let name = copy_range(piece, 0, piece.len());
            proof {
                assert(name@ =~= piece@);
                lemma_views_push(parts@, name);
                assert(views(parts@).push(name@) =~= lead_of(path@) + names_in(
                    views(pieces@).take(i as int),
                ).push(piece@));
            }
            parts.push(name);
        }
        i = i + 1;
    }
    proof {
        assert(views(pieces@).take(pieces.len() as int) =~= views(pieces@));
    }
    parts
}

/// Whether the components `base` are the first of the components `path`.
fn leads(base: &Vec<Vec<char>>, path: &Vec<Vec<char>>) -> (yes: bool)
    ensures
        yes == views(base@).is_prefix_of(views(path@)),
{
    if base.len() > path.len() {
        return false;
    }
    let mut i: usize = 0;
    while i < base.len()
        invariant
            i <= base.len() <= path.len(),
            forall|k: int| 0 <= k < i ==> #[trigger] views(base@)[k] == views(path@)[k],
        decreases base.len() - i,
    {
        if !same_chars(&base[i], &path[i]) {
            proof {
                assert(views(base@)[i as int] == base@[i as int]@);
                assert(views(path@)[i as int] == path@[i as int]@);
                if views(base@).is_prefix_of(views(path@)) {
                    assert(views(path@).subrange(0, views(base@).len() as int)[i as int] == views(
                        base@,
                    )[i as int]);
                }
            }
            return false;
        }
        proof {
            assert(views(base@)[i as int] == base@[i as int]@);
            assert(views(path@)[i as int] == path@[i as int]@);
        }
        i = i + 1;
    }
    proof {
        assert(views(base@) =~= views(path@).subrange(0, views(base@).len() as int));
    }
    true
}

/// Writes the components at `from..` as a path.
fn render_from(parts: &Vec<Vec<char>>, from: usize) -> (text: Vec<char>)
    requires
        from <= parts.len(),
    ensures
        text@ == rendered(views(parts@).skip(from as int)),
{
    let ghost rest = views(parts@).skip(from as int);
    let mut text: Vec<char> = Vec::new();
    let n = parts.len();
    if from == n {
        return text;
    }
    let mark: Vec<char> = vec!['/'];
    proof {
        assert(mark@ =~= root_mark());
        assert(rest[0] == parts@[from as int]@);
    }
    let rooted = same_chars(&parts[from], &mark);
    let start: usize = if rooted {
        text.push('/');
        from + 1
    } else {
        from
    };
    let ghost names = views(parts@).skip(start as int);
    let ghost head = text@;
    proof {
        if rooted {
            assert(names =~= rest.skip(1));
            assert(head =~= root_mark());
        }
        assert(names.take(0) =~= Seq::empty());
        assert(text@ =~= head + joined(names.take(0)));
    }
    let mut i: usize = start;
    while i < n
        invariant
            start <= i <= n == parts.len(),
            names == views(parts@).skip(start as int),
            text@ == head + joined(names.take(i - start)),
        decreases n - i,
    {
        proof {
            assert(names.take(i - start + 1).drop_last() =~= names.take(i - start));
            assert(names.take(i - start + 1).last() == parts@[i as int]@);
        }
        if i > start {
            text.push('/');
        }
        push_all(&mut text, &parts[i]);
        proof {
            let part = parts@[i as int]@;
            let before = joined(names.take(i - start));
            if i > start {
                assert(head + before + seq!['/'] + part =~= head + (before + seq!['/'] + part));
            } else {
                assert(before =~= Seq::<char>::empty());
                assert(head + before + part =~= head + part);
                assert(names.take(i - start + 1).len() == 1);
                assert(names.take(i - start + 1)[0] == part);
            }
        }
        i = i + 1;
    }
    proof {
        assert(names.take(n - start) =~= names);
    }
    text
}

/// Whether a path is absolute.
pub fn is_absolute(path: &str) -> (yes: bool)
    ensures
        yes == is_rooted(path@),
{
    let chars = chars_of(path);
    chars.len() > 0 && chars[0] == '/'
}

/// The rest of `path` behind `base`, component by component.
pub fn strip_prefix_chars(path: &Vec<char>, base: &Vec<char>) -> (rest: Option<Vec<char>>)
    ensures
        match rest {
            Some(r) => strip_prefix_of(path@, base@) == Some(r@),
            None => strip_prefix_of(path@, base@) is None,
        },
{
    let p = components(path);
    let b = components(base);
    if leads(&b, &p) {
        Some(render_from(&p, b.len()))
    } else {
        None
    }
}

/// The rest of `path` behind `base`, component by component; `None` where
/// `path` does not lie under `base`.
pub fn strip_prefix(path: &str, base: &str) -> (rest: Option<String>)
    ensures
        match rest {
            Some(r) => strip_prefix_of(path@, base@) == Some(r@),
            None => strip_prefix_of(path@, base@) is None,
        },
{
    match strip_prefix_chars(&chars_of(path), &chars_of(base)) {
        Some(r) => Some(string_of(&r)),
        None => None,
    }
}

/// `path` seen from the directory `base`.
pub fn resolve(base: &str, path: &str) -> (full: String)
    ensures
        full@ == resolved(base@, path@),
{
    let b = chars_of(base);
    let p = chars_of(path);
    if (p.len() > 0 && p[0] == '/') || b.len() == 0 {
        return string_of(&p);
    }
    let mut full = b;
    if full[full.len() - 1] != '/' {
        full.push('/');
    }
    push_all(&mut full, &p);
    string_of(&full)
}

/// The text with every backslash turned into a slash.
pub fn forward_slashes(text: &Vec<char>) -> (out: Vec<char>)
    ensures
        out@ == forward_slashes_of(text@),
{
    let mut out: Vec<char> = Vec::new();
    let mut i: usize = 0;
    while i < text.len()
        invariant
            i <= text.len(),
            out@ == forward_slashes_of(text@).take(i as int),
        decreases text.len() - i,
    {
        let c = text[i];
        out.push(if c == '\\' { '/' } else { c });
        i = i + 1;
        proof {
            assert(out@ =~= forward_slashes_of(text@).take(i as int));
        }
    }
    proof {
        assert(forward_slashes_of(text@).take(text.len() as int) =~= forward_slashes_of(text@));
    }
    out
}

/// The text without the slashes that it begins with.
fn drop_leading_slashes(text: &Vec<char>) -> (out: Vec<char>)
    ensures
        out@ == without_leading_slashes(text@),
{
    let n = text.len();
    let mut a: usize = 0;
    proof {
        assert(text@.skip(0) =~= text@);
    }
    while a < n && text[a] == '/'
        invariant
            a <= n == text.len(),
            without_leading_slashes(text@) == without_leading_slashes(text@.skip(a as int)),
        decreases n - a,
    {
        proof {
            assert(text@.skip(a as int).drop_first() =~= text@.skip(a + 1));
        }
        a = a + 1;
    }
    proof {
        assert(text@.skip(a as int) =~= text@.subrange(a as int, n as int));
    }
    copy_range(text, a, n)
}

/// The text without the slashes that it ends with.
fn drop_trailing_slashes(text: &Vec<char>) -> (out: Vec<char>)
    ensures
        out@ == without_trailing_slashes(text@),
{
    let mut b: usize = text.len();
    proof {
        assert(text@.take(b as int) =~= text@);
    }
    while b > 0 && text[b - 1] == '/'
        invariant
            b <= text.len(),
            without_trailing_slashes(text@) == without_trailing_slashes(text@.take(b as int)),
        decreases b,
    {
        proof {
            assert(text@.take(b as int).drop_last() =~= text@.take(b - 1));
        }
        b = b - 1;
    }
    proof {
        assert(text@.take(b as int) =~= text@.subrange(0, b as int));
    }
    copy_range(text, 0, b)
}

/// Brings a path filter into the form in which the repository names paths.
pub fn normalize_filter(root: &str, filter: &str) -> (out: String)
    ensures
        out@ == normalized_filter(root@, filter@),
{
    let root_chars = chars_of(root);
    let p = forward_slashes(&chars_of(filter));
    let candidate: Vec<char> = if p.len() > 0 && p[0] == '/' {
        copy_range(&p, 0, p.len())
    } else {
        let mut c = drop_trailing_slashes(&root_chars);
        c.push('/');
        let tail = drop_leading_slashes(&p);
        push_all(&mut c, &tail);
        proof {
            assert(c@ =~= without_trailing_slashes(root@) + seq!['/'] + without_leading_slashes(
                p@,
            ));
        }
        c
    };
    proof {
        assert(p@.subrange(0, p@.len() as int) =~= p@);
    }
    match strip_prefix_chars(&candidate, &root_chars) {
        Some(relative) => string_of(&forward_slashes(&relative)),
        None => string_of(&p),
    }
}

/// The filter as it holds from the current directory.
pub fn effective_filter(root: &str, current_dir: &str, filter: &str) -> (out: String)
    ensures
        out@ == effective_filter_of(root@, current_dir@, filter@),
{
    let f = chars_of(filter);
    match strip_prefix_chars(&chars_of(current_dir), &chars_of(root)) {
        Some(relative) => {
            let here = forward_slashes(&relative);
            if starts_with(&f, &here) {
                string_of(&f)
            } else {
                let mut out = here;
                out.push('/');
                push_all(&mut out, &f);
                string_of(&out)
            }
        },
        None => string_of(&f),
    }
}

/// Position of the last `c` in `s`, or `-1` where there is none.
pub open spec fn last_index(s: Seq<char>, c: char) -> int
    decreases s.len(),
{
    if s.len() == 0 {
        -1
    } else if s.last() == c {
        s.len() - 1
    } else {
        last_index(s.drop_last(), c)
    }
}

/// The extension of a file name: what follows its last dot, unless that dot
/// is its first character or there is none.
pub open spec fn extension_of(name: Seq<char>) -> Option<Seq<char>> {
    let i = last_index(name, '.');
    if 0 < i < name.len() {
        Some(name.skip(i + 1))
    } else {
        None
    }
}

/// Whether an entry of a directory is hidden: its name begins with a dot.
pub open spec fn is_hidden(name: Seq<char>) -> bool {
    name.len() > 0 && name[0] == '.'
}

/// The file name of a path: its last component, unless the path has none or
/// ends in the root, in `.` or in `..`.
pub open spec fn file_name_of(path: Seq<char>) -> Option<Seq<char>> {
    let parts = components_of(path);
    if parts.len() == 0 || parts.last() == root_mark() || parts.last() == dot() || parts.last()
        == seq!['.', '.'] {
        None
    } else {
        Some(parts.last())
    }
}

/// The extension of the file that a path names.
pub open spec fn path_extension_of(path: Seq<char>) -> Option<Seq<char>> {
    match file_name_of(path) {
        Some(name) => extension_of(name),
        None => None,
    }
}

/// The extension of a file name, as characters.
pub fn extension_chars(name: &Vec<char>) -> (ext: Option<Vec<char>>)
    ensures
        match ext {
            Some(e) => extension_of(name@) == Some(e@),
            None => extension_of(name@) is None,
        },
{
    let mut i: usize = name.len();
    proof {
        assert(name@.take(i as int) =~= name@);
    }
    while i > 0 && name[i - 1] != '.'
        invariant
            i <= name.len(),
            last_index(name@, '.') == last_index(name@.take(i as int), '.'),
        decreases i,
    {
        proof {
            assert(name@.take(i as int).drop_last() =~= name@.take(i - 1));
        }
        i = i - 1;
    }
    if i <= 1 {
        None
    } else {
        Some(copy_range(name, i, name.len()))
    }
}

/// The extension of a file name.
pub fn extension(name: &str) -> (ext: Option<String>)
    ensures
        match ext {
            Some(e) => extension_of(name@) == Some(e@),
            None => extension_of(name@) is None,
        },
{
    match extension_chars(&chars_of(name)) {
        Some(e) => Some(string_of(&e)),
        None => None,
    }
}

/// The file name of a path, as characters.
pub fn file_name_chars(path: &Vec<char>) -> (name: Option<Vec<char>>)
    ensures
        match name {
            Some(n) => file_name_of(path@) == Some(n@),
            None => file_name_of(path@) is None,
        },
{
    let mut parts = components(path);
    match parts.pop() {
        None => None,
        Some(last) => {
            let mark: Vec<char> = vec!['/'];
            let one: Vec<char> = vec!['.'];
            let two: Vec<char> = vec!['.', '.'];
            proof {
                assert(mark@ =~= root_mark());
                assert(one@ =~= dot());
                assert(two@ =~= seq!['.', '.']);
                assert(components_of(path@).last() == last@);
            }
            if same_chars(&last, &mark) || same_chars(&last, &one) || same_chars(&last, &two) {
                None
            } else {
                Some(last)
            }
        },
    }
}

} // verus!

//! Telling source files from other files by their names.

use crate::path::{extension_chars, file_name_chars, path_extension_of};
use crate::text::{chars_of, ends_with};
use vstd::prelude::*;

verus! {

/// What the lower-case form of a text is, as `str::to_lowercase` gives it.
pub uninterp spec fn lowercase_of(s: Seq<char>) -> Seq<char>;

/// `str::to_lowercase` returns the lower-case form of the text, by the
/// Unicode rules for lower case; the name `lowercase_of` stands for it.
pub assume_specification[ str::to_lowercase ](s: &str) -> (lower: String)
    ensures
        lower@ == lowercase_of(s@),
;

/// The endings of paths that are no source files: configuration,
/// documentation, data, lock files, build products, media and archives.
pub open spec fn ignored_endings() -> Seq<&'static str> {
    seq![
        "config", "conf", "cfg", "ini", "yaml", "yml", "toml", "json", "xml", "properties",
        "env", "dist", "plist", "md", "markdown", "txt", "rst", "adoc", "doc", "docx", "pdf",
        "csv", "tsv", "sql", "db", "sqlite", "lock", "snapshot", "min.js", "min.css", "map",
        "bundle.js", "bundle.css", "sum", "mod", "jar", "war", "ear", "class", "pyc", "pyo",
        "o", "obj", "a", "lib", "so", "dll", "dylib", "png", "jpg", "jpeg", "gif", "svg",
        "ico", "bmp", "webp", "mp3", "mp4", "wav", "avi", "mov", "webm", "ttf", "otf", "woff",
        "woff2", "eot", "zip", "tar", "gz", "rar", "7z", "gitignore", "dockerignore",
        "editorconfig", "DS_Store", "eslintrc", "prettierrc", "babelrc", "browserslistrc",
    ]
}

/// Whether a text in lower case ends with one of the ignored endings.
pub open spec fn has_ignored_ending(lower: Seq<char>) -> bool {
    exists|i: int|
        0 <= i < ignored_endings().len() && (#[trigger] ignored_endings()[i])@.is_suffix_of(lower)
}

/// Whether a path names a source file: its lower-case form ends with none
/// of the ignored endings, and its file name has an extension.
pub open spec fn is_source_path(path: Seq<char>) -> bool {
    !has_ignored_ending(lowercase_of(path)) && path_extension_of(path) is Some
}

/// Decides whether a path names a source file, given the path in lower
/// case: the lower-case form ends with none of the ignored endings, and the
/// file name of the path has an extension.
pub fn has_source_ending(lower_path: &str, file_path: &str) -> (yes: bool)
    ensures
        yes == (!has_ignored_ending(lower_path@) && path_extension_of(file_path@) is Some),
{
    let endings: Vec<&'static str> = vec![
        "config", "conf", "cfg", "ini", "yaml", "yml", "toml", "json", "xml", "properties",
        "env", "dist", "plist", "md", "markdown", "txt", "rst", "adoc", "doc", "docx", "pdf",
        "csv", "tsv", "sql", "db", "sqlite", "lock", "snapshot", "min.js", "min.css", "map",
        "bundle.js", "bundle.css", "sum", "mod", "jar", "war", "ear", "class", "pyc", "pyo",
        "o", "obj", "a", "lib", "so", "dll", "dylib", "png", "jpg", "jpeg", "gif", "svg",
        "ico", "bmp", "webp", "mp3", "mp4", "wav", "avi", "mov", "webm", "ttf", "otf", "woff",
        "woff2", "eot", "zip", "tar", "gz", "rar", "7z", "gitignore", "dockerignore",
        "editorconfig", "DS_Store", "eslintrc", "prettierrc", "babelrc", "browserslistrc",
    ];
    proof {
        assert(endings@ =~= ignored_endings());
    }
    let lower = chars_of(lower_path);
    let mut i: usize = 0;
    while i < endings.len()
        invariant
            i <= endings.len(),
            endings@ == ignored_endings(),
            lower@ == lower_path@,
            forall|k: int| 0 <= k < i ==> !(#[trigger] ignored_endings()[k])@.is_suffix_of(lower@),
        decreases endings.len() - i,
    {
        if ends_with(&lower, &chars_of(endings[i])) {
            return false;
        }
        i = i + 1;
    }
    match file_name_chars(&chars_of(file_path)) {
        Some(name) => extension_chars(&name).is_some(),
        None => false,
    }
}

/// Decides whether a path names a source file.
pub fn is_source_file(file_path: &str) -> (yes: bool)
    ensures
        yes == is_source_path(file_path@),
{
    let lower = file_path.to_lowercase();
    has_source_ending(lower.as_str(), file_path)
}

} // verus!

//! The fixed table of file categories and the classification of an
//! extension into one of them.

use vstd::prelude::*;
use crate::text::lower;
use crate::text::to_lower;
use crate::text::contains_chars;
use crate::text::str_chars;

verus! {

/// The destination categories.  `Others` is the fallback for an extension
/// that no table row lists.
#[derive(Clone, Copy, PartialEq, Eq, Structural, Debug)]
pub enum Category {
    Images,
    Documents,
    Audio,
    Video,
    Code,
    Archives,
    Others,
}

/// The name of the subdirectory a category's files are placed in.
pub open spec fn category_name(c: Category) -> Seq<char> {
    match c {
        Category::Images => "images"@,
        Category::Documents => "documents"@,
        Category::Audio => "audio"@,
        Category::Video => "video"@,
        Category::Code => "code"@,
        Category::Archives => "archives"@,
        Category::Others => "others"@,
    }
}

/// The lower-case extensions that a category's table row lists.
/// `Others` lists none: it is reached only as the fallback.
pub open spec fn extensions_of(c: Category) -> Seq<Seq<char>> {
    match c {
        Category::Images => seq!["jpg"@, "jpeg"@, "png"@, "gif"@, "bmp"@],
        Category::Documents => seq!["pdf"@, "doc"@, "docx"@, "txt"@],
        Category::Audio => seq!["mp3"@, "wav"@, "flac"@],
        Category::Video => seq!["mp4"@, "mkv"@, "avi"@],
        Category::Code => seq!["rs"@, "py"@, "js"@, "html"@, "css"@],
        Category::Archives => seq!["zip"@, "rar"@, "7z"@],
        Category::Others => seq![],
    }
}

/// The category that a lower-cased extension falls under: the first table
/// row that lists it, and `Others` where none does.
pub open spec fn category_of(ext: Seq<char>) -> Category {
    if extensions_of(Category::Images).contains(ext) {
        Category::Images
    } else if extensions_of(Category::Documents).contains(ext) {
        Category::Documents
    } else if extensions_of(Category::Audio).contains(ext) {
        Category::Audio
    } else if extensions_of(Category::Video).contains(ext) {
        Category::Video
    } else if extensions_of(Category::Code).contains(ext) {
        Category::Code
    } else if extensions_of(Category::Archives).contains(ext) {
        Category::Archives
    } else {
        Category::Others
    }
}

/// How a raw (not yet folded) extension is classified.
pub open spec fn classify_spec(ext: Seq<char>) -> Category {
    category_of(lower(ext))
}

/// A fixed position for each category, used to index per-category state.
pub open spec fn cat_index(c: Category) -> int {
    match c {
        Category::Images => 0,
        Category::Documents => 1,
        Category::Audio => 2,
        Category::Video => 3,
        Category::Code => 4,
        Category::Archives => 5,
        Category::Others => 6,
    }
}

/// The category at a given position; inverse of `cat_index`.
pub open spec fn cat_at(i: int) -> Category {
    if i == 0 {
        Category::Images
    } else if i == 1 {
        Category::Documents
    } else if i == 2 {
        Category::Audio
    } else if i == 3 {
        Category::Video
    } else if i == 4 {
        Category::Code
    } else if i == 5 {
        Category::Archives
    } else {
        Category::Others
    }
}

/// The category stored at a position, as executable code.
pub fn category_at(i: usize) -> (c: Category)
    requires
        i < 7,
    ensures
        c == cat_at(i as int),
        cat_index(c) == i as int,
{
    if i == 0 {
        Category::Images
    } else if i == 1 {
        Category::Documents
    } else if i == 2 {
        Category::Audio
    } else if i == 3 {
        Category::Video
    } else if i == 4 {
        Category::Code
    } else if i == 5 {
        Category::Archives
    } else {
        Category::Others
    }
}

/// The position of a category, as executable code.
pub fn category_index(c: Category) -> (i: usize)
    ensures
        i as int == cat_index(c),
        i < 7,
{
    match c {
        Category::Images => 0,
        Category::Documents => 1,
        Category::Audio => 2,
        Category::Video => 3,
        Category::Code => 4,
        Category::Archives => 5,
        Category::Others => 6,
    }
}

/// The subdirectory name of a category, as a character vector.
pub fn category_name_chars(c: Category) -> (r: Vec<char>)
    ensures
        r@ == category_name(c),
{
    match c {
        Category::Images => str_chars("images"),
        Category::Documents => str_chars("documents"),
        Category::Audio => str_chars("audio"),
        Category::Video => str_chars("video"),
        Category::Code => str_chars("code"),
        Category::Archives => str_chars("archives"),
        Category::Others => str_chars("others"),
    }
}

/// The extension row of a category, as character vectors.
fn extensions_chars(c: Category) -> (r: Vec<Vec<char>>)
    ensures
        r.deep_view() == extensions_of(c),
{
    broadcast use crate::text::lemma_vec_chars_deep_view;

    let mut r: Vec<Vec<char>> = Vec::new();
    match c {
        Category::Images => {
            r.push(str_chars("jpg"));
            r.push(str_chars("jpeg"));
            r.push(str_chars("png"));
            r.push(str_chars("gif"));
            r.push(str_chars("bmp"));
        },
        Category::Documents => {
            r.push(str_chars("pdf"));
            r.push(str_chars("doc"));
            r.push(str_chars("docx"));
            r.push(str_chars("txt"));
        },
        Category::Audio => {
            r.push(str_chars("mp3"));
            r.push(str_chars("wav"));
            r.push(str_chars("flac"));
        },
        Category::Video => {
            r.push(str_chars("mp4"));
            r.push(str_chars("mkv"));
            r.push(str_chars("avi"));
        },
        Category::Code => {
            r.push(str_chars("rs"));
            r.push(str_chars("py"));
            r.push(str_chars("js"));
            r.push(str_chars("html"));
            r.push(str_chars("css"));
        },
        Category::Archives => {
            r.push(str_chars("zip"));
            r.push(str_chars("rar"));
            r.push(str_chars("7z"));
        },
        Category::Others => {},
    }
    proof {
        assert(r.deep_view() =~= extensions_of(c));
    }
    r
}

/// Classifies a raw extension: folds its case and scans the table rows in
/// their fixed order, falling back to `Others`.
pub fn classify(ext: &Vec<char>) -> (c: Category)
    ensures
        c == classify_spec(ext@),
{
    let low = to_lower(ext);
    if contains_chars(&extensions_chars(Category::Images), &low) {
        Category::Images
    } else if contains_chars(&extensions_chars(Category::Documents), &low) {
        Category::Documents
    } else if contains_chars(&extensions_chars(Category::Audio), &low) {
        Category::Audio
    } else if contains_chars(&extensions_chars(Category::Video), &low) {
        Category::Video
    } else if contains_chars(&extensions_chars(Category::Code), &low) {
        Category::Code
    } else if contains_chars(&extensions_chars(Category::Archives), &low) {
        Category::Archives
    } else {
        Category::Others
    }
}

} // verus!

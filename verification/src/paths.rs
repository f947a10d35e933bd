//! Paths and file names: the final segment of a path, and the stem and
//! extension of a file name.

use vstd::prelude::*;
use crate::text::{chars_of, find_last, last_index_of, string_of};

verus! {

/// The final component of a path, if it has one: the name of the file or
/// directory the path leads to. A path that ends in `..`, or that has no
/// component at all, has none.
///
/// Stands for what `std::path::Path::file_name` returns, by the path rules of
/// the platform the crate is built for.
pub uninterp spec fn final_segment(path: Seq<char>) -> Option<Seq<char>>;

/// Calls `std::path::Path::file_name` on `path`. The contract gives the
/// result its name; the component is a piece of `path`, so turning it back
/// into a string loses nothing.
#[verifier::external_body]
pub(crate) fn final_segment_of(path: &str) -> (r: Option<String>)
    ensures
        match r {
            Some(name) => final_segment(path@) == Some(name@),
            None => final_segment(path@).is_none(),
        },
{
    match std::path::Path::new(path).file_name() {
        Some(name) => Some(name.to_string_lossy().into_owned()),
        None => None,
    }
}

/// The display name of a directory, given its path and the path's final
/// segment: the segment, or the whole path if it has none.
pub open spec fn label_of(path: Seq<char>, segment: Option<Seq<char>>) -> Seq<char> {
    match segment {
        Some(name) => name,
        None => path,
    }
}

/// The display name a directory gets when it is registered: the final
/// segment of its path, or the whole path if it has none.
pub open spec fn directory_label(path: Seq<char>) -> Seq<char> {
    label_of(path, final_segment(path))
}

/// The display name of the directory at `path`, given the path's final
/// segment.
pub fn label_from(path: &String, segment: Option<String>) -> (label: String)
    ensures
        label@ == label_of(
            path@,
            match segment {
                Some(name) => Some(name@),
                None => None,
            },
        ),
{
    match segment {
        Some(name) => name,
        None => path.clone(),
    }
}

/// The display name for the directory at `path`.
pub fn label_for(path: &String) -> (label: String)
    ensures
        label@ == directory_label(path@),
{
    label_from(path, final_segment_of(path.as_str()))
}

/// The position of the last `.` in a file name, if it has one.
pub open spec fn last_dot(name: Seq<char>) -> Option<int> {
    last_index_of(name, '.')
}

/// Whether a file name splits into a stem and an extension: it has a `.`
/// that is not its first character, and it is not `..`.
pub open spec fn has_extension(name: Seq<char>) -> bool {
    last_dot(name) matches Some(i) && i > 0 && name != seq!['.', '.']
}

/// The stem of a file name: the part before its last `.`, or the whole name
/// if it does not split.
pub open spec fn file_stem(name: Seq<char>) -> Seq<char> {
    if has_extension(name) {
        name.take(last_dot(name)->0)
    } else {
        name
    }
}

/// The extension of a file name: the part behind its last `.`, if the name
/// splits.
pub open spec fn extension(name: Seq<char>) -> Option<Seq<char>> {
    if has_extension(name) {
        Some(name.skip(last_dot(name)->0 + 1))
    } else {
        None
    }
}

/// Whether an extension is `pdf` in any mix of upper and lower case.
pub open spec fn is_pdf_extension(ext: Seq<char>) -> bool {
    &&& ext.len() == 3
    &&& (ext[0] == 'p' || ext[0] == 'P')
    &&& (ext[1] == 'd' || ext[1] == 'D')
    &&& (ext[2] == 'f' || ext[2] == 'F')
}

/// The stem and the extension of a file name.
pub fn split_extension(name: &str) -> (parts: (String, Option<String>))
    ensures
        parts.0@ == file_stem(name@),
        match parts.1 {
            Some(ext) => extension(name@) == Some(ext@),
            None => extension(name@).is_none(),
        },
{
    let chars = chars_of(name);
    let n: usize = chars.len();
    let dots: bool = n == 2 && chars[0] == '.' && chars[1] == '.';
    assert(dots == (chars@ =~= seq!['.', '.']));
    assert(chars@.subrange(0, n as int) =~= chars@);
    match find_last(&chars, '.') {
        Some(i) => {
            if i == 0 || dots {
                (string_of(&chars, 0, n), None)
            } else {
                assert(chars@.subrange(0, i as int) =~= chars@.take(i as int));
                assert(chars@.subrange(i + 1, n as int) =~= chars@.skip(i + 1));
                (string_of(&chars, 0, i), Some(string_of(&chars, i + 1, n)))
            }
        },
        None => (string_of(&chars, 0, n), None),
    }
}

/// Whether `ext` is `pdf` in any mix of upper and lower case.
pub fn is_pdf(ext: &str) -> (r: bool)
    ensures
        r == is_pdf_extension(ext@),
{
    let chars = chars_of(ext);
    chars.len() == 3 && (chars[0] == 'p' || chars[0] == 'P') && (chars[1] == 'd' || chars[1]
        == 'D') && (chars[2] == 'f' || chars[2] == 'F')
}

} // verus!

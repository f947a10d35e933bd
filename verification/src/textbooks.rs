//! Textbooks: the PDF files found directly in the registered directories.
//! A textbook is derived from a directory and a file entry on every listing
//! and is never stored.

use vstd::prelude::*;
use vstd::string::StringExecFns;
use crate::models::{views, Directory, DirectoryRow, Textbook, TextbookRow};
use crate::paths::{extension, file_stem, is_pdf, is_pdf_extension, split_extension};
use crate::slug::{sanitize_slug, sanitized, title_from_stem, title_of};
use crate::state::DbState;
use crate::error::StoreError;
use crate::text::{decimal, ends_with, lowercase, push_decimal};

verus! {

/// One entry of a directory, as a scan of the directory reports it.
#[derive(Debug)]
pub struct FileEntry {
    /// The entry's name within its directory.
    pub name: String,
    /// The full path of the entry.
    pub path: String,
    /// Whether the entry is a regular file.
    pub is_file: bool,
}

/// The value a [`FileEntry`] stands for.
pub struct FileEntryRow {
    pub name: Seq<char>,
    pub path: Seq<char>,
    pub is_file: bool,
}

impl View for FileEntry {
    type V = FileEntryRow;

    open spec fn view(&self) -> FileEntryRow {
        FileEntryRow { name: self.name@, path: self.path@, is_file: self.is_file }
    }
}

/// What a scan of one registered directory found.
#[derive(Debug)]
pub struct DirectoryScan {
    /// The id of the directory that was scanned.
    pub dir_id: i64,
    /// The entries found directly in the directory, or `None` if the
    /// directory is gone or could not be read.
    pub entries: Option<Vec<FileEntry>>,
}

/// The value a [`DirectoryScan`] stands for.
pub struct DirectoryScanRow {
    pub dir_id: int,
    pub entries: Option<Seq<FileEntryRow>>,
}

impl View for DirectoryScan {
    type V = DirectoryScanRow;

    open spec fn view(&self) -> DirectoryScanRow {
        DirectoryScanRow {
            dir_id: self.dir_id as int,
            entries: match self.entries {
                Some(entries) => Some(views(entries@)),
                None => None,
            },
        }
    }
}

/// The entries that the scans hold for the directory with the given id:
/// those of the first scan of that directory, if there is one and it could
/// read the directory.
pub open spec fn scanned(scans: Seq<DirectoryScanRow>, dir_id: int) -> Option<Seq<FileEntryRow>>
    decreases scans.len(),
{
    if scans.len() == 0 {
        None
    } else if scans[0].dir_id == dir_id {
        scans[0].entries
    } else {
        scanned(scans.drop_first(), dir_id)
    }
}

/// Whether an entry is a textbook: a regular file whose extension is `pdf`
/// in any mix of upper and lower case.
pub open spec fn is_textbook(entry: FileEntryRow) -> bool {
    &&& entry.is_file
    &&& extension(entry.name) matches Some(ext) && is_pdf_extension(ext)
}

/// The slug of the file with the given stem in the directory with the given
/// id: the id in decimal, `_`, and the sanitized stem.
pub open spec fn slug_of(dir_id: int, stem: Seq<char>) -> Seq<char> {
    decimal(dir_id) + seq!['_'] + sanitized(stem)
}

/// The textbook that an entry of a directory is.
pub open spec fn textbook_of(dir: DirectoryRow, entry: FileEntryRow) -> TextbookRow {
    TextbookRow {
        slug: slug_of(dir.id, file_stem(entry.name)),
        title: title_of(file_stem(entry.name)),
        file: entry.name,
        dir_id: dir.id,
        dir_path: dir.path,
        full_path: entry.path,
    }
}

/// The textbooks among the entries of one directory, in the order of the
/// entries.
pub open spec fn textbooks_in(dir: DirectoryRow, entries: Seq<FileEntryRow>) -> Seq<TextbookRow>
    decreases entries.len(),
{
    if entries.len() == 0 {
        Seq::empty()
    } else if is_textbook(entries.last()) {
        textbooks_in(dir, entries.drop_last()).push(textbook_of(dir, entries.last()))
    } else {
        textbooks_in(dir, entries.drop_last())
    }
}

/// The textbooks of all directories: directory after directory in registry
/// order, each with the textbooks among the entries that the scans hold for
/// it. A directory for which they hold none contributes nothing.
pub open spec fn textbooks(dirs: Seq<DirectoryRow>, scans: Seq<DirectoryScanRow>) -> Seq<
    TextbookRow,
>
    decreases dirs.len(),
{
    if dirs.len() == 0 {
        Seq::empty()
    } else {
        let before = textbooks(dirs.drop_last(), scans);
        match scanned(scans, dirs.last().id) {
            Some(entries) => before + textbooks_in(dirs.last(), entries),
            None => before,
        }
    }
}

/// The textbook that `entry` is in the directory `dir`, or `None` if the
/// entry is no textbook.
pub fn textbook_from_entry(dir: &Directory, entry: &FileEntry) -> (r: Option<Textbook>)
    ensures
        match r {
            Some(book) => is_textbook(entry@) && book@ == textbook_of(dir@, entry@),
            None => !is_textbook(entry@),
        },
{
    if !entry.is_file {
        return None;
    }
    let (stem, ext) = split_extension(entry.name.as_str());
    match ext {
        None => None,
        Some(ext) => {
            if !is_pdf(ext.as_str()) {
                return None;
            }
            let mut slug = String::new();
            push_decimal(dir.id, &mut slug);
            slug.push('_');
            let tail = sanitize_slug(stem.as_str());
            slug.append(tail.as_str());
            assert(slug@ =~= slug_of(dir@.id, file_stem(entry@.name)));
            Some(
                Textbook {
                    slug,
                    title: title_from_stem(stem.as_str()),
                    file: entry.name.clone(),
                    dir_id: dir.id,
                    dir_path: dir.path.clone(),
                    full_path: entry.path.clone(),
                },
            )
        },
    }
}

/// The position of the first scan of the directory with the given id, or
/// the number of scans if there is none.
fn find_scan(scans: &Vec<DirectoryScan>, dir_id: i64) -> (k: usize)
    ensures
        k <= scans.len(),
        k < scans.len() ==> scans[k as int].dir_id == dir_id && scanned(views(scans@), dir_id as int)
            == scans[k as int]@.entries,
        k == scans.len() ==> scanned(views(scans@), dir_id as int).is_none(),
{
    let ghost rows = views(scans@);
    let mut k: usize = 0;
    assert(rows.skip(0) =~= rows);
    while k < scans.len() && scans[k].dir_id != dir_id
        invariant
            k <= scans.len(),
            rows == views(scans@),
            scanned(rows, dir_id as int) == scanned(rows.skip(k as int), dir_id as int),
        decreases scans.len() - k,
    {
        assert(rows.skip(k as int)[0] == rows[k as int]);
        assert(rows.skip(k as int).drop_first() =~= rows.skip(k + 1));
        k += 1;
    }
    proof {
        if k < scans.len() {
            assert(rows.skip(k as int)[0] == rows[k as int]);
        }
    }
    k
}

/// All textbooks, given what scans of the registered directories found.
///
/// Directories come in registry order and the textbooks of a directory in
/// the order of its entries. A directory that was not scanned, or whose
/// scan found it gone or unreadable, is skipped without failing the others;
/// scans of directories that are not registered are ignored.
pub fn list_textbooks(scans: Vec<DirectoryScan>, state: &DbState) -> (books: Vec<Textbook>)
    ensures
        state@.valid(),
        views(books@) == textbooks(state@.directories, views(scans@)),
{
    proof {
        use_type_invariant(state);
    }
    let ghost dirs = state@.directories;
    let ghost found = views(scans@);
    let mut books: Vec<Textbook> = Vec::new();
    let mut d: usize = 0;
    assert(dirs.take(0) =~= Seq::empty());
    assert(views(books@) =~= Seq::empty());
    while d < state.rows.directories.len()
        invariant
            d <= state.rows.directories.len(),
            dirs == views(state.rows.directories@),
            found == views(scans@),
            views(books@) == textbooks(dirs.take(d as int), found),
        decreases state.rows.directories.len() - d,
    {
        assert(dirs.take(d + 1).drop_last() =~= dirs.take(d as int));
        assert(dirs.take(d + 1).last() == dirs[d as int]);
        let k = find_scan(&scans, state.rows.directories[d].id);
        if k < scans.len() {
            match &scans[k].entries {
                Some(entries) => {
                    let ghost rows = views(entries@);
                    let ghost before = views(books@);
                    let mut e: usize = 0;
                    assert(rows.take(0) =~= Seq::empty());
                    assert(before + textbooks_in(dirs[d as int], rows.take(0)) =~= before);
                    while e < entries.len()
                        invariant
                            e <= entries.len(),
                            d < state.rows.directories.len(),
                            dirs == views(state.rows.directories@),
                            rows == views(entries@),
                            views(books@) == before + textbooks_in(
                                dirs[d as int],
                                rows.take(e as int),
                            ),
                        decreases entries.len() - e,
                    {
                        assert(rows.take(e + 1).drop_last() =~= rows.take(e as int));
                        assert(rows.take(e + 1).last() == rows[e as int]);
                        match textbook_from_entry(&state.rows.directories[d], &entries[e]) {
                            Some(book) => {
                                let ghost so_far = views(books@);
                                books.push(book);
                                assert(views(books@) =~= so_far.push(book@));
                                assert(views(books@) =~= before + textbooks_in(
                                    dirs[d as int],
                                    rows.take(e + 1),
                                ));
                            },
                            None => {},
                        }
                        e += 1;
                    }
                    assert(rows.take(e as int) =~= rows);
                },
                None => {},
            }
        }
        d += 1;
    }
    assert(dirs.take(d as int) =~= dirs);
    books
}

/// Whether a name or path ends in `.pdf`, in any case.
pub open spec fn ends_in_pdf(name: Seq<char>) -> bool {
    ".pdf"@.is_suffix_of(lowercase(name))
}

/// Whether `name` ends in `.pdf`, in any case.
pub fn has_pdf_ending(name: &str) -> (r: bool)
    ensures
        r == ends_in_pdf(name@),
{
    let lower = name.to_lowercase();
    ends_with(lower.as_str(), ".pdf")
}

/// The file name that a textbook gets when it is renamed to `new_name`:
/// the name itself if it ends in `.pdf`, in any case, and else the name with
/// `.pdf` added.
pub open spec fn renamed_file(new_name: Seq<char>) -> Seq<char> {
    if ends_in_pdf(new_name) {
        new_name
    } else {
        new_name + ".pdf"@
    }
}

/// The file name under which the textbook at `full_path` is to be stored
/// when it is renamed to `new_name`; the file stays in its directory.
/// `is_file` says whether `full_path` names an existing file: a path that
/// does not is refused.
pub fn rename_textbook(full_path: String, new_name: String, is_file: bool) -> (r: Result<
    String,
    StoreError,
>)
    ensures
        match r {
            Ok(file) => is_file && file@ == renamed_file(new_name@),
            Err(StoreError::FileNotFound(path)) => !is_file && path@ == full_path@,
            Err(_) => false,
        },
{
    if !is_file {
        return Err(StoreError::FileNotFound(full_path));
    }
    if has_pdf_ending(new_name.as_str()) {
        Ok(new_name)
    } else {
        Ok(new_name.concat(".pdf"))
    }
}

} // verus!

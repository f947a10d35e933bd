//! Taking all rows out of the bookshelf's state and putting stored rows
//! back, which is how the state outlives the program.

use vstd::prelude::*;
use crate::models::{copy_records, views, BookTag, Directory, NoteImage, NoteRecord, Tag};
use crate::relations::{
    book_tags_valid, directories_valid, has_tag, images_valid, notes_valid, tags_valid, Relations,
};
use crate::state::DbState;
use crate::text::{text_at_most, text_le};

verus! {

/// All rows of the bookshelf, relation by relation, with the largest row id
/// that each relation has handed out. Directories are ordered by the time
/// they were added and notes by page.
#[derive(Debug)]
pub struct Snapshot {
    pub directories: Vec<Directory>,
    pub notes: Vec<NoteRecord>,
    pub note_images: Vec<NoteImage>,
    pub tags: Vec<Tag>,
    pub book_tags: Vec<BookTag>,
    pub last_directory_id: i64,
    pub last_note_id: i64,
    pub last_image_id: i64,
    pub last_tag_id: i64,
}

impl View for Snapshot {
    type V = Relations;

    open spec fn view(&self) -> Relations {
        Relations {
            directories: views(self.directories@),
            notes: views(self.notes@),
            note_images: views(self.note_images@),
            tags: views(self.tags@),
            book_tags: views(self.book_tags@),
            last_directory_id: self.last_directory_id as int,
            last_note_id: self.last_note_id as int,
            last_image_id: self.last_image_id as int,
            last_tag_id: self.last_tag_id as int,
        }
    }
}

/// Whether the directories obey their constraints.
fn directories_ok(rows: &Vec<Directory>, last: i64) -> (ok: bool)
    ensures
        ok == directories_valid(views(rows@), last as int),
{
    let ghost v = views(rows@);
    if last < 0 {
        return false;
    }
    let mut j: usize = 0;
    while j < rows.len()
        invariant
            j <= rows.len(),
            v == views(rows@),
            0 <= last,
            forall|b: int| 0 <= b < j ==> 0 < (#[trigger] v[b]).id <= last,
            forall|a: int, b: int|
                0 <= a < b < j ==> (#[trigger] v[a]).id != (#[trigger] v[b]).id && v[a].path
                    != v[b].path && text_le(v[a].added_at, v[b].added_at),
        decreases rows.len() - j,
    {
        if !(0 < rows[j].id && rows[j].id <= last) {
            assert(!(0 < v[j as int].id <= last));
            return false;
        }
        let mut i: usize = 0;
        while i < j
            invariant
                i <= j < rows.len(),
                v == views(rows@),
                forall|a: int|
                    0 <= a < i ==> (#[trigger] v[a]).id != v[j as int].id && v[a].path
                        != v[j as int].path && text_le(
                        v[a].added_at,
                        v[j as int].added_at,
                    ),
            decreases j - i,
        {
            if rows[i].id == rows[j].id || rows[i].path == rows[j].path || !text_at_most(
                rows[i].added_at.as_str(),
                rows[j].added_at.as_str(),
            ) {
                assert(v[i as int].id == v[j as int].id || v[i as int].path == v[j as int].path
                    || !text_le(v[i as int].added_at, v[j as int].added_at));
                return false;
            }
            i += 1;
        }
        j += 1;
    }
    true
}

/// Whether the notes obey their constraints.
fn notes_ok(rows: &Vec<NoteRecord>, last: i64) -> (ok: bool)
    ensures
        ok == notes_valid(views(rows@), last as int),
{
    let ghost v = views(rows@);
    if last < 0 {
        return false;
    }
    let mut j: usize = 0;
    while j < rows.len()
        invariant
            j <= rows.len(),
            v == views(rows@),
            0 <= last,
            forall|b: int|
                0 <= b < j ==> 0 < (#[trigger] v[b]).id <= last && v[b].content.len() > 0,
            forall|a: int, b: int|
                0 <= a < b < j ==> (#[trigger] v[a]).id != (#[trigger] v[b]).id && !(v[a].slug
                    == v[b].slug && v[a].page == v[b].page) && v[a].page <= v[b].page,
        decreases rows.len() - j,
    {
        if !(0 < rows[j].id && rows[j].id <= last) || rows[j].content.as_str().is_empty() {
            assert(!(0 < v[j as int].id <= last && v[j as int].content.len() > 0));
            return false;
        }
        let mut i: usize = 0;
        while i < j
            invariant
                i <= j < rows.len(),
                v == views(rows@),
                forall|a: int|
                    0 <= a < i ==> (#[trigger] v[a]).id != v[j as int].id && !(v[a].slug
                        == v[j as int].slug && v[a].page == v[j as int].page) && v[a].page
                        <= v[j as int].page,
            decreases j - i,
        {
            if rows[i].id == rows[j].id || rows[i].page > rows[j].page || (rows[i].page
                == rows[j].page && rows[i].slug == rows[j].slug) {
                assert(v[i as int].id == v[j as int].id || v[i as int].page > v[j as int].page || (
                v[i as int].slug == v[j as int].slug && v[i as int].page == v[j as int].page));
                return false;
            }
            i += 1;
        }
        j += 1;
    }
    true
}

/// Whether the images obey their constraints.
fn images_ok(rows: &Vec<NoteImage>, last: i64) -> (ok: bool)
    ensures
        ok == images_valid(views(rows@), last as int),
{
    let ghost v = views(rows@);
    if last < 0 {
        return false;
    }
    let mut j: usize = 0;
    while j < rows.len()
        invariant
            j <= rows.len(),
            v == views(rows@),
            0 <= last,
            forall|b: int| 0 <= b < j ==> 0 < (#[trigger] v[b]).id <= last,
            forall|a: int, b: int|
                0 <= a < b < j ==> (#[trigger] v[a]).id < (#[trigger] v[b]).id && !(
                v[a].note_slug == v[b].note_slug && v[a].note_page == v[b].note_page
                    && v[a].filename == v[b].filename),
        decreases rows.len() - j,
    {
        if !(0 < rows[j].id && rows[j].id <= last) {
            assert(!(0 < v[j as int].id <= last));
            return false;
        }
        let mut i: usize = 0;
        while i < j
            invariant
                i <= j < rows.len(),
                v == views(rows@),
                forall|a: int|
                    0 <= a < i ==> (#[trigger] v[a]).id < v[j as int].id && !(v[a].note_slug
                        == v[j as int].note_slug && v[a].note_page == v[j as int].note_page
                        && v[a].filename == v[j as int].filename),
            decreases j - i,
        {
            if rows[i].id >= rows[j].id || (rows[i].note_page == rows[j].note_page
                && rows[i].note_slug == rows[j].note_slug && rows[i].filename
                == rows[j].filename) {
                assert(v[i as int].id >= v[j as int].id || (v[i as int].note_slug
                    == v[j as int].note_slug && v[i as int].note_page == v[j as int].note_page
                    && v[i as int].filename == v[j as int].filename));
                return false;
            }
            i += 1;
        }
        j += 1;
    }
    true
}

/// Whether the tags obey their constraints.
fn tags_ok(rows: &Vec<Tag>, last: i64) -> (ok: bool)
    ensures
        ok == tags_valid(views(rows@), last as int),
{
    let ghost v = views(rows@);
    if last < 0 {
        return false;
    }
    let mut j: usize = 0;
    while j < rows.len()
        invariant
            j <= rows.len(),
            v == views(rows@),
            0 <= last,
            forall|b: int| 0 <= b < j ==> 0 < (#[trigger] v[b]).id <= last,
            forall|a: int, b: int|
                0 <= a < b < j ==> (#[trigger] v[a]).id < (#[trigger] v[b]).id && v[a].name
                    != v[b].name,
        decreases rows.len() - j,
    {
        if !(0 < rows[j].id && rows[j].id <= last) {
            assert(!(0 < v[j as int].id <= last));
            return false;
        }
        let mut i: usize = 0;
        while i < j
            invariant
                i <= j < rows.len(),
                v == views(rows@),
                forall|a: int|
                    0 <= a < i ==> (#[trigger] v[a]).id < v[j as int].id && v[a].name
                        != v[j as int].name,
            decreases j - i,
        {
            if rows[i].id >= rows[j].id || rows[i].name == rows[j].name {
                assert(v[i as int].id >= v[j as int].id || v[i as int].name == v[j as int].name);
                return false;
            }
            i += 1;
        }
        j += 1;
    }
    true
}

/// Whether a tag with the given id is among `tags`.
fn tag_exists(tags: &Vec<Tag>, id: i64) -> (found: bool)
    ensures
        found == has_tag(views(tags@), id as int),
{
    let ghost v = views(tags@);
    let mut k: usize = 0;
    while k < tags.len()
        invariant
            k <= tags.len(),
            v == views(tags@),
            forall|a: int| 0 <= a < k ==> (#[trigger] v[a]).id != id,
        decreases tags.len() - k,
    {
        if tags[k].id == id {
            assert(v[k as int].id == id);
            return true;
        }
        k += 1;
    }
    false
}

/// Whether the associations of books with tags obey their constraints.
fn book_tags_ok(rows: &Vec<BookTag>, tags: &Vec<Tag>) -> (ok: bool)
    ensures
        ok == book_tags_valid(views(rows@), views(tags@)),
{
    let ghost v = views(rows@);
    let ghost t = views(tags@);
    let mut j: usize = 0;
    while j < rows.len()
        invariant
            j <= rows.len(),
            v == views(rows@),
            t == views(tags@),
            forall|b: int| 0 <= b < j ==> has_tag(t, (#[trigger] v[b]).tag_id),
            forall|a: int, b: int|
                0 <= a < b < j ==> !((#[trigger] v[a]).book_slug == (#[trigger] v[b]).book_slug
                    && v[a].tag_id == v[b].tag_id),
        decreases rows.len() - j,
    {
        if !tag_exists(tags, rows[j].tag_id) {
            assert(!has_tag(t, v[j as int].tag_id));
            return false;
        }
        let mut i: usize = 0;
        while i < j
            invariant
                i <= j < rows.len(),
                v == views(rows@),
                forall|a: int|
                    0 <= a < i ==> !((#[trigger] v[a]).book_slug == v[j as int].book_slug
                        && v[a].tag_id == v[j as int].tag_id),
            decreases j - i,
        {
            if rows[i].tag_id == rows[j].tag_id && rows[i].book_slug == rows[j].book_slug {
                assert(v[i as int].book_slug == v[j as int].book_slug && v[i as int].tag_id
                    == v[j as int].tag_id);
                return false;
            }
            i += 1;
        }
        j += 1;
    }
    true
}

/// The state that holds the rows of `snapshot`, if they obey the
/// constraints of the relations; `None` if they break one.
pub fn load_db(snapshot: Snapshot) -> (r: Option<DbState>)
    ensures
        match r {
            Some(state) => snapshot@.valid() && state@ == snapshot@,
            None => !snapshot@.valid(),
        },
{
    if directories_ok(&snapshot.directories, snapshot.last_directory_id) && notes_ok(
        &snapshot.notes,
        snapshot.last_note_id,
    ) && images_ok(&snapshot.note_images, snapshot.last_image_id) && tags_ok(
        &snapshot.tags,
        snapshot.last_tag_id,
    ) && book_tags_ok(&snapshot.book_tags, &snapshot.tags) {
        Some(DbState { rows: snapshot })
    } else {
        None
    }
}

/// All rows of the state, as they are.
pub fn save_db(state: &DbState) -> (snapshot: Snapshot)
    ensures
        state@.valid(),
        snapshot@ == state@,
{
    proof {
        use_type_invariant(state);
    }
    Snapshot {
        directories: copy_records(&state.rows.directories),
        notes: copy_records(&state.rows.notes),
        note_images: copy_records(&state.rows.note_images),
        tags: copy_records(&state.rows.tags),
        book_tags: copy_records(&state.rows.book_tags),
        last_directory_id: state.rows.last_directory_id,
        last_note_id: state.rows.last_note_id,
        last_image_id: state.rows.last_image_id,
        last_tag_id: state.rows.last_tag_id,
    }
}

} // verus!

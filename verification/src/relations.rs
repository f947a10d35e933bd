//! The five relations of the bookshelf as mathematical values, the
//! constraints they obey, and what every operation does to them.

use vstd::prelude::*;
use crate::models::{
    grouped, link_tag, BookTagRow, BookTags, DirectoryRow, ImageRow, NoteRow, TagLink, TagRow,
};
use crate::paths::directory_label;
use crate::tables::{lemma_filter_indices, lemma_filter_prefix};
use crate::text::{lemma_text_le_total, lemma_text_le_transitive, text_le};

verus! {

/// Everything the bookshelf stores: the rows of its five relations and, for
/// each relation with row ids, the largest id it has handed out so far.
pub struct Relations {
    /// The registered directories, ordered by the time they were added.
    pub directories: Seq<DirectoryRow>,
    /// The notes, ordered by page.
    pub notes: Seq<NoteRow>,
    /// The images attached to notes, in the order of their ids, which is
    /// the order in which they were first saved.
    pub note_images: Seq<ImageRow>,
    /// The tags, in the order of their ids, which is the order in which
    /// they were created.
    pub tags: Seq<TagRow>,
    /// The associations of books with tags, in the order they were made.
    pub book_tags: Seq<BookTagRow>,
    pub last_directory_id: int,
    pub last_note_id: int,
    pub last_image_id: int,
    pub last_tag_id: int,
}

/// Selects the directory with the given path.
pub open spec fn directory_path_is(path: Seq<char>) -> spec_fn(DirectoryRow) -> bool {
    |d: DirectoryRow| d.path == path
}

/// Selects every directory but the one with the given id.
pub open spec fn directory_id_is_not(id: int) -> spec_fn(DirectoryRow) -> bool {
    |d: DirectoryRow| d.id != id
}

/// Selects the directories added at `now` or earlier.
pub open spec fn added_not_after(now: Seq<char>) -> spec_fn(DirectoryRow) -> bool {
    |d: DirectoryRow| text_le(d.added_at, now)
}

/// The constraints on the directories: row ids are positive, handed out
/// already and never shared; no path is registered twice; the rows are
/// ordered by the time they were added.
pub open spec fn directories_valid(rows: Seq<DirectoryRow>, last: int) -> bool {
    &&& 0 <= last
    &&& forall|i: int| 0 <= i < rows.len() ==> 0 < (#[trigger] rows[i]).id <= last
    &&& forall|i: int, j: int|
        0 <= i < j < rows.len() ==> (#[trigger] rows[i]).id != (#[trigger] rows[j]).id
    &&& forall|i: int, j: int|
        0 <= i < j < rows.len() ==> (#[trigger] rows[i]).path != (#[trigger] rows[j]).path
    &&& forall|i: int, j: int|
        0 <= i < j < rows.len() ==> text_le(
            (#[trigger] rows[i]).added_at,
            (#[trigger] rows[j]).added_at,
        )
}

/// Selects the note on the given page of the given book.
pub open spec fn note_is(slug: Seq<char>, page: int) -> spec_fn(NoteRow) -> bool {
    |n: NoteRow| n.slug == slug && n.page == page
}

/// Selects every note but the one on the given page of the given book.
pub open spec fn note_is_not(slug: Seq<char>, page: int) -> spec_fn(NoteRow) -> bool {
    |n: NoteRow| !(n.slug == slug && n.page == page)
}

/// Selects the notes of the given book.
pub open spec fn note_of_book(slug: Seq<char>) -> spec_fn(NoteRow) -> bool {
    |n: NoteRow| n.slug == slug
}

/// Selects the notes on `page` or an earlier page.
pub open spec fn page_at_most(page: int) -> spec_fn(NoteRow) -> bool {
    |n: NoteRow| n.page <= page
}

/// Gives the note on the given page of the given book a new content and
/// format, written at `now`, and leaves every other note as it is.
pub open spec fn rewritten(
    slug: Seq<char>,
    page: int,
    content: Seq<char>,
    format: Seq<char>,
    now: Seq<char>,
) -> spec_fn(NoteRow) -> NoteRow {
    |n: NoteRow|
        if n.slug == slug && n.page == page {
            NoteRow { content, format, updated_at: now, ..n }
        } else {
            n
        }
}

/// The constraints on the notes: row ids are positive, handed out already
/// and never shared; no note is empty; a page of a book has at most one
/// note; the rows are ordered by page.
pub open spec fn notes_valid(rows: Seq<NoteRow>, last: int) -> bool {
    &&& 0 <= last
    &&& forall|i: int|
        0 <= i < rows.len() ==> 0 < (#[trigger] rows[i]).id <= last && rows[i].content.len() > 0
    &&& forall|i: int, j: int|
        0 <= i < j < rows.len() ==> (#[trigger] rows[i]).id != (#[trigger] rows[j]).id
    &&& forall|i: int, j: int|
        0 <= i < j < rows.len() ==> !((#[trigger] rows[i]).slug == (#[trigger] rows[j]).slug
            && rows[i].page == rows[j].page)
    &&& forall|i: int, j: int|
        0 <= i < j < rows.len() ==> (#[trigger] rows[i]).page <= (#[trigger] rows[j]).page
}

/// Selects the image saved for the given page of the given book under the
/// given file name.
pub open spec fn image_is(slug: Seq<char>, page: int, filename: Seq<char>) -> spec_fn(
    ImageRow,
) -> bool {
    |m: ImageRow| m.note_slug == slug && m.note_page == page && m.filename == filename
}

/// Selects the image with the given id.
pub open spec fn image_id_is(id: int) -> spec_fn(ImageRow) -> bool {
    |m: ImageRow| m.id == id
}

/// Gives the image saved for the given page of the given book under the
/// given file name new bytes, and leaves every other image as it is.
pub open spec fn with_data(
    slug: Seq<char>,
    page: int,
    filename: Seq<char>,
    data: Seq<u8>,
) -> spec_fn(ImageRow) -> ImageRow {
    |m: ImageRow|
        if m.note_slug == slug && m.note_page == page && m.filename == filename {
            ImageRow { data, ..m }
        } else {
            m
        }
}

/// The constraints on the images: row ids are positive and handed out
/// already; the rows are in the order of their ids, so that no id is
/// shared; a page of a book has at most one image of a name.
pub open spec fn images_valid(rows: Seq<ImageRow>, last: int) -> bool {
    &&& 0 <= last
    &&& forall|i: int| 0 <= i < rows.len() ==> 0 < (#[trigger] rows[i]).id <= last
    &&& forall|i: int, j: int|
        0 <= i < j < rows.len() ==> (#[trigger] rows[i]).id < (#[trigger] rows[j]).id
    &&& forall|i: int, j: int|
        0 <= i < j < rows.len() ==> !((#[trigger] rows[i]).note_slug == (
        #[trigger] rows[j]).note_slug && rows[i].note_page == rows[j].note_page
            && rows[i].filename == rows[j].filename)
}

/// Selects the tag with the given name.
pub open spec fn tag_name_is(name: Seq<char>) -> spec_fn(TagRow) -> bool {
    |t: TagRow| t.name == name
}

/// Selects the tag with the given id.
pub open spec fn tag_id_is(id: int) -> spec_fn(TagRow) -> bool {
    |t: TagRow| t.id == id
}

/// Selects every tag but the one with the given id.
pub open spec fn tag_id_is_not(id: int) -> spec_fn(TagRow) -> bool {
    |t: TagRow| t.id != id
}

/// Gives the tag with the given id a new colour, and leaves every other tag
/// as it is.
pub open spec fn recolored(id: int, color: Seq<char>) -> spec_fn(TagRow) -> TagRow {
    |t: TagRow|
        if t.id == id {
            TagRow { color, ..t }
        } else {
            t
        }
}

/// Selects the association of the given book with the given tag.
pub open spec fn book_tag_is(slug: Seq<char>, tag_id: int) -> spec_fn(BookTagRow) -> bool {
    |b: BookTagRow| b.book_slug == slug && b.tag_id == tag_id
}

/// Selects every association but that of the given book with the given tag.
pub open spec fn book_tag_is_not(slug: Seq<char>, tag_id: int) -> spec_fn(BookTagRow) -> bool {
    |b: BookTagRow| !(b.book_slug == slug && b.tag_id == tag_id)
}

/// Selects the associations with any tag but the given one.
pub open spec fn book_tag_without(tag_id: int) -> spec_fn(BookTagRow) -> bool {
    |b: BookTagRow| b.tag_id != tag_id
}

/// The constraints on the tags: row ids are positive and handed out
/// already; the rows are in the order of their ids, so that no id is
/// shared; no two tags have the same name.
pub open spec fn tags_valid(rows: Seq<TagRow>, last: int) -> bool {
    &&& 0 <= last
    &&& forall|i: int| 0 <= i < rows.len() ==> 0 < (#[trigger] rows[i]).id <= last
    &&& forall|i: int, j: int|
        0 <= i < j < rows.len() ==> (#[trigger] rows[i]).id < (#[trigger] rows[j]).id
    &&& forall|i: int, j: int|
        0 <= i < j < rows.len() ==> (#[trigger] rows[i]).name != (#[trigger] rows[j]).name
}

/// Whether a tag with the given id is among `tags`.
pub open spec fn has_tag(tags: Seq<TagRow>, id: int) -> bool {
    exists|k: int| 0 <= k < tags.len() && (#[trigger] tags[k]).id == id
}

/// The constraints on the associations of books with tags: a book has a tag
/// at most once, and every association is with a tag that exists.
pub open spec fn book_tags_valid(rows: Seq<BookTagRow>, tags: Seq<TagRow>) -> bool {
    &&& forall|i: int, j: int|
        0 <= i < j < rows.len() ==> !((#[trigger] rows[i]).book_slug == (
        #[trigger] rows[j]).book_slug && rows[i].tag_id == rows[j].tag_id)
    &&& forall|i: int| 0 <= i < rows.len() ==> has_tag(tags, (#[trigger] rows[i]).tag_id)
}

/// The tag with the given id among `tags`, if there is one.
pub open spec fn tag_of(tags: Seq<TagRow>, id: int) -> Option<TagRow> {
    let found = tags.filter(tag_id_is(id));
    if found.len() > 0 {
        Some(found[0])
    } else {
        None
    }
}

/// The associations joined with their tags: for each association whose tag
/// exists, in order, the book's slug with the tag's id, name and colour.
pub open spec fn joined_links(book_tags: Seq<BookTagRow>, tags: Seq<TagRow>) -> Seq<TagLink>
    decreases book_tags.len(),
{
    if book_tags.len() == 0 {
        Seq::empty()
    } else {
        let before = joined_links(book_tags.drop_last(), tags);
        match tag_of(tags, book_tags.last().tag_id) {
            Some(tag) => before.push((book_tags.last().book_slug, tag.id, tag.name, tag.color)),
            None => before,
        }
    }
}

impl Relations {
    /// The bookshelf with nothing on it.
    pub open spec fn empty() -> Relations {
        Relations {
            directories: Seq::empty(),
            notes: Seq::empty(),
            note_images: Seq::empty(),
            tags: Seq::empty(),
            book_tags: Seq::empty(),
            last_directory_id: 0,
            last_note_id: 0,
            last_image_id: 0,
            last_tag_id: 0,
        }
    }

    /// The constraints that hold of the relations at all times.
    pub open spec fn valid(self) -> bool {
        &&& directories_valid(self.directories, self.last_directory_id)
        &&& notes_valid(self.notes, self.last_note_id)
        &&& images_valid(self.note_images, self.last_image_id)
        &&& tags_valid(self.tags, self.last_tag_id)
        &&& book_tags_valid(self.book_tags, self.tags)
    }

    /// Whether `path` is registered.
    pub open spec fn has_directory(self, path: Seq<char>) -> bool {
        self.directories.filter(directory_path_is(path)).len() > 0
    }

    /// Where a directory added at `now` goes in the registry: behind every
    /// directory added at `now` or earlier.
    pub open spec fn registry_position(self, now: Seq<char>) -> int {
        self.directories.filter(added_not_after(now)).len() as int
    }

    /// The row that registering `path` at `now` creates.
    pub open spec fn new_directory(self, path: Seq<char>, now: Seq<char>) -> DirectoryRow {
        DirectoryRow {
            id: self.last_directory_id + 1,
            path,
            label: directory_label(path),
            added_at: now,
        }
    }

    /// The relations after `path` was registered at `now`.
    pub open spec fn add_directory(self, path: Seq<char>, now: Seq<char>) -> Relations {
        Relations {
            directories: self.directories.insert(
                self.registry_position(now),
                self.new_directory(path, now),
            ),
            last_directory_id: self.last_directory_id + 1,
            ..self
        }
    }

    /// The relations after the directory with the given id was removed.
    /// Notes and tags of the textbooks under it stay.
    pub open spec fn remove_directory(self, id: int) -> Relations {
        Relations { directories: self.directories.filter(directory_id_is_not(id)), ..self }
    }

    /// The note on the given page of the given book, if there is one.
    pub open spec fn note(self, slug: Seq<char>, page: int) -> Option<NoteRow> {
        let found = self.notes.filter(note_is(slug, page));
        if found.len() > 0 {
            Some(found[0])
        } else {
            None
        }
    }

    /// The notes of the given book, ordered by page.
    pub open spec fn book_notes(self, slug: Seq<char>) -> Seq<NoteRow> {
        self.notes.filter(note_of_book(slug))
    }

    /// Where a new note for `page` goes among the notes: behind every note
    /// on that page or an earlier one.
    pub open spec fn note_position(self, page: int) -> int {
        self.notes.filter(page_at_most(page)).len() as int
    }

    /// The row that a first note on a page creates.
    pub open spec fn new_note(
        self,
        slug: Seq<char>,
        page: int,
        content: Seq<char>,
        format: Seq<char>,
        now: Seq<char>,
    ) -> NoteRow {
        NoteRow { id: self.last_note_id + 1, slug, page, content, format, updated_at: now }
    }

    /// The relations after the note on the given page of the given book was
    /// deleted, if there was one.
    pub open spec fn delete_note(self, slug: Seq<char>, page: int) -> Relations {
        Relations { notes: self.notes.filter(note_is_not(slug, page)), ..self }
    }

    /// The relations after the note on the given page of the given book was
    /// set at `now`: an empty content deletes the note; any other content
    /// replaces that of the note already there, which keeps its row id, or
    /// else creates the note.
    pub open spec fn set_note(
        self,
        slug: Seq<char>,
        page: int,
        content: Seq<char>,
        format: Seq<char>,
        now: Seq<char>,
    ) -> Relations {
        if content.len() == 0 {
            self.delete_note(slug, page)
        } else if self.note(slug, page) is Some {
            Relations {
                notes: self.notes.map_values(rewritten(slug, page, content, format, now)),
                ..self
            }
        } else {
            Relations {
                notes: self.notes.insert(
                    self.note_position(page),
                    self.new_note(slug, page, content, format, now),
                ),
                last_note_id: self.last_note_id + 1,
                ..self
            }
        }
    }

    /// The image saved for the given page of the given book under the given
    /// file name, if there is one.
    pub open spec fn image_named(
        self,
        slug: Seq<char>,
        page: int,
        filename: Seq<char>,
    ) -> Option<ImageRow> {
        let found = self.note_images.filter(image_is(slug, page, filename));
        if found.len() > 0 {
            Some(found[0])
        } else {
            None
        }
    }

    /// The image with the given id, if there is one.
    pub open spec fn image(self, id: int) -> Option<ImageRow> {
        let found = self.note_images.filter(image_id_is(id));
        if found.len() > 0 {
            Some(found[0])
        } else {
            None
        }
    }

    /// The row that a first image of a name creates.
    pub open spec fn new_image(
        self,
        slug: Seq<char>,
        page: int,
        filename: Seq<char>,
        data: Seq<u8>,
        now: Seq<char>,
    ) -> ImageRow {
        ImageRow {
            id: self.last_image_id + 1,
            note_slug: slug,
            note_page: page,
            filename,
            data,
            created_at: now,
        }
    }

    /// The id under which an image saved for the given page of the given
    /// book under the given file name is found afterwards: that of the image
    /// already there, or else the next row id.
    pub open spec fn saved_image_id(self, slug: Seq<char>, page: int, filename: Seq<char>) -> int {
        match self.image_named(slug, page, filename) {
            Some(image) => image.id,
            None => self.last_image_id + 1,
        }
    }

    /// The relations after an image was saved at `now`: the bytes replace
    /// those of the image already there under that book, page and name,
    /// which keeps its row id and creation time, or else a new image is
    /// created.
    pub open spec fn save_note_image(
        self,
        slug: Seq<char>,
        page: int,
        filename: Seq<char>,
        data: Seq<u8>,
        now: Seq<char>,
    ) -> Relations {
        if self.image_named(slug, page, filename) is Some {
            Relations {
                note_images: self.note_images.map_values(with_data(slug, page, filename, data)),
                ..self
            }
        } else {
            Relations {
                note_images: self.note_images.push(
                    self.new_image(slug, page, filename, data, now),
                ),
                last_image_id: self.last_image_id + 1,
                ..self
            }
        }
    }

    /// The tag with the given id, if there is one.
    pub open spec fn tag(self, id: int) -> Option<TagRow> {
        tag_of(self.tags, id)
    }

    /// The tag with the given name, if there is one.
    pub open spec fn tag_named(self, name: Seq<char>) -> Option<TagRow> {
        let found = self.tags.filter(tag_name_is(name));
        if found.len() > 0 {
            Some(found[0])
        } else {
            None
        }
    }

    /// The row that creating a tag creates.
    pub open spec fn new_tag(self, name: Seq<char>, color: Seq<char>) -> TagRow {
        TagRow { id: self.last_tag_id + 1, name, color }
    }

    /// The relations after a tag of the given name and colour was created.
    pub open spec fn create_tag(self, name: Seq<char>, color: Seq<char>) -> Relations {
        Relations {
            tags: self.tags.push(self.new_tag(name, color)),
            last_tag_id: self.last_tag_id + 1,
            ..self
        }
    }

    /// The relations after the tag with the given id was deleted, and with
    /// it every association of a book with that tag.
    pub open spec fn delete_tag(self, id: int) -> Relations {
        Relations {
            tags: self.tags.filter(tag_id_is_not(id)),
            book_tags: self.book_tags.filter(book_tag_without(id)),
            ..self
        }
    }

    /// The relations after the tag with the given id, if there is one, got
    /// the given colour.
    pub open spec fn update_tag_color(self, id: int, color: Seq<char>) -> Relations {
        Relations { tags: self.tags.map_values(recolored(id, color)), ..self }
    }

    /// Whether the given book has the given tag.
    pub open spec fn has_book_tag(self, slug: Seq<char>, tag_id: int) -> bool {
        self.book_tags.filter(book_tag_is(slug, tag_id)).len() > 0
    }

    /// The relations after the given book got the given tag. A book that
    /// has the tag already keeps it once.
    pub open spec fn tag_book(self, slug: Seq<char>, tag_id: int) -> Relations {
        if self.has_book_tag(slug, tag_id) {
            self
        } else {
            Relations {
                book_tags: self.book_tags.push(BookTagRow { book_slug: slug, tag_id }),
                ..self
            }
        }
    }

    /// The relations after the given book lost the given tag, if it had it.
    pub open spec fn untag_book(self, slug: Seq<char>, tag_id: int) -> Relations {
        Relations { book_tags: self.book_tags.filter(book_tag_is_not(slug, tag_id)), ..self }
    }

    /// Every association of a book with a tag, joined with the tag.
    pub open spec fn tag_links(self) -> Seq<TagLink> {
        joined_links(self.book_tags, self.tags)
    }

    /// The tags of every book that has one: one entry per book, with all
    /// its tags.
    pub open spec fn book_tag_mappings(self) -> Seq<BookTags> {
        grouped(self.tag_links())
    }
}

/// In a valid registry, the directories added at `now` or earlier are the
/// first `registry_position(now)` rows.
pub proof fn lemma_registry_position(r: Relations, now: Seq<char>)
    requires
        r.valid(),
    ensures
        0 <= r.registry_position(now) <= r.directories.len(),
        forall|i: int|
            0 <= i < r.registry_position(now) ==> text_le(
                (#[trigger] r.directories[i]).added_at,
                now,
            ),
        forall|i: int|
            r.registry_position(now) <= i < r.directories.len() ==> !text_le(
                (#[trigger] r.directories[i]).added_at,
                now,
            ),
{
    let rows = r.directories;
    let pred = added_not_after(now);
    assert forall|i: int, j: int| 0 <= i < j < rows.len() && pred(#[trigger] rows[j]) implies pred(
        #[trigger] rows[i],
    ) by {
        lemma_text_le_transitive(rows[i].added_at, rows[j].added_at, now);
    }
    lemma_filter_prefix(rows, pred);
    let idx = lemma_filter_indices(rows, pred);
    let n = rows.filter(pred).len() as int;
    assert forall|i: int| 0 <= i < n implies text_le((#[trigger] rows[i]).added_at, now) by {
        assert(rows.take(n)[i] == rows[i]);
        assert(rows.filter(pred)[i] == rows[idx[i]]);
        assert(pred(rows[idx[i]]));
    }
}

/// Registering a path that is not yet registered keeps the relations valid.
pub proof fn lemma_add_directory_valid(r: Relations, path: Seq<char>, now: Seq<char>)
    requires
        r.valid(),
        !r.has_directory(path),
    ensures
        r.add_directory(path, now).valid(),
{
    let rows = r.directories;
    let p = r.registry_position(now);
    let row = r.new_directory(path, now);
    let after = rows.insert(p, row);
    lemma_registry_position(r, now);
    rows.insert_ensures(p, row);
    let idx = lemma_filter_indices(rows, directory_path_is(path));
    assert forall|i: int| 0 <= i < rows.len() implies (#[trigger] rows[i]).path != path by {
        if rows[i].path == path {
            assert(directory_path_is(path)(rows[i]));
            assert(idx.contains(i));
        }
    }
    assert forall|i: int| 0 <= i < after.len() implies (i < p ==> after[i] == rows[i]) && (i == p
        ==> after[i] == row) && (i > p ==> after[i] == rows[i - 1]) by {
        if i > p {
            assert(after[(i - 1) + 1] == rows[i - 1]);
        }
    }
    assert forall|i: int, j: int| 0 <= i < j < after.len() implies text_le(
        (#[trigger] after[i]).added_at,
        (#[trigger] after[j]).added_at,
    ) by {
        if j == p {
        } else if i == p {
            lemma_text_le_total(rows[j - 1].added_at, now);
        } else {
        }
    }
    assert forall|i: int, j: int| 0 <= i < j < after.len() implies (#[trigger] after[i]).id != (
    #[trigger] after[j]).id && after[i].path != after[j].path by {
        let a = if i < p { i } else { i - 1 };
        let b = if j < p { j } else { j - 1 };
        if i != p && j != p {
            assert(after[i] == rows[a] && after[j] == rows[b]);
            assert(a < b);
        } else if i == p {
            assert(after[j] == rows[b]);
        } else {
            assert(after[i] == rows[a]);
        }
    }
    assert forall|i: int| 0 <= i < after.len() implies 0 < (#[trigger] after[i]).id
        <= r.last_directory_id + 1 by {
        let a = if i < p { i } else { i - 1 };
        if i != p {
            assert(after[i] == rows[a]);
        }
    }
}

/// Removing a directory keeps the relations valid.
pub proof fn lemma_remove_directory_valid(r: Relations, id: int)
    requires
        r.valid(),
    ensures
        r.remove_directory(id).valid(),
{
    let rows = r.directories;
    let idx = lemma_filter_indices(rows, directory_id_is_not(id));
    let after = rows.filter(directory_id_is_not(id));
    assert forall|i: int, j: int| 0 <= i < j < after.len() implies (#[trigger] after[i]).id != (
    #[trigger] after[j]).id && after[i].path != after[j].path && text_le(
        after[i].added_at,
        after[j].added_at,
    ) by {
        assert(idx[i] < idx[j]);
    }
    assert forall|i: int| 0 <= i < after.len() implies 0 < (#[trigger] after[i]).id
        <= r.last_directory_id by {
        assert(after[i] == rows[idx[i]]);
    }
}

/// In valid relations, the notes on `page` or an earlier page are the first
/// `note_position(page)` rows.
pub proof fn lemma_note_position(r: Relations, page: int)
    requires
        r.valid(),
    ensures
        0 <= r.note_position(page) <= r.notes.len(),
        forall|i: int| 0 <= i < r.note_position(page) ==> (#[trigger] r.notes[i]).page <= page,
        forall|i: int|
            r.note_position(page) <= i < r.notes.len() ==> (#[trigger] r.notes[i]).page > page,
{
    let rows = r.notes;
    let pred = page_at_most(page);
    lemma_filter_prefix(rows, pred);
    let idx = lemma_filter_indices(rows, pred);
    let n = rows.filter(pred).len() as int;
    assert forall|i: int| 0 <= i < n implies (#[trigger] rows[i]).page <= page by {
        assert(rows.take(n)[i] == rows[i]);
        assert(rows.filter(pred)[i] == rows[idx[i]]);
        assert(pred(rows[idx[i]]));
    }
}

/// In valid relations, the note of a page is the one row with that book and
/// page, and there is no note exactly when no row has them.
pub proof fn lemma_note_lookup(r: Relations, slug: Seq<char>, page: int)
    requires
        r.valid(),
    ensures
        r.notes.filter(note_is(slug, page)).len() <= 1,
        r.note(slug, page) is Some ==> exists|k: int|
            0 <= k < r.notes.len() && #[trigger] r.notes[k] == r.note(slug, page)->0
                && r.notes[k].slug == slug && r.notes[k].page == page,
        r.note(slug, page) is None ==> forall|k: int|
            0 <= k < r.notes.len() ==> !((#[trigger] r.notes[k]).slug == slug && r.notes[k].page
                == page),
{
    let rows = r.notes;
    let pred = note_is(slug, page);
    let idx = lemma_filter_indices(rows, pred);
    if idx.len() > 1 {
        assert(idx[0] < idx[1]);
        assert(pred(rows[idx[0]]) && pred(rows[idx[1]]));
    }
    if r.note(slug, page) is Some {
        assert(rows[idx[0]] == r.note(slug, page)->0);
        assert(pred(rows[idx[0]]));
    } else {
        assert forall|k: int| 0 <= k < rows.len() implies !((#[trigger] rows[k]).slug == slug
            && rows[k].page == page) by {
            if pred(rows[k]) {
                assert(idx.contains(k));
            }
        }
    }
}

/// The notes of a book are listed by ascending page, no page twice.
pub proof fn lemma_book_notes_ordered(r: Relations, slug: Seq<char>)
    requires
        r.valid(),
    ensures
        forall|i: int, j: int|
            0 <= i < j < r.book_notes(slug).len() ==> (#[trigger] r.book_notes(slug)[i]).page < (
            #[trigger] r.book_notes(slug)[j]).page,
        forall|i: int| 0 <= i < r.book_notes(slug).len() ==> (#[trigger] r.book_notes(slug)[i]).slug == slug,
{
    let rows = r.notes;
    let idx = lemma_filter_indices(rows, note_of_book(slug));
    let listed = r.book_notes(slug);
    assert forall|i: int, j: int| 0 <= i < j < listed.len() implies (#[trigger] listed[i]).page < (
    #[trigger] listed[j]).page by {
        assert(idx[i] < idx[j]);
        assert(listed[i] == rows[idx[i]] && listed[j] == rows[idx[j]]);
        assert(note_of_book(slug)(rows[idx[i]]) && note_of_book(slug)(rows[idx[j]]));
        assert(!(rows[idx[i]].slug == rows[idx[j]].slug && rows[idx[i]].page
            == rows[idx[j]].page));
    }
    assert forall|i: int| 0 <= i < listed.len() implies (#[trigger] listed[i]).slug == slug by {
        assert(note_of_book(slug)(rows[idx[i]]));
    }
}

/// Deleting a note keeps the relations valid.
pub proof fn lemma_delete_note_valid(r: Relations, slug: Seq<char>, page: int)
    requires
        r.valid(),
    ensures
        r.delete_note(slug, page).valid(),
{
    let rows = r.notes;
    let idx = lemma_filter_indices(rows, note_is_not(slug, page));
    let after = rows.filter(note_is_not(slug, page));
    assert forall|i: int, j: int| 0 <= i < j < after.len() implies (#[trigger] after[i]).id != (
    #[trigger] after[j]).id && !(after[i].slug == after[j].slug && after[i].page == after[j].page)
        && after[i].page <= after[j].page by {
        assert(idx[i] < idx[j]);
    }
    assert forall|i: int| 0 <= i < after.len() implies 0 < (#[trigger] after[i]).id
        <= r.last_note_id && after[i].content.len() > 0 by {
        assert(after[i] == rows[idx[i]]);
    }
}

/// Setting a note keeps the relations valid.
pub proof fn lemma_set_note_valid(
    r: Relations,
    slug: Seq<char>,
    page: int,
    content: Seq<char>,
    format: Seq<char>,
    now: Seq<char>,
)
    requires
        r.valid(),
    ensures
        r.set_note(slug, page, content, format, now).valid(),
{
    let rows = r.notes;
    if content.len() == 0 {
        lemma_delete_note_valid(r, slug, page);
    } else if r.note(slug, page) is Some {
        let after = rows.map_values(rewritten(slug, page, content, format, now));
        assert forall|i: int| 0 <= i < after.len() implies (#[trigger] after[i]).id == rows[i].id
            && after[i].slug == rows[i].slug && after[i].page == rows[i].page
            && after[i].content.len() > 0 by {}
    } else {
        let p = r.note_position(page);
        let row = r.new_note(slug, page, content, format, now);
        let after = rows.insert(p, row);
        lemma_note_position(r, page);
        lemma_note_lookup(r, slug, page);
        rows.insert_ensures(p, row);
        assert forall|i: int| 0 <= i < after.len() implies (i < p ==> after[i] == rows[i]) && (i
            == p ==> after[i] == row) && (i > p ==> after[i] == rows[i - 1]) by {
            if i > p {
                assert(after[(i - 1) + 1] == rows[i - 1]);
            }
        }
        assert forall|i: int, j: int| 0 <= i < j < after.len() implies (#[trigger] after[i]).id != (
        #[trigger] after[j]).id && !(after[i].slug == after[j].slug && after[i].page
            == after[j].page) && after[i].page <= after[j].page by {
            let a = if i < p { i } else { i - 1 };
            let b = if j < p { j } else { j - 1 };
            if i != p && j != p {
                assert(after[i] == rows[a] && after[j] == rows[b]);
                assert(a < b);
            } else if i == p {
                assert(after[j] == rows[b]);
            } else {
                assert(after[i] == rows[a]);
            }
        }
        assert forall|i: int| 0 <= i < after.len() implies 0 < (#[trigger] after[i]).id
            <= r.last_note_id + 1 && after[i].content.len() > 0 by {
            let a = if i < p { i } else { i - 1 };
            if i != p {
                assert(after[i] == rows[a]);
            }
        }
    }
}

/// In valid relations, the image of a name is the one row with that book,
/// page and name, and there is none exactly when no row has them.
pub proof fn lemma_image_named(r: Relations, slug: Seq<char>, page: int, filename: Seq<char>)
    requires
        r.valid(),
    ensures
        r.note_images.filter(image_is(slug, page, filename)).len() <= 1,
        r.image_named(slug, page, filename) is Some ==> exists|k: int|
            0 <= k < r.note_images.len() && #[trigger] r.note_images[k] == r.image_named(
                slug,
                page,
                filename,
            )->0 && image_is(slug, page, filename)(r.note_images[k]),
        r.image_named(slug, page, filename) is None ==> forall|k: int|
            0 <= k < r.note_images.len() ==> !image_is(slug, page, filename)(
                #[trigger] r.note_images[k],
            ),
{
    let rows = r.note_images;
    let pred = image_is(slug, page, filename);
    let idx = lemma_filter_indices(rows, pred);
    if idx.len() > 1 {
        assert(idx[0] < idx[1]);
        assert(pred(rows[idx[0]]) && pred(rows[idx[1]]));
    }
    if r.image_named(slug, page, filename) is Some {
        assert(rows[idx[0]] == r.image_named(slug, page, filename)->0);
        assert(pred(rows[idx[0]]));
    } else {
        assert forall|k: int| 0 <= k < rows.len() implies !pred(#[trigger] rows[k]) by {
            if pred(rows[k]) {
                assert(idx.contains(k));
            }
        }
    }
}

/// Saving an image keeps the relations valid.
pub proof fn lemma_save_note_image_valid(
    r: Relations,
    slug: Seq<char>,
    page: int,
    filename: Seq<char>,
    data: Seq<u8>,
    now: Seq<char>,
)
    requires
        r.valid(),
    ensures
        r.save_note_image(slug, page, filename, data, now).valid(),
{
    let rows = r.note_images;
    if r.image_named(slug, page, filename) is Some {
        let after = rows.map_values(with_data(slug, page, filename, data));
        assert forall|i: int| 0 <= i < after.len() implies (#[trigger] after[i]).id == rows[i].id
            && after[i].note_slug == rows[i].note_slug && after[i].note_page == rows[i].note_page
            && after[i].filename == rows[i].filename by {}
    } else {
        lemma_image_named(r, slug, page, filename);
        let row = r.new_image(slug, page, filename, data, now);
        let after = rows.push(row);
        assert forall|i: int, j: int| 0 <= i < j < after.len() implies (#[trigger] after[i]).id != (
        #[trigger] after[j]).id && !(after[i].note_slug == after[j].note_slug
            && after[i].note_page == after[j].note_page && after[i].filename
            == after[j].filename) by {
            if j == rows.len() {
                assert(after[i] == rows[i]);
                assert(!image_is(slug, page, filename)(rows[i]));
            } else {
                assert(after[i] == rows[i] && after[j] == rows[j]);
            }
        }
    }
}

/// In valid relations, the tag of an id is the one row with that id, and
/// there is none exactly when no row has it.
pub proof fn lemma_tag_lookup(tags: Seq<TagRow>, last: int, id: int)
    requires
        tags_valid(tags, last),
    ensures
        tags.filter(tag_id_is(id)).len() <= 1,
        tag_of(tags, id) is Some ==> exists|k: int|
            0 <= k < tags.len() && #[trigger] tags[k] == tag_of(tags, id)->0 && tags[k].id == id,
        tag_of(tags, id) is None ==> forall|k: int|
            0 <= k < tags.len() ==> (#[trigger] tags[k]).id != id,
{
    let pred = tag_id_is(id);
    let idx = lemma_filter_indices(tags, pred);
    if idx.len() > 1 {
        assert(idx[0] < idx[1]);
        assert(pred(tags[idx[0]]) && pred(tags[idx[1]]));
    }
    if tag_of(tags, id) is Some {
        assert(tags[idx[0]] == tag_of(tags, id)->0);
        assert(pred(tags[idx[0]]));
    } else {
        assert forall|k: int| 0 <= k < tags.len() implies (#[trigger] tags[k]).id != id by {
            if pred(tags[k]) {
                assert(idx.contains(k));
            }
        }
    }
}

/// A tag with the given id is among `tags` exactly when looking it up finds
/// one.
pub proof fn lemma_has_tag(tags: Seq<TagRow>, id: int)
    ensures
        has_tag(tags, id) <==> tag_of(tags, id) is Some,
        tag_of(tags, id) is Some ==> tag_of(tags, id)->0.id == id,
{
    let pred = tag_id_is(id);
    let idx = lemma_filter_indices(tags, pred);
    if tag_of(tags, id) is Some {
        assert(pred(tags[idx[0]]));
    }
    if has_tag(tags, id) {
        let k = choose|k: int| 0 <= k < tags.len() && (#[trigger] tags[k]).id == id;
        assert(pred(tags[k]));
        assert(idx.contains(k));
    }
}

/// In valid relations, the tag of a name is the one row with that name, and
/// there is none exactly when no row has it.
pub proof fn lemma_tag_named(r: Relations, name: Seq<char>)
    requires
        r.valid(),
    ensures
        r.tags.filter(tag_name_is(name)).len() <= 1,
        r.tag_named(name) is Some ==> exists|k: int|
            0 <= k < r.tags.len() && #[trigger] r.tags[k] == r.tag_named(name)->0
                && r.tags[k].name == name,
        r.tag_named(name) is None ==> forall|k: int|
            0 <= k < r.tags.len() ==> (#[trigger] r.tags[k]).name != name,
{
    let tags = r.tags;
    let pred = tag_name_is(name);
    let idx = lemma_filter_indices(tags, pred);
    if idx.len() > 1 {
        assert(idx[0] < idx[1]);
        assert(pred(tags[idx[0]]) && pred(tags[idx[1]]));
    }
    if r.tag_named(name) is Some {
        assert(tags[idx[0]] == r.tag_named(name)->0);
        assert(pred(tags[idx[0]]));
    } else {
        assert forall|k: int| 0 <= k < tags.len() implies (#[trigger] tags[k]).name != name by {
            if pred(tags[k]) {
                assert(idx.contains(k));
            }
        }
    }
}

/// A book has a tag exactly when a row associates them.
pub proof fn lemma_has_book_tag(r: Relations, slug: Seq<char>, tag_id: int)
    ensures
        r.has_book_tag(slug, tag_id) <==> exists|k: int|
            0 <= k < r.book_tags.len() && book_tag_is(slug, tag_id)(#[trigger] r.book_tags[k]),
{
    let rows = r.book_tags;
    let pred = book_tag_is(slug, tag_id);
    let idx = lemma_filter_indices(rows, pred);
    if r.has_book_tag(slug, tag_id) {
        assert(pred(rows[idx[0]]));
    }
    if exists|k: int| 0 <= k < rows.len() && pred(#[trigger] rows[k]) {
        let k = choose|k: int| 0 <= k < rows.len() && pred(#[trigger] rows[k]);
        assert(idx.contains(k));
    }
}

/// Where every association is with a tag that exists, the join has one
/// link for each association, in order, with the association's book and
/// tag id.
pub proof fn lemma_joined_links(book_tags: Seq<BookTagRow>, tags: Seq<TagRow>)
    requires
        forall|i: int| 0 <= i < book_tags.len() ==> has_tag(tags, (#[trigger] book_tags[i]).tag_id),
    ensures
        joined_links(book_tags, tags).len() == book_tags.len(),
        forall|i: int|
            0 <= i < book_tags.len() ==> (#[trigger] joined_links(book_tags, tags)[i]).0
                == book_tags[i].book_slug && joined_links(book_tags, tags)[i].1
                == book_tags[i].tag_id && tag_of(tags, book_tags[i].tag_id) == Some(
                link_tag(joined_links(book_tags, tags)[i]),
            ),
    decreases book_tags.len(),
{
    if book_tags.len() > 0 {
        let rest = book_tags.drop_last();
        assert forall|i: int| 0 <= i < rest.len() implies has_tag(
            tags,
            (#[trigger] rest[i]).tag_id,
        ) by {
            assert(rest[i] == book_tags[i]);
        }
        lemma_joined_links(rest, tags);
        assert(has_tag(tags, book_tags[book_tags.len() - 1].tag_id));
        lemma_has_tag(tags, book_tags.last().tag_id);
        assert forall|i: int| 0 <= i < book_tags.len() implies (#[trigger] joined_links(
            book_tags,
            tags,
        )[i]).0 == book_tags[i].book_slug && joined_links(book_tags, tags)[i].1
            == book_tags[i].tag_id && tag_of(tags, book_tags[i].tag_id) == Some(
            link_tag(joined_links(book_tags, tags)[i]),
        ) by {
            if i < rest.len() {
                assert(joined_links(book_tags, tags)[i] == joined_links(rest, tags)[i]);
                assert(rest[i] == book_tags[i]);
            }
        }
    }
}

/// Creating a tag under a name that no tag has keeps the relations valid.
pub proof fn lemma_create_tag_valid(r: Relations, name: Seq<char>, color: Seq<char>)
    requires
        r.valid(),
        r.tag_named(name) is None,
    ensures
        r.create_tag(name, color).valid(),
{
    let rows = r.tags;
    let row = r.new_tag(name, color);
    let after = rows.push(row);
    lemma_tag_named(r, name);
    assert forall|i: int, j: int| 0 <= i < j < after.len() implies (#[trigger] after[i]).id != (
    #[trigger] after[j]).id && after[i].name != after[j].name by {
        if j == rows.len() {
            assert(after[i] == rows[i]);
        } else {
            assert(after[i] == rows[i] && after[j] == rows[j]);
        }
    }
    assert forall|i: int| 0 <= i < r.book_tags.len() implies has_tag(
        after,
        (#[trigger] r.book_tags[i]).tag_id,
    ) by {
        let k = choose|k: int|
            0 <= k < rows.len() && (#[trigger] rows[k]).id == r.book_tags[i].tag_id;
        assert(after[k] == rows[k]);
    }
}

/// Deleting a tag keeps the relations valid: no association is left
/// without its tag.
pub proof fn lemma_delete_tag_valid(r: Relations, id: int)
    requires
        r.valid(),
    ensures
        r.delete_tag(id).valid(),
{
    let tags = r.tags;
    let rows = r.book_tags;
    let tidx = lemma_filter_indices(tags, tag_id_is_not(id));
    let ridx = lemma_filter_indices(rows, book_tag_without(id));
    let tags_after = tags.filter(tag_id_is_not(id));
    let rows_after = rows.filter(book_tag_without(id));
    assert forall|i: int, j: int| 0 <= i < j < tags_after.len() implies (
    #[trigger] tags_after[i]).id < (#[trigger] tags_after[j]).id && tags_after[i].name
        != tags_after[j].name by {
        assert(tidx[i] < tidx[j]);
    }
    assert forall|i: int| 0 <= i < tags_after.len() implies 0 < (#[trigger] tags_after[i]).id
        <= r.last_tag_id by {
        assert(tags_after[i] == tags[tidx[i]]);
    }
    assert forall|i: int, j: int| 0 <= i < j < rows_after.len() implies !((
    #[trigger] rows_after[i]).book_slug == (#[trigger] rows_after[j]).book_slug
        && rows_after[i].tag_id == rows_after[j].tag_id) by {
        assert(ridx[i] < ridx[j]);
    }
    assert forall|i: int| 0 <= i < rows_after.len() implies has_tag(
        tags_after,
        (#[trigger] rows_after[i]).tag_id,
    ) by {
        let row = rows[ridx[i]];
        assert(rows_after[i] == row);
        assert(book_tag_without(id)(row));
        let k = choose|k: int| 0 <= k < tags.len() && (#[trigger] tags[k]).id == row.tag_id;
        assert(tag_id_is_not(id)(tags[k]));
        assert(tidx.contains(k));
        let w = choose|w: int| 0 <= w < tidx.len() && tidx[w] == k;
        assert(tags_after[w] == tags[tidx[w]]);
    }
}

/// Recolouring a tag keeps the relations valid.
pub proof fn lemma_update_tag_color_valid(r: Relations, id: int, color: Seq<char>)
    requires
        r.valid(),
    ensures
        r.update_tag_color(id, color).valid(),
{
    let tags = r.tags;
    let after = tags.map_values(recolored(id, color));
    assert forall|i: int| 0 <= i < after.len() implies (#[trigger] after[i]).id == tags[i].id
        && after[i].name == tags[i].name by {}
    assert forall|i: int| 0 <= i < r.book_tags.len() implies has_tag(
        after,
        (#[trigger] r.book_tags[i]).tag_id,
    ) by {
        let k = choose|k: int|
            0 <= k < tags.len() && (#[trigger] tags[k]).id == r.book_tags[i].tag_id;
        assert(after[k].id == tags[k].id);
    }
}

/// Tagging a book with a tag that exists keeps the relations valid.
pub proof fn lemma_tag_book_valid(r: Relations, slug: Seq<char>, tag_id: int)
    requires
        r.valid(),
        r.tag(tag_id) is Some,
    ensures
        r.tag_book(slug, tag_id).valid(),
{
    if !r.has_book_tag(slug, tag_id) {
        let rows = r.book_tags;
        let row = BookTagRow { book_slug: slug, tag_id };
        let after = rows.push(row);
        lemma_has_book_tag(r, slug, tag_id);
        lemma_tag_lookup(r.tags, r.last_tag_id, tag_id);
        assert forall|i: int, j: int| 0 <= i < j < after.len() implies !((
        #[trigger] after[i]).book_slug == (#[trigger] after[j]).book_slug && after[i].tag_id
            == after[j].tag_id) by {
            if j == rows.len() {
                assert(after[i] == rows[i]);
                assert(!book_tag_is(slug, tag_id)(rows[i]));
            } else {
                assert(after[i] == rows[i] && after[j] == rows[j]);
            }
        }
        assert forall|i: int| 0 <= i < after.len() implies has_tag(
            r.tags,
            (#[trigger] after[i]).tag_id,
        ) by {
            if i < rows.len() {
                assert(after[i] == rows[i]);
            }
        }
    }
}

/// Untagging a book keeps the relations valid.
pub proof fn lemma_untag_book_valid(r: Relations, slug: Seq<char>, tag_id: int)
    requires
        r.valid(),
    ensures
        r.untag_book(slug, tag_id).valid(),
{
    let rows = r.book_tags;
    let idx = lemma_filter_indices(rows, book_tag_is_not(slug, tag_id));
    let after = rows.filter(book_tag_is_not(slug, tag_id));
    assert forall|i: int, j: int| 0 <= i < j < after.len() implies !((
    #[trigger] after[i]).book_slug == (#[trigger] after[j]).book_slug && after[i].tag_id
        == after[j].tag_id) by {
        assert(idx[i] < idx[j]);
    }
    assert forall|i: int| 0 <= i < after.len() implies has_tag(
        r.tags,
        (#[trigger] after[i]).tag_id,
    ) by {
        assert(after[i] == rows[idx[i]]);
    }
}

} // verus!

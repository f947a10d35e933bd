//! What holds of the operations taken together: how one operation is seen
//! by the next, whatever the relations were before.

use vstd::prelude::*;
use crate::models::{
    lemma_grouped, lemma_tagged_books, lemma_tag_comes_from_link, lemma_tags_of_count, link_is,
    tag_row_is, tagged_books, tags_of, BookTagRow, NoteRow, TagRow,
};
use crate::paths::directory_label;
use crate::relations::{
    book_tag_is, book_tag_is_not, book_tag_without, directory_id_is_not, directory_path_is,
    has_tag, image_id_is, image_is, joined_links, lemma_create_tag_valid, lemma_delete_tag_valid,
    lemma_has_book_tag, lemma_has_tag, lemma_image_named, lemma_joined_links, lemma_note_lookup,
    lemma_note_position, lemma_registry_position, lemma_save_note_image_valid,
    lemma_set_note_valid, lemma_tag_book_valid, lemma_tag_named, note_is, note_is_not,
    recolored, rewritten, tag_id_is, tag_id_is_not, tag_name_is, tag_of, Relations,
};
use crate::tables::{
    lemma_filter_all, lemma_filter_filter, lemma_filter_indices, lemma_filter_insert,
    lemma_filter_none, lemma_filter_push, lemma_filter_remove, lemma_filter_single,
    lemma_filter_split,
};
use crate::slug::sanitized;
use crate::text::{
    decimal, digits, lemma_decimal_distinct, lemma_digits, lemma_text_le_antisymmetric,
    lemma_text_le_reflexive, lemma_text_le_total, lemma_text_le_transitive, parsed_integer,
    text_le,
};
use crate::textbooks::slug_of;
use crate::theme::{theme_step, ThemeProbe, ThemeStep};

verus! {

/// The order in which times are compared is a total order: every text is
/// at most itself, of two texts one is at most the other, the order is
/// transitive, and two texts that are each at most the other are the same.
pub proof fn law_text_order(a: Seq<char>, b: Seq<char>, c: Seq<char>)
    ensures
        text_le(a, a),
        text_le(a, b) || text_le(b, a),
        text_le(a, b) && text_le(b, c) ==> text_le(a, c),
        text_le(a, b) && text_le(b, a) ==> a == b,
{
    lemma_text_le_reflexive(a);
    lemma_text_le_total(a, b);
    if text_le(a, b) && text_le(b, c) {
        lemma_text_le_transitive(a, b, c);
    }
    if text_le(a, b) && text_le(b, a) {
        lemma_text_le_antisymmetric(a, b);
    }
}

/// A number written in decimal, as the page of an export heading or the
/// directory of a slug is, reads back as the same number where a page is
/// read from a key.
pub proof fn law_decimal_reads_back(n: int)
    requires
        i64::MIN <= n <= i64::MAX,
    ensures
        parsed_integer(decimal(n)) == Some(n),
{
    if n < 0 {
        lemma_digits((-n) as nat);
        assert(decimal(n).skip(1) =~= digits((-n) as nat));
    } else {
        lemma_digits(n as nat);
    }
}

/// Two slugs are the same only for files of the same directory whose stems
/// have the same sanitized form: files of different directories never share
/// a slug.
pub proof fn law_slugs_tell_directories_apart(
    dir: int,
    stem: Seq<char>,
    other_dir: int,
    other_stem: Seq<char>,
)
    requires
        slug_of(dir, stem) == slug_of(other_dir, other_stem),
    ensures
        dir == other_dir,
        sanitized(stem) == sanitized(other_stem),
{
    let slug = slug_of(dir, stem);
    let a = decimal(dir);
    let b = decimal(other_dir);
    lemma_decimal_distinct(dir, other_dir);
    lemma_decimal_distinct(other_dir, dir);
    assert(slug[a.len() as int] == '_');
    assert(slug[b.len() as int] == '_');
    if a.len() < b.len() {
        assert(slug[a.len() as int] == b[a.len() as int]);
    }
    if b.len() < a.len() {
        assert(slug[b.len() as int] == a[b.len() as int]);
    }
    assert(a =~= slug.take(a.len() as int));
    assert(b =~= slug.take(b.len() as int));
    assert(sanitized(stem) =~= slug.skip(a.len() as int + 1));
    assert(sanitized(other_stem) =~= slug.skip(b.len() as int + 1));
}

/// The detection of the appearance ends: whatever the desktop answers, the
/// appearance is decided after the first, the second or the third question,
/// and the questions are asked in the same order every time.
pub proof fn law_theme_is_decided(
    first: Option<Seq<char>>,
    second: Option<Seq<char>>,
    third: Option<Seq<char>>,
)
    ensures
        theme_step(ThemeProbe::PortalColorScheme, first) is Decided || (theme_step(
            ThemeProbe::PortalColorScheme,
            first,
        ) == ThemeStep::Ask(ThemeProbe::SettingsColorScheme) && (theme_step(
            ThemeProbe::SettingsColorScheme,
            second,
        ) is Decided || (theme_step(ThemeProbe::SettingsColorScheme, second) == ThemeStep::Ask(
            ThemeProbe::SettingsThemeName,
        ) && theme_step(ThemeProbe::SettingsThemeName, third) is Decided))),
{
}

/// A directory that was just registered is listed exactly once under its
/// path, and its label is the final segment of the path, or the whole path
/// where it has no final segment.
pub proof fn law_added_directory_is_listed_once(r: Relations, path: Seq<char>, now: Seq<char>)
    requires
        r.valid(),
        !r.has_directory(path),
    ensures
        r.add_directory(path, now).directories.filter(directory_path_is(path)) == seq![
            r.new_directory(path, now),
        ],
        r.new_directory(path, now).label == directory_label(path),
        r.add_directory(path, now).directories.len() == r.directories.len() + 1,
{
    let rows = r.directories;
    let pred = directory_path_is(path);
    let p = r.registry_position(now);
    lemma_registry_position(r, now);
    lemma_filter_split(rows, pred, p);
    lemma_filter_insert(rows, pred, p, r.new_directory(path, now));
    assert(rows.take(p).filter(pred).len() == 0);
    assert(rows.skip(p).filter(pred).len() == 0);
    assert(r.add_directory(path, now).directories.filter(pred) =~= seq![
        r.new_directory(path, now),
    ]);
}

/// Removing a directory under an id that no directory has changes nothing.
pub proof fn law_remove_unknown_directory(r: Relations, id: int)
    requires
        forall|i: int| 0 <= i < r.directories.len() ==> (#[trigger] r.directories[i]).id != id,
    ensures
        r.remove_directory(id) == r,
{
    lemma_filter_all(r.directories, directory_id_is_not(id));
}

/// Removing a directory leaves every note, image and tag where it is, also
/// those of the textbooks that were found under the directory.
pub proof fn law_directory_removal_keeps_notes_and_tags(r: Relations, id: int)
    ensures
        r.remove_directory(id).notes == r.notes,
        r.remove_directory(id).note_images == r.note_images,
        r.remove_directory(id).tags == r.tags,
        r.remove_directory(id).book_tags == r.book_tags,
{
}

/// Once a directory was removed, no directory has its id.
pub proof fn law_removed_directory_is_gone(r: Relations, id: int)
    ensures
        forall|i: int|
            0 <= i < r.remove_directory(id).directories.len() ==> (
            #[trigger] r.remove_directory(id).directories[i]).id != id,
{
    let idx = lemma_filter_indices(r.directories, directory_id_is_not(id));
}

/// Setting a note to a content that is not empty is seen by the next read:
/// the page then has exactly one note, with that content and format and
/// the time of writing.
pub proof fn law_set_note_is_read(
    r: Relations,
    slug: Seq<char>,
    page: int,
    content: Seq<char>,
    format: Seq<char>,
    now: Seq<char>,
)
    requires
        r.valid(),
        content.len() > 0,
    ensures
        r.set_note(slug, page, content, format, now).notes.filter(note_is(slug, page)).len() == 1,
        r.set_note(slug, page, content, format, now).note(slug, page) == Some(
            NoteRow {
                id: match r.note(slug, page) {
                    Some(note) => note.id,
                    None => r.last_note_id + 1,
                },
                slug,
                page,
                content,
                format,
                updated_at: now,
            },
        ),
{
    let rows = r.notes;
    let pred = note_is(slug, page);
    lemma_note_lookup(r, slug, page);
    if r.note(slug, page) is Some {
        let k = choose|k: int|
            0 <= k < rows.len() && #[trigger] rows[k] == r.note(slug, page)->0 && rows[k].slug
                == slug && rows[k].page == page;
        let after = rows.map_values(rewritten(slug, page, content, format, now));
        assert forall|j: int| 0 <= j < after.len() && j != k implies !pred(#[trigger] after[j]) by {
            if j < k {
                assert(!(rows[j].slug == rows[k].slug && rows[j].page == rows[k].page));
            } else {
                assert(!(rows[k].slug == rows[j].slug && rows[k].page == rows[j].page));
            }
        }
        lemma_filter_single(after, pred, k);
    } else {
        let p = r.note_position(page);
        let row = r.new_note(slug, page, content, format, now);
        lemma_note_position(r, page);
        lemma_filter_none(rows, pred);
        lemma_filter_split(rows, pred, p);
        lemma_filter_insert(rows, pred, p, row);
        assert(rows.take(p).filter(pred).len() == 0);
        assert(rows.skip(p).filter(pred).len() == 0);
        assert(rows.insert(p, row).filter(pred) =~= seq![row]);
    }
}

/// Setting a note to the empty content leaves the page without a note:
/// where it had none, nothing changes; where it had one, that row goes and
/// no other.
pub proof fn law_empty_note_is_deleted(
    r: Relations,
    slug: Seq<char>,
    page: int,
    format: Seq<char>,
    now: Seq<char>,
)
    requires
        r.valid(),
    ensures
        r.set_note(slug, page, Seq::empty(), format, now).note(slug, page) is None,
        r.note(slug, page) is None ==> r.set_note(slug, page, Seq::empty(), format, now) == r,
        r.note(slug, page) is Some ==> r.set_note(slug, page, Seq::empty(), format, now).notes.len()
            == r.notes.len() - 1,
        forall|other_slug: Seq<char>, other_page: int|
            !(other_slug == slug && other_page == page) ==> #[trigger] r.set_note(
                slug,
                page,
                Seq::empty(),
                format,
                now,
            ).note(other_slug, other_page) == r.note(other_slug, other_page),
{
    let rows = r.notes;
    let keep = note_is_not(slug, page);
    let after = rows.filter(keep);
    let idx = lemma_filter_indices(rows, keep);
    assert forall|i: int| 0 <= i < after.len() implies !note_is(slug, page)(#[trigger] after[i]) by {
        assert(keep(rows[idx[i]]));
    }
    lemma_filter_none(after, note_is(slug, page));
    lemma_note_lookup(r, slug, page);
    if r.note(slug, page) is None {
        lemma_filter_all(rows, keep);
    } else {
        let k = choose|k: int|
            0 <= k < rows.len() && #[trigger] rows[k] == r.note(slug, page)->0 && rows[k].slug
                == slug && rows[k].page == page;
        assert forall|j: int| 0 <= j < rows.len() && j != k implies keep(#[trigger] rows[j]) by {
            if j < k {
                assert(!(rows[j].slug == rows[k].slug && rows[j].page == rows[k].page));
            } else {
                assert(!(rows[k].slug == rows[j].slug && rows[k].page == rows[j].page));
            }
        }
        lemma_filter_remove(rows, keep, k);
    }
    assert forall|other_slug: Seq<char>, other_page: int|
        !(other_slug == slug && other_page == page) implies #[trigger] r.set_note(
        slug,
        page,
        Seq::empty(),
        format,
        now,
    ).note(other_slug, other_page) == r.note(other_slug, other_page) by {
        lemma_filter_filter(rows, keep, note_is(other_slug, other_page));
    }
}

/// Setting the note of a page twice leaves exactly one row for the page,
/// with the content, the format and the time of the second call. Where
/// the first call left a note, the second keeps its row id, and its time is
/// not before that of the first if the caller's clock did not go back.
pub proof fn law_note_set_twice(
    r: Relations,
    slug: Seq<char>,
    page: int,
    first: Seq<char>,
    first_format: Seq<char>,
    first_now: Seq<char>,
    second: Seq<char>,
    second_format: Seq<char>,
    second_now: Seq<char>,
)
    requires
        r.valid(),
        second.len() > 0,
        text_le(first_now, second_now),
    ensures
        ({
            let once = r.set_note(slug, page, first, first_format, first_now);
            let twice = once.set_note(slug, page, second, second_format, second_now);
            &&& twice.notes.filter(note_is(slug, page)).len() == 1
            &&& twice.note(slug, page) matches Some(note) && note.content == second && note.format
                == second_format && note.updated_at == second_now
            &&& first.len() > 0 ==> (once.note(slug, page) matches Some(before) && before.id
                == twice.note(slug, page)->0.id && text_le(
                before.updated_at,
                twice.note(slug, page)->0.updated_at,
            ))
        }),
{
    let once = r.set_note(slug, page, first, first_format, first_now);
    lemma_set_note_valid(r, slug, page, first, first_format, first_now);
    law_set_note_is_read(once, slug, page, second, second_format, second_now);
    if first.len() > 0 {
        law_set_note_is_read(r, slug, page, first, first_format, first_now);
    }
}

/// After an image was saved, it is found under the id that the save
/// returned, with the bytes that were saved.
pub proof fn law_saved_image_is_read(
    r: Relations,
    slug: Seq<char>,
    page: int,
    filename: Seq<char>,
    data: Seq<u8>,
    now: Seq<char>,
)
    requires
        r.valid(),
    ensures
        ({
            let after = r.save_note_image(slug, page, filename, data, now);
            let id = r.saved_image_id(slug, page, filename);
            &&& after.image(id) matches Some(image) && image.data == data && image.note_slug
                == slug && image.note_page == page && image.filename == filename
            &&& after.image_named(slug, page, filename) == after.image(id)
        }),
{
    let rows = r.note_images;
    let after = r.save_note_image(slug, page, filename, data, now);
    let id = r.saved_image_id(slug, page, filename);
    let named = image_is(slug, page, filename);
    lemma_image_named(r, slug, page, filename);
    lemma_save_note_image_valid(r, slug, page, filename, data, now);
    let k = if r.image_named(slug, page, filename) is Some {
        choose|k: int|
            0 <= k < rows.len() && #[trigger] rows[k] == r.image_named(slug, page, filename)->0
                && image_is(slug, page, filename)(rows[k])
    } else {
        rows.len() as int
    };
    assert(after.note_images[k].id == id);
    assert(named(after.note_images[k]));
    assert(after.note_images[k].data == data);
    assert forall|j: int| 0 <= j < after.note_images.len() && j != k implies !image_id_is(id)(
        #[trigger] after.note_images[j],
    ) && !named(after.note_images[j]) by {
        if j < k {
            assert(after.note_images[j].id != after.note_images[k].id);
            assert(!(after.note_images[j].note_slug == after.note_images[k].note_slug
                && after.note_images[j].note_page == after.note_images[k].note_page
                && after.note_images[j].filename == after.note_images[k].filename));
        } else {
            assert(after.note_images[k].id != after.note_images[j].id);
            assert(!(after.note_images[k].note_slug == after.note_images[j].note_slug
                && after.note_images[k].note_page == after.note_images[j].note_page
                && after.note_images[k].filename == after.note_images[j].filename));
        }
    }
    lemma_filter_single(after.note_images, image_id_is(id), k);
    lemma_filter_single(after.note_images, named, k);
}

/// Saving an image twice for the same page under the same name returns the
/// same id both times, and the image read under that id has the bytes of
/// the second save.
pub proof fn law_image_saved_twice(
    r: Relations,
    slug: Seq<char>,
    page: int,
    filename: Seq<char>,
    first: Seq<u8>,
    first_now: Seq<char>,
    second: Seq<u8>,
    second_now: Seq<char>,
)
    requires
        r.valid(),
    ensures
        ({
            let once = r.save_note_image(slug, page, filename, first, first_now);
            let twice = once.save_note_image(slug, page, filename, second, second_now);
            &&& once.saved_image_id(slug, page, filename) == r.saved_image_id(slug, page, filename)
            &&& twice.image(r.saved_image_id(slug, page, filename)) matches Some(image)
                && image.data == second
            &&& twice.note_images.len() == once.note_images.len()
        }),
{
    let once = r.save_note_image(slug, page, filename, first, first_now);
    law_saved_image_is_read(r, slug, page, filename, first, first_now);
    lemma_save_note_image_valid(r, slug, page, filename, first, first_now);
    law_saved_image_is_read(once, slug, page, filename, second, second_now);
}

/// Deleting the note of a page that has none changes nothing, and so does
/// recolouring a tag that does not exist.
pub proof fn law_absent_rows_are_left_alone(
    r: Relations,
    slug: Seq<char>,
    page: int,
    tag_id: int,
    color: Seq<char>,
)
    requires
        r.valid(),
    ensures
        r.note(slug, page) is None ==> r.delete_note(slug, page) == r,
        r.tag(tag_id) is None ==> r.update_tag_color(tag_id, color) == r,
        !r.has_book_tag(slug, tag_id) ==> r.untag_book(slug, tag_id) == r,
{
    if r.note(slug, page) is None {
        lemma_note_lookup(r, slug, page);
        lemma_filter_all(r.notes, note_is_not(slug, page));
    }
    if r.tag(tag_id) is None {
        lemma_has_tag(r.tags, tag_id);
        assert forall|i: int| 0 <= i < r.tags.len() implies r.tags.map_values(
            recolored(tag_id, color),
        )[i] == #[trigger] r.tags[i] by {}
        assert(r.tags.map_values(recolored(tag_id, color)) =~= r.tags);
    }
    if !r.has_book_tag(slug, tag_id) {
        lemma_has_book_tag(r, slug, tag_id);
        lemma_filter_all(r.book_tags, book_tag_is_not(slug, tag_id));
    }
}

/// A tag that was just created is found under its id and its name, with
/// the colour it was given, and a tag that was recoloured has its new
/// colour and its old name.
pub proof fn law_tags_are_read(r: Relations, name: Seq<char>, color: Seq<char>, other: Seq<char>)
    requires
        r.valid(),
        r.tag_named(name) is None,
    ensures
        ({
            let made = r.create_tag(name, color);
            let id = r.last_tag_id + 1;
            &&& made.tag(id) == Some(r.new_tag(name, color))
            &&& made.tag_named(name) == Some(r.new_tag(name, color))
            &&& made.update_tag_color(id, other).tag(id) == Some(r.new_tag(name, other))
        }),
{
    let made = r.create_tag(name, color);
    let id = r.last_tag_id + 1;
    let k = r.tags.len() as int;
    lemma_tag_named(r, name);
    lemma_create_tag_valid(r, name, color);
    assert(made.tags[k] == r.new_tag(name, color));
    assert forall|j: int| 0 <= j < made.tags.len() && j != k implies !tag_id_is(id)(
        #[trigger] made.tags[j],
    ) && !tag_name_is(name)(made.tags[j]) by {
        assert(made.tags[j] == r.tags[j]);
    }
    lemma_filter_single(made.tags, tag_id_is(id), k);
    lemma_filter_single(made.tags, tag_name_is(name), k);
    let painted = made.update_tag_color(id, other).tags;
    assert(painted[k] == r.new_tag(name, other));
    assert forall|j: int| 0 <= j < painted.len() && j != k implies !tag_id_is(id)(
        #[trigger] painted[j],
    ) by {
        assert(made.tags[j] == r.tags[j]);
    }
    lemma_filter_single(painted, tag_id_is(id), k);
}

/// Once a tag was taken off a book, the book does not have it, whether it
/// had it before or not.
pub proof fn law_untagged_book_has_no_tag(r: Relations, slug: Seq<char>, tag_id: int)
    ensures
        !r.untag_book(slug, tag_id).has_book_tag(slug, tag_id),
{
    let keep = book_tag_is_not(slug, tag_id);
    let after = r.book_tags.filter(keep);
    let idx = lemma_filter_indices(r.book_tags, keep);
    assert forall|i: int| 0 <= i < after.len() implies !book_tag_is(slug, tag_id)(
        #[trigger] after[i],
    ) by {
        assert(keep(r.book_tags[idx[i]]));
    }
    lemma_filter_none(after, book_tag_is(slug, tag_id));
}

/// The links of the given book with the given tag are as many as the
/// associations of the two.
proof fn lemma_links_count(
    book_tags: Seq<BookTagRow>,
    tags: Seq<TagRow>,
    slug: Seq<char>,
    tag_id: int,
)
    requires
        forall|i: int| 0 <= i < book_tags.len() ==> has_tag(tags, (#[trigger] book_tags[i]).tag_id),
    ensures
        joined_links(book_tags, tags).filter(link_is(slug, tag_id)).len() == book_tags.filter(
            book_tag_is(slug, tag_id),
        ).len(),
    decreases book_tags.len(),
{
    if book_tags.len() == 0 {
        lemma_filter_none(joined_links(book_tags, tags), link_is(slug, tag_id));
        lemma_filter_none(book_tags, book_tag_is(slug, tag_id));
    } else {
        let rest = book_tags.drop_last();
        let last = book_tags.last();
        assert forall|i: int| 0 <= i < rest.len() implies has_tag(
            tags,
            (#[trigger] rest[i]).tag_id,
        ) by {
            assert(rest[i] == book_tags[i]);
        }
        lemma_links_count(rest, tags, slug, tag_id);
        assert(has_tag(tags, book_tags[book_tags.len() - 1].tag_id));
        lemma_has_tag(tags, last.tag_id);
        let tag = tag_of(tags, last.tag_id)->0;
        assert(rest.push(last) =~= book_tags);
        lemma_filter_push(rest, book_tag_is(slug, tag_id), last);
        lemma_filter_push(
            joined_links(rest, tags),
            link_is(slug, tag_id),
            (last.book_slug, tag.id, tag.name, tag.color),
        );
    }
}

/// Tagging a book twice with the same tag is tagging it once: the second
/// call changes nothing, the book has exactly one entry among the tags of
/// all books, and that entry shows the tag exactly once.
pub proof fn law_book_tagged_twice(r: Relations, slug: Seq<char>, tag_id: int)
    requires
        r.valid(),
        r.tag(tag_id) is Some,
    ensures
        ({
            let once = r.tag_book(slug, tag_id);
            let twice = once.tag_book(slug, tag_id);
            let shown = twice.book_tag_mappings();
            &&& twice == once
            &&& twice.book_tags.filter(book_tag_is(slug, tag_id)).len() == 1
            &&& exists|k: int|
                0 <= k < shown.len() && (#[trigger] shown[k]).book_slug == slug
                    && shown[k].tags.filter(tag_row_is(tag_id)).len() == 1
            &&& forall|i: int, j: int|
                0 <= i < j < shown.len() ==> (#[trigger] shown[i]).book_slug != (
                #[trigger] shown[j]).book_slug
        }),
{
    let once = r.tag_book(slug, tag_id);
    let rows = once.book_tags;
    let pred = book_tag_is(slug, tag_id);
    lemma_tag_book_valid(r, slug, tag_id);
    if !r.has_book_tag(slug, tag_id) {
        lemma_filter_push(r.book_tags, pred, BookTagRow { book_slug: slug, tag_id });
    }
    assert(once.has_book_tag(slug, tag_id));
    let idx = lemma_filter_indices(rows, pred);
    if idx.len() > 1 {
        assert(idx[0] < idx[1]);
        assert(pred(rows[idx[0]]) && pred(rows[idx[1]]));
    }
    assert(rows.filter(pred).len() == 1);
    let links = once.tag_links();
    lemma_links_count(rows, once.tags, slug, tag_id);
    lemma_tags_of_count(links, slug, tag_id);
    lemma_grouped(links);
    lemma_tagged_books(links);
    lemma_joined_links(rows, once.tags);
    assert(links[idx[0]].0 == slug);
    assert(tagged_books(links).contains(slug));
    let k = choose|k: int| 0 <= k < tagged_books(links).len() && tagged_books(links)[k] == slug;
    let shown = once.book_tag_mappings();
    assert(shown[k].book_slug == slug);
    assert(shown[k].tags == tags_of(links, slug));
    assert(shown[k].tags.filter(tag_row_is(tag_id)).len() == 1);
    assert(once.tag_book(slug, tag_id) == once);
}

/// Once a tag was deleted, no book shows it among its tags.
pub proof fn law_deleted_tag_is_shown_nowhere(r: Relations, id: int)
    requires
        r.valid(),
    ensures
        forall|i: int, j: int|
            0 <= i < r.delete_tag(id).book_tag_mappings().len() && 0 <= j < (
            #[trigger] r.delete_tag(id).book_tag_mappings()[i]).tags.len() ==> (
            #[trigger] r.delete_tag(id).book_tag_mappings()[i].tags[j]).id != id,
        r.delete_tag(id).tag(id) is None,
        forall|k: int|
            0 <= k < r.delete_tag(id).book_tags.len() ==> (
            #[trigger] r.delete_tag(id).book_tags[k]).tag_id != id,
{
    let after = r.delete_tag(id);
    let links = after.tag_links();
    let shown = after.book_tag_mappings();
    lemma_delete_tag_valid(r, id);
    lemma_joined_links(after.book_tags, after.tags);
    let idx = lemma_filter_indices(r.book_tags, book_tag_without(id));
    assert forall|k: int| 0 <= k < after.book_tags.len() implies (
    #[trigger] after.book_tags[k]).tag_id != id by {
        assert(book_tag_without(id)(r.book_tags[idx[k]]));
    }
    lemma_grouped(links);
    assert forall|i: int, j: int|
        0 <= i < shown.len() && 0 <= j < (#[trigger] shown[i]).tags.len() implies (
    #[trigger] shown[i].tags[j]).id != id by {
        let slug = tagged_books(links)[i];
        let n = lemma_tag_comes_from_link(links, slug, j);
        assert(links[n].1 == after.book_tags[n].tag_id);
    }
    let tidx = lemma_filter_indices(r.tags, tag_id_is_not(id));
    assert forall|k: int| 0 <= k < after.tags.len() implies !tag_id_is(id)(
        #[trigger] after.tags[k],
    ) by {
        assert(tag_id_is_not(id)(r.tags[tidx[k]]));
    }
    lemma_filter_none(after.tags, tag_id_is(id));
}

} // verus!

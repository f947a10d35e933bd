use bookshelf::directories::{add_directory, list_directories};
use bookshelf::images::{get_note_image, save_note_image};
use bookshelf::models::{BookTag, Directory, NoteImage, NoteRecord, Tag};
use bookshelf::notes::{get_note, set_note};
use bookshelf::snapshot::{load_db, save_db, Snapshot};
use bookshelf::state::init_db;
use bookshelf::tags::{create_tag, list_book_tags_all, tag_book};

fn s(text: &str) -> String {
    text.to_string()
}

fn empty() -> Snapshot {
    save_db(&init_db())
}

#[test]
fn a_saved_state_loads_again() {
    let mut state = init_db();
    add_directory(s("/b"), true, s("2"), &mut state).unwrap();
    add_directory(s("/a"), true, s("1"), &mut state).unwrap();
    set_note(s("1_x"), 4, s("four"), s("html"), s("t"), &mut state).unwrap();
    set_note(s("1_x"), 2, s("two"), s("html"), s("t"), &mut state).unwrap();
    let image = save_note_image(s("1_x"), 2, s("f.png"), vec![7, 7], s("t"), &mut state).unwrap();
    let tag = create_tag(s("algebra"), s("red"), &mut state).unwrap();
    tag_book(s("1_x"), tag.id, &mut state).unwrap();
    let snapshot = save_db(&state);
    assert_eq!(snapshot.directories.len(), 2);
    assert_eq!(snapshot.directories[0].path, "/a");
    assert_eq!(snapshot.notes[0].page, 2);
    assert_eq!(snapshot.last_directory_id, 2);
    assert_eq!(snapshot.last_note_id, 2);
    let mut loaded = load_db(snapshot).unwrap();
    assert_eq!(list_directories(&loaded).len(), 2);
    assert_eq!(get_note(s("1_x"), 4, &loaded).unwrap().content, "four");
    assert_eq!(get_note_image(image, &loaded).unwrap(), vec![7, 7]);
    assert_eq!(list_book_tags_all(&loaded)[0].tags[0].name, "algebra");
    let next = add_directory(s("/c"), true, s("3"), &mut loaded).unwrap();
    assert_eq!(next.id, 3);
}

#[test]
fn the_empty_snapshot_loads() {
    assert!(load_db(empty()).is_some());
}

#[test]
fn rows_that_break_a_constraint_are_refused() {
    let dir = |id: i64, path: &str, at: &str| Directory { id, path: s(path), label: s("l"), added_at: s(at) };
    let note = |id: i64, slug: &str, page: i64, content: &str| NoteRecord {
        id,
        slug: s(slug),
        page,
        content: s(content),
        format: s("html"),
        updated_at: s("t"),
    };

    let mut ok = empty();
    ok.directories = vec![dir(1, "/a", "1"), dir(2, "/b", "1")];
    ok.last_directory_id = 2;
    assert!(load_db(ok).is_some());

    let mut same_path = empty();
    same_path.directories = vec![dir(1, "/a", "1"), dir(2, "/a", "2")];
    same_path.last_directory_id = 2;
    assert!(load_db(same_path).is_none());

    let mut same_id = empty();
    same_id.directories = vec![dir(1, "/a", "1"), dir(1, "/b", "2")];
    same_id.last_directory_id = 2;
    assert!(load_db(same_id).is_none());

    let mut unordered = empty();
    unordered.directories = vec![dir(1, "/a", "2"), dir(2, "/b", "1")];
    unordered.last_directory_id = 2;
    assert!(load_db(unordered).is_none());

    let mut id_not_handed_out = empty();
    id_not_handed_out.directories = vec![dir(3, "/a", "1")];
    id_not_handed_out.last_directory_id = 2;
    assert!(load_db(id_not_handed_out).is_none());

    let mut empty_note = empty();
    empty_note.notes = vec![note(1, "b", 1, "")];
    empty_note.last_note_id = 1;
    assert!(load_db(empty_note).is_none());

    let mut same_page = empty();
    same_page.notes = vec![note(1, "b", 1, "x"), note(2, "b", 1, "y")];
    same_page.last_note_id = 2;
    assert!(load_db(same_page).is_none());

    let mut pages_unordered = empty();
    pages_unordered.notes = vec![note(1, "b", 2, "x"), note(2, "c", 1, "y")];
    pages_unordered.last_note_id = 2;
    assert!(load_db(pages_unordered).is_none());

    let mut same_name = empty();
    same_name.tags = vec![Tag { id: 1, name: s("n"), color: s("c") }, Tag { id: 2, name: s("n"), color: s("d") }];
    same_name.last_tag_id = 2;
    assert!(load_db(same_name).is_none());

    let mut no_such_tag = empty();
    no_such_tag.tags = vec![Tag { id: 1, name: s("n"), color: s("c") }];
    no_such_tag.last_tag_id = 1;
    no_such_tag.book_tags = vec![BookTag { book_slug: s("b"), tag_id: 2 }];
    assert!(load_db(no_such_tag).is_none());

    let mut tagged_twice = empty();
    tagged_twice.tags = vec![Tag { id: 1, name: s("n"), color: s("c") }];
    tagged_twice.last_tag_id = 1;
    tagged_twice.book_tags = vec![BookTag { book_slug: s("b"), tag_id: 1 }, BookTag { book_slug: s("b"), tag_id: 1 }];
    assert!(load_db(tagged_twice).is_none());

    let mut tags_unordered = empty();
    tags_unordered.tags = vec![Tag { id: 2, name: s("n"), color: s("c") }, Tag { id: 1, name: s("m"), color: s("d") }];
    tags_unordered.last_tag_id = 2;
    assert!(load_db(tags_unordered).is_none());

    let image = |id: i64, name: &str| NoteImage {
        id,
        note_slug: s("b"),
        note_page: 1,
        filename: s(name),
        data: vec![1],
        created_at: s("t"),
    };
    let mut images_ok = empty();
    images_ok.note_images = vec![image(1, "a"), image(3, "b")];
    images_ok.last_image_id = 3;
    assert!(load_db(images_ok).is_some());

    let mut images_unordered = empty();
    images_unordered.note_images = vec![image(3, "a"), image(1, "b")];
    images_unordered.last_image_id = 3;
    assert!(load_db(images_unordered).is_none());

    let mut same_image = empty();
    same_image.note_images = vec![image(1, "a"), image(2, "a")];
    same_image.last_image_id = 2;
    assert!(load_db(same_image).is_none());

    let mut negative = empty();
    negative.last_image_id = -1;
    assert!(load_db(negative).is_none());
}

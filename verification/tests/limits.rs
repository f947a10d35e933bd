use bookshelf::directories::{add_directory, list_directories};
use bookshelf::error::StoreError;
use bookshelf::images::{get_note_image, save_note_image};
use bookshelf::migrate::{import_entries, migrate_notes_from_json};
use bookshelf::notes::{get_note, list_notes_for_book, set_note};
use bookshelf::slug::{sanitize_slug, title_from_stem};
use bookshelf::snapshot::{load_db, save_db};
use bookshelf::state::{init_db, DbState};
use bookshelf::tags::{create_tag, list_tags};
use bookshelf::textbooks::{list_textbooks, DirectoryScan, FileEntry};

fn s(text: &str) -> String {
    text.to_string()
}

fn with_ids_used_up() -> DbState {
    let mut snapshot = save_db(&init_db());
    snapshot.last_directory_id = i64::MAX;
    snapshot.last_note_id = i64::MAX;
    snapshot.last_image_id = i64::MAX;
    snapshot.last_tag_id = i64::MAX;
    load_db(snapshot).unwrap()
}

#[test]
fn the_last_row_id_can_still_be_handed_out() {
    let mut snapshot = save_db(&init_db());
    snapshot.last_directory_id = i64::MAX - 1;
    let mut state = load_db(snapshot).unwrap();
    let dir = add_directory(s("/a"), true, s("t"), &mut state).unwrap();
    assert_eq!(dir.id, i64::MAX);
    let r = add_directory(s("/b"), true, s("t"), &mut state);
    assert!(matches!(r, Err(StoreError::Exhausted)));
    assert_eq!(list_directories(&state).len(), 1);
}

#[test]
fn no_directory_without_a_row_id() {
    let mut state = with_ids_used_up();
    let r = add_directory(s("/a"), true, s("t"), &mut state);
    assert!(matches!(r, Err(StoreError::Exhausted)));
    let r = add_directory(s("/a"), false, s("t"), &mut state);
    assert!(matches!(r, Err(StoreError::NotADirectory(_))));
    assert_eq!(list_directories(&state).len(), 0);
}

#[test]
fn no_new_note_without_a_row_id_but_existing_notes_can_be_set() {
    let mut snapshot = save_db(&init_db());
    snapshot.last_note_id = i64::MAX - 1;
    let mut state = load_db(snapshot).unwrap();
    set_note(s("b"), 1, s("one"), s("html"), s("t"), &mut state).unwrap();
    let r = set_note(s("b"), 2, s("two"), s("html"), s("t"), &mut state);
    assert!(matches!(r, Err(StoreError::Exhausted)));
    assert!(get_note(s("b"), 2, &state).is_none());
    set_note(s("b"), 1, s("uno"), s("html"), s("t"), &mut state).unwrap();
    assert_eq!(get_note(s("b"), 1, &state).unwrap().content, "uno");
    set_note(s("b"), 2, s(""), s("html"), s("t"), &mut state).unwrap();
    set_note(s("b"), 1, s(""), s("html"), s("t"), &mut state).unwrap();
    assert_eq!(list_notes_for_book(s("b"), &state).len(), 0);
}

#[test]
fn no_new_image_or_tag_without_a_row_id() {
    let mut state = with_ids_used_up();
    let r = save_note_image(s("b"), 1, s("f"), vec![1], s("t"), &mut state);
    assert!(matches!(r, Err(StoreError::Exhausted)));
    assert!(matches!(get_note_image(i64::MAX, &state), Err(StoreError::NotFound)));
    let r = create_tag(s("n"), s("c"), &mut state);
    assert!(matches!(r, Err(StoreError::Exhausted)));
    assert_eq!(list_tags(&state).len(), 0);
}

#[test]
fn an_import_stops_where_the_row_ids_end_and_keeps_what_it_wrote() {
    let mut snapshot = save_db(&init_db());
    snapshot.last_note_id = i64::MAX - 2;
    let mut state = load_db(snapshot).unwrap();
    let entries = vec![
        (s("b:1"), s("one")),
        (s("skipped"), s("x")),
        (s("b:2"), s("two")),
        (s("b:3"), s("three")),
        (s("b:4"), s("four")),
    ];
    let r = import_entries(entries, s("t"), &mut state);
    assert!(matches!(r, Err(StoreError::Exhausted)));
    let pages: Vec<i64> = list_notes_for_book(s("b"), &state).iter().map(|n| n.page).collect();
    assert_eq!(pages, vec![1, 2]);
    let r = migrate_notes_from_json(s(r#"{"b:1":"uno","b:2":"<p></p>","b:9":"nine"}"#), s("t"), &mut state);
    assert!(matches!(r, Err(StoreError::Exhausted)));
    assert_eq!(get_note(s("b"), 1, &state).unwrap().content, "uno");
    assert_eq!(get_note(s("b"), 2, &state).unwrap().content, "two");
}

#[test]
fn word_breaks_in_titles() {
    assert_eq!(title_from_stem("a\tb\u{a0}c\u{2003}d\ne"), "A B C D E");
    assert_eq!(title_from_stem("  lead--and__trail  "), "Lead And Trail");
    assert_eq!(title_from_stem("x"), "X");
    assert_eq!(title_from_stem("éclair ǆungla ŉ"), "Éclair Ǆungla ʼN");
    assert_eq!(title_from_stem("1st 2ND"), "1st 2ND");
}

#[test]
fn characters_of_slugs() {
    assert_eq!(sanitize_slug("Übung №5 — Größe"), "übung--5---größe");
    assert_eq!(sanitize_slug("a.b,c"), "a-b-c");
    assert_eq!(sanitize_slug("__x__"), "__x__");
    assert_eq!(sanitize_slug("-_-"), "_");
    assert_eq!(sanitize_slug("日本語 テキスト"), "日本語-テキスト");
    assert_eq!(sanitize_slug("ΑΣ"), "ας");
}

#[test]
fn stems_with_the_same_sanitized_form_share_a_slug() {
    let mut state = init_db();
    add_directory(s("/d"), true, s("t"), &mut state).unwrap();
    let entries = vec![
        FileEntry { name: s("a b.pdf"), path: s("/d/a b.pdf"), is_file: true },
        FileEntry { name: s("A-B.pdf"), path: s("/d/A-B.pdf"), is_file: true },
    ];
    let books = list_textbooks(vec![DirectoryScan { dir_id: 1, entries: Some(entries) }], &state);
    assert_eq!(books.len(), 2);
    assert_eq!(books[0].slug, "1_a-b");
    assert_eq!(books[1].slug, "1_a-b");
    assert_eq!(books[0].file, "a b.pdf");
    assert_eq!(books[1].file, "A-B.pdf");
}

use bookshelf::notes::{delete_note, export_notes_for_book, get_note, list_notes_for_book, set_note};
use bookshelf::state::init_db;

fn s(text: &str) -> String {
    text.to_string()
}

#[test]
fn empty_content_without_a_note_changes_nothing() {
    let mut state = init_db();
    set_note(s("1_book"), 3, s(""), s("html"), s("t1"), &mut state).unwrap();
    assert!(get_note(s("1_book"), 3, &state).is_none());
    assert_eq!(list_notes_for_book(s("1_book"), &state).len(), 0);
}

#[test]
fn empty_content_deletes_the_note() {
    let mut state = init_db();
    set_note(s("1_book"), 3, s("<p>x</p>"), s("html"), s("t1"), &mut state).unwrap();
    assert!(get_note(s("1_book"), 3, &state).is_some());
    set_note(s("1_book"), 3, s(""), s("html"), s("t2"), &mut state).unwrap();
    assert!(get_note(s("1_book"), 3, &state).is_none());
    assert_eq!(list_notes_for_book(s("1_book"), &state).len(), 0);
}

#[test]
fn setting_twice_keeps_one_row_with_the_latest_content() {
    let mut state = init_db();
    set_note(s("1_book"), 7, s("first"), s("html"), s("2024-01-01 10:00:00"), &mut state).unwrap();
    let first = get_note(s("1_book"), 7, &state).unwrap();
    set_note(s("1_book"), 7, s("second"), s("markdown"), s("2024-01-01 10:00:05"), &mut state).unwrap();
    let notes = list_notes_for_book(s("1_book"), &state);
    assert_eq!(notes.len(), 1);
    assert_eq!(notes[0].content, "second");
    assert_eq!(notes[0].format, "markdown");
    assert_eq!(notes[0].updated_at, "2024-01-01 10:00:05");
    assert!(notes[0].updated_at >= first.updated_at);
    assert_eq!(notes[0].id, first.id);
    assert_eq!(notes[0].page, 7);
    assert_eq!(notes[0].slug, "1_book");
}

#[test]
fn notes_are_listed_by_page() {
    let mut state = init_db();
    set_note(s("b"), 10, s("ten"), s("html"), s("t"), &mut state).unwrap();
    set_note(s("a"), 5, s("other book"), s("html"), s("t"), &mut state).unwrap();
    set_note(s("b"), -2, s("minus two"), s("html"), s("t"), &mut state).unwrap();
    set_note(s("b"), 5, s("five"), s("html"), s("t"), &mut state).unwrap();
    let notes = list_notes_for_book(s("b"), &state);
    let pages: Vec<i64> = notes.iter().map(|n| n.page).collect();
    assert_eq!(pages, vec![-2, 5, 10]);
    let ids: Vec<i64> = notes.iter().map(|n| n.id).collect();
    assert_eq!(ids, vec![3, 4, 1]);
    assert_eq!(list_notes_for_book(s("a"), &state).len(), 1);
    assert_eq!(list_notes_for_book(s("c"), &state).len(), 0);
}

#[test]
fn deleting_a_note() {
    let mut state = init_db();
    set_note(s("b"), 1, s("one"), s("html"), s("t"), &mut state).unwrap();
    set_note(s("b"), 2, s("two"), s("html"), s("t"), &mut state).unwrap();
    delete_note(s("b"), 1, &mut state);
    assert!(get_note(s("b"), 1, &state).is_none());
    assert_eq!(get_note(s("b"), 2, &state).unwrap().content, "two");
    delete_note(s("b"), 1, &mut state);
    delete_note(s("zzz"), 2, &mut state);
    assert_eq!(list_notes_for_book(s("b"), &state).len(), 1);
    set_note(s("b"), 1, s("again"), s("html"), s("t"), &mut state).unwrap();
    assert_eq!(get_note(s("b"), 1, &state).unwrap().id, 3);
}

#[test]
fn export_of_two_pages() {
    let mut state = init_db();
    set_note(s("book"), 3, s("B"), s("html"), s("t"), &mut state).unwrap();
    set_note(s("book"), 1, s("A"), s("html"), s("t"), &mut state).unwrap();
    set_note(s("other"), 2, s("X"), s("html"), s("t"), &mut state).unwrap();
    assert_eq!(
        export_notes_for_book(s("book"), &state),
        "## Page 1\n\nA\n\n## Page 3\n\nB\n\n"
    );
}

#[test]
fn export_of_nothing_and_of_unusual_pages() {
    let mut state = init_db();
    assert_eq!(export_notes_for_book(s("book"), &state), "");
    set_note(s("book"), i64::MIN, s("lowest"), s("html"), s("t"), &mut state).unwrap();
    set_note(s("book"), i64::MAX, s("highest"), s("html"), s("t"), &mut state).unwrap();
    set_note(s("book"), 0, s("zero"), s("html"), s("t"), &mut state).unwrap();
    set_note(s("book"), 1200, s("many"), s("html"), s("t"), &mut state).unwrap();
    assert_eq!(
        export_notes_for_book(s("book"), &state),
        "## Page -9223372036854775808\n\nlowest\n\n## Page 0\n\nzero\n\n## Page 1200\n\nmany\n\n## Page 9223372036854775807\n\nhighest\n\n"
    );
}

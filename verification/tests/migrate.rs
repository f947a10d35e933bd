use bookshelf::error::StoreError;
use bookshelf::migrate::{import_entries, migrate_notes_from_json, split_note_key};
use bookshelf::notes::{get_note, list_notes_for_book, set_note};
use bookshelf::state::init_db;
use bookshelf::text::parse_integer;

fn s(text: &str) -> String {
    text.to_string()
}

#[test]
fn migration_skips_empty_and_malformed_entries() {
    let mut state = init_db();
    let json = s(r#"{"mybook:1":"<p>hi</p>","mybook:2":"<p></p>","bad":"x"}"#);
    let count = migrate_notes_from_json(json, s("2024-05-05 12:00:00"), &mut state).unwrap();
    assert_eq!(count, 1);
    let note = get_note(s("mybook"), 1, &state).unwrap();
    assert_eq!(note.content, "<p>hi</p>");
    assert_eq!(note.format, "html");
    assert_eq!(note.updated_at, "2024-05-05 12:00:00");
    assert!(get_note(s("mybook"), 2, &state).is_none());
    assert_eq!(list_notes_for_book(s("mybook"), &state).len(), 1);
    assert_eq!(list_notes_for_book(s("bad"), &state).len(), 0);
}

#[test]
fn migration_refuses_what_is_no_object_of_strings() {
    let mut state = init_db();
    set_note(s("b"), 1, s("kept"), s("html"), s("t"), &mut state).unwrap();
    for text in ["", "[]", "{\"a:1\": 5}", "{\"a:1\": \"x\"", "{\"a:1\": \"x\"} trailing", "null"] {
        let r = migrate_notes_from_json(s(text), s("t"), &mut state);
        match r {
            Err(StoreError::InvalidJson(message)) => assert!(!message.is_empty()),
            _ => panic!("expected InvalidJson for {:?}", text),
        }
    }
    assert_eq!(get_note(s("b"), 1, &state).unwrap().content, "kept");
}

#[test]
fn migration_overwrites_existing_notes() {
    let mut state = init_db();
    set_note(s("b"), 1, s("old"), s("markdown"), s("t0"), &mut state).unwrap();
    let count = migrate_notes_from_json(s(r#"{"b:1":"new","b:2":""}"#), s("t1"), &mut state).unwrap();
    assert_eq!(count, 1);
    let note = get_note(s("b"), 1, &state).unwrap();
    assert_eq!(note.content, "new");
    assert_eq!(note.format, "html");
    assert_eq!(note.updated_at, "t1");
    assert_eq!(note.id, 1);
}

#[test]
fn slugs_may_hold_colons() {
    let mut state = init_db();
    let count = migrate_notes_from_json(s(r#"{"3_a:b:c:12":"x", ":4":"y", "k:":"z", "k:1.5":"w"}"#), s("t"), &mut state).unwrap();
    assert_eq!(count, 2);
    assert_eq!(get_note(s("3_a:b:c"), 12, &state).unwrap().content, "x");
    assert_eq!(get_note(s(""), 4, &state).unwrap().content, "y");
}

#[test]
fn entries_are_imported_in_key_order() {
    let mut state = init_db();
    let count = migrate_notes_from_json(s(r#"{"b:1":"plain","b:+1":"plus","b:01":"zero"}"#), s("t"), &mut state).unwrap();
    assert_eq!(count, 3);
    assert_eq!(list_notes_for_book(s("b"), &state).len(), 1);
    assert_eq!(get_note(s("b"), 1, &state).unwrap().content, "plain");
}

#[test]
fn importing_entries_in_the_order_given() {
    let mut state = init_db();
    let entries = vec![(s("b:2"), s("two")), (s("b:1"), s("one")), (s("b:2"), s("again")), (s("nope"), s("x"))];
    let count = import_entries(entries, s("t"), &mut state).unwrap();
    assert_eq!(count, 3);
    let notes = list_notes_for_book(s("b"), &state);
    assert_eq!(notes.len(), 2);
    assert_eq!(notes[0].content, "one");
    assert_eq!(notes[1].content, "again");
    assert_eq!(notes[1].id, 1);
}

#[test]
fn keys_that_name_a_page() {
    assert_eq!(split_note_key("mybook:1"), Some((s("mybook"), 1)));
    assert_eq!(split_note_key("a:b:-7"), Some((s("a:b"), -7)));
    assert_eq!(split_note_key("bad"), None);
    assert_eq!(split_note_key("bad:"), None);
    assert_eq!(split_note_key("bad: 1"), None);
    assert_eq!(split_note_key("bad:1 "), None);
    assert_eq!(split_note_key("bad:x"), None);
}

#[test]
fn integers_in_decimal() {
    assert_eq!(parse_integer("0"), Some(0));
    assert_eq!(parse_integer("-0"), Some(0));
    assert_eq!(parse_integer("+15"), Some(15));
    assert_eq!(parse_integer("007"), Some(7));
    assert_eq!(parse_integer("9223372036854775807"), Some(i64::MAX));
    assert_eq!(parse_integer("-9223372036854775808"), Some(i64::MIN));
    assert_eq!(parse_integer("9223372036854775808"), None);
    assert_eq!(parse_integer("-9223372036854775809"), None);
    assert_eq!(parse_integer("99999999999999999999999999999999999999999999"), None);
    assert_eq!(parse_integer(""), None);
    assert_eq!(parse_integer("-"), None);
    assert_eq!(parse_integer("+"), None);
    assert_eq!(parse_integer("+-1"), None);
    assert_eq!(parse_integer("1_000"), None);
    assert_eq!(parse_integer("١"), None);
    for text in ["0", "-0", "+15", "007", "9223372036854775808", "", "-", "+-1", "12a", " 1"] {
        assert_eq!(parse_integer(text), text.parse::<i64>().ok());
    }
}

use bookshelf::directories::{add_directory, list_directories, remove_directory};
use bookshelf::error::StoreError;
use bookshelf::state::init_db;

fn s(text: &str) -> String {
    text.to_string()
}

#[test]
fn added_directory_is_listed_once_with_its_label() {
    let mut state = init_db();
    let dir = add_directory(s("/home/ann/books"), true, s("2024-01-01 10:00:00"), &mut state).unwrap();
    assert_eq!(dir.id, 1);
    assert_eq!(dir.path, "/home/ann/books");
    assert_eq!(dir.label, "books");
    assert_eq!(dir.added_at, "2024-01-01 10:00:00");
    let dirs = list_directories(&state);
    assert_eq!(dirs.iter().filter(|d| d.path == "/home/ann/books").count(), 1);
    assert_eq!(dirs.len(), 1);
    assert_eq!(dirs[0].label, "books");
    assert_eq!(dirs[0].id, 1);
}

#[test]
fn label_of_a_path_with_trailing_slash() {
    let mut state = init_db();
    let dir = add_directory(s("/usr/share/"), true, s("t"), &mut state).unwrap();
    assert_eq!(dir.label, "share");
}

#[test]
fn label_falls_back_to_the_path() {
    let mut state = init_db();
    let dir = add_directory(s("/"), true, s("t"), &mut state).unwrap();
    assert_eq!(dir.label, "/");
    let dir = add_directory(s("a/.."), true, s("t"), &mut state).unwrap();
    assert_eq!(dir.label, "a/..");
}

#[test]
fn duplicate_path_is_refused_and_changes_nothing() {
    let mut state = init_db();
    add_directory(s("/a"), true, s("1"), &mut state).unwrap();
    add_directory(s("/b"), true, s("2"), &mut state).unwrap();
    let r = add_directory(s("/a"), true, s("3"), &mut state);
    assert!(matches!(r, Err(StoreError::DuplicatePath)));
    let dirs = list_directories(&state);
    assert_eq!(dirs.len(), 2);
    assert_eq!(dirs[0].path, "/a");
    assert_eq!(dirs[0].added_at, "1");
    assert_eq!(dirs[1].path, "/b");
    let next = add_directory(s("/c"), true, s("4"), &mut state).unwrap();
    assert_eq!(next.id, 3);
}

#[test]
fn path_that_is_no_directory_is_refused() {
    let mut state = init_db();
    let r = add_directory(s("/etc/passwd"), false, s("1"), &mut state);
    match r {
        Err(StoreError::NotADirectory(p)) => assert_eq!(p, "/etc/passwd"),
        _ => panic!("expected NotADirectory"),
    }
    assert_eq!(list_directories(&state).len(), 0);
    let e = StoreError::NotADirectory(s("/etc/passwd"));
    assert_eq!(e.message(), "Not a directory: /etc/passwd");
}

#[test]
fn directories_are_listed_by_time_added() {
    let mut state = init_db();
    add_directory(s("/late"), true, s("2024-03-01 00:00:00"), &mut state).unwrap();
    add_directory(s("/early"), true, s("2024-01-01 00:00:00"), &mut state).unwrap();
    add_directory(s("/middle"), true, s("2024-02-01 00:00:00"), &mut state).unwrap();
    add_directory(s("/middle2"), true, s("2024-02-01 00:00:00"), &mut state).unwrap();
    let dirs = list_directories(&state);
    let paths: Vec<&str> = dirs.iter().map(|d| d.path.as_str()).collect();
    assert_eq!(paths, vec!["/early", "/middle", "/middle2", "/late"]);
    let ids: Vec<i64> = dirs.iter().map(|d| d.id).collect();
    assert_eq!(ids, vec![2, 3, 4, 1]);
}

#[test]
fn removing_a_directory() {
    let mut state = init_db();
    add_directory(s("/a"), true, s("1"), &mut state).unwrap();
    let b = add_directory(s("/b"), true, s("2"), &mut state).unwrap();
    add_directory(s("/c"), true, s("3"), &mut state).unwrap();
    remove_directory(b.id, &mut state);
    let dirs = list_directories(&state);
    let paths: Vec<&str> = dirs.iter().map(|d| d.path.as_str()).collect();
    assert_eq!(paths, vec!["/a", "/c"]);
    remove_directory(99, &mut state);
    assert_eq!(list_directories(&state).len(), 2);
    let again = add_directory(s("/b"), true, s("4"), &mut state).unwrap();
    assert_eq!(again.id, 4);
}

#[test]
fn error_messages() {
    assert_eq!(StoreError::DuplicatePath.message(), "UNIQUE constraint failed: directories.path");
    assert_eq!(StoreError::DuplicateName.message(), "UNIQUE constraint failed: tags.name");
    assert_eq!(StoreError::UnknownTag.message(), "FOREIGN KEY constraint failed");
    assert_eq!(StoreError::NotFound.message(), "Query returned no rows");
    assert_eq!(StoreError::Exhausted.message(), "database or disk is full");
    assert_eq!(StoreError::InvalidJson(s("bad")).message(), "bad");
}

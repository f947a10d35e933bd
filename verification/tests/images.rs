use bookshelf::error::StoreError;
use bookshelf::images::{get_note_image, save_note_image};
use bookshelf::state::init_db;

fn s(text: &str) -> String {
    text.to_string()
}

#[test]
fn saving_twice_keeps_the_id_and_replaces_the_bytes() {
    let mut state = init_db();
    let first = save_note_image(s("book"), 2, s("fig.png"), vec![1, 2, 3], s("t1"), &mut state).unwrap();
    let second = save_note_image(s("book"), 2, s("fig.png"), vec![9, 8], s("t2"), &mut state).unwrap();
    assert_eq!(first, second);
    assert_eq!(get_note_image(first, &state).unwrap(), vec![9, 8]);
}

#[test]
fn images_of_different_names_get_different_ids() {
    let mut state = init_db();
    let a = save_note_image(s("book"), 2, s("a.png"), vec![1], s("t"), &mut state).unwrap();
    let b = save_note_image(s("book"), 2, s("b.png"), vec![2], s("t"), &mut state).unwrap();
    let c = save_note_image(s("book"), 3, s("a.png"), vec![3], s("t"), &mut state).unwrap();
    let d = save_note_image(s("other"), 2, s("a.png"), vec![4], s("t"), &mut state).unwrap();
    assert_eq!((a, b, c, d), (1, 2, 3, 4));
    assert_eq!(get_note_image(a, &state).unwrap(), vec![1]);
    assert_eq!(get_note_image(b, &state).unwrap(), vec![2]);
    assert_eq!(get_note_image(c, &state).unwrap(), vec![3]);
    assert_eq!(get_note_image(d, &state).unwrap(), vec![4]);
    let again = save_note_image(s("book"), 3, s("a.png"), vec![], s("t"), &mut state).unwrap();
    assert_eq!(again, c);
    assert_eq!(get_note_image(c, &state).unwrap(), Vec::<u8>::new());
}

#[test]
fn unknown_image_is_an_error() {
    let state = init_db();
    assert!(matches!(get_note_image(1, &state), Err(StoreError::NotFound)));
}

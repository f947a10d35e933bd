use bookshelf::error::StoreError;
use bookshelf::models::BookTagMapping;
use bookshelf::state::init_db;
use bookshelf::tags::{
    create_tag, delete_tag, list_book_tags_all, list_tags, tag_book, untag_book, update_tag_color,
};

fn s(text: &str) -> String {
    text.to_string()
}

#[test]
fn creating_and_listing_tags() {
    let mut state = init_db();
    let a = create_tag(s("algebra"), s("#ff0000"), &mut state).unwrap();
    let b = create_tag(s("geometry"), s("#00ff00"), &mut state).unwrap();
    assert_eq!((a.id, a.name.as_str(), a.color.as_str()), (1, "algebra", "#ff0000"));
    assert_eq!(b.id, 2);
    let tags = list_tags(&state);
    assert_eq!(tags.len(), 2);
    assert_eq!(tags[0].name, "algebra");
    assert_eq!(tags[1].name, "geometry");
}

#[test]
fn duplicate_tag_name_is_refused() {
    let mut state = init_db();
    create_tag(s("algebra"), s("red"), &mut state).unwrap();
    let r = create_tag(s("algebra"), s("blue"), &mut state);
    assert!(matches!(r, Err(StoreError::DuplicateName)));
    let tags = list_tags(&state);
    assert_eq!(tags.len(), 1);
    assert_eq!(tags[0].color, "red");
}

#[test]
fn recolouring_a_tag() {
    let mut state = init_db();
    let a = create_tag(s("algebra"), s("red"), &mut state).unwrap();
    create_tag(s("geometry"), s("green"), &mut state).unwrap();
    update_tag_color(a.id, s("blue"), &mut state);
    update_tag_color(77, s("black"), &mut state);
    let tags = list_tags(&state);
    assert_eq!(tags[0].color, "blue");
    assert_eq!(tags[0].name, "algebra");
    assert_eq!(tags[1].color, "green");
}

#[test]
fn tagging_twice_shows_the_tag_once() {
    let mut state = init_db();
    let a = create_tag(s("algebra"), s("red"), &mut state).unwrap();
    tag_book(s("1_book"), a.id, &mut state).unwrap();
    tag_book(s("1_book"), a.id, &mut state).unwrap();
    let all = list_book_tags_all(&state);
    assert_eq!(all.len(), 1);
    assert_eq!(all[0].book_slug, "1_book");
    assert_eq!(all[0].tags.len(), 1);
    assert_eq!(all[0].tags[0].id, a.id);
    assert_eq!(all[0].tags[0].name, "algebra");
    assert_eq!(all[0].tags[0].color, "red");
}

#[test]
fn tagging_with_an_unknown_tag_is_refused() {
    let mut state = init_db();
    let r = tag_book(s("1_book"), 5, &mut state);
    assert!(matches!(r, Err(StoreError::UnknownTag)));
    assert_eq!(list_book_tags_all(&state).len(), 0);
}

#[test]
fn deleting_a_tag_takes_it_off_every_book() {
    let mut state = init_db();
    let a = create_tag(s("algebra"), s("red"), &mut state).unwrap();
    let g = create_tag(s("geometry"), s("green"), &mut state).unwrap();
    tag_book(s("1_one"), a.id, &mut state).unwrap();
    tag_book(s("1_two"), a.id, &mut state).unwrap();
    tag_book(s("1_two"), g.id, &mut state).unwrap();
    tag_book(s("1_three"), g.id, &mut state).unwrap();
    delete_tag(a.id, &mut state);
    let all = list_book_tags_all(&state);
    for mapping in all.iter() {
        assert!(mapping.tags.iter().all(|t| t.id != a.id));
        assert!(!mapping.tags.is_empty());
    }
    let slugs: Vec<&str> = all.iter().map(|m| m.book_slug.as_str()).collect();
    assert_eq!(slugs, vec!["1_two", "1_three"]);
    assert_eq!(list_tags(&state).len(), 1);
    let r = tag_book(s("1_one"), a.id, &mut state);
    assert!(matches!(r, Err(StoreError::UnknownTag)));
    let again = create_tag(s("algebra"), s("red"), &mut state).unwrap();
    assert_eq!(again.id, 3);
}

#[test]
fn untagging_a_book() {
    let mut state = init_db();
    let a = create_tag(s("algebra"), s("red"), &mut state).unwrap();
    let g = create_tag(s("geometry"), s("green"), &mut state).unwrap();
    tag_book(s("b"), a.id, &mut state).unwrap();
    tag_book(s("b"), g.id, &mut state).unwrap();
    untag_book(s("b"), a.id, &mut state);
    untag_book(s("b"), a.id, &mut state);
    untag_book(s("zzz"), g.id, &mut state);
    let all = list_book_tags_all(&state);
    assert_eq!(all.len(), 1);
    assert_eq!(all[0].tags.len(), 1);
    assert_eq!(all[0].tags[0].name, "geometry");
    untag_book(s("b"), g.id, &mut state);
    assert_eq!(list_book_tags_all(&state).len(), 0);
}

#[test]
fn grouping_rows_by_book() {
    let rows = vec![
        (s("b"), 1, s("algebra"), s("red")),
        (s("a"), 2, s("geometry"), s("green")),
        (s("b"), 2, s("geometry"), s("green")),
        (s("c"), 1, s("algebra"), s("red")),
        (s("a"), 3, s("logic"), s("blue")),
    ];
    let groups = BookTagMapping::group_from_rows(rows);
    let shape: Vec<(&str, Vec<i64>)> = groups
        .iter()
        .map(|g| (g.book_slug.as_str(), g.tags.iter().map(|t| t.id).collect()))
        .collect();
    assert_eq!(shape, vec![("b", vec![1, 2]), ("a", vec![2, 3]), ("c", vec![1])]);
    assert_eq!(groups[1].tags[1].name, "logic");
    assert_eq!(groups[1].tags[1].color, "blue");
    assert_eq!(BookTagMapping::group_from_rows(Vec::new()).len(), 0);
}

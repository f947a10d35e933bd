use bookshelf::launch::write_pairs;
use bookshelf::paths::{label_for, label_from};
use bookshelf::slug::{
    capitalize, join_words, sanitize_slug, slug_from, split_words, title_from_stem,
};

#[test]
fn slug_of_spaced_stem() {
    assert_eq!(sanitize_slug("Intro to Algebra"), "intro-to-algebra");
}

#[test]
fn slug_keeps_underscores() {
    assert_eq!(sanitize_slug("calc_101"), "calc_101");
}

#[test]
fn slug_trims_dashes_at_both_ends() {
    assert_eq!(sanitize_slug("(Draft) Notes!"), "draft--notes");
    assert_eq!(sanitize_slug("---"), "");
    assert_eq!(sanitize_slug(""), "");
}

#[test]
fn title_capitalizes_each_word() {
    assert_eq!(title_from_stem("Intro to Algebra"), "Intro To Algebra");
    assert_eq!(title_from_stem("calc_101"), "Calc 101");
    assert_eq!(title_from_stem("linear-algebra__done  right"), "Linear Algebra Done Right");
}

#[test]
fn title_of_unusual_stems() {
    assert_eq!(title_from_stem(""), "");
    assert_eq!(title_from_stem("-_-"), "");
    assert_eq!(title_from_stem("ßtraße"), "SStraße");
    assert_eq!(title_from_stem("mIXED"), "MIXED");
}

#[test]
fn slug_of_marked_text() {
    let lower: Vec<char> = "-a!b.".chars().collect();
    assert_eq!(slug_from(&lower, &vec![false, true, false, true, false]), "a-b");
    assert_eq!(slug_from(&lower, &vec![true, true, true, true, true]), "a!b.");
    assert_eq!(slug_from(&lower, &vec![]), "");
    assert_eq!(slug_from(&lower, &vec![false, true]), "a");
    assert_eq!(slug_from(&Vec::new(), &vec![true]), "");
}

#[test]
fn words_of_marked_text() {
    let chars: Vec<char> = " ab  c ".chars().collect();
    let breaks = vec![true, false, false, true, true, false, true];
    assert_eq!(split_words(&chars, &breaks), vec![vec!['a', 'b'], vec!['c']]);
    assert_eq!(split_words(&chars, &vec![]), vec![chars.clone()]);
    assert_eq!(split_words(&chars, &vec![true; 7]), Vec::<Vec<char>>::new());
    assert_eq!(split_words(&Vec::new(), &vec![]), Vec::<Vec<char>>::new());
    let none = vec![false; 7];
    assert_eq!(split_words(&chars, &none).len(), 1);
}

#[test]
fn capitalizing_and_joining() {
    assert_eq!(capitalize(&vec!['a', 'b'], "A"), "Ab");
    assert_eq!(capitalize(&vec!['ß'], "SS"), "SS");
    assert_eq!(capitalize(&vec!['x', 'y'], ""), "y");
    assert_eq!(capitalize(&vec![], "A"), "");
    let words = vec!["One".to_string(), "Two".to_string(), "".to_string(), "Three".to_string()];
    assert_eq!(join_words(&words), "One Two  Three");
    assert_eq!(join_words(&vec!["One".to_string()]), "One");
    assert_eq!(join_words(&Vec::new()), "");
}

#[test]
fn label_from_a_segment() {
    let path = "/home/ann/books".to_string();
    assert_eq!(label_from(&path, Some("books".to_string())), "books");
    assert_eq!(label_from(&path, None), "/home/ann/books");
    assert_eq!(label_for(&path), "books");
    assert_eq!(label_for(&"..".to_string()), "..");
    assert_eq!(label_for(&"".to_string()), "");
    assert_eq!(label_for(&"a/b/.".to_string()), "b");
}

#[test]
fn pairs_written_out() {
    let pairs = vec![
        ("a".to_string(), "".to_string()),
        ("b".to_string(), "c".to_string()),
        ("".to_string(), "d".to_string()),
    ];
    assert_eq!(write_pairs(&pairs), "ab=c=d");
    assert_eq!(write_pairs(&Vec::new()), "");
}

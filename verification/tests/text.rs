use bookshelf::text::{chars_of, contains, ends_with, push_decimal, starts_with, string_of, text_at_most};

#[test]
fn decimal_rendering() {
    for n in [0i64, 7, 10, 99, 100, -1, -10, 1234567890, i64::MAX, i64::MIN, i64::MIN + 1] {
        let mut out = String::from("x");
        push_decimal(n, &mut out);
        assert_eq!(out, format!("x{}", n));
    }
}

#[test]
fn strings_as_characters() {
    assert_eq!(chars_of("aé𝄞"), vec!['a', 'é', '𝄞']);
    assert_eq!(chars_of(""), Vec::<char>::new());
    let chars = vec!['a', 'b', 'c', 'd'];
    assert_eq!(string_of(&chars, 1, 3), "bc");
    assert_eq!(string_of(&chars, 2, 2), "");
    assert_eq!(string_of(&chars, 0, 4), "abcd");
}

#[test]
fn order_of_strings() {
    let samples = ["", "a", "ab", "b", "B", "2024-01-01 10:00:00", "2024-01-01 09:59:59", "é", "z", "𝄞", "\u{ffff}"];
    for a in samples {
        for b in samples {
            assert_eq!(text_at_most(a, b), a <= b, "{:?} {:?}", a, b);
        }
    }
}

#[test]
fn prefixes_suffixes_and_pieces() {
    assert!(starts_with("file:///a", "file://"));
    assert!(!starts_with("file:/", "file://"));
    assert!(starts_with("abc", ""));
    assert!(ends_with("book.pdf", ".pdf"));
    assert!(!ends_with("pdf", ".pdf"));
    assert!(ends_with("x", ""));
    assert!(contains("variant uint32 1", "uint32 1"));
    assert!(contains("abc", ""));
    assert!(contains("", ""));
    assert!(!contains("", "a"));
    assert!(!contains("uint32", "uint32 1"));
    assert!(contains("aab", "ab"));
    for (text, pattern) in [("hello", "ll"), ("hello", "lo"), ("hello", "he"), ("hello", "hello!"), ("héllo", "él"), ("aaa", "aaaa")] {
        assert_eq!(contains(text, pattern), text.contains(pattern));
    }
}

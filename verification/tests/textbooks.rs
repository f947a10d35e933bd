use bookshelf::directories::add_directory;
use bookshelf::models::Directory;
use bookshelf::paths::split_extension;
use bookshelf::state::init_db;
use bookshelf::textbooks::{list_textbooks, textbook_from_entry, DirectoryScan, FileEntry};

fn s(text: &str) -> String {
    text.to_string()
}

fn file(dir: &str, name: &str) -> FileEntry {
    FileEntry { name: s(name), path: format!("{}/{}", dir, name), is_file: true }
}

#[test]
fn pdfs_of_a_directory_become_textbooks() {
    let mut state = init_db();
    let dir = add_directory(s("/books"), true, s("t"), &mut state).unwrap();
    let entries = vec![
        FileEntry { name: s("books"), path: s("/books"), is_file: false },
        file("/books", "Intro to Algebra.pdf"),
        file("/books", "calc_101.pdf"),
        file("/books", "notes.txt"),
    ];
    let scans = vec![DirectoryScan { dir_id: dir.id, entries: Some(entries) }];
    let books = list_textbooks(scans, &state);
    assert_eq!(books.len(), 2);
    assert_eq!(books[0].title, "Intro To Algebra");
    assert_eq!(books[0].slug, format!("{}_intro-to-algebra", dir.id));
    assert_eq!(books[0].file, "Intro to Algebra.pdf");
    assert_eq!(books[0].dir_id, dir.id);
    assert_eq!(books[0].dir_path, "/books");
    assert_eq!(books[0].full_path, "/books/Intro to Algebra.pdf");
    assert_eq!(books[1].title, "Calc 101");
    assert_eq!(books[1].slug, format!("{}_calc_101", dir.id));
}

#[test]
fn directories_come_in_registry_order_and_missing_ones_are_skipped() {
    let mut state = init_db();
    let b = add_directory(s("/b"), true, s("2"), &mut state).unwrap();
    let a = add_directory(s("/a"), true, s("1"), &mut state).unwrap();
    let c = add_directory(s("/c"), true, s("3"), &mut state).unwrap();
    add_directory(s("/d"), true, s("4"), &mut state).unwrap();
    let scans = vec![
        DirectoryScan {
            dir_id: c.id,
            entries: Some(vec![
                file("/c", "x.Pdf"),
                FileEntry { name: s("sub.pdf"), path: s("/c/sub.pdf"), is_file: false },
            ]),
        },
        DirectoryScan { dir_id: b.id, entries: None },
        DirectoryScan { dir_id: a.id, entries: Some(vec![file("/a", "z.pdf"), file("/a", "y.PDF")]) },
        DirectoryScan { dir_id: a.id, entries: Some(vec![file("/a", "second-scan.pdf")]) },
        DirectoryScan { dir_id: b.id, entries: Some(vec![file("/b", "after-none.pdf")]) },
    ];
    let books = list_textbooks(scans, &state);
    let slugs: Vec<&str> = books.iter().map(|b| b.slug.as_str()).collect();
    assert_eq!(slugs, vec!["2_z", "2_y", "3_x"]);
    assert_eq!(list_textbooks(Vec::new(), &state).len(), 0);
    let unknown = vec![DirectoryScan { dir_id: 99, entries: Some(vec![file("/e", "e.pdf")]) }];
    assert_eq!(list_textbooks(unknown, &state).len(), 0);
}

#[test]
fn what_counts_as_a_textbook() {
    let dir = Directory { id: -4, path: s("/d"), label: s("d"), added_at: s("t") };
    assert!(textbook_from_entry(&dir, &file("/d", "a.pdf")).is_some());
    assert!(textbook_from_entry(&dir, &file("/d", "a.b.PdF")).is_some());
    assert!(textbook_from_entry(&dir, &file("/d", ".pdf")).is_none());
    assert!(textbook_from_entry(&dir, &file("/d", "pdf")).is_none());
    assert!(textbook_from_entry(&dir, &file("/d", "a.pdf.txt")).is_none());
    assert!(textbook_from_entry(&dir, &file("/d", "a.pdfx")).is_none());
    assert!(textbook_from_entry(&dir, &file("/d", "a.pd")).is_none());
    assert!(textbook_from_entry(&dir, &FileEntry { name: s("a.pdf"), path: s("/d/a.pdf"), is_file: false }).is_none());
    let book = textbook_from_entry(&dir, &file("/d", "Linear Algebra (2nd ed.).pdf")).unwrap();
    assert_eq!(book.slug, "-4_linear-algebra--2nd-ed");
    assert_eq!(book.title, "Linear Algebra (2nd Ed.)");
    let hidden = textbook_from_entry(&dir, &file("/d", ".hidden.pdf")).unwrap();
    assert_eq!(hidden.slug, "-4_hidden");
    assert_eq!(hidden.title, ".hidden");
}

#[test]
fn stems_and_extensions() {
    assert_eq!(split_extension("a.pdf"), (s("a"), Some(s("pdf"))));
    assert_eq!(split_extension("a.b.c"), (s("a.b"), Some(s("c"))));
    assert_eq!(split_extension("a."), (s("a"), Some(s(""))));
    assert_eq!(split_extension(".bashrc"), (s(".bashrc"), None));
    assert_eq!(split_extension("README"), (s("README"), None));
    assert_eq!(split_extension(".."), (s(".."), None));
    assert_eq!(split_extension("..."), (s(".."), Some(s(""))));
    assert_eq!(split_extension(""), (s(""), None));
}

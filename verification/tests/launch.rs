use bookshelf::launch::{decode_path, find_pdf_in_args, pdf_argument};
use bookshelf::textbooks::rename_textbook;
use bookshelf::error::StoreError;
use bookshelf::theme::{first_theme_probe, theme_after, Theme, ThemeProbe, ThemeStep};

fn s(text: &str) -> String {
    text.to_string()
}

fn args(list: &[&str]) -> Vec<String> {
    list.iter().map(|a| a.to_string()).collect()
}

#[test]
fn first_pdf_argument_is_found() {
    assert_eq!(find_pdf_in_args(&args(&["app", "--flag", "notes.txt", "/tmp/Book.PDF", "b.pdf"])), Some(s("/tmp/Book.PDF")));
}

#[test]
fn program_name_and_flags_are_passed_over() {
    assert_eq!(find_pdf_in_args(&args(&["app.pdf"])), None);
    assert_eq!(find_pdf_in_args(&args(&["app.pdf", "-x.pdf", "--open=a.pdf"])), None);
    assert_eq!(find_pdf_in_args(&args(&[])), None);
    assert_eq!(find_pdf_in_args(&args(&["app", "", "a"])), None);
}

#[test]
fn file_urls_are_decoded() {
    assert_eq!(
        find_pdf_in_args(&args(&["app", "file:///home/ann/My%20Book.pdf"])),
        Some(s("/home/ann/My Book.pdf"))
    );
    assert_eq!(pdf_argument(&s("file:///a+b.pdf")), Some(s("/a b.pdf")));
    assert_eq!(pdf_argument(&s("file:///a=b.pdf")), Some(s("/a=b.pdf")));
    assert_eq!(pdf_argument(&s("file:///a&b.pdf")), Some(s("/ab.pdf")));
    assert_eq!(pdf_argument(&s("file:///a.txt")), None);
    assert_eq!(pdf_argument(&s("file://")), None);
}

#[test]
fn the_ending_is_judged_after_decoding() {
    assert_eq!(pdf_argument(&s("file:///x%2Epdf%20.pdf")), Some(s("/x.pdf .pdf")));
    assert_eq!(pdf_argument(&s("file:///x%2EPDF")), Some(s("/x.PDF")));
    assert_eq!(pdf_argument(&s("file:///x.pdf=")), Some(s("/x.pdf")));
    assert_eq!(pdf_argument(&s("FILE:///x.pdf")), Some(s("FILE:///x.pdf")));
}

#[test]
fn decoding_writes_the_pairs_out_again() {
    assert_eq!(decode_path("/a%20b"), "/a b");
    assert_eq!(decode_path("k=v&&x=&y"), "k=vxy");
    assert_eq!(decode_path(""), "");
    assert_eq!(decode_path("%41%zz+"), "A%zz ");
}

#[test]
fn renaming_adds_the_ending_where_it_is_missing() {
    assert_eq!(rename_textbook(s("/b/a.pdf"), s("Calculus"), true).unwrap(), "Calculus.pdf");
    assert_eq!(rename_textbook(s("/b/a.pdf"), s("Calculus.pdf"), true).unwrap(), "Calculus.pdf");
    assert_eq!(rename_textbook(s("/b/a.pdf"), s("Calculus.PDF"), true).unwrap(), "Calculus.PDF");
    assert_eq!(rename_textbook(s("/b/a.pdf"), s("pdf"), true).unwrap(), "pdf.pdf");
    assert_eq!(rename_textbook(s("/b/a.pdf"), s(""), true).unwrap(), ".pdf");
}

#[test]
fn renaming_a_missing_file_is_refused() {
    match rename_textbook(s("/b/gone.pdf"), s("x"), false) {
        Err(StoreError::FileNotFound(path)) => {
            assert_eq!(path, "/b/gone.pdf");
            assert_eq!(StoreError::FileNotFound(path).message(), "File not found: /b/gone.pdf");
        }
        _ => panic!("expected FileNotFound"),
    }
}

#[test]
fn portal_answer_decides_the_theme() {
    assert_eq!(first_theme_probe(), ThemeProbe::PortalColorScheme);
    let dark = s("method return\n   variant       variant          uint32 1\n");
    let light = s("   variant          uint32 2\n");
    let none = s("   variant          uint32 0\n");
    let odd = s("   variant          uint32 7\n");
    assert_eq!(theme_after(ThemeProbe::PortalColorScheme, Some(dark)), ThemeStep::Decided(Theme::Dark));
    assert_eq!(theme_after(ThemeProbe::PortalColorScheme, Some(light)), ThemeStep::Decided(Theme::Light));
    assert_eq!(theme_after(ThemeProbe::PortalColorScheme, Some(none)), ThemeStep::Decided(Theme::Light));
    assert_eq!(theme_after(ThemeProbe::PortalColorScheme, Some(odd)), ThemeStep::Ask(ThemeProbe::SettingsColorScheme));
    assert_eq!(theme_after(ThemeProbe::PortalColorScheme, Some(s(""))), ThemeStep::Ask(ThemeProbe::SettingsColorScheme));
    assert_eq!(theme_after(ThemeProbe::PortalColorScheme, None), ThemeStep::Ask(ThemeProbe::SettingsColorScheme));
}

#[test]
fn settings_decide_the_theme_when_the_portal_does_not() {
    assert_eq!(theme_after(ThemeProbe::SettingsColorScheme, Some(s("'prefer-dark'\n"))), ThemeStep::Decided(Theme::Dark));
    assert_eq!(theme_after(ThemeProbe::SettingsColorScheme, Some(s("'default'\n"))), ThemeStep::Ask(ThemeProbe::SettingsThemeName));
    assert_eq!(theme_after(ThemeProbe::SettingsColorScheme, None), ThemeStep::Ask(ThemeProbe::SettingsThemeName));
    assert_eq!(theme_after(ThemeProbe::SettingsThemeName, Some(s("'Adwaita'\n"))), ThemeStep::Decided(Theme::Dark));
    assert_eq!(theme_after(ThemeProbe::SettingsThemeName, Some(s("'Adwaita-dark'\n"))), ThemeStep::Decided(Theme::Dark));
    assert_eq!(theme_after(ThemeProbe::SettingsThemeName, None), ThemeStep::Decided(Theme::Dark));
    assert_eq!(Theme::Dark.name(), "dark");
    assert_eq!(Theme::Light.name(), "light");
}

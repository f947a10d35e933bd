//! Import of notes from the flat JSON object in which they were kept
//! before: keys of the shape `slug:page`, values the HTML of the note.

use vstd::prelude::*;
use vstd::string::StringExecFns;
use crate::error::StoreError;
use crate::notes::set_note;
use crate::relations::Relations;
use crate::state::DbState;
use crate::text::{chars_of, find_last, last_index_of, parse_integer, parsed_integer, string_of};

verus! {

/// The entries of the JSON object that a text holds, if the text is one
/// JSON object all of whose values are strings: each key once with its
/// value, in ascending order of the keys; of a key that the text repeats,
/// the last value. `None` for any other text.
///
/// Stands for what `serde_json::from_str` makes of the text when asked for
/// a `BTreeMap<String, String>`, walked in order.
pub uninterp spec fn json_string_map(text: Seq<char>) -> Option<Seq<(Seq<char>, Seq<char>)>>;

/// The error with which `serde_json` refuses a text.
#[verifier::external_type_specification]
#[verifier::external_body]
pub struct ExJsonError(serde_json::Error);

/// The keys and values that a vector of entries stands for.
pub open spec fn entry_rows(entries: Seq<(String, String)>) -> Seq<(Seq<char>, Seq<char>)> {
    Seq::new(entries.len(), |i: int| (entries[i].0@, entries[i].1@))
}

/// Parses `text` with `serde_json::from_str` into a `BTreeMap<String,
/// String>` and hands out its entries in the map's order. The contract
/// gives the entries their name, and says that an error is returned exactly
/// when the text holds no such object.
#[verifier::external_body]
fn parse_string_map(text: &str) -> (r: Result<Vec<(String, String)>, serde_json::Error>)
    ensures
        match r {
            Ok(entries) => json_string_map(text@) == Some(entry_rows(entries@)),
            Err(_) => json_string_map(text@).is_none(),
        },
{
    match serde_json::from_str::<std::collections::BTreeMap<String, String>>(text) {
        Ok(map) => Ok(map.into_iter().collect()),
        Err(error) => Err(error),
    }
}

/// The message of a `serde_json` error, as its `Display` writes it. Nothing
/// is claimed of the text.
#[verifier::external_body]
fn json_error_text(error: &serde_json::Error) -> (text: String) {
    error.to_string()
}

/// The book and page that a key names: the part before its last `:` is the
/// slug, which may itself hold colons, and the part behind it is the page in
/// decimal. A key without a colon, or whose last part is no integer, names
/// nothing.
pub open spec fn note_key(key: Seq<char>) -> Option<(Seq<char>, int)> {
    match last_index_of(key, ':') {
        Some(i) => match parsed_integer(key.skip(i + 1)) {
            Some(page) => Some((key.take(i), page)),
            None => None,
        },
        None => None,
    }
}

/// The content that stands for an empty note in the old notes.
pub open spec fn empty_paragraph() -> Seq<char> {
    "<p></p>"@
}

/// The format tag that every imported note gets.
pub open spec fn html() -> Seq<char> {
    "html"@
}

/// The book and page of the note that an entry brings, if it brings one:
/// its key must name a book and page, and its content must be neither empty
/// nor the empty paragraph.
pub open spec fn entry_note(key: Seq<char>, content: Seq<char>) -> Option<(Seq<char>, int)> {
    if content.len() == 0 || content == empty_paragraph() {
        None
    } else {
        note_key(key)
    }
}

/// How far an import got.
pub struct Import {
    /// The relations after the import.
    pub relations: Relations,
    /// How many entries were written.
    pub written: int,
    /// Whether every entry was dealt with. An import stops at the first
    /// entry that would create a note when no row id is left; what was
    /// written before stays.
    pub complete: bool,
}

/// The import of `entries` at `now`, entry after entry: an entry that
/// brings a note sets it, in the `html` format; any other entry is skipped.
pub open spec fn import_notes(
    start: Relations,
    entries: Seq<(Seq<char>, Seq<char>)>,
    now: Seq<char>,
) -> Import
    decreases entries.len(),
{
    if entries.len() == 0 {
        Import { relations: start, written: 0, complete: true }
    } else {
        let before = import_notes(start, entries.drop_last(), now);
        if !before.complete {
            before
        } else {
            match entry_note(entries.last().0, entries.last().1) {
                None => before,
                Some((slug, page)) => {
                    if before.relations.note(slug, page) is None && before.relations.last_note_id
                        >= i64::MAX {
                        Import { complete: false, ..before }
                    } else {
                        Import {
                            relations: before.relations.set_note(
                                slug,
                                page,
                                entries.last().1,
                                html(),
                                now,
                            ),
                            written: before.written + 1,
                            complete: true,
                        }
                    }
                },
            }
        }
    }
}

/// The book and page that `key` names, if it names them.
pub fn split_note_key(key: &str) -> (r: Option<(String, i64)>)
    ensures
        match r {
            Some((slug, page)) => note_key(key@) == Some((slug@, page as int)),
            None => note_key(key@).is_none(),
        },
{
    let chars = chars_of(key);
    match find_last(&chars, ':') {
        None => None,
        Some(i) => {
            let tail = string_of(&chars, i + 1, chars.len());
            assert(chars@.subrange(i + 1, chars.len() as int) =~= chars@.skip(i + 1));
            match parse_integer(tail.as_str()) {
                None => None,
                Some(page) => {
                    assert(chars@.subrange(0, i as int) =~= chars@.take(i as int));
                    Some((string_of(&chars, 0, i), page))
                },
            }
        },
    }
}

/// Imports `entries` at `now`, entry after entry, and returns how many were
/// written.
///
/// An entry is written if its key names a book and page and its content is
/// neither empty nor the empty paragraph `<p></p>`; it then sets the note of
/// that page, in the `html` format. Every other entry is skipped. The import
/// is not all-or-nothing: it stops with an error at the first entry that
/// would need a row id when none is left, and what was written before stays.
pub fn import_entries(entries: Vec<(String, String)>, now: String, state: &mut DbState) -> (r:
    Result<usize, StoreError>)
    ensures
        final(state)@.valid(),
        final(state)@ == import_notes(old(state)@, entry_rows(entries@), now@).relations,
        match r {
            Ok(count) => {
                &&& import_notes(old(state)@, entry_rows(entries@), now@).complete
                &&& count == import_notes(old(state)@, entry_rows(entries@), now@).written
            },
            Err(StoreError::Exhausted) => !import_notes(
                old(state)@,
                entry_rows(entries@),
                now@,
            ).complete,
            Err(_) => false,
        },
{
    proof {
        use_type_invariant(&*state);
    }
    let ghost start = state@;
    let ghost rows = entry_rows(entries@);
    let marker = String::from_str("<p></p>");
    let mut count: usize = 0;
    let mut i: usize = 0;
    assert(rows.take(0) =~= Seq::empty());
    while i < entries.len()
        invariant
            i <= entries.len(),
            count <= i,
            start == old(state)@,
            rows == entry_rows(entries@),
            marker@ == empty_paragraph(),
            state@.valid(),
            import_notes(start, rows.take(i as int), now@) == (Import {
                relations: state@,
                written: count as int,
                complete: true,
            }),
        decreases entries.len() - i,
    {
        assert(rows.take(i + 1).drop_last() =~= rows.take(i as int));
        assert(rows.take(i + 1).last() == rows[i as int]);
        let content = &entries[i].1;
        if !(content.as_str().is_empty() || *content == marker) {
            match split_note_key(entries[i].0.as_str()) {
                Some((slug, page)) => {
                    let ghost before = state@;
                    let ghost named = (slug@, page as int);
                    assert(entry_note(rows[i as int].0, rows[i as int].1) == Some(named));
                    match set_note(
                        slug,
                        page,
                        content.clone(),
                        String::from_str("html"),
                        now.clone(),
                        state,
                    ) {
                        Ok(()) => {
                            count += 1;
                        },
                        Err(error) => {
                            proof {
                                assert(before.note(named.0, named.1) is None);
                                assert(before.last_note_id >= i64::MAX);
                                assert(import_notes(start, rows.take(i + 1), now@) == (Import {
                                    relations: before,
                                    written: count as int,
                                    complete: false,
                                }));
                                lemma_import_stops(start, rows, now@, i + 1);
                            }
                            return Err(StoreError::Exhausted);
                        },
                    }
                },
                None => {},
            }
        }
        i += 1;
    }
    assert(rows.take(i as int) =~= rows);
    Ok(count)
}

/// An import that is stopped after some of its entries is stopped after all
/// of them, with the same relations and count.
proof fn lemma_import_stops(
    start: Relations,
    entries: Seq<(Seq<char>, Seq<char>)>,
    now: Seq<char>,
    k: int,
)
    requires
        0 <= k <= entries.len(),
        !import_notes(start, entries.take(k), now).complete,
    ensures
        import_notes(start, entries, now) == import_notes(start, entries.take(k), now),
    decreases entries.len() - k,
{
    if k < entries.len() {
        assert(entries.take(k + 1).drop_last() =~= entries.take(k));
        lemma_import_stops(start, entries, now, k + 1);
    } else {
        assert(entries.take(k) =~= entries);
    }
}

/// Imports the notes that `json_data` holds, at `now`, and returns how many
/// were written.
///
/// The text must be one JSON object whose values are all strings; any other
/// text is refused and nothing is changed. Its entries are imported in
/// ascending order of their keys, as [`import_entries`] does it.
pub fn migrate_notes_from_json(json_data: String, now: String, state: &mut DbState) -> (r: Result<
    usize,
    StoreError,
>)
    ensures
        final(state)@.valid(),
        match json_string_map(json_data@) {
            None => r matches Err(StoreError::InvalidJson(_)) && final(state)@ == old(state)@,
            Some(entries) => {
                &&& final(state)@ == import_notes(old(state)@, entries, now@).relations
                &&& match r {
                    Ok(count) => {
                        &&& import_notes(old(state)@, entries, now@).complete
                        &&& count == import_notes(old(state)@, entries, now@).written
                    },
                    Err(StoreError::Exhausted) => !import_notes(old(state)@, entries, now@).complete,
                    Err(_) => false,
                }
            },
        },
{
    proof {
        use_type_invariant(&*state);
    }
    match parse_string_map(json_data.as_str()) {
        Err(error) => Err(StoreError::InvalidJson(json_error_text(&error))),
        Ok(entries) => import_entries(entries, now, state),
    }
}

} // verus!

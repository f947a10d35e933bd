//! Notes: one rich-text note for each page of a book, kept only while it
//! has content.

use vstd::prelude::*;
use vstd::string::StringExecFns;
use crate::error::StoreError;
use crate::models::{views, NoteRecord, NoteRow};
use crate::relations::{
    lemma_book_notes_ordered, lemma_delete_note_valid, lemma_note_position, lemma_set_note_valid,
    note_is, note_is_not, note_of_book, page_at_most, rewritten,
};
use crate::state::{put_rows, take_rows, DbState};
use crate::tables::{
    lemma_filter_all, lemma_filter_first, lemma_filter_none, lemma_filter_remove,
    lemma_filter_take,
};
use crate::text::{decimal, push_decimal};

verus! {

/// The index of the first note on the given page of the given book, or the
/// number of notes if there is none.
pub(crate) fn find_note(state: &DbState, slug: &String, page: i64) -> (k: usize)
    ensures
        k <= state@.notes.len(),
        forall|i: int| 0 <= i < k ==> !note_is(slug@, page as int)(#[trigger] state@.notes[i]),
        k < state@.notes.len() ==> note_is(slug@, page as int)(state@.notes[k as int]),
        k < state@.notes.len() ==> state@.note(slug@, page as int) == Some(state@.notes[k as int]),
        k == state@.notes.len() ==> state@.note(slug@, page as int) is None,
{
    let n: usize = state.rows.notes.len();
    let mut k: usize = 0;
    while k < n && !(state.rows.notes[k].page == page && state.rows.notes[k].slug == *slug)
        invariant
            n == state.rows.notes.len(),
            k <= n,
            forall|i: int| 0 <= i < k ==> !note_is(slug@, page as int)(#[trigger] state@.notes[i]),
        decreases n - k,
    {
        k += 1;
    }
    proof {
        if k < n {
            lemma_filter_first(state@.notes, note_is(slug@, page as int), k as int);
        } else {
            lemma_filter_none(state@.notes, note_is(slug@, page as int));
        }
    }
    k
}

/// The note on the given page of the given book, or `None` if the page has
/// no note.
pub fn get_note(slug: String, page: i64, state: &DbState) -> (note: Option<NoteRecord>)
    ensures
        state@.valid(),
        match note {
            Some(n) => state@.note(slug@, page as int) == Some(n@),
            None => state@.note(slug@, page as int) is None,
        },
{
    proof {
        use_type_invariant(state);
    }
    let k = find_note(state, &slug, page);
    if k < state.rows.notes.len() {
        Some(state.rows.notes[k].clone())
    } else {
        None
    }
}

/// Deletes the note on the given page of the given book, if there is one.
pub fn delete_note(slug: String, page: i64, state: &mut DbState)
    ensures
        final(state)@.valid(),
        final(state)@ == old(state)@.delete_note(slug@, page as int),
{
    proof {
        use_type_invariant(&*state);
    }
    let ghost rows = state@.notes;
    let ghost keep = note_is_not(slug@, page as int);
    let k = find_note(state, &slug, page);
    proof {
        lemma_delete_note_valid(state@, slug@, page as int);
    }
    if k < state.rows.notes.len() {
        proof {
            assert forall|j: int| 0 <= j < rows.len() && j != k implies keep(#[trigger] rows[j]) by {
                if j > k {
                    assert(!(rows[k as int].slug == rows[j].slug && rows[k as int].page
                        == rows[j].page));
                }
            }
            lemma_filter_remove(rows, keep, k as int);
        }
        let mut taken = take_rows(state);
        taken.notes.remove(k);
        assert(taken@.notes =~= rows.remove(k as int));
        put_rows(state, taken);
    } else {
        proof {
            lemma_filter_all(rows, keep);
        }
    }
}

/// Sets the note on the given page of the given book, written at `now`.
///
/// An empty `content` deletes the note, so that no empty note is ever kept.
/// Any other content replaces that of the note already there, which keeps
/// its row id, or else creates the note under the next row id. Creating is
/// refused only when no row id is left.
pub fn set_note(
    slug: String,
    page: i64,
    content: String,
    format: String,
    now: String,
    state: &mut DbState,
) -> (r: Result<(), StoreError>)
    ensures
        final(state)@.valid(),
        match r {
            Ok(()) => {
                &&& final(state)@ == old(state)@.set_note(
                    slug@,
                    page as int,
                    content@,
                    format@,
                    now@,
                )
                &&& (content@.len() == 0 || old(state)@.note(slug@, page as int) is Some
                    || old(state)@.last_note_id < i64::MAX)
            },
            Err(StoreError::Exhausted) => {
                &&& content@.len() > 0
                &&& old(state)@.note(slug@, page as int) is None
                &&& old(state)@.last_note_id == i64::MAX
                &&& final(state)@ == old(state)@
            },
            Err(_) => false,
        },
{
    proof {
        use_type_invariant(&*state);
    }
    if content.as_str().is_empty() {
        delete_note(slug, page, state);
        return Ok(());
    }
    let ghost rows = state@.notes;
    let n: usize = state.rows.notes.len();
    let k = find_note(state, &slug, page);
    if k < n {
        proof {
            lemma_set_note_valid(state@, slug@, page as int, content@, format@, now@);
        }
        let mut taken = take_rows(state);
        taken.notes[k].content = content;
        taken.notes[k].format = format;
        taken.notes[k].updated_at = now;
        proof {
            let f = rewritten(slug@, page as int, content@, format@, now@);
            assert forall|j: int| 0 <= j < rows.len() implies (#[trigger] taken@.notes[j]) == f(
                rows[j],
            ) by {
                if j < k {
                } else if j > k {
                    assert(!(rows[k as int].slug == rows[j].slug && rows[k as int].page
                        == rows[j].page));
                }
            }
            assert(taken@.notes =~= rows.map_values(f));
        }
        put_rows(state, taken);
        return Ok(());
    }
    if state.rows.last_note_id == i64::MAX {
        return Err(StoreError::Exhausted);
    }
    let mut p: usize = 0;
    while p < n && state.rows.notes[p].page <= page
        invariant
            n == state.rows.notes.len(),
            p <= n,
            rows == views(state.rows.notes@),
            forall|i: int| 0 <= i < p ==> page_at_most(page as int)(#[trigger] rows[i]),
        decreases n - p,
    {
        p += 1;
    }
    proof {
        lemma_note_position(state@, page as int);
        let q = state@.note_position(page as int);
        if p < q {
            assert(page_at_most(page as int)(rows[p as int]));
        }
        if q < p {
            assert(page_at_most(page as int)(rows[q]));
        }
        lemma_set_note_valid(state@, slug@, page as int, content@, format@, now@);
    }
    let id: i64 = state.rows.last_note_id + 1;
    let note = NoteRecord { id, slug, page, content, format, updated_at: now };
    let ghost row = note@;
    let mut taken = take_rows(state);
    taken.notes.insert(p, note);
    taken.last_note_id = id;
    assert(taken@.notes =~= rows.insert(p as int, row));
    put_rows(state, taken);
    Ok(())
}

/// All notes of the given book, ordered by page.
pub fn list_notes_for_book(slug: String, state: &DbState) -> (notes: Vec<NoteRecord>)
    ensures
        state@.valid(),
        views(notes@) == state@.book_notes(slug@),
        forall|i: int, j: int|
            0 <= i < j < notes.len() ==> (#[trigger] notes[i]).page < (#[trigger] notes[j]).page,
{
    proof {
        use_type_invariant(state);
    }
    let ghost rows = state@.notes;
    let ghost pred = note_of_book(slug@);
    let mut notes: Vec<NoteRecord> = Vec::new();
    let mut i: usize = 0;
    proof {
        assert(rows.take(0) =~= Seq::empty());
        lemma_filter_none(rows.take(0), pred);
        assert(views(notes@) =~= Seq::empty());
    }
    while i < state.rows.notes.len()
        invariant
            i <= state.rows.notes.len(),
            rows == views(state.rows.notes@),
            pred == note_of_book(slug@),
            views(notes@) == rows.take(i as int).filter(pred),
        decreases state.rows.notes.len() - i,
    {
        proof {
            lemma_filter_take(rows, pred, i as int);
        }
        if state.rows.notes[i].slug == slug {
            let ghost before = views(notes@);
            notes.push(state.rows.notes[i].clone());
            assert(views(notes@) =~= before.push(rows[i as int]));
        }
        i += 1;
    }
    assert(rows.take(i as int) =~= rows);
    assert forall|a: int, b: int| 0 <= a < b < notes.len() implies (
    #[trigger] notes[a]).page < (#[trigger] notes[b]).page by {
        lemma_book_notes_ordered(state@, slug@);
        assert(state@.book_notes(slug@)[a].page < state@.book_notes(slug@)[b].page);
        assert(views(notes@)[a] == notes[a]@ && views(notes@)[b] == notes[b]@);
    }
    notes
}

/// The text that one note contributes to an export: a heading with the page
/// number, then the content, each followed by a blank line.
pub open spec fn page_text(note: NoteRow) -> Seq<char> {
    "## Page "@ + decimal(note.page) + "\n\n"@ + note.content + "\n\n"@
}

/// The export of a sequence of notes: the text of each, in order.
pub open spec fn exported(notes: Seq<NoteRow>) -> Seq<char>
    decreases notes.len(),
{
    if notes.len() == 0 {
        Seq::empty()
    } else {
        exported(notes.drop_last()) + page_text(notes.last())
    }
}

/// All notes of the given book as one text, page after page: for each note a
/// heading `## Page ` with the page number, a blank line, the content and
/// another blank line.
pub fn export_notes_for_book(slug: String, state: &DbState) -> (text: String)
    ensures
        state@.valid(),
        text@ == exported(state@.book_notes(slug@)),
{
    proof {
        use_type_invariant(state);
    }
    let ghost rows = state@.notes;
    let ghost pred = note_of_book(slug@);
    let mut text = String::new();
    let mut i: usize = 0;
    proof {
        assert(rows.take(0) =~= Seq::empty());
        lemma_filter_none(rows.take(0), pred);
    }
    while i < state.rows.notes.len()
        invariant
            i <= state.rows.notes.len(),
            rows == views(state.rows.notes@),
            pred == note_of_book(slug@),
            text@ == exported(rows.take(i as int).filter(pred)),
        decreases state.rows.notes.len() - i,
    {
        proof {
            lemma_filter_take(rows, pred, i as int);
        }
        if state.rows.notes[i].slug == slug {
            let ghost before = rows.take(i as int).filter(pred);
            assert(before.push(rows[i as int]).drop_last() =~= before);
            text.append("## Page ");
            push_decimal(state.rows.notes[i].page, &mut text);
            text.append("\n\n");
            text.append(state.rows.notes[i].content.as_str());
            text.append("\n\n");
            assert(text@ =~= exported(before) + page_text(rows[i as int]));
        }
        i += 1;
    }
    assert(rows.take(i as int) =~= rows);
    text
}

} // verus!

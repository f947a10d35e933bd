//! Images attached to notes: the bytes saved for a page of a book under a
//! file name.

use vstd::prelude::*;
use crate::error::StoreError;
use crate::models::{views, NoteImage};
use crate::relations::{image_id_is, image_is, lemma_save_note_image_valid, with_data};
use crate::state::{put_rows, take_rows, DbState};
use crate::tables::{lemma_filter_first, lemma_filter_none};

verus! {

/// Saves `data` at `now` as the image of the given page of the given book
/// under the given file name, and returns the image's id.
///
/// Saving under the same book, page and name again replaces the bytes and
/// returns the same id: the image keeps its row and its creation time. A
/// first save creates the image under the next row id, and is refused only
/// when no row id is left.
pub fn save_note_image(
    slug: String,
    page: i64,
    filename: String,
    data: Vec<u8>,
    now: String,
    state: &mut DbState,
) -> (r: Result<i64, StoreError>)
    ensures
        final(state)@.valid(),
        match r {
            Ok(id) => {
                &&& final(state)@ == old(state)@.save_note_image(
                    slug@,
                    page as int,
                    filename@,
                    data@,
                    now@,
                )
                &&& id == old(state)@.saved_image_id(slug@, page as int, filename@)
                &&& (old(state)@.image_named(slug@, page as int, filename@) is Some
                    || old(state)@.last_image_id < i64::MAX)
            },
            Err(StoreError::Exhausted) => {
                &&& old(state)@.image_named(slug@, page as int, filename@) is None
                &&& old(state)@.last_image_id == i64::MAX
                &&& final(state)@ == old(state)@
            },
            Err(_) => false,
        },
{
    proof {
        use_type_invariant(&*state);
    }
    let ghost rows = state@.note_images;
    let ghost pred = image_is(slug@, page as int, filename@);
    let n: usize = state.rows.note_images.len();
    let mut k: usize = 0;
    while k < n && !(state.rows.note_images[k].note_page == page && state.rows.note_images[k].note_slug
        == slug && state.rows.note_images[k].filename == filename)
        invariant
            n == state.rows.note_images.len(),
            k <= n,
            rows == views(state.rows.note_images@),
            pred == image_is(slug@, page as int, filename@),
            forall|i: int| 0 <= i < k ==> !pred(#[trigger] rows[i]),
        decreases n - k,
    {
        k += 1;
    }
    proof {
        lemma_save_note_image_valid(state@, slug@, page as int, filename@, data@, now@);
    }
    if k < n {
        proof {
            lemma_filter_first(rows, pred, k as int);
        }
        let id: i64 = state.rows.note_images[k].id;
        let mut taken = take_rows(state);
        taken.note_images[k].data = data;
        proof {
            let f = with_data(slug@, page as int, filename@, data@);
            assert forall|j: int| 0 <= j < rows.len() implies (#[trigger] taken@.note_images[j])
                == f(rows[j]) by {
                if j > k {
                    assert(!(rows[k as int].note_slug == rows[j].note_slug
                        && rows[k as int].note_page == rows[j].note_page && rows[k as int].filename
                        == rows[j].filename));
                }
            }
            assert(taken@.note_images =~= rows.map_values(f));
        }
        put_rows(state, taken);
        return Ok(id);
    }
    proof {
        lemma_filter_none(rows, pred);
    }
    if state.rows.last_image_id == i64::MAX {
        return Err(StoreError::Exhausted);
    }
    let id: i64 = state.rows.last_image_id + 1;
    let image = NoteImage {
        id,
        note_slug: slug,
        note_page: page,
        filename,
        data,
        created_at: now,
    };
    let ghost row = image@;
    let mut taken = take_rows(state);
    taken.note_images.push(image);
    taken.last_image_id = id;
    assert(taken@.note_images =~= rows.push(row));
    put_rows(state, taken);
    Ok(id)
}

/// The bytes of the image with the given id. An id under which nothing is
/// stored is an error, not an absence.
pub fn get_note_image(id: i64, state: &DbState) -> (r: Result<Vec<u8>, StoreError>)
    ensures
        state@.valid(),
        match r {
            Ok(data) => state@.image(id as int) matches Some(image) && image.data == data@,
            Err(StoreError::NotFound) => state@.image(id as int) is None,
            Err(_) => false,
        },
{
    proof {
        use_type_invariant(state);
    }
    let ghost rows = state@.note_images;
    let ghost pred = image_id_is(id as int);
    let n: usize = state.rows.note_images.len();
    let mut k: usize = 0;
    while k < n && state.rows.note_images[k].id != id
        invariant
            n == state.rows.note_images.len(),
            k <= n,
            rows == views(state.rows.note_images@),
            pred == image_id_is(id as int),
            forall|i: int| 0 <= i < k ==> !pred(#[trigger] rows[i]),
        decreases n - k,
    {
        k += 1;
    }
    if k < n {
        proof {
            lemma_filter_first(rows, pred, k as int);
        }
        Ok(state.rows.note_images[k].data.clone())
    } else {
        proof {
            lemma_filter_none(rows, pred);
        }
        Err(StoreError::NotFound)
    }
}

} // verus!

//! Tags: named, coloured labels, and which book carries which.

use vstd::prelude::*;
use crate::error::StoreError;
use crate::models::{copy_records, links, views, BookTag, BookTagMapping, Tag};
use crate::relations::{
    book_tag_is, book_tag_is_not, book_tag_without, joined_links, lemma_create_tag_valid,
    lemma_delete_tag_valid, lemma_tag_book_valid, lemma_untag_book_valid,
    lemma_update_tag_color_valid, recolored, tag_id_is, tag_id_is_not, tag_name_is,
};
use crate::state::{put_rows, take_rows, DbState};
use crate::tables::{
    lemma_filter_all, lemma_filter_first, lemma_filter_none, lemma_filter_remove,
    lemma_filter_take,
};

verus! {

/// The index of the first tag with the given id, or the number of tags if
/// there is none.
pub(crate) fn find_tag(state: &DbState, id: i64) -> (k: usize)
    ensures
        k <= state@.tags.len(),
        forall|i: int| 0 <= i < k ==> (#[trigger] state@.tags[i]).id != id,
        k < state@.tags.len() ==> state@.tags[k as int].id == id,
        k < state@.tags.len() ==> state@.tag(id as int) == Some(state@.tags[k as int]),
        k == state@.tags.len() ==> state@.tag(id as int) is None,
{
    let n: usize = state.rows.tags.len();
    let mut k: usize = 0;
    while k < n && state.rows.tags[k].id != id
        invariant
            n == state.rows.tags.len(),
            k <= n,
            forall|i: int| 0 <= i < k ==> !tag_id_is(id as int)(#[trigger] state@.tags[i]),
        decreases n - k,
    {
        k += 1;
    }
    proof {
        if k < n {
            lemma_filter_first(state@.tags, tag_id_is(id as int), k as int);
        } else {
            lemma_filter_none(state@.tags, tag_id_is(id as int));
        }
    }
    k
}

/// All tags, in the order of their ids, which is the order in which they
/// were created.
pub fn list_tags(state: &DbState) -> (tags: Vec<Tag>)
    ensures
        state@.valid(),
        views(tags@) == state@.tags,
        forall|i: int, j: int|
            0 <= i < j < tags.len() ==> (#[trigger] tags[i]).id < (#[trigger] tags[j]).id,
{
    proof {
        use_type_invariant(state);
    }
    let tags = copy_records(&state.rows.tags);
    assert forall|i: int, j: int| 0 <= i < j < tags.len() implies (#[trigger] tags[i]).id < (
    #[trigger] tags[j]).id by {
        assert(views(tags@)[i] == tags[i]@ && views(tags@)[j] == tags[j]@);
    }
    tags
}

/// Creates a tag of the given name and colour under the next row id and
/// returns it. A name that a tag has already is refused.
pub fn create_tag(name: String, color: String, state: &mut DbState) -> (r: Result<Tag, StoreError>)
    ensures
        final(state)@.valid(),
        match r {
            Ok(tag) => {
                &&& old(state)@.tag_named(name@) is None
                &&& old(state)@.last_tag_id < i64::MAX
                &&& final(state)@ == old(state)@.create_tag(name@, color@)
                &&& tag@ == old(state)@.new_tag(name@, color@)
            },
            Err(StoreError::DuplicateName) => {
                &&& old(state)@.tag_named(name@) is Some
                &&& final(state)@ == old(state)@
            },
            Err(StoreError::Exhausted) => {
                &&& old(state)@.tag_named(name@) is None
                &&& old(state)@.last_tag_id == i64::MAX
                &&& final(state)@ == old(state)@
            },
            Err(_) => false,
        },
{
    proof {
        use_type_invariant(&*state);
    }
    let ghost rows = state@.tags;
    let ghost pred = tag_name_is(name@);
    let n: usize = state.rows.tags.len();
    let mut k: usize = 0;
    while k < n && state.rows.tags[k].name != name
        invariant
            n == state.rows.tags.len(),
            k <= n,
            rows == views(state.rows.tags@),
            pred == tag_name_is(name@),
            forall|i: int| 0 <= i < k ==> !pred(#[trigger] rows[i]),
        decreases n - k,
    {
        k += 1;
    }
    if k < n {
        proof {
            lemma_filter_first(rows, pred, k as int);
        }
        return Err(StoreError::DuplicateName);
    }
    proof {
        lemma_filter_none(rows, pred);
    }
    if state.rows.last_tag_id == i64::MAX {
        return Err(StoreError::Exhausted);
    }
    proof {
        lemma_create_tag_valid(state@, name@, color@);
    }
    let id: i64 = state.rows.last_tag_id + 1;
    let tag = Tag { id, name, color };
    let mut taken = take_rows(state);
    taken.tags.push(tag.clone());
    taken.last_tag_id = id;
    assert(taken@.tags =~= rows.push(tag@));
    put_rows(state, taken);
    Ok(tag)
}

/// Deletes the tag with the given id, if there is one, and takes it off
/// every book that carries it.
pub fn delete_tag(id: i64, state: &mut DbState)
    ensures
        final(state)@.valid(),
        final(state)@ == old(state)@.delete_tag(id as int),
{
    proof {
        use_type_invariant(&*state);
    }
    let ghost tags = state@.tags;
    let ghost rows = state@.book_tags;
    let ghost keep = book_tag_without(id as int);
    proof {
        lemma_delete_tag_valid(state@, id as int);
    }
    let mut kept: Vec<BookTag> = Vec::new();
    let mut i: usize = 0;
    proof {
        assert(rows.take(0) =~= Seq::empty());
        lemma_filter_none(rows.take(0), keep);
        assert(views(kept@) =~= Seq::empty());
    }
    while i < state.rows.book_tags.len()
        invariant
            i <= state.rows.book_tags.len(),
            rows == views(state.rows.book_tags@),
            keep == book_tag_without(id as int),
            views(kept@) == rows.take(i as int).filter(keep),
        decreases state.rows.book_tags.len() - i,
    {
        proof {
            lemma_filter_take(rows, keep, i as int);
        }
        if state.rows.book_tags[i].tag_id != id {
            let ghost before = views(kept@);
            kept.push(state.rows.book_tags[i].clone());
            assert(views(kept@) =~= before.push(rows[i as int]));
        }
        i += 1;
    }
    assert(rows.take(i as int) =~= rows);
    let k = find_tag(state, id);
    let mut taken = take_rows(state);
    taken.book_tags = kept;
    if k < taken.tags.len() {
        proof {
            assert forall|j: int| 0 <= j < tags.len() && j != k implies tag_id_is_not(id as int)(
                #[trigger] tags[j],
            ) by {
                if j > k {
                    assert(tags[k as int].id != tags[j].id);
                }
            }
            lemma_filter_remove(tags, tag_id_is_not(id as int), k as int);
        }
        taken.tags.remove(k);
        assert(taken@.tags =~= tags.remove(k as int));
    } else {
        proof {
            lemma_filter_all(tags, tag_id_is_not(id as int));
        }
    }
    put_rows(state, taken);
}

/// Gives the tag with the given id the given colour. Nothing changes if no
/// tag has the id.
pub fn update_tag_color(id: i64, color: String, state: &mut DbState)
    ensures
        final(state)@.valid(),
        final(state)@ == old(state)@.update_tag_color(id as int, color@),
{
    proof {
        use_type_invariant(&*state);
    }
    let ghost tags = state@.tags;
    let ghost f = recolored(id as int, color@);
    proof {
        lemma_update_tag_color_valid(state@, id as int, color@);
    }
    let k = find_tag(state, id);
    let mut taken = take_rows(state);
    if k < taken.tags.len() {
        taken.tags[k].color = color;
        proof {
            assert forall|j: int| 0 <= j < tags.len() implies (#[trigger] taken@.tags[j]) == f(
                tags[j],
            ) by {
                if j > k {
                    assert(tags[k as int].id != tags[j].id);
                }
            }
        }
    }
    assert(taken@.tags =~= tags.map_values(f));
    put_rows(state, taken);
}

/// The index of the first association of the given book with the given
/// tag, or the number of associations if there is none.
fn find_book_tag(state: &DbState, slug: &String, tag_id: i64) -> (k: usize)
    ensures
        k <= state@.book_tags.len(),
        forall|i: int|
            0 <= i < k ==> !book_tag_is(slug@, tag_id as int)(#[trigger] state@.book_tags[i]),
        k < state@.book_tags.len() ==> book_tag_is(slug@, tag_id as int)(
            state@.book_tags[k as int],
        ),
        (k < state@.book_tags.len()) == state@.has_book_tag(slug@, tag_id as int),
{
    let n: usize = state.rows.book_tags.len();
    let mut k: usize = 0;
    while k < n && !(state.rows.book_tags[k].tag_id == tag_id && state.rows.book_tags[k].book_slug == *slug)
        invariant
            n == state.rows.book_tags.len(),
            k <= n,
            forall|i: int|
                0 <= i < k ==> !book_tag_is(slug@, tag_id as int)(#[trigger] state@.book_tags[i]),
        decreases n - k,
    {
        k += 1;
    }
    proof {
        if k < n {
            lemma_filter_first(state@.book_tags, book_tag_is(slug@, tag_id as int), k as int);
        } else {
            lemma_filter_none(state@.book_tags, book_tag_is(slug@, tag_id as int));
        }
    }
    k
}

/// Gives the given book the given tag. A book that has the tag already
/// keeps it once; a tag that does not exist is refused.
pub fn tag_book(slug: String, tag_id: i64, state: &mut DbState) -> (r: Result<(), StoreError>)
    ensures
        final(state)@.valid(),
        match r {
            Ok(()) => {
                &&& old(state)@.tag(tag_id as int) is Some
                &&& final(state)@ == old(state)@.tag_book(slug@, tag_id as int)
            },
            Err(StoreError::UnknownTag) => {
                &&& old(state)@.tag(tag_id as int) is None
                &&& final(state)@ == old(state)@
            },
            Err(_) => false,
        },
{
    proof {
        use_type_invariant(&*state);
    }
    let t = find_tag(state, tag_id);
    if t == state.rows.tags.len() {
        return Err(StoreError::UnknownTag);
    }
    proof {
        lemma_tag_book_valid(state@, slug@, tag_id as int);
    }
    let k = find_book_tag(state, &slug, tag_id);
    if k == state.rows.book_tags.len() {
        let ghost rows = state@.book_tags;
        let row = BookTag { book_slug: slug, tag_id };
        let ghost added = row@;
        let mut taken = take_rows(state);
        taken.book_tags.push(row);
        assert(taken@.book_tags =~= rows.push(added));
        put_rows(state, taken);
    }
    Ok(())
}

/// Takes the given tag off the given book, if the book has it.
pub fn untag_book(slug: String, tag_id: i64, state: &mut DbState)
    ensures
        final(state)@.valid(),
        final(state)@ == old(state)@.untag_book(slug@, tag_id as int),
{
    proof {
        use_type_invariant(&*state);
    }
    let ghost rows = state@.book_tags;
    let ghost keep = book_tag_is_not(slug@, tag_id as int);
    proof {
        lemma_untag_book_valid(state@, slug@, tag_id as int);
    }
    let k = find_book_tag(state, &slug, tag_id);
    if k < state.rows.book_tags.len() {
        proof {
            assert forall|j: int| 0 <= j < rows.len() && j != k implies keep(#[trigger] rows[j]) by {
                if j > k {
                    assert(!(rows[k as int].book_slug == rows[j].book_slug && rows[k as int].tag_id
                        == rows[j].tag_id));
                }
            }
            lemma_filter_remove(rows, keep, k as int);
        }
        let mut taken = take_rows(state);
        taken.book_tags.remove(k);
        assert(taken@.book_tags =~= rows.remove(k as int));
        put_rows(state, taken);
    } else {
        proof {
            lemma_filter_all(rows, keep);
        }
    }
}

/// The tags of every book that has one: one mapping for each such book, in
/// the order in which the books were first tagged, each with all the tags
/// of the book in the order in which it got them. A book without a tag has
/// no mapping.
pub fn list_book_tags_all(state: &DbState) -> (mappings: Vec<BookTagMapping>)
    ensures
        state@.valid(),
        views(mappings@) == state@.book_tag_mappings(),
{
    proof {
        use_type_invariant(state);
    }
    let ghost rows = state@.book_tags;
    let ghost tags = state@.tags;
    let mut joined: Vec<(String, i64, String, String)> = Vec::new();
    let mut i: usize = 0;
    assert(rows.take(0) =~= Seq::empty());
    assert(links(joined@) =~= Seq::empty());
    while i < state.rows.book_tags.len()
        invariant
            i <= state.rows.book_tags.len(),
            rows == views(state.rows.book_tags@),
            tags == views(state.rows.tags@),
            links(joined@) == joined_links(rows.take(i as int), tags),
        decreases state.rows.book_tags.len() - i,
    {
        assert(rows.take(i + 1).drop_last() =~= rows.take(i as int));
        let k = find_tag(state, state.rows.book_tags[i].tag_id);
        if k < state.rows.tags.len() {
            let ghost before = links(joined@);
            let tag = &state.rows.tags[k];
            joined.push(
                (state.rows.book_tags[i].book_slug.clone(), tag.id, tag.name.clone(), tag.color.clone()),
            );
            assert(links(joined@) =~= before.push(
                (rows[i as int].book_slug, tags[k as int].id, tags[k as int].name, tags[k as int].color),
            ));
        }
        i += 1;
    }
    assert(rows.take(i as int) =~= rows);
    BookTagMapping::group_from_rows(joined)
}

} // verus!

//! The registry of directories that are scanned for textbooks.

use vstd::prelude::*;
use crate::error::StoreError;
use crate::models::{copy_records, views, Directory};
use crate::paths::label_for;
use crate::relations::{
    added_not_after, directory_id_is_not, directory_path_is, lemma_add_directory_valid,
    lemma_registry_position, lemma_remove_directory_valid,
};
use crate::state::{put_rows, take_rows, DbState};
use crate::tables::{lemma_filter_all, lemma_filter_indices, lemma_filter_none, lemma_filter_remove};
use crate::text::{text_at_most, text_le};

verus! {

/// All registered directories, ordered by the time they were added.
pub fn list_directories(state: &DbState) -> (dirs: Vec<Directory>)
    ensures
        state@.valid(),
        views(dirs@) == state@.directories,
        forall|i: int, j: int|
            0 <= i < j < dirs.len() ==> text_le(
                (#[trigger] dirs[i])@.added_at,
                (#[trigger] dirs[j])@.added_at,
            ),
{
    proof {
        use_type_invariant(state);
    }
    let dirs = copy_records(&state.rows.directories);
    assert forall|i: int, j: int| 0 <= i < j < dirs.len() implies text_le(
        (#[trigger] dirs[i])@.added_at,
        (#[trigger] dirs[j])@.added_at,
    ) by {
        assert(views(dirs@)[i] == dirs[i]@ && views(dirs@)[j] == dirs[j]@);
    }
    dirs
}

/// Registers the directory at `path`, added at the time `now`. `is_dir` says
/// whether `path` names an existing directory.
///
/// The new row gets the next row id and, as its label, the final segment of
/// the path (the whole path if it has none), and is returned. It is listed
/// behind every directory added at `now` or earlier. A path that is no
/// directory or that is registered already is refused, and so is any path
/// when no row id is left.
pub fn add_directory(path: String, is_dir: bool, now: String, state: &mut DbState) -> (r: Result<
    Directory,
    StoreError,
>)
    ensures
        final(state)@.valid(),
        match r {
            Ok(dir) => {
                &&& is_dir
                &&& !old(state)@.has_directory(path@)
                &&& old(state)@.last_directory_id < i64::MAX
                &&& final(state)@ == old(state)@.add_directory(path@, now@)
                &&& dir@ == old(state)@.new_directory(path@, now@)
            },
            Err(StoreError::NotADirectory(p)) => {
                &&& !is_dir
                &&& p@ == path@
                &&& final(state)@ == old(state)@
            },
            Err(StoreError::DuplicatePath) => {
                &&& is_dir
                &&& old(state)@.has_directory(path@)
                &&& final(state)@ == old(state)@
            },
            Err(StoreError::Exhausted) => {
                &&& is_dir
                &&& !old(state)@.has_directory(path@)
                &&& old(state)@.last_directory_id == i64::MAX
                &&& final(state)@ == old(state)@
            },
            Err(_) => false,
        },
{
    proof {
        use_type_invariant(&*state);
    }
    if !is_dir {
        return Err(StoreError::NotADirectory(path));
    }
    let ghost rows = state@.directories;
    let n: usize = state.rows.directories.len();
    let mut k: usize = 0;
    while k < n && state.rows.directories[k].path != path
        invariant
            n == state.rows.directories.len(),
            k <= n,
            rows == views(state.rows.directories@),
            forall|i: int| 0 <= i < k ==> !directory_path_is(path@)(#[trigger] rows[i]),
        decreases n - k,
    {
        k += 1;
    }
    if k < n {
        proof {
            let idx = lemma_filter_indices(rows, directory_path_is(path@));
            assert(directory_path_is(path@)(rows[k as int]));
            assert(idx.contains(k as int));
        }
        return Err(StoreError::DuplicatePath);
    }
    proof {
        lemma_filter_none(rows, directory_path_is(path@));
    }
    if state.rows.last_directory_id == i64::MAX {
        return Err(StoreError::Exhausted);
    }
    let mut p: usize = 0;
    while p < n && text_at_most(state.rows.directories[p].added_at.as_str(), now.as_str())
        invariant
            n == state.rows.directories.len(),
            p <= n,
            rows == views(state.rows.directories@),
            forall|i: int| 0 <= i < p ==> added_not_after(now@)(#[trigger] rows[i]),
        decreases n - p,
    {
        p += 1;
    }
    proof {
        lemma_registry_position(state@, now@);
        let q = state@.registry_position(now@);
        if p < q {
            assert(added_not_after(now@)(rows[p as int]));
        }
        if q < p {
            assert(added_not_after(now@)(rows[q]));
        }
        lemma_add_directory_valid(state@, path@, now@);
    }
    let id: i64 = state.rows.last_directory_id + 1;
    let label = label_for(&path);
    let dir = Directory { id, path, label, added_at: now };
    let mut taken = take_rows(state);
    taken.directories.insert(p, dir.clone());
    taken.last_directory_id = id;
    assert(taken@.directories =~= rows.insert(p as int, dir@));
    put_rows(state, taken);
    Ok(dir)
}

/// Removes the directory with the given id, if there is one. Notes and tags
/// of the textbooks found under it stay.
pub fn remove_directory(id: i64, state: &mut DbState)
    ensures
        final(state)@.valid(),
        final(state)@ == old(state)@.remove_directory(id as int),
{
    proof {
        use_type_invariant(&*state);
    }
    let ghost rows = state@.directories;
    let n: usize = state.rows.directories.len();
    let mut k: usize = 0;
    while k < n && state.rows.directories[k].id != id
        invariant
            n == state.rows.directories.len(),
            k <= n,
            rows == views(state.rows.directories@),
            forall|i: int| 0 <= i < k ==> directory_id_is_not(id as int)(#[trigger] rows[i]),
        decreases n - k,
    {
        k += 1;
    }
    proof {
        lemma_remove_directory_valid(state@, id as int);
    }
    if k < n {
        proof {
            assert forall|j: int| 0 <= j < rows.len() && j != k implies directory_id_is_not(
                id as int,
            )(#[trigger] rows[j]) by {
                if j < k {
                    assert(rows[j].id != rows[k as int].id);
                } else {
                    assert(rows[k as int].id != rows[j].id);
                }
            }
            lemma_filter_remove(rows, directory_id_is_not(id as int), k as int);
        }
        let mut taken = take_rows(state);
        taken.directories.remove(k);
        assert(taken@.directories =~= rows.remove(k as int));
        put_rows(state, taken);
    } else {
        proof {
            lemma_filter_all(rows, directory_id_is_not(id as int));
        }
    }
}

} // verus!

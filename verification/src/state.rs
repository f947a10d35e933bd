//! The bookshelf's state: the rows of its relations, held in memory.

use vstd::prelude::*;
use crate::relations::Relations;
use crate::snapshot::Snapshot;

verus! {

/// The state behind every operation of the bookshelf. A caller shares one
/// value among all its requests and lets one request at a time work on it.
///
/// The rows of a state obey the constraints of the relations at all times:
/// a state is made empty or from rows that were checked, and every
/// operation keeps the constraints.
pub struct DbState {
    pub(crate) rows: Snapshot,
}

impl View for DbState {
    type V = Relations;

    open(crate) spec fn view(&self) -> Relations {
        self.rows@
    }
}

impl DbState {
    #[verifier::type_invariant]
    pub(crate) open spec fn constrained(&self) -> bool {
        self.rows@.valid()
    }
}

/// A bookshelf with nothing on it: no directory, note, image or tag, and
/// no row id handed out yet.
pub fn init_db() -> (state: DbState)
    ensures
        state@ == Relations::empty(),
        state@.valid(),
{
    let rows = Snapshot {
        directories: Vec::new(),
        notes: Vec::new(),
        note_images: Vec::new(),
        tags: Vec::new(),
        book_tags: Vec::new(),
        last_directory_id: 0,
        last_note_id: 0,
        last_image_id: 0,
        last_tag_id: 0,
    };
    assert(rows@.directories =~= Seq::empty());
    assert(rows@.notes =~= Seq::empty());
    assert(rows@.note_images =~= Seq::empty());
    assert(rows@.tags =~= Seq::empty());
    assert(rows@.book_tags =~= Seq::empty());
    DbState { rows }
}

/// Takes the rows out of the state to work on them, and leaves the state
/// empty until [`put_rows`] gives them back.
pub(crate) fn take_rows(state: &mut DbState) -> (rows: Snapshot)
    ensures
        rows == old(state).rows,
        rows@.valid(),
{
    proof {
        use_type_invariant(&*state);
    }
    let mut taken = init_db();
    core::mem::swap(state, &mut taken);
    taken.rows
}

/// Makes `rows` the rows of the state.
pub(crate) fn put_rows(state: &mut DbState, rows: Snapshot)
    requires
        rows@.valid(),
    ensures
        final(state).rows == rows,
{
    *state = DbState { rows };
}

} // verus!

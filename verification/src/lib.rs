//! A bookshelf of PDF textbooks: registered folders, the textbooks found in
//! them, per-page notes with image attachments, and coloured tags.
//!
//! The bookshelf keeps its rows in memory, in a [`DbState`]. Every operation
//! says in its contract what it does to the five relations that the state
//! stands for ([`relations::Relations`]); what holds of several operations
//! taken together is proved in [`laws`]. Reading directories and files,
//! telling the time and keeping the rows on disk are left to the caller, who
//! hands in what it found as plain values.

pub mod directories;
pub mod error;
pub mod images;
pub mod launch;
pub mod laws;
pub mod migrate;
pub mod models;
pub mod notes;
pub mod paths;
pub mod relations;
pub mod slug;
pub mod snapshot;
pub mod state;
pub mod tables;
pub mod tags;
pub mod text;
pub mod textbooks;
pub mod theme;

pub use directories::{add_directory, list_directories, remove_directory};
pub use error::StoreError;
pub use images::{get_note_image, save_note_image};
pub use launch::find_pdf_in_args;
pub use migrate::migrate_notes_from_json;
pub use models::{BookTagMapping, Directory, NoteImage, NoteRecord, Tag, Textbook};
pub use notes::{delete_note, export_notes_for_book, get_note, list_notes_for_book, set_note};
pub use slug::{sanitize_slug, title_from_stem};
pub use snapshot::{load_db, save_db, Snapshot};
pub use state::{init_db, DbState};
pub use tags::{
    create_tag, delete_tag, list_book_tags_all, list_tags, tag_book, untag_book, update_tag_color,
};
pub use textbooks::{list_textbooks, rename_textbook, DirectoryScan, FileEntry};

//! Turns e-reader annotation exports into per-book notes: a plain-text log of
//! records, or a saved library web page, becomes each book's annotations in
//! the order of the source, ready to be written out one file per book.
pub mod my_clippings;
pub mod note;
pub mod parse;
pub mod text;
pub mod util;
pub mod web_export;

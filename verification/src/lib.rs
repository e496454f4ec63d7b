//! Record store of a flashcard trainer for character input codes: loading and
//! writing the flat text format, ordering, removal of duplicates, rating
//! updates and the selection of quiz batches.

pub mod database;
pub mod dedup;
pub mod order;
pub mod select;
pub mod text;
pub mod update;

pub use database::{CJDatabase, Chinese, Entry};
pub use text::LoadError;

//! gideon-core: document model, CBZ parsing and library management.
//!
//! This crate is the heart of gideon: opening `.cbz` archives, listing their
//! pages in natural reading order, decoding page images and tracking reading
//! progress across a library directory.
//!
//! What a function does is stated in its contract and proved. Reading and
//! writing files is left to the caller, who hands in what a file or a directory
//! holds.

pub mod calendar;
pub mod cbz;
pub mod comicinfo;
pub mod error;
pub mod json;
pub mod library;
pub mod natsort;
pub mod order;
pub mod profile;
pub mod progress;
pub mod series;
pub mod settings;
pub mod sorting;
pub mod stats;
pub mod storage;
pub mod strmap;
pub mod text;
pub mod timezone;
pub mod tzif;

pub use cbz::CbzDocument;
pub use comicinfo::ComicInfo;
pub use error::Error;
pub use library::{Library, LibraryEntry, ProgressStore, ReadingProgress};
pub use series::{SeriesIndex, SeriesMeta, SeriesRef};
pub use settings::{Settings, StorageSize};

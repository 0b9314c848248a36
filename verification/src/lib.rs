//! A filesystem-backed entry store for personal-information-management tools.
//!
//! Entries are text files with a structured header; a `Store` arbitrates
//! access to them through a borrow-tracked cache and runs registered hook
//! pipelines around every mutation of the entry set.

pub mod chars;
pub mod error;
pub mod value;
pub mod text;
pub mod storeid;
pub mod entry;
pub mod file_abstraction;
pub mod hook;
pub mod configuration;
pub mod store;
pub mod tag;
pub mod mail;
pub mod lister;

//! Catalog library for a sheet-music archive.
//!
//! The crate models musical scores, the physical books that bind them, and
//! the page locations at which each score appears, together with a verified
//! search engine and a catalog service offering create/read/update/delete
//! operations over scores and books.

pub mod catalog;
pub mod error;
pub mod laws;
pub mod model;
pub mod order;
pub mod registry;
pub mod search;

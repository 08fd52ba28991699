//! A local PDF library: the catalog of registered documents, the per-page
//! artifacts derived from them (sizes, thumbnails, strokes), the extraction
//! run that produces those artifacts page by page, and bookmarks and
//! collections.

pub mod artifacts;
pub mod bookmarks;
pub mod catalog;
pub mod collections;
pub mod decimal;
pub mod layout;
pub mod pages;
pub mod pipeline;
pub mod text;

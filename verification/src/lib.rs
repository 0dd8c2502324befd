//! Navigable table-of-contents outlines for PDF files.
//!
//! An outline comes from a specification, from the table of contents that the
//! PDF prints itself, or from an editing session. Its logical page numbers are
//! mapped to physical pages, and it is written into the document as bookmark
//! objects.
//!
//! - [`text`] and [`numerals`] take text apart and read numbers.
//! - [`page_map`] and [`mapping`] lead from printed page numbers to PDF pages.
//! - [`model`] holds outline trees; [`toc`], [`toc_tree`] and [`extract`] read
//!   them from the text of a PDF.
//! - [`pages`], [`titles`] and [`outline`] put an outline into a document.
//! - [`editor`] and [`session`] are the state of an editor; [`files`] names
//!   the files that belong to a PDF.
//! - The modules whose names end in `laws` state what holds of them together.
//! - [`std_text`], [`lopdf_items`] and parts of [`files`] hold the contracts of
//!   outside functions, which are trusted and not proved.

pub mod editor;
pub mod editor_laws;
pub mod extract;
pub mod extract_laws;
pub mod files;
pub mod lopdf_items;
pub mod mapping;
pub mod model;
pub mod numeral_laws;
pub mod numerals;
pub mod outline;
pub mod outline_laws;
pub mod page_laws;
pub mod page_map;
pub mod page_tree_laws;
pub mod pages;
pub mod pdf_value;
pub mod session;
pub mod session_laws;
pub mod std_text;
pub mod text;
pub mod text_laws;
pub mod titles;
pub mod toc;
pub mod toc_laws;
pub mod toc_tree;

pub use extract::{extract_toc, TocExtraction};
pub use files::{default_output, find_outline_json};
pub use mapping::{apply_anchor_overrides, OutlineSpec, PageMapping};
pub use model::{count_all, OutlineEntry};
pub use page_map::PageNumberMap;

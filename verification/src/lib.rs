//! Removal of text watermarks from PDF documents, at the level of content streams.
//!
//! 1. The content stream of each page is read as operations, and these are cut into text blocks
//!    that run from `BT` to `ET` ([`blocks`]).
//! 2. Text blocks that repeat across pages are candidates for watermarks ([`analysis`]).
//! 3. The text blocks that contain one of the chosen keywords are removed, and nothing else is
//!    touched: from operations ([`strip`]), from a page ([`page`]), from the forms that it draws
//!    ([`forms`]), and from a whole document, whose encryption is dropped as well ([`document`]).
//!
//! PDF objects are those of the `lopdf` crate. [`value`] says what they hold, and [`pdf`] has the
//! calls into that crate; [`inline_image`] and [`prefix`] keep it from content streams on which it
//! would panic. What a removal achieves and what it leaves as it is, is stated in
//! [`strip_laws`], [`page_laws`], [`form_laws`], [`frame`], [`clean`] and [`removal_laws`]; what
//! streams, blocks, texts, sizes and sessions are, in the other files of laws.

pub mod analysis;
pub mod analysis_laws;
pub mod block_laws;
pub mod blocks;
pub mod clean;
pub mod content;
pub mod content_laws;
pub mod document;
pub mod form_laws;
pub mod forms;
pub mod frame;
pub mod image_laws;
pub mod inline_image;
pub mod object_laws;
pub mod order;
pub mod page;
pub mod page_laws;
pub mod pdf;
pub mod prefix;
pub mod removal_laws;
pub mod session;
pub mod session_laws;
pub mod size;
pub mod size_laws;
pub mod strip;
pub mod strip_laws;
pub mod text;
pub mod text_laws;
pub mod value;

pub use crate::analysis::{analyze, Candidate};
pub use crate::blocks::{extract_text_blocks, TextBlock};
pub use crate::document::{remove_watermarks, unlock, RemovalReport};
pub use crate::forms::remove_watermarks_from_resources;
pub use crate::page::{page_has_keyword, remove_watermarks_from_page};
pub use crate::pdf::PdfError;
pub use crate::text::{block_matches_keywords, collapse_ws};

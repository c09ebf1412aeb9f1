//! Recognition and normalisation of drawing reference labels ("130", "13a",
//! "130-1", "FIG. 6") in text produced by OCR or taken from documents.
//!
//! - `labels`: label shapes, the format matcher, cleaning and splitting;
//! - `figures`: the figure-reference grammar;
//! - `normalize`: case folding and plural stemming;
//! - `extract`: occurrences of labels after words, deduplication, and the
//!   document and OCR-line entry points;
//! - `order`: the label and occurrence orders and the sort;
//! - `report`: file hash, paragraph HTML and image data URLs;
//! - `raster`: black-and-white thresholding of rendered pages;
//! - `chars`: character classes and string conversions.

pub mod chars;
pub mod labels;
pub mod figures;
pub mod normalize;
pub mod order;
pub mod extract;
pub mod report;
pub mod raster;

pub use extract::{extract_from_document_text, normalize_number, DocxResult};
pub use labels::{clean_text, is_valid_label, matches_format, LabelFormat};

//! Conversion of personal note collections between export formats: Google
//! Keep JSON exports, Noto backup collections, and plain Markdown documents.
//!
//! The library holds the conversion logic itself: timestamp normalization,
//! id/position allocation, note mapping, collection merging, and the
//! dispatch over (source format, destination format) pairs.  Reading and
//! writing files, JSON, and interactive prompts are left to the surrounding
//! program, which hands the library plain values.

pub mod note;
pub mod timestamp;

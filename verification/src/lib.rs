//! scrub: detect and clean invisible-Unicode carriers and stray provenance
//! metadata from text and EPUB files.

pub mod api;
pub mod epub;
mod text;
pub mod unicode;

pub use api::{
    clean_contents, cleaned_path, detect_contents, kind_of, CleanReport, DetectReport, Kind,
    ScrubError,
};
pub use unicode::{clean_text, inspect_text, CleanOptions, CleanStats, InspectReport};

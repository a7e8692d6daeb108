//! Layer A: invisible / format Unicode detection and cleaning.
//!
//! Zero-width and format controls are stripped, space homoglyphs are folded
//! to U+0020, and load-bearing invisibles (emoji glue, script joiners, paired
//! bidi embeddings, same-script fillers, orthographic Cf marks) are
//! preserved. The decision for each character is the specification
//! `decide::decide_rule`; `scan::layer_a` runs it over a whole text.

pub mod clean;
pub mod context;
pub mod decide;
pub mod inspect;
pub mod labels;
pub mod laws;
pub mod passes;
pub mod scan;
pub mod tables;
pub mod ucd;

pub use clean::{clean_text, CleanStats};
pub use decide::CleanOptions;
pub use inspect::{inspect_text, CharHit, InspectReport};

//! EPUB container cleaning.
//!
//! An EPUB is a ZIP. The text-typed entries are cleaned (Layer A) and stray
//! `<meta name="generator">` tags are removed from markup; every binary entry
//! (images, fonts) passes through byte-identical. The repack keeps `mimetype`
//! as the first entry, STORED (uncompressed), as the OCF spec requires.

pub mod archive;
pub mod detect;
pub mod laws;
pub mod markup;
pub mod repack;

pub use detect::{inspect_epub_archive, EpubInspectEntry, EpubInspectReport};
pub use repack::{clean_epub_archive, EpubCleanStats, EpubError};

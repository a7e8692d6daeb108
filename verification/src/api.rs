//! High-level API shared by the command-line front end and library users:
//! format detection by extension, and detect/clean entry points over a
//! file's contents.

use crate::epub::archive::{utf8_text, zip_opens};
use crate::epub::detect::{inspect_epub_archive, survey_matches, survey_succeeds, EpubInspectReport};
use crate::epub::repack::{
    clean_epub_archive, repack_matches, repack_succeeds, EpubCleanStats, EpubError,
};
use crate::text::{ascii_lower, ascii_lowercase, collect_chars, matches_at, push_all};
use crate::unicode::clean::{clean_stats_match, clean_text, cleaned_text, CleanStats};
use crate::unicode::decide::CleanOptions;
use crate::unicode::inspect::{inspect_options, inspect_report_matches, inspect_text, InspectReport};
use crate::unicode::laws::{
    lemma_cleaned_text_detects_clean, no_bidi_controls, no_space_homoglyphs,
};
use std::path::{Path, PathBuf};
use vstd::prelude::*;
use vstd::string::StringSliceAdditionalSpecFns;
use vstd::utf8::{decode_utf8, encode_utf8, valid_utf8};

verus! {

#[verifier::external_type_specification]
#[verifier::external_body]
pub struct ExPath(Path);

#[verifier::external_type_specification]
#[verifier::external_body]
pub struct ExPathBuf(PathBuf);

/// The kind of input a path is handled as.
#[derive(Debug, Clone, Copy, PartialEq, Eq, Structural)]
pub enum Kind {
    /// UTF-8 text (markdown, HTML, XML, plain text, ...).
    Text,
    /// EPUB (ZIP) container.
    Epub,
}

/// The extension of a path, with `Path::extension`, when it is valid UTF-8
/// (`OsStr::to_str`). Nothing is claimed of the result: how a path splits
/// into components depends on the platform.
#[verifier::external_body]
fn path_extension(path: &Path) -> (r: Option<String>) {
    match path.extension() {
        Some(e) => e.to_str().map(String::from),
        None => None,
    }
}

/// The file stem of a path, with `Path::file_stem`, when it is valid UTF-8
/// (`OsStr::to_str`). Nothing is claimed of the result: how a path splits
/// into components depends on the platform.
#[verifier::external_body]
fn path_file_stem(path: &Path) -> (r: Option<String>) {
    match path.file_stem() {
        Some(s) => s.to_str().map(String::from),
        None => None,
    }
}

/// The path with its file name replaced, with `Path::with_file_name`.
/// Nothing is claimed of the result: paths are opaque here.
#[verifier::external_body]
fn path_with_file_name(path: &Path, name: &str) -> (r: PathBuf) {
    path.with_file_name(name)
}

/// The kind for a file extension: `epub` in any ASCII case is an EPUB,
/// anything else (or no extension) is text.
pub open spec fn kind_for_extension(extension: Option<Seq<char>>) -> Kind {
    match extension {
        Some(e) => if ascii_lower(e) == "epub"@ {
            Kind::Epub
        } else {
            Kind::Text
        },
        None => Kind::Text,
    }
}

/// Classify an extension.
pub fn kind_of_extension(extension: Option<&str>) -> (k: Kind)
    ensures
        k == kind_for_extension(
            match extension {
                Some(e) => Some(e@),
                None => None,
            },
        ),
{
    match extension {
        Some(e) => {
            let lower = ascii_lowercase(&collect_chars(e));
            let epub = collect_chars("epub");
            if lower.len() == epub.len() && matches_at(&lower, 0, &epub) {
                assert(lower@ =~= lower@.subrange(0, epub@.len() as int));
                Kind::Epub
            } else {
                proof {
                    if ascii_lower(e@) == "epub"@ {
                        assert(lower@.subrange(0, epub@.len() as int) =~= lower@);
                    }
                }
                Kind::Text
            }
        },
        None => Kind::Text,
    }
}

/// Classify a path by extension. `.epub` (in any ASCII case) is an EPUB;
/// everything else is treated as UTF-8 text. The result is
/// `kind_of_extension` of the path's extension; what that extension is
/// depends on how the platform splits paths, so it is not stated here.
pub fn kind_of(path: &Path) -> Kind {
    let extension = path_extension(path);
    match extension {
        Some(e) => kind_of_extension(Some(e.as_str())),
        None => kind_of_extension(None),
    }
}

/// The name of the default output file: `<stem>.cleaned.<ext>`, or
/// `<stem>.cleaned` without an extension; a missing stem becomes `out`.
pub open spec fn cleaned_name(stem: Option<Seq<char>>, extension: Option<Seq<char>>) -> Seq<char> {
    let stem = match stem {
        Some(s) => s,
        None => "out"@,
    };
    match extension {
        Some(e) => stem + ".cleaned."@ + e,
        None => stem + ".cleaned"@,
    }
}

/// The file name of the default output for a file with this stem and extension.
pub fn cleaned_file_name(stem: Option<&str>, extension: Option<&str>) -> (name: String)
    ensures
        name@ == cleaned_name(
            match stem {
                Some(s) => Some(s@),
                None => None,
            },
            match extension {
                Some(e) => Some(e@),
                None => None,
            },
        ),
{
    let mut name = String::new();
    match stem {
        Some(s) => push_all(&mut name, s),
        None => push_all(&mut name, "out"),
    }
    match extension {
        Some(e) => {
            push_all(&mut name, ".cleaned.");
            push_all(&mut name, e);
        },
        None => push_all(&mut name, ".cleaned"),
    }
    name
}

/// Default output path for a non-in-place clean: `<stem>.cleaned.<ext>` next
/// to the input.
pub fn cleaned_path(path: &Path) -> PathBuf {
    let stem = path_file_stem(path);
    let extension = path_extension(path);
    let name = cleaned_file_name(
        match &stem {
            Some(s) => Some(s.as_str()),
            None => None,
        },
        match &extension {
            Some(e) => Some(e.as_str()),
            None => None,
        },
    );
    path_with_file_name(path, name.as_str())
}

/// Result of detecting carriers/metadata in a file.
pub enum DetectReport {
    Text(InspectReport),
    Epub(EpubInspectReport),
}

impl DetectReport {
    /// True when nothing suspicious (and, for EPUBs, no stray generator meta)
    /// was found.
    pub fn is_clean(&self) -> (r: bool)
        ensures
            r == match self {
                DetectReport::Text(t) => t.suspicious_total == 0,
                DetectReport::Epub(e) => e.suspicious_total == 0 && e.generator_meta_total == 0,
            },
    {
        match self {
            DetectReport::Text(r) => r.suspicious_total == 0,
            DetectReport::Epub(r) => r.suspicious_total == 0 && r.generator_meta_total == 0,
        }
    }

    /// Count of suspicious code points found.
    pub fn suspicious_total(&self) -> (n: usize)
        ensures
            n == match self {
                DetectReport::Text(t) => t.suspicious_total,
                DetectReport::Epub(e) => e.suspicious_total,
            },
    {
        match self {
            DetectReport::Text(r) => r.suspicious_total,
            DetectReport::Epub(r) => r.suspicious_total,
        }
    }
}

/// Statistics from cleaning a file.
pub enum CleanReport {
    Text(CleanStats),
    Epub(EpubCleanStats),
}

impl CleanReport {
    /// Number of carriers stripped.
    pub fn removed(&self) -> (n: usize)
        ensures
            n == match self {
                CleanReport::Text(s) => s.removed_count,
                CleanReport::Epub(s) => s.removed_chars,
            },
    {
        match self {
            CleanReport::Text(s) => s.removed_count,
            CleanReport::Epub(s) => s.removed_chars,
        }
    }

    /// Number of code points replaced (e.g. space homoglyphs folded to `U+0020`).
    pub fn replaced(&self) -> (n: usize)
        ensures
            n == match self {
                CleanReport::Text(s) => s.replaced_count,
                CleanReport::Epub(s) => s.replaced_chars,
            },
    {
        match self {
            CleanReport::Text(s) => s.replaced_count,
            CleanReport::Epub(s) => s.replaced_chars,
        }
    }

    /// Whether cleaning changed anything.
    pub fn changed(&self) -> (r: bool)
        ensures
            r == match self {
                CleanReport::Text(s) => s.removed_count > 0 || s.replaced_count > 0 || s.nfkc_changed,
                CleanReport::Epub(s) => s.removed_chars > 0 || s.replaced_chars > 0
                    || s.generator_meta_removed > 0,
            },
    {
        match self {
            CleanReport::Text(s) => s.removed_count > 0 || s.replaced_count > 0 || s.nfkc_changed,
            CleanReport::Epub(s) => {
                s.removed_chars > 0 || s.replaced_chars > 0 || s.generator_meta_removed > 0
            },
        }
    }
}

/// Why a file could not be detected or cleaned.
#[derive(Debug)]
pub enum ScrubError {
    /// A text file is not valid UTF-8.
    NotUtf8,
    /// An EPUB could not be read or repacked.
    Epub(EpubError),
}

/// What `detect_contents` reports for a file of the given kind and contents.
pub open spec fn detect_matches(r: DetectReport, kind: Kind, contents: Seq<u8>) -> bool {
    match kind {
        Kind::Text => r matches DetectReport::Text(t) && inspect_report_matches(
            t,
            decode_utf8(contents),
            inspect_options(false, false),
        ),
        Kind::Epub => r matches DetectReport::Epub(e) && survey_matches(e, contents),
    }
}

/// Detect carriers/metadata in a file's contents without modifying them:
/// text must be valid UTF-8 (else `NotUtf8`) and is inspected with the
/// default settings; an EPUB is surveyed entry by entry.
pub fn detect_contents(kind: Kind, contents: Vec<u8>) -> (r: Result<DetectReport, ScrubError>)
    ensures
        kind == Kind::Text ==> (r is Ok <==> valid_utf8(contents@)),
        kind == Kind::Text && !valid_utf8(contents@) ==> r matches Err(ScrubError::NotUtf8),
        kind == Kind::Epub ==> (r is Ok || r matches Err(ScrubError::Epub(_))),
        kind == Kind::Epub ==> (r is Ok <==> survey_succeeds(contents@)),
        r matches Err(ScrubError::Epub(EpubError::NotAnArchive(_))) <==> kind == Kind::Epub
            && !zip_opens(contents@),
        r matches Ok(report) ==> detect_matches(report, kind, contents@),
{
    match kind {
        Kind::Epub => match inspect_epub_archive(contents) {
            Ok(report) => Ok(DetectReport::Epub(report)),
            Err(e) => Err(ScrubError::Epub(e)),
        },
        Kind::Text => match utf8_text(contents.as_slice()) {
            Some(text) => {
                proof {
                    vstd::utf8::decode_utf8_encode_utf8(contents@);
                    vstd::utf8::encode_utf8_decode_utf8(text@);
                }
                Ok(DetectReport::Text(inspect_text(text, false, false)))
            },
            None => Err(ScrubError::NotUtf8),
        },
    }
}

/// What `clean_contents` produces for a file of the given kind and contents.
pub open spec fn clean_matches(out: Seq<u8>, r: CleanReport, kind: Kind, contents: Seq<u8>, opts: CleanOptions) -> bool {
    match kind {
        Kind::Text => {
            &&& r matches CleanReport::Text(s) && clean_stats_match(s, decode_utf8(contents), opts)
            &&& out == encode_utf8(cleaned_text(decode_utf8(contents), opts))
        },
        Kind::Epub => r matches CleanReport::Epub(s) && repack_matches(out, s, contents, opts),
    }
}

/// Clean a file's contents: text must be valid UTF-8 (else `NotUtf8`) and
/// is cleaned with `clean_text`; an EPUB is repacked with
/// `clean_epub_archive`. Returns the cleaned contents and statistics.
pub fn clean_contents(kind: Kind, contents: Vec<u8>, opts: CleanOptions) -> (r: Result<(Vec<u8>, CleanReport), ScrubError>)
    ensures
        kind == Kind::Text ==> (r is Ok <==> valid_utf8(contents@)),
        kind == Kind::Text && !valid_utf8(contents@) ==> r matches Err(ScrubError::NotUtf8),
        kind == Kind::Epub ==> (r is Ok || r matches Err(ScrubError::Epub(_))),
        kind == Kind::Epub ==> (r is Ok <==> repack_succeeds(contents@, opts)),
        r matches Err(ScrubError::Epub(EpubError::NotAnArchive(_))) <==> kind == Kind::Epub
            && !zip_opens(contents@),
        r matches Ok((out, report)) ==> clean_matches(out@, report, kind, contents@, opts),
{
    match kind {
        Kind::Epub => match clean_epub_archive(contents, opts) {
            Ok((bytes, stats)) => Ok((bytes, CleanReport::Epub(stats))),
            Err(e) => Err(ScrubError::Epub(e)),
        },
        Kind::Text => match utf8_text(contents.as_slice()) {
            Some(text) => {
                proof {
                    vstd::utf8::decode_utf8_encode_utf8(contents@);
                    vstd::utf8::encode_utf8_decode_utf8(text@);
                }
                let (cleaned, stats) = clean_text(text, opts);
                let bytes = cleaned.as_str().as_bytes_vec();
                Ok((bytes, CleanReport::Text(stats)))
            },
            None => Err(ScrubError::NotUtf8),
        },
    }
}

/// Cleaned text files are detected clean: when a text file is cleaned
/// without confusable mapping, glue stripping or NFKC, and space
/// homoglyphs and bidi controls are stripped or absent from the cleaned
/// text, detecting the cleaned contents finds no carrier.
pub proof fn lemma_cleaned_text_file_detects_clean(
    contents: Seq<u8>,
    opts: CleanOptions,
    out: Seq<u8>,
    cleaned: CleanReport,
    detected: DetectReport,
)
    requires
        valid_utf8(contents),
        clean_matches(out, cleaned, Kind::Text, contents, opts),
        detect_matches(detected, Kind::Text, out),
        !opts.aggressive_homoglyphs,
        !opts.strip_emoji_glue,
        !opts.nfkc,
        opts.normalize_spaces || no_space_homoglyphs(cleaned_text(decode_utf8(contents), opts)),
        opts.strip_bidi || no_bidi_controls(cleaned_text(decode_utf8(contents), opts)),
    ensures
        detected matches DetectReport::Text(r) && r.suspicious_total == 0,
{
    let s = decode_utf8(contents);
    vstd::utf8::encode_utf8_decode_utf8(cleaned_text(s, opts));
    lemma_cleaned_text_detects_clean(s, opts);
}

} // verus!

//! Exercise the high-level library API the way an embedding Rust program
//! would, on file contents held in memory.

use scrub::api::{cleaned_file_name, kind_of_extension};
use scrub::{clean_contents, cleaned_path, detect_contents, kind_of, CleanOptions, Kind, ScrubError};
use std::io::{Cursor, Write};
use std::path::{Path, PathBuf};
use zip::write::SimpleFileOptions;
use zip::{CompressionMethod, ZipWriter};

fn small_dirty_epub() -> Vec<u8> {
    let mut zw = ZipWriter::new(Cursor::new(Vec::new()));
    let stored = SimpleFileOptions::default().compression_method(CompressionMethod::Stored);
    let deflated = SimpleFileOptions::default().compression_method(CompressionMethod::Deflated);
    zw.start_file("mimetype", stored).unwrap();
    zw.write_all(b"application/epub+zip").unwrap();
    zw.start_file("OEBPS/content.opf", deflated).unwrap();
    zw.write_all(
        "<package><metadata><dc:title>Test\u{00A0}Book</dc:title>\n<meta name=\"generator\" content=\"bookmill\" />\n</metadata></package>"
            .as_bytes(),
    )
    .unwrap();
    zw.start_file("OEBPS/chapter-001.xhtml", deflated).unwrap();
    zw.write_all("<p>zero\u{200B}width</p>".as_bytes()).unwrap();
    zw.finish().unwrap().into_inner()
}

#[test]
fn detect_and_clean_text_file_via_library() {
    let f = Path::new("draft.md");
    let contents = "in\u{200B}visible\u{00A0}mark and \u{202E}override".as_bytes().to_vec();
    assert_eq!(kind_of(f), Kind::Text);

    let before = detect_contents(kind_of(f), contents.clone()).unwrap();
    assert!(!before.is_clean());
    assert!(before.suspicious_total() >= 2);

    let (cleaned, report) = clean_contents(kind_of(f), contents, CleanOptions::default()).unwrap();
    assert!(report.changed());
    assert!(report.removed() >= 1);

    let after = detect_contents(kind_of(f), cleaned.clone()).unwrap();
    assert!(after.is_clean());
    assert_eq!(String::from_utf8(cleaned).unwrap(), "invisible mark and override");
}

#[test]
fn detect_and_clean_epub_via_library() {
    let src = Path::new("book.epub");
    let data = small_dirty_epub();

    assert_eq!(kind_of(src), Kind::Epub);

    let before = detect_contents(kind_of(src), data.clone()).unwrap();
    assert!(!before.is_clean());

    let (cleaned, report) = clean_contents(kind_of(src), data, CleanOptions::default()).unwrap();
    assert!(report.changed());

    let after = detect_contents(kind_of(src), cleaned).unwrap();
    assert!(after.is_clean(), "cleaned EPUB should detect clean");
}

#[test]
fn kind_of_ignores_ascii_case_of_the_extension() {
    assert_eq!(kind_of(Path::new("BOOK.EPUB")), Kind::Epub);
    assert_eq!(kind_of(Path::new("dir/book.ePub")), Kind::Epub);
    assert_eq!(kind_of(Path::new("book.epub.txt")), Kind::Text);
    assert_eq!(kind_of(Path::new("epub")), Kind::Text);
    assert_eq!(kind_of(Path::new("notes")), Kind::Text);
}

#[test]
fn kind_of_extension_classifies_extensions() {
    assert_eq!(kind_of_extension(Some("EpUb")), Kind::Epub);
    assert_eq!(kind_of_extension(Some("epubx")), Kind::Text);
    assert_eq!(kind_of_extension(Some("")), Kind::Text);
    assert_eq!(kind_of_extension(None), Kind::Text);
}

#[test]
fn cleaned_path_inserts_cleaned_before_the_extension() {
    assert_eq!(cleaned_path(Path::new("dir/book.epub")), PathBuf::from("dir/book.cleaned.epub"));
    assert_eq!(cleaned_path(Path::new("notes")), PathBuf::from("notes.cleaned"));
    assert_eq!(cleaned_path(Path::new("a.tar.gz")), PathBuf::from("a.tar.cleaned.gz"));
}

#[test]
fn cleaned_file_name_defaults_the_stem_to_out() {
    assert_eq!(cleaned_file_name(Some("book"), Some("epub")), "book.cleaned.epub");
    assert_eq!(cleaned_file_name(Some("book"), None), "book.cleaned");
    assert_eq!(cleaned_file_name(None, Some("md")), "out.cleaned.md");
    assert_eq!(cleaned_file_name(None, None), "out.cleaned");
}

#[test]
fn text_that_is_not_utf8_is_refused() {
    let bad = vec![b'a', 0xFF, b'b'];
    assert!(matches!(detect_contents(Kind::Text, bad.clone()), Err(ScrubError::NotUtf8)));
    assert!(matches!(
        clean_contents(Kind::Text, bad, CleanOptions::default()),
        Err(ScrubError::NotUtf8)
    ));
}

#[test]
fn an_epub_that_is_not_a_zip_is_refused() {
    let r = detect_contents(Kind::Epub, b"plain text".to_vec());
    assert!(matches!(r, Err(ScrubError::Epub(scrub::epub::EpubError::NotAnArchive(_)))));
}

#[test]
fn report_accessors_follow_the_statistics() {
    let (_, report) =
        clean_contents(Kind::Text, "a\u{200B}b\u{00A0}c\u{2003}d".as_bytes().to_vec(), CleanOptions::default())
            .unwrap();
    assert_eq!(report.removed(), 1);
    assert_eq!(report.replaced(), 2);
    assert!(report.changed());

    let (out, report) =
        clean_contents(Kind::Text, b"nothing to do".to_vec(), CleanOptions::default()).unwrap();
    assert_eq!(out, b"nothing to do".to_vec());
    assert_eq!(report.removed(), 0);
    assert_eq!(report.replaced(), 0);
    assert!(!report.changed());

    let report = detect_contents(Kind::Text, "x\u{FEFF}y".as_bytes().to_vec()).unwrap();
    assert_eq!(report.suspicious_total(), 1);
    assert!(!report.is_clean());
}

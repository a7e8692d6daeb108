//! EPUB container tests: injected carriers/metadata are removed, binary entries
//! pass through byte-identical, and the repack stays OCF-valid (mimetype first
//! and STORED). The archives are built and read in memory.

use scrub::epub::{clean_epub_archive, inspect_epub_archive};
use scrub::unicode::CleanOptions;
use std::io::{Cursor, Read, Write};
use zip::write::SimpleFileOptions;
use zip::{CompressionMethod, ZipArchive, ZipWriter};

/// A real, valid 1x1 PNG.
const PNG_BYTES: &[u8] = &[
    0x89, 0x50, 0x4E, 0x47, 0x0D, 0x0A, 0x1A, 0x0A, 0x00, 0x00, 0x00, 0x0D, 0x49, 0x48, 0x44, 0x52,
    0x00, 0x00, 0x00, 0x01, 0x00, 0x00, 0x00, 0x01, 0x08, 0x06, 0x00, 0x00, 0x00, 0x1F, 0x15, 0xC4,
    0x89, 0x00, 0x00, 0x00, 0x0B, 0x49, 0x44, 0x41, 0x54, 0x78, 0xDA, 0x63, 0xFC, 0xCF, 0xC0, 0x50,
    0x0F, 0x00, 0x04, 0x85, 0x01, 0x80, 0x84, 0xA9, 0x8C, 0x21, 0x00, 0x00, 0x00, 0x00, 0x49, 0x45,
    0x4E, 0x44, 0xAE, 0x42, 0x60, 0x82,
];

/// A spec-valid EPUB seeded with invisible-Unicode carriers and stray
/// generator meta tags, plus a real binary image entry.
fn build_dirty_epub() -> Vec<u8> {
    let mut zw = ZipWriter::new(Cursor::new(Vec::new()));
    let stored = SimpleFileOptions::default().compression_method(CompressionMethod::Stored);
    let deflated = SimpleFileOptions::default().compression_method(CompressionMethod::Deflated);

    zw.start_file("mimetype", stored).unwrap();
    zw.write_all(b"application/epub+zip").unwrap();

    zw.start_file("META-INF/container.xml", deflated).unwrap();
    zw.write_all(
        br#"<?xml version="1.0"?>
<container version="1.0" xmlns="urn:oasis:names:tc:opendocument:xmlns:container">
  <rootfiles><rootfile full-path="OEBPS/content.opf" media-type="application/oebps-package+xml"/></rootfiles>
</container>"#,
    )
    .unwrap();

    zw.start_file("OEBPS/content.opf", deflated).unwrap();
    zw.write_all(
        "<?xml version=\"1.0\" encoding=\"utf-8\"?>
<package xmlns=\"http://www.idpf.org/2007/opf\" version=\"3.0\" unique-identifier=\"bookid\">
  <metadata xmlns:dc=\"http://purl.org/dc/elements/1.1/\">
    <dc:identifier id=\"bookid\">urn:uuid:6f1d1c9e-0d3a-4a3e-9b2e-000000000001</dc:identifier>
    <dc:title>Test\u{00A0}Book</dc:title>
    <dc:language>en</dc:language>
    <meta property=\"dcterms:modified\">2026-01-01T00:00:00Z</meta>
    <meta name=\"generator\" content=\"bookmill\" />
  </metadata>
  <manifest>
    <item id=\"nav\" href=\"nav.xhtml\" media-type=\"application/xhtml+xml\" properties=\"nav\"/>
    <item id=\"ch1\" href=\"chapter-001.xhtml\" media-type=\"application/xhtml+xml\"/>
    <item id=\"img\" href=\"img.png\" media-type=\"image/png\"/>
  </manifest>
  <spine><itemref idref=\"ch1\"/></spine>
</package>"
            .as_bytes(),
    )
    .unwrap();

    zw.start_file("OEBPS/nav.xhtml", deflated).unwrap();
    zw.write_all(
        "<?xml version=\"1.0\" encoding=\"utf-8\"?>
<html xmlns=\"http://www.w3.org/1999/xhtml\" xmlns:epub=\"http://www.idpf.org/2007/ops\">
<head><title>Table of Contents</title><meta charset=\"utf-8\"/><meta name=\"generator\" content=\"bookmill\"/></head>
<body><nav epub:type=\"toc\"><ol><li><a href=\"chapter-001.xhtml\">Chapter\u{00A0}One</a></li></ol></nav></body>
</html>"
            .as_bytes(),
    )
    .unwrap();

    zw.start_file("OEBPS/chapter-001.xhtml", deflated).unwrap();
    zw.write_all(
        "<?xml version=\"1.0\" encoding=\"utf-8\"?>
<html xmlns=\"http://www.w3.org/1999/xhtml\"><head><title>Ch 1</title></head>
<body><h1>Chapter One</h1>
<p>This para\u{200B}graph hides a zero\u{200B}width space and a\u{00A0}no-break space\u{FEFF}.</p>
<p>An emoji family \u{1F468}\u{200D}\u{1F469}\u{200D}\u{1F467} must survive.</p>
</body></html>"
            .as_bytes(),
    )
    .unwrap();

    zw.start_file("OEBPS/img.png", deflated).unwrap();
    zw.write_all(PNG_BYTES).unwrap();

    zw.finish().unwrap().into_inner()
}

fn read_entry(data: &[u8], name: &str) -> Vec<u8> {
    let mut archive = ZipArchive::new(Cursor::new(data.to_vec())).unwrap();
    let mut f = archive.by_name(name).unwrap();
    let mut buf = Vec::new();
    f.read_to_end(&mut buf).unwrap();
    buf
}

#[test]
fn epub_clean_removes_carriers_and_metadata_preserves_binary() {
    let src = build_dirty_epub();

    // Detect BEFORE: carriers + generator meta present.
    let before = inspect_epub_archive(src.clone()).unwrap();
    assert!(before.suspicious_total > 0, "fixture should have carriers");
    assert!(before.generator_meta_total >= 2, "fixture should have generator meta");

    let (dst, stats) = clean_epub_archive(src, CleanOptions::default()).unwrap();
    assert!(stats.removed_chars > 0);
    assert!(stats.generator_meta_removed >= 2);

    // Detect AFTER: fully clean.
    let after = inspect_epub_archive(dst.clone()).unwrap();
    assert_eq!(
        after.suspicious_total,
        0,
        "no carriers may remain: {:?}",
        after.findings.iter().map(|f| &f.entry).collect::<Vec<_>>()
    );
    assert_eq!(after.generator_meta_total, 0, "no generator meta may remain");

    // Zero-width / nbsp gone from chapter; emoji ZWJ family preserved.
    let ch = String::from_utf8(read_entry(&dst, "OEBPS/chapter-001.xhtml")).unwrap();
    assert!(!ch.contains('\u{200B}') && !ch.contains('\u{FEFF}') && !ch.contains('\u{00A0}'));
    assert!(ch.contains("\u{1F468}\u{200D}\u{1F469}\u{200D}\u{1F467}"), "emoji family must survive");

    // OPF no longer carries the generator tag.
    let opf = String::from_utf8(read_entry(&dst, "OEBPS/content.opf")).unwrap();
    assert!(!opf.to_lowercase().contains("name=\"generator\""));
    assert!(opf.contains("<dc:title>Test Book</dc:title>"), "nbsp folded in title");

    // Binary image is byte-identical.
    assert_eq!(read_entry(&dst, "OEBPS/img.png"), PNG_BYTES);
}

#[test]
fn epub_repack_is_ocf_valid_shape() {
    let src = build_dirty_epub();
    let (data, _) = clean_epub_archive(src, CleanOptions::default()).unwrap();

    let mut archive = ZipArchive::new(Cursor::new(data)).unwrap();
    // First entry must be `mimetype` and STORED.
    let first = archive.by_index(0).unwrap();
    assert_eq!(first.name(), "mimetype");
    assert_eq!(first.compression(), CompressionMethod::Stored);
    drop(first);
    let mut mt = archive.by_name("mimetype").unwrap();
    let mut s = String::new();
    mt.read_to_string(&mut s).unwrap();
    assert_eq!(s, "application/epub+zip");
}

#[test]
fn epub_stats_count_entries_and_carriers() {
    let src = build_dirty_epub();
    let (_, stats) = clean_epub_archive(src, CleanOptions::default()).unwrap();
    assert_eq!(stats.entries_total, 6);
    // container.xml, content.opf, nav.xhtml, chapter-001.xhtml
    assert_eq!(stats.entries_text, 4);
    // Two ZWSP and one BOM in the chapter.
    assert_eq!(stats.removed_chars, 3);
    // NBSP in the title, the nav link and the chapter.
    assert_eq!(stats.replaced_chars, 3);
    assert_eq!(stats.generator_meta_removed, 2);
}

#[test]
fn epub_survey_reports_per_entry_findings() {
    let report = inspect_epub_archive(build_dirty_epub()).unwrap();
    assert_eq!(report.entries_scanned, 4);
    assert_eq!(report.suspicious_total, 6);
    assert_eq!(report.generator_meta_total, 2);
    let names: Vec<&str> = report.findings.iter().map(|f| f.entry.as_str()).collect();
    assert_eq!(names, vec!["OEBPS/content.opf", "OEBPS/nav.xhtml", "OEBPS/chapter-001.xhtml"]);
    let chapter = &report.findings[2];
    assert_eq!(chapter.suspicious_total, 4);
    assert_eq!(chapter.generator_meta, 0);
}

#[test]
fn epub_clean_is_stable_on_second_pass() {
    let (once, _) = clean_epub_archive(build_dirty_epub(), CleanOptions::default()).unwrap();
    let (twice, stats) = clean_epub_archive(once.clone(), CleanOptions::default()).unwrap();
    assert_eq!(stats.removed_chars, 0);
    assert_eq!(stats.replaced_chars, 0);
    assert_eq!(stats.generator_meta_removed, 0);
    for name in ["OEBPS/content.opf", "OEBPS/nav.xhtml", "OEBPS/chapter-001.xhtml", "OEBPS/img.png"] {
        assert_eq!(read_entry(&once, name), read_entry(&twice, name));
    }
}

#[test]
fn epub_rejects_bytes_that_are_not_an_archive() {
    let r = inspect_epub_archive(b"definitely not a zip".to_vec());
    assert!(matches!(r, Err(scrub::epub::EpubError::NotAnArchive(_))));
    let r = clean_epub_archive(Vec::new(), CleanOptions::default());
    assert!(matches!(r, Err(scrub::epub::EpubError::NotAnArchive(_))));
}

#[test]
fn epub_mimetype_moves_to_the_front_and_directories_survive() {
    let mut zw = ZipWriter::new(Cursor::new(Vec::new()));
    let deflated = SimpleFileOptions::default().compression_method(CompressionMethod::Deflated);
    zw.add_directory("OEBPS", deflated).unwrap();
    zw.start_file("OEBPS/notes.css", deflated).unwrap();
    zw.write_all("p { content: \"a\u{200B}b\"; }".as_bytes()).unwrap();
    zw.start_file("mimetype", deflated).unwrap();
    zw.write_all(b"application/epub+zip").unwrap();
    zw.start_file("OEBPS/font.bin", deflated).unwrap();
    zw.write_all(&[0xFF, 0xFE, 0x00, 0x80]).unwrap();
    let src = zw.finish().unwrap().into_inner();

    let (out, stats) = clean_epub_archive(src, CleanOptions::default()).unwrap();
    assert_eq!(stats.entries_total, 4);
    assert_eq!(stats.entries_text, 1);
    assert_eq!(stats.removed_chars, 1);

    let mut archive = ZipArchive::new(Cursor::new(out.clone())).unwrap();
    let names: Vec<String> = (0..archive.len())
        .map(|i| archive.by_index(i).unwrap().name().to_string())
        .collect();
    assert_eq!(names, vec!["mimetype", "OEBPS/", "OEBPS/notes.css", "OEBPS/font.bin"]);
    let first = archive.by_index(0).unwrap();
    assert_eq!(first.compression(), CompressionMethod::Stored);
    drop(first);
    assert!(archive.by_index(1).unwrap().is_dir());
    assert_eq!(read_entry(&out, "OEBPS/notes.css"), "p { content: \"ab\"; }".as_bytes());
    assert_eq!(read_entry(&out, "OEBPS/font.bin"), vec![0xFF, 0xFE, 0x00, 0x80]);
}

#[test]
fn epub_text_entry_that_is_not_utf8_passes_through() {
    let mut zw = ZipWriter::new(Cursor::new(Vec::new()));
    let deflated = SimpleFileOptions::default().compression_method(CompressionMethod::Deflated);
    zw.start_file("OEBPS/broken.xhtml", deflated).unwrap();
    zw.write_all(&[b'<', b'p', b'>', 0xC3, b'<']).unwrap();
    let src = zw.finish().unwrap().into_inner();
    let (out, stats) = clean_epub_archive(src.clone(), CleanOptions::default()).unwrap();
    assert_eq!(stats.entries_text, 0);
    assert_eq!(read_entry(&out, "OEBPS/broken.xhtml"), vec![b'<', b'p', b'>', 0xC3, b'<']);
    let report = inspect_epub_archive(src).unwrap();
    assert_eq!(report.entries_scanned, 0);
}

#[test]
fn epub_generator_tags_go_from_every_text_entry() {
    let mut zw = ZipWriter::new(Cursor::new(Vec::new()));
    let deflated = SimpleFileOptions::default().compression_method(CompressionMethod::Deflated);
    zw.start_file("toc.ncx", deflated).unwrap();
    zw.write_all(b"<ncx><head><meta name=\"generator\" content=\"x\"/></head></ncx>").unwrap();
    zw.start_file("OEBPS/Content.OPF", deflated).unwrap();
    zw.write_all(b"<package><meta name='generator'/></package>").unwrap();
    zw.start_file("OEBPS/nested.xhtml", deflated).unwrap();
    zw.write_all(b"<<meta name=\"generator\">meta name=\"generator\">").unwrap();
    let src = zw.finish().unwrap().into_inner();

    let before = inspect_epub_archive(src.clone()).unwrap();
    assert_eq!(before.generator_meta_total, 3);

    let (out, stats) = clean_epub_archive(src, CleanOptions::default()).unwrap();
    assert_eq!(stats.generator_meta_removed, 4);
    assert_eq!(read_entry(&out, "toc.ncx"), b"<ncx><head></head></ncx>".to_vec());
    assert_eq!(read_entry(&out, "OEBPS/Content.OPF"), b"<package></package>".to_vec());
    assert_eq!(read_entry(&out, "OEBPS/nested.xhtml"), Vec::<u8>::new());

    let after = inspect_epub_archive(out).unwrap();
    assert_eq!(after.generator_meta_total, 0);
    assert!(after.findings.is_empty());
}

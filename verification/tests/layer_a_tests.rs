//! Layer A edge cases: what is preserved, what is stripped or folded, the
//! statistics and labels of a clean, and the shape of an inspection report.

use scrub::epub::markup::{is_text_entry, strip_generator_meta};
use scrub::epub::repack::is_dir_entry;
use scrub::unicode::labels::{char_label, codepoint_string};
use scrub::unicode::{clean_text, inspect_text, CleanOptions};

fn clean_default(s: &str) -> String {
    clean_text(s, CleanOptions::default()).0
}

fn with(f: impl Fn(&mut CleanOptions)) -> CleanOptions {
    let mut o = CleanOptions::default();
    f(&mut o);
    o
}

#[test]
fn default_options_fold_spaces_and_nothing_else() {
    let o = CleanOptions::default();
    assert!(!o.nfkc);
    assert!(!o.aggressive_homoglyphs);
    assert!(o.normalize_spaces);
    assert!(!o.strip_emoji_glue);
    assert!(!o.strip_bidi);
}

#[test]
fn complete_subdivision_flag_survives_but_stray_tags_go() {
    let england = "\u{1F3F4}\u{E0067}\u{E0062}\u{E0065}\u{E006E}\u{E0067}\u{E007F}";
    assert_eq!(clean_default(england), england);
    // Tag characters without a closing CANCEL TAG are not a flag.
    assert_eq!(clean_default("\u{1F3F4}\u{E0067}\u{E0062}x"), "\u{1F3F4}x");
    assert_eq!(clean_default("a\u{E0041}b"), "ab");
    // A lone cancel tag after the black flag is not a flag either.
    assert_eq!(clean_default("\u{1F3F4}\u{E007F}"), "\u{1F3F4}");
}

#[test]
fn paired_embeddings_survive_but_override_pairs_do_not() {
    assert_eq!(clean_default("a\u{202B}b\u{202C}c"), "a\u{202B}b\u{202C}c");
    assert_eq!(clean_default("a\u{202D}b\u{202C}c"), "abc");
    // Unterminated embedding is stripped.
    assert_eq!(clean_default("a\u{202A}b"), "ab");
    // strip_bidi removes even paired embeddings and the marks.
    let o = with(|o| o.strip_bidi = true);
    assert_eq!(clean_text("a\u{202A}b\u{202C}c\u{200E}", o).0, "abc");
    // Directional marks and isolates are kept by default.
    assert_eq!(clean_default("a\u{200E}b\u{2067}c\u{2069}"), "a\u{200E}b\u{2067}c\u{2069}");
}

#[test]
fn ideographic_variation_selectors_stay_after_cjk() {
    assert_eq!(clean_default("\u{845B}\u{E0100}"), "\u{845B}\u{E0100}");
    assert_eq!(clean_default("\u{845B}\u{FE00}"), "\u{845B}\u{FE00}");
    assert_eq!(clean_default("a\u{E0100}"), "a");
    let o = with(|o| o.strip_emoji_glue = true);
    assert_eq!(clean_text("\u{845B}\u{E0100}", o).0, "\u{845B}");
}

#[test]
fn mongolian_selector_stays_after_a_mongolian_letter() {
    assert_eq!(clean_default("\u{1820}\u{180B}"), "\u{1820}\u{180B}");
    assert_eq!(clean_default("a\u{180B}"), "a");
}

#[test]
fn script_joiners_stay_inside_one_joining_script() {
    // Arabic: ZWNJ between two Arabic letters.
    assert_eq!(clean_default("\u{0644}\u{200C}\u{0627}"), "\u{0644}\u{200C}\u{0627}");
    // Devanagari: virama + ZWJ + letter.
    assert_eq!(clean_default("\u{0915}\u{094D}\u{200D}\u{0937}"), "\u{0915}\u{094D}\u{200D}\u{0937}");
    // Latin letters do not join.
    assert_eq!(clean_default("a\u{200C}b"), "ab");
    // Different scripts on either side.
    assert_eq!(clean_default("\u{0644}\u{200C}\u{0915}"), "\u{0644}\u{0915}");
}

#[test]
fn khmer_and_hangul_fillers_stay_after_their_script() {
    assert_eq!(clean_default("\u{1780}\u{17B4}"), "\u{1780}\u{17B4}");
    assert_eq!(clean_default("a\u{17B4}"), "a");
    assert_eq!(clean_default("\u{1100}\u{1160}"), "\u{1100}\u{1160}");
    assert_eq!(clean_default("a\u{1160}"), "a");
}

#[test]
fn orthographic_format_marks_are_kept_and_other_formats_stripped() {
    assert_eq!(clean_default("\u{0600}\u{0661}"), "\u{0600}\u{0661}");
    let (out, stats) = clean_text("a\u{1D173}b", CleanOptions::default());
    assert_eq!(out, "ab");
    assert_eq!(stats.removed, vec![("U+1D173 (Format)".to_string(), 1)]);
}

#[test]
fn private_use_and_interlinear_annotations_are_stripped() {
    assert_eq!(clean_default("a\u{E000}b\u{F0000}c\u{FFF9}d"), "abcd");
}

#[test]
fn emoji_glue_can_be_stripped_on_request() {
    let o = with(|o| o.strip_emoji_glue = true);
    assert_eq!(
        clean_text("\u{1F468}\u{200D}\u{1F469}\u{200D}\u{1F467}", o).0,
        "\u{1F468}\u{1F469}\u{1F467}"
    );
    assert_eq!(clean_text("\u{2764}\u{FE0F}", o).0, "\u{2764}");
    // A selector after a non-emoji is stray even by default.
    assert_eq!(clean_default("a\u{FE0F}"), "a");
    // A ZWJ needs an emoji on both sides.
    assert_eq!(clean_default("\u{1F468}\u{200D}a"), "\u{1F468}a");
}

#[test]
fn keycap_sequence_keeps_its_selector() {
    assert_eq!(clean_default("1\u{FE0F}\u{20E3}"), "1\u{FE0F}\u{20E3}");
}

#[test]
fn confusables_fold_with_spaces_off() {
    let o = with(|o| {
        o.aggressive_homoglyphs = true;
        o.normalize_spaces = false;
    });
    let (out, stats) = clean_text("\u{0410}\u{00A0}\u{FF5A}", o);
    assert_eq!(out, "A\u{00A0}z");
    assert_eq!(stats.replaced_count, 2);
}

#[test]
fn nfkc_runs_after_the_pass_when_asked() {
    let o = with(|o| o.nfkc = true);
    let (out, stats) = clean_text("\u{FB01}ne\u{200B}", o);
    assert_eq!(out, "fine");
    assert!(stats.nfkc_changed);
    assert_eq!(stats.output_length, 4);
    let (out, stats) = clean_text("plain", o);
    assert_eq!(out, "plain");
    assert!(!stats.nfkc_changed);
    // Without nfkc the ligature stays.
    assert_eq!(clean_default("\u{FB01}"), "\u{FB01}");
}

#[test]
fn statistics_count_and_label_in_label_order() {
    let (out, stats) = clean_text("a\u{FEFF}b\u{200B}c\u{FEFF}d\u{00A0}e", CleanOptions::default());
    assert_eq!(out, "abcd e");
    assert_eq!(stats.input_length, 9);
    assert_eq!(stats.output_length, 6);
    assert_eq!(stats.removed_count, 3);
    assert_eq!(stats.replaced_count, 1);
    assert!(!stats.nfkc_changed);
    assert_eq!(
        stats.removed,
        vec![("U+200B (Format)".to_string(), 1), ("U+FEFF (Format)".to_string(), 2)]
    );
    assert_eq!(stats.replaced, vec![("U+00A0 (SpaceSeparator)".to_string(), 1)]);
}

#[test]
fn labels_are_ordered_as_strings() {
    // "U+E0001 ..." sorts after "U+E000 (" because ' ' < '1', and a
    // five-digit label starting with 1 sorts before "U+FEFF".
    let (_, stats) = clean_text("\u{FEFF}\u{E0001}\u{E000}\u{10FFFD}", CleanOptions::default());
    let labels: Vec<&str> = stats.removed.iter().map(|(l, _)| l.as_str()).collect();
    assert_eq!(
        labels,
        vec!["U+10FFFD (PrivateUse)", "U+E000 (PrivateUse)", "U+E0001 (Format)", "U+FEFF (Format)"]
    );
}

#[test]
fn labels_use_four_or_more_hex_digits() {
    assert_eq!(codepoint_string('\u{AD}'), "U+00AD");
    assert_eq!(codepoint_string('\u{E0100}'), "U+E0100");
    assert_eq!(codepoint_string('\u{10FFFD}'), "U+10FFFD");
    assert_eq!(char_label('\u{200B}'), "U+200B (Format)");
    assert_eq!(char_label('\u{3000}'), "U+3000 (SpaceSeparator)");
    assert_eq!(char_label('\u{E000}'), "U+E000 (PrivateUse)");
}

#[test]
fn inspection_orders_hits_by_count_then_code_point() {
    let rep = inspect_text("\u{200B}x\u{FEFF}\u{FEFF}", false, false);
    assert_eq!(rep.length, 4);
    assert_eq!(rep.suspicious_total, 3);
    assert_eq!(rep.hits.len(), 2);
    assert_eq!(rep.hits[0].codepoint, "U+FEFF");
    assert_eq!(rep.hits[0].count, 2);
    assert_eq!(rep.hits[0].sample_offsets, vec![2, 3]);
    assert_eq!(rep.hits[1].codepoint, "U+200B");
    assert_eq!(rep.hits[1].sample_offsets, vec![0]);

    let tie = inspect_text("\u{FEFF}\u{200B}", false, false);
    assert_eq!(tie.hits[0].codepoint, "U+200B");
    assert_eq!(tie.hits[1].codepoint, "U+FEFF");
}

#[test]
fn inspection_keeps_at_most_ten_sample_offsets() {
    let text = "\u{200B}".repeat(12);
    let rep = inspect_text(&text, false, false);
    assert_eq!(rep.suspicious_total, 12);
    assert_eq!(rep.hits.len(), 1);
    assert_eq!(rep.hits[0].count, 12);
    assert_eq!(rep.hits[0].sample_offsets, (0..10).collect::<Vec<usize>>());
}

#[test]
fn inspection_names_kinds_and_confidence() {
    let rep = inspect_text("\u{200B}\u{202E}\u{00A0}a\u{FE0F}\u{E0041}\u{E000}\u{00AD}\u{1D173}", false, false);
    let kind = |cp: &str| {
        let h = rep.hits.iter().find(|h| h.codepoint == cp).unwrap();
        (h.kind.clone(), h.confidence.clone())
    };
    assert_eq!(kind("U+200B"), ("zwj_family".to_string(), "probable".to_string()));
    assert_eq!(kind("U+202E"), ("bidi".to_string(), "probable".to_string()));
    assert_eq!(kind("U+00A0"), ("space".to_string(), "informational".to_string()));
    assert_eq!(kind("U+FE0F"), ("variation_selector".to_string(), "probable".to_string()));
    assert_eq!(kind("U+E0041"), ("tag_chars".to_string(), "probable".to_string()));
    assert_eq!(kind("U+E000"), ("private_use".to_string(), "probable".to_string()));
    assert_eq!(kind("U+00AD"), ("strip".to_string(), "probable".to_string()));
    assert_eq!(kind("U+1D173"), ("other_cf".to_string(), "probable".to_string()));
    assert_eq!(rep.suspicious_total, 8);
}

#[test]
fn inspection_reports_paired_bidi_and_confusables_when_asked() {
    // Inspection always reports bidi controls, paired or not.
    assert_eq!(inspect_text("a\u{202A}b\u{202C}c", false, false).suspicious_total, 2);
    assert_eq!(inspect_text("\u{0430}", false, false).suspicious_total, 0);
    let rep = inspect_text("\u{0430}", true, false);
    assert_eq!(rep.suspicious_total, 1);
    assert_eq!(rep.hits[0].kind, "confusable");
    // Emoji glue is reported only when it would be stripped.
    let family = "\u{1F468}\u{200D}\u{1F469}";
    assert_eq!(inspect_text(family, false, false).suspicious_total, 0);
    assert_eq!(inspect_text(family, false, true).suspicious_total, 1);
}

#[test]
fn detection_count_equals_cleaning_count() {
    let samples = [
        "a\u{200B}b\u{00A0}c\u{202E}d",
        "\u{1F468}\u{200D}\u{1F469}\u{FEFF}",
        "\u{0430}\u{2003}\u{E0041}",
        "nothing here",
    ];
    for s in samples {
        for aggressive in [false, true] {
            for glue in [false, true] {
                let o = with(|o| {
                    o.aggressive_homoglyphs = aggressive;
                    o.strip_emoji_glue = glue;
                    o.strip_bidi = true;
                });
                let (_, stats) = clean_text(s, o);
                let rep = inspect_text(s, aggressive, glue);
                assert_eq!(rep.suspicious_total, stats.removed_count + stats.replaced_count);
            }
        }
    }
}

#[test]
fn cleaning_twice_changes_nothing_more() {
    let samples = [
        "in\u{200B}visible\u{FEFF} text\u{00A0}here\u{202E}!",
        "\u{0644}\u{200C}\u{0627} \u{1F3F4}\u{E0067}\u{E0062}\u{E0073}\u{E0063}\u{E0074}\u{E007F}",
        "a\u{202A}b\u{202C}c \u{845B}\u{E0100} \u{1780}\u{17B4}",
    ];
    for s in samples {
        let (once, _) = clean_text(s, CleanOptions::default());
        let (twice, stats) = clean_text(&once, CleanOptions::default());
        assert_eq!(once, twice);
        assert_eq!(stats.removed_count, 0);
        assert_eq!(stats.replaced_count, 0);
    }
}

#[test]
fn selectors_and_joiners_next_to_carriers_are_not_kept() {
    // A selector after another selector has no settled base: both go, and
    // a second clean changes nothing.
    assert_eq!(clean_default("\u{180B}\u{180B}"), "");
    // After a Mongolian letter the second selector still follows a kept letter.
    assert_eq!(clean_default("\u{1820}\u{180B}\u{180B}"), "\u{1820}\u{180B}\u{180B}");
    // A joiner next to a stripped Khmer vowel is stripped with it.
    let once = clean_default("\u{1780}\u{17CB}\u{17B4}\u{200C}\u{1780}");
    assert_eq!(once, "\u{1780}\u{17CB}\u{1780}");
    assert_eq!(clean_default(&once), once);
}

#[test]
fn joiners_and_selectors_next_to_kept_invisibles_stay() {
    // A Khmer vowel kept after a Khmer letter is a kept neighbour of the joiner.
    let khmer = "\u{1780}\u{17B4}\u{200C}\u{1780}";
    assert_eq!(clean_default(khmer), khmer);
    // A selector after a kept selector of a Mongolian base stays too.
    let mongolian = "\u{1800}\u{180B}\u{180B}";
    assert_eq!(clean_default(mongolian), mongolian);
    assert_eq!(clean_default(&clean_default(mongolian)), mongolian);
}

#[test]
fn cleaned_text_inspects_clean() {
    let dirty = "x\u{200B}\u{FEFF}y\u{2003}z\u{E0001}\u{202D}";
    let (cleaned, _) = clean_text(dirty, CleanOptions::default());
    assert_eq!(inspect_text(&cleaned, false, false).suspicious_total, 0);
}

#[test]
fn empty_text() {
    let (out, stats) = clean_text("", CleanOptions::default());
    assert_eq!(out, "");
    assert_eq!(stats.input_length, 0);
    assert_eq!(stats.output_length, 0);
    assert!(stats.removed.is_empty());
    let rep = inspect_text("", false, false);
    assert_eq!(rep.length, 0);
    assert!(rep.hits.is_empty());
}

#[test]
fn generator_meta_tags_are_removed_case_insensitively() {
    let (out, n) = strip_generator_meta(
        "<head><META NAME=\"Generator\" content=\"x\">\n<title>t</title><meta name='generator'/></head>",
    );
    assert_eq!(out, "<head><title>t</title></head>");
    assert_eq!(n, 2);
    // Other meta tags and unterminated tags stay.
    let (out, n) = strip_generator_meta("<meta charset=\"utf-8\"><meta name=\"generator\"");
    assert_eq!(out, "<meta charset=\"utf-8\"><meta name=\"generator\"");
    assert_eq!(n, 0);
}

#[test]
fn text_entries_are_recognised_by_extension() {
    assert!(is_text_entry("OEBPS/Chapter.XHTML"));
    assert!(is_text_entry("toc.ncx"));
    assert!(is_text_entry("README.md"));
    assert!(!is_text_entry("OEBPS/img.png"));
    assert!(!is_text_entry("xhtml"));
    assert!(is_dir_entry(&"OEBPS/".to_string()));
    assert!(is_dir_entry(&"OEBPS\\".to_string()));
    assert!(!is_dir_entry(&"OEBPS".to_string()));
}

#[test]
fn inspection_hits_match_cleaning_tallies_label_by_label() {
    let text = "a\u{200B}b\u{200B}\u{00A0}c\u{202E}\u{FEFF}\u{00A0}\u{00A0}";
    let o = with(|o| o.strip_bidi = true);
    let (_, stats) = clean_text(text, o);
    let rep = inspect_text(text, false, false);
    assert_eq!(rep.length, stats.input_length);
    assert_eq!(rep.suspicious_total, stats.removed_count + stats.replaced_count);
    for h in &rep.hits {
        let tallied: usize = stats
            .removed
            .iter()
            .chain(stats.replaced.iter())
            .filter(|(l, _)| l.starts_with(&format!("{} (", h.codepoint)))
            .map(|(_, n)| *n)
            .sum();
        assert_eq!(h.count, tallied, "{}", h.codepoint);
    }
    assert_eq!(rep.hits.len(), stats.removed.len() + stats.replaced.len());
}

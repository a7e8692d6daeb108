//! Laws of the EPUB repack, proved over the plan that `clean_epub_archive`
//! follows.

use super::detect::{
    entry_carriers, entry_generator_tags, entry_survey_ok, finding_matches, reported_entry,
    reported_indices, scanned_entry,
    survey_matches, survey_succeeds, survey_totals, EpubInspectReport,
};
use super::markup::{lemma_strip_all_bounds, strip_all_generator_meta_spec, text_entry_name};
use crate::text::{ascii_lower, has_suffix};
use crate::unicode::clean::cleaned_text;
use vstd::utf8::encode_utf8;
use super::repack::{
    archive_readable, indices_named_mimetype, is_dir_name, repack_matches, repack_order,
    repack_plans, repack_totals, repack_written, entry_fixpoint, plan_entry, plain_options, EntryPlan,
    EpubCleanStats,
};
use super::archive::zip_contents;
use crate::unicode::clean::lemma_scan_sizes;
use crate::unicode::decide::CleanOptions;
use crate::unicode::scan::layer_a;
use vstd::prelude::*;
use vstd::utf8::{decode_utf8, valid_utf8};
use crate::unicode::inspect::inspect_options;
use crate::unicode::laws::{lemma_cleaned_text_detects_clean, no_bidi_controls, no_space_homoglyphs};

verus! {

/// The indices of one group are ascending, below `n`, and hold exactly the
/// entries of that group; the two groups together have `n` indices.
proof fn lemma_group_shape(entries: Seq<(Seq<char>, Seq<u8>)>, n: nat, mimetype: bool)
    requires
        n <= entries.len(),
    ensures
        forall|a: int, b: int|
            0 <= a < b < indices_named_mimetype(entries, n, mimetype).len() ==> #[trigger] indices_named_mimetype(
                entries,
                n,
                mimetype,
            )[a] < #[trigger] indices_named_mimetype(entries, n, mimetype)[b],
        forall|k: int|
            0 <= k < indices_named_mimetype(entries, n, mimetype).len() ==> 0 <= #[trigger] indices_named_mimetype(
                entries,
                n,
                mimetype,
            )[k] < n,
        forall|i: int|
            0 <= i < n ==> (#[trigger] indices_named_mimetype(entries, n, mimetype).contains(i) <==> ((
            entries[i].0 == "mimetype"@) == mimetype)),
        indices_named_mimetype(entries, n, true).len() + indices_named_mimetype(entries, n, false).len()
            == n,
    decreases n,
{
    if n > 0 {
        lemma_group_shape(entries, (n - 1) as nat, mimetype);
        lemma_group_shape(entries, (n - 1) as nat, !mimetype);
        let before = indices_named_mimetype(entries, (n - 1) as nat, mimetype);
        let now = indices_named_mimetype(entries, n, mimetype);
        assert forall|i: int| 0 <= i < n implies (#[trigger] now.contains(i) <==> ((entries[i].0
            == "mimetype"@) == mimetype)) by {
            if i < n - 1 {
                if before.contains(i) {
                    let k = choose|k: int| 0 <= k < before.len() && before[k] == i;
                    assert(now[k] == i);
                }
                if now.contains(i) {
                    let k = choose|k: int| 0 <= k < now.len() && now[k] == i;
                    if k < before.len() {
                        assert(before[k] == i);
                    }
                }
            } else {
                if (entries[i].0 == "mimetype"@) == mimetype {
                    assert(now.last() == i);
                } else if now.contains(i) {
                    let k = choose|k: int| 0 <= k < now.len() && now[k] == i;
                    assert(before[k] == i);
                }
            }
        }
    }
}

/// Every entry is written exactly once: the write order is a permutation of
/// the archive's entry indices.
pub proof fn lemma_repack_writes_every_entry_once(entries: Seq<(Seq<char>, Seq<u8>)>)
    ensures
        repack_order(entries).len() == entries.len(),
        repack_order(entries).no_duplicates(),
        forall|k: int|
            0 <= k < repack_order(entries).len() ==> 0 <= #[trigger] repack_order(entries)[k]
                < entries.len(),
        forall|i: int| 0 <= i < entries.len() ==> #[trigger] repack_order(entries).contains(i),
{
    let n = entries.len();
    let a = indices_named_mimetype(entries, n, true);
    let b = indices_named_mimetype(entries, n, false);
    lemma_group_shape(entries, n, true);
    lemma_group_shape(entries, n, false);
    let order = repack_order(entries);
    assert(order == a + b);
    assert forall|x: int, y: int| 0 <= x < y < order.len() implies order[x] != order[y] by {
        if y < a.len() {
            assert(a[x] < a[y]);
        } else if x >= a.len() {
            assert(b[x - a.len()] < b[y - a.len()]);
        } else {
            assert(a.contains(order[x]));
            assert(b.contains(order[y]));
        }
    }
    assert forall|i: int| 0 <= i < n implies #[trigger] order.contains(i) by {
        if entries[i].0 == "mimetype"@ {
            assert(a.contains(i));
            let k = choose|k: int| 0 <= k < a.len() && a[k] == i;
            assert(order[k] == i);
        } else {
            assert(b.contains(i));
            let k = choose|k: int| 0 <= k < b.len() && b[k] == i;
            assert(order[a.len() + k] == i);
        }
    }
    assert forall|k: int| 0 <= k < order.len() implies 0 <= #[trigger] order[k] < n by {
        if k >= a.len() {
            assert(order[k] == b[k - a.len()]);
        }
    }
}

/// The OCF shape is kept: when the archive has an entry named `mimetype`,
/// the repacked archive starts with it, stored (uncompressed), with its
/// content unchanged.
pub proof fn lemma_mimetype_first_and_stored(
    entries: Seq<(Seq<char>, Seq<u8>)>,
    i: int,
    opts: CleanOptions,
)
    requires
        0 <= i < entries.len(),
        entries[i].0 == "mimetype"@,
    ensures
        repack_plans(entries, opts).len() > 0,
        entries[repack_order(entries)[0]].0 == "mimetype"@,
        repack_plans(entries, opts)[0].written == ("mimetype"@, true, false, entries[repack_order(
            entries,
        )[0]].1),
{
    let n = entries.len();
    let a = indices_named_mimetype(entries, n, true);
    lemma_group_shape(entries, n, true);
    lemma_repack_writes_every_entry_once(entries);
    assert(a.contains(i));
    assert(a.len() > 0);
    let order = repack_order(entries);
    assert(order[0] == a[0]);
    assert(a.contains(a[0]));
    reveal_strlit("mimetype");
    assert(!is_dir_name("mimetype"@));
}

/// Binary entries pass through byte-identical: an entry that is not a
/// directory, not `mimetype`, and not a text entry with valid UTF-8
/// content is written under its own name, deflated, with its content
/// unchanged.
pub proof fn lemma_binary_entries_unchanged(entries: Seq<(Seq<char>, Seq<u8>)>, k: int, opts: CleanOptions)
    requires
        0 <= k < entries.len(),
        !is_dir_name(entries[repack_order(entries)[k]].0),
        entries[repack_order(entries)[k]].0 != "mimetype"@,
        !(text_entry_name(entries[repack_order(entries)[k]].0) && valid_utf8(
            entries[repack_order(entries)[k]].1,
        )),
    ensures
        repack_plans(entries, opts)[k].written == (
            entries[repack_order(entries)[k]].0,
            false,
            false,
            entries[repack_order(entries)[k]].1,
        ),
{
    lemma_repack_writes_every_entry_once(entries);
}

proof fn lemma_totals_count(plans: Seq<EntryPlan>, k: nat)
    requires
        k <= plans.len(),
    ensures
        repack_totals(plans, k).0 == k,
        repack_totals(plans, k).1 <= k,
    decreases k,
{
    if k > 0 {
        lemma_totals_count(plans, (k - 1) as nat);
    }
}

/// The statistics of a repack count every entry of the archive once.
pub proof fn lemma_repack_counts_every_entry(
    bytes: Seq<u8>,
    stats: EpubCleanStats,
    data: Seq<u8>,
    opts: CleanOptions,
)
    requires
        repack_matches(bytes, stats, data, opts),
    ensures
        stats.entries_total == zip_contents(data).len(),
        stats.entries_text <= stats.entries_total,
{
    let entries = zip_contents(data);
    let plans = repack_plans(entries, opts);
    lemma_repack_writes_every_entry_once(entries);
    lemma_totals_count(plans, plans.len());
}

/// No stray generator meta tag is left: every text entry the repack writes
/// holds no `<meta name="generator">` tag, counted as the survey counts them.
pub proof fn lemma_written_text_entries_have_no_generator_meta(
    entries: Seq<(Seq<char>, Seq<u8>)>,
    k: int,
    opts: CleanOptions,
)
    requires
        0 <= k < repack_plans(entries, opts).len(),
        repack_plans(entries, opts)[k].text,
    ensures
        entry_generator_tags(repack_plans(entries, opts)[k].written.3) == 0,
{
    lemma_repack_writes_every_entry_once(entries);
    let i = repack_order(entries)[k];
    let text = vstd::utf8::decode_utf8(entries[i].1);
    let cleaned = crate::unicode::clean::cleaned_text(text, opts);
    let finished = entry_fixpoint(cleaned, opts);
    vstd::utf8::encode_utf8_decode_utf8(finished.0);
    lemma_fixpoint_leaves_no_generator_meta(cleaned, opts);
}

/// A finished text entry holds no generator meta tag.
proof fn lemma_fixpoint_leaves_no_generator_meta(x: Seq<char>, opts: CleanOptions)
    ensures
        super::markup::strip_generator_meta_spec(entry_fixpoint(x, opts).0).1 == 0,
    decreases x.len(),
{
    let g = super::markup::strip_all_generator_meta_spec(x);
    lemma_strip_all_bounds(x);
    if g.1 != 0 {
        lemma_scan_sizes(g.0, g.0.len(), plain_options(opts));
        lemma_fixpoint_leaves_no_generator_meta(layer_a(g.0, plain_options(opts)).out, opts);
    } else {
        let once = super::markup::strip_generator_meta_spec(x);
        assert(once.1 == 0);
    }
}

proof fn lemma_suffix_last(s: Seq<char>, x: Seq<char>)
    requires
        x.len() > 0,
        crate::text::has_suffix(s, x),
    ensures
        s.len() > 0 && s.last() == x.last(),
{
    let k = s.len() - x.len();
    assert(s.subrange(k, k + x.len())[x.len() - 1] == s[s.len() - 1]);
}

/// `mimetype` is not a text entry name.
proof fn lemma_mimetype_not_text()
    ensures
        !text_entry_name("mimetype"@),
{
    reveal_strlit("mimetype");
    reveal_strlit(".xhtml");
    reveal_strlit(".html");
    reveal_strlit(".htm");
    reveal_strlit(".opf");
    reveal_strlit(".ncx");
    reveal_strlit(".xml");
    reveal_strlit(".css");
    reveal_strlit(".svg");
    reveal_strlit(".txt");
    reveal_strlit(".md");
    let lower = crate::text::ascii_lower("mimetype"@);
    assert(lower.last() == 'e');
    let suffixes = seq![".xhtml"@, ".html"@, ".htm"@, ".opf"@, ".ncx"@, ".xml"@, ".css"@, ".svg"@, ".txt"@, ".md"@];
    assert forall|k: int| 0 <= k < suffixes.len() implies !crate::text::has_suffix(lower, #[trigger] suffixes[k]) by {
        if crate::text::has_suffix(lower, suffixes[k]) {
            lemma_suffix_last(lower, suffixes[k]);
        }
    }
    assert(!crate::text::has_suffix(lower, suffixes[0]));
    assert(!crate::text::has_suffix(lower, suffixes[1]));
    assert(!crate::text::has_suffix(lower, suffixes[2]));
    assert(!crate::text::has_suffix(lower, suffixes[3]));
    assert(!crate::text::has_suffix(lower, suffixes[4]));
    assert(!crate::text::has_suffix(lower, suffixes[5]));
    assert(!crate::text::has_suffix(lower, suffixes[6]));
    assert(!crate::text::has_suffix(lower, suffixes[7]));
    assert(!crate::text::has_suffix(lower, suffixes[8]));
    assert(!crate::text::has_suffix(lower, suffixes[9]));
}

/// An entry a repack writes that a survey scans holds no generator meta tag.
proof fn lemma_written_entry_has_no_generator_meta(data: Seq<u8>, opts: CleanOptions, k: int)
    requires
        0 <= k < repack_written(data, opts).len(),
        scanned_entry(repack_written(data, opts)[k].0, repack_written(data, opts)[k].1),
    ensures
        entry_generator_tags(repack_written(data, opts)[k].1) == 0,
{
    let entries = zip_contents(data);
    let plans = repack_plans(entries, opts);
    lemma_repack_writes_every_entry_once(entries);
    let i = repack_order(entries)[k];
    let name = entries[i].0;
    if plans[k].text {
        lemma_written_text_entries_have_no_generator_meta(entries, k, opts);
    } else if is_dir_name(name) {
        assert(is_dir_name(plans[k].written.0));
    } else if name == "mimetype"@ {
        lemma_mimetype_not_text();
    }
}

proof fn lemma_cleaned_totals(data: Seq<u8>, opts: CleanOptions, n: nat)
    requires
        n <= repack_written(data, opts).len(),
    ensures
        survey_totals(repack_written(data, opts), n).2 == 0,
        forall|k: int|
            0 <= k < reported_indices(repack_written(data, opts), n).len() ==> entry_generator_tags(
                repack_written(data, opts)[#[trigger] reported_indices(repack_written(data, opts), n)[k]].1,
            ) == 0,
        forall|k: int|
            0 <= k < reported_indices(repack_written(data, opts), n).len() ==> 0 <= #[trigger] reported_indices(
                repack_written(data, opts),
                n,
            )[k] < n,
    decreases n,
{
    if n > 0 {
        let w = repack_written(data, opts);
        lemma_cleaned_totals(data, opts, (n - 1) as nat);
        if scanned_entry(w[n - 1].0, w[n - 1].1) {
            lemma_written_entry_has_no_generator_meta(data, opts, n - 1);
        }
        let before = reported_indices(w, (n - 1) as nat);
        let now = reported_indices(w, n);
        assert forall|k: int| 0 <= k < now.len() implies 0 <= #[trigger] now[k] < n
            && entry_generator_tags(w[now[k]].1) == 0 by {
            if k < before.len() {
                assert(now[k] == before[k]);
            }
        }
    }
}

/// A cleaned EPUB surveys clean of generator meta tags: when cleaning
/// returns bytes, surveying them succeeds, reports no generator meta tag,
/// and no finding holds one.
pub proof fn lemma_cleaned_epub_survey_has_no_generator_meta(
    data: Seq<u8>,
    opts: CleanOptions,
    bytes: Seq<u8>,
    report: EpubInspectReport,
)
    requires
        archive_readable(bytes),
        zip_contents(bytes) == repack_written(data, opts),
        survey_matches(report, bytes),
    ensures
        survey_succeeds(bytes),
        report.generator_meta_total == 0,
        forall|k: int| 0 <= k < report.findings@.len() ==> (#[trigger] report.findings@[k]).generator_meta == 0,
{
    let w = repack_written(data, opts);
    assert forall|i: int| 0 <= i < zip_contents(bytes).len() implies #[trigger] entry_survey_ok(bytes, i) by {}
    lemma_cleaned_totals(data, opts, w.len());
    assert forall|k: int| 0 <= k < report.findings@.len() implies (#[trigger] report.findings@[k]).generator_meta == 0 by {
        let j = reported_indices(w, w.len())[k];
        assert(entry_generator_tags(w[j].1) == 0);
    }
}

/// Without NFKC normalisation a finished text entry is the output of a pass
/// of the cleaner over some text.
proof fn lemma_fixpoint_is_a_pass(x: Seq<char>, s0: Seq<char>, opts: CleanOptions) -> (s2: Seq<char>)
    requires
        !opts.nfkc,
        x == layer_a(s0, opts).out,
    ensures
        entry_fixpoint(x, opts).0 == layer_a(s2, opts).out,
    decreases x.len(),
{
    let g = super::markup::strip_all_generator_meta_spec(x);
    lemma_strip_all_bounds(x);
    if g.1 != 0 {
        assert(plain_options(opts) == opts);
        lemma_scan_sizes(g.0, g.0.len(), opts);
        lemma_fixpoint_is_a_pass(layer_a(g.0, opts).out, g.0, opts)
    } else {
        s0
    }
}

/// The conditions under which cleaned text is detected clean hold of the
/// text entries a repack writes: each has its space homoglyphs folded or
/// holds none, and its bidi controls stripped or holds none.
pub open spec fn written_text_settles(data: Seq<u8>, opts: CleanOptions) -> bool {
    let w = repack_written(data, opts);
    forall|k: int|
        0 <= k < w.len() && #[trigger] scanned_entry(w[k].0, w[k].1) ==> {
            &&& opts.normalize_spaces || no_space_homoglyphs(decode_utf8(w[k].1))
            &&& opts.strip_bidi || no_bidi_controls(decode_utf8(w[k].1))
        }
}

/// An entry a repack writes that a survey scans holds no carrier, when
/// cleaning without confusable mapping, glue stripping or NFKC.
proof fn lemma_written_entry_has_no_carriers(data: Seq<u8>, opts: CleanOptions, k: int)
    requires
        0 <= k < repack_written(data, opts).len(),
        scanned_entry(repack_written(data, opts)[k].0, repack_written(data, opts)[k].1),
        !opts.nfkc,
        !opts.aggressive_homoglyphs,
        !opts.strip_emoji_glue,
        written_text_settles(data, opts),
    ensures
        entry_carriers(repack_written(data, opts)[k].1) == 0,
{
    let entries = zip_contents(data);
    let plans = repack_plans(entries, opts);
    let w = repack_written(data, opts);
    lemma_repack_writes_every_entry_once(entries);
    let i = repack_order(entries)[k];
    let name = entries[i].0;
    assert(scanned_entry(w[k].0, w[k].1));
    if plans[k].text {
        let text = decode_utf8(entries[i].1);
        let cleaned = crate::unicode::clean::cleaned_text(text, opts);
        let s2 = lemma_fixpoint_is_a_pass(cleaned, text, opts);
        let finished = entry_fixpoint(cleaned, opts);
        vstd::utf8::encode_utf8_decode_utf8(finished.0);
        assert(decode_utf8(w[k].1) == finished.0);
        assert(crate::unicode::clean::cleaned_text(s2, opts) == finished.0);
        lemma_cleaned_text_detects_clean(s2, opts);
        assert(inspect_options(opts.aggressive_homoglyphs, opts.strip_emoji_glue) == inspect_options(
            false,
            false,
        ));
    } else if is_dir_name(name) {
        assert(is_dir_name(plans[k].written.0));
    } else if name == "mimetype"@ {
        lemma_mimetype_not_text();
    }
}

proof fn lemma_cleaned_carrier_totals(data: Seq<u8>, opts: CleanOptions, n: nat)
    requires
        n <= repack_written(data, opts).len(),
        !opts.nfkc,
        !opts.aggressive_homoglyphs,
        !opts.strip_emoji_glue,
        written_text_settles(data, opts),
    ensures
        survey_totals(repack_written(data, opts), n).1 == 0,
    decreases n,
{
    if n > 0 {
        let w = repack_written(data, opts);
        lemma_cleaned_carrier_totals(data, opts, (n - 1) as nat);
        if scanned_entry(w[n - 1].0, w[n - 1].1) {
            lemma_written_entry_has_no_carriers(data, opts, n - 1);
        }
    }
}

/// A cleaned EPUB surveys clean: when cleaning without confusable mapping,
/// glue stripping or NFKC, and every written text entry has its space
/// homoglyphs folded or holds none and its bidi controls stripped or holds
/// none, surveying the bytes that cleaning returns succeeds and finds no
/// carrier and no generator meta tag.
pub proof fn lemma_cleaned_epub_surveys_clean(
    data: Seq<u8>,
    opts: CleanOptions,
    bytes: Seq<u8>,
    report: EpubInspectReport,
)
    requires
        archive_readable(bytes),
        zip_contents(bytes) == repack_written(data, opts),
        survey_matches(report, bytes),
        !opts.nfkc,
        !opts.aggressive_homoglyphs,
        !opts.strip_emoji_glue,
        written_text_settles(data, opts),
    ensures
        survey_succeeds(bytes),
        report.suspicious_total == 0,
        report.generator_meta_total == 0,
{
    lemma_cleaned_epub_survey_has_no_generator_meta(data, opts, bytes, report);
    lemma_cleaned_carrier_totals(data, opts, repack_written(data, opts).len());
}

/// A name that ends, in any ASCII case, with one of the listed text
/// suffixes is a text entry name, and names neither a directory nor
/// `mimetype`.
proof fn lemma_listed_suffix_is_text(name: Seq<char>)
    requires
        ({
            let lower = ascii_lower(name);
            ||| has_suffix(lower, ".xhtml"@)
            ||| has_suffix(lower, ".html"@)
            ||| has_suffix(lower, ".htm"@)
            ||| has_suffix(lower, ".opf"@)
            ||| has_suffix(lower, ".ncx"@)
            ||| has_suffix(lower, ".xml"@)
            ||| has_suffix(lower, ".css"@)
            ||| has_suffix(lower, ".svg"@)
            ||| has_suffix(lower, ".txt"@)
            ||| has_suffix(lower, ".md"@)
        }),
    ensures
        text_entry_name(name),
        !is_dir_name(name),
        name != "mimetype"@,
{
    reveal_strlit(".xhtml");
    reveal_strlit(".html");
    reveal_strlit(".htm");
    reveal_strlit(".opf");
    reveal_strlit(".ncx");
    reveal_strlit(".xml");
    reveal_strlit(".css");
    reveal_strlit(".svg");
    reveal_strlit(".txt");
    reveal_strlit(".md");
    let lower = ascii_lower(name);
    let suffixes = seq![".xhtml"@, ".html"@, ".htm"@, ".opf"@, ".ncx"@, ".xml"@, ".css"@, ".svg"@, ".txt"@, ".md"@];
    let k = choose|k: int| 0 <= k < suffixes.len() && has_suffix(lower, #[trigger] suffixes[k]);
    assert(exists|k: int| 0 <= k < suffixes.len() && has_suffix(lower, #[trigger] suffixes[k])) by {
        if has_suffix(lower, suffixes[0]) {
            assert(has_suffix(lower, suffixes[0]));
        } else if has_suffix(lower, suffixes[1]) {
            assert(has_suffix(lower, suffixes[1]));
        } else if has_suffix(lower, suffixes[2]) {
            assert(has_suffix(lower, suffixes[2]));
        } else if has_suffix(lower, suffixes[3]) {
            assert(has_suffix(lower, suffixes[3]));
        } else if has_suffix(lower, suffixes[4]) {
            assert(has_suffix(lower, suffixes[4]));
        } else if has_suffix(lower, suffixes[5]) {
            assert(has_suffix(lower, suffixes[5]));
        } else if has_suffix(lower, suffixes[6]) {
            assert(has_suffix(lower, suffixes[6]));
        } else if has_suffix(lower, suffixes[7]) {
            assert(has_suffix(lower, suffixes[7]));
        } else if has_suffix(lower, suffixes[8]) {
            assert(has_suffix(lower, suffixes[8]));
        } else {
            assert(has_suffix(lower, suffixes[9]));
        }
    }
    lemma_suffix_last(lower, suffixes[k]);
    assert(lower.last() == crate::text::ascii_lower_char(name.last()));
    assert('a' <= suffixes[k].last() <= 'z');
    lemma_mimetype_not_text();
}

/// Text entries are cleaned: an entry of the EPUB whose name ends, in any
/// ASCII case, with .xhtml, .html, .htm, .opf, .ncx, .xml, .css, .svg, .txt
/// or .md, and whose content is valid UTF-8, is scanned by a survey and
/// counted as a text entry by cleaning, which writes it under its own name
/// with its text cleaned and its generator meta tags removed; when the
/// cleaned text holds no such tag, that is the cleaned text itself.
pub proof fn lemma_text_entries_are_cleaned(data: Seq<u8>, opts: CleanOptions, i: int)
    requires
        0 <= i < zip_contents(data).len(),
        valid_utf8(zip_contents(data)[i].1),
        ({
            let lower = ascii_lower(zip_contents(data)[i].0);
            ||| has_suffix(lower, ".xhtml"@)
            ||| has_suffix(lower, ".html"@)
            ||| has_suffix(lower, ".htm"@)
            ||| has_suffix(lower, ".opf"@)
            ||| has_suffix(lower, ".ncx"@)
            ||| has_suffix(lower, ".xml"@)
            ||| has_suffix(lower, ".css"@)
            ||| has_suffix(lower, ".svg"@)
            ||| has_suffix(lower, ".txt"@)
            ||| has_suffix(lower, ".md"@)
        }),
    ensures
        scanned_entry(zip_contents(data)[i].0, zip_contents(data)[i].1),
        exists|k: int|
            0 <= k < repack_written(data, opts).len() && #[trigger] repack_plans(
                zip_contents(data),
                opts,
            )[k].text && repack_written(data, opts)[k] == (
                zip_contents(data)[i].0,
                encode_utf8(
                    entry_fixpoint(cleaned_text(decode_utf8(zip_contents(data)[i].1), opts), opts).0,
                ),
            ),
        strip_all_generator_meta_spec(cleaned_text(decode_utf8(zip_contents(data)[i].1), opts)).1
            == 0 ==> entry_fixpoint(cleaned_text(decode_utf8(zip_contents(data)[i].1), opts), opts).0
            == cleaned_text(decode_utf8(zip_contents(data)[i].1), opts),
{
    let entries = zip_contents(data);
    let name = entries[i].0;
    lemma_listed_suffix_is_text(name);
    lemma_repack_writes_every_entry_once(entries);
    let order = repack_order(entries);
    assert(order.contains(i));
    let k = choose|k: int| 0 <= k < order.len() && order[k] == i;
    let plans = repack_plans(entries, opts);
    assert(plans[k] == plan_entry(name, entries[i].1, opts));
    assert(plans[k].text);
    assert(repack_written(data, opts)[k] == (plans[k].written.0, plans[k].written.3));
}

/// The indices of reported entries include every reported entry.
proof fn lemma_reported_indices_complete(entries: Seq<(Seq<char>, Seq<u8>)>, n: nat, i: int)
    requires
        0 <= i < n <= entries.len(),
        reported_entry(entries[i].0, entries[i].1),
    ensures
        reported_indices(entries, n).contains(i),
    decreases n,
{
    if i < n - 1 {
        lemma_reported_indices_complete(entries, (n - 1) as nat, i);
        let before = reported_indices(entries, (n - 1) as nat);
        let k = choose|k: int| 0 <= k < before.len() && before[k] == i;
        if reported_entry(entries[n - 1].0, entries[n - 1].1) {
            assert(before.push(n - 1)[k] == i);
        }
    } else {
        let before = reported_indices(entries, (n - 1) as nat);
        assert(before.push(n - 1)[before.len() as int] == i);
    }
}

/// Every affected entry is reported: when a survey of the EPUB succeeds,
/// each scanned text entry holding a carrier or a generator meta tag has a
/// finding that names it and gives its carrier and tag counts.
pub proof fn lemma_affected_entries_have_findings(data: Seq<u8>, r: EpubInspectReport, i: int)
    requires
        survey_matches(r, data),
        0 <= i < zip_contents(data).len(),
        scanned_entry(zip_contents(data)[i].0, zip_contents(data)[i].1),
        entry_carriers(zip_contents(data)[i].1) > 0 || entry_generator_tags(zip_contents(data)[i].1)
            > 0,
    ensures
        exists|k: int|
            0 <= k < r.findings@.len() && (#[trigger] r.findings@[k]).entry@ == zip_contents(
                data,
            )[i].0 && r.findings@[k].suspicious_total == entry_carriers(zip_contents(data)[i].1)
                && r.findings@[k].generator_meta == entry_generator_tags(zip_contents(data)[i].1),
{
    let entries = zip_contents(data);
    lemma_reported_indices_complete(entries, entries.len(), i);
    let reported = reported_indices(entries, entries.len());
    let k = choose|k: int| 0 <= k < reported.len() && reported[k] == i;
    assert(finding_matches(r.findings@[k], entries[reported[k]].0, entries[reported[k]].1));
}

/// Other entries pass through: an entry of the EPUB that is neither a
/// directory nor `mimetype`, and whose name ends, in no ASCII case, with
/// .xhtml, .html, .htm, .opf, .ncx, .xml, .css, .svg, .txt or .md, is not
/// scanned by a survey, and cleaning writes it under its own name with its
/// bytes unchanged and does not count it as a text entry.
pub proof fn lemma_other_entries_pass_through(data: Seq<u8>, opts: CleanOptions, i: int)
    requires
        0 <= i < zip_contents(data).len(),
        !is_dir_name(zip_contents(data)[i].0),
        zip_contents(data)[i].0 != "mimetype"@,
        ({
            let lower = ascii_lower(zip_contents(data)[i].0);
            &&& !has_suffix(lower, ".xhtml"@)
            &&& !has_suffix(lower, ".html"@)
            &&& !has_suffix(lower, ".htm"@)
            &&& !has_suffix(lower, ".opf"@)
            &&& !has_suffix(lower, ".ncx"@)
            &&& !has_suffix(lower, ".xml"@)
            &&& !has_suffix(lower, ".css"@)
            &&& !has_suffix(lower, ".svg"@)
            &&& !has_suffix(lower, ".txt"@)
            &&& !has_suffix(lower, ".md"@)
        }),
    ensures
        !scanned_entry(zip_contents(data)[i].0, zip_contents(data)[i].1),
        exists|k: int|
            0 <= k < repack_written(data, opts).len() && !(#[trigger] repack_plans(
                zip_contents(data),
                opts,
            )[k]).text && repack_written(data, opts)[k] == zip_contents(data)[i],
{
    let entries = zip_contents(data);
    let name = entries[i].0;
    lemma_repack_writes_every_entry_once(entries);
    let order = repack_order(entries);
    assert(order.contains(i));
    let k = choose|k: int| 0 <= k < order.len() && order[k] == i;
    let plans = repack_plans(entries, opts);
    assert(plans[k] == plan_entry(name, entries[i].1, opts));
    assert(!text_entry_name(name));
    assert(repack_written(data, opts)[k] == (plans[k].written.0, plans[k].written.3));
}

} // verus!

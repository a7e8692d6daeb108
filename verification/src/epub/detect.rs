//! Inspecting an EPUB held in memory for Layer A carriers and generator
//! metadata, without changing it.

use super::archive::{
    archive_bytes, archive_entries, archive_len, entry_data, entry_name, open_archive, utf8_text,
    zip_contents, zip_entry_opens, zip_entry_reads, zip_opens,
};
use super::markup::{is_text_entry, strip_generator_meta, strip_generator_meta_spec, text_entry_name};
use super::repack::{capped_add, is_dir_entry, is_dir_name, EpubError};
use crate::unicode::inspect::{flagged_positions, hits_report, inspect_options, inspect_report_matches, inspect_text, CharHit};
use vstd::prelude::*;
use vstd::utf8::{decode_utf8, valid_utf8};

verus! {

/// Findings for one text entry.
pub struct EpubInspectEntry {
    /// The entry's name.
    pub entry: String,
    /// Carrier occurrences in it.
    pub suspicious_total: usize,
    /// Generator meta tags in it.
    pub generator_meta: usize,
    /// The carriers found, as `inspect_text` reports them.
    pub hits: Vec<CharHit>,
}

/// The result of inspecting an EPUB.
pub struct EpubInspectReport {
    /// Text entries scanned.
    pub entries_scanned: usize,
    /// Carrier occurrences across all entries (capped at `usize::MAX`).
    pub suspicious_total: usize,
    /// Generator meta tags across all entries (capped at `usize::MAX`).
    pub generator_meta_total: usize,
    /// One entry per scanned text entry with carriers or generator metadata, in archive order.
    pub findings: Vec<EpubInspectEntry>,
}

/// The entry is scanned: a file (not a directory) with a text name and
/// valid UTF-8 content.
pub open spec fn scanned_entry(name: Seq<char>, content: Seq<u8>) -> bool {
    !is_dir_name(name) && text_entry_name(name) && valid_utf8(content)
}

/// Carrier occurrences in an entry's text, as `inspect_text` counts them.
pub open spec fn entry_carriers(content: Seq<u8>) -> nat {
    let text = decode_utf8(content);
    flagged_positions(text, inspect_options(false, false), text.len()).len()
}

/// Generator meta tags in an entry's text.
pub open spec fn entry_generator_tags(content: Seq<u8>) -> nat {
    strip_generator_meta_spec(decode_utf8(content)).1
}

/// The entry is reported: it is scanned and has carriers or generator tags.
pub open spec fn reported_entry(name: Seq<char>, content: Seq<u8>) -> bool {
    scanned_entry(name, content) && (entry_carriers(content) > 0 || entry_generator_tags(content) > 0)
}

/// Totals over the first `n` entries: (scanned, carriers, generator tags),
/// the last two capped at `usize::MAX`.
pub open spec fn survey_totals(entries: Seq<(Seq<char>, Seq<u8>)>, n: nat) -> (nat, nat, nat)
    decreases n,
{
    if n == 0 || n > entries.len() {
        (0, 0, 0)
    } else {
        let t = survey_totals(entries, (n - 1) as nat);
        let e = entries[n - 1];
        if reported_entry(e.0, e.1) {
            (t.0 + 1, capped_add(t.1, entry_carriers(e.1)), capped_add(t.2, entry_generator_tags(e.1)))
        } else if scanned_entry(e.0, e.1) {
            (t.0 + 1, t.1, t.2)
        } else {
            t
        }
    }
}

/// The indices of the reported entries among the first `n`, ascending.
pub open spec fn reported_indices(entries: Seq<(Seq<char>, Seq<u8>)>, n: nat) -> Seq<int>
    decreases n,
{
    if n == 0 || n > entries.len() {
        seq![]
    } else {
        let before = reported_indices(entries, (n - 1) as nat);
        if reported_entry(entries[n - 1].0, entries[n - 1].1) {
            before.push(n - 1)
        } else {
            before
        }
    }
}

/// `f` reports the entry (name, content).
pub open spec fn finding_matches(f: EpubInspectEntry, name: Seq<char>, content: Seq<u8>) -> bool {
    &&& f.entry@ == name
    &&& f.suspicious_total == entry_carriers(content)
    &&& f.generator_meta == entry_generator_tags(content)
    &&& exists|cs: Seq<char>|
        hits_report(f.hits@, cs, decode_utf8(content), inspect_options(false, false))
}

/// What `inspect_epub_archive` reports about the EPUB `data`.
pub open spec fn survey_matches(r: EpubInspectReport, data: Seq<u8>) -> bool {
    let entries = zip_contents(data);
    let totals = survey_totals(entries, entries.len());
    let reported = reported_indices(entries, entries.len());
    &&& r.entries_scanned == totals.0
    &&& r.suspicious_total == totals.1
    &&& r.generator_meta_total == totals.2
    &&& r.findings@.len() == reported.len()
    &&& forall|k: int|
        0 <= k < reported.len() ==> finding_matches(
            #[trigger] r.findings@[k],
            entries[reported[k]].0,
            entries[reported[k]].1,
        )
}

/// Entry `i` of the EPUB `data` can be surveyed: it opens, and a file entry
/// with a text name is read.
pub open spec fn entry_survey_ok(data: Seq<u8>, i: int) -> bool {
    let name = zip_contents(data)[i].0;
    zip_entry_opens(data, i) && (!is_dir_name(name) && text_entry_name(name) ==> zip_entry_reads(data, i))
}

/// Surveying the EPUB `data` succeeds: the bytes open as a ZIP archive and
/// every entry can be surveyed.
pub open spec fn survey_succeeds(data: Seq<u8>) -> bool {
    &&& zip_opens(data)
    &&& forall|i: int| 0 <= i < zip_contents(data).len() ==> #[trigger] entry_survey_ok(data, i)
}

/// Inspect an EPUB's text entries for Layer A carriers and generator
/// metadata. On success the report is as `survey_matches` describes; fails
/// when the bytes are not a ZIP archive or an entry cannot be read.
pub fn inspect_epub_archive(data: Vec<u8>) -> (r: Result<EpubInspectReport, EpubError>)
    ensures
        r is Ok <==> survey_succeeds(data@),
        r matches Err(EpubError::NotAnArchive(_)) <==> !zip_opens(data@),
        r matches Ok(report) ==> survey_matches(report, data@),
{
    let ghost input = data@;
    let mut archive = match open_archive(data) {
        Ok(a) => a,
        Err(e) => return Err(EpubError::NotAnArchive(e)),
    };
    let ghost entries = archive_entries(archive);
    let n = archive_len(&archive);
    let mut report = EpubInspectReport {
        entries_scanned: 0,
        suspicious_total: 0,
        generator_meta_total: 0,
        findings: Vec::new(),
    };
    let mut next: usize = 0;
    while next < n
        invariant
            n == entries.len(),
            next <= n,
            entries == zip_contents(input),
            archive_entries(archive) == entries,
            report.entries_scanned == survey_totals(entries, next as nat).0,
            report.suspicious_total == survey_totals(entries, next as nat).1,
            report.generator_meta_total == survey_totals(entries, next as nat).2,
            report.entries_scanned <= next,
            input == data@,
            zip_opens(input),
            archive_bytes(archive) == input,
            forall|j: int| 0 <= j < next ==> #[trigger] entry_survey_ok(input, j),
            report.findings@.len() == reported_indices(entries, next as nat).len(),
            forall|k: int|
                0 <= k < report.findings@.len() ==> finding_matches(
                    #[trigger] report.findings@[k],
                    entries[reported_indices(entries, next as nat)[k]].0,
                    entries[reported_indices(entries, next as nat)[k]].1,
                ),
        decreases n - next,
    {
        let idx = next;
        next += 1;
        let ghost before = report.findings@;
        let name = match entry_name(&mut archive, idx) {
            Ok(name) => name,
            Err(e) => {
                proof {
                    assert(!entry_survey_ok(input, idx as int));
                }
                return Err(EpubError::Archive(e));
            },
        };
        if is_dir_entry(&name) || !is_text_entry(name.as_str()) {
            proof {
                assert(entry_survey_ok(input, idx as int));
            }
            continue;
        }
        let raw = match entry_data(&mut archive, idx) {
            Ok(raw) => raw,
            Err(e) => {
                proof {
                    assert(!entry_survey_ok(input, idx as int));
                }
                return Err(EpubError::Archive(e));
            },
        };
        proof {
            assert(entry_survey_ok(input, idx as int));
        }
        let text = match utf8_text(raw.as_slice()) {
            Some(text) => text,
            None => continue,
        };
        proof {
            vstd::utf8::decode_utf8_encode_utf8(raw@);
            vstd::utf8::encode_utf8_decode_utf8(text@);
            assert(text@ == decode_utf8(raw@));
        }
        report.entries_scanned += 1;
        let rep = inspect_text(text, false, false);
        let (_kept, generator) = strip_generator_meta(text);
        if rep.suspicious_total == 0 && generator == 0 {
            continue;
        }
        report.suspicious_total = report.suspicious_total.saturating_add(rep.suspicious_total);
        report.generator_meta_total = report.generator_meta_total.saturating_add(generator);
        proof {
            assert(inspect_report_matches(rep, text@, inspect_options(false, false)));
        }
        let finding = EpubInspectEntry {
            entry: name,
            suspicious_total: rep.suspicious_total,
            generator_meta: generator,
            hits: rep.hits,
        };
        report.findings.push(finding);
        proof {
            assert(reported_indices(entries, (idx + 1) as nat) == reported_indices(entries, idx as nat).push(idx as int));
            assert forall|k: int|
                0 <= k < report.findings@.len() implies finding_matches(
                    #[trigger] report.findings@[k],
                    entries[reported_indices(entries, (idx + 1) as nat)[k]].0,
                    entries[reported_indices(entries, (idx + 1) as nat)[k]].1,
                ) by {
                if k < before.len() {
                    assert(report.findings@[k] == before[k]);
                } else {
                    let f = report.findings@[k];
                    assert(reported_indices(entries, (idx + 1) as nat)[k] == idx as int);
                    assert(f.entry@ == entries[idx as int].0);
                    assert(raw@ == entries[idx as int].1);
                    let cs = choose|cs: Seq<char>| hits_report(f.hits@, cs, text@, inspect_options(false, false));
                    assert(hits_report(f.hits@, cs, decode_utf8(entries[idx as int].1), inspect_options(false, false)));
                }
            }
        }
    }
    Ok(report)
}

} // verus!

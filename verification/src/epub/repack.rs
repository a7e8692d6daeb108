//! Cleaning an EPUB held in memory: clean every text entry, drop generator
//! meta tags from markup, pass everything else through, and repack with
//! `mimetype` first and stored.

use super::archive::{
    add_directory, archive_bytes, archive_entries, archive_len, directory_entry_name, entry_data,
    entry_name, finish, new_writer, open_archive, start_file, utf8_text, write_all,
    writer_sound, written_entries, zip_contents, zip_directory_accepts, zip_encoding,
    zip_entry_opens, zip_entry_reads, zip_finish_accepts, zip_opens, zip_start_accepts,
    zip_write_accepts, Compression, WrittenEntry,
};
use super::markup::{
    is_text_entry, lemma_strip_all_bounds, strip_all_generator_meta, strip_all_generator_meta_spec,
    text_entry_name,
};
use crate::text::collect_chars;
use crate::unicode::clean::{clean_text, cleaned_text, lemma_scan_sizes};
use crate::unicode::decide::CleanOptions;
use crate::unicode::scan::layer_a;
use vstd::prelude::*;
use vstd::string::StringSliceAdditionalSpecFns;
use vstd::utf8::{decode_utf8, encode_utf8, valid_utf8};
use zip::result::ZipError;

verus! {

/// Why an EPUB could not be cleaned or inspected.
#[derive(Debug)]
pub enum EpubError {
    /// The bytes are not a ZIP archive.
    NotAnArchive(ZipError),
    /// An entry could not be read, or the repacked archive not written.
    Archive(ZipError),
}

/// Aggregate statistics from cleaning an EPUB.
pub struct EpubCleanStats {
    /// Entries in the archive.
    pub entries_total: usize,
    /// Text entries that were cleaned.
    pub entries_text: usize,
    /// Characters stripped across all text entries.
    pub removed_chars: usize,
    /// Characters replaced across all text entries.
    pub replaced_chars: usize,
    /// Generator meta tags removed.
    pub generator_meta_removed: usize,
}

/// The name of a directory entry: it ends with `/` or `\`.
pub open spec fn is_dir_name(name: Seq<char>) -> bool {
    name.len() > 0 && (name.last() == '/' || name.last() == '\\')
}

/// The indices below `n` whose entry is (or, for `mimetype == false`, is not)
/// named `mimetype`, ascending.
pub open spec fn indices_named_mimetype(entries: Seq<(Seq<char>, Seq<u8>)>, n: nat, mimetype: bool) -> Seq<int>
    decreases n,
{
    if n == 0 {
        seq![]
    } else {
        let before = indices_named_mimetype(entries, (n - 1) as nat, mimetype);
        if (entries[n - 1].0 == "mimetype"@) == mimetype {
            before.push(n - 1)
        } else {
            before
        }
    }
}

/// The order entries are written in: entries named `mimetype` first, then
/// all others, each group in archive order.
pub open spec fn repack_order(entries: Seq<(Seq<char>, Seq<u8>)>) -> Seq<int> {
    indices_named_mimetype(entries, entries.len(), true) + indices_named_mimetype(
        entries,
        entries.len(),
        false,
    )
}

/// What cleaning does with one entry.
pub struct EntryPlan {
    pub written: WrittenEntry,
    pub text: bool,
    pub removed: nat,
    pub replaced: nat,
    pub generator: nat,
}

/// The options for cleaning a text again: the same, without NFKC
/// normalisation.
pub open spec fn plain_options(opts: CleanOptions) -> CleanOptions {
    CleanOptions {
        nfkc: false,
        aggressive_homoglyphs: opts.aggressive_homoglyphs,
        normalize_spaces: opts.normalize_spaces,
        strip_emoji_glue: opts.strip_emoji_glue,
        strip_bidi: opts.strip_bidi,
    }
}

/// Finishing a cleaned text entry: its generator meta tags are removed, and
/// while that removes any, the rest is cleaned again (without NFKC) and its
/// tags removed, until no tag is left. Returns the text, and the characters
/// stripped and replaced and the tags removed on the way (each sum capped
/// at `usize::MAX`).
pub open spec fn entry_fixpoint(x: Seq<char>, opts: CleanOptions) -> (Seq<char>, nat, nat, nat)
    decreases x.len(),
{
    let g = strip_all_generator_meta_spec(x);
    if g.1 == 0 {
        (x, 0, 0, 0)
    } else {
        proof {
            lemma_strip_all_bounds(x);
            lemma_scan_sizes(g.0, g.0.len(), plain_options(opts));
        }
        let pass = layer_a(g.0, plain_options(opts));
        let rest = entry_fixpoint(pass.out, opts);
        (
            rest.0,
            capped_add(pass.removed.len(), rest.1),
            capped_add(pass.replaced.len(), rest.2),
            capped_add(g.1, rest.3),
        )
    }
}

/// The plan for one entry: directories are re-added, `mimetype` is stored
/// as is, valid UTF-8 text entries are cleaned and finished
/// (`entry_fixpoint`), and everything else is passed through deflated.
pub open spec fn plan_entry(name: Seq<char>, content: Seq<u8>, opts: CleanOptions) -> EntryPlan {
    if is_dir_name(name) {
        EntryPlan {
            written: (directory_entry_name(name), true, true, Seq::<u8>::empty()),
            text: false,
            removed: 0,
            replaced: 0,
            generator: 0,
        }
    } else if name == "mimetype"@ {
        EntryPlan { written: (name, true, false, content), text: false, removed: 0, replaced: 0, generator: 0 }
    } else if text_entry_name(name) && valid_utf8(content) {
        let text = decode_utf8(content);
        let pass = layer_a(text, opts);
        let finished = entry_fixpoint(cleaned_text(text, opts), opts);
        EntryPlan {
            written: (name, false, false, encode_utf8(finished.0)),
            text: true,
            removed: capped_add(pass.removed.len(), finished.1),
            replaced: capped_add(pass.replaced.len(), finished.2),
            generator: finished.3,
        }
    } else {
        EntryPlan { written: (name, false, false, content), text: false, removed: 0, replaced: 0, generator: 0 }
    }
}

/// The plans of the entries, in the order they are written.
pub open spec fn repack_plans(entries: Seq<(Seq<char>, Seq<u8>)>, opts: CleanOptions) -> Seq<EntryPlan> {
    let order = repack_order(entries);
    Seq::new(order.len(), |k: int| plan_entry(entries[order[k]].0, entries[order[k]].1, opts))
}

/// `a + b`, capped at `usize::MAX`.
pub open spec fn capped_add(a: nat, b: nat) -> nat {
    if a + b > usize::MAX {
        usize::MAX as nat
    } else {
        a + b
    }
}

/// The statistics after the first `k` plans: (entries, text entries,
/// removed, replaced, generator tags), the last three capped at `usize::MAX`.
pub open spec fn repack_totals(plans: Seq<EntryPlan>, k: nat) -> (nat, nat, nat, nat, nat)
    decreases k,
{
    if k == 0 || k > plans.len() {
        (0, 0, 0, 0, 0)
    } else {
        let t = repack_totals(plans, (k - 1) as nat);
        let p = plans[k - 1];
        (
            t.0 + 1,
            t.1 + if p.text {
                1nat
            } else {
                0nat
            },
            capped_add(t.2, p.removed),
            capped_add(t.3, p.replaced),
            capped_add(t.4, p.generator),
        )
    }
}

/// The cleaned archive for the EPUB `data`: its bytes are the encoding of the
/// planned entries, and the statistics total the plans.
pub open spec fn repack_matches(bytes: Seq<u8>, stats: EpubCleanStats, data: Seq<u8>, opts: CleanOptions) -> bool {
    let plans = repack_plans(zip_contents(data), opts);
    let totals = repack_totals(plans, plans.len());
    &&& bytes == zip_encoding(plans.map_values(|p: EntryPlan| p.written))
    &&& stats.entries_total == totals.0
    &&& stats.entries_text == totals.1
    &&& stats.removed_chars == totals.2
    &&& stats.replaced_chars == totals.3
    &&& stats.generator_meta_removed == totals.4
}

/// The indices as integers.
pub open spec fn index_ints(v: Seq<usize>) -> Seq<int> {
    v.map_values(|i: usize| i as int)
}

proof fn lemma_indices_bounds(entries: Seq<(Seq<char>, Seq<u8>)>, n: nat, mimetype: bool)
    ensures
        forall|k: int|
            0 <= k < indices_named_mimetype(entries, n, mimetype).len() ==> 0 <= #[trigger] indices_named_mimetype(
                entries,
                n,
                mimetype,
            )[k] < n,
        indices_named_mimetype(entries, n, mimetype).len() <= n,
    decreases n,
{
    if n > 0 {
        lemma_indices_bounds(entries, (n - 1) as nat, mimetype);
    }
}

/// The names of all entries.
fn read_names(archive: &mut super::archive::Archive, n: usize) -> (r: Result<Vec<String>, ZipError>)
    requires
        n == archive_entries(*old(archive)).len(),
    ensures
        archive_entries(*final(archive)) == archive_entries(*old(archive)),
        archive_bytes(*final(archive)) == archive_bytes(*old(archive)),
        r is Ok <==> forall|i: int| 0 <= i < n ==> zip_entry_opens(archive_bytes(*old(archive)), i),
        r matches Ok(names) ==> names@.len() == n && forall|i: int|
            0 <= i < n ==> (#[trigger] names@[i])@ == archive_entries(*old(archive))[i].0,
{
    let ghost entries = archive_entries(*archive);
    let ghost bytes = archive_bytes(*archive);
    let mut names: Vec<String> = Vec::new();
    for i in 0..n
        invariant
            n == entries.len(),
            archive_entries(*archive) == entries,
            entries == archive_entries(*old(archive)),
            archive_bytes(*archive) == bytes,
            bytes == archive_bytes(*old(archive)),
            names@.len() == i,
            forall|k: int| 0 <= k < i ==> (#[trigger] names@[k])@ == entries[k].0,
            forall|k: int| 0 <= k < i ==> zip_entry_opens(bytes, k),
    {
        match entry_name(archive, i) {
            Ok(name) => names.push(name),
            Err(e) => return Err(e),
        }
    }
    Ok(names)
}

/// The order entries are written in, computed from their names.
fn write_order(names: &Vec<String>, Ghost(entries): Ghost<Seq<(Seq<char>, Seq<u8>)>>) -> (order: Vec<usize>)
    requires
        names@.len() == entries.len(),
        forall|i: int| 0 <= i < entries.len() ==> (#[trigger] names@[i])@ == entries[i].0,
    ensures
        index_ints(order@) == repack_order(entries),
        forall|k: int| 0 <= k < order@.len() ==> (#[trigger] order@[k]) < entries.len(),
{
    let mimetype = String::from_str("mimetype");
    let n = names.len();
    let mut order: Vec<usize> = Vec::new();
    for i in 0..n
        invariant
            n == entries.len(),
            names@.len() == n,
            mimetype@ == "mimetype"@,
            forall|j: int| 0 <= j < n ==> (#[trigger] names@[j])@ == entries[j].0,
            index_ints(order@) == indices_named_mimetype(entries, i as nat, true),
    {
        if names[i] == mimetype {
            order.push(i);
        }
        proof {
            assert(index_ints(order@) =~= indices_named_mimetype(entries, (i + 1) as nat, true));
        }
    }
    let ghost first = order@;
    for i in 0..n
        invariant
            n == entries.len(),
            names@.len() == n,
            mimetype@ == "mimetype"@,
            forall|j: int| 0 <= j < n ==> (#[trigger] names@[j])@ == entries[j].0,
            index_ints(first) == indices_named_mimetype(entries, n as nat, true),
            index_ints(order@) == indices_named_mimetype(entries, n as nat, true) + indices_named_mimetype(entries, i as nat, false),
    {
        let ghost before = order@;
        let is_mimetype = names[i] == mimetype;
        if !is_mimetype {
            order.push(i);
        }
        proof {
            let a = indices_named_mimetype(entries, n as nat, true);
            let b0 = indices_named_mimetype(entries, i as nat, false);
            let b1 = indices_named_mimetype(entries, (i + 1) as nat, false);
            assert(is_mimetype == (entries[i as int].0 == "mimetype"@));
            if !is_mimetype {
                assert(b1 == b0.push(i as int));
                assert(index_ints(order@) =~= index_ints(before).push(i as int));
                assert(a + b1 =~= (a + b0).push(i as int));
            } else {
                assert(b1 == b0);
                assert(order@ == before);
            }
            assert(index_ints(order@) =~= a + b1);
        }
    }
    proof {
        lemma_indices_bounds(entries, n as nat, true);
        lemma_indices_bounds(entries, n as nat, false);
        assert forall|k: int| 0 <= k < order@.len() implies (#[trigger] order@[k]) < entries.len() by {
            assert(index_ints(order@)[k] == order@[k] as int);
            let a = indices_named_mimetype(entries, n as nat, true);
            if k >= a.len() {
                assert(index_ints(order@)[k] == indices_named_mimetype(entries, n as nat, false)[k - a.len()]);
            }
        }
    }
    order
}

/// The name ends with `/` or `\`.
pub fn is_dir_entry(name: &String) -> (r: bool)
    ensures
        r == is_dir_name(name@),
{
    let chars = collect_chars(name.as_str());
    let n = chars.len();
    n > 0 && (chars[n - 1] == '/' || chars[n - 1] == '\\')
}


/// A file entry with the given content.
fn write_file(w: &mut super::archive::EpubWriter, name: &str, compression: Compression, bytes: &[u8]) -> (r: Result<(), ZipError>)
    ensures
        writer_sound(*old(w)) ==> (r is Ok <==> zip_start_accepts(
            written_entries(*old(w)),
            name@,
            compression == Compression::Stored,
        ) && zip_write_accepts(
            written_entries(*old(w)).push(
                (name@, compression == Compression::Stored, false, Seq::<u8>::empty()),
            ),
            bytes@,
        )),
        writer_sound(*old(w)) && r is Ok ==> writer_sound(*final(w)),
        r is Ok ==> written_entries(*final(w)) == written_entries(*old(w)).push(
            (name@, compression == Compression::Stored, false, bytes@),
        ),
{
    match start_file(w, name, compression) {
        Ok(()) => {},
        Err(e) => return Err(e),
    }
    let ghost started = written_entries(*w);
    let r = write_all(w, bytes);
    proof {
        if r is Ok {
            let last = started.last();
            assert(Seq::<u8>::empty() + bytes@ =~= bytes@);
            if bytes@.len() == 0 {
                assert(bytes@ =~= Seq::<u8>::empty());
            }
        }
    }
    r
}

/// Writing the planned entry after `written` succeeds: a directory is added
/// under the entry's name; a file is started under it and its content
/// written.
pub open spec fn entry_write_ok(written: Seq<WrittenEntry>, name: Seq<char>, plan: EntryPlan) -> bool {
    if plan.written.2 {
        zip_directory_accepts(written, name)
    } else {
        zip_start_accepts(written, name, plan.written.1) && zip_write_accepts(
            written.push((name, plan.written.1, false, Seq::<u8>::empty())),
            plan.written.3,
        )
    }
}

/// Reading what the entry's plan needs succeeds: a directory is not read.
pub open spec fn entry_read_ok(data: Seq<u8>, i: int, name: Seq<char>) -> bool {
    is_dir_name(name) || (zip_entry_opens(data, i) && zip_entry_reads(data, i))
}

proof fn lemma_capped_add_assoc(a: nat, b: nat, c: nat)
    ensures
        capped_add(capped_add(a, b), c) == capped_add(a, capped_add(b, c)),
{
}

/// Finish a cleaned text entry as `entry_fixpoint` describes.
fn finish_entry(cleaned: String, opts: CleanOptions) -> (r: (String, usize, usize, usize))
    ensures
        r.0@ == entry_fixpoint(cleaned@, opts).0,
        r.1 == entry_fixpoint(cleaned@, opts).1,
        r.2 == entry_fixpoint(cleaned@, opts).2,
        r.3 == entry_fixpoint(cleaned@, opts).3,
{
    let plain = CleanOptions {
        nfkc: false,
        aggressive_homoglyphs: opts.aggressive_homoglyphs,
        normalize_spaces: opts.normalize_spaces,
        strip_emoji_glue: opts.strip_emoji_glue,
        strip_bidi: opts.strip_bidi,
    };
    let ghost x0 = cleaned@;
    let mut cur = cleaned;
    let mut removed: usize = 0;
    let mut replaced: usize = 0;
    let mut generator: usize = 0;
    loop
        invariant
            plain == plain_options(opts),
            x0 == cleaned@,
            entry_fixpoint(x0, opts) == (
                entry_fixpoint(cur@, opts).0,
                capped_add(removed as nat, entry_fixpoint(cur@, opts).1),
                capped_add(replaced as nat, entry_fixpoint(cur@, opts).2),
                capped_add(generator as nat, entry_fixpoint(cur@, opts).3),
            ),
        decreases cur@.len(),
    {
        let (stripped, g) = strip_all_generator_meta(cur.as_str());
        proof {
            lemma_strip_all_bounds(cur@);
        }
        if g == 0 {
            assert(entry_fixpoint(cur@, opts) == (cur@, 0nat, 0nat, 0nat));
            assert(capped_add(removed as nat, 0) == removed as nat);
            assert(capped_add(replaced as nat, 0) == replaced as nat);
            assert(capped_add(generator as nat, 0) == generator as nat);
            return (cur, removed, replaced, generator);
        }
        let (again, stats) = clean_text(stripped.as_str(), plain);
        proof {
            lemma_scan_sizes(stripped@, stripped@.len(), plain);
            let pass = layer_a(stripped@, plain);
            let rest = entry_fixpoint(pass.out, opts);
            lemma_capped_add_assoc(removed as nat, pass.removed.len(), rest.1);
            lemma_capped_add_assoc(replaced as nat, pass.replaced.len(), rest.2);
            lemma_capped_add_assoc(generator as nat, g as nat, rest.3);
        }
        removed = removed.saturating_add(stats.removed_count);
        replaced = replaced.saturating_add(stats.replaced_count);
        generator = generator.saturating_add(g);
        cur = again;
    }
}

/// What cleaning one entry reports.
struct EntryOutcome {
    text: bool,
    removed: usize,
    replaced: usize,
    generator: usize,
}

/// Clean entry `idx` (named `name`) into the writer.
fn repack_entry(
    w: &mut super::archive::EpubWriter,
    archive: &mut super::archive::Archive,
    idx: usize,
    name: &String,
    opts: CleanOptions,
) -> (r: Result<EntryOutcome, ZipError>)
    requires
        idx < archive_entries(*old(archive)).len(),
        name@ == archive_entries(*old(archive))[idx as int].0,
    ensures
        archive_entries(*final(archive)) == archive_entries(*old(archive)),
        archive_bytes(*final(archive)) == archive_bytes(*old(archive)),
        writer_sound(*old(w)) ==> (r is Ok <==> entry_read_ok(archive_bytes(*old(archive)), idx as int, name@)
            && entry_write_ok(
            written_entries(*old(w)),
            name@,
            plan_entry(name@, archive_entries(*old(archive))[idx as int].1, opts),
        )),
        writer_sound(*old(w)) && r is Ok ==> writer_sound(*final(w)),
        r matches Ok(out) ==> {
            let plan = plan_entry(name@, archive_entries(*old(archive))[idx as int].1, opts);
            &&& written_entries(*final(w)) == written_entries(*old(w)).push(plan.written)
            &&& out.text == plan.text
            &&& out.removed == plan.removed
            &&& out.replaced == plan.replaced
            &&& out.generator == plan.generator
        },
{
    let ghost content = archive_entries(*archive)[idx as int].1;
    if is_dir_entry(name) {
        match add_directory(w, name.as_str()) {
            Ok(()) => {},
            Err(e) => return Err(e),
        }
        return Ok(EntryOutcome { text: false, removed: 0, replaced: 0, generator: 0 });
    }
    let raw = match entry_data(archive, idx) {
        Ok(raw) => raw,
        Err(e) => return Err(e),
    };
    let mimetype = String::from_str("mimetype");
    if *name == mimetype {
        match write_file(w, name.as_str(), Compression::Stored, raw.as_slice()) {
            Ok(()) => {},
            Err(e) => return Err(e),
        }
        return Ok(EntryOutcome { text: false, removed: 0, replaced: 0, generator: 0 });
    }
    if is_text_entry(name.as_str()) {
        if let Some(text) = utf8_text(raw.as_slice()) {
            proof {
                vstd::utf8::decode_utf8_encode_utf8(raw@);
                vstd::utf8::encode_utf8_decode_utf8(text@);
                assert(text@ == decode_utf8(raw@));
            }
            let (cleaned, cstats) = clean_text(text, opts);
            let (final_text, more_removed, more_replaced, generator) = finish_entry(cleaned, opts);
            match write_file(w, name.as_str(), Compression::Deflated, final_text.as_str().as_bytes()) {
                Ok(()) => {},
                Err(e) => return Err(e),
            }
            return Ok(EntryOutcome {
                text: true,
                removed: cstats.removed_count.saturating_add(more_removed),
                replaced: cstats.replaced_count.saturating_add(more_replaced),
                generator,
            });
        }
    }
    match write_file(w, name.as_str(), Compression::Deflated, raw.as_slice()) {
        Ok(()) => {},
        Err(e) => return Err(e),
    }
    Ok(EntryOutcome { text: false, removed: 0, replaced: 0, generator: 0 })
}

/// The entries a repack of the EPUB `data` writes: names and contents, in
/// write order.
pub open spec fn repack_written(data: Seq<u8>, opts: CleanOptions) -> Seq<(Seq<char>, Seq<u8>)> {
    repack_plans(zip_contents(data), opts).map_values(|p: EntryPlan| (p.written.0, p.written.3))
}

/// The bytes open as a ZIP archive and every entry in it opens and reads.
pub open spec fn archive_readable(bytes: Seq<u8>) -> bool {
    &&& zip_opens(bytes)
    &&& forall|i: int|
        0 <= i < zip_contents(bytes).len() ==> zip_entry_opens(bytes, i) && zip_entry_reads(bytes, i)
}

/// The first `k` planned entries, in write order, are read and written
/// successfully.
pub open spec fn repack_steps_ok(data: Seq<u8>, opts: CleanOptions, k: nat) -> bool
    decreases k,
{
    if k == 0 {
        true
    } else {
        let entries = zip_contents(data);
        let plans = repack_plans(entries, opts);
        let i = repack_order(entries)[k - 1];
        &&& repack_steps_ok(data, opts, (k - 1) as nat)
        &&& entry_read_ok(data, i, entries[i].0)
        &&& entry_write_ok(
            plans.take(k - 1).map_values(|p: EntryPlan| p.written),
            entries[i].0,
            plans[k - 1],
        )
    }
}

/// Cleaning the EPUB `data` succeeds: the bytes open as a ZIP archive,
/// every entry opens, every planned entry is read and written in write
/// order, and the archive is finished.
#[verifier::opaque]
pub open spec fn repack_succeeds(data: Seq<u8>, opts: CleanOptions) -> bool {
    let entries = zip_contents(data);
    let plans = repack_plans(entries, opts);
    &&& zip_opens(data)
    &&& forall|i: int| 0 <= i < entries.len() ==> zip_entry_opens(data, i)
    &&& repack_steps_ok(data, opts, plans.len())
    &&& zip_finish_accepts(plans.map_values(|p: EntryPlan| p.written))
}

proof fn lemma_repack_step(data: Seq<u8>, opts: CleanOptions, k: nat, i: int)
    requires
        k < repack_plans(zip_contents(data), opts).len(),
        i == repack_order(zip_contents(data))[k as int],
    ensures
        repack_steps_ok(data, opts, k + 1) == (repack_steps_ok(data, opts, k) && entry_read_ok(
            data,
            i,
            zip_contents(data)[i].0,
        ) && entry_write_ok(
            repack_plans(zip_contents(data), opts).take(k as int).map_values(|p: EntryPlan| p.written),
            zip_contents(data)[i].0,
            repack_plans(zip_contents(data), opts)[k as int],
        )),
{
}

proof fn lemma_repack_steps_prefix(data: Seq<u8>, opts: CleanOptions, m: nat, n: nat)
    requires
        m <= n,
        repack_steps_ok(data, opts, n),
    ensures
        repack_steps_ok(data, opts, m),
    decreases n,
{
    if m < n {
        lemma_repack_steps_prefix(data, opts, m, (n - 1) as nat);
    }
}

/// Clean an EPUB held in memory. On success returns the repacked archive
/// and aggregate statistics, as `repack_matches` describes; fails when the
/// bytes are not a ZIP archive (`NotAnArchive`) or an entry cannot be read or
/// written (`Archive`).
pub fn clean_epub_archive(data: Vec<u8>, opts: CleanOptions) -> (r: Result<(Vec<u8>, EpubCleanStats), EpubError>)
    ensures
        r is Ok <==> repack_succeeds(data@, opts),
        r matches Err(EpubError::NotAnArchive(_)) <==> !zip_opens(data@),
        r matches Ok((bytes, stats)) ==> repack_matches(bytes@, stats, data@, opts),
        r matches Ok((bytes, _)) ==> archive_readable(bytes@) && zip_contents(bytes@) == repack_written(
            data@,
            opts,
        ),
{
    let ghost input = data@;
    let mut archive = match open_archive(data) {
        Ok(a) => a,
        Err(e) => {
            proof {
                assert(!repack_succeeds(input, opts)) by {
                    reveal(repack_succeeds);
                }
            }
            return Err(EpubError::NotAnArchive(e));
        },
    };
    let ghost entries = archive_entries(archive);
    let ghost plans = repack_plans(entries, opts);
    let n = archive_len(&archive);
    let names = match read_names(&mut archive, n) {
        Ok(names) => names,
        Err(e) => {
            proof {
                assert(!repack_succeeds(input, opts)) by {
                    reveal(repack_succeeds);
                }
            }
            return Err(EpubError::Archive(e));
        },
    };
    let order = write_order(&names, Ghost(entries));
    proof {
        assert(index_ints(order@).len() == order@.len());
    }
    let mut writer = new_writer();
    let mut stats = EpubCleanStats {
        entries_total: 0,
        entries_text: 0,
        removed_chars: 0,
        replaced_chars: 0,
        generator_meta_removed: 0,
    };
    let m = order.len();
    for k in 0..m
        invariant
            m == order@.len(),
            entries == zip_contents(input),
            archive_entries(archive) == entries,
            plans == repack_plans(entries, opts),
            names@.len() == entries.len(),
            forall|i: int| 0 <= i < entries.len() ==> (#[trigger] names@[i])@ == entries[i].0,
            index_ints(order@) == repack_order(entries),
            forall|j: int| 0 <= j < order@.len() ==> (#[trigger] order@[j]) < entries.len(),
            written_entries(writer) == plans.take(k as int).map_values(|p: EntryPlan| p.written),
            stats.entries_total == repack_totals(plans, k as nat).0,
            stats.entries_text == repack_totals(plans, k as nat).1,
            stats.removed_chars == repack_totals(plans, k as nat).2,
            stats.replaced_chars == repack_totals(plans, k as nat).3,
            stats.generator_meta_removed == repack_totals(plans, k as nat).4,
            stats.entries_text <= stats.entries_total,
            stats.entries_total == k,
            archive_bytes(archive) == input,
            writer_sound(writer),
            zip_opens(input),
            forall|i: int| 0 <= i < entries.len() ==> zip_entry_opens(input, i),
            repack_steps_ok(input, opts, k as nat),
            plans.len() == m,
            input == data@,
    {
        let idx = order[k];
        proof {
            assert(index_ints(order@)[k as int] == idx as int);
            assert(plans[k as int] == plan_entry(entries[idx as int].0, entries[idx as int].1, opts));
        }
        let ghost before = written_entries(writer);
        proof {
            lemma_repack_step(input, opts, k as nat, idx as int);
            assert(names@[idx as int]@ == entries[idx as int].0);
        }
        let outcome = match repack_entry(&mut writer, &mut archive, idx, &names[idx], opts) {
            Ok(outcome) => outcome,
            Err(e) => {
                proof {
                    assert(!repack_steps_ok(input, opts, (k + 1) as nat));
                    if repack_steps_ok(input, opts, plans.len()) {
                        lemma_repack_steps_prefix(input, opts, (k + 1) as nat, plans.len());
                    }
                    assert(!repack_succeeds(input, opts)) by {
                    reveal(repack_succeeds);
                }
                }
                return Err(EpubError::Archive(e));
            },
        };
        proof {
            assert(repack_steps_ok(input, opts, (k + 1) as nat));
        }
        stats.entries_total += 1;
        if outcome.text {
            stats.entries_text += 1;
        }
        stats.removed_chars = stats.removed_chars.saturating_add(outcome.removed);
        stats.replaced_chars = stats.replaced_chars.saturating_add(outcome.replaced);
        stats.generator_meta_removed = stats.generator_meta_removed.saturating_add(outcome.generator);
        proof {
            assert(plans.take(k + 1).map_values(|p: EntryPlan| p.written) =~= plans.take(k as int).map_values(
                |p: EntryPlan| p.written,
            ).push(plans[k as int].written));
        }
    }
    proof {
        assert(plans.take(m as int) =~= plans);
    }
    let bytes = match finish(writer) {
        Ok(bytes) => bytes,
        Err(e) => {
            proof {
                assert(!repack_succeeds(input, opts)) by {
                    reveal(repack_succeeds);
                }
            }
            return Err(EpubError::Archive(e));
        },
    };
    proof {
        assert(repack_succeeds(input, opts)) by {
            reveal(repack_succeeds);
        }
        assert(plans.map_values(|p: EntryPlan| p.written).map_values(
            |e: WrittenEntry| (e.0, e.3),
        ) =~= repack_written(input, opts));
    }
    Ok((bytes, stats))
}

} // verus!

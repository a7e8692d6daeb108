//! Cleaning: strip invisible/format carriers, fold space homoglyphs.

use super::context::{valid_bidi_embedding_indices, valid_flag_tag_indices};
use super::decide::{
    decide, mongolian_anchor_indices, mongolian_anchored, output_of_rule, CleanOptions, Rule,
};
use super::labels::{char_label, char_label_of, counts, tally_view, Tally};
use super::scan::{layer_a, scan};
use super::tables::is_glue;
use super::ucd::{nfkc, nfkc_normalized};
use crate::text::{collect_chars, push_char};
use vstd::prelude::*;

verus! {

/// Statistics from cleaning a text.
pub struct CleanStats {
    /// Number of input characters.
    pub input_length: usize,
    /// Number of output characters.
    pub output_length: usize,
    /// Number of characters stripped.
    pub removed_count: usize,
    /// Number of characters replaced.
    pub replaced_count: usize,
    /// NFKC normalisation was requested and changed the text.
    pub nfkc_changed: bool,
    /// Stripped characters per label `U+XXXX (Category)`, in ascending label order.
    pub removed: Vec<(String, usize)>,
    /// Replaced characters per label `U+XXXX (Category)`, in ascending label order.
    pub replaced: Vec<(String, usize)>,
}

/// The labels of a sequence of characters.
pub open spec fn labels_of(cs: Seq<char>) -> Seq<Seq<char>> {
    cs.map_values(|c: char| char_label_of(c))
}

/// The cleaned text: the output of the pass, NFKC-normalised when requested.
pub open spec fn cleaned_text(s: Seq<char>, opts: CleanOptions) -> Seq<char> {
    let out = layer_a(s, opts).out;
    if opts.nfkc {
        nfkc_normalized(out)
    } else {
        out
    }
}

/// What `clean_text` reports about cleaning `s`.
pub open spec fn clean_stats_match(stats: CleanStats, s: Seq<char>, opts: CleanOptions) -> bool {
    let st = layer_a(s, opts);
    &&& stats.input_length == s.len()
    &&& stats.output_length == cleaned_text(s, opts).len()
    &&& stats.removed_count == st.removed.len()
    &&& stats.replaced_count == st.replaced.len()
    &&& stats.nfkc_changed == (opts.nfkc && nfkc_normalized(st.out) != st.out)
    &&& counts(tally_view(stats.removed@), labels_of(st.removed))
    &&& counts(tally_view(stats.replaced@), labels_of(st.replaced))
}

proof fn lemma_labels_push(cs: Seq<char>, c: char)
    ensures
        labels_of(cs.push(c)) == labels_of(cs).push(char_label_of(c)),
{
    assert(labels_of(cs.push(c)) =~= labels_of(cs).push(char_label_of(c)));
}

pub proof fn lemma_scan_sizes(s: Seq<char>, n: nat, opts: CleanOptions)
    ensures
        scan(s, n, opts).removed.len() + scan(s, n, opts).replaced.len() <= n,
        scan(s, n, opts).out.len() <= n,
    decreases n,
{
    if n > 0 {
        lemma_scan_sizes(s, (n - 1) as nat, opts);
    }
}

/// Clean text: strip invisible/format carriers, fold space homoglyphs.
pub fn clean_text(text: &str, opts: CleanOptions) -> (r: (String, CleanStats))
    ensures
        r.0@ == cleaned_text(text@, opts),
        clean_stats_match(r.1, text@, opts),
{
    let chars = collect_chars(text);
    let flag_tags = valid_flag_tag_indices(&chars);
    let bidi_pairs = valid_bidi_embedding_indices(&chars);
    let anchors = mongolian_anchor_indices(&chars);
    let ghost s = chars@;
    let n = chars.len();

    let mut out = String::new();
    assert(labels_of(scan(s, 0, opts).removed) =~= Seq::<Seq<char>>::empty());
    assert(labels_of(scan(s, 0, opts).replaced) =~= Seq::<Seq<char>>::empty());
    let mut removed = Tally::new();
    let mut replaced = Tally::new();
    let mut removed_count: usize = 0;
    let mut replaced_count: usize = 0;
    let mut prev_kept: Option<char> = None;

    for i in 0..n
        invariant
            n == s.len(),
            s == chars@,
            s == text@,
            flag_tags@.len() == n,
            bidi_pairs@.len() == n,
            forall|k: int| 0 <= k < n ==> flag_tags@[k] == super::context::in_flag_sequence(s, k),
            forall|k: int| 0 <= k < n ==> bidi_pairs@[k] == super::context::in_bidi_embedding(s, k),
            anchors@.len() == n,
            forall|k: int| 0 <= k < n ==> anchors@[k] == mongolian_anchored(s, k),
            prev_kept == scan(s, i as nat, opts).prev_kept,
            out@ == scan(s, i as nat, opts).out,
            removed_count == scan(s, i as nat, opts).removed.len(),
            replaced_count == scan(s, i as nat, opts).replaced.len(),
            removed.wf(),
            replaced.wf(),
            counts(removed.view_seq(), labels_of(scan(s, i as nat, opts).removed)),
            counts(replaced.view_seq(), labels_of(scan(s, i as nat, opts).replaced)),
    {
        proof {
            lemma_scan_sizes(s, i as nat, opts);
        }
        let ghost st = scan(s, i as nat, opts);
        let ch = chars[i];
        let prev_input = if i > 0 {
            Some(chars[i - 1])
        } else {
            None
        };
        let next_input = if i + 1 < n {
            Some(chars[i + 1])
        } else {
            None
        };
        let rule = decide(
            ch,
            prev_kept,
            prev_input,
            next_input,
            flag_tags[i],
            bidi_pairs[i],
            anchors[i],
            i > 0 && anchors[i - 1],
            &opts,
        );
        if rule == Rule::StripTable || rule == Rule::OtherFormat {
            proof {
                lemma_labels_push(st.removed, ch);
            }
            removed.add(char_label(ch), Ghost(labels_of(st.removed)));
            removed_count += 1;
        } else if rule == Rule::SpaceFold || rule == Rule::Confusable {
            let out_char = output_of_rule(rule, ch);
            push_char(&mut out, out_char);
            proof {
                lemma_labels_push(st.replaced, ch);
            }
            replaced.add(char_label(ch), Ghost(labels_of(st.replaced)));
            replaced_count += 1;
            prev_kept = Some(out_char);
        } else {
            push_char(&mut out, ch);
            if !is_glue(ch as u32) {
                prev_kept = Some(ch);
            }
        }
    }

    let ghost st = layer_a(s, opts);
    let mut nfkc_changed = false;
    if opts.nfkc {
        let normalized = nfkc(out.as_str());
        if normalized != out {
            nfkc_changed = true;
            out = normalized;
        }
    }
    let output_length = out.as_str().unicode_len();
    let stats = CleanStats {
        input_length: n,
        output_length,
        removed_count,
        replaced_count,
        nfkc_changed,
        removed: removed.into_pairs(),
        replaced: replaced.into_pairs(),
    };
    (out, stats)
}

} // verus!

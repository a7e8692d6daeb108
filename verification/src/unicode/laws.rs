//! Laws of cleaning and detection, proved over the specification of the pass.

use super::clean::{clean_stats_match, cleaned_text, labels_of, CleanStats};
use super::labels::{
    char_label_of, lemma_char_label_injective, lemma_counts_total, occurrences, tally_view,
    total_count,
};
use super::context::{flag_block, in_bidi_embedding, in_flag_sequence, lemma_bidi_scan_shape};
use super::decide::{
    base_rule, context_keeps, joining_neighbour_kept, joining_script_of, lemma_mongolian_anchored_step,
    mongolian_anchor_run, mongolian_anchored, settled, khmer_letter, lemma_decide_shape, rule_keeps,
    rule_replaces, rule_strips, CleanOptions, Rule,
};
use super::inspect::{carrier_positions, flagged, flagged_positions, inspect_options};
use super::passes::{
    kept_at, lemma_bidi_embedding_survives, lemma_kept_run, lemma_flag_base_kept, lemma_flag_sequence_survives,
    lemma_flag_tag_kept, lemma_lands_at, lemma_prev_kept_is_last_non_glue,
    lemma_replacement_is_ascii, lemma_scan_out_prefix, out_pos,
};
use super::scan::{
    final_rule, layer_a, lemma_scan_rules_prefix, next_input_at, prev_input_at, rule_at, scan,
};
use super::tables::{
    cjk_ideograph, confusable_target, emoji_base, glue, hangul_filler, hangul_jamo, khmer_vowel, mongolian_base,
    mongolian_fvs, orthographic_cf, script_joiner, vs_supplement,
};
use vstd::prelude::*;

verus! {

/// The rule the pass applies at position `i` of `s`.
pub open spec fn pass_rule(s: Seq<char>, i: int, opts: CleanOptions) -> Rule {
    rule_at(s, i, scan(s, i as nat, opts).prev_kept, opts)
}

/// Position `i` is kept only because of its neighbours: a Mongolian free
/// variation selector anchored on a Mongolian-block character, or a
/// ZWNJ/ZWJ between two kept letters or marks of one joining script.
pub open spec fn kept_for_neighbours(s: Seq<char>, i: int, opts: CleanOptions) -> bool {
    pass_rule(s, i, opts) is MongolianSelectorAfterBase || pass_rule(s, i, opts) is ScriptJoiner
}

/// Position `i` of `s` is kept again when the pass runs over the cleaned
/// output, at the place where `i` landed and in the same context.
pub open spec fn kept_again_at(s: Seq<char>, i: int, opts: CleanOptions) -> bool {
    rule_keeps(
        rule_at(layer_a(s, opts).out, out_pos(s, i, opts), scan(s, i as nat, opts).prev_kept, opts),
    )
}

/// Every character kept for its neighbours is kept again in the cleaned
/// output.
pub open spec fn neighbour_keeps_hold(s: Seq<char>, opts: CleanOptions) -> bool {
    forall|i: int|
        0 <= i < s.len() && #[trigger] kept_for_neighbours(s, i, opts) ==> kept_again_at(s, i, opts)
}

/// A character kept or replaced by the pass is kept again when the pass runs
/// over the output, in the same `prev_kept` context.
proof fn lemma_kept_again(s: Seq<char>, p: int, opts: CleanOptions)
    requires
        0 <= p < s.len(),
        kept_for_neighbours(s, p, opts) ==> kept_again_at(s, p, opts),
        !rule_strips(pass_rule(s, p, opts)),
    ensures
        rule_keeps(
            rule_at(
                layer_a(s, opts).out,
                out_pos(s, p, opts),
                scan(s, p as nat, opts).prev_kept,
                opts,
            ),
        ),
{
    let t = layer_a(s, opts).out;
    let pk = scan(s, p as nat, opts).prev_kept;
    let r1 = pass_rule(s, p, opts);
    let jp = out_pos(s, p, opts);
    lemma_lands_at(s, p, opts);
    let d = t[jp];
    let pi1 = prev_input_at(s, p);
    let ni1 = next_input_at(s, p);
    let f1 = in_flag_sequence(s, p);
    let b1 = in_bidi_embedding(s, p);
    let a1 = mongolian_anchored(s, p);
    let pa1 = p > 0 && mongolian_anchored(s, p - 1);
    let pi2 = prev_input_at(t, jp);
    let ni2 = next_input_at(t, jp);
    let f2 = in_flag_sequence(t, jp);
    let b2 = in_bidi_embedding(t, jp);
    let a2 = mongolian_anchored(t, jp);
    let pa2 = jp > 0 && mongolian_anchored(t, jp - 1);
    lemma_decide_shape(s[p], pk, pi1, ni1, f1, b1, a1, pa1, opts);
    lemma_decide_shape(d, pk, pi2, ni2, f2, b2, a2, pa2, opts);
    if rule_replaces(r1) {
        lemma_replacement_is_ascii(s[p], pk, pi1, ni1, f1, b1, a1, pa1, opts);
        assert(base_rule(d, opts) == Rule::Plain);
    } else if rule_keeps(base_rule(s[p], opts)) {
        assert(d == s[p]);
    } else {
        assert(d == s[p]);
        assert(context_keeps(s[p], pk, pi1, ni1, f1, b1, a1, pa1, opts));
        let cp = s[p] as u32;
        if r1 is PairedEmbedding {
            lemma_bidi_embedding_survives(s, p, opts);
        } else if r1 is PreservedBidi || r1 is OrthographicFormat || r1 is MongolianSelectorAfterLetter
            || r1 is KhmerVowel || r1 is HangulFiller {
        } else if r1 is IdeographSelector || r1 is EmojiSelector {
            let q = p - 1;
            lemma_decide_shape(
                s[q],
                scan(s, q as nat, opts).prev_kept,
                prev_input_at(s, q),
                next_input_at(s, q),
                in_flag_sequence(s, q),
                in_bidi_embedding(s, q),
                mongolian_anchored(s, q),
                q > 0 && mongolian_anchored(s, q - 1),
                opts,
            );
            assert(base_rule(s[q], opts) == Rule::Plain);
            lemma_lands_at(s, q, opts);
            assert(pi2 == Some(s[q]));
        } else if r1 is EmojiJoiner {
            let q = p + 1;
            lemma_decide_shape(
                s[q],
                scan(s, q as nat, opts).prev_kept,
                prev_input_at(s, q),
                next_input_at(s, q),
                in_flag_sequence(s, q),
                in_bidi_embedding(s, q),
                mongolian_anchored(s, q),
                q > 0 && mongolian_anchored(s, q - 1),
                opts,
            );
            assert(base_rule(s[q], opts) == Rule::Plain);
            lemma_lands_at(s, q, opts);
            assert(ni2 == Some(s[q]));
        } else if r1 is FlagTag {
            lemma_flag_sequence_survives(s, p, opts);
        }
        if !kept_for_neighbours(s, p, opts) {
            assert(context_keeps(d, pk, pi2, ni2, f2, b2, a2, pa2, opts));
        }
    }
}

/// An anchored Mongolian selector position stays anchored in the output of
/// the pass: its anchor and the selectors after it are all kept, side by
/// side.
proof fn lemma_anchor_survives(s: Seq<char>, p: int, opts: CleanOptions)
    requires
        0 <= p <= s.len(),
        mongolian_anchored(s, p),
        !opts.strip_emoji_glue,
    ensures
        mongolian_anchored(layer_a(s, opts).out, out_pos(s, p, opts)),
{
    let t = layer_a(s, opts).out;
    let j = choose|j: int| #[trigger] mongolian_anchor_run(s, j, p);
    assert forall|m: int| j <= m < p implies #[trigger] kept_at(s, m, opts) by {
        if m == j {
            assert(base_rule(s[j], opts) == Rule::Plain);
            lemma_plain_kept(s, j, opts);
        } else {
            assert(mongolian_fvs(s[m] as u32));
            assert(mongolian_anchor_run(s, j, m));
            lemma_decide_shape(
                s[m],
                scan(s, m as nat, opts).prev_kept,
                prev_input_at(s, m),
                next_input_at(s, m),
                in_flag_sequence(s, m),
                in_bidi_embedding(s, m),
                mongolian_anchored(s, m),
                m > 0 && mongolian_anchored(s, m - 1),
                opts,
            );
        }
    }
    lemma_kept_run(s, j, p, opts);
    let oj = out_pos(s, j, opts);
    assert(kept_at(s, j, opts));
    assert(kept_at(s, p - 1, opts));
    lemma_lands_at(s, j, opts);
    lemma_lands_at(s, p - 1, opts);
    assert(out_pos(s, p - 1, opts) == oj + (p - 1 - j));
    assert(t[oj] == s[j]);
    assert forall|m: int| oj < m < out_pos(s, p, opts) implies mongolian_fvs(#[trigger] t[m] as u32) by {
        let k = j + (m - oj);
        assert(out_pos(s, k, opts) == oj + (k - j));
        assert(kept_at(s, k, opts));
        lemma_lands_at(s, k, opts);
        assert(t[m] == s[k]);
        assert(mongolian_fvs(s[k] as u32));
    }
    assert(mongolian_anchor_run(t, oj, out_pos(s, p, opts)));
}

/// A letter or mark of a joining script for which `joining_neighbour_kept`
/// holds, in the context of a joiner beside it, is kept by the pass.
proof fn lemma_joining_neighbour_is_kept(s: Seq<char>, q: int, pk: Option<char>, opts: CleanOptions)
    requires
        0 <= q < s.len(),
        glue(s[q] as u32) ==> pk == scan(s, q as nat, opts).prev_kept,
        joining_neighbour_kept(s[q], pk, mongolian_anchored(s, q), opts),
    ensures
        kept_at(s, q, opts),
{
    lemma_decide_shape(
        s[q],
        scan(s, q as nat, opts).prev_kept,
        prev_input_at(s, q),
        next_input_at(s, q),
        in_flag_sequence(s, q),
        in_bidi_embedding(s, q),
        mongolian_anchored(s, q),
        q > 0 && mongolian_anchored(s, q - 1),
        opts,
    );
}

/// Every character kept for its neighbours is kept again in the cleaned
/// output: its neighbours are kept, so they stand beside it there, and a
/// Mongolian anchor survives.
pub proof fn lemma_neighbour_keeps_always_hold(s: Seq<char>, opts: CleanOptions)
    ensures
        neighbour_keeps_hold(s, opts),
{
    assert forall|p: int| 0 <= p < s.len() && #[trigger] kept_for_neighbours(s, p, opts) implies kept_again_at(s, p, opts) by {
        let t = layer_a(s, opts).out;
        let pk = scan(s, p as nat, opts).prev_kept;
        let r1 = pass_rule(s, p, opts);
        lemma_lands_at(s, p, opts);
        let jp = out_pos(s, p, opts);
        let d = t[jp];
        let pi2 = prev_input_at(t, jp);
        let ni2 = next_input_at(t, jp);
        let f2 = in_flag_sequence(t, jp);
        let b2 = in_bidi_embedding(t, jp);
        let a2 = mongolian_anchored(t, jp);
        let pa2 = jp > 0 && mongolian_anchored(t, jp - 1);
        assert(d == s[p]);
        if r1 is MongolianSelectorAfterBase {
            lemma_anchor_survives(s, p, opts);
        } else {
            let q = p - 1;
            let r = p + 1;
            assert(scan(s, p as nat, opts).prev_kept == scan(s, q as nat, opts).prev_kept || !glue(s[q] as u32));
            lemma_joining_neighbour_is_kept(s, q, pk, opts);
            lemma_mongolian_anchored_step(s, p);
            assert(!mongolian_anchored(s, r));
            assert(scan(s, r as nat, opts).prev_kept == pk);
            lemma_joining_neighbour_is_kept(s, r, pk, opts);
            lemma_lands_at(s, q, opts);
            lemma_lands_at(s, r, opts);
            assert(pi2 == Some(s[q]));
            assert(ni2 == Some(s[r]));
            assert(out_pos(s, q, opts) == jp - 1);
            if mongolian_anchored(s, q) {
                lemma_anchor_survives(s, q, opts);
            }
            assert(joining_neighbour_kept(s[q], pk, pa2, opts));
        }
        assert(context_keeps(d, pk, pi2, ni2, f2, b2, a2, pa2, opts));
        lemma_decide_shape(d, pk, pi2, ni2, f2, b2, a2, pa2, opts);
    }
}

/// Running the pass over the output in step with the input: after the input
/// prefix of length `i`, the pass over the output prefix where it lands has
/// kept every character and produced the same output.
proof fn lemma_second_pass_prefix(s: Seq<char>, i: nat, opts: CleanOptions)
    requires
        i <= s.len(),
        forall|q: int|
            0 <= q < i && #[trigger] kept_for_neighbours(s, q, opts) ==> kept_again_at(s, q, opts),
    ensures
        out_pos(s, i as int, opts) <= layer_a(s, opts).out.len(),
        scan(layer_a(s, opts).out, out_pos(s, i as int, opts) as nat, opts).out == scan(s, i, opts).out,
        scan(layer_a(s, opts).out, out_pos(s, i as int, opts) as nat, opts).prev_kept == scan(s, i, opts).prev_kept,
        scan(layer_a(s, opts).out, out_pos(s, i as int, opts) as nat, opts).removed.len() == 0,
        scan(layer_a(s, opts).out, out_pos(s, i as int, opts) as nat, opts).replaced.len() == 0,
    decreases i,
{
    let t = layer_a(s, opts).out;
    lemma_scan_out_prefix(s, i, s.len(), opts);
    if i > 0 {
        let p = (i - 1) as int;
        lemma_second_pass_prefix(s, p as nat, opts);
        let r1 = pass_rule(s, p, opts);
        if !rule_strips(r1) {
            lemma_kept_again(s, p, opts);
            lemma_lands_at(s, p, opts);
            let jp = out_pos(s, p, opts);
            let st2 = scan(t, jp as nat, opts);
            let r2 = rule_at(t, jp, st2.prev_kept, opts);
            assert(rule_keeps(r2));
            assert(scan(t, (jp + 1) as nat, opts).out == st2.out.push(t[jp]));
            lemma_prev_kept_is_last_non_glue(t, (jp + 1) as nat, opts);
            lemma_prev_kept_is_last_non_glue(s, i, opts);
        }
    }
}

/// Cleaning is idempotent: the pass over the cleaned output keeps every
/// character, so cleaning it again changes nothing and strips or replaces
/// nothing; without NFKC normalisation, cleaning the cleaned text gives it
/// back unchanged.
pub proof fn lemma_clean_idempotent(s: Seq<char>, opts: CleanOptions)
    ensures
        layer_a(layer_a(s, opts).out, opts).out == layer_a(s, opts).out,
        layer_a(layer_a(s, opts).out, opts).removed.len() == 0,
        layer_a(layer_a(s, opts).out, opts).replaced.len() == 0,
        !opts.nfkc ==> cleaned_text(cleaned_text(s, opts), opts) == cleaned_text(s, opts),
{
    lemma_neighbour_keeps_always_hold(s, opts);
    lemma_second_pass_prefix(s, s.len(), opts);
    assert(out_pos(s, s.len() as int, opts) == layer_a(s, opts).out.len());
}

/// Detection counts exactly what cleaning with the same settings strips or
/// replaces: the number of carrier positions `inspect_text` reports equals the
/// stripped plus replaced characters of the pass.
pub proof fn lemma_detection_counts_cleaning(s: Seq<char>, opts: CleanOptions, n: nat)
    requires
        n <= s.len(),
    ensures
        flagged_positions(s, opts, n).len() == scan(s, n, opts).removed.len() + scan(
            s,
            n,
            opts,
        ).replaced.len(),
    decreases n,
{
    if n > 0 {
        lemma_detection_counts_cleaning(s, opts, (n - 1) as nat);
        lemma_scan_rules_prefix(s, n, s.len(), opts);
        lemma_scan_rules_prefix(s, (n - 1) as nat, (n - 1) as nat, opts);
        assert(final_rule(s, n - 1, opts) == scan(s, n, opts).rules[n - 1]);
    }
}

/// How often `c` occurs in `cs`.
pub open spec fn char_count(cs: Seq<char>, c: char) -> nat
    decreases cs.len(),
{
    if cs.len() == 0 {
        0
    } else {
        char_count(cs.drop_last(), c) + if cs.last() == c {
            1nat
        } else {
            0nat
        }
    }
}

proof fn lemma_char_count_push(cs: Seq<char>, x: char, c: char)
    ensures
        char_count(cs.push(x), c) == char_count(cs, c) + if x == c {
            1nat
        } else {
            0nat
        },
{
    assert(cs.push(x).drop_last() =~= cs);
}

/// Counting a character's label among labels counts the character.
proof fn lemma_label_count(cs: Seq<char>, c: char)
    ensures
        occurrences(labels_of(cs), char_label_of(c)) == char_count(cs, c),
    decreases cs.len(),
{
    if cs.len() > 0 {
        lemma_label_count(cs.drop_last(), c);
        assert(labels_of(cs).drop_last() =~= labels_of(cs.drop_last()));
        if char_label_of(cs.last()) == char_label_of(c) {
            lemma_char_label_injective(cs.last(), c);
        }
    }
}

/// The positions where `c` is a carrier are its stripped and replaced
/// occurrences.
proof fn lemma_carrier_count(s: Seq<char>, opts: CleanOptions, c: char, n: nat)
    requires
        n <= s.len(),
    ensures
        carrier_positions(s, opts, c, n).len() == char_count(scan(s, n, opts).removed, c)
            + char_count(scan(s, n, opts).replaced, c),
    decreases n,
{
    if n > 0 {
        lemma_carrier_count(s, opts, c, (n - 1) as nat);
        lemma_scan_rules_prefix(s, n, s.len(), opts);
        lemma_scan_rules_prefix(s, (n - 1) as nat, (n - 1) as nat, opts);
        assert(final_rule(s, n - 1, opts) == scan(s, n, opts).rules[n - 1]);
        let st = scan(s, (n - 1) as nat, opts);
        lemma_char_count_push(st.removed, s[n - 1], c);
        lemma_char_count_push(st.replaced, s[n - 1], c);
    }
}

/// Detection reports each carrier as cleaning tallies it: for every
/// character, the number of times inspection with the same settings reports
/// it as a carrier equals the number of its label among the stripped
/// characters plus the number among the replaced ones.
pub proof fn lemma_hits_match_tallies(s: Seq<char>, opts: CleanOptions, c: char)
    ensures
        carrier_positions(s, opts, c, s.len()).len() == occurrences(
            labels_of(layer_a(s, opts).removed),
            char_label_of(c),
        ) + occurrences(labels_of(layer_a(s, opts).replaced), char_label_of(c)),
{
    lemma_carrier_count(s, opts, c, s.len());
    lemma_label_count(layer_a(s, opts).removed, c);
    lemma_label_count(layer_a(s, opts).replaced, c);
}

proof fn lemma_scan_accounts(s: Seq<char>, n: nat, opts: CleanOptions)
    requires
        n <= s.len(),
    ensures
        scan(s, n, opts).out.len() + scan(s, n, opts).removed.len() == n,
    decreases n,
{
    if n > 0 {
        lemma_scan_accounts(s, (n - 1) as nat, opts);
    }
}

/// The statistics of a clean add up: the per-label counts of stripped
/// characters sum to the stripped count, those of replaced characters to the
/// replaced count, and the pass keeps the input's characters less the
/// stripped ones.
pub proof fn lemma_clean_stats_add_up(stats: CleanStats, s: Seq<char>, opts: CleanOptions)
    requires
        clean_stats_match(stats, s, opts),
    ensures
        total_count(tally_view(stats.removed@)) == stats.removed_count,
        total_count(tally_view(stats.replaced@)) == stats.replaced_count,
        layer_a(s, opts).out.len() == stats.input_length - stats.removed_count,
{
    let st = layer_a(s, opts);
    lemma_counts_total(tally_view(stats.removed@), labels_of(st.removed));
    lemma_counts_total(tally_view(stats.replaced@), labels_of(st.replaced));
    lemma_scan_accounts(s, s.len(), opts);
}

/// The text holds no bidi control character.
pub open spec fn no_bidi_controls(t: Seq<char>) -> bool {
    forall|k: int| 0 <= k < t.len() ==> !super::tables::bidi_cp(#[trigger] t[k] as u32)
}

/// The text holds no space homoglyph.
pub open spec fn no_space_homoglyphs(t: Seq<char>) -> bool {
    forall|k: int| 0 <= k < t.len() ==> !super::tables::space_homoglyph_cp(#[trigger] t[k] as u32)
}

/// Settings that concern characters the text does not hold make no
/// difference to the pass.
proof fn lemma_absent_settings_irrelevant(t: Seq<char>, o1: CleanOptions, o2: CleanOptions, n: nat)
    requires
        n <= t.len(),
        o1.aggressive_homoglyphs == o2.aggressive_homoglyphs,
        o1.strip_emoji_glue == o2.strip_emoji_glue,
        o1.normalize_spaces == o2.normalize_spaces || no_space_homoglyphs(t),
        o1.strip_bidi == o2.strip_bidi || no_bidi_controls(t),
    ensures
        scan(t, n, o1).out == scan(t, n, o2).out,
        scan(t, n, o1).prev_kept == scan(t, n, o2).prev_kept,
        scan(t, n, o1).removed == scan(t, n, o2).removed,
        scan(t, n, o1).replaced == scan(t, n, o2).replaced,
    decreases n,
{
    if n > 0 {
        let i = n - 1;
        lemma_absent_settings_irrelevant(t, o1, o2, i as nat);
        if o1.strip_bidi != o2.strip_bidi {
            super::context::lemma_bidi_scan_shape(t, t.len());
            assert(!in_bidi_embedding(t, i)) by {
                if in_bidi_embedding(t, i) {
                    assert(!super::tables::bidi_cp(t[i] as u32));
                }
            }
            assert(!super::tables::bidi_cp(t[i] as u32));
        }
        if o1.normalize_spaces != o2.normalize_spaces {
            assert(!super::tables::space_homoglyph_cp(t[i] as u32));
        }
        let pk = scan(t, i as nat, o1).prev_kept;
        assert(rule_at(t, i, pk, o1) == rule_at(t, i, pk, o2));
    }
}

/// Cleaned text is detected clean: when no NFKC normalisation is asked for,
/// space homoglyphs are folded or none is left in the cleaned text, and
/// bidi controls are stripped or none is left in it, inspecting the cleaned
/// text with the same homoglyph and glue settings finds no carrier.
pub proof fn lemma_cleaned_text_detects_clean(s: Seq<char>, opts: CleanOptions)
    requires
        !opts.nfkc,
        opts.normalize_spaces || no_space_homoglyphs(cleaned_text(s, opts)),
        opts.strip_bidi || no_bidi_controls(cleaned_text(s, opts)),
    ensures
        flagged_positions(
            cleaned_text(s, opts),
            inspect_options(opts.aggressive_homoglyphs, opts.strip_emoji_glue),
            cleaned_text(s, opts).len(),
        ).len() == 0,
{
    let t = cleaned_text(s, opts);
    let o = inspect_options(opts.aggressive_homoglyphs, opts.strip_emoji_glue);
    lemma_clean_idempotent(s, opts);
    lemma_detection_counts_cleaning(t, o, t.len());
    lemma_absent_settings_irrelevant(t, o, opts, t.len());
}

/// Position `i` of `s` survives cleaning: the character stays, unchanged, at
/// its place in the output of the pass.
pub open spec fn preserved(s: Seq<char>, i: int, opts: CleanOptions) -> bool {
    &&& kept_at(s, i, opts)
    &&& 0 <= out_pos(s, i, opts) < layer_a(s, opts).out.len()
    &&& layer_a(s, opts).out[out_pos(s, i, opts)] == s[i]
}

proof fn lemma_kept_is_preserved(s: Seq<char>, i: int, opts: CleanOptions)
    requires
        0 <= i < s.len(),
        kept_at(s, i, opts),
    ensures
        preserved(s, i, opts),
{
    lemma_lands_at(s, i, opts);
}

/// A character whose rule keeps it whatever its context is kept.
proof fn lemma_plain_kept(s: Seq<char>, i: int, opts: CleanOptions)
    requires
        0 <= i < s.len(),
        base_rule(s[i], opts) == Rule::Plain,
    ensures
        kept_at(s, i, opts),
{
    let pk = scan(s, i as nat, opts).prev_kept;
    lemma_decide_shape(
        s[i],
        pk,
        prev_input_at(s, i),
        next_input_at(s, i),
        in_flag_sequence(s, i),
        in_bidi_embedding(s, i),
        mongolian_anchored(s, i),
        i > 0 && mongolian_anchored(s, i - 1),
        opts,
    );
}

/// After a kept character that is not glue, the pass remembers it as the
/// last kept character.
proof fn lemma_prev_kept_after(s: Seq<char>, i: int, opts: CleanOptions)
    requires
        0 <= i < s.len(),
        kept_at(s, i, opts),
        !glue(s[i] as u32),
    ensures
        scan(s, (i + 1) as nat, opts).prev_kept == Some(s[i]),
{
}

/// An emoji base is an ordinary character and not glue.
proof fn lemma_emoji_base_plain(c: char, opts: CleanOptions)
    requires
        emoji_base(c as u32),
    ensures
        base_rule(c, opts) == Rule::Plain,
        !glue(c as u32),
{
}

/// Glue after a kept non-glue character, kept or not, leaves it the last
/// kept character.
proof fn lemma_glue_run_keeps_prev(s: Seq<char>, j: int, m: int, opts: CleanOptions)
    requires
        0 <= j < m <= s.len(),
        scan(s, (j + 1) as nat, opts).prev_kept == Some(s[j]),
        forall|k: int| j < k < m ==> glue(#[trigger] s[k] as u32),
    ensures
        scan(s, m as nat, opts).prev_kept == Some(s[j]),
    decreases m - j,
{
    if m > j + 1 {
        lemma_glue_run_keeps_prev(s, j, m - 1, opts);
        assert(glue(s[m - 1] as u32));
    }
}

/// Emoji ZWJ sequences survive: unless emoji glue is stripped, a ZWJ between
/// two emoji bases, where only VS15/VS16 selectors stand between the first
/// base and the ZWJ, is kept.
pub proof fn lemma_emoji_zwj_preserved(s: Seq<char>, j: int, i: int, opts: CleanOptions)
    requires
        !opts.strip_emoji_glue,
        0 <= j < i,
        i + 1 < s.len(),
        emoji_base(s[j] as u32),
        forall|m: int| j < m < i ==> (#[trigger] s[m] as u32 == 0xFE0E || s[m] as u32 == 0xFE0F),
        s[i] as u32 == 0x200D,
        emoji_base(s[i + 1] as u32),
    ensures
        preserved(s, i, opts),
{
    lemma_emoji_base_plain(s[j], opts);
    lemma_plain_kept(s, j, opts);
    lemma_prev_kept_after(s, j, opts);
    assert forall|k: int| j < k < i implies glue(#[trigger] s[k] as u32) by {
        assert(s[k] as u32 == 0xFE0E || s[k] as u32 == 0xFE0F);
    }
    lemma_glue_run_keeps_prev(s, j, i, opts);
    lemma_emoji_base_plain(s[i + 1], opts);
    let pk = scan(s, i as nat, opts).prev_kept;
    lemma_decide_shape(
        s[i],
        pk,
        prev_input_at(s, i),
        next_input_at(s, i),
        in_flag_sequence(s, i),
        in_bidi_embedding(s, i),
        mongolian_anchored(s, i),
        i > 0 && mongolian_anchored(s, i - 1),
        opts,
    );
    lemma_kept_is_preserved(s, i, opts);
}

/// Emoji presentation selectors survive: unless emoji glue is stripped, VS15
/// or VS16 right after an emoji base is kept.
pub proof fn lemma_emoji_selector_preserved(s: Seq<char>, i: int, opts: CleanOptions)
    requires
        !opts.strip_emoji_glue,
        0 < i < s.len(),
        s[i] as u32 == 0xFE0E || s[i] as u32 == 0xFE0F,
        emoji_base(s[i - 1] as u32),
    ensures
        preserved(s, i, opts),
{
    lemma_decide_shape(
        s[i],
        scan(s, i as nat, opts).prev_kept,
        prev_input_at(s, i),
        next_input_at(s, i),
        in_flag_sequence(s, i),
        in_bidi_embedding(s, i),
        mongolian_anchored(s, i),
        i > 0 && mongolian_anchored(s, i - 1),
        opts,
    );
    lemma_kept_is_preserved(s, i, opts);
}

/// CJK variation selectors survive: unless emoji glue is stripped, a
/// variation selector (U+FE00..U+FE0D or the supplement) right after a CJK
/// ideograph is kept.
pub proof fn lemma_ideograph_selector_preserved(s: Seq<char>, i: int, opts: CleanOptions)
    requires
        !opts.strip_emoji_glue,
        0 < i < s.len(),
        vs_supplement(s[i] as u32) || 0xFE00 <= s[i] as u32 <= 0xFE0D,
        cjk_ideograph(s[i - 1] as u32),
    ensures
        preserved(s, i, opts),
{
    lemma_decide_shape(
        s[i],
        scan(s, i as nat, opts).prev_kept,
        prev_input_at(s, i),
        next_input_at(s, i),
        in_flag_sequence(s, i),
        in_bidi_embedding(s, i),
        mongolian_anchored(s, i),
        i > 0 && mongolian_anchored(s, i - 1),
        opts,
    );
    lemma_kept_is_preserved(s, i, opts);
}

/// A letter or mark of a joining script that the pass keeps satisfies
/// `joining_neighbour_kept`, taken with the last kept character before it
/// (or after it, when it is glue).
proof fn lemma_kept_joining_neighbour(s: Seq<char>, q: int, pk: Option<char>, opts: CleanOptions)
    requires
        0 <= q < s.len(),
        joining_script_of(s[q]) is Some,
        glue(s[q] as u32) ==> pk == scan(s, q as nat, opts).prev_kept,
        kept_at(s, q, opts),
    ensures
        joining_neighbour_kept(s[q], pk, mongolian_anchored(s, q), opts),
{
    super::context::lemma_bidi_scan_shape(s, s.len());
    if in_bidi_embedding(s, q) {
        assert(super::context::bidi_scan(s, s.len()).1.contains(q));
    }
    lemma_decide_shape(
        s[q],
        scan(s, q as nat, opts).prev_kept,
        prev_input_at(s, q),
        next_input_at(s, q),
        in_flag_sequence(s, q),
        in_bidi_embedding(s, q),
        mongolian_anchored(s, q),
        q > 0 && mongolian_anchored(s, q - 1),
        opts,
    );
}

/// Mongolian variation selectors survive: unless emoji glue is stripped, a
/// free variation selector right after a Mongolian-block character that the
/// pass keeps is kept.
pub proof fn lemma_mongolian_selector_preserved(s: Seq<char>, i: int, opts: CleanOptions)
    requires
        !opts.strip_emoji_glue,
        0 < i < s.len(),
        mongolian_fvs(s[i] as u32),
        mongolian_base(s[i - 1] as u32),
        kept_at(s, i - 1, opts),
    ensures
        preserved(s, i, opts),
{
    let q = i - 1;
    lemma_mongolian_anchored_step(s, q);
    super::context::lemma_bidi_scan_shape(s, s.len());
    if in_bidi_embedding(s, q) {
        assert(super::context::bidi_scan(s, s.len()).1.contains(q));
    }
    lemma_decide_shape(
        s[q],
        scan(s, q as nat, opts).prev_kept,
        prev_input_at(s, q),
        next_input_at(s, q),
        in_flag_sequence(s, q),
        in_bidi_embedding(s, q),
        mongolian_anchored(s, q),
        q > 0 && mongolian_anchored(s, q - 1),
        opts,
    );
    if !settled(s[q]) {
        assert(mongolian_fvs(s[q] as u32));
        assert(scan(s, i as nat, opts).prev_kept == scan(s, q as nat, opts).prev_kept);
    }
    lemma_decide_shape(
        s[i],
        scan(s, i as nat, opts).prev_kept,
        prev_input_at(s, i),
        next_input_at(s, i),
        in_flag_sequence(s, i),
        in_bidi_embedding(s, i),
        mongolian_anchored(s, i),
        i > 0 && mongolian_anchored(s, i - 1),
        opts,
    );
    lemma_kept_is_preserved(s, i, opts);
}

/// Script joiners survive: unless emoji glue is stripped, a ZWNJ or ZWJ
/// between two letters or marks of the same joining script (Arabic, Indic,
/// South-Asian, Khmer, Mongolian) that the pass keeps is kept.
pub proof fn lemma_script_joiner_preserved(s: Seq<char>, i: int, opts: CleanOptions)
    requires
        !opts.strip_emoji_glue,
        0 < i,
        i + 1 < s.len(),
        script_joiner(s[i] as u32),
        joining_script_of(s[i - 1]) is Some,
        joining_script_of(s[i - 1]) == joining_script_of(s[i + 1]),
        kept_at(s, i - 1, opts),
        kept_at(s, i + 1, opts),
    ensures
        preserved(s, i, opts),
{
    let pk = scan(s, i as nat, opts).prev_kept;
    assert(glue(s[i - 1] as u32) ==> pk == scan(s, (i - 1) as nat, opts).prev_kept);
    lemma_kept_joining_neighbour(s, i - 1, pk, opts);
    assert(scan(s, (i + 1) as nat, opts).prev_kept == pk);
    lemma_kept_joining_neighbour(s, i + 1, pk, opts);
    lemma_mongolian_anchored_step(s, i);
    assert(!mongolian_anchored(s, i + 1));
    lemma_decide_shape(
        s[i],
        pk,
        prev_input_at(s, i),
        next_input_at(s, i),
        in_flag_sequence(s, i),
        in_bidi_embedding(s, i),
        mongolian_anchored(s, i),
        i > 0 && mongolian_anchored(s, i - 1),
        opts,
    );
    lemma_kept_is_preserved(s, i, opts);
}

/// Complete flag tag sequences survive: unless emoji glue is stripped, every
/// character of a black flag, its tag characters and the cancel tag is kept.
pub proof fn lemma_flag_sequence_preserved(s: Seq<char>, a: int, b: int, k: int, opts: CleanOptions)
    requires
        !opts.strip_emoji_glue,
        flag_block(s, a, b),
        a <= k <= b,
    ensures
        preserved(s, k, opts),
{
    let pk = scan(s, k as nat, opts).prev_kept;
    if k == a {
        lemma_flag_base_kept(s, k, pk, opts);
    } else {
        assert(in_flag_sequence(s, k));
        lemma_flag_tag_kept(s, k, pk, opts);
    }
    lemma_kept_is_preserved(s, k, opts);
}

/// Paired bidi embeddings survive: unless bidi controls are stripped, both
/// ends of a matched LRE/RLE ... PDF pair are kept.
pub proof fn lemma_paired_embedding_preserved(s: Seq<char>, i: int, opts: CleanOptions)
    requires
        !opts.strip_bidi,
        0 <= i < s.len(),
        in_bidi_embedding(s, i),
    ensures
        preserved(s, i, opts),
{
    lemma_decide_shape(
        s[i],
        scan(s, i as nat, opts).prev_kept,
        prev_input_at(s, i),
        next_input_at(s, i),
        in_flag_sequence(s, i),
        in_bidi_embedding(s, i),
        mongolian_anchored(s, i),
        i > 0 && mongolian_anchored(s, i - 1),
        opts,
    );
    lemma_kept_is_preserved(s, i, opts);
}

/// Orthographic format marks survive: unless emoji glue is stripped, the
/// Arabic number signs, Syriac abbreviation mark and Kaithi number signs are
/// kept wherever they stand.
pub proof fn lemma_orthographic_format_preserved(s: Seq<char>, i: int, opts: CleanOptions)
    requires
        !opts.strip_emoji_glue,
        0 <= i < s.len(),
        orthographic_cf(s[i] as u32),
    ensures
        preserved(s, i, opts),
{
    lemma_decide_shape(
        s[i],
        scan(s, i as nat, opts).prev_kept,
        prev_input_at(s, i),
        next_input_at(s, i),
        in_flag_sequence(s, i),
        in_bidi_embedding(s, i),
        mongolian_anchored(s, i),
        i > 0 && mongolian_anchored(s, i - 1),
        opts,
    );
    lemma_kept_is_preserved(s, i, opts);
}

/// Same-script fillers survive: unless emoji glue is stripped, a Khmer
/// inherent vowel right after a Khmer letter, and a Hangul filler right after
/// a Hangul jamo that is not itself a filler, are kept.
pub proof fn lemma_script_filler_preserved(s: Seq<char>, i: int, opts: CleanOptions)
    requires
        !opts.strip_emoji_glue,
        0 < i < s.len(),
        (khmer_vowel(s[i] as u32) && khmer_letter(s[i - 1]) && !khmer_vowel(s[i - 1] as u32))
            || (hangul_filler(s[i] as u32) && hangul_jamo(s[i - 1] as u32) && !hangul_filler(
            s[i - 1] as u32,
        )),
    ensures
        preserved(s, i, opts),
{
    let p = s[i - 1];
    assert(base_rule(p, opts) == Rule::Plain);
    assert(!glue(p as u32));
    lemma_plain_kept(s, i - 1, opts);
    lemma_prev_kept_after(s, i - 1, opts);
    lemma_decide_shape(
        s[i],
        scan(s, i as nat, opts).prev_kept,
        prev_input_at(s, i),
        next_input_at(s, i),
        in_flag_sequence(s, i),
        in_bidi_embedding(s, i),
        mongolian_anchored(s, i),
        i > 0 && mongolian_anchored(s, i - 1),
        opts,
    );
    lemma_kept_is_preserved(s, i, opts);
}

/// The decision at position `i`, seen through `lemma_decide_shape`.
proof fn lemma_decide_at(s: Seq<char>, i: int, opts: CleanOptions)
    requires
        0 <= i < s.len(),
    ensures
        context_keeps(
            s[i],
            scan(s, i as nat, opts).prev_kept,
            prev_input_at(s, i),
            next_input_at(s, i),
            in_flag_sequence(s, i),
            in_bidi_embedding(s, i),
            mongolian_anchored(s, i),
            i > 0 && mongolian_anchored(s, i - 1),
            opts,
        ) ==> kept_at(s, i, opts),
        !context_keeps(
            s[i],
            scan(s, i as nat, opts).prev_kept,
            prev_input_at(s, i),
            next_input_at(s, i),
            in_flag_sequence(s, i),
            in_bidi_embedding(s, i),
            mongolian_anchored(s, i),
            i > 0 && mongolian_anchored(s, i - 1),
            opts,
        ) ==> rule_at(s, i, scan(s, i as nat, opts).prev_kept, opts) == base_rule(s[i], opts),
        final_rule(s, i, opts) == rule_at(s, i, scan(s, i as nat, opts).prev_kept, opts),
{
    lemma_decide_shape(
        s[i],
        scan(s, i as nat, opts).prev_kept,
        prev_input_at(s, i),
        next_input_at(s, i),
        in_flag_sequence(s, i),
        in_bidi_embedding(s, i),
        mongolian_anchored(s, i),
        i > 0 && mongolian_anchored(s, i - 1),
        opts,
    );
    lemma_scan_rules_prefix(s, (i + 1) as nat, s.len(), opts);
    lemma_scan_rules_prefix(s, i as nat, i as nat, opts);
    assert(scan(s, (i + 1) as nat, opts).rules[i] == rule_at(s, i, scan(s, i as nat, opts).prev_kept, opts));
    assert(final_rule(s, i, opts) == scan(s, (i + 1) as nat, opts).rules[i]);
}

/// Directional marks survive: unless bidi controls are stripped, every
/// ARABIC LETTER MARK (U+061C), LEFT-TO-RIGHT MARK (U+200E), RIGHT-TO-LEFT
/// MARK (U+200F) and isolate control (U+2066..U+2069) of the input is kept,
/// unchanged, in the output of the pass, which is the cleaned text when NFKC
/// is off; it is not counted as stripped.
pub proof fn lemma_directional_marks_preserved(s: Seq<char>, i: int, opts: CleanOptions)
    requires
        !opts.strip_bidi,
        0 <= i < s.len(),
        s[i] as u32 == 0x061C || s[i] as u32 == 0x200E || s[i] as u32 == 0x200F || (0x2066
            <= s[i] as u32 && s[i] as u32 <= 0x2069),
    ensures
        preserved(s, i, opts),
        !opts.nfkc ==> cleaned_text(s, opts)[out_pos(s, i, opts)] == s[i],
        out_pos(s, i + 1, opts) == out_pos(s, i, opts) + 1,
{
    lemma_decide_at(s, i, opts);
    lemma_kept_is_preserved(s, i, opts);
    lemma_lands_at(s, i, opts);
}

/// Emoji presentation selectors survive: unless emoji glue is stripped, a
/// VS15 (U+FE0E) or VS16 (U+FE0F) right after a code point of the arrows,
/// shapes and symbols blocks U+2190..U+25FF, U+2600..U+27BF, U+2B00..U+2BFF,
/// the emoji planes U+1F000..U+1FAFF, one of U+00A9, U+00AE, U+2122,
/// U+3030, U+303D, U+3297, U+3299, or a keycap base (`#`, `*`, a digit) is
/// kept unchanged by cleaning, and inspection (which never strips glue)
/// does not report it, whatever the homoglyph setting.
pub proof fn lemma_presentation_selector_after_symbol_kept(
    s: Seq<char>,
    i: int,
    opts: CleanOptions,
    aggressive: bool,
)
    requires
        !opts.strip_emoji_glue,
        0 < i < s.len(),
        s[i] as u32 == 0xFE0E || s[i] as u32 == 0xFE0F,
        ({
            let b = s[i - 1] as u32;
            ||| 0x2190 <= b <= 0x25FF
            ||| 0x2600 <= b <= 0x27BF
            ||| 0x2B00 <= b <= 0x2BFF
            ||| 0x1F000 <= b <= 0x1FAFF
            ||| b == 0x00A9 || b == 0x00AE || b == 0x2122 || b == 0x3030 || b == 0x303D
            ||| b == 0x3297 || b == 0x3299
            ||| b == 0x0023 || b == 0x002A
            ||| 0x0030 <= b <= 0x0039
        }),
    ensures
        preserved(s, i, opts),
        !flagged(s, inspect_options(aggressive, false), i),
{
    lemma_decide_at(s, i, opts);
    lemma_kept_is_preserved(s, i, opts);
    lemma_decide_at(s, i, inspect_options(aggressive, false));
}

/// Where position `i` of `s` lands in the output of the pass, and what it
/// becomes there.
pub open spec fn lands_as(s: Seq<char>, i: int, opts: CleanOptions, c: char) -> bool {
    0 <= out_pos(s, i, opts) < layer_a(s, opts).out.len() && layer_a(s, opts).out[out_pos(
        s,
        i,
        opts,
    )] == c
}

/// Lookalikes fold to the ASCII letter they imitate: in aggressive mode the
/// Cyrillic capitals А В Е К М Н О Р С Т Х become A B E K M H O P C T X,
/// the Cyrillic small а е о р с у х і become a e o p c y x i, and each
/// fullwidth Latin letter U+FF21+k / U+FF41+k becomes 'A'+k / 'a'+k.
pub proof fn lemma_lookalikes_fold_to_ascii(s: Seq<char>, i: int, opts: CleanOptions)
    requires
        opts.aggressive_homoglyphs,
        0 <= i < s.len(),
    ensures
        s[i] as u32 == 0x0410 ==> lands_as(s, i, opts, 'A'),
        s[i] as u32 == 0x0412 ==> lands_as(s, i, opts, 'B'),
        s[i] as u32 == 0x0415 ==> lands_as(s, i, opts, 'E'),
        s[i] as u32 == 0x041A ==> lands_as(s, i, opts, 'K'),
        s[i] as u32 == 0x041C ==> lands_as(s, i, opts, 'M'),
        s[i] as u32 == 0x041D ==> lands_as(s, i, opts, 'H'),
        s[i] as u32 == 0x041E ==> lands_as(s, i, opts, 'O'),
        s[i] as u32 == 0x0420 ==> lands_as(s, i, opts, 'P'),
        s[i] as u32 == 0x0421 ==> lands_as(s, i, opts, 'C'),
        s[i] as u32 == 0x0422 ==> lands_as(s, i, opts, 'T'),
        s[i] as u32 == 0x0425 ==> lands_as(s, i, opts, 'X'),
        s[i] as u32 == 0x0430 ==> lands_as(s, i, opts, 'a'),
        s[i] as u32 == 0x0435 ==> lands_as(s, i, opts, 'e'),
        s[i] as u32 == 0x043E ==> lands_as(s, i, opts, 'o'),
        s[i] as u32 == 0x0440 ==> lands_as(s, i, opts, 'p'),
        s[i] as u32 == 0x0441 ==> lands_as(s, i, opts, 'c'),
        s[i] as u32 == 0x0443 ==> lands_as(s, i, opts, 'y'),
        s[i] as u32 == 0x0445 ==> lands_as(s, i, opts, 'x'),
        s[i] as u32 == 0x0456 ==> lands_as(s, i, opts, 'i'),
        0xFF21 <= s[i] as u32 <= 0xFF3A ==> 0 <= out_pos(s, i, opts) < layer_a(s, opts).out.len()
            && layer_a(s, opts).out[out_pos(s, i, opts)] as u32 == s[i] as u32 - 0xFF21 + 0x41,
        0xFF41 <= s[i] as u32 <= 0xFF5A ==> 0 <= out_pos(s, i, opts) < layer_a(s, opts).out.len()
            && layer_a(s, opts).out[out_pos(s, i, opts)] as u32 == s[i] as u32 - 0xFF41 + 0x61,
{
    let cp = s[i] as u32;
    if confusable_target(cp) is Some {
        lemma_bidi_scan_shape(s, s.len());
        assert(!in_bidi_embedding(s, i));
        lemma_decide_at(s, i, opts);
        assert(base_rule(s[i], opts) == Rule::Confusable);
        lemma_lands_at(s, i, opts);
        if 0xFF21 <= cp <= 0xFF3A {
            let b = (cp - 0xFF21 + 0x41) as u8;
            assert(b as u32 == cp - 0xFF21 + 0x41);
        } else if 0xFF41 <= cp <= 0xFF5A {
            let b = (cp - 0xFF41 + 0x61) as u8;
            assert(b as u32 == cp - 0xFF41 + 0x61);
        }
    }
}

/// Stray carriers go: a ZERO WIDTH SPACE (U+200B), WORD JOINER (U+2060),
/// BYTE ORDER MARK (U+FEFF), SOFT HYPHEN (U+00AD) or bidi override (LRO
/// U+202D, RLO U+202E) is stripped by every pass, whatever its context and
/// the options, and inspection reports it.
pub proof fn lemma_stray_carriers_stripped(s: Seq<char>, i: int, opts: CleanOptions)
    requires
        0 <= i < s.len(),
        s[i] as u32 == 0x200B || s[i] as u32 == 0x2060 || s[i] as u32 == 0xFEFF || s[i] as u32
            == 0x00AD || s[i] as u32 == 0x202D || s[i] as u32 == 0x202E,
    ensures
        !kept_at(s, i, opts),
        out_pos(s, i + 1, opts) == out_pos(s, i, opts),
        flagged(s, opts, i),
{
    lemma_bidi_scan_shape(s, s.len());
    assert(!in_bidi_embedding(s, i));
    lemma_decide_at(s, i, opts);
}

/// A presentation selector after a plain ASCII letter is a stray selector:
/// VS15 (U+FE0E) or VS16 (U+FE0F) right after `A`..`Z` or `a`..`z` is
/// stripped, whatever the options.
pub proof fn lemma_selector_after_letter_stripped(s: Seq<char>, i: int, opts: CleanOptions)
    requires
        0 < i < s.len(),
        s[i] as u32 == 0xFE0E || s[i] as u32 == 0xFE0F,
        ('A' <= s[i - 1] && s[i - 1] <= 'Z') || ('a' <= s[i - 1] && s[i - 1] <= 'z'),
    ensures
        !kept_at(s, i, opts),
        out_pos(s, i + 1, opts) == out_pos(s, i, opts),
        flagged(s, opts, i),
{
    lemma_bidi_scan_shape(s, s.len());
    assert(!in_bidi_embedding(s, i));
    lemma_decide_at(s, i, opts);
}

/// Letters are left alone unless they are listed lookalikes folded in
/// aggressive mode: a Cyrillic character (U+0400..U+04FF) or fullwidth
/// Latin letter is kept unchanged when homoglyphs are not folded, and a
/// Cyrillic character other than А В Е К М Н О Р С Т Х а е о р с у х і is
/// kept unchanged in every mode.
pub proof fn lemma_unlisted_letters_kept(s: Seq<char>, i: int, opts: CleanOptions)
    requires
        0 <= i < s.len(),
        ({
            let cp = s[i] as u32;
            let listed = cp == 0x0410 || cp == 0x0412 || cp == 0x0415 || cp == 0x041A || cp
                == 0x041C || cp == 0x041D || cp == 0x041E || cp == 0x0420 || cp == 0x0421 || cp
                == 0x0422 || cp == 0x0425 || cp == 0x0430 || cp == 0x0435 || cp == 0x043E || cp
                == 0x0440 || cp == 0x0441 || cp == 0x0443 || cp == 0x0445 || cp == 0x0456;
            ||| 0x0400 <= cp <= 0x04FF && (!opts.aggressive_homoglyphs || !listed)
            ||| !opts.aggressive_homoglyphs && (0xFF21 <= cp <= 0xFF3A || 0xFF41 <= cp <= 0xFF5A)
        }),
    ensures
        preserved(s, i, opts),
{
    lemma_bidi_scan_shape(s, s.len());
    assert(!in_bidi_embedding(s, i));
    lemma_decide_at(s, i, opts);
    lemma_kept_is_preserved(s, i, opts);
}

/// With bidi stripping on, every bidi control goes: U+061C, U+200E,
/// U+200F, the embeddings and overrides U+202A..U+202E and the isolates
/// U+2066..U+2069 are stripped wherever they stand.
pub proof fn lemma_bidi_controls_stripped_on_request(s: Seq<char>, i: int, opts: CleanOptions)
    requires
        opts.strip_bidi,
        0 <= i < s.len(),
        s[i] as u32 == 0x061C || s[i] as u32 == 0x200E || s[i] as u32 == 0x200F || (0x202A
            <= s[i] as u32 && s[i] as u32 <= 0x202E) || (0x2066 <= s[i] as u32 && s[i] as u32
            <= 0x2069),
    ensures
        !kept_at(s, i, opts),
        out_pos(s, i + 1, opts) == out_pos(s, i, opts),
{
    lemma_decide_at(s, i, opts);
}

} // verus!

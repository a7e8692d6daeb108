//! Detection: report Layer A carriers without modifying the text.

use super::context::{
    in_bidi_embedding, in_flag_sequence, valid_bidi_embedding_indices, valid_flag_tag_indices,
};
use super::decide::{
    base_decision, mongolian_anchor_indices, mongolian_anchored, base_rule, decide, kind_of_rule, output_of_rule, rule_keeps, rule_kind,
    CarrierKind, CleanOptions, Rule,
};
use super::labels::{codepoint_string, codepoint_text};
use super::scan::{final_rule, layer_a, lemma_scan_rules_prefix, rule_at, scan};
use super::tables::is_glue;
use crate::text::collect_chars;
use vstd::prelude::*;

verus! {

/// One reported carrier code point.
pub struct CharHit {
    /// `U+XXXX`.
    pub codepoint: String,
    /// How many times it occurs as a carrier.
    pub count: usize,
    /// The kind of carrier (`zwj_family`, `bidi`, `space`, ...).
    pub kind: String,
    /// `informational` for space homoglyphs, `probable` otherwise.
    pub confidence: String,
    /// The first (up to ten) character offsets at which it occurs.
    pub sample_offsets: Vec<usize>,
}

/// The result of inspecting a text.
pub struct InspectReport {
    /// Number of characters inspected.
    pub length: usize,
    /// Number of carrier occurrences found.
    pub suspicious_total: usize,
    /// One entry per carrier code point, most frequent first, then by code point.
    pub hits: Vec<CharHit>,
}

/// The options that inspection decides with: space homoglyphs and bidi
/// controls are always reported, nothing is normalised.
pub open spec fn inspect_options(aggressive: bool, strip_emoji_glue: bool) -> CleanOptions {
    CleanOptions {
        nfkc: false,
        aggressive_homoglyphs: aggressive,
        normalize_spaces: true,
        strip_emoji_glue: strip_emoji_glue,
        strip_bidi: true,
    }
}

/// Position `i` of `s` holds a carrier: its rule strips or replaces it.
pub open spec fn flagged(s: Seq<char>, opts: CleanOptions, i: int) -> bool {
    !rule_keeps(final_rule(s, i, opts))
}

/// The carrier positions among the first `n` characters, ascending.
pub open spec fn flagged_positions(s: Seq<char>, opts: CleanOptions, n: nat) -> Seq<int>
    decreases n,
{
    if n == 0 {
        seq![]
    } else {
        let before = flagged_positions(s, opts, (n - 1) as nat);
        if flagged(s, opts, n - 1) {
            before.push(n - 1)
        } else {
            before
        }
    }
}

/// The positions among the first `n` characters where `c` occurs as a carrier, ascending.
pub open spec fn carrier_positions(s: Seq<char>, opts: CleanOptions, c: char, n: nat) -> Seq<int>
    decreases n,
{
    if n == 0 {
        seq![]
    } else {
        let before = carrier_positions(s, opts, c, (n - 1) as nat);
        if flagged(s, opts, n - 1) && s[n - 1] == c {
            before.push(n - 1)
        } else {
            before
        }
    }
}

/// The positions of `ps` that hold `c`, in order.
pub open spec fn select_char(ps: Seq<int>, s: Seq<char>, c: char) -> Seq<int>
    decreases ps.len(),
{
    if ps.len() == 0 {
        seq![]
    } else {
        let before = select_char(ps.drop_last(), s, c);
        if s[ps.last()] == c {
            before.push(ps.last())
        } else {
            before
        }
    }
}

/// `c` occurs as a carrier somewhere in `s`.
pub open spec fn is_carrier_char(s: Seq<char>, opts: CleanOptions, c: char) -> bool {
    exists|i: int| 0 <= i < s.len() && flagged(s, opts, i) && s[i] == c
}

/// The name of a carrier kind, as reported.
pub open spec fn kind_name(k: CarrierKind) -> Seq<char> {
    match k {
        CarrierKind::TagChars => "tag_chars"@,
        CarrierKind::VariationSelector => "variation_selector"@,
        CarrierKind::Bidi => "bidi"@,
        CarrierKind::ZwjFamily => "zwj_family"@,
        CarrierKind::PrivateUse => "private_use"@,
        CarrierKind::Strip => "strip"@,
        CarrierKind::Space => "space"@,
        CarrierKind::Confusable => "confusable"@,
        CarrierKind::OtherCf => "other_cf"@,
    }
}

/// How confident a hit of the given kind is.
pub open spec fn confidence_name(k: CarrierKind) -> Seq<char> {
    if k is Space {
        "informational"@
    } else {
        "probable"@
    }
}

/// The kind reported for `c` when it occurs as a carrier.
pub open spec fn carrier_kind(c: char, opts: CleanOptions) -> CarrierKind {
    rule_kind(base_rule(c, opts), c)
}

/// Hits are ordered by count, descending, then by code point, ascending.
pub open spec fn ranks_before(count_a: nat, a: char, count_b: nat, b: char) -> bool {
    count_a > count_b || (count_a == count_b && (a as u32) < (b as u32))
}

/// `h` reports carrier `c` of `s`.
pub open spec fn hit_reports(h: CharHit, s: Seq<char>, opts: CleanOptions, c: char) -> bool {
    let ps = carrier_positions(s, opts, c, s.len());
    &&& h.codepoint@ == codepoint_text(c)
    &&& h.count == ps.len()
    &&& h.kind@ == kind_name(carrier_kind(c, opts))
    &&& h.confidence@ == confidence_name(carrier_kind(c, opts))
    &&& h.sample_offsets@.len() == if ps.len() < 10 {
        ps.len()
    } else {
        10
    }
    &&& forall|k: int|
        0 <= k < h.sample_offsets@.len() ==> #[trigger] h.sample_offsets@[k] as int == ps[k]
}

/// `hits` reports the carrier characters `cs`, one each, in rank order, and
/// `cs` are exactly the carrier characters of `s`.
pub open spec fn hits_report(hits: Seq<CharHit>, cs: Seq<char>, s: Seq<char>, opts: CleanOptions) -> bool {
    &&& hits.len() == cs.len()
    &&& cs.no_duplicates()
    &&& forall|k: int| 0 <= k < cs.len() ==> hit_reports(#[trigger] hits[k], s, opts, cs[k])
    &&& forall|c: char| #[trigger] cs.contains(c) <==> is_carrier_char(s, opts, c)
    &&& forall|i: int, j: int|
        0 <= i < j < cs.len() ==> ranks_before(
            carrier_positions(s, opts, #[trigger] cs[i], s.len()).len(),
            cs[i],
            carrier_positions(s, opts, #[trigger] cs[j], s.len()).len(),
            cs[j],
        )
}

/// What `inspect_text` reports about `s`.
pub open spec fn inspect_report_matches(r: InspectReport, s: Seq<char>, opts: CleanOptions) -> bool {
    &&& r.length == s.len()
    &&& r.suspicious_total == flagged_positions(s, opts, s.len()).len()
    &&& exists|cs: Seq<char>| hits_report(r.hits@, cs, s, opts)
}

pub open spec fn as_ints(v: Seq<usize>) -> Seq<int> {
    v.map_values(|p: usize| p as int)
}

proof fn lemma_select_flagged(s: Seq<char>, opts: CleanOptions, c: char, n: nat)
    ensures
        select_char(flagged_positions(s, opts, n), s, c) == carrier_positions(s, opts, c, n),
    decreases n,
{
    if n > 0 {
        lemma_select_flagged(s, opts, c, (n - 1) as nat);
        let fp = flagged_positions(s, opts, n);
        if flagged(s, opts, n - 1) {
            assert(fp.drop_last() =~= flagged_positions(s, opts, (n - 1) as nat));
        }
    }
}

/// The entries of `ps` that hold `c`.
fn offsets_of(flat: &Vec<usize>, chars: &Vec<char>, c: char) -> (r: Vec<usize>)
    requires
        forall|k: int| 0 <= k < flat@.len() ==> (#[trigger] flat@[k]) < chars@.len(),
    ensures
        as_ints(r@) == select_char(as_ints(flat@), chars@, c),
{
    let mut r: Vec<usize> = Vec::new();
    let m = flat.len();
    for t in 0..m
        invariant
            m == flat@.len(),
            forall|k: int| 0 <= k < flat@.len() ==> (#[trigger] flat@[k]) < chars@.len(),
            as_ints(r@) == select_char(as_ints(flat@.take(t as int)), chars@, c),
    {
        let p = flat[t];
        proof {
            let prefix = as_ints(flat@.take(t + 1));
            assert(prefix.drop_last() =~= as_ints(flat@.take(t as int)));
            assert(prefix.last() == p as int);
        }
        if chars[p] == c {
            r.push(p);
            proof {
                assert(as_ints(r@) =~= as_ints(r@.drop_last()).push(p as int));
            }
        }
    }
    proof {
        assert(flat@.take(m as int) =~= flat@);
    }
    r
}

proof fn lemma_char_u32_injective(a: char, b: char)
    requires
        a != b,
    ensures
        (a as u32) != (b as u32),
{
    vstd::utf8::char_u32_cast(a, a as u32);
    vstd::utf8::char_u32_cast(b, b as u32);
}

pub open spec fn entry_keys(v: Seq<(char, Vec<usize>)>) -> Seq<char> {
    v.map_values(|e: (char, Vec<usize>)| e.0)
}

/// The ranked entries are ordered by offset count, descending, then by code point.
pub open spec fn ranked(v: Seq<(char, Vec<usize>)>) -> bool {
    forall|i: int, j: int|
        0 <= i < j < v.len() ==> ranks_before(
            (#[trigger] v[i]).1@.len(),
            v[i].0,
            (#[trigger] v[j]).1@.len(),
            v[j].0,
        )
}

fn ranks_before_exec(count_a: usize, a: char, count_b: usize, b: char) -> (r: bool)
    ensures
        r == ranks_before(count_a as nat, a, count_b as nat, b),
{
    count_a > count_b || (count_a == count_b && (a as u32) < (b as u32))
}

/// Insert an entry at its rank.
fn insert_ranked(v: &mut Vec<(char, Vec<usize>)>, entry: (char, Vec<usize>))
    requires
        ranked(old(v)@),
        forall|k: int| 0 <= k < old(v)@.len() ==> (#[trigger] old(v)@[k]).0 != entry.0,
    ensures
        ranked(final(v)@),
        exists|p: int| 0 <= p <= old(v)@.len() && final(v)@ == old(v)@.insert(p, entry),
{
    let n = v.len();
    let mut p: usize = 0;
    let mut found = false;
    while p < n && !found
        invariant
            n == v@.len(),
            v@ == old(v)@,
            p <= n,
            found ==> p < n && ranks_before(entry.1@.len(), entry.0, v@[p as int].1@.len(), v@[p as int].0),
            forall|k: int| 0 <= k < p ==> !ranks_before(entry.1@.len(), entry.0, (#[trigger] v@[k]).1@.len(), v@[k].0),
        decreases n - p + (if found { 0int } else { 1int }),
    {
        if ranks_before_exec(entry.1.len(), entry.0, v[p].1.len(), v[p].0) {
            found = true;
        } else {
            p += 1;
        }
    }
    let ghost before = v@;
    v.insert(p, entry);
    proof {
        let e = v@[p as int];
        assert(v@ == before.insert(p as int, e));
        assert forall|i: int, j: int| 0 <= i < j < v@.len() implies ranks_before(
            (#[trigger] v@[i]).1@.len(),
            v@[i].0,
            (#[trigger] v@[j]).1@.len(),
            v@[j].0,
        ) by {
            if i < p && j == p {
                assert(before[i].0 != e.0);
                lemma_char_u32_injective(before[i].0, e.0);
            } else if i < p && j > p {
                assert(before[i].0 != e.0);
                lemma_char_u32_injective(before[i].0, e.0);
                assert(v@[j] == before[j - 1]);
                assert(ranks_before(before[i].1@.len(), before[i].0, before[j - 1].1@.len(), before[j - 1].0));
            } else if i == p && j > p {
                assert(v@[j] == before[j - 1]);
                if j - 1 > p {
                    assert(ranks_before(before[p as int].1@.len(), before[p as int].0, before[j - 1].1@.len(), before[j - 1].0));
                }
            } else if i > p {
                assert(v@[i] == before[i - 1]);
                assert(v@[j] == before[j - 1]);
            }
        }
    }
}

fn kind_string(k: CarrierKind) -> (r: String)
    ensures
        r@ == kind_name(k),
{
    match k {
        CarrierKind::TagChars => String::from_str("tag_chars"),
        CarrierKind::VariationSelector => String::from_str("variation_selector"),
        CarrierKind::Bidi => String::from_str("bidi"),
        CarrierKind::ZwjFamily => String::from_str("zwj_family"),
        CarrierKind::PrivateUse => String::from_str("private_use"),
        CarrierKind::Strip => String::from_str("strip"),
        CarrierKind::Space => String::from_str("space"),
        CarrierKind::Confusable => String::from_str("confusable"),
        CarrierKind::OtherCf => String::from_str("other_cf"),
    }
}

fn hit_confidence(k: CarrierKind) -> (r: String)
    ensures
        r@ == confidence_name(k),
{
    if k == CarrierKind::Space {
        String::from_str("informational")
    } else {
        String::from_str("probable")
    }
}

/// The hit for carrier character `c` at the given (ascending) positions.
fn make_hit(c: char, offsets: &Vec<usize>, opts: &CleanOptions) -> (h: CharHit)
    ensures
        h.codepoint@ == codepoint_text(c),
        h.count == offsets@.len(),
        h.kind@ == kind_name(carrier_kind(c, *opts)),
        h.confidence@ == confidence_name(carrier_kind(c, *opts)),
        h.sample_offsets@.len() == if offsets@.len() < 10 {
            offsets@.len()
        } else {
            10
        },
        forall|k: int| 0 <= k < h.sample_offsets@.len() ==> #[trigger] h.sample_offsets@[k] == offsets@[k],
{
    let rule = base_decision(c, opts);
    let kind = match rule {
        Rule::StripTable | Rule::SpaceFold | Rule::Confusable | Rule::OtherFormat => kind_of_rule(
            rule,
            c,
        ),
        _ => CarrierKind::OtherCf,
    };
    let take = if offsets.len() < 10 {
        offsets.len()
    } else {
        10
    };
    let mut sample: Vec<usize> = Vec::new();
    for k in 0..take
        invariant
            take <= offsets@.len(),
            sample@.len() == k,
            forall|m: int| 0 <= m < k ==> #[trigger] sample@[m] == offsets@[m],
    {
        sample.push(offsets[k]);
    }
    CharHit {
        codepoint: codepoint_string(c),
        count: offsets.len(),
        kind: kind_string(kind),
        confidence: hit_confidence(kind),
        sample_offsets: sample,
    }
}

/// The carrier positions after `i + 1` characters extend those after `i`.
proof fn lemma_flagged_step(s: Seq<char>, opts: CleanOptions, i: nat)
    requires
        i < s.len(),
    ensures
        flagged(s, opts, i as int) == !rule_keeps(scan(s, i + 1, opts).rules[i as int]),
{
    lemma_scan_rules_prefix(s, i + 1, s.len(), opts);
    assert(scan(s, i + 1, opts).rules[i as int] == layer_a(s, opts).rules[i as int]);
}

/// Inspect text for Layer A carriers without modifying it. Space homoglyphs
/// and bidi controls are always reported; `aggressive` also reports Latin
/// lookalikes, `strip_emoji_glue` also reports in-context glue.
pub fn inspect_text(text: &str, aggressive: bool, strip_emoji_glue: bool) -> (r: InspectReport)
    ensures
        inspect_report_matches(r, text@, inspect_options(aggressive, strip_emoji_glue)),
{
    let opts = CleanOptions {
        nfkc: false,
        aggressive_homoglyphs: aggressive,
        normalize_spaces: true,
        strip_emoji_glue: strip_emoji_glue,
        strip_bidi: true,
    };
    let chars = collect_chars(text);
    let flag_tags = valid_flag_tag_indices(&chars);
    let bidi_pairs = valid_bidi_embedding_indices(&chars);
    let anchors = mongolian_anchor_indices(&chars);
    let ghost s = chars@;
    let n = chars.len();

    let mut flat: Vec<usize> = Vec::new();
    let mut keys: Vec<char> = Vec::new();
    let mut prev_kept: Option<char> = None;

    for i in 0..n
        invariant
            n == s.len(),
            s == chars@,
            s == text@,
            opts == inspect_options(aggressive, strip_emoji_glue),
            flag_tags@.len() == n,
            bidi_pairs@.len() == n,
            forall|k: int| 0 <= k < n ==> flag_tags@[k] == in_flag_sequence(s, k),
            forall|k: int| 0 <= k < n ==> bidi_pairs@[k] == in_bidi_embedding(s, k),
            anchors@.len() == n,
            forall|k: int| 0 <= k < n ==> anchors@[k] == mongolian_anchored(s, k),
            prev_kept == scan(s, i as nat, opts).prev_kept,
            as_ints(flat@) == flagged_positions(s, opts, i as nat),
            forall|k: int| 0 <= k < flat@.len() ==> (#[trigger] flat@[k]) < i,
            keys@.no_duplicates(),
            forall|c: char|
                #[trigger] keys@.contains(c) <==> exists|j: int|
                    0 <= j < i && flagged(s, opts, j) && s[j] == c,
    {
        proof {
            lemma_flagged_step(s, opts, i as nat);
        }
        let ch = chars[i];
        let prev_input = if i > 0 {
            Some(chars[i - 1])
        } else {
            None
        };
        let next_input = if i + 1 < n {
            Some(chars[i + 1])
        } else {
            None
        };
        let rule = decide(
            ch,
            prev_kept,
            prev_input,
            next_input,
            flag_tags[i],
            bidi_pairs[i],
            anchors[i],
            i > 0 && anchors[i - 1],
            &opts,
        );
        proof {
            lemma_scan_rules_prefix(s, i as nat, i as nat, opts);
            assert(rule_at(s, i as int, prev_kept, opts) == rule);
            assert(scan(s, (i + 1) as nat, opts).rules[i as int] == rule);
            assert(flagged(s, opts, i as int) == !rule_keeps(rule));
        }
        let ghost before_keys = keys@;
        if rule == Rule::StripTable || rule == Rule::OtherFormat || rule == Rule::SpaceFold || rule
            == Rule::Confusable {
            flat.push(i);
            proof {
                assert(as_ints(flat@) =~= as_ints(flat@.drop_last()).push(i as int));
            }
            let mut known = false;
            let mut k: usize = 0;
            while k < keys.len()
                invariant
                    keys@ == before_keys,
                    k <= keys@.len(),
                    known == (exists|m: int| 0 <= m < k && keys@[m] == ch),
                decreases keys@.len() - k,
            {
                if keys[k] == ch {
                    known = true;
                }
                k += 1;
            }
            if !known {
                keys.push(ch);
                proof {
                    assert forall|c: char| #[trigger] keys@.contains(c) <==> (before_keys.contains(c) || c == ch) by {
                        if keys@.contains(c) {
                            let m = choose|m: int| 0 <= m < keys@.len() && keys@[m] == c;
                            if m < before_keys.len() {
                                assert(before_keys[m] == c);
                            }
                        }
                        if before_keys.contains(c) {
                            let m = choose|m: int| 0 <= m < before_keys.len() && before_keys[m] == c;
                            assert(keys@[m] == c);
                        }
                        if c == ch {
                            assert(keys@[before_keys.len() as int] == c);
                        }
                    }
                }
            } else {
                proof {
                    let m = choose|m: int| 0 <= m < k && keys@[m] == ch;
                    assert(keys@.contains(ch));
                }
            }
            if rule == Rule::SpaceFold || rule == Rule::Confusable {
                prev_kept = Some(output_of_rule(rule, ch));
            }
        } else {
            if !is_glue(ch as u32) {
                prev_kept = Some(ch);
            }
        }
        proof {
            assert forall|c: char|
                #[trigger] keys@.contains(c) <==> exists|j: int|
                    0 <= j < i + 1 && flagged(s, opts, j) && s[j] == c by {
                if flagged(s, opts, i as int) && s[i as int] == c {
                    assert(keys@.contains(c));
                }
                if keys@.contains(c) && !before_keys.contains(c) {
                    assert(flagged(s, opts, i as int) && s[i as int] == c);
                }
            }
        }
    }
    let ghost keys_final = keys@;

    let mut ranked_entries: Vec<(char, Vec<usize>)> = Vec::new();
    let m = keys.len();
    for t in 0..m
        invariant
            m == keys@.len(),
            keys@ == keys_final,
            keys_final.no_duplicates(),
            n == s.len(),
            s == chars@,
            forall|k: int| 0 <= k < flat@.len() ==> (#[trigger] flat@[k]) < n,
            as_ints(flat@) == flagged_positions(s, opts, n as nat),
            ranked(ranked_entries@),
            forall|c: char| #[trigger] entry_keys(ranked_entries@).contains(c) <==> keys_final.take(t as int).contains(c),
            ranked_entries@.len() == t,
            forall|k: int| 0 <= k < ranked_entries@.len() ==> as_ints((#[trigger] ranked_entries@[k]).1@) == carrier_positions(s, opts, ranked_entries@[k].0, n as nat),
    {
        let c = keys[t];
        let offsets = offsets_of(&flat, &chars, c);
        proof {
            lemma_select_flagged(s, opts, c, n as nat);
            assert forall|k: int| 0 <= k < ranked_entries@.len() implies (#[trigger] ranked_entries@[k]).0 != c by {
                let key = ranked_entries@[k].0;
                assert(entry_keys(ranked_entries@)[k] == key);
                assert(entry_keys(ranked_entries@).contains(key));
                let w = choose|w: int| 0 <= w < t && keys_final[w] == key;
                if key == c {
                    assert(keys_final[w] == keys_final[t as int]);
                }
            }
        }
        let ghost before = ranked_entries@;
        let ghost entry = (c, offsets);
        insert_ranked(&mut ranked_entries, (c, offsets));
        proof {
            let p = choose|p: int| 0 <= p <= before.len() && ranked_entries@ == before.insert(p, entry);
            let old_keys = entry_keys(before);
            let new_keys = entry_keys(ranked_entries@);
            assert(new_keys =~= old_keys.insert(p, c));
            assert(keys_final.take(t + 1) =~= keys_final.take(t as int).push(c));
            assert forall|x: char| #[trigger] new_keys.contains(x) <==> keys_final.take(t + 1).contains(x) by {
                if new_keys.contains(x) {
                    let w = choose|w: int| 0 <= w < new_keys.len() && new_keys[w] == x;
                    if w < p {
                        assert(old_keys[w] == x);
                    } else if w > p {
                        assert(old_keys[w - 1] == x);
                    }
                    if x != c {
                        assert(old_keys.contains(x));
                        let v = choose|v: int| 0 <= v < t && keys_final.take(t as int)[v] == x;
                        assert(keys_final.take(t + 1)[v] == x);
                    } else {
                        assert(keys_final.take(t + 1)[t as int] == x);
                    }
                }
                if keys_final.take(t + 1).contains(x) {
                    let v = choose|v: int| 0 <= v <= t && #[trigger] keys_final.take(t + 1)[v] == x;
                    if v < t {
                        assert(keys_final.take(t as int)[v] == x);
                        assert(old_keys.contains(x));
                        let w = choose|w: int| 0 <= w < old_keys.len() && old_keys[w] == x;
                        if w < p {
                            assert(new_keys[w] == x);
                        } else {
                            assert(new_keys[w + 1] == x);
                        }
                    } else {
                        assert(new_keys[p] == x);
                    }
                }
            }
            assert forall|k: int| 0 <= k < ranked_entries@.len() implies as_ints((#[trigger] ranked_entries@[k]).1@) == carrier_positions(s, opts, ranked_entries@[k].0, n as nat) by {
                if k < p {
                    assert(ranked_entries@[k] == before[k]);
                } else if k > p {
                    assert(ranked_entries@[k] == before[k - 1]);
                }
            }
        }
    }

    let mut hits: Vec<CharHit> = Vec::new();
    let h = ranked_entries.len();
    for t in 0..h
        invariant
            h == ranked_entries@.len(),
            n == s.len(),
            opts == inspect_options(aggressive, strip_emoji_glue),
            hits@.len() == t,
            forall|k: int| 0 <= k < t ==> hit_reports(#[trigger] hits@[k], s, opts, ranked_entries@[k].0),
            forall|k: int| 0 <= k < ranked_entries@.len() ==> as_ints((#[trigger] ranked_entries@[k]).1@) == carrier_positions(s, opts, ranked_entries@[k].0, n as nat),
    {
        let hit = make_hit(ranked_entries[t].0, &ranked_entries[t].1, &opts);
        proof {
            let e = ranked_entries@[t as int];
            let ps = carrier_positions(s, opts, e.0, n as nat);
            assert(as_ints(e.1@) == ps);
            assert(ps.len() == e.1@.len());
            assert forall|k: int| 0 <= k < hit.sample_offsets@.len() implies #[trigger] hit.sample_offsets@[k] as int == ps[k] by {
                assert(as_ints(e.1@)[k] == e.1@[k] as int);
            }
        }
        hits.push(hit);
    }

    proof {
        let cs = entry_keys(ranked_entries@);
        assert(keys_final.take(m as int) =~= keys_final);
        assert forall|i: int, j: int| 0 <= i < j < cs.len() implies cs[i] != cs[j] by {
            assert(ranked(ranked_entries@));
            let a = ranked_entries@[i];
            let b = ranked_entries@[j];
            assert(ranks_before(a.1@.len(), a.0, b.1@.len(), b.0));
        }
        assert forall|k: int| 0 <= k < cs.len() implies hit_reports(#[trigger] hits@[k], s, opts, cs[k]) by {
            assert(cs[k] == ranked_entries@[k].0);
        }
        assert forall|c: char| #[trigger] cs.contains(c) <==> is_carrier_char(s, opts, c) by {
            if keys_final.contains(c) {
                let j = choose|j: int| 0 <= j < n && flagged(s, opts, j) && s[j] == c;
                assert(is_carrier_char(s, opts, c));
            }
            if is_carrier_char(s, opts, c) {
                let j = choose|j: int| 0 <= j < s.len() && flagged(s, opts, j) && s[j] == c;
                assert(keys_final.contains(c));
            }
        }
        assert forall|i: int, j: int| 0 <= i < j < cs.len() implies ranks_before(
            carrier_positions(s, opts, #[trigger] cs[i], s.len()).len(),
            cs[i],
            carrier_positions(s, opts, #[trigger] cs[j], s.len()).len(),
            cs[j],
        ) by {
            let a = ranked_entries@[i];
            let b = ranked_entries@[j];
            assert(as_ints(a.1@).len() == a.1@.len());
            assert(as_ints(b.1@).len() == b.1@.len());
            assert(ranks_before(a.1@.len(), a.0, b.1@.len(), b.0));
        }
        assert(hits_report(hits@, cs, s, opts));
        assert(as_ints(flat@).len() == flat@.len());
    }
    let report = InspectReport { length: n, suspicious_total: flat.len(), hits };
    proof {
        let cs = entry_keys(ranked_entries@);
        assert(report.length == s.len());
        assert(report.suspicious_total == flagged_positions(s, opts, s.len()).len());
        assert(hits_report(report.hits@, cs, s, opts));
        assert(s == text@);
    }
    report
}

} // verus!

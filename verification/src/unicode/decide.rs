//! The per-character decision: which rule applies to a character in its
//! context, and what that rule does with it.

use super::tables::{
    confusable_target, cjk_ideograph, emoji_base, hangul_filler, hangul_jamo, is_cjk_ideograph,
    is_emoji_base, is_hangul_filler, is_hangul_jamo, is_khmer_vowel, is_mongolian_base,
    is_mongolian_fvs, is_orthographic_cf, is_preservable_bidi, is_script_joiner, is_strip_cp,
    is_tag_range, khmer_vowel, latin_confusable, mongolian_base, mongolian_fvs, orthographic_cf,
    preservable_bidi, script_joiner, space_homoglyph, space_homoglyph_cp, strip_cp, tag_range,
    vs_supplement, private_use, bidi_cp, zw_family, is_private_use, is_bidi_cp, is_zw_family,
};
use super::ucd::{
    cat_first_is_letter, cat_first_is_letter_or_mark, cat_is_format, format_cp, is_letter,
    is_letter_or_mark,
};
use vstd::prelude::*;

verus! {

/// Options for cleaning text.
#[derive(Clone, Copy)]
pub struct CleanOptions {
    /// Apply NFKC normalisation to the cleaned text.
    pub nfkc: bool,
    /// Map Cyrillic / fullwidth Latin lookalikes to ASCII.
    pub aggressive_homoglyphs: bool,
    /// Fold exotic space homoglyphs to U+0020.
    pub normalize_spaces: bool,
    /// Strip emoji glue, variation selectors and script joiners even in context.
    pub strip_emoji_glue: bool,
    /// Strip bidi controls even when they are paired or otherwise legitimate.
    pub strip_bidi: bool,
}

impl CleanOptions {
    /// The options used by default.
    pub open spec fn default_spec() -> CleanOptions {
        CleanOptions {
            nfkc: false,
            aggressive_homoglyphs: false,
            normalize_spaces: true,
            strip_emoji_glue: false,
            strip_bidi: false,
        }
    }
}

impl Default for CleanOptions {
    fn default() -> (r: CleanOptions)
        ensures
            r == CleanOptions::default_spec(),
    {
        CleanOptions {
            nfkc: false,
            aggressive_homoglyphs: false,
            normalize_spaces: true,
            strip_emoji_glue: false,
            strip_bidi: false,
        }
    }
}

/// A character whose fate the pass settles by its code point alone: it is in
/// no strip table and is not a format character.
pub open spec fn settled(c: char) -> bool {
    !strip_cp(c as u32) && !format_cp(c as u32)
}

fn is_settled(c: char) -> (r: bool)
    ensures
        r == settled(c),
{
    !is_strip_cp(c as u32) && !cat_is_format(c)
}

/// Broad script group where ZWJ/ZWNJ can be orthographic.
#[derive(Clone, Copy, PartialEq, Eq, Structural)]
pub enum JoiningScript {
    Arabic,
    Indic,
    SouthAsian,
    Khmer,
    Mongolian,
}

/// The joining script of a character: `None` when it is not a letter or mark
/// in one of the Arabic, Indic, South-Asian, Khmer or Mongolian blocks.
pub open spec fn joining_script_of(c: char) -> Option<JoiningScript> {
    let cp = c as u32;
    if !is_letter_or_mark(c) {
        None
    } else if 0x0600 <= cp <= 0x08FF {
        Some(JoiningScript::Arabic)
    } else if 0x0900 <= cp <= 0x0DFF {
        Some(JoiningScript::Indic)
    } else if 0x0F00 <= cp <= 0x109F {
        Some(JoiningScript::SouthAsian)
    } else if 0x1780 <= cp <= 0x17FF {
        Some(JoiningScript::Khmer)
    } else if 0x1800 <= cp <= 0x18AF {
        Some(JoiningScript::Mongolian)
    } else {
        None
    }
}

fn joining_script(c: char) -> (r: Option<JoiningScript>)
    ensures
        r == joining_script_of(c),
{
    let cp = c as u32;
    let script = if 0x0600 <= cp && cp <= 0x08FF {
        JoiningScript::Arabic
    } else if 0x0900 <= cp && cp <= 0x0DFF {
        JoiningScript::Indic
    } else if 0x0F00 <= cp && cp <= 0x109F {
        JoiningScript::SouthAsian
    } else if 0x1780 <= cp && cp <= 0x17FF {
        JoiningScript::Khmer
    } else if 0x1800 <= cp && cp <= 0x18AF {
        JoiningScript::Mongolian
    } else {
        return None;
    };
    if cat_first_is_letter_or_mark(c) {
        Some(script)
    } else {
        None
    }
}

pub open spec fn mongolian_letter(c: char) -> bool {
    mongolian_base(c as u32) && is_letter(c)
}

fn is_mongolian_letter(c: char) -> (r: bool)
    ensures
        r == mongolian_letter(c),
{
    is_mongolian_base(c as u32) && cat_first_is_letter(c)
}

pub open spec fn khmer_letter(c: char) -> bool {
    0x1780 <= c as u32 <= 0x17FF && is_letter(c)
}

fn is_khmer_letter(c: char) -> (r: bool)
    ensures
        r == khmer_letter(c),
{
    let cp = c as u32;
    0x1780 <= cp && cp <= 0x17FF && cat_first_is_letter(c)
}

/// The rule that decides what happens to a character. The first eleven
/// rules keep a load-bearing invisible in its context; the next four strip
/// or replace a carrier; `Plain` keeps an ordinary character.
#[derive(Clone, Copy, PartialEq, Eq, Structural, Debug)]
pub enum Rule {
    /// Part of a matched LRE/RLE ... PDF pair.
    PairedEmbedding,
    /// ALM, LRM, RLM or an isolate control.
    PreservedBidi,
    /// A variation selector after a CJK ideograph.
    IdeographSelector,
    /// A Mongolian free variation selector after a kept Mongolian-block
    /// character, with only selectors between.
    MongolianSelectorAfterBase,
    /// VS15/VS16 after an emoji base.
    EmojiSelector,
    /// ZWJ between two emoji bases.
    EmojiJoiner,
    /// ZWNJ/ZWJ between two kept letters or marks of the same joining script.
    ScriptJoiner,
    /// A tag character of a complete subdivision-flag sequence.
    FlagTag,
    /// A Mongolian free variation selector after a kept Mongolian letter.
    MongolianSelectorAfterLetter,
    /// A Khmer inherent vowel after a kept Khmer letter.
    KhmerVowel,
    /// A Hangul filler after a kept Hangul jamo.
    HangulFiller,
    /// An orthographic Arabic / Syriac / Kaithi format mark.
    OrthographicFormat,
    /// A carrier from the strip tables.
    StripTable,
    /// A space homoglyph, folded to U+0020.
    SpaceFold,
    /// A Latin lookalike, mapped to ASCII.
    Confusable,
    /// Any other format character.
    OtherFormat,
    /// An ordinary character.
    Plain,
}

/// The rule for a character when no context rule keeps it; it depends on the
/// character and the options alone.
pub open spec fn base_rule(ch: char, opts: CleanOptions) -> Rule {
    let cp = ch as u32;
    if strip_cp(cp) {
        Rule::StripTable
    } else if opts.normalize_spaces && space_homoglyph_cp(cp) {
        Rule::SpaceFold
    } else if opts.aggressive_homoglyphs && confusable_target(cp) is Some {
        Rule::Confusable
    } else if format_cp(cp) && !space_homoglyph_cp(cp) {
        Rule::OtherFormat
    } else {
        Rule::Plain
    }
}

/// Position `i` of `s` is preceded by a settled Mongolian-block character
/// with only Mongolian free variation selectors between: a selector there is
/// kept as a variant of that character.
pub open spec fn mongolian_anchored(s: Seq<char>, i: int) -> bool {
    exists|j: int| #[trigger] mongolian_anchor_run(s, j, i)
}

/// `s[j]` is a settled Mongolian-block character and every character after
/// it, before `i`, is a Mongolian free variation selector.
pub open spec fn mongolian_anchor_run(s: Seq<char>, j: int, i: int) -> bool {
    &&& 0 <= j < i <= s.len()
    &&& mongolian_base(s[j] as u32)
    &&& settled(s[j])
    &&& forall|m: int| j < m < i ==> mongolian_fvs(#[trigger] s[m] as u32)
}

/// Anchoring extends one character at a time.
pub proof fn lemma_mongolian_anchored_step(s: Seq<char>, i: int)
    requires
        0 <= i < s.len(),
    ensures
        mongolian_anchored(s, i + 1) <==> (mongolian_base(s[i] as u32) && settled(s[i])) || (
        mongolian_fvs(s[i] as u32) && mongolian_anchored(s, i)),
        !mongolian_anchored(s, 0),
{
    if mongolian_anchored(s, i + 1) {
        let j = choose|j: int| #[trigger] mongolian_anchor_run(s, j, i + 1);
        if j < i {
            assert(mongolian_fvs(s[i] as u32));
            assert(mongolian_anchor_run(s, j, i));
        }
    }
    if mongolian_base(s[i] as u32) && settled(s[i]) {
        assert(mongolian_anchor_run(s, i, i + 1));
    }
    if mongolian_fvs(s[i] as u32) && mongolian_anchored(s, i) {
        let j = choose|j: int| #[trigger] mongolian_anchor_run(s, j, i);
        assert(mongolian_anchor_run(s, j, i + 1));
    }
}

/// Positions whose Mongolian selectors are anchored, as a membership vector
/// over `chars`.
pub fn mongolian_anchor_indices(chars: &Vec<char>) -> (v: Vec<bool>)
    ensures
        v@.len() == chars@.len(),
        forall|k: int| 0 <= k < chars@.len() ==> v@[k] == mongolian_anchored(chars@, k),
{
    let n = chars.len();
    let mut v: Vec<bool> = Vec::new();
    let mut anchored = false;
    proof {
        if n > 0 {
            lemma_mongolian_anchored_step(chars@, 0);
        } else {
            assert(!mongolian_anchored(chars@, 0));
        }
    }
    for i in 0..n
        invariant
            n == chars@.len(),
            v@.len() == i,
            anchored == mongolian_anchored(chars@, i as int),
            forall|k: int| 0 <= k < i ==> v@[k] == mongolian_anchored(chars@, k),
    {
        v.push(anchored);
        let c = chars[i];
        proof {
            lemma_mongolian_anchored_step(chars@, i as int);
        }
        anchored = (is_mongolian_base(c as u32) && is_settled(c)) || (is_mongolian_fvs(c as u32)
            && anchored);
    }
    v
}

/// Whether a letter or mark of a joining script next to a joiner is kept by
/// the pass. Its fate does not depend on the joiner: it is decided by the
/// last kept character before the joiner and, for a Mongolian selector,
/// whether it is anchored.
pub open spec fn joining_neighbour_kept(
    c: char,
    prev_kept: Option<char>,
    anchored: bool,
    opts: CleanOptions,
) -> bool {
    let cp = c as u32;
    let glue_kept = !opts.strip_emoji_glue;
    ||| preservable_bidi(cp) && !opts.strip_bidi
    ||| glue_kept && mongolian_fvs(cp) && (anchored || (prev_kept is Some && mongolian_letter(
        prev_kept->0,
    )))
    ||| glue_kept && khmer_vowel(cp) && prev_kept is Some && khmer_letter(prev_kept->0)
    ||| glue_kept && orthographic_cf(cp)
    ||| rule_keeps(base_rule(c, opts))
}

fn is_joining_neighbour_kept(
    c: char,
    prev_kept: Option<char>,
    anchored: bool,
    opts: &CleanOptions,
) -> (r: bool)
    ensures
        r == joining_neighbour_kept(c, prev_kept, anchored, *opts),
{
    let cp = c as u32;
    let glue_kept = !opts.strip_emoji_glue;
    if is_preservable_bidi(cp) && !opts.strip_bidi {
        return true;
    }
    if glue_kept && is_mongolian_fvs(cp) {
        if anchored {
            return true;
        }
        if let Some(pk) = prev_kept {
            if is_mongolian_letter(pk) {
                return true;
            }
        }
    }
    if glue_kept && is_khmer_vowel(cp) {
        if let Some(pk) = prev_kept {
            if is_khmer_letter(pk) {
                return true;
            }
        }
    }
    if glue_kept && is_orthographic_cf(cp) {
        return true;
    }
    let r = base_decision(c, opts);
    !(r == Rule::StripTable || r == Rule::SpaceFold || r == Rule::Confusable || r == Rule::OtherFormat)
}

/// The rule applied to `ch`, given the last kept non-glue character, the
/// neighbouring input characters, whether `ch` is part of a complete flag
/// sequence or a matched bidi embedding, whether it and the character before
/// it are anchored Mongolian positions, and the options.
pub open spec fn decide_rule(
    ch: char,
    prev_kept: Option<char>,
    prev_input: Option<char>,
    next_input: Option<char>,
    valid_flag_tag: bool,
    valid_bidi_embedding: bool,
    anchored: bool,
    prev_anchored: bool,
    opts: CleanOptions,
) -> Rule {
    let cp = ch as u32;
    let glue_kept = !opts.strip_emoji_glue;
    if valid_bidi_embedding && !opts.strip_bidi {
        Rule::PairedEmbedding
    } else if preservable_bidi(cp) && !opts.strip_bidi {
        Rule::PreservedBidi
    } else if glue_kept && prev_input is Some && vs_supplement(cp) && cjk_ideograph(
        prev_input->0 as u32,
    ) {
        Rule::IdeographSelector
    } else if glue_kept && mongolian_fvs(cp) && anchored {
        Rule::MongolianSelectorAfterBase
    } else if glue_kept && prev_input is Some && 0xFE00 <= cp <= 0xFE0D && cjk_ideograph(
        prev_input->0 as u32,
    ) {
        Rule::IdeographSelector
    } else if glue_kept && (cp == 0xFE0E || cp == 0xFE0F) && prev_input is Some && emoji_base(
        prev_input->0 as u32,
    ) {
        Rule::EmojiSelector
    } else if glue_kept && cp == 0x200D && prev_kept is Some && next_input is Some && emoji_base(
        prev_kept->0 as u32,
    ) && emoji_base(next_input->0 as u32) {
        Rule::EmojiJoiner
    } else if glue_kept && script_joiner(cp) && prev_input is Some && next_input is Some
        && joining_script_of(prev_input->0) is Some && joining_script_of(prev_input->0)
        == joining_script_of(next_input->0) && joining_neighbour_kept(
        prev_input->0,
        prev_kept,
        prev_anchored,
        opts,
    ) && joining_neighbour_kept(next_input->0, prev_kept, false, opts) {
        Rule::ScriptJoiner
    } else if glue_kept && tag_range(cp) && valid_flag_tag {
        Rule::FlagTag
    } else if glue_kept && mongolian_fvs(cp) && prev_kept is Some && mongolian_letter(
        prev_kept->0,
    ) {
        Rule::MongolianSelectorAfterLetter
    } else if glue_kept && khmer_vowel(cp) && prev_kept is Some && khmer_letter(prev_kept->0) {
        Rule::KhmerVowel
    } else if glue_kept && hangul_filler(cp) && prev_kept is Some && hangul_jamo(
        prev_kept->0 as u32,
    ) {
        Rule::HangulFiller
    } else if glue_kept && orthographic_cf(cp) {
        Rule::OrthographicFormat
    } else {
        base_rule(ch, opts)
    }
}

/// Some rule that keeps a character in its context applies.
pub open spec fn context_keeps(
    ch: char,
    prev_kept: Option<char>,
    prev_input: Option<char>,
    next_input: Option<char>,
    valid_flag_tag: bool,
    valid_bidi_embedding: bool,
    anchored: bool,
    prev_anchored: bool,
    opts: CleanOptions,
) -> bool {
    let cp = ch as u32;
    let glue_kept = !opts.strip_emoji_glue;
    ||| valid_bidi_embedding && !opts.strip_bidi
    ||| preservable_bidi(cp) && !opts.strip_bidi
    ||| glue_kept && prev_input is Some && (vs_supplement(cp) || 0xFE00 <= cp <= 0xFE0D)
        && cjk_ideograph(prev_input->0 as u32)
    ||| glue_kept && mongolian_fvs(cp) && anchored
    ||| glue_kept && (cp == 0xFE0E || cp == 0xFE0F) && prev_input is Some && emoji_base(
        prev_input->0 as u32,
    )
    ||| glue_kept && cp == 0x200D && prev_kept is Some && next_input is Some && emoji_base(
        prev_kept->0 as u32,
    ) && emoji_base(next_input->0 as u32)
    ||| glue_kept && script_joiner(cp) && prev_input is Some && next_input is Some
        && joining_script_of(prev_input->0) is Some && joining_script_of(prev_input->0)
        == joining_script_of(next_input->0) && joining_neighbour_kept(
        prev_input->0,
        prev_kept,
        prev_anchored,
        opts,
    ) && joining_neighbour_kept(next_input->0, prev_kept, false, opts)
    ||| glue_kept && tag_range(cp) && valid_flag_tag
    ||| glue_kept && mongolian_fvs(cp) && prev_kept is Some && mongolian_letter(prev_kept->0)
    ||| glue_kept && khmer_vowel(cp) && prev_kept is Some && khmer_letter(prev_kept->0)
    ||| glue_kept && hangul_filler(cp) && prev_kept is Some && hangul_jamo(prev_kept->0 as u32)
    ||| glue_kept && orthographic_cf(cp)
}

/// The decision is the base rule unless a context rule keeps the character.
pub proof fn lemma_decide_shape(
    ch: char,
    prev_kept: Option<char>,
    prev_input: Option<char>,
    next_input: Option<char>,
    valid_flag_tag: bool,
    valid_bidi_embedding: bool,
    anchored: bool,
    prev_anchored: bool,
    opts: CleanOptions,
)
    ensures
        context_keeps(ch, prev_kept, prev_input, next_input, valid_flag_tag, valid_bidi_embedding, anchored, prev_anchored, opts)
            ==> rule_keeps(decide_rule(ch, prev_kept, prev_input, next_input, valid_flag_tag, valid_bidi_embedding, anchored, prev_anchored, opts)),
        !context_keeps(ch, prev_kept, prev_input, next_input, valid_flag_tag, valid_bidi_embedding, anchored, prev_anchored, opts)
            ==> decide_rule(ch, prev_kept, prev_input, next_input, valid_flag_tag, valid_bidi_embedding, anchored, prev_anchored, opts)
            == base_rule(ch, opts),
        rule_keeps(base_rule(ch, opts)) ==> rule_keeps(decide_rule(ch, prev_kept, prev_input, next_input, valid_flag_tag, valid_bidi_embedding, anchored, prev_anchored, opts)),
{
}

/// A rule that strips or replaces is the character's base rule: every
/// context rule keeps.
pub proof fn lemma_carrier_rule_is_base(
    ch: char,
    prev_kept: Option<char>,
    prev_input: Option<char>,
    next_input: Option<char>,
    valid_flag_tag: bool,
    valid_bidi_embedding: bool,
    anchored: bool,
    prev_anchored: bool,
    opts: CleanOptions,
)
    requires
        !rule_keeps(
            decide_rule(ch, prev_kept, prev_input, next_input, valid_flag_tag, valid_bidi_embedding, anchored, prev_anchored, opts),
        ),
    ensures
        decide_rule(ch, prev_kept, prev_input, next_input, valid_flag_tag, valid_bidi_embedding, anchored, prev_anchored, opts)
            == base_rule(ch, opts),
{
}

/// The rule keeps the character unchanged.
pub open spec fn rule_keeps(r: Rule) -> bool {
    !(r is StripTable || r is SpaceFold || r is Confusable || r is OtherFormat)
}

/// The rule removes the character.
pub open spec fn rule_strips(r: Rule) -> bool {
    r is StripTable || r is OtherFormat
}

/// The rule replaces the character.
pub open spec fn rule_replaces(r: Rule) -> bool {
    r is SpaceFold || r is Confusable
}

/// What a replacing rule puts in place of `ch` (and `ch` itself otherwise).
pub open spec fn rule_output(r: Rule, ch: char) -> char {
    if r is SpaceFold {
        ' '
    } else if r is Confusable {
        confusable_target(ch as u32)->0
    } else {
        ch
    }
}

/// The kind of carrier a stripping or replacing rule reports.
#[derive(Clone, Copy, PartialEq, Eq, Structural, Debug)]
pub enum CarrierKind {
    TagChars,
    VariationSelector,
    Bidi,
    ZwjFamily,
    PrivateUse,
    Strip,
    Space,
    Confusable,
    OtherCf,
}

/// The kind reported for a code point from the strip tables.
pub open spec fn strip_kind_of(cp: u32) -> CarrierKind {
    if 0xE0001 <= cp <= 0xE007F {
        CarrierKind::TagChars
    } else if vs_supplement(cp) || (0xFE00 <= cp <= 0xFE0F) || (0x180B <= cp <= 0x180D) {
        CarrierKind::VariationSelector
    } else if bidi_cp(cp) {
        CarrierKind::Bidi
    } else if zw_family(cp) {
        CarrierKind::ZwjFamily
    } else if private_use(cp) {
        CarrierKind::PrivateUse
    } else {
        CarrierKind::Strip
    }
}

fn strip_kind(cp: u32) -> (k: CarrierKind)
    ensures
        k == strip_kind_of(cp),
{
    if 0xE0001 <= cp && cp <= 0xE007F {
        return CarrierKind::TagChars;
    }
    if (0xE0100 <= cp && cp <= 0xE01EF) || (0xFE00 <= cp && cp <= 0xFE0F) || (0x180B <= cp && cp
        <= 0x180D) {
        return CarrierKind::VariationSelector;
    }
    if is_bidi_cp(cp) {
        return CarrierKind::Bidi;
    }
    if is_zw_family(cp) {
        return CarrierKind::ZwjFamily;
    }
    if is_private_use(cp) {
        return CarrierKind::PrivateUse;
    }
    CarrierKind::Strip
}

/// The kind reported for a character that a rule strips or replaces.
pub open spec fn rule_kind(r: Rule, ch: char) -> CarrierKind {
    if r is StripTable {
        strip_kind_of(ch as u32)
    } else if r is SpaceFold {
        CarrierKind::Space
    } else if r is Confusable {
        CarrierKind::Confusable
    } else {
        CarrierKind::OtherCf
    }
}

/// The kind reported for `ch` by the rule `r`, when `r` strips or replaces.
pub fn kind_of_rule(r: Rule, ch: char) -> (k: CarrierKind)
    requires
        !rule_keeps(r),
    ensures
        k == rule_kind(r, ch),
{
    match r {
        Rule::StripTable => strip_kind(ch as u32),
        Rule::SpaceFold => CarrierKind::Space,
        Rule::Confusable => CarrierKind::Confusable,
        _ => CarrierKind::OtherCf,
    }
}

/// What `ch` becomes under the rule `r`.
pub fn output_of_rule(r: Rule, ch: char) -> (out: char)
    requires
        r is Confusable ==> confusable_target(ch as u32) is Some,
    ensures
        out == rule_output(r, ch),
{
    match r {
        Rule::SpaceFold => ' ',
        Rule::Confusable => match latin_confusable(ch as u32) {
            Some(c) => c,
            None => ch,
        },
        _ => ch,
    }
}

/// The rule for `ch` when no context rule keeps it.
pub fn base_decision(ch: char, opts: &CleanOptions) -> (r: Rule)
    ensures
        r == base_rule(ch, *opts),
{
    let cp = ch as u32;
    if is_strip_cp(cp) {
        return Rule::StripTable;
    }
    if opts.normalize_spaces {
        if space_homoglyph(cp).is_some() {
            return Rule::SpaceFold;
        }
    }
    if opts.aggressive_homoglyphs {
        if latin_confusable(cp).is_some() {
            return Rule::Confusable;
        }
    }
    if cat_is_format(ch) && space_homoglyph(cp).is_none() {
        return Rule::OtherFormat;
    }
    Rule::Plain
}

/// Decide which rule applies to `ch` in its context.
pub fn decide(
    ch: char,
    prev_kept: Option<char>,
    prev_input: Option<char>,
    next_input: Option<char>,
    valid_flag_tag: bool,
    valid_bidi_embedding: bool,
    anchored: bool,
    prev_anchored: bool,
    opts: &CleanOptions,
) -> (r: Rule)
    ensures
        r == decide_rule(
            ch,
            prev_kept,
            prev_input,
            next_input,
            valid_flag_tag,
            valid_bidi_embedding,
            anchored,
            prev_anchored,
            *opts,
        ),
{
    let cp = ch as u32;
    if valid_bidi_embedding && !opts.strip_bidi {
        return Rule::PairedEmbedding;
    }
    if is_preservable_bidi(cp) && !opts.strip_bidi {
        return Rule::PreservedBidi;
    }
    if let Some(prev) = prev_input {
        if !opts.strip_emoji_glue {
            let prev_cp = prev as u32;
            if 0xE0100 <= cp && cp <= 0xE01EF && is_cjk_ideograph(prev_cp) {
                return Rule::IdeographSelector;
            }
        }
    }
    if !opts.strip_emoji_glue && is_mongolian_fvs(cp) && anchored {
        return Rule::MongolianSelectorAfterBase;
    }
    if let Some(prev) = prev_input {
        if !opts.strip_emoji_glue {
            let prev_cp = prev as u32;
            if 0xFE00 <= cp && cp <= 0xFE0D && is_cjk_ideograph(prev_cp) {
                return Rule::IdeographSelector;
            }
        }
    }
    if !opts.strip_emoji_glue {
        if cp == 0xFE0E || cp == 0xFE0F {
            if let Some(prev) = prev_input {
                if is_emoji_base(prev as u32) {
                    return Rule::EmojiSelector;
                }
            }
        }
        if cp == 0x200D {
            if let (Some(pk), Some(ni)) = (prev_kept, next_input) {
                if is_emoji_base(pk as u32) && is_emoji_base(ni as u32) {
                    return Rule::EmojiJoiner;
                }
            }
        }
        if is_script_joiner(cp) {
            if let (Some(prev), Some(next)) = (prev_input, next_input) {
                let ps = joining_script(prev);
                let ns = joining_script(next);
                if ps.is_some() && ps == ns && is_joining_neighbour_kept(prev, prev_kept, prev_anchored, opts)
                    && is_joining_neighbour_kept(next, prev_kept, false, opts) {
                    return Rule::ScriptJoiner;
                }
            }
        }
        if is_tag_range(cp) && valid_flag_tag {
            return Rule::FlagTag;
        }
        if is_mongolian_fvs(cp) {
            if let Some(pk) = prev_kept {
                if is_mongolian_letter(pk) {
                    return Rule::MongolianSelectorAfterLetter;
                }
            }
        }
        if is_khmer_vowel(cp) {
            if let Some(pk) = prev_kept {
                if is_khmer_letter(pk) {
                    return Rule::KhmerVowel;
                }
            }
        }
        if is_hangul_filler(cp) {
            if let Some(pk) = prev_kept {
                if is_hangul_jamo(pk as u32) {
                    return Rule::HangulFiller;
                }
            }
        }
        if is_orthographic_cf(cp) {
            return Rule::OrthographicFormat;
        }
    }
    base_decision(ch, opts)
}

} // verus!

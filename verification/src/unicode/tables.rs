//! Code point tables: which code points are carriers, which are
//! load-bearing, and how lookalikes map back to ASCII.

use vstd::prelude::*;

verus! {

/// Format / invisible controls commonly used for steganography or broken pastes.
pub open spec fn strip_table(cp: u32) -> bool {
    ||| cp == 0x00AD || cp == 0x034F || cp == 0x061C || cp == 0x115F || cp == 0x1160
    ||| cp == 0x17B4 || cp == 0x17B5
    ||| 0x180B <= cp <= 0x180E
    ||| 0x200B <= cp <= 0x200F
    ||| 0x202A <= cp <= 0x202E
    ||| 0x2060 <= cp <= 0x2064
    ||| 0x2066 <= cp <= 0x206F
    ||| cp == 0xFEFF
    ||| 0xFE00 <= cp <= 0xFE0F
    ||| 0xFFF9 <= cp <= 0xFFFB
}

pub fn is_strip_codepoint_table(cp: u32) -> (r: bool)
    ensures
        r == strip_table(cp),
{
    cp == 0x00AD || cp == 0x034F || cp == 0x061C || cp == 0x115F || cp == 0x1160 || cp == 0x17B4
        || cp == 0x17B5 || (0x180B <= cp && cp <= 0x180E) || (0x200B <= cp && cp <= 0x200F) || (
    0x202A <= cp && cp <= 0x202E) || (0x2060 <= cp && cp <= 0x2064) || (0x2066 <= cp && cp
        <= 0x206F) || cp == 0xFEFF || (0xFE00 <= cp && cp <= 0xFE0F) || (0xFFF9 <= cp && cp
        <= 0xFFFB)
}

/// Spaces that look like (or substitute for) U+0020.
pub open spec fn space_homoglyph_cp(cp: u32) -> bool {
    ||| cp == 0x00A0 || cp == 0x1680
    ||| 0x2000 <= cp <= 0x200A
    ||| cp == 0x202F || cp == 0x205F || cp == 0x3000
}

pub fn space_homoglyph(cp: u32) -> (r: Option<char>)
    ensures
        r == (if space_homoglyph_cp(cp) { Some(' ') } else { None::<char> }),
{
    if cp == 0x00A0 || cp == 0x1680 || (0x2000 <= cp && cp <= 0x200A) || cp == 0x202F || cp
        == 0x205F || cp == 0x3000 {
        Some(' ')
    } else {
        None
    }
}

/// The ASCII letter that a Cyrillic or fullwidth Latin lookalike stands for.
pub open spec fn confusable_target(cp: u32) -> Option<char> {
    if cp == 0x0410 { Some('A') }
    else if cp == 0x0412 { Some('B') }
    else if cp == 0x0415 { Some('E') }
    else if cp == 0x041A { Some('K') }
    else if cp == 0x041C { Some('M') }
    else if cp == 0x041D { Some('H') }
    else if cp == 0x041E { Some('O') }
    else if cp == 0x0420 { Some('P') }
    else if cp == 0x0421 { Some('C') }
    else if cp == 0x0422 { Some('T') }
    else if cp == 0x0425 { Some('X') }
    else if cp == 0x0430 { Some('a') }
    else if cp == 0x0435 { Some('e') }
    else if cp == 0x043E { Some('o') }
    else if cp == 0x0440 { Some('p') }
    else if cp == 0x0441 { Some('c') }
    else if cp == 0x0443 { Some('y') }
    else if cp == 0x0445 { Some('x') }
    else if cp == 0x0456 { Some('i') }
    else if 0xFF21 <= cp <= 0xFF3A { Some(((cp - 0xFF21 + 0x41) as u8) as char) }
    else if 0xFF41 <= cp <= 0xFF5A { Some(((cp - 0xFF41 + 0x61) as u8) as char) }
    else { None }
}

/// Optional confusable Latin lookalikes (aggressive mode only).
pub fn latin_confusable(cp: u32) -> (r: Option<char>)
    ensures
        r == confusable_target(cp),
        r matches Some(c) ==> is_ascii_letter(c),
{
    let c = match cp {
        0x0410 => 'A',
        0x0412 => 'B',
        0x0415 => 'E',
        0x041A => 'K',
        0x041C => 'M',
        0x041D => 'H',
        0x041E => 'O',
        0x0420 => 'P',
        0x0421 => 'C',
        0x0422 => 'T',
        0x0425 => 'X',
        0x0430 => 'a',
        0x0435 => 'e',
        0x043E => 'o',
        0x0440 => 'p',
        0x0441 => 'c',
        0x0443 => 'y',
        0x0445 => 'x',
        0x0456 => 'i',
        0xFF21..=0xFF3A => {
            let b: u8 = (cp - 0xFF21 + 0x41) as u8;
            b as char
        },
        0xFF41..=0xFF5A => {
            let b: u8 = (cp - 0xFF41 + 0x61) as u8;
            b as char
        },
        _ => return None,
    };
    Some(c)
}

pub open spec fn is_ascii_letter(c: char) -> bool {
    ('A' <= c && c <= 'Z') || ('a' <= c && c <= 'z')
}

pub open spec fn vs_supplement(cp: u32) -> bool {
    0xE0100 <= cp <= 0xE01EF
}

pub open spec fn private_use(cp: u32) -> bool {
    ||| 0xE000 <= cp <= 0xF8FF
    ||| 0xF0000 <= cp <= 0xFFFFD
    ||| 0x100000 <= cp <= 0x10FFFD
}

pub fn is_private_use(cp: u32) -> (r: bool)
    ensures
        r == private_use(cp),
{
    (0xE000 <= cp && cp <= 0xF8FF) || (0xF0000 <= cp && cp <= 0xFFFFD) || (0x100000 <= cp && cp
        <= 0x10FFFD)
}

/// Code points that are carriers unless a context rule preserves them.
pub open spec fn strip_cp(cp: u32) -> bool {
    strip_table(cp) || vs_supplement(cp) || (0xE0001 <= cp <= 0xE007F) || private_use(cp)
}

pub fn is_strip_cp(cp: u32) -> (r: bool)
    ensures
        r == strip_cp(cp),
{
    if is_strip_codepoint_table(cp) {
        return true;
    }
    if 0xE0100 <= cp && cp <= 0xE01EF {
        return true;
    }
    if 0xE0001 <= cp && cp <= 0xE007F {
        return true;
    }
    is_private_use(cp)
}

pub open spec fn bidi_cp(cp: u32) -> bool {
    cp == 0x061C || cp == 0x200E || cp == 0x200F || (0x202A <= cp <= 0x202E) || (0x2066 <= cp
        <= 0x2069)
}

pub fn is_bidi_cp(cp: u32) -> (r: bool)
    ensures
        r == bidi_cp(cp),
{
    cp == 0x061C || cp == 0x200E || cp == 0x200F || (0x202A <= cp && cp <= 0x202E) || (0x2066
        <= cp && cp <= 0x2069)
}

pub open spec fn preservable_bidi(cp: u32) -> bool {
    cp == 0x061C || cp == 0x200E || cp == 0x200F || (0x2066 <= cp <= 0x2069)
}

pub fn is_preservable_bidi(cp: u32) -> (r: bool)
    ensures
        r == preservable_bidi(cp),
{
    cp == 0x061C || cp == 0x200E || cp == 0x200F || (0x2066 <= cp && cp <= 0x2069)
}

pub open spec fn zw_family(cp: u32) -> bool {
    cp == 0x200B || cp == 0x200C || cp == 0x200D || cp == 0x2060 || cp == 0xFEFF || cp == 0x180E
}

pub fn is_zw_family(cp: u32) -> (r: bool)
    ensures
        r == zw_family(cp),
{
    cp == 0x200B || cp == 0x200C || cp == 0x200D || cp == 0x2060 || cp == 0xFEFF || cp == 0x180E
}

pub open spec fn emoji_glue(cp: u32) -> bool {
    cp == 0x200D || cp == 0xFE0E || cp == 0xFE0F
}

pub fn is_emoji_glue(cp: u32) -> (r: bool)
    ensures
        r == emoji_glue(cp),
{
    cp == 0x200D || cp == 0xFE0E || cp == 0xFE0F
}

pub open spec fn emoji_base(cp: u32) -> bool {
    ||| 0x1F000 <= cp <= 0x1FAFF
    ||| 0x2190 <= cp <= 0x25FF
    ||| 0x2600 <= cp <= 0x27BF
    ||| 0x2B00 <= cp <= 0x2BFF
    ||| cp == 0x00A9 || cp == 0x00AE || cp == 0x2122 || cp == 0x3030 || cp == 0x303D
    ||| cp == 0x3297 || cp == 0x3299
    ||| cp == 0x0023 || cp == 0x002A
    ||| 0x0030 <= cp <= 0x0039
}

pub fn is_emoji_base(cp: u32) -> (r: bool)
    ensures
        r == emoji_base(cp),
{
    if (0x1F000 <= cp && cp <= 0x1FAFF) || (0x2190 <= cp && cp <= 0x25FF) || (0x2600 <= cp && cp
        <= 0x27BF) || (0x2B00 <= cp && cp <= 0x2BFF) {
        return true;
    }
    if cp == 0x00A9 || cp == 0x00AE || cp == 0x2122 || cp == 0x3030 || cp == 0x303D || cp
        == 0x3297 || cp == 0x3299 {
        return true;
    }
    cp == 0x0023 || cp == 0x002A || (0x0030 <= cp && cp <= 0x0039)
}

pub open spec fn script_joiner(cp: u32) -> bool {
    cp == 0x200C || cp == 0x200D
}

pub fn is_script_joiner(cp: u32) -> (r: bool)
    ensures
        r == script_joiner(cp),
{
    cp == 0x200C || cp == 0x200D
}

pub open spec fn tag_range(cp: u32) -> bool {
    0xE0020 <= cp <= 0xE007F
}

pub fn is_tag_range(cp: u32) -> (r: bool)
    ensures
        r == tag_range(cp),
{
    0xE0020 <= cp && cp <= 0xE007F
}

pub open spec fn orthographic_cf(cp: u32) -> bool {
    (0x0600 <= cp <= 0x0605) || cp == 0x06DD || cp == 0x070F || cp == 0x08E2 || cp == 0x110BD
        || cp == 0x110CD
}

pub fn is_orthographic_cf(cp: u32) -> (r: bool)
    ensures
        r == orthographic_cf(cp),
{
    (0x0600 <= cp && cp <= 0x0605) || cp == 0x06DD || cp == 0x070F || cp == 0x08E2 || cp
        == 0x110BD || cp == 0x110CD
}

pub open spec fn mongolian_fvs(cp: u32) -> bool {
    0x180B <= cp <= 0x180D
}

pub fn is_mongolian_fvs(cp: u32) -> (r: bool)
    ensures
        r == mongolian_fvs(cp),
{
    0x180B <= cp && cp <= 0x180D
}

pub open spec fn khmer_vowel(cp: u32) -> bool {
    cp == 0x17B4 || cp == 0x17B5
}

pub fn is_khmer_vowel(cp: u32) -> (r: bool)
    ensures
        r == khmer_vowel(cp),
{
    cp == 0x17B4 || cp == 0x17B5
}

pub open spec fn hangul_filler(cp: u32) -> bool {
    cp == 0x115F || cp == 0x1160
}

pub fn is_hangul_filler(cp: u32) -> (r: bool)
    ensures
        r == hangul_filler(cp),
{
    cp == 0x115F || cp == 0x1160
}

pub open spec fn variation_selector(cp: u32) -> bool {
    vs_supplement(cp) || (0xFE00 <= cp <= 0xFE0F) || (0x180B <= cp <= 0x180D)
}

pub fn is_variation_selector(cp: u32) -> (r: bool)
    ensures
        r == variation_selector(cp),
{
    (0xE0100 <= cp && cp <= 0xE01EF) || (0xFE00 <= cp && cp <= 0xFE0F) || (0x180B <= cp && cp
        <= 0x180D)
}

pub open spec fn cjk_ideograph(cp: u32) -> bool {
    ||| 0x3400 <= cp <= 0x4DBF
    ||| 0x4E00 <= cp <= 0x9FFF
    ||| 0xF900 <= cp <= 0xFAFF
    ||| 0x20000 <= cp <= 0x323AF
}

pub fn is_cjk_ideograph(cp: u32) -> (r: bool)
    ensures
        r == cjk_ideograph(cp),
{
    (0x3400 <= cp && cp <= 0x4DBF) || (0x4E00 <= cp && cp <= 0x9FFF) || (0xF900 <= cp && cp
        <= 0xFAFF) || (0x20000 <= cp && cp <= 0x323AF)
}

pub open spec fn mongolian_base(cp: u32) -> bool {
    0x1800 <= cp <= 0x18AF
}

pub fn is_mongolian_base(cp: u32) -> (r: bool)
    ensures
        r == mongolian_base(cp),
{
    0x1800 <= cp && cp <= 0x18AF
}

pub open spec fn hangul_jamo(cp: u32) -> bool {
    (0x1100 <= cp <= 0x11FF) || (0xA960 <= cp <= 0xA97C) || (0xD7B0 <= cp <= 0xD7C6)
}

pub fn is_hangul_jamo(cp: u32) -> (r: bool)
    ensures
        r == hangul_jamo(cp),
{
    (0x1100 <= cp && cp <= 0x11FF) || (0xA960 <= cp && cp <= 0xA97C) || (0xD7B0 <= cp && cp
        <= 0xD7C6)
}

/// Load-bearing invisible: emoji glue, variation selector, script joiner, flag
/// tag char, or same-script filler/selector. These do not advance `prev_kept`.
pub open spec fn glue(cp: u32) -> bool {
    emoji_glue(cp) || variation_selector(cp) || script_joiner(cp) || tag_range(cp)
        || mongolian_fvs(cp) || khmer_vowel(cp) || hangul_filler(cp)
}

pub fn is_glue(cp: u32) -> (r: bool)
    ensures
        r == glue(cp),
{
    is_emoji_glue(cp) || is_variation_selector(cp) || is_script_joiner(cp) || is_tag_range(cp)
        || is_mongolian_fvs(cp) || is_khmer_vowel(cp) || is_hangul_filler(cp)
}

} // verus!

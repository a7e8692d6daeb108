//! The Unicode Character Database facts this crate takes from its
//! dependencies: general categories (`unicode_general_category`) and NFKC
//! normalisation (`unicode_normalization`).

use unicode_general_category::get_general_category;
use unicode_normalization::UnicodeNormalization;
use vstd::prelude::*;

verus! {

/// The general category of a character: its two-letter abbreviation
/// (`"Lu"`, `"Cf"`, ...) and the name of the category variant
/// (`"UppercaseLetter"`, `"Format"`, ...).
pub uninterp spec fn general_category(c: char) -> (Seq<char>, Seq<char>);

/// The characters whose general category is Format (Cf), as listed in the
/// category table of `unicode_general_category` (Unicode 16.0.0).
pub open spec fn format_cp(cp: u32) -> bool {
    ||| cp == 0x00AD
    ||| 0x0600 <= cp <= 0x0605
    ||| cp == 0x061C || cp == 0x06DD || cp == 0x070F
    ||| 0x0890 <= cp <= 0x0891
    ||| cp == 0x08E2 || cp == 0x180E
    ||| 0x200B <= cp <= 0x200F
    ||| 0x202A <= cp <= 0x202E
    ||| 0x2060 <= cp <= 0x2064
    ||| 0x2066 <= cp <= 0x206F
    ||| cp == 0xFEFF
    ||| 0xFFF9 <= cp <= 0xFFFB
    ||| cp == 0x110BD || cp == 0x110CD
    ||| 0x13430 <= cp <= 0x1343F
    ||| 0x1BCA0 <= cp <= 0x1BCA3
    ||| 0x1D173 <= cp <= 0x1D17A
    ||| cp == 0xE0001
    ||| 0xE0020 <= cp <= 0xE007F
}

pub open spec fn category_abbreviation(c: char) -> Seq<char> {
    general_category(c).0
}

pub open spec fn category_name(c: char) -> Seq<char> {
    general_category(c).1
}

/// The category abbreviation starts with `L` (a letter).
pub open spec fn is_letter(c: char) -> bool {
    category_abbreviation(c)[0] == 'L'
}

/// The category abbreviation starts with `L` or `M` (a letter or a mark).
pub open spec fn is_letter_or_mark(c: char) -> bool {
    category_abbreviation(c)[0] == 'L' || category_abbreviation(c)[0] == 'M'
}

/// The general category is Format (`Cf`).
pub open spec fn is_format(c: char) -> bool {
    category_abbreviation(c) =~= seq!['C', 'f']
}

/// Looks up a character's general category with
/// `unicode_general_category::get_general_category` and renders it as its
/// abbreviation (`GeneralCategory::abbreviation`) and as the variant's
/// `Debug` name. What is claimed: the result is a function of the character
/// alone; every abbreviation has two characters; the abbreviation is `Cf`
/// exactly for the code points that the crate's table lists as `Format`.
#[verifier::external_body]
pub(crate) fn general_category_of(c: char) -> (r: (&'static str, String))
    ensures
        (r.0@, r.1@) == general_category(c),
        r.0@.len() == 2,
        (r.0@ =~= seq!['C', 'f']) == format_cp(c as u32),
{
    let category = get_general_category(c);
    (category.abbreviation(), format!("{:?}", category))
}

/// NFKC normal form of a character sequence.
pub uninterp spec fn nfkc_normalized(s: Seq<char>) -> Seq<char>;

/// NFKC normalisation with `unicode_normalization::UnicodeNormalization::nfkc`,
/// collected into a `String`. What is claimed: the result is a function of
/// the input characters alone; nothing is stated about what it is.
#[verifier::external_body]
pub(crate) fn nfkc(s: &str) -> (r: String)
    ensures
        r@ == nfkc_normalized(s@),
{
    s.nfkc().collect()
}

fn abbreviation_char(abbreviation: &str, i: usize) -> (c: char)
    requires
        abbreviation@.len() == 2,
        i < 2,
    ensures
        c == abbreviation@[i as int],
{
    abbreviation.get_char(i)
}

/// The general category is a letter or a mark.
pub fn cat_first_is_letter_or_mark(c: char) -> (r: bool)
    ensures
        r == is_letter_or_mark(c),
{
    let (abbreviation, _name) = general_category_of(c);
    let first = abbreviation_char(abbreviation, 0);
    first == 'L' || first == 'M'
}

/// The general category is a letter.
pub fn cat_first_is_letter(c: char) -> (r: bool)
    ensures
        r == is_letter(c),
{
    let (abbreviation, _name) = general_category_of(c);
    abbreviation_char(abbreviation, 0) == 'L'
}

/// The general category is Format.
pub fn cat_is_format(c: char) -> (r: bool)
    ensures
        r == is_format(c),
        r == format_cp(c as u32),
{
    let (abbreviation, _name) = general_category_of(c);
    let first = abbreviation_char(abbreviation, 0);
    let second = abbreviation_char(abbreviation, 1);
    proof {
        if first == 'C' && second == 'f' {
            assert(abbreviation@ =~= seq!['C', 'f']);
        }
    }
    first == 'C' && second == 'f'
}

} // verus!

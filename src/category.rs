//! Classification of characters by their Unicode general category.

use vstd::prelude::*;
use unic_ucd::GeneralCategory;

verus! {

#[verifier::external_type_specification]
pub struct ExGeneralCategory(unic_ucd::GeneralCategory);

/// The general category that the Unicode Character Database gives a character.
pub uninterp spec fn general_category_of(c: char) -> GeneralCategory;

/// Relies on unic_ucd's `GeneralCategory::of`: a lookup of the character in a
/// fixed table generated from the Unicode Character Database, so the result
/// depends on the character alone.
pub assume_specification[ unic_ucd::GeneralCategory::of ](ch: char) -> (r: GeneralCategory)
    ensures
        r == general_category_of(ch),
;

/// How the canonicalizer treats a character of a given category.
#[derive(Clone, Copy, Debug, PartialEq, Eq, Structural)]
pub enum CharClass {
    /// Carries the visual identity of an emoji.
    Keep,
    /// A modifier (skin tone and the like): removed.
    Drop,
    /// A category that emoji tokens are not expected to hold: removed as well.
    Unexpected,
}

pub open spec fn spec_category_class(g: GeneralCategory) -> CharClass {
    match g {
        GeneralCategory::OtherSymbol
        | GeneralCategory::OtherPunctuation
        | GeneralCategory::MathSymbol
        | GeneralCategory::DashPunctuation
        | GeneralCategory::LowercaseLetter
        | GeneralCategory::Format => CharClass::Keep,
        GeneralCategory::NonspacingMark
        | GeneralCategory::ModifierSymbol
        | GeneralCategory::ModifierLetter
        | GeneralCategory::EnclosingMark
        | GeneralCategory::SpacingMark
        | GeneralCategory::Unassigned
        | GeneralCategory::OtherLetter => CharClass::Drop,
        _ => CharClass::Unexpected,
    }
}

/// Whether a character of category `g` stays in a canonical emoji.
pub open spec fn keeps_category(g: GeneralCategory) -> bool {
    spec_category_class(g) == CharClass::Keep
}

/// Whether the character `c` stays in a canonical emoji.
pub open spec fn keeps_char(c: char) -> bool {
    keeps_category(general_category_of(c))
}

/// Sorts a general category into kept, dropped and unexpected.
pub fn category_class(g: GeneralCategory) -> (r: CharClass)
    ensures
        r == spec_category_class(g),
{
    match g {
        GeneralCategory::OtherSymbol
        | GeneralCategory::OtherPunctuation
        | GeneralCategory::MathSymbol
        | GeneralCategory::DashPunctuation
        | GeneralCategory::LowercaseLetter
        | GeneralCategory::Format => CharClass::Keep,
        GeneralCategory::NonspacingMark
        | GeneralCategory::ModifierSymbol
        | GeneralCategory::ModifierLetter
        | GeneralCategory::EnclosingMark
        | GeneralCategory::SpacingMark
        | GeneralCategory::Unassigned
        | GeneralCategory::OtherLetter => CharClass::Drop,
        _ => CharClass::Unexpected,
    }
}

/// Whether `c` carries part of an emoji's identity and stays in its canonical form.
pub fn is_char_interesting(c: &char) -> (r: bool)
    ensures
        r == keeps_char(*c),
{
    let g = GeneralCategory::of(*c);
    let class = category_class(g);
    class == CharClass::Keep
}

} // verus!

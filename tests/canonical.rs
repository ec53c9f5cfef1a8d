use emoji_graph::{category_class, clean_emoji, is_char_interesting, unexpected_chars, CharClass};
use unic_ucd::GeneralCategory;

#[test]
fn empty_token_has_no_canonical_form() {
    assert_eq!(clean_emoji(""), None);
}

#[test]
fn gender_markers_are_stripped() {
    let male = clean_emoji("\u{1F46E}\u{200D}\u{2642}\u{FE0F}");
    let female = clean_emoji("\u{1F46E}\u{200D}\u{2640}\u{FE0F}");
    let base = clean_emoji("\u{1F46E}");
    assert_eq!(base, Some("\u{1F46E}".to_string()));
    assert_eq!(male, base);
    assert_eq!(female, base);
}

#[test]
fn skin_tone_is_stripped() {
    assert_eq!(clean_emoji("\u{1F44D}\u{1F3FD}"), clean_emoji("\u{1F44D}"));
    assert_eq!(clean_emoji("\u{1F44D}\u{1F3FD}"), Some("\u{1F44D}".to_string()));
}

#[test]
fn only_modifiers_give_none() {
    assert_eq!(clean_emoji("\u{1F3FD}"), None);
    assert_eq!(clean_emoji("\u{FE0F}\u{1F3FB}"), None);
}

#[test]
fn unexpected_categories_are_dropped() {
    assert_eq!(clean_emoji("A1 "), None);
    assert_eq!(clean_emoji("Ab"), Some("b".to_string()));
}

#[test]
fn zero_width_joiner_sequences_are_kept() {
    let family = "\u{1F468}\u{200D}\u{1F469}\u{200D}\u{1F467}";
    assert_eq!(clean_emoji(family), Some(family.to_string()));
}

#[test]
fn canonicalization_is_idempotent_on_examples() {
    for s in [
        "",
        "\u{1F46E}\u{200D}\u{2642}\u{FE0F}",
        "\u{1F44D}\u{1F3FD}",
        "\u{2764}\u{FE0F}",
        "\u{1F3FD}",
        "\u{200D}\u{200D}\u{2642}\u{FE0F}\u{2642}\u{FE0F}",
    ] {
        let once = clean_emoji(s);
        let again = clean_emoji(once.as_deref().unwrap_or(s));
        assert_eq!(again, once);
    }
}

#[test]
fn variation_selector_is_dropped() {
    assert_eq!(clean_emoji("\u{2764}\u{FE0F}"), Some("\u{2764}".to_string()));
}

#[test]
fn char_classification() {
    assert!(is_char_interesting(&'\u{1F600}'));
    assert!(is_char_interesting(&'\u{200D}'));
    assert!(is_char_interesting(&'a'));
    assert!(is_char_interesting(&'-'));
    assert!(is_char_interesting(&'+'));
    assert!(is_char_interesting(&'!'));
    assert!(!is_char_interesting(&'\u{1F3FD}'));
    assert!(!is_char_interesting(&'\u{FE0F}'));
    assert!(!is_char_interesting(&'A'));
    assert!(!is_char_interesting(&' '));
}

#[test]
fn category_classes() {
    assert_eq!(category_class(GeneralCategory::OtherSymbol), CharClass::Keep);
    assert_eq!(category_class(GeneralCategory::Format), CharClass::Keep);
    assert_eq!(category_class(GeneralCategory::ModifierSymbol), CharClass::Drop);
    assert_eq!(category_class(GeneralCategory::Unassigned), CharClass::Drop);
    assert_eq!(category_class(GeneralCategory::UppercaseLetter), CharClass::Unexpected);
    assert_eq!(category_class(GeneralCategory::SpaceSeparator), CharClass::Unexpected);
}

#[test]
fn unexpected_characters_are_reported() {
    assert_eq!(unexpected_chars("A\u{1F600}1 "), vec!['A', '1', ' ']);
    assert!(unexpected_chars("\u{1F44D}\u{1F3FD}").is_empty());
    assert!(unexpected_chars("").is_empty());
}


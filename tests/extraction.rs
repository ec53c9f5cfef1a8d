use emoji_graph::{get_tags, unmapped_emoticons, EmoticonMap, Tag, TagType};

fn tag(text: &str, t: TagType) -> Tag {
    Tag::new(text.to_string(), t)
}

#[test]
fn tag_type_names() {
    assert_eq!(TagType::Emoji.as_str(), "Emoji");
    assert_eq!(TagType::Emoticon.as_str(), "Emoticon");
    assert_eq!(TagType::Hashtag.as_str(), "Hashtag");
}

#[test]
fn emoticon_map_later_entry_wins() {
    let mut m = EmoticonMap::new();
    assert_eq!(m.get(&":)".to_string()), None);
    m.insert(":)".to_string(), "\u{1F642}".to_string());
    m.insert(":(".to_string(), "\u{1F641}".to_string());
    m.insert(":)".to_string(), "\u{1F600}".to_string());
    assert_eq!(m.get(&":)".to_string()), Some("\u{1F600}".to_string()));
    assert_eq!(m.get(&":(".to_string()), Some("\u{1F641}".to_string()));
    assert_eq!(m.get(&":D".to_string()), None);
}

#[test]
fn default_policy_keeps_all_kinds_in_order() {
    let m = EmoticonMap::new();
    let tags = get_tags("\u{1F600} \u{1F44D}\u{1F3FD}", ":) :D", "#fun #x", &m, false);
    assert_eq!(
        tags,
        vec![
            tag("\u{1F600}", TagType::Emoji),
            tag("\u{1F44D}", TagType::Emoji),
            tag(":)", TagType::Emoticon),
            tag(":D", TagType::Emoticon),
            tag("#fun", TagType::Hashtag),
            tag("#x", TagType::Hashtag),
        ]
    );
}

#[test]
fn empty_tokens_are_dropped() {
    let m = EmoticonMap::new();
    let tags = get_tags("  \u{1F600}  ", " ", "#a  #b ", &m, false);
    assert_eq!(
        tags,
        vec![
            tag("\u{1F600}", TagType::Emoji),
            tag("#a", TagType::Hashtag),
            tag("#b", TagType::Hashtag),
        ]
    );
    assert!(get_tags("", "", "", &m, false).is_empty());
}

#[test]
fn replace_policy_maps_emoticons_and_ignores_hashtags() {
    let mut m = EmoticonMap::new();
    m.insert(":)".to_string(), "\u{1F642}".to_string());
    let tags = get_tags("\u{1F600}", ":) :-/", "#fun", &m, true);
    assert_eq!(
        tags,
        vec![tag("\u{1F600}", TagType::Emoji), tag("\u{1F642}", TagType::Emoji)]
    );
}

#[test]
fn tokens_with_no_canonical_form_are_dropped() {
    let m = EmoticonMap::new();
    let tags = get_tags("\u{1F3FD} \u{1F44D}", "", "", &m, false);
    assert_eq!(tags, vec![tag("\u{1F44D}", TagType::Emoji)]);
}

#[test]
fn unmapped_emoticons_are_reported() {
    let mut m = EmoticonMap::new();
    m.insert(":)".to_string(), "\u{1F642}".to_string());
    assert_eq!(unmapped_emoticons(":) :-/  :(", &m), vec![":-/".to_string(), ":(".to_string()]);
    assert!(unmapped_emoticons("", &m).is_empty());
}

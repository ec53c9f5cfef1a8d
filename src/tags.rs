//! Tags and their extraction from one record's three token fields.

use vstd::prelude::*;
use crate::canon::{canonical_emoji, chars_of, clean_emoji, string_from_chars};

verus! {

/// The kind of token a tag came from.
#[derive(Clone, Copy, Debug, PartialEq, Eq, Hash, Structural)]
pub enum TagType {
    Emoji,
    Emoticon,
    Hashtag,
}

pub open spec fn tag_type_name(t: TagType) -> Seq<char> {
    match t {
        TagType::Emoji => "Emoji"@,
        TagType::Emoticon => "Emoticon"@,
        TagType::Hashtag => "Hashtag"@,
    }
}

impl TagType {
    /// The name of the kind, as written in the node table.
    pub fn as_str(&self) -> (r: &'static str)
        ensures
            r@ == tag_type_name(*self),
    {
        match self {
            TagType::Emoji => "Emoji",
            TagType::Emoticon => "Emoticon",
            TagType::Hashtag => "Hashtag",
        }
    }
}

/// A normalized token of a record: its text and the kind it came from.
#[derive(Clone, Debug, PartialEq, Eq, Hash)]
pub struct Tag {
    pub text: String,
    pub expression_type: TagType,
}

/// What a tag is: its text as characters, and its kind.
pub ghost struct TagModel {
    pub text: Seq<char>,
    pub expression_type: TagType,
}

impl View for Tag {
    type V = TagModel;

    open spec fn view(&self) -> TagModel {
        TagModel { text: self.text@, expression_type: self.expression_type }
    }
}

pub open spec fn tag_models(v: Seq<Tag>) -> Seq<TagModel> {
    v.map_values(|t: Tag| t@)
}

impl Tag {
    /// A tag of kind `expression_type` with text `text`.
    pub fn new(text: String, expression_type: TagType) -> (r: Tag)
        ensures
            r@ == (TagModel { text: text@, expression_type }),
    {
        Tag { text, expression_type }
    }

    /// A copy of this tag.
    pub fn duplicate(&self) -> (r: Tag)
        ensures
            r@ == self@,
    {
        Tag { text: self.text.clone(), expression_type: self.expression_type }
    }
}

/// A table from emoticons to emoji; a later entry for a key overrides earlier ones.
pub struct EmoticonMap {
    pairs: Vec<(String, String)>,
}

pub open spec fn pairs_lookup(ps: Seq<(String, String)>, k: Seq<char>) -> Option<Seq<char>>
    decreases ps.len(),
{
    if ps.len() == 0 {
        None
    } else if ps.last().0@ == k {
        Some(ps.last().1@)
    } else {
        pairs_lookup(ps.drop_last(), k)
    }
}

impl EmoticonMap {
    /// The emoji that `k` maps to, if any.
    pub closed spec fn lookup(&self, k: Seq<char>) -> Option<Seq<char>> {
        pairs_lookup(self.pairs@, k)
    }

    /// The empty table.
    pub fn new() -> (r: EmoticonMap)
        ensures
            forall|k: Seq<char>| r.lookup(k) is None,
    {
        EmoticonMap { pairs: Vec::new() }
    }

    /// Maps `emoticon` to `emoji`, replacing what it mapped to before.
    pub fn insert(&mut self, emoticon: String, emoji: String)
        ensures
            forall|k: Seq<char>| #[trigger] final(self).lookup(k) == if k == emoticon@ {
                Some(emoji@)
            } else {
                old(self).lookup(k)
            },
    {
        let ghost e = emoticon@;
        let ghost v = emoji@;
        self.pairs.push((emoticon, emoji));
        assert(self.pairs@.drop_last() =~= old(self).pairs@);
        assert(self.pairs@.last().0@ == e && self.pairs@.last().1@ == v);
    }

    /// The emoji that `emoticon` maps to, if any.
    pub fn get(&self, emoticon: &String) -> (r: Option<String>)
        ensures
            match r {
                None => self.lookup(emoticon@) is None,
                Some(e) => self.lookup(emoticon@) == Some(e@),
            },
    {
        let mut i: usize = self.pairs.len();
        assert(self.pairs@.subrange(0, i as int) =~= self.pairs@);
        while i > 0
            invariant
                i <= self.pairs@.len(),
                pairs_lookup(self.pairs@.subrange(0, i as int), emoticon@) == pairs_lookup(
                    self.pairs@,
                    emoticon@,
                ),
            decreases i,
        {
            let ghost prefix = self.pairs@.subrange(0, i as int);
            assert(prefix.drop_last() =~= self.pairs@.subrange(0, i - 1));
            if self.pairs[i - 1].0 == *emoticon {
                return Some(self.pairs[i - 1].1.clone());
            }
            i -= 1;
        }
        None
    }
}

/// The pieces of `s` between single spaces, empty pieces included, as
/// `str::split(" ")` gives them.
pub open spec fn split_on_space(s: Seq<char>) -> Seq<Seq<char>>
    decreases s.len(),
{
    if s.len() == 0 {
        seq![Seq::empty()]
    } else {
        let prev = split_on_space(s.drop_last());
        if s.last() == ' ' {
            prev.push(Seq::empty())
        } else {
            prev.update(prev.len() - 1, prev.last().push(s.last()))
        }
    }
}

proof fn lemma_split_nonempty(s: Seq<char>)
    ensures
        split_on_space(s).len() > 0,
    decreases s.len(),
{
    if s.len() > 0 {
        lemma_split_nonempty(s.drop_last());
    }
}

/// The tag that one token of kind `kind` gives, if any.
pub open spec fn token_tag(
    tok: Seq<char>,
    kind: TagType,
    map: EmoticonMap,
    replace_emoticons: bool,
) -> Option<TagModel> {
    match kind {
        TagType::Emoji => match canonical_emoji(tok) {
            Some(t) => Some(TagModel { text: t, expression_type: TagType::Emoji }),
            None => None,
        },
        TagType::Emoticon => if tok.len() == 0 {
            None
        } else if replace_emoticons {
            match map.lookup(tok) {
                Some(e) => if e.len() == 0 {
                    None
                } else {
                    Some(TagModel { text: e, expression_type: TagType::Emoji })
                },
                None => None,
            }
        } else {
            Some(TagModel { text: tok, expression_type: TagType::Emoticon })
        },
        TagType::Hashtag => if tok.len() == 0 {
            None
        } else {
            Some(TagModel { text: tok, expression_type: TagType::Hashtag })
        },
    }
}

/// The tags of a sequence of tokens of kind `kind`, in order.
pub open spec fn tokens_tags(
    toks: Seq<Seq<char>>,
    kind: TagType,
    map: EmoticonMap,
    replace_emoticons: bool,
) -> Seq<TagModel>
    decreases toks.len(),
{
    if toks.len() == 0 {
        Seq::empty()
    } else {
        let prev = tokens_tags(toks.drop_last(), kind, map, replace_emoticons);
        match token_tag(toks.last(), kind, map, replace_emoticons) {
            Some(t) => prev.push(t),
            None => prev,
        }
    }
}

/// The tags of one record: its emoji, then its emoticons (or the emoji they
/// map to), then its hashtags unless emoticons are replaced.
pub open spec fn record_tags(
    emojis: Seq<char>,
    emoticons: Seq<char>,
    hashtags: Seq<char>,
    map: EmoticonMap,
    replace_emoticons_and_ignore_hashtags: bool,
) -> Seq<TagModel> {
    tokens_tags(split_on_space(emojis), TagType::Emoji, map, replace_emoticons_and_ignore_hashtags)
        + tokens_tags(
        split_on_space(emoticons),
        TagType::Emoticon,
        map,
        replace_emoticons_and_ignore_hashtags,
    ) + if replace_emoticons_and_ignore_hashtags {
        Seq::empty()
    } else {
        tokens_tags(split_on_space(hashtags), TagType::Hashtag, map, false)
    }
}

fn tag_of_token(tok: &Vec<char>, kind: TagType, map: &EmoticonMap, replace_emoticons: bool) -> (r:
    Option<Tag>)
    ensures
        match r {
            None => token_tag(tok@, kind, *map, replace_emoticons) is None,
            Some(t) => token_tag(tok@, kind, *map, replace_emoticons) == Some(t@),
        },
{
    match kind {
        TagType::Emoji => {
            let s = string_from_chars(tok);
            match clean_emoji(s.as_str()) {
                Some(t) => Some(Tag::new(t, TagType::Emoji)),
                None => None,
            }
        },
        TagType::Emoticon => {
            if tok.len() == 0 {
                None
            } else if replace_emoticons {
                match map.get(&string_from_chars(tok)) {
                    Some(e) => {
                        if e.as_str().unicode_len() == 0 {
                            None
                        } else {
                            Some(Tag::new(e, TagType::Emoji))
                        }
                    },
                    None => None,
                }
            } else {
                Some(Tag::new(string_from_chars(tok), TagType::Emoticon))
            }
        },
        TagType::Hashtag => {
            if tok.len() == 0 {
                None
            } else {
                Some(Tag::new(string_from_chars(tok), TagType::Hashtag))
            }
        },
    }
}

/// Appends to `out` the tags of the space-separated tokens of `field`.
fn push_field_tags(
    field: &str,
    kind: TagType,
    map: &EmoticonMap,
    replace_emoticons: bool,
    out: &mut Vec<Tag>,
)
    ensures
        tag_models(final(out)@) == tag_models(old(out)@) + tokens_tags(
            split_on_space(field@),
            kind,
            *map,
            replace_emoticons,
        ),
{
    let s = chars_of(field);
    let n = s.len();
    let mut cur: Vec<char> = Vec::new();
    let mut i: usize = 0;
    let ghost start = tag_models(out@);
    proof {
        assert(s@.subrange(0, 0) =~= Seq::<char>::empty());
    }
    while i < n
        invariant
            n == s@.len(),
            s@ == field@,
            i <= n,
            split_on_space(s@.subrange(0, i as int)).len() > 0,
            split_on_space(s@.subrange(0, i as int)).last() == cur@,
            tag_models(out@) == start + tokens_tags(
                split_on_space(s@.subrange(0, i as int)).drop_last(),
                kind,
                *map,
                replace_emoticons,
            ),
        decreases n - i,
    {
        let c = s[i];
        let ghost pre = s@.subrange(0, i as int);
        let ghost next = s@.subrange(0, i + 1);
        assert(next.drop_last() =~= pre);
        proof {
            lemma_split_nonempty(pre);
        }
        if c == ' ' {
            assert(split_on_space(next).drop_last() =~= split_on_space(pre));
            let ghost before = tag_models(out@);
            let t = tag_of_token(&cur, kind, map, replace_emoticons);
            match t {
                Some(t) => {
                    out.push(t);
                    assert(tag_models(out@) =~= before.push(t@));
                },
                None => {},
            }
            let ghost sp = split_on_space(pre);
            assert(tokens_tags(sp, kind, *map, replace_emoticons) == match token_tag(
                sp.last(),
                kind,
                *map,
                replace_emoticons,
            ) {
                Some(x) => tokens_tags(sp.drop_last(), kind, *map, replace_emoticons).push(x),
                None => tokens_tags(sp.drop_last(), kind, *map, replace_emoticons),
            });
            assert(split_on_space(pre).drop_last().push(split_on_space(pre).last())
                =~= split_on_space(pre));
            assert(tag_models(out@) =~= start + tokens_tags(
                split_on_space(next).drop_last(),
                kind,
                *map,
                replace_emoticons,
            ));
            cur = Vec::new();
        } else {
            cur.push(c);
            assert(split_on_space(next).drop_last() =~= split_on_space(pre).drop_last());
        }
        i += 1;
    }
    let ghost all = split_on_space(s@);
    assert(s@.subrange(0, n as int) =~= s@);
    proof {
        lemma_split_nonempty(s@);
    }
    let ghost before = tag_models(out@);
    let t = tag_of_token(&cur, kind, map, replace_emoticons);
    match t {
        Some(t) => {
            out.push(t);
            assert(tag_models(out@) =~= before.push(t@));
        },
        None => {},
    }
    assert(all.drop_last().push(all.last()) =~= all);
    assert(tag_models(out@) =~= start + tokens_tags(all, kind, *map, replace_emoticons));
}

/// The non-empty tokens of `toks` that `map` has no emoji for, in order.
pub open spec fn unmapped(toks: Seq<Seq<char>>, map: EmoticonMap) -> Seq<Seq<char>>
    decreases toks.len(),
{
    if toks.len() == 0 {
        Seq::empty()
    } else {
        let prev = unmapped(toks.drop_last(), map);
        if toks.last().len() > 0 && map.lookup(toks.last()) is None {
            prev.push(toks.last())
        } else {
            prev
        }
    }
}

pub open spec fn string_views(v: Seq<String>) -> Seq<Seq<char>> {
    v.map_values(|s: String| s@)
}

/// The emoticons of a record that `map` has no emoji for, for diagnostics.
pub fn unmapped_emoticons(emoticons: &str, map: &EmoticonMap) -> (r: Vec<String>)
    ensures
        string_views(r@) == unmapped(split_on_space(emoticons@), *map),
{
    let s = chars_of(emoticons);
    let n = s.len();
    let mut cur: Vec<char> = Vec::new();
    let mut out: Vec<String> = Vec::new();
    let mut i: usize = 0;
    assert(s@.subrange(0, 0) =~= Seq::<char>::empty());
    while i < n
        invariant
            n == s@.len(),
            s@ == emoticons@,
            i <= n,
            split_on_space(s@.subrange(0, i as int)).len() > 0,
            split_on_space(s@.subrange(0, i as int)).last() == cur@,
            string_views(out@) == unmapped(split_on_space(s@.subrange(0, i as int)).drop_last(), *map),
        decreases n - i,
    {
        let ghost pre = s@.subrange(0, i as int);
        let ghost next = s@.subrange(0, i + 1);
        assert(next.drop_last() =~= pre);
        proof {
            lemma_split_nonempty(pre);
        }
        if s[i] == ' ' {
            let ghost sp = split_on_space(pre);
            push_unmapped(&cur, map, &mut out);
            assert(sp.drop_last().push(sp.last()) =~= sp);
            assert(split_on_space(next).drop_last() =~= sp);
            cur = Vec::new();
        } else {
            cur.push(s[i]);
            assert(split_on_space(next).drop_last() =~= split_on_space(pre).drop_last());
        }
        i += 1;
    }
    assert(s@.subrange(0, n as int) =~= s@);
    proof {
        lemma_split_nonempty(s@);
    }
    let ghost sp = split_on_space(s@);
    push_unmapped(&cur, map, &mut out);
    assert(sp.drop_last().push(sp.last()) =~= sp);
    out
}

fn push_unmapped(tok: &Vec<char>, map: &EmoticonMap, out: &mut Vec<String>)
    ensures
        string_views(final(out)@) == if tok@.len() > 0 && map.lookup(tok@) is None {
            string_views(old(out)@).push(tok@)
        } else {
            string_views(old(out)@)
        },
{
    if tok.len() > 0 {
        let t = string_from_chars(tok);
        match map.get(&t) {
            None => {
                out.push(t);
                assert(string_views(out@) =~= string_views(old(out)@).push(tok@));
            },
            Some(_) => {},
        }
    }
}

/// The tags of one record, from its emoji, emoticon and hashtag fields.
pub fn get_tags(
    emojis: &str,
    emoticons: &str,
    hashtags: &str,
    emoticon_emoji_map: &EmoticonMap,
    replace_emoticons_and_ignore_hashtags: bool,
) -> (r: Vec<Tag>)
    ensures
        tag_models(r@) == record_tags(
            emojis@,
            emoticons@,
            hashtags@,
            *emoticon_emoji_map,
            replace_emoticons_and_ignore_hashtags,
        ),
{
    let mut out: Vec<Tag> = Vec::new();
    assert(tag_models(out@) =~= Seq::empty());
    push_field_tags(
        emojis,
        TagType::Emoji,
        emoticon_emoji_map,
        replace_emoticons_and_ignore_hashtags,
        &mut out,
    );
    push_field_tags(
        emoticons,
        TagType::Emoticon,
        emoticon_emoji_map,
        replace_emoticons_and_ignore_hashtags,
        &mut out,
    );
    if !replace_emoticons_and_ignore_hashtags {
        push_field_tags(hashtags, TagType::Hashtag, emoticon_emoji_map, false, &mut out);
    }
    proof {
        let e = tokens_tags(
            split_on_space(emojis@),
            TagType::Emoji,
            *emoticon_emoji_map,
            replace_emoticons_and_ignore_hashtags,
        );
        assert(Seq::<TagModel>::empty() + e =~= e);
        if replace_emoticons_and_ignore_hashtags {
            assert(tag_models(out@) =~= tag_models(out@) + Seq::<TagModel>::empty());
        }
    }
    out
}

} // verus!

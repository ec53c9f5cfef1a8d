//! Canonicalization of emoji tokens: gender markers and modifier characters
//! are removed so that variants of one symbol collapse to a single string.

use vstd::prelude::*;
use crate::category::{
    category_class, general_category_of, is_char_interesting, keeps_char, spec_category_class, CharClass,
};
use unic_ucd::GeneralCategory;

verus! {

pub open spec fn zwj() -> char { '\u{200d}' }

pub open spec fn variation_selector() -> char { '\u{fe0f}' }

/// Zero-width joiner, male sign, variation selector 16.
pub open spec fn male_marker() -> Seq<char> {
    seq![zwj(), '\u{2642}', variation_selector()]
}

/// Zero-width joiner, female sign, variation selector 16.
pub open spec fn female_marker() -> Seq<char> {
    seq![zwj(), '\u{2640}', variation_selector()]
}

/// `s` with every occurrence of `p` removed, matches taken left to right
/// without overlap.
pub open spec fn remove_all(s: Seq<char>, p: Seq<char>) -> Seq<char>
    decreases s.len(),
{
    if s.len() == 0 {
        s
    } else if p.len() > 0 && p.len() <= s.len() && s.subrange(0, p.len() as int) == p {
        remove_all(s.subrange(p.len() as int, s.len() as int), p)
    } else {
        seq![s[0]] + remove_all(s.subrange(1, s.len() as int), p)
    }
}

pub open spec fn without_gender_markers(s: Seq<char>) -> Seq<char> {
    remove_all(remove_all(s, male_marker()), female_marker())
}

/// The characters of `s` whose category is kept, in order.
pub open spec fn kept_chars(s: Seq<char>) -> Seq<char>
    decreases s.len(),
{
    if s.len() == 0 {
        s
    } else {
        let rest = kept_chars(s.drop_last());
        if keeps_char(s.last()) {
            rest.push(s.last())
        } else {
            rest
        }
    }
}

/// The canonical form of an emoji token, or `None` when nothing of it is left.
pub open spec fn canonical_emoji(s: Seq<char>) -> Option<Seq<char>> {
    if s.len() == 0 {
        None
    } else {
        let f = kept_chars(without_gender_markers(s));
        if f.len() == 0 {
            None
        } else {
            Some(f)
        }
    }
}

/// The characters of `s` whose category emoji are not expected to hold, in order.
pub open spec fn unexpected_chars_of(s: Seq<char>) -> Seq<char>
    decreases s.len(),
{
    if s.len() == 0 {
        s
    } else {
        let rest = unexpected_chars_of(s.drop_last());
        if spec_category_class(general_category_of(s.last())) == CharClass::Unexpected {
            rest.push(s.last())
        } else {
            rest
        }
    }
}

/// The characters of an emoji token that canonicalization drops because
/// their category is unexpected, for diagnostics.
pub fn unexpected_chars(emoji: &str) -> (r: Vec<char>)
    ensures
        r@ == unexpected_chars_of(emoji@),
{
    let s = chars_of(emoji);
    let mut out: Vec<char> = Vec::new();
    let mut i: usize = 0;
    while i < s.len()
        invariant
            i <= s@.len(),
            out@ == unexpected_chars_of(s@.subrange(0, i as int)),
        decreases s@.len() - i,
    {
        let c = s[i];
        assert(s@.subrange(0, i + 1).drop_last() =~= s@.subrange(0, i as int));
        if category_class(GeneralCategory::of(c)) == CharClass::Unexpected {
            out.push(c);
        }
        i += 1;
    }
    assert(s@.subrange(0, s@.len() as int) =~= emoji@);
    out
}

/// Relies on `String`'s `FromIterator<&char>`: the string of these characters in order.
#[verifier::external_body]
pub(crate) fn string_from_chars(v: &Vec<char>) -> (r: String)
    ensures
        r@ == v@,
{
    v.iter().collect()
}

pub(crate) fn chars_of(s: &str) -> (r: Vec<char>)
    ensures
        r@ == s@,
{
    let n = s.unicode_len();
    let mut out: Vec<char> = Vec::new();
    let mut i: usize = 0;
    while i < n
        invariant
            n == s@.len(),
            i <= n,
            out@ == s@.subrange(0, i as int),
        decreases n - i,
    {
        out.push(s.get_char(i));
        i += 1;
    }
    out
}

fn marker_at(s: &Vec<char>, i: usize, p: &Vec<char>) -> (r: bool)
    requires
        i <= s@.len(),
    ensures
        r == (p@.len() <= s@.len() - i && s@.subrange(i as int, i + p@.len()) == p@),
{
    if p.len() > s.len() - i {
        return false;
    }
    let n = s.len();
    let mut j: usize = 0;
    while j < p.len()
        invariant
            n == s@.len(),
            i <= s@.len(),
            p@.len() <= s@.len() - i,
            j <= p@.len(),
            forall|k: int| 0 <= k < j ==> s@[i + k] == p@[k],
        decreases p@.len() - j,
    {
        if s[i + j] != p[j] {
            assert(s@.subrange(i as int, i + p@.len())[j as int] != p@[j as int]);
            return false;
        }
        j += 1;
    }
    assert(s@.subrange(i as int, i + p@.len()) =~= p@);
    true
}

fn remove_marker(s: &Vec<char>, p: &Vec<char>) -> (r: Vec<char>)
    ensures
        r@ == remove_all(s@, p@),
{
    let n = s.len();
    let mut out: Vec<char> = Vec::new();
    let mut i: usize = 0;
    assert(s@.subrange(0, n as int) =~= s@);
    while i < n
        invariant
            n == s@.len(),
            i <= n,
            out@ + remove_all(s@.subrange(i as int, n as int), p@) == remove_all(s@, p@),
        decreases n - i,
    {
        let ghost rest = s@.subrange(i as int, n as int);
        proof {
            if p@.len() <= rest.len() {
                assert(rest.subrange(0, p@.len() as int) =~= s@.subrange(i as int, i + p@.len()));
            }
        }
        if p.len() > 0 && marker_at(s, i, p) {
            assert(rest.subrange(p@.len() as int, rest.len() as int)
                =~= s@.subrange(i + p@.len(), n as int));
            i += p.len();
        } else {
            assert(rest.subrange(1, rest.len() as int) =~= s@.subrange(i + 1, n as int));
            assert(out@.push(s@[i as int]) + remove_all(s@.subrange(i + 1, n as int), p@)
                =~= out@ + remove_all(rest, p@));
            out.push(s[i]);
            i += 1;
        }
    }
    assert(out@ + remove_all(s@.subrange(n as int, n as int), p@) =~= out@);
    out
}

fn keep_interesting(s: &Vec<char>) -> (r: Vec<char>)
    ensures
        r@ == kept_chars(s@),
{
    let mut out: Vec<char> = Vec::new();
    let mut i: usize = 0;
    while i < s.len()
        invariant
            i <= s@.len(),
            out@ == kept_chars(s@.subrange(0, i as int)),
        decreases s@.len() - i,
    {
        let c = s[i];
        assert(s@.subrange(0, i + 1).drop_last() =~= s@.subrange(0, i as int));
        if is_char_interesting(&c) {
            out.push(c);
        }
        i += 1;
    }
    assert(s@.subrange(0, s@.len() as int) =~= s@);
    out
}

/// The canonical form of an emoji token: the male and female gender markers
/// are removed, then every character whose category is not kept. `None` for
/// an empty token and for one of which nothing is left.
pub fn clean_emoji(emoji: &str) -> (r: Option<String>)
    ensures
        match r {
            None => canonical_emoji(emoji@) is None,
            Some(t) => canonical_emoji(emoji@) == Some(t@),
        },
{
    let chars = chars_of(emoji);
    if chars.len() == 0 {
        return None;
    }
    let male = vec!['\u{200d}', '\u{2642}', '\u{fe0f}'];
    let female = vec!['\u{200d}', '\u{2640}', '\u{fe0f}'];
    assert(male@ =~= male_marker());
    assert(female@ =~= female_marker());
    let stripped = remove_marker(&remove_marker(&chars, &male), &female);
    let kept = keep_interesting(&stripped);
    if kept.len() == 0 {
        None
    } else {
        Some(string_from_chars(&kept))
    }
}

proof fn lemma_kept_chars_all_kept(s: Seq<char>)
    ensures
        forall|i: int| 0 <= i < kept_chars(s).len() ==> keeps_char(#[trigger] kept_chars(s)[i]),
    decreases s.len(),
{
    if s.len() > 0 {
        let rest = kept_chars(s.drop_last());
        lemma_kept_chars_all_kept(s.drop_last());
        assert forall|i: int| 0 <= i < kept_chars(s).len() implies keeps_char(
            #[trigger] kept_chars(s)[i],
        ) by {
            if i < rest.len() {
                assert(kept_chars(s)[i] == rest[i]);
            }
        }
    }
}

proof fn lemma_kept_chars_of_kept(s: Seq<char>)
    requires
        forall|i: int| 0 <= i < s.len() ==> keeps_char(#[trigger] s[i]),
    ensures
        kept_chars(s) == s,
    decreases s.len(),
{
    if s.len() > 0 {
        lemma_kept_chars_of_kept(s.drop_last());
        assert(s.drop_last().push(s.last()) =~= s);
    }
}

proof fn lemma_kept_chars_of_dropped(s: Seq<char>)
    requires
        forall|i: int| 0 <= i < s.len() ==> !keeps_char(#[trigger] s[i]),
    ensures
        kept_chars(s).len() == 0,
    decreases s.len(),
{
    if s.len() > 0 {
        lemma_kept_chars_of_dropped(s.drop_last());
    }
}

/// Removing a marker that ends in a variation selector leaves a sequence
/// without variation selectors unchanged.
proof fn lemma_remove_all_absent(s: Seq<char>, p: Seq<char>)
    requires
        p.len() == 3,
        p[2] == variation_selector(),
        forall|i: int| 0 <= i < s.len() ==> #[trigger] s[i] != variation_selector(),
    ensures
        remove_all(s, p) == s,
    decreases s.len(),
{
    if s.len() > 0 {
        if p.len() <= s.len() && s.subrange(0, p.len() as int) == p {
            assert(s.subrange(0, 3)[2] == s[2]);
        } else {
            lemma_remove_all_absent(s.subrange(1, s.len() as int), p);
            assert(seq![s[0]] + s.subrange(1, s.len() as int) =~= s);
        }
    }
}

/// Removing a marker from a sequence of dropped characters leaves only
/// dropped characters.
proof fn lemma_remove_all_dropped(s: Seq<char>, p: Seq<char>)
    requires
        forall|i: int| 0 <= i < s.len() ==> !keeps_char(#[trigger] s[i]),
    ensures
        forall|i: int| 0 <= i < remove_all(s, p).len() ==> !keeps_char(#[trigger] remove_all(s, p)[i]),
    decreases s.len(),
{
    if s.len() > 0 {
        if p.len() > 0 && p.len() <= s.len() && s.subrange(0, p.len() as int) == p {
            let tail = s.subrange(p.len() as int, s.len() as int);
            assert forall|i: int| 0 <= i < tail.len() implies !keeps_char(#[trigger] tail[i]) by {
                assert(tail[i] == s[i + p.len()]);
            }
            lemma_remove_all_dropped(tail, p);
            let r = remove_all(s, p);
            assert(r == remove_all(tail, p));
            assert forall|i: int| 0 <= i < r.len() implies !keeps_char(#[trigger] r[i]) by {
                assert(r[i] == remove_all(tail, p)[i]);
            }
        } else {
            let rest = s.subrange(1, s.len() as int);
            assert forall|i: int| 0 <= i < rest.len() implies !keeps_char(#[trigger] rest[i]) by {
                assert(rest[i] == s[i + 1]);
            }
            lemma_remove_all_dropped(rest, p);
            let r = remove_all(s, p);
            assert(r == seq![s[0]] + remove_all(rest, p));
            assert forall|i: int| 0 <= i < r.len() implies !keeps_char(#[trigger] r[i]) by {
                if i > 0 {
                    assert(r[i] == remove_all(rest, p)[i - 1]);
                }
            }
        }
    }
}

/// Canonicalization is idempotent: canonicalizing the canonical form (or the
/// token itself, when it has none) gives the canonical form again. It rests
/// on variation selector 16 being a nonspacing mark, as Unicode classifies it.
pub proof fn lemma_canonical_idempotent(s: Seq<char>)
    requires
        general_category_of('\u{fe0f}') == GeneralCategory::NonspacingMark,
    ensures
        canonical_emoji(
            match canonical_emoji(s) {
                Some(t) => t,
                None => s,
            },
        ) == canonical_emoji(s),
{
    if let Some(f) = canonical_emoji(s) {
        lemma_kept_chars_all_kept(without_gender_markers(s));
        assert forall|i: int| 0 <= i < f.len() implies #[trigger] f[i] != variation_selector() by {
            assert(keeps_char(f[i]));
        }
        lemma_remove_all_absent(f, male_marker());
        lemma_remove_all_absent(f, female_marker());
        lemma_kept_chars_of_kept(f);
    }
}

/// A token made only of characters whose category is dropped has no
/// canonical form.
pub proof fn lemma_dropped_only_is_none(s: Seq<char>)
    requires
        forall|i: int| 0 <= i < s.len() ==> !keeps_char(#[trigger] s[i]),
    ensures
        canonical_emoji(s) is None,
{
    let w = without_gender_markers(s);
    lemma_remove_all_dropped(s, male_marker());
    lemma_remove_all_dropped(remove_all(s, male_marker()), female_marker());
    lemma_kept_chars_of_dropped(w);
}

} // verus!

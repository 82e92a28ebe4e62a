//! Finding and removing the tokens of a line.
//!
//! A *tag* is a marker character (`+` for a project, `@` for a context)
//! directly followed by one or more word characters. An *attribute* is a
//! run of word characters, a colon, and another run of word characters.
//! A text is read from left to right: where a token starts it is taken as
//! long as it can be, and reading goes on behind it; elsewhere one character
//! is passed over.

use vstd::prelude::*;
use crate::chars::{is_word_char, word_char};
use crate::text::{push_range, string_of};

verus! {

/// The marker of a project tag.
pub const PROJECT_MARKER: char = '+';

/// The marker of a context tag.
pub const CONTEXT_MARKER: char = '@';

/// How many word characters `s` starts with.
pub open spec fn word_len(s: Seq<char>) -> nat
    decreases s.len(),
{
    if s.len() > 0 && is_word_char(s[0]) {
        1 + word_len(s.skip(1))
    } else {
        0
    }
}

/// `word_len(s)` is the length of the longest prefix of `s` that holds
/// word characters only.
pub proof fn lemma_word_len(s: Seq<char>)
    ensures
        word_len(s) <= s.len(),
        forall|i: int| 0 <= i < word_len(s) ==> is_word_char(#[trigger] s[i]),
        word_len(s) < s.len() ==> !is_word_char(s[word_len(s) as int]),
    decreases s.len(),
{
    if s.len() > 0 && is_word_char(s[0]) {
        let t = s.skip(1);
        lemma_word_len(t);
        assert forall|i: int| 0 <= i < word_len(s) implies is_word_char(#[trigger] s[i]) by {
            if i > 0 {
                assert(s[i] == t[i - 1]);
            }
        }
        if word_len(s) < s.len() {
            assert(s[word_len(s) as int] == t[word_len(t) as int]);
        }
    }
}

/// The length of the tag that `s` starts with, or 0 where it starts with
/// none.
pub open spec fn tag_len(s: Seq<char>, marker: char) -> nat {
    if s.len() > 0 && s[0] == marker && word_len(s.skip(1)) > 0 {
        1 + word_len(s.skip(1))
    } else {
        0
    }
}

/// The names of the tags in `s`, without the marker, in the order in which
/// they stand.
pub open spec fn tags(s: Seq<char>, marker: char) -> Seq<Seq<char>>
    decreases s.len(),
    via tags_decreases
{
    if s.len() == 0 {
        Seq::empty()
    } else if tag_len(s, marker) > 0 {
        seq![s.subrange(1, tag_len(s, marker) as int)] + tags(
            s.skip(tag_len(s, marker) as int),
            marker,
        )
    } else {
        tags(s.skip(1), marker)
    }
}

#[via_fn]
proof fn tags_decreases(s: Seq<char>, marker: char) {
    if s.len() > 0 {
        lemma_word_len(s.skip(1));
    }
}

/// What is left of `s` when its tags are taken out.
pub open spec fn without_tags(s: Seq<char>, marker: char) -> Seq<char>
    decreases s.len(),
    via without_tags_decreases
{
    if s.len() == 0 {
        Seq::empty()
    } else if tag_len(s, marker) > 0 {
        without_tags(s.skip(tag_len(s, marker) as int), marker)
    } else {
        seq![s[0]] + without_tags(s.skip(1), marker)
    }
}

#[via_fn]
proof fn without_tags_decreases(s: Seq<char>, marker: char) {
    if s.len() > 0 {
        lemma_word_len(s.skip(1));
    }
}

/// The views of a vector of strings.
pub open spec fn names_view(v: Seq<String>) -> Seq<Seq<char>> {
    Seq::new(v.len(), |i: int| v[i]@)
}

/// The index behind the word characters that start at `from`.
fn word_end(text: &Vec<char>, from: usize) -> (end: usize)
    requires
        from <= text.len(),
    ensures
        from <= end <= text.len(),
        end == from + word_len(text@.skip(from as int)),
{
    let mut end: usize = from;
    while end < text.len() && word_char(text[end])
        invariant
            from <= end <= text.len(),
            word_len(text@.skip(from as int)) == (end - from) + word_len(text@.skip(end as int)),
        decreases text.len() - end,
    {
        assert(text@.skip(end as int).skip(1) =~= text@.skip(end + 1));
        end += 1;
    }
    end
}

/// Takes the tags out of `text[from..]`: returns their names and what is
/// left.
pub(crate) fn split_tags(text: &Vec<char>, from: usize, marker: char) -> (r: (
    Vec<String>,
    Vec<char>,
))
    requires
        from <= text.len(),
    ensures
        names_view(r.0@) == tags(text@.skip(from as int), marker),
        r.1@ == without_tags(text@.skip(from as int), marker),
{
    let ghost all = text@.skip(from as int);
    let mut names: Vec<String> = Vec::new();
    let mut rest: Vec<char> = Vec::new();
    let mut i: usize = from;
    while i < text.len()
        invariant
            from <= i <= text.len(),
            all == text@.skip(from as int),
            tags(all, marker) == names_view(names@) + tags(text@.skip(i as int), marker),
            without_tags(all, marker) == rest@ + without_tags(text@.skip(i as int), marker),
        decreases text.len() - i,
    {
        let ghost here = text@.skip(i as int);
        let end = if text[i] == marker {
            word_end(text, i + 1)
        } else {
            i + 1
        };
        proof {
            assert(here.skip(1) =~= text@.skip(i + 1));
            assert(here.skip(end - i) =~= text@.skip(end as int));
        }
        if end > i + 1 {
            let name = string_of(text, i + 1, end);
            proof {
                assert(tag_len(here, marker) == end - i);
                assert(here.subrange(1, end - i) =~= text@.subrange(i + 1, end as int));
                assert(names_view(names@.push(name)) =~= names_view(names@) + seq![name@]);
            }
            names.push(name);
        } else {
            assert(tag_len(here, marker) == 0);
            rest.push(text[i]);
        }
        i = end;
    }
    (names, rest)
}

/// A word: one or more word characters and nothing else.
pub open spec fn is_word(s: Seq<char>) -> bool {
    s.len() > 0 && forall|i: int| 0 <= i < s.len() ==> is_word_char(#[trigger] s[i])
}

/// `n` spaces.
pub open spec fn spaces(n: nat) -> Seq<char> {
    Seq::new(n, |i: int| ' ')
}

/// No tag with this marker starts anywhere in `s`.
pub open spec fn has_no_tag(s: Seq<char>, marker: char) -> bool {
    forall|i: int| 0 <= i < s.len() ==> tag_len(#[trigger] s.skip(i), marker) == 0
}

/// No attribute starts anywhere in `s`.
pub open spec fn has_no_attribute(s: Seq<char>) -> bool {
    forall|i: int| 0 <= i < s.len() ==> attribute_len(#[trigger] s.skip(i)) == 0
}

/// The length of the attribute that `s` starts with, or 0 where it starts
/// with none.
pub open spec fn attribute_len(s: Seq<char>) -> nat {
    let k = word_len(s) as int;
    if 0 < k < s.len() && s[k] == ':' && word_len(s.skip(k + 1)) > 0 {
        (k + 1 + word_len(s.skip(k + 1))) as nat
    } else {
        0
    }
}

/// Key and value of the attribute that `s` starts with.
pub open spec fn attribute_at(s: Seq<char>) -> (Seq<char>, Seq<char>) {
    let k = word_len(s) as int;
    (s.take(k), s.subrange(k + 1, attribute_len(s) as int))
}

/// The attributes in `s`, key and value, in the order in which they stand.
pub open spec fn attributes(s: Seq<char>) -> Seq<(Seq<char>, Seq<char>)>
    decreases s.len(),
    via attributes_decreases
{
    if s.len() == 0 {
        Seq::empty()
    } else if attribute_len(s) > 0 {
        seq![attribute_at(s)] + attributes(s.skip(attribute_len(s) as int))
    } else {
        attributes(s.skip(1))
    }
}

#[via_fn]
proof fn attributes_decreases(s: Seq<char>) {
    lemma_attribute_len(s);
}

/// What is left of `s` when its attributes are taken out.
pub open spec fn without_attributes(s: Seq<char>) -> Seq<char>
    decreases s.len(),
    via without_attributes_decreases
{
    if s.len() == 0 {
        Seq::empty()
    } else if attribute_len(s) > 0 {
        without_attributes(s.skip(attribute_len(s) as int))
    } else {
        seq![s[0]] + without_attributes(s.skip(1))
    }
}

#[via_fn]
proof fn without_attributes_decreases(s: Seq<char>) {
    lemma_attribute_len(s);
}

/// An attribute lies within the text.
pub proof fn lemma_attribute_len(s: Seq<char>)
    ensures
        attribute_len(s) <= s.len(),
{
    lemma_word_len(s);
    if 0 < word_len(s) < s.len() {
        lemma_word_len(s.skip(word_len(s) as int + 1));
    }
}

/// Where a word does not begin an attribute, no attribute begins inside
/// it: the scan may pass over the word as a whole.
pub proof fn lemma_word_without_attribute(s: Seq<char>, j: int)
    requires
        attribute_len(s) == 0,
        0 <= j <= word_len(s),
    ensures
        j <= s.len(),
        attributes(s) == attributes(s.skip(j)),
        without_attributes(s) == s.take(j) + without_attributes(s.skip(j)),
    decreases j,
{
    lemma_word_len(s);
    if j == 0 {
        assert(s.skip(0) =~= s);
        assert(s.take(0) + without_attributes(s) =~= without_attributes(s));
    } else {
        let t = s.skip(1);
        let k = word_len(s) as int;
        assert(word_len(t) == k - 1);
        assert(attribute_len(t) == 0) by {
            if k - 1 > 0 && k - 1 < t.len() {
                assert(t[k - 1] == s[k]);
                assert(t.skip(k - 1 + 1) =~= s.skip(k + 1));
            }
        }
        lemma_word_without_attribute(t, j - 1);
        assert(t.skip(j - 1) =~= s.skip(j));
        assert(seq![s[0]] + t.take(j - 1) =~= s.take(j));
    }
}

/// The views of a vector of pairs of strings.
pub open spec fn pairs_view(v: Seq<(String, String)>) -> Seq<(Seq<char>, Seq<char>)> {
    Seq::new(v.len(), |i: int| (v[i].0@, v[i].1@))
}

/// Takes the attributes out of `text`: returns them and what is left.
pub(crate) fn split_attributes(text: &Vec<char>) -> (r: (Vec<(String, String)>, Vec<char>))
    ensures
        pairs_view(r.0@) == attributes(text@),
        r.1@ == without_attributes(text@),
{
    let mut pairs: Vec<(String, String)> = Vec::new();
    let mut rest: Vec<char> = Vec::new();
    let mut i: usize = 0;
    assert(text@.skip(0) =~= text@);
    while i < text.len()
        invariant
            i <= text.len(),
            attributes(text@) == pairs_view(pairs@) + attributes(text@.skip(i as int)),
            without_attributes(text@) == rest@ + without_attributes(text@.skip(i as int)),
        decreases text.len() - i,
    {
        let ghost here = text@.skip(i as int);
        let key_end = word_end(text, i);
        let colon = i < key_end && key_end < text.len() && text[key_end] == ':';
        let value_end = if colon {
            word_end(text, key_end + 1)
        } else {
            key_end
        };
        proof {
            if key_end < text.len() {
                assert(here.skip(key_end - i + 1) =~= text@.skip(key_end + 1));
            }
            assert(here.skip(value_end - i) =~= text@.skip(value_end as int));
        }
        if colon && value_end > key_end + 1 {
            let key = string_of(text, i, key_end);
            let value = string_of(text, key_end + 1, value_end);
            proof {
                assert(attribute_len(here) == value_end - i);
                assert(here.take(key_end - i) =~= text@.subrange(i as int, key_end as int));
                assert(here.subrange(key_end - i + 1, value_end - i) =~= text@.subrange(
                    key_end + 1,
                    value_end as int,
                ));
                assert(pairs_view(pairs@.push((key, value))) =~= pairs_view(pairs@)
                    + seq![(key@, value@)]);
            }
            pairs.push((key, value));
            i = value_end;
        } else if key_end > i {
            proof {
                assert(attribute_len(here) == 0);
                lemma_word_without_attribute(here, key_end - i);
                assert(here.take(key_end - i) =~= text@.subrange(i as int, key_end as int));
                assert(here.skip(key_end - i) =~= text@.skip(key_end as int));
            }
            push_range(&mut rest, text, i, key_end);
            i = key_end;
        } else {
            proof {
                assert(attribute_len(here) == 0);
                assert(here.skip(1) =~= text@.skip(i + 1));
            }
            rest.push(text[i]);
            i += 1;
        }
    }
    (pairs, rest)
}

} // verus!

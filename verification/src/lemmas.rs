//! How the scans behave on a text that is put together from parts.

use vstd::prelude::*;
use crate::chars::is_word_char;
use crate::scan::{
    attribute_at, attribute_len, attributes, has_no_attribute, has_no_tag, is_word,
    lemma_attribute_len, lemma_word_len, spaces, tag_len, tags, without_attributes,
    without_tags, word_len,
};
use crate::chars::is_whitespace;
use crate::line::{attribute_tail, tag_tail};
use crate::trim::{is_trimmed, trim, trim_end, trim_start};

verus! {

/// A word that ends where `b` begins does not reach into `b` when `b`
/// begins with no word character.
pub proof fn lemma_word_len_before(a: Seq<char>, b: Seq<char>)
    requires
        b.len() == 0 || !is_word_char(b[0]),
    ensures
        word_len(a + b) == word_len(a),
    decreases a.len(),
{
    if a.len() == 0 {
        assert(a + b =~= b);
    } else {
        assert((a + b).skip(1) =~= a.skip(1) + b);
        lemma_word_len_before(a.skip(1), b);
    }
}

/// Word characters in front of a text are counted in full.
pub proof fn lemma_word_len_behind(w: Seq<char>, rest: Seq<char>)
    requires
        forall|i: int| 0 <= i < w.len() ==> is_word_char(#[trigger] w[i]),
    ensures
        word_len(w + rest) == w.len() + word_len(rest),
    decreases w.len(),
{
    if w.len() == 0 {
        assert(w + rest =~= rest);
    } else {
        assert((w + rest).skip(1) =~= w.skip(1) + rest);
        assert forall|i: int| 0 <= i < w.skip(1).len() implies is_word_char(
            #[trigger] w.skip(1)[i],
        ) by {
            assert(w.skip(1)[i] == w[i + 1]);
        }
        lemma_word_len_behind(w.skip(1), rest);
        assert((w + rest)[0] == w[0]);
    }
}

/// The tags of `a + b` are those of `a` and then those of `b`, and what is
/// left is what is left of each, where `b` begins with no word character.
pub proof fn lemma_tags_concat(a: Seq<char>, b: Seq<char>, marker: char)
    requires
        b.len() == 0 || !is_word_char(b[0]),
    ensures
        tags(a + b, marker) == tags(a, marker) + tags(b, marker),
        without_tags(a + b, marker) == without_tags(a, marker) + without_tags(b, marker),
    decreases a.len(),
{
    let s = a + b;
    if a.len() == 0 {
        assert(s =~= b);
        assert(tags(a, marker) + tags(b, marker) =~= tags(b, marker));
        assert(without_tags(a, marker) + without_tags(b, marker) =~= without_tags(b, marker));
    } else {
        assert(s.skip(1) =~= a.skip(1) + b);
        lemma_word_len_before(a.skip(1), b);
        lemma_word_len(a.skip(1));
        let n = tag_len(a, marker) as int;
        assert(tag_len(s, marker) == n);
        if n > 0 {
            assert(s.subrange(1, n) =~= a.subrange(1, n));
            assert(s.skip(n) =~= a.skip(n) + b);
            lemma_tags_concat(a.skip(n), b, marker);
            assert(tags(s, marker) =~= tags(a, marker) + tags(b, marker));
        } else {
            lemma_tags_concat(a.skip(1), b, marker);
            assert(without_tags(s, marker) =~= without_tags(a, marker) + without_tags(
                b,
                marker,
            ));
        }
    }
}

/// A text in which no tag starts holds no tags and is left as it is.
pub proof fn lemma_no_tag(s: Seq<char>, marker: char)
    requires
        has_no_tag(s, marker),
    ensures
        tags(s, marker) == Seq::<Seq<char>>::empty(),
        without_tags(s, marker) == s,
    decreases s.len(),
{
    if s.len() > 0 {
        assert(s.skip(0) =~= s);
        let t = s.skip(1);
        assert forall|i: int| 0 <= i < t.len() implies tag_len(#[trigger] t.skip(i), marker)
            == 0 by {
            assert(t.skip(i) =~= s.skip(i + 1));
        }
        lemma_no_tag(t, marker);
        assert(seq![s[0]] + t =~= s);
    } else {
        assert(s =~= Seq::<char>::empty());
    }
}

/// No tag starts in a text without the marker.
pub proof fn lemma_no_marker(s: Seq<char>, marker: char)
    requires
        forall|i: int| 0 <= i < s.len() ==> s[i] != marker,
    ensures
        has_no_tag(s, marker),
{
    assert forall|i: int| 0 <= i < s.len() implies tag_len(#[trigger] s.skip(i), marker)
        == 0 by {
        assert(s.skip(i)[0] == s[i]);
    }
}

/// The attributes of `a + b` are those of `a` and then those of `b`, and
/// what is left is what is left of each, where `b` begins with neither a
/// word character nor a colon.
pub proof fn lemma_attributes_concat(a: Seq<char>, b: Seq<char>)
    requires
        b.len() == 0 || (!is_word_char(b[0]) && b[0] != ':'),
    ensures
        attributes(a + b) == attributes(a) + attributes(b),
        without_attributes(a + b) == without_attributes(a) + without_attributes(b),
    decreases a.len(),
{
    let s = a + b;
    if a.len() == 0 {
        assert(s =~= b);
        assert(attributes(a) + attributes(b) =~= attributes(b));
        assert(without_attributes(a) + without_attributes(b) =~= without_attributes(b));
    } else {
        lemma_word_len_before(a, b);
        lemma_word_len(a);
        lemma_attribute_len(a);
        let k = word_len(a) as int;
        if k < a.len() {
            assert(s.skip(k + 1) =~= a.skip(k + 1) + b);
            lemma_word_len_before(a.skip(k + 1), b);
        }
        let n = attribute_len(a) as int;
        assert(attribute_len(s) == n);
        if n > 0 {
            assert(s.take(k) =~= a.take(k));
            assert(s.subrange(k + 1, n) =~= a.subrange(k + 1, n));
            assert(attribute_at(s) == attribute_at(a));
            assert(s.skip(n) =~= a.skip(n) + b);
            lemma_attributes_concat(a.skip(n), b);
            assert(attributes(s) =~= attributes(a) + attributes(b));
        } else {
            assert(s.skip(1) =~= a.skip(1) + b);
            lemma_attributes_concat(a.skip(1), b);
            assert(without_attributes(s) =~= without_attributes(a) + without_attributes(b));
        }
    }
}

/// A text in which no attribute starts holds no attributes and is left as
/// it is.
pub proof fn lemma_no_attribute(s: Seq<char>)
    requires
        has_no_attribute(s),
    ensures
        attributes(s) == Seq::<(Seq<char>, Seq<char>)>::empty(),
        without_attributes(s) == s,
    decreases s.len(),
{
    if s.len() > 0 {
        assert(s.skip(0) =~= s);
        let t = s.skip(1);
        assert forall|i: int| 0 <= i < t.len() implies attribute_len(#[trigger] t.skip(i))
            == 0 by {
            assert(t.skip(i) =~= s.skip(i + 1));
        }
        lemma_no_attribute(t);
        assert(seq![s[0]] + t =~= s);
    } else {
        assert(s =~= Seq::<char>::empty());
    }
}

/// No attribute starts in a text without a colon.
pub proof fn lemma_no_colon(s: Seq<char>)
    requires
        forall|i: int| 0 <= i < s.len() ==> s[i] != ':',
    ensures
        has_no_attribute(s),
{
    assert forall|i: int| 0 <= i < s.len() implies attribute_len(#[trigger] s.skip(i))
        == 0 by {
        let t = s.skip(i);
        let k = word_len(t) as int;
        if k < t.len() {
            assert(t[k] == s[i + k]);
        }
    }
}

/// A tag tail is empty for no names. Else it begins with a space and ends
/// with a word character, and holds nothing but spaces, the marker and word
/// characters.
pub proof fn lemma_tag_tail_chars(names: Seq<Seq<char>>, marker: char)
    requires
        forall|i: int| 0 <= i < names.len() ==> is_word(#[trigger] names[i]),
    ensures
        names.len() == 0 ==> tag_tail(names, marker).len() == 0,
        names.len() > 0 ==> tag_tail(names, marker).len() > 0 && tag_tail(names, marker)[0]
            == ' ' && is_word_char(tag_tail(names, marker).last()),
        forall|j: int|
            0 <= j < tag_tail(names, marker).len() ==> {
                let c = #[trigger] tag_tail(names, marker)[j];
                c == ' ' || c == marker || is_word_char(c)
            },
    decreases names.len(),
{
    if names.len() > 0 {
        let later = names.skip(1);
        assert forall|i: int| 0 <= i < later.len() implies is_word(#[trigger] later[i]) by {
            assert(later[i] == names[i + 1]);
        }
        lemma_tag_tail_chars(later, marker);
        assert(is_word(names[0]));
    }
}

/// An attribute tail is empty for no attributes. Else it begins with a space
/// and ends with a word character, and holds nothing but spaces, colons and
/// word characters.
pub proof fn lemma_attribute_tail_chars(pairs: Seq<(Seq<char>, Seq<char>)>)
    requires
        forall|i: int|
            0 <= i < pairs.len() ==> is_word((#[trigger] pairs[i]).0) && is_word(pairs[i].1),
    ensures
        pairs.len() == 0 ==> attribute_tail(pairs).len() == 0,
        pairs.len() > 0 ==> attribute_tail(pairs).len() > 0 && attribute_tail(pairs)[0] == ' '
            && is_word_char(attribute_tail(pairs).last()),
        forall|j: int|
            0 <= j < attribute_tail(pairs).len() ==> {
                let c = #[trigger] attribute_tail(pairs)[j];
                c == ' ' || c == ':' || is_word_char(c)
            },
    decreases pairs.len(),
{
    if pairs.len() > 0 {
        let later = pairs.skip(1);
        assert forall|i: int| 0 <= i < later.len() implies is_word((#[trigger] later[i]).0)
            && is_word(later[i].1) by {
            assert(later[i] == pairs[i + 1]);
        }
        lemma_attribute_tail_chars(later);
        assert(is_word(pairs[0].0) && is_word(pairs[0].1));
    }
}

/// A tag in front of a text is found there in full, where the text behind
/// it begins with no word character.
pub proof fn lemma_tag_in_front(marker: char, name: Seq<char>, behind: Seq<char>)
    requires
        is_word(name),
        behind.len() == 0 || !is_word_char(behind[0]),
    ensures
        tags(seq![marker] + name + behind, marker) == seq![name] + tags(behind, marker),
        without_tags(seq![marker] + name + behind, marker) == without_tags(behind, marker),
{
    let u = seq![marker] + name + behind;
    let n = 1 + name.len() as int;
    assert(u.skip(1) =~= name + behind);
    lemma_word_len_behind(name, behind);
    assert(tag_len(u, marker) == n);
    assert(u.subrange(1, n) =~= name);
    assert(u.skip(n) =~= behind);
}

/// A tag tail is read back as its names, and leaves one space for each.
pub proof fn lemma_tags_of_tag_tail(names: Seq<Seq<char>>, marker: char, rest: Seq<char>)
    requires
        forall|i: int| 0 <= i < names.len() ==> is_word(#[trigger] names[i]),
        marker != ' ',
        rest.len() == 0 || !is_word_char(rest[0]),
    ensures
        tags(tag_tail(names, marker) + rest, marker) == names + tags(rest, marker),
        without_tags(tag_tail(names, marker) + rest, marker) == spaces(names.len())
            + without_tags(rest, marker),
    decreases names.len(),
{
    let s = tag_tail(names, marker) + rest;
    if names.len() == 0 {
        assert(s =~= rest);
        assert(names + tags(rest, marker) =~= tags(rest, marker));
        assert(spaces(0) + without_tags(rest, marker) =~= without_tags(rest, marker));
    } else {
        let name = names[0];
        let later = names.skip(1);
        assert forall|i: int| 0 <= i < later.len() implies is_word(#[trigger] later[i]) by {
            assert(later[i] == names[i + 1]);
        }
        let behind = tag_tail(later, marker) + rest;
        lemma_tag_tail_chars(later, marker);
        lemma_tags_of_tag_tail(later, marker, rest);
        lemma_tag_in_front(marker, name, behind);
        let u = seq![marker] + name + behind;
        assert(s =~= seq![' '] + u);
        assert(s.skip(1) =~= u);
        assert(tag_len(s, marker) == 0);
        assert(tags(s, marker) == tags(u, marker));
        assert(without_tags(s, marker) == seq![' '] + without_tags(u, marker));
        assert(seq![name] + (later + tags(rest, marker)) =~= names + tags(rest, marker));
        assert(seq![' '] + (spaces(later.len()) + without_tags(rest, marker)) =~= spaces(
            names.len(),
        ) + without_tags(rest, marker));
    }
}

/// An attribute in front of a text is found there in full, where the text
/// behind it begins with no word character.
pub proof fn lemma_attribute_in_front(key: Seq<char>, value: Seq<char>, behind: Seq<char>)
    requires
        is_word(key),
        is_word(value),
        behind.len() == 0 || !is_word_char(behind[0]),
    ensures
        attributes(key + seq![':'] + value + behind) == seq![(key, value)] + attributes(behind),
        without_attributes(key + seq![':'] + value + behind) == without_attributes(behind),
{
    let u = key + seq![':'] + value + behind;
    let colon = seq![':'] + value + behind;
    let k = key.len() as int;
    let n = k + 1 + value.len();
    assert(u =~= key + colon);
    lemma_word_len_behind(key, colon);
    assert(word_len(colon) == 0);
    assert(word_len(u) == k);
    assert(u[k] == ':');
    assert(u.skip(k + 1) =~= value + behind);
    lemma_word_len_behind(value, behind);
    assert(attribute_len(u) == n);
    assert(u.take(k) =~= key);
    assert(u.subrange(k + 1, n) =~= value);
    assert(attribute_at(u) == (key, value));
    assert(u.skip(n) =~= behind);
}

/// An attribute tail is read back as its attributes, and leaves one space
/// for each.
pub proof fn lemma_attributes_of_attribute_tail(
    pairs: Seq<(Seq<char>, Seq<char>)>,
    rest: Seq<char>,
)
    requires
        forall|i: int|
            0 <= i < pairs.len() ==> is_word((#[trigger] pairs[i]).0) && is_word(pairs[i].1),
        rest.len() == 0 || (!is_word_char(rest[0]) && rest[0] != ':'),
    ensures
        attributes(attribute_tail(pairs) + rest) == pairs + attributes(rest),
        without_attributes(attribute_tail(pairs) + rest) == spaces(pairs.len())
            + without_attributes(rest),
    decreases pairs.len(),
{
    let s = attribute_tail(pairs) + rest;
    if pairs.len() == 0 {
        assert(s =~= rest);
        assert(pairs + attributes(rest) =~= attributes(rest));
        assert(spaces(0) + without_attributes(rest) =~= without_attributes(rest));
    } else {
        let key = pairs[0].0;
        let value = pairs[0].1;
        let later = pairs.skip(1);
        assert forall|i: int| 0 <= i < later.len() implies is_word((#[trigger] later[i]).0)
            && is_word(later[i].1) by {
            assert(later[i] == pairs[i + 1]);
        }
        let behind = attribute_tail(later) + rest;
        lemma_attribute_tail_chars(later);
        lemma_attributes_of_attribute_tail(later, rest);
        lemma_attribute_in_front(key, value, behind);
        let u = key + seq![':'] + value + behind;
        assert(s =~= seq![' '] + u);
        assert(s.skip(1) =~= u);
        assert(word_len(s) == 0);
        assert(attribute_len(s) == 0);
        assert(attributes(s) == attributes(u));
        assert(without_attributes(s) == seq![' '] + without_attributes(u));
        assert(pairs[0] == (key, value));
        assert(seq![pairs[0]] + (later + attributes(rest)) =~= pairs + attributes(rest));
        assert(seq![' '] + (spaces(later.len()) + without_attributes(rest)) =~= spaces(
            pairs.len(),
        ) + without_attributes(rest));
    }
}

/// Spaces behind a text that does not end in white space are trimmed away,
/// and nothing else.
pub proof fn lemma_trim_end_spaces(d: Seq<char>, n: nat)
    requires
        d.len() == 0 || !is_whitespace(d.last()),
    ensures
        trim_end(d + spaces(n)) == d,
    decreases n,
{
    if n == 0 {
        assert(d + spaces(0) =~= d);
    } else {
        assert((d + spaces(n)).drop_last() =~= d + spaces((n - 1) as nat));
        lemma_trim_end_spaces(d, (n - 1) as nat);
    }
}

/// Spaces alone are trimmed to nothing.
pub proof fn lemma_trim_start_spaces(n: nat)
    ensures
        trim_start(spaces(n)) == Seq::<char>::empty(),
    decreases n,
{
    if n == 0 {
        assert(spaces(0) =~= Seq::<char>::empty());
    } else {
        assert(spaces(n).skip(1) =~= spaces((n - 1) as nat));
        lemma_trim_start_spaces((n - 1) as nat);
    }
}

/// A trimmed text with spaces behind it is trimmed to itself.
pub proof fn lemma_trim_spaces(d: Seq<char>, n: nat)
    requires
        is_trimmed(d),
    ensures
        trim(d + spaces(n)) == d,
{
    if d.len() > 0 {
        assert((d + spaces(n))[0] == d[0]);
        assert(trim_start(d + spaces(n)) == d + spaces(n));
        lemma_trim_end_spaces(d, n);
    } else {
        assert(d + spaces(n) =~= spaces(n));
        lemma_trim_start_spaces(n);
        assert(d =~= Seq::<char>::empty());
    }
}

} // verus!

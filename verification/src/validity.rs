//! What a line is read as is a valid task.

use vstd::prelude::*;
use crate::chars::{is_whitespace, is_word_char};
use crate::lemmas::lemma_word_len_behind;
use crate::line::{parse, TaskView};
use crate::scan::{
    attribute_at, attribute_len, attributes, has_no_attribute, has_no_tag, is_word,
    lemma_attribute_len, lemma_word_len, lemma_word_without_attribute, tag_len, tags,
    without_attributes, without_tags, word_len, CONTEXT_MARKER, PROJECT_MARKER,
};
use crate::trim::{is_trimmed, trim, trim_end, trim_start};

verus! {

/// The name of every tag is a word.
pub proof fn lemma_tags_are_words(s: Seq<char>, marker: char)
    ensures
        forall|i: int| 0 <= i < tags(s, marker).len() ==> is_word(#[trigger] tags(s, marker)[i]),
    decreases s.len(),
{
    if s.len() > 0 {
        let n = tag_len(s, marker) as int;
        lemma_word_len(s.skip(1));
        if n > 0 {
            let name = s.subrange(1, n);
            let later = tags(s.skip(n), marker);
            lemma_tags_are_words(s.skip(n), marker);
            assert forall|j: int| 0 <= j < name.len() implies is_word_char(#[trigger] name[j]) by {
                assert(name[j] == s.skip(1)[j]);
            }
            assert(is_word(name));
            assert(tags(s, marker) == seq![name] + later);
            assert forall|i: int| 0 <= i < tags(s, marker).len() implies is_word(
                #[trigger] tags(s, marker)[i],
            ) by {
                if i > 0 {
                    assert(tags(s, marker)[i] == later[i - 1]);
                } else {
                    assert(tags(s, marker)[0] == name);
                }
            }
        } else {
            lemma_tags_are_words(s.skip(1), marker);
            assert(tags(s, marker) == tags(s.skip(1), marker));
        }
    }
}

/// Key and value of every attribute are words.
pub proof fn lemma_attributes_are_words(s: Seq<char>)
    ensures
        forall|i: int|
            0 <= i < attributes(s).len() ==> is_word((#[trigger] attributes(s)[i]).0) && is_word(
                attributes(s)[i].1,
            ),
    decreases s.len(),
{
    if s.len() > 0 {
        let n = attribute_len(s) as int;
        lemma_attribute_len(s);
        if n > 0 {
            let k = word_len(s) as int;
            let key = attribute_at(s).0;
            let value = attribute_at(s).1;
            let later = attributes(s.skip(n));
            lemma_attributes_are_words(s.skip(n));
            lemma_word_len(s);
            lemma_word_len(s.skip(k + 1));
            assert forall|j: int| 0 <= j < value.len() implies is_word_char(
                #[trigger] value[j],
            ) by {
                assert(value[j] == s.skip(k + 1)[j]);
            }
            assert forall|j: int| 0 <= j < key.len() implies is_word_char(#[trigger] key[j]) by {
                assert(key[j] == s[j]);
            }
            assert(key.len() == k);
            assert(value.len() == n - k - 1);
            assert(is_word(key));
            assert(is_word(value));
            assert(attributes(s) == seq![attribute_at(s)] + later);
            assert forall|i: int| 0 <= i < attributes(s).len() implies is_word(
                (#[trigger] attributes(s)[i]).0,
            ) && is_word(attributes(s)[i].1) by {
                if i > 0 {
                    assert(attributes(s)[i] == later[i - 1]);
                } else {
                    assert(attributes(s)[0] == attribute_at(s));
                }
            }
        } else {
            lemma_attributes_are_words(s.skip(1));
            assert(attributes(s) == attributes(s.skip(1)));
        }
    }
}

/// Where what the tags leave begins with a word character, the text begins
/// with that character.
pub proof fn lemma_first_without_tags(s: Seq<char>, marker: char)
    ensures
        without_tags(s, marker).len() > 0 && is_word_char(without_tags(s, marker)[0]) ==> s.len()
            > 0 && s[0] == without_tags(s, marker)[0],
    decreases s.len(),
{
    if s.len() > 0 {
        let n = tag_len(s, marker) as int;
        if n > 0 {
            lemma_word_len(s.skip(1));
            lemma_first_without_tags(s.skip(n), marker);
            if n < s.len() {
                assert(s.skip(n)[0] == s.skip(1)[n - 1]);
            }
        }
    }
}

/// Taking tags out of a text brings no tag into it: none with the same
/// marker, and none with another marker where the text had none.
pub proof fn lemma_without_tags_has_no_tag(s: Seq<char>, marker: char, other: char)
    requires
        other == marker || has_no_tag(s, other),
    ensures
        has_no_tag(without_tags(s, marker), other),
    decreases s.len(),
{
    let r = without_tags(s, marker);
    if s.len() > 0 {
        let n = tag_len(s, marker) as int;
        assert(s.skip(0) =~= s);
        if n > 0 {
            lemma_word_len(s.skip(1));
            if other != marker {
                lemma_suffix_has_no_tag(s, n, other);
            }
            lemma_without_tags_has_no_tag(s.skip(n), marker, other);
        } else {
            let t = s.skip(1);
            let rt = without_tags(t, marker);
            if other != marker {
                lemma_suffix_has_no_tag(s, 1, other);
            }
            lemma_without_tags_has_no_tag(t, marker, other);
            lemma_first_without_tags(t, marker);
            assert(r == seq![s[0]] + rt);
            assert forall|i: int| 0 <= i < r.len() implies tag_len(#[trigger] r.skip(i), other)
                == 0 by {
                if i == 0 {
                    assert(r.skip(0) =~= r);
                    assert(r.skip(1) =~= rt);
                    if r[0] == other && word_len(rt) > 0 {
                        assert(t[0] == rt[0]);
                        assert(word_len(t) > 0);
                        assert(tag_len(s, other) > 0);
                    }
                } else {
                    assert(r.skip(i) =~= rt.skip(i - 1));
                }
            }
        }
    }
}

/// No tag starts in the end of a text in which none starts.
pub proof fn lemma_suffix_has_no_tag(s: Seq<char>, from: int, marker: char)
    requires
        has_no_tag(s, marker),
        0 <= from <= s.len(),
    ensures
        has_no_tag(s.skip(from), marker),
{
    let t = s.skip(from);
    assert forall|i: int| 0 <= i < t.len() implies tag_len(#[trigger] t.skip(i), marker)
        == 0 by {
        assert(t.skip(i) =~= s.skip(from + i));
    }
}

/// No attribute starts in the end of a text in which none starts.
pub proof fn lemma_suffix_has_no_attribute(s: Seq<char>, from: int)
    requires
        has_no_attribute(s),
        0 <= from <= s.len(),
    ensures
        has_no_attribute(s.skip(from)),
{
    let t = s.skip(from);
    assert forall|i: int| 0 <= i < t.len() implies attribute_len(#[trigger] t.skip(i))
        == 0 by {
        assert(t.skip(i) =~= s.skip(from + i));
    }
}

/// Where what the attributes leave begins with a word character, the text
/// begins with that character.
pub proof fn lemma_first_without_attributes(s: Seq<char>)
    ensures
        without_attributes(s).len() > 0 && is_word_char(without_attributes(s)[0]) ==> s.len() > 0
            && s[0] == without_attributes(s)[0],
    decreases s.len(),
{
    if s.len() > 0 {
        let n = attribute_len(s) as int;
        if n > 0 {
            let k = word_len(s) as int;
            lemma_attribute_len(s);
            lemma_word_len(s.skip(k + 1));
            lemma_first_without_attributes(s.skip(n));
            if n < s.len() {
                assert(s.skip(n)[0] == s.skip(k + 1)[n - k - 1]);
            }
        }
    }
}

/// Taking attributes out of a text brings no tag into it.
pub proof fn lemma_without_attributes_has_no_tag(s: Seq<char>, marker: char)
    requires
        has_no_tag(s, marker),
    ensures
        has_no_tag(without_attributes(s), marker),
    decreases s.len(),
{
    let r = without_attributes(s);
    if s.len() > 0 {
        let n = attribute_len(s) as int;
        assert(s.skip(0) =~= s);
        lemma_attribute_len(s);
        if n > 0 {
            lemma_suffix_has_no_tag(s, n, marker);
            lemma_without_attributes_has_no_tag(s.skip(n), marker);
        } else {
            let t = s.skip(1);
            let rt = without_attributes(t);
            lemma_suffix_has_no_tag(s, 1, marker);
            lemma_without_attributes_has_no_tag(t, marker);
            lemma_first_without_attributes(t);
            assert(r == seq![s[0]] + rt);
            assert forall|i: int| 0 <= i < r.len() implies tag_len(#[trigger] r.skip(i), marker)
                == 0 by {
                if i == 0 {
                    assert(r.skip(0) =~= r);
                    assert(r.skip(1) =~= rt);
                    if r[0] == marker && word_len(rt) > 0 {
                        assert(t[0] == rt[0]);
                        assert(word_len(t) > 0);
                        assert(tag_len(s, marker) > 0);
                    }
                } else {
                    assert(r.skip(i) =~= rt.skip(i - 1));
                }
            }
        }
    }
}

/// What is left of a word that begins no attribute, and of what follows it,
/// begins with no attribute either.
proof fn lemma_no_attribute_at_word(s: Seq<char>)
    requires
        s.len() > 0,
        is_word_char(s[0]),
        attribute_len(s) == 0,
    ensures
        attribute_len(without_attributes(s)) == 0,
{
    let r = without_attributes(s);
    let k = word_len(s) as int;
    lemma_word_len(s);
    lemma_word_without_attribute(s, k);
    let behind = s.skip(k);
    let rb = without_attributes(behind);
    assert(r == s.take(k) + rb);
    lemma_first_without_attributes(behind);
    assert(word_len(rb) == 0) by {
        if rb.len() > 0 && is_word_char(rb[0]) {
            assert(behind[0] == s[k]);
        }
    }
    lemma_word_len_behind(s.take(k), rb);
    assert(word_len(r) == k);
    if k < r.len() && r[k] == ':' {
        assert(r[k] == rb[0]);
        assert(behind.len() > 0);
        assert(behind[0] == s[k]);
        assert(word_len(behind) == 0);
        assert(attribute_len(behind) == 0);
        let later = behind.skip(1);
        let rl = without_attributes(later);
        assert(rb == seq![behind[0]] + rl);
        assert(s[k] == ':');
        assert(later =~= s.skip(k + 1));
        assert(word_len(later) == 0);
        lemma_first_without_attributes(later);
        assert(word_len(rl) == 0);
        assert(r.skip(k + 1) =~= rl);
    }
}

/// Taking the attributes out of a text leaves none in it.
pub proof fn lemma_without_attributes_has_no_attribute(s: Seq<char>)
    ensures
        has_no_attribute(without_attributes(s)),
    decreases s.len(),
{
    let r = without_attributes(s);
    if s.len() > 0 {
        let n = attribute_len(s) as int;
        lemma_attribute_len(s);
        if n > 0 {
            lemma_without_attributes_has_no_attribute(s.skip(n));
        } else {
            let rt = without_attributes(s.skip(1));
            lemma_without_attributes_has_no_attribute(s.skip(1));
            assert(r == seq![s[0]] + rt);
            assert forall|i: int| 0 <= i < r.len() implies attribute_len(#[trigger] r.skip(i))
                == 0 by {
                if i == 0 {
                    assert(r.skip(0) =~= r);
                    if is_word_char(s[0]) {
                        lemma_no_attribute_at_word(s);
                    } else {
                        assert(word_len(r) == 0);
                    }
                } else {
                    assert(r.skip(i) =~= rt.skip(i - 1));
                }
            }
        }
    }
}

/// A word that ends before the end of `x` is the same word when more text
/// follows `x`.
proof fn lemma_word_len_inside(x: Seq<char>, z: Seq<char>)
    requires
        word_len(x) < x.len(),
    ensures
        word_len(x + z) == word_len(x),
    decreases x.len(),
{
    if x.len() > 0 && is_word_char(x[0]) {
        assert((x + z).skip(1) =~= x.skip(1) + z);
        lemma_word_len_inside(x.skip(1), z);
    }
}

/// No tag starts in a text without its last character, where none starts
/// in the text.
pub proof fn lemma_drop_last_has_no_tag(s: Seq<char>, marker: char)
    requires
        s.len() > 0,
        has_no_tag(s, marker),
    ensures
        has_no_tag(s.drop_last(), marker),
{
    let u = s.drop_last();
    assert forall|i: int| 0 <= i < u.len() implies tag_len(#[trigger] u.skip(i), marker)
        == 0 by {
        let x = u.skip(i);
        let y = s.skip(i);
        if tag_len(x, marker) > 0 {
            assert(x[0] == y[0]);
            assert(x.skip(1)[0] == y.skip(1)[0]);
            assert(word_len(y.skip(1)) > 0);
            assert(tag_len(y, marker) > 0);
        }
    }
}

/// No attribute starts in a text without its last character, where none
/// starts in the text.
pub proof fn lemma_drop_last_has_no_attribute(s: Seq<char>)
    requires
        s.len() > 0,
        has_no_attribute(s),
    ensures
        has_no_attribute(s.drop_last()),
{
    let u = s.drop_last();
    assert forall|i: int| 0 <= i < u.len() implies attribute_len(#[trigger] u.skip(i))
        == 0 by {
        let x = u.skip(i);
        let y = s.skip(i);
        if attribute_len(x) > 0 {
            let k = word_len(x) as int;
            assert(y =~= x + seq![s.last()]);
            lemma_word_len_inside(x, seq![s.last()]);
            assert(word_len(y) == k);
            assert(y[k] == x[k]);
            assert(x.skip(k + 1)[0] == y.skip(k + 1)[0]);
            assert(word_len(y.skip(k + 1)) > 0);
            assert(attribute_len(y) > 0);
        }
    }
}

/// Trimming brings neither a tag nor an attribute into a text.
pub proof fn lemma_trim_keeps_free(s: Seq<char>, marker: char)
    ensures
        has_no_tag(s, marker) ==> has_no_tag(trim_start(s), marker) && has_no_tag(
            trim_end(s),
            marker,
        ),
        has_no_attribute(s) ==> has_no_attribute(trim_start(s)) && has_no_attribute(trim_end(s)),
    decreases s.len(),
{
    if s.len() > 0 {
        lemma_trim_keeps_free(s.skip(1), marker);
        lemma_trim_keeps_free(s.drop_last(), marker);
        if has_no_tag(s, marker) {
            lemma_suffix_has_no_tag(s, 1, marker);
            lemma_drop_last_has_no_tag(s, marker);
        }
        if has_no_attribute(s) {
            lemma_suffix_has_no_attribute(s, 1);
            lemma_drop_last_has_no_attribute(s);
        }
    }
}

/// What `trim_start` gives begins with no white space; what `trim_end`
/// gives ends with none, and begins as the text does.
pub proof fn lemma_trim_ends(s: Seq<char>)
    ensures
        trim_start(s).len() > 0 ==> !is_whitespace(trim_start(s)[0]),
        trim_end(s).len() > 0 ==> !is_whitespace(trim_end(s).last()) && trim_end(s)[0] == s[0],
    decreases s.len(),
{
    if s.len() > 0 {
        lemma_trim_ends(s.skip(1));
        lemma_trim_ends(s.drop_last());
    }
}

/// A trimmed text is trimmed.
pub proof fn lemma_trim_is_trimmed(s: Seq<char>)
    ensures
        is_trimmed(trim(s)),
{
    lemma_trim_ends(s);
    lemma_trim_ends(trim_start(s));
}

/// Every line is read as a valid task.
pub proof fn lemma_parse_is_valid(line: Seq<char>)
    ensures
        parse(line).is_valid(),
{
    let task = parse(line);
    let body = crate::line::body_of(line);
    let no_projects = without_tags(body, PROJECT_MARKER);
    let no_contexts = without_tags(no_projects, CONTEXT_MARKER);
    let rest = without_attributes(no_contexts);
    lemma_tags_are_words(body, PROJECT_MARKER);
    lemma_tags_are_words(no_projects, CONTEXT_MARKER);
    lemma_attributes_are_words(no_contexts);
    lemma_without_tags_has_no_tag(body, PROJECT_MARKER, PROJECT_MARKER);
    lemma_without_tags_has_no_tag(no_projects, CONTEXT_MARKER, PROJECT_MARKER);
    lemma_without_tags_has_no_tag(no_projects, CONTEXT_MARKER, CONTEXT_MARKER);
    lemma_without_attributes_has_no_tag(no_contexts, PROJECT_MARKER);
    lemma_without_attributes_has_no_tag(no_contexts, CONTEXT_MARKER);
    lemma_without_attributes_has_no_attribute(no_contexts);
    lemma_trim_keeps_free(rest, PROJECT_MARKER);
    lemma_trim_keeps_free(rest, CONTEXT_MARKER);
    lemma_trim_keeps_free(trim_start(rest), PROJECT_MARKER);
    lemma_trim_keeps_free(trim_start(rest), CONTEXT_MARKER);
    lemma_trim_is_trimmed(rest);
}

} // verus!

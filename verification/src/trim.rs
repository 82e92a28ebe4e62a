//! Taking white space off the ends of a text.

use vstd::prelude::*;
use crate::chars::{is_whitespace, whitespace};

verus! {

/// `s` without the white space it starts with.
pub open spec fn trim_start(s: Seq<char>) -> Seq<char>
    decreases s.len(),
{
    if s.len() > 0 && is_whitespace(s[0]) {
        trim_start(s.skip(1))
    } else {
        s
    }
}

/// `s` without the white space it ends with.
pub open spec fn trim_end(s: Seq<char>) -> Seq<char>
    decreases s.len(),
{
    if s.len() > 0 && is_whitespace(s.last()) {
        trim_end(s.drop_last())
    } else {
        s
    }
}

/// `s` without the white space at either end.
pub open spec fn trim(s: Seq<char>) -> Seq<char> {
    trim_end(trim_start(s))
}

/// Neither the first nor the last character of `s` is white space.
pub open spec fn is_trimmed(s: Seq<char>) -> bool {
    s.len() > 0 ==> !is_whitespace(s[0]) && !is_whitespace(s.last())
}

/// The index of the first character of `text` that is not white space, or
/// its length where there is none.
pub(crate) fn start_of_trimmed(text: &Vec<char>) -> (from: usize)
    ensures
        from <= text.len(),
        trim_start(text@) == text@.skip(from as int),
{
    let mut from: usize = 0;
    assert(text@.skip(0) =~= text@);
    while from < text.len() && whitespace(text[from])
        invariant
            from <= text.len(),
            trim_start(text@) == trim_start(text@.skip(from as int)),
        decreases text.len() - from,
    {
        assert(text@.skip(from as int).skip(1) =~= text@.skip(from + 1));
        from += 1;
    }
    from
}

/// The index behind the last character of `text[from..]` that is not white
/// space, or `from` where there is none.
pub(crate) fn end_of_trimmed(text: &Vec<char>, from: usize) -> (to: usize)
    requires
        from <= text.len(),
    ensures
        from <= to <= text.len(),
        trim_end(text@.skip(from as int)) == text@.subrange(from as int, to as int),
{
    let mut to: usize = text.len();
    assert(text@.skip(from as int) =~= text@.subrange(from as int, to as int));
    while from < to && whitespace(text[to - 1])
        invariant
            from <= to <= text.len(),
            trim_end(text@.skip(from as int)) == trim_end(text@.subrange(from as int, to as int)),
        decreases to,
    {
        assert(text@.subrange(from as int, to as int).drop_last() =~= text@.subrange(
            from as int,
            to - 1,
        ));
        to -= 1;
    }
    to
}

} // verus!
